//! Rules engine for a three-player trick-shedding ("landlord") card game:
//! a rank model, a play-shape classifier, a play-legality validator, and the
//! turn/trick state machine that sequences them.

pub mod cards;
pub mod counting;
pub mod play;
pub mod validate;
pub mod game;
