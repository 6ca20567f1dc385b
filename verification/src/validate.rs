//! Play legality: whether an offered play may be placed on top of the
//! current trick target.

use vstd::prelude::*;
use crate::cards::{valid_card, strength, lemma_valid_strength};
use crate::play::{Play, PlayKind};
use crate::game::GameError;

verus! {

/// Same variant tag, and for chain shapes the same chain length.
pub open spec fn same_shape(candidate: Play, target: Play) -> bool {
    candidate.kind() == target.kind() && candidate.chain_len() == target.chain_len()
}

/// Whether `candidate` may be placed on top of `target`:
/// a Bomb beats any non-Bomb; among Bombs the Rocket tops every
/// four-of-a-kind and four-of-a-kinds compare by rank; otherwise the shapes
/// must match and the candidate's anchor rank must be strictly higher.
pub open spec fn spec_beats(candidate: Play, target: Play) -> bool {
    if candidate.is_bomb() {
        if target.is_bomb() {
            candidate.bomb_strength() > target.bomb_strength()
        } else {
            true
        }
    } else if target.is_bomb() {
        false
    } else {
        same_shape(candidate, target) && candidate.spec_anchor() > target.spec_anchor()
    }
}

/// The reason a candidate that does not beat the target is refused.
pub open spec fn spec_reject_reason(candidate: Play, target: Play) -> GameError {
    if candidate.is_bomb() {
        GameError::DoesNotBeatTarget
    } else if target.is_bomb() {
        GameError::MustBeatWithBombOrHigher
    } else if !same_shape(candidate, target) {
        GameError::ShapeMismatch
    } else {
        GameError::DoesNotBeatTarget
    }
}

/// The play a candidate must beat, if any: none on a free lead (empty
/// history, or two passes in a row), else the most recently committed play.
pub open spec fn spec_target(sequence: Seq<Play>, pass_count: int) -> Option<Play> {
    if pass_count == 2 || sequence.len() == 0 {
        None
    } else {
        Some(sequence.last())
    }
}

/// Whether the candidate is legal against the trick history and pass streak.
pub open spec fn spec_valid(sequence: Seq<Play>, play: Play, pass_count: int) -> bool {
    match spec_target(sequence, pass_count) {
        None => true,
        Some(t) => spec_beats(play, t),
    }
}

pub fn kind_of(p: &Play) -> (k: PlayKind)
    ensures
        k == p.kind(),
{
    match p {
        Play::Single(_) => PlayKind::Single,
        Play::Pair(_) => PlayKind::Pair,
        Play::TripleSolo(_) => PlayKind::TripleSolo,
        Play::TripleSingle { .. } => PlayKind::TripleSingle,
        Play::TripleDouble { .. } => PlayKind::TripleDouble,
        Play::Airplane { .. } => PlayKind::Airplane,
        Play::QuadTwoSingle { .. } => PlayKind::QuadTwoSingle,
        Play::QuadTwoPair { .. } => PlayKind::QuadTwoPair,
        Play::Bomb(_) => PlayKind::Bomb,
        Play::Sequence(_) => PlayKind::Sequence,
    }
}

/// The anchor rank of a well-formed play.
pub fn anchor_of(p: &Play) -> (r: u8)
    requires
        p.wf(),
    ensures
        r as int == p.spec_anchor(),
{
    match p {
        Play::Single(c) => {
            proof {
                assert(p.spec_cards()[0] == *c);
            }
            strength(c)
        },
        Play::Pair(v) => {
            proof {
                assert(p.spec_cards()[0] == v@[0]);
            }
            strength(&v[0])
        },
        Play::TripleSolo(v) => {
            proof {
                assert(p.spec_cards()[0] == v@[0]);
            }
            strength(&v[0])
        },
        Play::TripleSingle { triple, .. } => {
            proof {
                assert(p.spec_cards()[0] == triple@[0]);
            }
            strength(&triple[0])
        },
        Play::TripleDouble { triple, .. } => {
            proof {
                assert(p.spec_cards()[0] == triple@[0]);
            }
            strength(&triple[0])
        },
        Play::Airplane { triples } => {
            proof {
                assert(triples@[0]@.len() == 3);
            }
            strength(&triples[0][0])
        },
        Play::QuadTwoSingle { quad, .. } => {
            proof {
                assert(p.spec_cards()[0] == quad@[0]);
            }
            strength(&quad[0])
        },
        Play::QuadTwoPair { quad, .. } => {
            proof {
                assert(p.spec_cards()[0] == quad@[0]);
            }
            strength(&quad[0])
        },
        Play::Bomb(v) => {
            proof {
                assert(p.spec_cards()[0] == v@[0]);
            }
            strength(&v[0])
        },
        Play::Sequence(v) => {
            proof {
                assert(p.spec_cards()[0] == v@[0]);
            }
            strength(&v[0])
        },
    }
}

/// The number of links of a chain shape; 0 for other shapes.
pub fn chain_len_of(p: &Play) -> (r: usize)
    ensures
        r as int == p.chain_len(),
{
    match p {
        Play::Airplane { triples } => triples.len(),
        Play::Sequence(v) => v.len(),
        _ => 0,
    }
}

/// Bomb-vs-bomb comparison value of a well-formed bomb.
fn bomb_strength_of(p: &Play) -> (r: u8)
    requires
        p.wf(),
        p.is_bomb(),
    ensures
        r as int == p.bomb_strength(),
{
    match p {
        Play::Bomb(v) => {
            proof {
                assert(p.spec_cards()[0] == v@[0]);
            }
            if v.len() == 2 {
                18
            } else {
                strength(&v[0])
            }
        },
        _ => {
            proof {
                assert(false);
            }
            0
        },
    }
}

/// Whether `candidate` beats `target`, exactly as `spec_beats` says.
pub fn beats(candidate: &Play, target: &Play) -> (r: bool)
    requires
        candidate.wf(),
        target.wf(),
    ensures
        r == spec_beats(*candidate, *target),
{
    let ck = kind_of(candidate);
    let tk = kind_of(target);
    if ck == PlayKind::Bomb {
        if tk == PlayKind::Bomb {
            bomb_strength_of(candidate) > bomb_strength_of(target)
        } else {
            true
        }
    } else if tk == PlayKind::Bomb {
        false
    } else {
        ck == tk && chain_len_of(candidate) == chain_len_of(target) && anchor_of(candidate)
            > anchor_of(target)
    }
}

/// The refusal reason for a candidate that does not beat the target.
pub fn reject_reason(candidate: &Play, target: &Play) -> (e: GameError)
    ensures
        e == spec_reject_reason(*candidate, *target),
{
    let ck = kind_of(candidate);
    let tk = kind_of(target);
    if ck == PlayKind::Bomb {
        GameError::DoesNotBeatTarget
    } else if tk == PlayKind::Bomb {
        GameError::MustBeatWithBombOrHigher
    } else if !(ck == tk && chain_len_of(candidate) == chain_len_of(target)) {
        GameError::ShapeMismatch
    } else {
        GameError::DoesNotBeatTarget
    }
}

/// Validator monotonicity: against a fixed non-Bomb target, a same-shape
/// candidate is accepted exactly when its anchor rank is strictly higher;
/// a lower-or-equal-ranked one is rejected as not beating the target.
pub proof fn lemma_validator_monotonic(candidate: Play, target: Play)
    requires
        !candidate.is_bomb(),
        !target.is_bomb(),
        same_shape(candidate, target),
    ensures
        spec_beats(candidate, target) <==> candidate.spec_anchor() > target.spec_anchor(),
        !spec_beats(candidate, target) ==> spec_reject_reason(candidate, target)
            == GameError::DoesNotBeatTarget,
{
}

/// Bomb override: any Bomb beats any non-Bomb target regardless of rank, and
/// the Rocket beats every four-of-a-kind Bomb.
pub proof fn lemma_bomb_override(candidate: Play, target: Play)
    requires
        candidate.wf(),
        target.wf(),
        candidate.is_bomb(),
    ensures
        !target.is_bomb() ==> spec_beats(candidate, target),
        candidate.is_rocket() && target.is_bomb() && !target.is_rocket() ==> spec_beats(
            candidate,
            target,
        ),
{
    if candidate.is_rocket() && target.is_bomb() && !target.is_rocket() {
        match target {
            Play::Bomb(v) => {
                assert(target.spec_cards()[0] == v@[0]);
                assert(valid_card(v@[0]));
                lemma_valid_strength(v@[0]);
            },
            _ => {},
        }
    }
}

} // verus!
