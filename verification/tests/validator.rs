use landlord::cards::{Card, Suit};
use landlord::game::Game;
use landlord::play::Play;

fn c(rank: u8, suit: Suit) -> Card {
    Card { rank, suit }
}

fn play_of(cards: Vec<Card>) -> Play {
    Game::get_play(&cards).expect("cards should classify")
}

fn pair(rank: u8) -> Play {
    play_of(vec![c(rank, Suit::Spades), c(rank, Suit::Hearts)])
}

fn single(rank: u8) -> Play {
    play_of(vec![c(rank, Suit::Spades)])
}

fn bomb(rank: u8) -> Play {
    play_of(vec![
        c(rank, Suit::Spades),
        c(rank, Suit::Hearts),
        c(rank, Suit::Diamonds),
        c(rank, Suit::Clubs),
    ])
}

fn rocket() -> Play {
    play_of(vec![c(1, Suit::Joker), c(2, Suit::Joker)])
}

fn run(lo: u8, len: u8) -> Play {
    let mut cards = Vec::new();
    for i in 0..len {
        cards.push(c(lo + i, Suit::Spades));
    }
    play_of(cards)
}

fn valid_against(target: Play, candidate: &Play) -> bool {
    let sequence = vec![target];
    Game::is_valid_play(&sequence, candidate, 0)
}

#[test]
fn free_lead_accepts_anything() {
    let empty: Vec<Play> = Vec::new();
    assert!(Game::is_valid_play(&empty, &single(3), 0));
}

#[test]
fn two_passes_running_reopen_the_trick() {
    let sequence = vec![pair(13)];
    // with two passes the prior play no longer constrains the next one
    assert!(Game::is_valid_play(&sequence, &single(3), 2));
    // with fewer passes it still does
    assert!(!Game::is_valid_play(&sequence, &single(3), 1));
}

#[test]
fn higher_pair_beats_lower_pair() {
    assert!(valid_against(pair(3), &pair(5)));
}

#[test]
fn lower_or_equal_pair_rejected() {
    assert!(!valid_against(pair(5), &pair(3)));
    assert!(!valid_against(pair(5), &pair(5)));
}

#[test]
fn jokers_outrank_the_two() {
    assert!(valid_against(single(2), &play_of(vec![c(1, Suit::Joker)])));
    assert!(valid_against(
        play_of(vec![c(1, Suit::Joker)]),
        &play_of(vec![c(2, Suit::Joker)])
    ));
}

#[test]
fn two_beats_king_single() {
    // rank 2 outranks king and ace
    assert!(valid_against(single(13), &single(2)));
    assert!(valid_against(single(1), &single(2)));
    assert!(!valid_against(single(2), &single(1)));
}

#[test]
fn shape_mismatch_rejected() {
    assert!(!valid_against(pair(3), &single(13)));
    assert!(!valid_against(single(3), &pair(13)));
}

#[test]
fn chain_length_must_match() {
    assert!(!valid_against(run(3, 5), &run(4, 6)));
    assert!(valid_against(run(3, 5), &run(4, 5)));
    assert!(!valid_against(run(4, 5), &run(3, 5)));
}

#[test]
fn bomb_beats_any_non_bomb() {
    // even the lowest bomb beats the highest pair
    assert!(valid_against(pair(2), &bomb(3)));
    assert!(valid_against(run(3, 5), &bomb(3)));
    assert!(valid_against(single(2), &bomb(3)));
}

#[test]
fn non_bomb_cannot_answer_a_bomb() {
    assert!(!valid_against(bomb(3), &pair(2)));
    assert!(!valid_against(bomb(3), &single(2)));
}

#[test]
fn bombs_compare_by_rank() {
    assert!(valid_against(bomb(5), &bomb(9)));
    assert!(valid_against(bomb(13), &bomb(2)));
    assert!(!valid_against(bomb(9), &bomb(5)));
    assert!(!valid_against(bomb(9), &bomb(9)));
}

#[test]
fn rocket_beats_every_bomb() {
    assert!(valid_against(bomb(2), &rocket()));
    assert!(valid_against(bomb(3), &rocket()));
    assert!(valid_against(pair(2), &rocket()));
    assert!(!valid_against(rocket(), &bomb(2)));
}

#[test]
fn kickers_do_not_affect_comparison() {
    // triple 5s with a big kicker still loses to triple 6s with a small one
    let low = || {
        play_of(vec![
            c(5, Suit::Spades),
            c(5, Suit::Hearts),
            c(5, Suit::Diamonds),
            c(2, Suit::Spades),
        ])
    };
    let high = || {
        play_of(vec![
            c(6, Suit::Spades),
            c(6, Suit::Hearts),
            c(6, Suit::Diamonds),
            c(3, Suit::Spades),
        ])
    };
    assert!(valid_against(low(), &high()));
    assert!(!valid_against(high(), &low()));
}
