use landlord::cards::{get_deck, is_joker, is_two, strength, Card, Suit};
use landlord::game::{Game, GameError};
use landlord::play::Play;

fn c(rank: u8, suit: Suit) -> Card {
    Card { rank, suit }
}

fn classify(cards: Vec<Card>) -> Result<Play, GameError> {
    Game::get_play(&cards)
}

#[test]
fn deck_has_54_distinct_cards() {
    let deck = get_deck();
    assert_eq!(deck.len(), 54);
    for i in 0..54 {
        for j in 0..54 {
            if i != j {
                assert!(deck[i] != deck[j]);
            }
        }
    }
}

#[test]
fn strength_follows_the_canonical_order() {
    // 3 < 4 < ... < K < A < 2 < small joker < big joker
    assert_eq!(strength(&c(3, Suit::Spades)), 3);
    assert_eq!(strength(&c(10, Suit::Hearts)), 10);
    assert_eq!(strength(&c(13, Suit::Clubs)), 13);
    assert_eq!(strength(&c(1, Suit::Diamonds)), 14);
    assert_eq!(strength(&c(2, Suit::Spades)), 15);
    assert_eq!(strength(&c(1, Suit::Joker)), 16);
    assert_eq!(strength(&c(2, Suit::Joker)), 17);
    assert!(is_joker(&c(1, Suit::Joker)));
    assert!(!is_joker(&c(1, Suit::Spades)));
    assert!(is_two(&c(2, Suit::Hearts)));
    assert!(!is_two(&c(2, Suit::Joker)));
}

#[test]
fn classify_single() {
    let r = classify(vec![c(9, Suit::Clubs)]);
    match r {
        Ok(Play::Single(card)) => assert_eq!(card, c(9, Suit::Clubs)),
        _ => panic!("expected Single"),
    }
}

#[test]
fn classify_pair() {
    let r = classify(vec![c(5, Suit::Spades), c(5, Suit::Hearts)]);
    assert!(matches!(r, Ok(Play::Pair(_))));
}

#[test]
fn classify_mismatched_two_cards_invalid() {
    let r = classify(vec![c(5, Suit::Spades), c(6, Suit::Hearts)]);
    assert_eq!(r.err(), Some(GameError::InvalidShape));
}

#[test]
fn classify_rocket_as_bomb() {
    let r = classify(vec![c(1, Suit::Joker), c(2, Suit::Joker)]);
    match r {
        Ok(Play::Bomb(v)) => assert_eq!(v.len(), 2),
        _ => panic!("expected Bomb (rocket)"),
    }
}

#[test]
fn classify_ace_and_small_joker_not_a_pair() {
    // both are stored with rank 1, but their strengths differ
    let r = classify(vec![c(1, Suit::Spades), c(1, Suit::Joker)]);
    assert_eq!(r.err(), Some(GameError::InvalidShape));
}

#[test]
fn classify_triple_solo() {
    let r = classify(vec![c(8, Suit::Spades), c(8, Suit::Hearts), c(8, Suit::Clubs)]);
    assert!(matches!(r, Ok(Play::TripleSolo(_))));
}

#[test]
fn classify_bomb() {
    let r = classify(vec![
        c(12, Suit::Spades),
        c(12, Suit::Hearts),
        c(12, Suit::Diamonds),
        c(12, Suit::Clubs),
    ]);
    match r {
        Ok(Play::Bomb(v)) => assert_eq!(v.len(), 4),
        _ => panic!("expected Bomb"),
    }
}

#[test]
fn classify_triple_single() {
    // three 7s and a 3
    let r = classify(vec![
        c(3, Suit::Spades),
        c(7, Suit::Spades),
        c(7, Suit::Hearts),
        c(7, Suit::Diamonds),
    ]);
    match r {
        Ok(Play::TripleSingle { triple, single }) => {
            assert_eq!(triple.len(), 3);
            for card in &triple {
                assert_eq!(card.rank, 7);
            }
            assert_eq!(single, c(3, Suit::Spades));
        },
        _ => panic!("expected TripleSingle"),
    }
}

#[test]
fn classify_triple_double() {
    let r = classify(vec![
        c(9, Suit::Spades),
        c(4, Suit::Hearts),
        c(9, Suit::Hearts),
        c(4, Suit::Spades),
        c(9, Suit::Diamonds),
    ]);
    match r {
        Ok(Play::TripleDouble { triple, double }) => {
            assert_eq!(triple.len(), 3);
            assert_eq!(double.len(), 2);
            assert_eq!(triple[0].rank, 9);
            assert_eq!(double[0].rank, 4);
        },
        _ => panic!("expected TripleDouble"),
    }
}

#[test]
fn classify_airplane_two_triples() {
    let r = classify(vec![
        c(5, Suit::Spades),
        c(4, Suit::Spades),
        c(5, Suit::Hearts),
        c(4, Suit::Hearts),
        c(5, Suit::Diamonds),
        c(4, Suit::Diamonds),
    ]);
    match r {
        Ok(Play::Airplane { triples }) => {
            assert_eq!(triples.len(), 2);
            assert_eq!(triples[0][0].rank, 4);
            assert_eq!(triples[1][0].rank, 5);
        },
        _ => panic!("expected Airplane(2)"),
    }
}

#[test]
fn classify_airplane_three_triples() {
    // 4-4-4, 5-5-5, 6-6-6
    let mut cards = Vec::new();
    for rank in [4u8, 5, 6] {
        cards.push(c(rank, Suit::Spades));
        cards.push(c(rank, Suit::Hearts));
        cards.push(c(rank, Suit::Diamonds));
    }
    match classify(cards) {
        Ok(Play::Airplane { triples }) => {
            assert_eq!(triples.len(), 3);
            assert_eq!(triples[0][0].rank, 4);
            assert_eq!(triples[2][0].rank, 6);
        },
        _ => panic!("expected Airplane(3)"),
    }
}

#[test]
fn classify_airplane_cannot_cross_two() {
    // A-A-A, 2-2-2 is not consecutive in this game's order
    let mut cards = Vec::new();
    for rank in [1u8, 2] {
        cards.push(c(rank, Suit::Spades));
        cards.push(c(rank, Suit::Hearts));
        cards.push(c(rank, Suit::Diamonds));
    }
    assert_eq!(classify(cards).err(), Some(GameError::InvalidShape));
}

#[test]
fn classify_quad_two_single() {
    let r = classify(vec![
        c(10, Suit::Spades),
        c(10, Suit::Hearts),
        c(3, Suit::Clubs),
        c(10, Suit::Diamonds),
        c(10, Suit::Clubs),
        c(11, Suit::Spades),
    ]);
    match r {
        Ok(Play::QuadTwoSingle { quad, single_1, single_2 }) => {
            assert_eq!(quad.len(), 4);
            assert_eq!(quad[0].rank, 10);
            assert_eq!(single_1.len(), 1);
            assert_eq!(single_2.len(), 1);
            assert!(single_1[0].rank != single_2[0].rank);
        },
        _ => panic!("expected QuadTwoSingle"),
    }
}

#[test]
fn classify_quad_plus_pair_invalid() {
    let r = classify(vec![
        c(10, Suit::Spades),
        c(10, Suit::Hearts),
        c(3, Suit::Clubs),
        c(10, Suit::Diamonds),
        c(10, Suit::Clubs),
        c(3, Suit::Spades),
    ]);
    assert_eq!(r.err(), Some(GameError::InvalidShape));
}

#[test]
fn classify_quad_two_pair() {
    let r = classify(vec![
        c(6, Suit::Spades),
        c(6, Suit::Hearts),
        c(6, Suit::Diamonds),
        c(6, Suit::Clubs),
        c(9, Suit::Spades),
        c(9, Suit::Hearts),
        c(13, Suit::Spades),
        c(13, Suit::Hearts),
    ]);
    match r {
        Ok(Play::QuadTwoPair { quad, pair_1, pair_2 }) => {
            assert_eq!(quad[0].rank, 6);
            assert_eq!(pair_1.len(), 2);
            assert_eq!(pair_2.len(), 2);
            assert!(pair_1[0].rank != pair_2[0].rank);
        },
        _ => panic!("expected QuadTwoPair"),
    }
}

#[test]
fn classify_sequence_five() {
    // 3 4 5 6 7, offered out of order
    let r = classify(vec![
        c(6, Suit::Spades),
        c(3, Suit::Hearts),
        c(7, Suit::Clubs),
        c(4, Suit::Spades),
        c(5, Suit::Diamonds),
    ]);
    match r {
        Ok(Play::Sequence(v)) => {
            assert_eq!(v.len(), 5);
            let ranks: Vec<u8> = v.iter().map(|x| x.rank).collect();
            assert_eq!(ranks, vec![3, 4, 5, 6, 7]);
        },
        _ => panic!("expected Sequence"),
    }
}

#[test]
fn classify_sequence_to_ace() {
    // 10 J Q K A
    let r = classify(vec![
        c(10, Suit::Spades),
        c(11, Suit::Hearts),
        c(12, Suit::Clubs),
        c(13, Suit::Spades),
        c(1, Suit::Diamonds),
    ]);
    assert!(matches!(r, Ok(Play::Sequence(_))));
}

#[test]
fn classify_sequence_with_two_invalid() {
    // J Q K A 2: rank 2 may not sit in a sequence
    let r = classify(vec![
        c(11, Suit::Spades),
        c(12, Suit::Hearts),
        c(13, Suit::Clubs),
        c(1, Suit::Spades),
        c(2, Suit::Diamonds),
    ]);
    assert_eq!(r.err(), Some(GameError::InvalidShape));
}

#[test]
fn classify_four_card_run_invalid() {
    let r = classify(vec![
        c(3, Suit::Spades),
        c(4, Suit::Hearts),
        c(5, Suit::Clubs),
        c(6, Suit::Spades),
    ]);
    assert_eq!(r.err(), Some(GameError::InvalidShape));
}

#[test]
fn classify_twelve_card_sequence() {
    let mut cards = Vec::new();
    for rank in 3u8..=13 {
        cards.push(c(rank, Suit::Spades));
    }
    cards.push(c(1, Suit::Spades));
    match classify(cards) {
        Ok(Play::Sequence(v)) => assert_eq!(v.len(), 12),
        _ => panic!("expected Sequence(12)"),
    }
}

#[test]
fn classify_scattered_cards_invalid() {
    // one 3, one 5, one 9
    let r = classify(vec![c(3, Suit::Spades), c(5, Suit::Hearts), c(9, Suit::Clubs)]);
    assert_eq!(r.err(), Some(GameError::InvalidShape));
}

#[test]
fn classify_empty_invalid() {
    let r = classify(Vec::new());
    assert_eq!(r.err(), Some(GameError::InvalidShape));
}

#[test]
fn classify_seven_cards_invalid() {
    let r = classify(vec![
        c(3, Suit::Spades),
        c(3, Suit::Hearts),
        c(3, Suit::Diamonds),
        c(4, Suit::Spades),
        c(4, Suit::Hearts),
        c(4, Suit::Diamonds),
        c(5, Suit::Spades),
    ]);
    assert_eq!(r.err(), Some(GameError::InvalidShape));
}
