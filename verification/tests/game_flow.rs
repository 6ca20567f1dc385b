use landlord::cards::{get_deck, Card, Suit};
use landlord::game::{Game, GameError, Player};
use landlord::play::Play;

fn c(rank: u8, suit: Suit) -> Card {
    Card { rank, suit }
}

/// A game where player 0 holds exactly `hand0` and the other 50 cards are
/// split between players 1 and 2; the kitty is already empty.
fn game_with_hand0(hand0: Vec<Card>) -> Game {
    let mut rest: Vec<Card> = get_deck()
        .into_iter()
        .filter(|card| !hand0.contains(card))
        .collect();
    assert_eq!(hand0.len() + rest.len(), 54);
    let hand2 = rest.split_off(rest.len() / 2);
    Game {
        players: vec![Player { hand: hand0 }, Player { hand: rest }, Player { hand: hand2 }],
        current_turn_idx: 0,
        pass_count: 0,
        play_sequence: Vec::new(),
        center_pile: Vec::new(),
        winner: None,
        landlord: None,
    }
}

fn total_cards(game: &Game) -> usize {
    let committed: usize = game
        .get_play_sequence()
        .iter()
        .map(|p| match p {
            Play::Single(_) => 1,
            Play::Pair(v) | Play::TripleSolo(v) | Play::Bomb(v) | Play::Sequence(v) => v.len(),
            Play::TripleSingle { triple, .. } => triple.len() + 1,
            Play::TripleDouble { triple, double } => triple.len() + double.len(),
            Play::Airplane { triples } => triples.iter().map(|t| t.len()).sum(),
            Play::QuadTwoSingle { quad, single_1, single_2 } => {
                quad.len() + single_1.len() + single_2.len()
            },
            Play::QuadTwoPair { quad, pair_1, pair_2 } => {
                quad.len() + pair_1.len() + pair_2.len()
            },
        })
        .sum();
    game.get_player(0).hand.len()
        + game.get_player(1).hand.len()
        + game.get_player(2).hand.len()
        + game.get_center_pile().len()
        + committed
}

#[test]
fn new_game_deals_17_17_17_and_3() {
    let game = Game::new();
    assert_eq!(game.get_player(0).hand.len(), 17);
    assert_eq!(game.get_player(1).hand.len(), 17);
    assert_eq!(game.get_player(2).hand.len(), 17);
    assert_eq!(game.get_center_pile().len(), 3);
    assert_eq!(game.get_current_turn_idx(), 0);
    assert_eq!(game.get_pass_count(), 0);
    assert_eq!(game.get_winner(), None);
    assert_eq!(game.get_landlord(), None);
    // every deck card sits in exactly one place
    let deck = get_deck();
    for card in &deck {
        let mut copies = 0;
        for i in 0..3 {
            copies += game.get_player(i).hand.iter().filter(|x| *x == card).count();
        }
        copies += game.get_center_pile().iter().filter(|x| *x == card).count();
        assert_eq!(copies, 1);
    }
}

#[test]
fn deal_hands_out_the_deck_from_the_top() {
    let deck = get_deck();
    let game = Game::deal(deck.clone());
    for j in 0..17 {
        assert_eq!(game.get_player(0).hand[j], deck[53 - j]);
        assert_eq!(game.get_player(1).hand[j], deck[36 - j]);
        assert_eq!(game.get_player(2).hand[j], deck[19 - j]);
    }
    assert_eq!(game.get_center_pile().as_slice(), &deck[0..3]);
}

#[test]
fn take_landlord_moves_kitty_and_turn() {
    let mut game = Game::deal(get_deck());
    let kitty = game.get_center_pile().clone();
    assert_eq!(game.take_landlord(1), Ok(()));
    assert_eq!(game.get_landlord(), Some(1));
    assert_eq!(game.get_current_turn_idx(), 1);
    assert_eq!(game.get_center_pile().len(), 0);
    assert_eq!(game.get_player(1).hand.len(), 20);
    for card in &kitty {
        assert!(game.get_player(1).hand.contains(card));
    }
}

#[test]
fn take_landlord_rejects_bad_index_and_reassignment() {
    let mut game = Game::deal(get_deck());
    assert_eq!(game.take_landlord(3), Err(GameError::InvalidPlayerIndex));
    assert_eq!(game.take_landlord(0), Ok(()));
    assert_eq!(game.take_landlord(1), Err(GameError::LandlordAlreadyAssigned));
}

#[test]
fn take_landlord_rejects_empty_kitty() {
    let mut game = game_with_hand0(vec![c(3, Suit::Spades)]);
    assert_eq!(game.take_landlord(0), Err(GameError::EmptyKitty));
}

#[test]
fn scenario_triple_single_free_lead() {
    // hands: A = {3 spades, 3 hearts, 3 diamonds, 4 spades}, no target
    let a = vec![
        c(3, Suit::Spades),
        c(3, Suit::Hearts),
        c(3, Suit::Diamonds),
        c(4, Suit::Spades),
    ];
    let mut game = game_with_hand0(a.clone());
    assert_eq!(game.play_cards(0, &a), Ok(()));
    match game.get_play_sequence().last() {
        Some(Play::TripleSingle { triple, single }) => {
            for card in triple {
                assert_eq!(card.rank, 3);
            }
            assert_eq!(*single, c(4, Suit::Spades));
        },
        _ => panic!("expected the play to classify as TripleSingle"),
    }
    assert_eq!(game.get_current_turn_idx(), 1);
    assert_eq!(game.get_pass_count(), 0);
    // playing all four cards emptied the hand: player 0 wins at once
    assert_eq!(game.get_winner(), Some(0));
}

#[test]
fn turn_rotates_after_every_play_and_pass() {
    let mut game = game_with_hand0(vec![
        c(3, Suit::Spades),
        c(4, Suit::Spades),
        c(5, Suit::Spades),
    ]);
    assert_eq!(game.play_cards(0, &vec![c(3, Suit::Spades)]), Ok(()));
    assert_eq!(game.get_current_turn_idx(), 1);
    assert_eq!(game.pass(1), Ok(()));
    assert_eq!(game.get_current_turn_idx(), 2);
    assert_eq!(game.get_pass_count(), 1);
    assert_eq!(game.pass(2), Ok(()));
    assert_eq!(game.get_current_turn_idx(), 0);
    assert_eq!(game.get_pass_count(), 2);
}

#[test]
fn forced_lead_after_two_passes() {
    let mut game = game_with_hand0(vec![
        c(3, Suit::Spades),
        c(4, Suit::Spades),
        c(5, Suit::Spades),
    ]);
    assert_eq!(game.play_cards(0, &vec![c(5, Suit::Spades)]), Ok(()));
    assert_eq!(game.pass(1), Ok(()));
    assert_eq!(game.pass(2), Ok(()));
    // the third player in line must play, not pass
    assert_eq!(game.pass(0), Err(GameError::CannotPassTwiceRunning));
    // and the lead is free: a lower card than the prior play is accepted
    assert_eq!(game.play_cards(0, &vec![c(3, Suit::Spades)]), Ok(()));
    assert_eq!(game.get_pass_count(), 0);
}

#[test]
fn not_players_turn_rejected() {
    let mut game = game_with_hand0(vec![c(3, Suit::Spades)]);
    let other = game.get_player(1).hand[0];
    assert_eq!(game.play_cards(1, &vec![other]), Err(GameError::NotPlayersTurn));
    assert_eq!(game.pass(2), Err(GameError::NotPlayersTurn));
    assert_eq!(game.pass(5), Err(GameError::InvalidPlayerIndex));
    assert_eq!(game.play_cards(9, &vec![other]), Err(GameError::InvalidPlayerIndex));
}

#[test]
fn cards_not_in_hand_rejected() {
    let mut game = game_with_hand0(vec![c(3, Suit::Spades), c(4, Suit::Spades)]);
    // player 0 does not hold the 9 of clubs
    assert_eq!(
        game.play_cards(0, &vec![c(9, Suit::Clubs)]),
        Err(GameError::CardsNotInHand)
    );
    // asking twice for a card held once is also refused
    assert_eq!(
        game.play_cards(0, &vec![c(3, Suit::Spades), c(3, Suit::Spades)]),
        Err(GameError::CardsNotInHand)
    );
    // the state is untouched by a failure
    assert_eq!(game.get_player(0).hand.len(), 2);
    assert_eq!(game.get_current_turn_idx(), 0);
}

#[test]
fn invalid_shape_through_play_cards() {
    let mut game = game_with_hand0(vec![c(3, Suit::Spades), c(4, Suit::Spades)]);
    assert_eq!(
        game.play_cards(0, &vec![c(3, Suit::Spades), c(4, Suit::Spades)]),
        Err(GameError::InvalidShape)
    );
}

#[test]
fn rejection_reasons_against_a_target() {
    let mut game = game_with_hand0(vec![
        c(5, Suit::Spades),
        c(5, Suit::Hearts),
        c(9, Suit::Clubs),
    ]);
    // move a known single and a known low pair into player 1's hand
    let keep = vec![c(8, Suit::Clubs), c(3, Suit::Spades), c(3, Suit::Hearts)];
    for card in &keep {
        game.players[1].hand.retain(|x| x != card);
        game.players[2].hand.retain(|x| x != card);
        game.players[1].hand.push(*card);
    }
    assert_eq!(
        game.play_cards(0, &vec![c(5, Suit::Spades), c(5, Suit::Hearts)]),
        Ok(())
    );
    // player 1 answers the pair of 5s
    assert_eq!(
        game.play_cards(1, &vec![c(8, Suit::Clubs)]),
        Err(GameError::ShapeMismatch)
    );
    assert_eq!(
        game.play_cards(1, &vec![c(3, Suit::Spades), c(3, Suit::Hearts)]),
        Err(GameError::DoesNotBeatTarget)
    );
}

#[test]
fn must_answer_bomb_with_bomb() {
    let bomb = vec![
        c(6, Suit::Spades),
        c(6, Suit::Hearts),
        c(6, Suit::Diamonds),
        c(6, Suit::Clubs),
    ];
    let mut hand0 = bomb.clone();
    hand0.push(c(3, Suit::Spades));
    let mut game = game_with_hand0(hand0);
    // move a known pair into player 1's hand for the answer
    let pair = vec![c(10, Suit::Spades), c(10, Suit::Hearts)];
    assert!(game.players[1].hand.contains(&pair[0]) || game.players[2].hand.contains(&pair[0]));
    game.players[1].hand.retain(|x| *x != pair[0] && *x != pair[1]);
    game.players[2].hand.retain(|x| *x != pair[0] && *x != pair[1]);
    game.players[1].hand.push(pair[0]);
    game.players[1].hand.push(pair[1]);
    assert_eq!(game.play_cards(0, &bomb), Ok(()));
    assert_eq!(
        game.play_cards(1, &pair),
        Err(GameError::MustBeatWithBombOrHigher)
    );
}

#[test]
fn win_locks_the_game() {
    let mut game = game_with_hand0(vec![c(8, Suit::Spades)]);
    assert_eq!(game.play_cards(0, &vec![c(8, Suit::Spades)]), Ok(()));
    assert_eq!(game.get_winner(), Some(0));
    assert_eq!(game.get_player(0).hand.len(), 0);
    // no further plays or passes are accepted
    let p1_card = game.get_player(1).hand[0];
    assert_eq!(game.play_cards(1, &vec![p1_card]), Err(GameError::GameAlreadyWon));
    assert_eq!(game.pass(1), Err(GameError::GameAlreadyWon));
    assert_eq!(game.get_winner(), Some(0));
}

#[test]
fn conservation_across_a_round() {
    let mut game = Game::deal(get_deck());
    assert_eq!(total_cards(&game), 54);
    assert_eq!(game.take_landlord(2), Ok(()));
    assert_eq!(total_cards(&game), 54);
    // the landlord leads a single
    let lead = game.get_player(2).hand[0];
    assert_eq!(game.play_cards(2, &vec![lead]), Ok(()));
    assert_eq!(total_cards(&game), 54);
    assert_eq!(game.get_player(2).hand.len(), 19);
    assert_eq!(game.pass(0), Ok(()));
    assert_eq!(total_cards(&game), 54);
}
