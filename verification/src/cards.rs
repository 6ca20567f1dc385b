//! The card model: suits, ranks, the canonical strength order, and the
//! 54-card deck.

use vstd::prelude::*;

verus! {

/// A card's suit. Jokers carry the sentinel `Joker` suit; suit never affects
/// play legality or ranking.
#[derive(Clone, Copy, PartialEq, Eq, Structural, Debug)]
pub enum Suit {
    Spades,
    Hearts,
    Diamonds,
    Clubs,
    Joker,
}

/// An immutable card value: a rank together with a suit. Ordinary cards use
/// ranks 1 (ace) through 13 (king); jokers use rank 1 (small) and 2 (big)
/// under the `Joker` suit.
#[derive(Clone, Copy, PartialEq, Eq, Structural, Debug)]
pub struct Card {
    pub rank: u8,
    pub suit: Suit,
}

/// The canonical strength of a card:
/// 3 < 4 < ... < 10 < J(11) < Q(12) < K(13) < A(14) < 2(15)
/// < small joker(16) < big joker(17).
pub open spec fn spec_strength(c: Card) -> int {
    if c.suit == Suit::Joker {
        if c.rank == 1 {
            16
        } else {
            17
        }
    } else if c.rank == 1 {
        14
    } else if c.rank == 2 {
        15
    } else {
        c.rank as int
    }
}

/// A card that can actually occur in the deck.
pub open spec fn valid_card(c: Card) -> bool {
    if c.suit == Suit::Joker {
        1 <= c.rank <= 2
    } else {
        1 <= c.rank <= 13
    }
}

pub proof fn lemma_valid_strength(c: Card)
    requires
        valid_card(c),
    ensures
        3 <= spec_strength(c) <= 17,
{
}

/// Total strength order of a card, as defined by `spec_strength`.
pub fn strength(c: &Card) -> (r: u8)
    requires
        valid_card(*c),
    ensures
        r as int == spec_strength(*c),
{
    if c.suit == Suit::Joker {
        if c.rank == 1 {
            16
        } else {
            17
        }
    } else if c.rank == 1 {
        14
    } else if c.rank == 2 {
        15
    } else {
        c.rank
    }
}

/// Whether the card is one of the two jokers.
pub fn is_joker(c: &Card) -> (r: bool)
    ensures
        r == (c.suit == Suit::Joker),
{
    c.suit == Suit::Joker
}

/// Whether the card is an ordinary rank-2 card (the highest non-joker rank).
pub fn is_two(c: &Card) -> (r: bool)
    ensures
        r == (c.suit != Suit::Joker && c.rank == 2),
{
    c.suit != Suit::Joker && c.rank == 2
}

/// The suit stored at position `i` within each rank's block of the deck.
pub open spec fn suit_of(i: int) -> Suit {
    if i == 0 {
        Suit::Spades
    } else if i == 1 {
        Suit::Hearts
    } else if i == 2 {
        Suit::Diamonds
    } else {
        Suit::Clubs
    }
}

/// The card at position `i` of the freshly constructed deck.
pub open spec fn deck_card(i: int) -> Card {
    if i < 52 {
        Card { rank: (i / 4 + 1) as u8, suit: suit_of(i % 4) }
    } else if i == 52 {
        Card { rank: 1, suit: Suit::Joker }
    } else {
        Card { rank: 2, suit: Suit::Joker }
    }
}

/// The full 54-card deck: four suits of ranks 1..=13, then the two jokers.
pub open spec fn full_deck() -> Seq<Card> {
    Seq::new(54, |i: int| deck_card(i))
}

pub proof fn lemma_full_deck_valid()
    ensures
        forall|c: Card| full_deck().contains(c) ==> valid_card(c),
{
    assert forall|c: Card| full_deck().contains(c) implies valid_card(c) by {
        let i = choose|i: int| 0 <= i < 54 && full_deck()[i] == c;
        if i < 52 {
            assert(0 <= i / 4 < 13) by (nonlinear_arith)
                requires 0 <= i < 52;
        }
    }
}

/// Distinct deck positions hold distinct cards: no two physical cards are
/// equal as (rank, suit) pairs.
pub proof fn lemma_full_deck_no_duplicates()
    ensures
        full_deck().no_duplicates(),
{
    assert forall|i: int, j: int| 0 <= i < 54 && 0 <= j < 54 && i != j implies full_deck()[i]
        != full_deck()[j] by {
        if i < 52 && j < 52 {
            assert(i == 4 * (i / 4) + i % 4 && 0 <= i % 4 < 4) by (nonlinear_arith)
                requires 0 <= i;
            assert(j == 4 * (j / 4) + j % 4 && 0 <= j % 4 < 4) by (nonlinear_arith)
                requires 0 <= j;
            if i / 4 == j / 4 {
                assert(i % 4 != j % 4);
                assert(suit_of(i % 4) != suit_of(j % 4));
            } else {
                assert(deck_card(i).rank != deck_card(j).rank) by (nonlinear_arith)
                    requires 0 <= i < 52 && 0 <= j < 52 && i / 4 != j / 4;
            }
        }
    }
}

/// Builds the full 54-card deck in its canonical order.
pub fn get_deck() -> (deck: Vec<Card>)
    ensures
        deck@ == full_deck(),
{
    let mut deck: Vec<Card> = Vec::new();
    for rank in 1u8..14
        invariant
            deck@.len() == (rank - 1) * 4,
            forall|i: int| 0 <= i < deck@.len() ==> deck@[i] == deck_card(i),
    {
        let ghost len0 = deck@.len() as int;
        deck.push(Card { rank, suit: Suit::Spades });
        deck.push(Card { rank, suit: Suit::Hearts });
        deck.push(Card { rank, suit: Suit::Diamonds });
        deck.push(Card { rank, suit: Suit::Clubs });
        proof {
            assert forall|i: int| 0 <= i < deck@.len() implies deck@[i] == deck_card(i) by {
                if i >= len0 {
                    assert(i / 4 == rank - 1 && i % 4 == i - len0) by (nonlinear_arith)
                        requires len0 == 4 * (rank - 1) && len0 <= i < len0 + 4 && rank >= 1;
                }
            }
        }
    }
    deck.push(Card { rank: 1, suit: Suit::Joker });
    deck.push(Card { rank: 2, suit: Suit::Joker });
    proof {
        assert(deck@ =~= full_deck());
    }
    deck
}

} // verus!
