//! The trick/turn state machine: players, hands, the kitty, and the rules
//! that sequence plays and passes until one hand empties.

use vstd::prelude::*;
use vstd::multiset::Multiset;
use rand::seq::SliceRandom;
use crate::cards::{Card, valid_card, full_deck, get_deck, lemma_full_deck_valid,
    lemma_full_deck_no_duplicates};
use crate::play::{Play, all_valid, classify_cards, classify_post, copy_cards,
    lemma_empty_to_multiset, spec_classify};
use crate::validate::{beats, reject_reason, spec_target, spec_valid};

verus! {

/// Every way an offered action can be refused. All failures are reported as
/// a typed outcome and leave the game unchanged.
#[derive(Clone, Copy, PartialEq, Eq, Structural, Debug)]
pub enum GameError {
    InvalidPlayerIndex,
    NotPlayersTurn,
    CardsNotInHand,
    InvalidShape,
    ShapeMismatch,
    DoesNotBeatTarget,
    MustBeatWithBombOrHigher,
    CannotPassTwiceRunning,
    GameAlreadyWon,
    EmptyKitty,
    LandlordAlreadyAssigned,
}

/// A player: an owned, mutable hand of cards.
pub struct Player {
    pub hand: Vec<Card>,
}

/// The whole game state: three players, the turn pointer, the pass streak,
/// the trick history, the kitty, and the landlord and winner markers.
pub struct Game {
    pub players: Vec<Player>,
    pub current_turn_idx: usize,
    pub pass_count: u8,
    pub play_sequence: Vec<Play>,
    pub center_pile: Vec<Card>,
    pub winner: Option<usize>,
    pub landlord: Option<usize>,
}

/// Whether `candidate` cards beat the target play, stated over the offered
/// cards alone.
pub open spec fn spec_beats_cards(s: Seq<Card>, t: Play) -> bool {
    if spec_classify(s) == Some(crate::play::PlayKind::Bomb) {
        if t.is_bomb() {
            crate::play::bomb_strength_cards(s) > t.bomb_strength()
        } else {
            true
        }
    } else if t.is_bomb() {
        false
    } else {
        &&& spec_classify(s) == Some(t.kind())
        &&& crate::play::chain_len_cards(s) == t.chain_len()
        &&& crate::play::spec_cards_anchor(s) > t.spec_anchor()
    }
}

/// The refusal reason for offered cards that do not beat the target.
pub open spec fn spec_reject_cards(s: Seq<Card>, t: Play) -> GameError {
    if spec_classify(s) == Some(crate::play::PlayKind::Bomb) {
        GameError::DoesNotBeatTarget
    } else if t.is_bomb() {
        GameError::MustBeatWithBombOrHigher
    } else if !(spec_classify(s) == Some(t.kind()) && crate::play::chain_len_cards(s)
        == t.chain_len()) {
        GameError::ShapeMismatch
    } else {
        GameError::DoesNotBeatTarget
    }
}

/// The outcome `take_landlord` owes on any state and player index.
pub open spec fn spec_landlord_result(g: Game, player_idx: int) -> Result<(), GameError> {
    if player_idx >= 3 {
        Err(GameError::InvalidPlayerIndex)
    } else if g.landlord is Some {
        Err(GameError::LandlordAlreadyAssigned)
    } else if g.center_pile@.len() == 0 {
        Err(GameError::EmptyKitty)
    } else {
        Ok(())
    }
}

/// The outcome `play_cards` owes on any state, player index and cards.
pub open spec fn spec_play_result(g: Game, player_idx: int, cards: Seq<Card>) -> Result<
    (),
    GameError,
> {
    if g.winner is Some {
        Err(GameError::GameAlreadyWon)
    } else if player_idx >= 3 {
        Err(GameError::InvalidPlayerIndex)
    } else if player_idx != g.current_turn_idx as int {
        Err(GameError::NotPlayersTurn)
    } else if !cards.to_multiset().subset_of(g.players@[player_idx].hand@.to_multiset()) {
        Err(GameError::CardsNotInHand)
    } else if spec_classify(cards) is None {
        Err(GameError::InvalidShape)
    } else {
        match spec_target(g.play_sequence@, g.pass_count as int) {
            None => Ok(()),
            Some(t) => if spec_beats_cards(cards, t) {
                Ok(())
            } else {
                Err(spec_reject_cards(cards, t))
            },
        }
    }
}

/// The outcome `pass` owes on any state and player index.
pub open spec fn spec_pass_result(g: Game, player_idx: int) -> Result<(), GameError> {
    if g.winner is Some {
        Err(GameError::GameAlreadyWon)
    } else if player_idx >= 3 {
        Err(GameError::InvalidPlayerIndex)
    } else if player_idx != g.current_turn_idx as int {
        Err(GameError::NotPlayersTurn)
    } else if g.pass_count == 2 {
        Err(GameError::CannotPassTwiceRunning)
    } else {
        Ok(())
    }
}

impl Game {
    /// All cards committed into the trick history, in commit order.
    pub open spec fn committed_cards(&self) -> Seq<Card> {
        self.play_sequence@.map_values(|p: Play| p.spec_cards()).flatten()
    }

    /// Every card the game tracks: the three hands, the kitty, and the
    /// committed trick history.
    pub open spec fn all_cards(&self) -> Multiset<Card> {
        self.players@[0].hand@.to_multiset().add(self.players@[1].hand@.to_multiset()).add(
            self.players@[2].hand@.to_multiset(),
        ).add(self.center_pile@.to_multiset()).add(self.committed_cards().to_multiset())
    }

    /// The game invariant: three players, a turn pointer in range, a pass
    /// streak of at most two, well-formed committed plays, and exactly the
    /// 54 deck cards spread over hands, kitty and history.
    pub open spec fn wf(&self) -> bool {
        &&& self.players@.len() == 3
        &&& self.current_turn_idx < 3
        &&& self.pass_count <= 2
        &&& self.all_cards() == full_deck().to_multiset()
        &&& forall|i: int|
            0 <= i < self.play_sequence@.len() ==> (#[trigger] self.play_sequence@[i]).wf()
        &&& match self.winner {
            Some(w) => w < 3,
            None => true,
        }
        &&& match self.landlord {
            Some(l) => l < 3,
            None => true,
        }
    }
}

/// Every card in a tracked hand is a deck card.
pub proof fn lemma_hand_cards_valid(g: Game, i: int)
    requires
        g.wf(),
        0 <= i < 3,
    ensures
        all_valid(g.players@[i].hand@),
{
    broadcast use vstd::seq_lib::group_to_multiset_ensures;
    broadcast use vstd::multiset::group_multiset_axioms;

    lemma_full_deck_valid();
    let h = g.players@[i].hand@;
    assert forall|j: int| 0 <= j < h.len() implies valid_card(#[trigger] h[j]) by {
        assert(h.contains(h[j]));
        assert(h.to_multiset().count(h[j]) > 0);
        assert(g.all_cards().count(h[j]) > 0);
        assert(full_deck().to_multiset().count(h[j]) > 0);
        assert(full_deck().contains(h[j]));
    }
}

/// Conservation: the three hands, the kitty, and the cards committed into
/// the trick history together hold exactly the 54 deck cards; in particular
/// no card ever sits in two of these places at once.
pub proof fn lemma_conservation(g: Game)
    requires
        g.wf(),
    ensures
        g.players@[0].hand@.len() + g.players@[1].hand@.len() + g.players@[2].hand@.len()
            + g.center_pile@.len() + g.committed_cards().len() == 54,
        forall|c: Card|
            g.players@[0].hand@.to_multiset().count(c) + g.players@[1].hand@.to_multiset().count(
                c,
            ) + g.players@[2].hand@.to_multiset().count(c) + g.center_pile@.to_multiset().count(c)
                + g.committed_cards().to_multiset().count(c) <= 1,
{
    broadcast use vstd::seq_lib::group_to_multiset_ensures;
    broadcast use vstd::multiset::group_multiset_axioms;

    lemma_full_deck_no_duplicates();
    full_deck().lemma_multiset_has_no_duplicates();
    assert(g.all_cards().len() == full_deck().to_multiset().len());
    assert(full_deck().to_multiset().len() == 54);
    assert forall|c: Card|
        g.players@[0].hand@.to_multiset().count(c) + g.players@[1].hand@.to_multiset().count(c)
            + g.players@[2].hand@.to_multiset().count(c) + g.center_pile@.to_multiset().count(c)
            + g.committed_cards().to_multiset().count(c) <= 1 by {
        assert(g.all_cards().count(c) == full_deck().to_multiset().count(c));
        if full_deck().to_multiset().count(c) > 0 {
            assert(full_deck().to_multiset().contains(c));
        }
    }
}

/// Finds the position of a card in a hand, if it is there.
fn find_card(hand: &Vec<Card>, card: &Card) -> (r: Option<usize>)
    ensures
        match r {
            Some(i) => i < hand@.len() && hand@[i as int] == *card,
            None => !hand@.contains(*card),
        },
{
    let n = hand.len();
    for i in 0..n
        invariant
            n == hand@.len(),
            forall|j: int| 0 <= j < i ==> hand@[j] != *card,
    {
        if hand[i] == *card {
            return Some(i);
        }
    }
    None
}

/// Removes the offered cards from a copy of the hand, one occurrence each;
/// succeeds exactly when the hand holds them all (as a multiset).
fn remove_cards(hand: &Vec<Card>, cards: &Vec<Card>) -> (r: Result<Vec<Card>, GameError>)
    ensures
        r is Ok <==> cards@.to_multiset().subset_of(hand@.to_multiset()),
        r matches Ok(h) ==> {
            &&& h@.to_multiset() == hand@.to_multiset().sub(cards@.to_multiset())
            &&& h@.len() + cards@.len() == hand@.len()
        },
        r matches Err(e) ==> e == GameError::CardsNotInHand,
{
    broadcast use vstd::seq_lib::group_to_multiset_ensures;
    broadcast use vstd::multiset::group_multiset_axioms;

    let mut h = copy_cards(hand);
    let n = cards.len();
    proof {
        lemma_empty_to_multiset(cards@.take(0));
        assert(h@.to_multiset() =~= hand@.to_multiset().sub(cards@.take(0).to_multiset()));
    }
    for i in 0..n
        invariant
            n == cards@.len(),
            cards@.take(i as int).to_multiset().subset_of(hand@.to_multiset()),
            h@.to_multiset() == hand@.to_multiset().sub(cards@.take(i as int).to_multiset()),
            h@.len() + i == hand@.len(),
    {
        let c = cards[i];
        let ghost pre = cards@.take(i as int);
        proof {
            assert(cards@.take(i + 1) =~= pre.push(c));
            vstd::seq_lib::to_multiset_build::<Card>(pre, c);
        }
        match find_card(&h, &c) {
            Some(pos) => {
                let ghost h0 = h@;
                let _ = h.remove(pos);
                proof {
                    vstd::seq_lib::to_multiset_remove::<Card>(h0, pos as int);
                    assert(h0.contains(c));
                    vstd::seq_lib::to_multiset_contains::<Card>(h0, c);
                    assert(h0.to_multiset().count(c) > 0);
                    assert(hand@.to_multiset().count(c) >= pre.to_multiset().count(c) + 1);
                    assert(cards@.take(i + 1).to_multiset().subset_of(hand@.to_multiset()));
                    assert(h@.to_multiset() =~= hand@.to_multiset().sub(
                        cards@.take(i + 1).to_multiset(),
                    ));
                }
            },
            None => {
                proof {
                    vstd::seq_lib::to_multiset_contains::<Card>(h@, c);
                    assert(h@.to_multiset().count(c) == 0);
                    assert(hand@.to_multiset().count(c) == pre.to_multiset().count(c));
                    assert(cards@ =~= cards@.take(i as int) + cards@.skip(i as int));
                    vstd::seq_lib::lemma_multiset_commutative(
                        cards@.take(i as int),
                        cards@.skip(i as int),
                    );
                    assert(cards@.skip(i as int).len() > 0);
                    assert(cards@.skip(i as int)[0] == c);
                    assert(cards@.skip(i as int).contains(c));
                    vstd::seq_lib::to_multiset_contains::<Card>(cards@.skip(i as int), c);
                    assert(cards@.skip(i as int).to_multiset().count(c) > 0);
                    assert(cards@.to_multiset().count(c) > hand@.to_multiset().count(c));
                }
                return Err(GameError::CardsNotInHand);
            },
        }
    }
    proof {
        assert(cards@.take(n as int) =~= cards@);
    }
    Ok(h)
}

/// Relies on rand's `SliceRandom::shuffle`: it permutes the slice in place
/// by element swaps, so the cards as a multiset are unchanged.
#[verifier::external_body]
fn shuffle_cards(deck: &mut Vec<Card>)
    ensures
        final(deck)@.to_multiset() == old(deck)@.to_multiset(),
{
    deck.as_mut_slice().shuffle(&mut rand::thread_rng());
}

impl Game {
    /// Deals a permutation of the full deck: 17 cards to each of the three
    /// players (from the top of the deck downward), the bottom 3 to the
    /// kitty.
    pub fn deal(deck: Vec<Card>) -> (g: Game)
        requires
            deck@.to_multiset() == full_deck().to_multiset(),
        ensures
            g.wf(),
            g.current_turn_idx == 0,
            g.pass_count == 0,
            g.play_sequence@.len() == 0,
            g.winner is None,
            g.landlord is None,
            forall|i: int| 0 <= i < 3 ==> (#[trigger] g.players@[i]).hand@.len() == 17,
            g.center_pile@.len() == 3,
            forall|j: int| 0 <= j < 17 ==> g.players@[0].hand@[j] == deck@[53 - j],
            forall|j: int| 0 <= j < 17 ==> g.players@[1].hand@[j] == deck@[36 - j],
            forall|j: int| 0 <= j < 17 ==> g.players@[2].hand@[j] == deck@[19 - j],
            g.center_pile@ == deck@.subrange(0, 3),
    {
        broadcast use vstd::seq_lib::group_to_multiset_ensures;
        broadcast use vstd::multiset::group_multiset_axioms;

        proof {
            assert(deck@.to_multiset().len() == deck@.len());
            assert(full_deck().to_multiset().len() == full_deck().len());
            assert(deck@.len() == 54);
        }
        let mut h0: Vec<Card> = Vec::new();
        let mut h1: Vec<Card> = Vec::new();
        let mut h2: Vec<Card> = Vec::new();
        let mut center: Vec<Card> = Vec::new();
        for j in 0..17usize
            invariant
                deck@.len() == 54,
                h0@.len() == j,
                forall|i: int| 0 <= i < j ==> h0@[i] == deck@[53 - i],
        {
            h0.push(deck[53 - j]);
        }
        for j in 0..17usize
            invariant
                deck@.len() == 54,
                h1@.len() == j,
                forall|i: int| 0 <= i < j ==> h1@[i] == deck@[36 - i],
        {
            h1.push(deck[36 - j]);
        }
        for j in 0..17usize
            invariant
                deck@.len() == 54,
                h2@.len() == j,
                forall|i: int| 0 <= i < j ==> h2@[i] == deck@[19 - i],
        {
            h2.push(deck[19 - j]);
        }
        for j in 0..3usize
            invariant
                deck@.len() == 54,
                center@.len() == j,
                forall|i: int| 0 <= i < j ==> center@[i] == deck@[i],
        {
            center.push(deck[j]);
        }
        let ghost gh0 = h0@;
        let ghost gh1 = h1@;
        let ghost gh2 = h2@;
        let mut players: Vec<Player> = Vec::new();
        players.push(Player { hand: h0 });
        players.push(Player { hand: h1 });
        players.push(Player { hand: h2 });
        let g = Game {
            players,
            current_turn_idx: 0,
            pass_count: 0,
            play_sequence: Vec::new(),
            center_pile: center,
            winner: None,
            landlord: None,
        };
        proof {
            assert(g.center_pile@ =~= deck@.subrange(0, 3));
            let hands = gh0 + gh1 + gh2;
            assert(hands =~= deck@.subrange(3, 54).reverse());
            deck@.subrange(3, 54).lemma_reverse_to_multiset();
            vstd::seq_lib::lemma_multiset_commutative(gh0 + gh1, gh2);
            vstd::seq_lib::lemma_multiset_commutative(gh0, gh1);
            assert(deck@ =~= deck@.subrange(0, 3) + deck@.subrange(3, 54));
            vstd::seq_lib::lemma_multiset_commutative(
                deck@.subrange(0, 3),
                deck@.subrange(3, 54),
            );
            assert(g.committed_cards() =~= Seq::<Card>::empty());
            lemma_empty_to_multiset(g.committed_cards());
            assert(g.all_cards() =~= full_deck().to_multiset());
        }
        g
    }

    /// Shuffles a fresh deck and deals it out.
    pub fn new() -> (g: Game)
        ensures
            g.wf(),
            g.current_turn_idx == 0,
            g.pass_count == 0,
            g.play_sequence@.len() == 0,
            g.winner is None,
            g.landlord is None,
            forall|i: int| 0 <= i < 3 ==> (#[trigger] g.players@[i]).hand@.len() == 17,
            g.center_pile@.len() == 3,
    {
        let mut deck = get_deck();
        shuffle_cards(&mut deck);
        Game::deal(deck)
    }

    /// Hands the kitty to the chosen player, who becomes the landlord and
    /// leads first.
    pub fn take_landlord(&mut self, player_idx: usize) -> (r: Result<(), GameError>)
        requires
            old(self).wf(),
        ensures
            final(self).wf(),
            r == spec_landlord_result(*old(self), player_idx as int),
            r is Err ==> *final(self) == *old(self),
            r is Ok ==> {
                &&& final(self).landlord == Some(player_idx)
                &&& final(self).current_turn_idx == player_idx
                &&& final(self).center_pile@.len() == 0
                &&& final(self).players@[player_idx as int].hand@ == old(self).players@[player_idx as int].hand@
                    + old(self).center_pile@
                &&& forall|j: int|
                    0 <= j < 3 && j != player_idx ==> final(self).players@[j] == old(
                        self,
                    ).players@[j]
                &&& final(self).pass_count == old(self).pass_count
                &&& final(self).play_sequence@ == old(self).play_sequence@
                &&& final(self).winner == old(self).winner
            },
    {
        broadcast use vstd::multiset::group_multiset_axioms;

        if player_idx >= 3 {
            return Err(GameError::InvalidPlayerIndex);
        }
        if self.landlord.is_some() {
            return Err(GameError::LandlordAlreadyAssigned);
        }
        if self.center_pile.len() == 0 {
            return Err(GameError::EmptyKitty);
        }
        let ghost g0 = *self;
        let mut pl = self.players.remove(player_idx);
        let ghost hand0 = pl.hand@;
        let m = self.center_pile.len();
        for i in 0..m
            invariant
                m == self.center_pile@.len(),
                pl.hand@ == hand0 + self.center_pile@.take(i as int),
                self.center_pile@ == g0.center_pile@,
        {
            pl.hand.push(self.center_pile[i]);
            proof {
                assert(pl.hand@ =~= hand0 + self.center_pile@.take(i + 1));
            }
        }
        proof {
            assert(pl.hand@ =~= hand0 + g0.center_pile@);
        }
        self.players.insert(player_idx, pl);
        self.center_pile = Vec::new();
        self.current_turn_idx = player_idx;
        self.landlord = Some(player_idx);
        proof {
            assert(self.players@ =~= g0.players@.update(
                player_idx as int,
                self.players@[player_idx as int],
            ));
            vstd::seq_lib::lemma_multiset_commutative(hand0, g0.center_pile@);
            lemma_empty_to_multiset(self.center_pile@);
            assert(self.committed_cards() == g0.committed_cards());
            assert(self.all_cards() =~= g0.all_cards());
        }
        Ok(())
    }

    /// One player's attempt to play a set of cards: checked for turn order,
    /// possession, shape and legality against the trick target; on success
    /// the cards leave the hand, the play joins the history, the pass streak
    /// resets, the turn advances, and an emptied hand wins the game.
    pub fn play_cards(&mut self, player_idx: usize, cards: &Vec<Card>) -> (r: Result<
        (),
        GameError,
    >)
        requires
            old(self).wf(),
        ensures
            final(self).wf(),
            r == spec_play_result(*old(self), player_idx as int, cards@),
            r is Err ==> *final(self) == *old(self),
            r is Ok ==> {
                &&& final(self).players@[player_idx as int].hand@.to_multiset() == old(
                    self,
                ).players@[player_idx as int].hand@.to_multiset().sub(cards@.to_multiset())
                &&& final(self).players@[player_idx as int].hand@.len() + cards@.len() == old(
                    self,
                ).players@[player_idx as int].hand@.len()
                &&& forall|j: int|
                    0 <= j < 3 && j != player_idx ==> final(self).players@[j] == old(
                        self,
                    ).players@[j]
                &&& final(self).play_sequence@.len() == old(self).play_sequence@.len() + 1
                &&& final(self).play_sequence@.drop_last() == old(self).play_sequence@
                &&& final(self).play_sequence@.last().wf()
                &&& Some(final(self).play_sequence@.last().kind()) == spec_classify(cards@)
                &&& final(self).play_sequence@.last().spec_cards().to_multiset()
                    == cards@.to_multiset()
                &&& final(self).current_turn_idx == (old(self).current_turn_idx + 1) % 3
                &&& final(self).pass_count == 0
                &&& final(self).center_pile == old(self).center_pile
                &&& final(self).landlord == old(self).landlord
                &&& final(self).winner == (if final(self).players@[player_idx as int].hand@.len()
                    == 0 {
                    Some(player_idx)
                } else {
                    None::<usize>
                })
            },
    {
        broadcast use vstd::multiset::group_multiset_axioms;

        if self.winner.is_some() {
            return Err(GameError::GameAlreadyWon);
        }
        if player_idx >= 3 {
            return Err(GameError::InvalidPlayerIndex);
        }
        if player_idx != self.current_turn_idx {
            return Err(GameError::NotPlayersTurn);
        }
        let new_hand = match remove_cards(&self.players[player_idx].hand, cards) {
            Ok(h) => h,
            Err(e) => {
                return Err(e);
            },
        };
        proof {
            lemma_hand_cards_valid(*self, player_idx as int);
            broadcast use vstd::seq_lib::group_to_multiset_ensures;

            assert forall|i: int| 0 <= i < cards@.len() implies valid_card(
                #[trigger] cards@[i],
            ) by {
                assert(cards@.contains(cards@[i]));
                vstd::seq_lib::to_multiset_contains::<Card>(cards@, cards@[i]);
                vstd::seq_lib::to_multiset_contains::<Card>(
                    self.players@[player_idx as int].hand@,
                    cards@[i],
                );
            }
        }
        let play = match classify_cards(cards) {
            Ok(p) => p,
            Err(e) => {
                return Err(e);
            },
        };
        if !(self.pass_count == 2 || self.play_sequence.len() == 0) {
            let tlen = self.play_sequence.len();
            let target = &self.play_sequence[tlen - 1];
            if !beats(&play, target) {
                return Err(reject_reason(&play, target));
            }
        }
        let ghost g0 = *self;
        let mut pl = self.players.remove(player_idx);
        pl.hand = new_hand;
        self.players.insert(player_idx, pl);
        self.play_sequence.push(play);
        self.current_turn_idx = (self.current_turn_idx + 1) % 3;
        self.pass_count = 0;
        if self.players[player_idx].hand.len() == 0 {
            self.winner = Some(player_idx);
        }
        proof {
            assert(self.players@ =~= g0.players@.update(
                player_idx as int,
                self.players@[player_idx as int],
            ));
            assert(self.play_sequence@.drop_last() =~= g0.play_sequence@);
            // the committed pile gains exactly the played cards
            let f = |p: Play| p.spec_cards();
            assert(self.play_sequence@.map_values(f) =~= g0.play_sequence@.map_values(f).push(
                play.spec_cards(),
            ));
            g0.play_sequence@.map_values(f).lemma_flatten_push(play.spec_cards());
            vstd::seq_lib::lemma_multiset_commutative(
                g0.play_sequence@.map_values(f).flatten(),
                play.spec_cards(),
            );
            assert(self.all_cards() =~= g0.all_cards());
            assert forall|i: int|
                0 <= i < self.play_sequence@.len() implies (
            #[trigger] self.play_sequence@[i]).wf() by {
                if i < g0.play_sequence@.len() {
                    assert(self.play_sequence@[i] == g0.play_sequence@[i]);
                }
            }
        }
        Ok(())
    }

    /// One player's attempt to pass: refused out of turn and when the pass
    /// streak already stands at two (the forced lead); on success the streak
    /// grows and the turn advances.
    pub fn pass(&mut self, player_idx: usize) -> (r: Result<(), GameError>)
        requires
            old(self).wf(),
        ensures
            final(self).wf(),
            r == spec_pass_result(*old(self), player_idx as int),
            r is Err ==> *final(self) == *old(self),
            r is Ok ==> {
                &&& final(self).pass_count == old(self).pass_count + 1
                &&& final(self).current_turn_idx == (old(self).current_turn_idx + 1) % 3
                &&& final(self).players@ == old(self).players@
                &&& final(self).play_sequence@ == old(self).play_sequence@
                &&& final(self).center_pile == old(self).center_pile
                &&& final(self).winner == old(self).winner
                &&& final(self).landlord == old(self).landlord
            },
    {
        if self.winner.is_some() {
            return Err(GameError::GameAlreadyWon);
        }
        if player_idx >= 3 {
            return Err(GameError::InvalidPlayerIndex);
        }
        if player_idx != self.current_turn_idx {
            return Err(GameError::NotPlayersTurn);
        }
        if self.pass_count == 2 {
            return Err(GameError::CannotPassTwiceRunning);
        }
        self.pass_count = self.pass_count + 1;
        self.current_turn_idx = (self.current_turn_idx + 1) % 3;
        Ok(())
    }

    /// Turns an offered set of cards into the play shape it forms, or
    /// rejects it with `InvalidShape`.
    pub fn get_play(cards: &Vec<Card>) -> (r: Result<Play, GameError>)
        requires
            all_valid(cards@),
        ensures
            classify_post(r, cards@),
    {
        classify_cards(cards)
    }

    /// Whether `play` may be placed on the trick: always on a free lead
    /// (empty history or two passes running), else only by beating the most
    /// recently committed play.
    pub fn is_valid_play(sequence: &Vec<Play>, play: &Play, pass_count: u8) -> (r: bool)
        requires
            play.wf(),
            forall|i: int| 0 <= i < sequence@.len() ==> (#[trigger] sequence@[i]).wf(),
        ensures
            r == spec_valid(sequence@, *play, pass_count as int),
    {
        if pass_count == 2 || sequence.len() == 0 {
            true
        } else {
            let n = sequence.len();
            beats(play, &sequence[n - 1])
        }
    }

    /// The player with the given index.
    pub fn get_player(&self, player_idx: usize) -> (r: &Player)
        requires
            player_idx < self.players@.len(),
        ensures
            *r == self.players@[player_idx as int],
    {
        &self.players[player_idx]
    }

    /// The kitty: cards not yet dealt to any player.
    pub fn get_center_pile(&self) -> (r: &Vec<Card>)
        ensures
            *r == self.center_pile,
    {
        &self.center_pile
    }

    /// The trick history, in commit order.
    pub fn get_play_sequence(&self) -> (r: &Vec<Play>)
        ensures
            *r == self.play_sequence,
    {
        &self.play_sequence
    }

    /// The current pass streak (0, 1 or 2).
    pub fn get_pass_count(&self) -> (r: u8)
        ensures
            r == self.pass_count,
    {
        self.pass_count
    }

    /// Whose turn it is.
    pub fn get_current_turn_idx(&self) -> (r: usize)
        ensures
            r == self.current_turn_idx,
    {
        self.current_turn_idx
    }

    /// The landlord, once assigned.
    pub fn get_landlord(&self) -> (r: Option<usize>)
        ensures
            r == self.landlord,
    {
        self.landlord
    }

    /// The winner, once a hand has emptied.
    pub fn get_winner(&self) -> (r: Option<usize>)
        ensures
            r == self.winner,
    {
        self.winner
    }
}

} // verus!
