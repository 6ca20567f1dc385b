//! Play shapes: the tagged variants a set of offered cards can classify into,
//! and the classifier that recognizes them.

use vstd::prelude::*;
use vstd::multiset::Multiset;
use crate::cards::{Card, spec_strength, valid_card, strength};
use crate::counting::{cnt, cnt_upto, ind, lemma_cnt_all_match, lemma_cnt_exists,
    lemma_cnt_member, lemma_cnt_push, lemma_cnt_skip_prefix, lemma_cnt_two_distinct,
    lemma_outside_window_zero, lemma_window_covers};
use crate::game::GameError;

verus! {

/// A recognized combination. A `Play` owns the exact cards it consumes.
pub enum Play {
    Single(Card),
    Pair(Vec<Card>),
    TripleSolo(Vec<Card>),
    TripleSingle { triple: Vec<Card>, single: Card },
    TripleDouble { triple: Vec<Card>, double: Vec<Card> },
    /// Two or more consecutive-rank triples, no kickers; rank 2 and jokers
    /// are excluded.
    Airplane { triples: Vec<Vec<Card>> },
    QuadTwoSingle { quad: Vec<Card>, single_1: Vec<Card>, single_2: Vec<Card> },
    QuadTwoPair { quad: Vec<Card>, pair_1: Vec<Card>, pair_2: Vec<Card> },
    /// A four-of-a-kind, or the two-joker Rocket.
    Bomb(Vec<Card>),
    /// Five or more consecutive singles, ranks 3..A only.
    Sequence(Vec<Card>),
}

/// The shape tag of a play, without its cards.
#[derive(Clone, Copy, PartialEq, Eq, Structural, Debug)]
pub enum PlayKind {
    Single,
    Pair,
    TripleSolo,
    TripleSingle,
    TripleDouble,
    Airplane,
    QuadTwoSingle,
    QuadTwoPair,
    Bomb,
    Sequence,
}

impl Play {
    /// All cards the play consumes, as one sequence.
    pub open spec fn spec_cards(&self) -> Seq<Card> {
        match self {
            Play::Single(c) => seq![*c],
            Play::Pair(v) => v@,
            Play::TripleSolo(v) => v@,
            Play::TripleSingle { triple, single } => triple@ + seq![*single],
            Play::TripleDouble { triple, double } => triple@ + double@,
            Play::Airplane { triples } => triples@.map_values(|t: Vec<Card>| t@).flatten(),
            Play::QuadTwoSingle { quad, single_1, single_2 } => quad@ + single_1@ + single_2@,
            Play::QuadTwoPair { quad, pair_1, pair_2 } => quad@ + pair_1@ + pair_2@,
            Play::Bomb(v) => v@,
            Play::Sequence(v) => v@,
        }
    }

    pub open spec fn kind(&self) -> PlayKind {
        match self {
            Play::Single(_) => PlayKind::Single,
            Play::Pair(_) => PlayKind::Pair,
            Play::TripleSolo(_) => PlayKind::TripleSolo,
            Play::TripleSingle { .. } => PlayKind::TripleSingle,
            Play::TripleDouble { .. } => PlayKind::TripleDouble,
            Play::Airplane { .. } => PlayKind::Airplane,
            Play::QuadTwoSingle { .. } => PlayKind::QuadTwoSingle,
            Play::QuadTwoPair { .. } => PlayKind::QuadTwoPair,
            Play::Bomb(_) => PlayKind::Bomb,
            Play::Sequence(_) => PlayKind::Sequence,
        }
    }

    pub open spec fn is_bomb(&self) -> bool {
        self is Bomb
    }

    /// The two-joker Rocket, the supreme special case of a Bomb.
    pub open spec fn is_rocket(&self) -> bool {
        match self {
            Play::Bomb(v) => v@.len() == 2,
            _ => false,
        }
    }

    /// For chain shapes, the number of links; 0 for all other shapes.
    pub open spec fn chain_len(&self) -> int {
        match self {
            Play::Airplane { triples } => triples@.len() as int,
            Play::Sequence(v) => v@.len() as int,
            _ => 0,
        }
    }

    /// The single rank value used to compare two plays of the same shape.
    pub open spec fn spec_anchor(&self) -> int {
        match self {
            Play::Single(c) => spec_strength(*c),
            Play::Pair(v) => spec_strength(v@[0]),
            Play::TripleSolo(v) => spec_strength(v@[0]),
            Play::TripleSingle { triple, .. } => spec_strength(triple@[0]),
            Play::TripleDouble { triple, .. } => spec_strength(triple@[0]),
            Play::Airplane { triples } => spec_strength(triples@[0]@[0]),
            Play::QuadTwoSingle { quad, .. } => spec_strength(quad@[0]),
            Play::QuadTwoPair { quad, .. } => spec_strength(quad@[0]),
            Play::Bomb(v) => spec_strength(v@[0]),
            Play::Sequence(v) => spec_strength(v@[0]),
        }
    }

    /// Bomb-vs-bomb comparison value: the Rocket tops every four-of-a-kind.
    pub open spec fn bomb_strength(&self) -> int {
        if self.is_rocket() {
            18
        } else {
            self.spec_anchor()
        }
    }

    /// Structural well-formedness: the stored cards really form the claimed
    /// shape, and all of them are cards the deck can contain.
    pub open spec fn wf(&self) -> bool {
        (forall|i: int|
            0 <= i < self.spec_cards().len() ==> valid_card(#[trigger] self.spec_cards()[i]))
            && match self {
            Play::Single(_) => true,
            Play::Pair(v) => v@.len() == 2 && spec_strength(v@[0]) == spec_strength(v@[1]),
            Play::TripleSolo(v) => all_same(v@) && v@.len() == 3,
            Play::TripleSingle { triple, single } => {
                &&& all_same(triple@)
                &&& triple@.len() == 3
                &&& spec_strength(*single) != spec_strength(triple@[0])
            },
            Play::TripleDouble { triple, double } => {
                &&& all_same(triple@)
                &&& triple@.len() == 3
                &&& all_same(double@)
                &&& double@.len() == 2
                &&& spec_strength(double@[0]) != spec_strength(triple@[0])
            },
            Play::Airplane { triples } => {
                &&& triples@.len() >= 2
                &&& 3 <= spec_strength(triples@[0]@[0])
                &&& spec_strength(triples@[0]@[0]) + triples@.len() <= 15
                &&& forall|j: int|
                    0 <= j < triples@.len() ==> {
                        &&& all_same(#[trigger] triples@[j]@)
                        &&& triples@[j]@.len() == 3
                        &&& spec_strength(triples@[j]@[0]) == spec_strength(triples@[0]@[0]) + j
                    }
            },
            Play::QuadTwoSingle { quad, single_1, single_2 } => {
                &&& all_same(quad@)
                &&& quad@.len() == 4
                &&& single_1@.len() == 1
                &&& single_2@.len() == 1
                &&& spec_strength(single_1@[0]) != spec_strength(single_2@[0])
                &&& spec_strength(single_1@[0]) != spec_strength(quad@[0])
                &&& spec_strength(single_2@[0]) != spec_strength(quad@[0])
            },
            Play::QuadTwoPair { quad, pair_1, pair_2 } => {
                &&& all_same(quad@)
                &&& quad@.len() == 4
                &&& all_same(pair_1@)
                &&& pair_1@.len() == 2
                &&& all_same(pair_2@)
                &&& pair_2@.len() == 2
                &&& spec_strength(pair_1@[0]) != spec_strength(pair_2@[0])
                &&& spec_strength(pair_1@[0]) != spec_strength(quad@[0])
                &&& spec_strength(pair_2@[0]) != spec_strength(quad@[0])
            },
            Play::Bomb(v) => {
                ||| (all_same(v@) && v@.len() == 4)
                ||| (v@.len() == 2 && ((spec_strength(v@[0]) == 16 && spec_strength(v@[1]) == 17)
                    || (spec_strength(v@[0]) == 17 && spec_strength(v@[1]) == 16)))
            },
            Play::Sequence(v) => {
                &&& v@.len() >= 5
                &&& 3 <= spec_strength(v@[0])
                &&& spec_strength(v@[0]) + v@.len() <= 15
                &&& forall|i: int|
                    0 <= i < v@.len() ==> spec_strength(#[trigger] v@[i]) == spec_strength(v@[0])
                        + i
            },
        }
    }
}

/// Every card in the sequence has the same strength.
pub open spec fn all_same(s: Seq<Card>) -> bool {
    forall|i: int| 0 <= i < s.len() ==> spec_strength(#[trigger] s[i]) == spec_strength(s[0])
}

// ---------------------------------------------------------------------------
// Shape predicates over the offered cards, order-independent via `cnt`.
// ---------------------------------------------------------------------------

pub open spec fn is_rocket_cards(s: Seq<Card>) -> bool {
    s.len() == 2 && ((spec_strength(s[0]) == 16 && spec_strength(s[1]) == 17) || (spec_strength(
        s[0],
    ) == 17 && spec_strength(s[1]) == 16))
}

pub open spec fn is_pair_cards(s: Seq<Card>) -> bool {
    s.len() == 2 && spec_strength(s[0]) == spec_strength(s[1])
}

pub open spec fn is_triple_cards(s: Seq<Card>) -> bool {
    s.len() == 3 && all_same(s)
}

pub open spec fn is_bomb4_cards(s: Seq<Card>) -> bool {
    s.len() == 4 && all_same(s)
}

pub open spec fn is_triple_single_cards(s: Seq<Card>) -> bool {
    s.len() == 4 && exists|t: int| #[trigger] cnt(s, t) == 3
}

pub open spec fn is_triple_double_cards(s: Seq<Card>) -> bool {
    s.len() == 5 && (exists|t: int| #[trigger] cnt(s, t) == 3) && (exists|p: int| #[trigger] cnt(
        s,
        p,
    ) == 2)
}

pub open spec fn is_quad_two_single_cards(s: Seq<Card>) -> bool {
    s.len() == 6 && (exists|q: int| #[trigger] cnt(s, q) == 4) && (exists|a: int, b: int|
        a != b && #[trigger] cnt(s, a) == 1 && #[trigger] cnt(s, b) == 1)
}

pub open spec fn is_quad_two_pair_cards(s: Seq<Card>) -> bool {
    s.len() == 8 && (exists|q: int| #[trigger] cnt(s, q) == 4) && (exists|a: int, b: int|
        a != b && #[trigger] cnt(s, a) == 2 && #[trigger] cnt(s, b) == 2)
}

/// An airplane whose lowest triple has strength `lo`.
pub open spec fn is_airplane_at(s: Seq<Card>, lo: int) -> bool {
    &&& s.len() >= 6
    &&& s.len() % 3 == 0
    &&& 3 <= lo
    &&& lo + s.len() / 3 <= 15
    &&& forall|k: int| lo <= k < lo + s.len() / 3 ==> #[trigger] cnt(s, k) == 3
}

pub open spec fn is_airplane_cards(s: Seq<Card>) -> bool {
    exists|lo: int| is_airplane_at(s, lo)
}

/// A run of consecutive singles starting at strength `lo`, ranks 3..A only.
pub open spec fn is_sequence_at(s: Seq<Card>, lo: int) -> bool {
    &&& s.len() >= 5
    &&& 3 <= lo
    &&& lo + s.len() <= 15
    &&& forall|k: int| lo <= k < lo + s.len() ==> #[trigger] cnt(s, k) == 1
}

pub open spec fn is_sequence_cards(s: Seq<Card>) -> bool {
    exists|lo: int| is_sequence_at(s, lo)
}

/// The recognized shape of an offered set of cards, if any: the composition
/// of per-rank counts decides, never card order.
pub open spec fn spec_classify(s: Seq<Card>) -> Option<PlayKind> {
    if s.len() == 1 {
        Some(PlayKind::Single)
    } else if is_rocket_cards(s) {
        Some(PlayKind::Bomb)
    } else if is_pair_cards(s) {
        Some(PlayKind::Pair)
    } else if is_triple_cards(s) {
        Some(PlayKind::TripleSolo)
    } else if is_bomb4_cards(s) {
        Some(PlayKind::Bomb)
    } else if is_triple_single_cards(s) {
        Some(PlayKind::TripleSingle)
    } else if is_triple_double_cards(s) {
        Some(PlayKind::TripleDouble)
    } else if is_quad_two_single_cards(s) {
        Some(PlayKind::QuadTwoSingle)
    } else if is_quad_two_pair_cards(s) {
        Some(PlayKind::QuadTwoPair)
    } else if is_airplane_cards(s) {
        Some(PlayKind::Airplane)
    } else if is_sequence_cards(s) {
        Some(PlayKind::Sequence)
    } else {
        None
    }
}

/// The strength with three of a kind among the offered cards.
pub open spec fn triple_rank(s: Seq<Card>) -> int {
    choose|t: int| #[trigger] cnt(s, t) == 3
}

/// The strength with four of a kind among the offered cards.
pub open spec fn quad_rank(s: Seq<Card>) -> int {
    choose|q: int| #[trigger] cnt(s, q) == 4
}

pub open spec fn sequence_low(s: Seq<Card>) -> int {
    choose|lo: int| is_sequence_at(s, lo)
}

pub open spec fn airplane_low(s: Seq<Card>) -> int {
    choose|lo: int| is_airplane_at(s, lo)
}

/// The anchor rank of an offered set of cards, as a function of the cards
/// alone (meaningful when `spec_classify` recognizes them).
pub open spec fn spec_cards_anchor(s: Seq<Card>) -> int {
    match spec_classify(s) {
        Some(k) => match k {
            PlayKind::Single => spec_strength(s[0]),
            PlayKind::Pair => spec_strength(s[0]),
            PlayKind::TripleSolo => spec_strength(s[0]),
            PlayKind::Bomb => spec_strength(s[0]),
            PlayKind::TripleSingle => triple_rank(s),
            PlayKind::TripleDouble => triple_rank(s),
            PlayKind::QuadTwoSingle => quad_rank(s),
            PlayKind::QuadTwoPair => quad_rank(s),
            PlayKind::Airplane => airplane_low(s),
            PlayKind::Sequence => sequence_low(s),
        },
        None => 0,
    }
}

/// Bomb comparison value of offered cards that classify as a Bomb.
pub open spec fn bomb_strength_cards(s: Seq<Card>) -> int {
    if is_rocket_cards(s) {
        18
    } else {
        spec_cards_anchor(s)
    }
}

/// Chain length of an offered set of cards (meaningful for chain shapes).
pub open spec fn chain_len_cards(s: Seq<Card>) -> int {
    match spec_classify(s) {
        Some(PlayKind::Airplane) => s.len() as int / 3,
        Some(PlayKind::Sequence) => s.len() as int,
        _ => 0,
    }
}

/// All cards valid, stated once for brevity.
pub open spec fn all_valid(s: Seq<Card>) -> bool {
    forall|i: int| 0 <= i < s.len() ==> valid_card(#[trigger] s[i])
}

/// Validity carries across any permutation.
proof fn lemma_valid_from_multiset(a: Seq<Card>, b: Seq<Card>)
    requires
        a.to_multiset() == b.to_multiset(),
        all_valid(b),
    ensures
        all_valid(a),
{
    broadcast use vstd::seq_lib::group_to_multiset_ensures;

    assert forall|i: int| 0 <= i < a.len() implies valid_card(#[trigger] a[i]) by {
        assert(a.contains(a[i]));
        assert(a.to_multiset().count(a[i]) > 0);
        assert(b.to_multiset().count(a[i]) > 0);
        assert(b.contains(a[i]));
        let j = choose|j: int| 0 <= j < b.len() && b[j] == a[i];
        assert(valid_card(b[j]));
    }
}

proof fn lemma_cnt_len2(s: Seq<Card>, x: int)
    requires
        s.len() == 2,
    ensures
        cnt(s, x) == ind(s[0], x) + ind(s[1], x),
{
    assert(cnt_upto(s, x, 0) == 0);
    assert(cnt_upto(s, x, 1) == ind(s[0], x));
}

/// Number of cards in `cards` whose strength is `k`.
fn cnt_of(cards: &Vec<Card>, k: u8) -> (r: usize)
    requires
        all_valid(cards@),
    ensures
        r == cnt(cards@, k as int),
{
    let n = cards.len();
    let mut r: usize = 0;
    for i in 0..n
        invariant
            n == cards@.len(),
            all_valid(cards@),
            0 <= r <= i,
            r == cnt_upto(cards@, k as int, i as int),
    {
        if strength(&cards[i]) == k {
            r = r + 1;
        }
    }
    r
}

/// The least strength among a non-empty set of cards.
fn min_strength(cards: &Vec<Card>) -> (r: u8)
    requires
        all_valid(cards@),
        cards@.len() > 0,
    ensures
        exists|i: int| 0 <= i < cards@.len() && spec_strength(cards@[i]) == r as int,
        forall|i: int| 0 <= i < cards@.len() ==> spec_strength(#[trigger] cards@[i]) >= r as int,
        3 <= r <= 17,
{
    let n = cards.len();
    let mut r = strength(&cards[0]);
    for i in 1..n
        invariant
            n == cards@.len(),
            all_valid(cards@),
            exists|j: int| 0 <= j < i && spec_strength(cards@[j]) == r as int,
            forall|j: int| 0 <= j < i ==> spec_strength(#[trigger] cards@[j]) >= r as int,
            3 <= r <= 17,
    {
        let s = strength(&cards[i]);
        if s < r {
            r = s;
        }
    }
    r
}

/// A plain element-for-element copy.
pub(crate) fn copy_cards(cards: &Vec<Card>) -> (r: Vec<Card>)
    ensures
        r@ == cards@,
{
    let n = cards.len();
    let mut r: Vec<Card> = Vec::new();
    for i in 0..n
        invariant
            n == cards@.len(),
            r@ == cards@.take(i as int),
    {
        r.push(cards[i]);
        proof {
            assert(r@ =~= cards@.take(i + 1));
        }
    }
    proof {
        assert(cards@.take(n as int) =~= cards@);
    }
    r
}

/// Splits the cards into those of strength `k` and the rest, keeping order.
fn split_by_strength(cards: &Vec<Card>, k: u8) -> (r: (Vec<Card>, Vec<Card>))
    requires
        all_valid(cards@),
    ensures
        all_valid(r.0@),
        all_valid(r.1@),
        r.0@.len() == cnt(cards@, k as int),
        r.0@.len() + r.1@.len() == cards@.len(),
        forall|i: int| 0 <= i < r.0@.len() ==> spec_strength(#[trigger] r.0@[i]) == k as int,
        forall|i: int| 0 <= i < r.1@.len() ==> spec_strength(#[trigger] r.1@[i]) != k as int,
        forall|x: int|
            #[trigger] cnt(r.0@, x) == if x == k as int {
                cnt(cards@, x)
            } else {
                0
            },
        forall|x: int|
            #[trigger] cnt(r.1@, x) == if x == k as int {
                0
            } else {
                cnt(cards@, x)
            },
        r.0@.to_multiset().add(r.1@.to_multiset()) == cards@.to_multiset(),
{
    broadcast use vstd::seq_lib::group_to_multiset_ensures;

    let n = cards.len();
    let mut a: Vec<Card> = Vec::new();
    let mut b: Vec<Card> = Vec::new();
    for i in 0..n
        invariant
            n == cards@.len(),
            all_valid(cards@),
            all_valid(a@),
            all_valid(b@),
            a@.len() == cnt_upto(cards@, k as int, i as int),
            a@.len() + b@.len() == i,
            forall|j: int| 0 <= j < a@.len() ==> spec_strength(#[trigger] a@[j]) == k as int,
            forall|j: int| 0 <= j < b@.len() ==> spec_strength(#[trigger] b@[j]) != k as int,
            forall|x: int|
                #[trigger] cnt(a@, x) == if x == k as int {
                    cnt_upto(cards@, x, i as int)
                } else {
                    0
                },
            forall|x: int|
                #[trigger] cnt(b@, x) == if x == k as int {
                    0
                } else {
                    cnt_upto(cards@, x, i as int)
                },
            a@.to_multiset().add(b@.to_multiset()) == cards@.take(i as int).to_multiset(),
    {
        let ghost a0 = a@;
        let ghost b0 = b@;
        let c = cards[i];
        if strength(&c) == k {
            a.push(c);
        } else {
            b.push(c);
        }
        proof {
            assert forall|x: int| #[trigger] cnt(a@, x) == if x == k as int {
                cnt_upto(cards@, x, i + 1)
            } else {
                0
            } by {
                if a@ != a0 {
                    lemma_cnt_push(a0, c, x);
                }
            }
            assert forall|x: int| #[trigger] cnt(b@, x) == if x == k as int {
                0
            } else {
                cnt_upto(cards@, x, i + 1)
            } by {
                if b@ != b0 {
                    lemma_cnt_push(b0, c, x);
                }
            }
            broadcast use vstd::multiset::group_multiset_axioms;

            let cpre = cards@.take(i as int);
            assert(cards@.take(i + 1) =~= cpre.push(c));
            vstd::seq_lib::to_multiset_build::<Card>(cpre, c);
            if a@ != a0 {
                vstd::seq_lib::to_multiset_build::<Card>(a0, c);
            } else {
                vstd::seq_lib::to_multiset_build::<Card>(b0, c);
            }
            assert(a@.to_multiset().add(b@.to_multiset()) =~= cards@.take(i + 1).to_multiset());
        }
    }
    proof {
        assert(cards@.take(n as int) =~= cards@);
    }
    (a, b)
}

proof fn lemma_seq_window(s: Seq<Card>, lo: int)
    requires
        is_sequence_at(s, lo),
    ensures
        forall|i: int| 0 <= i < s.len() ==> lo <= #[trigger] spec_strength(s[i]) < lo + s.len(),
{
    lemma_window_covers(s, lo, s.len() as int, 1);
}

proof fn lemma_air_window(s: Seq<Card>, lo: int)
    requires
        is_airplane_at(s, lo),
    ensures
        forall|i: int|
            0 <= i < s.len() ==> lo <= #[trigger] spec_strength(s[i]) < lo + s.len() / 3,
{
    assert(3 * (s.len() as int / 3) == s.len() as int) by (nonlinear_arith)
        requires s.len() as int % 3 == 0 && s.len() >= 0;
    lemma_window_covers(s, lo, s.len() as int / 3, 3);
}

proof fn lemma_sequence_at_unique(s: Seq<Card>, a: int, b: int)
    requires
        is_sequence_at(s, a),
        is_sequence_at(s, b),
    ensures
        a == b,
{
    lemma_seq_window(s, a);
    lemma_seq_window(s, b);
    assert(cnt(s, a) == 1);
    assert(cnt(s, b) == 1);
    lemma_cnt_exists(s, a, s.len() as int);
    lemma_cnt_exists(s, b, s.len() as int);
}

proof fn lemma_airplane_at_unique(s: Seq<Card>, a: int, b: int)
    requires
        is_airplane_at(s, a),
        is_airplane_at(s, b),
    ensures
        a == b,
{
    lemma_air_window(s, a);
    lemma_air_window(s, b);
    assert(cnt(s, a) == 3);
    assert(cnt(s, b) == 3);
    lemma_cnt_exists(s, a, s.len() as int);
    lemma_cnt_exists(s, b, s.len() as int);
}

/// A strength held two or more times rules a single-run sequence out.
proof fn lemma_repeat_no_sequence(s: Seq<Card>, x: int)
    requires
        cnt(s, x) >= 2,
    ensures
        !is_sequence_cards(s),
{
    if is_sequence_cards(s) {
        let lo = choose|lo: int| is_sequence_at(s, lo);
        lemma_seq_window(s, lo);
        if !(lo <= x < lo + s.len()) {
            lemma_outside_window_zero(s, lo, s.len() as int, x);
        }
    }
}

/// A strength held four or more times rules an airplane out.
proof fn lemma_quad_no_airplane(s: Seq<Card>, x: int)
    requires
        cnt(s, x) >= 4,
    ensures
        !is_airplane_cards(s),
{
    if is_airplane_cards(s) {
        let lo = choose|lo: int| is_airplane_at(s, lo);
        lemma_air_window(s, lo);
        if !(lo <= x < lo + s.len() / 3) {
            lemma_outside_window_zero(s, lo, s.len() as int / 3, x);
        }
    }
}

pub(crate) proof fn lemma_empty_to_multiset(s: Seq<Card>)
    requires
        s.len() == 0,
    ensures
        s.to_multiset() =~= Multiset::<Card>::empty(),
{
    broadcast use vstd::seq_lib::group_to_multiset_ensures;
    broadcast use vstd::multiset::group_multiset_axioms;

    assert forall|c: Card| s.to_multiset().count(c) == 0 by {
        if s.to_multiset().count(c) > 0 {
            assert(s.contains(c));
        }
    }
}

/// A strength that occurs, in a set whose strengths all lie at or above the
/// minimum and which all lie at or above `l`, while `l` itself occurs: then
/// `l` is the minimum.
proof fn lemma_min_pins_low(s: Seq<Card>, lo_min: int, l: int)
    requires
        s.len() > 0,
        forall|i: int| 0 <= i < s.len() ==> spec_strength(#[trigger] s[i]) >= lo_min,
        exists|i: int| 0 <= i < s.len() && spec_strength(s[i]) == lo_min,
        forall|i: int| 0 <= i < s.len() ==> l <= #[trigger] spec_strength(s[i]),
        cnt(s, l) >= 1,
    ensures
        l == lo_min,
{
    let wi = choose|i: int| 0 <= i < s.len() && spec_strength(s[i]) == lo_min;
    assert(l <= spec_strength(s[wi]));
    lemma_cnt_exists(s, l, s.len() as int);
    let wj = choose|i: int| 0 <= i < s.len() && spec_strength(s[i]) == l;
    assert(spec_strength(s[wj]) >= lo_min);
}

/// What the classifier promises of its result on any offered cards.
pub open spec fn classify_post(r: Result<Play, GameError>, s: Seq<Card>) -> bool {
    &&& (r is Ok <==> spec_classify(s) is Some)
    &&& match r {
        Ok(p) => {
            &&& p.wf()
            &&& p.spec_cards().to_multiset() == s.to_multiset()
            &&& Some(p.kind()) == spec_classify(s)
            &&& p.spec_anchor() == spec_cards_anchor(s)
            &&& p.chain_len() == chain_len_cards(s)
            &&& p.is_rocket() == is_rocket_cards(s)
        },
        Err(e) => e == GameError::InvalidShape,
    }
}

/// Recognizes a run of consecutive singles (ranks 3..A, length 5 or more).
fn try_sequence(cards: &Vec<Card>) -> (r: Option<Play>)
    requires
        all_valid(cards@),
        cards@.len() >= 5,
    ensures
        r is Some <==> is_sequence_cards(cards@),
        r matches Some(p) ==> {
            &&& p.wf()
            &&& p is Sequence
            &&& p.spec_cards().to_multiset() == cards@.to_multiset()
            &&& p.spec_anchor() == sequence_low(cards@)
            &&& is_sequence_at(cards@, p.spec_anchor())
            &&& p.chain_len() == cards@.len()
        },
{
    broadcast use vstd::multiset::group_multiset_axioms;

    let n = cards.len();
    if n > 12 {
        return None;
    }
    let lo = min_strength(cards);
    if lo < 3 || (lo as usize) + n > 15 {
        proof {
            if is_sequence_cards(cards@) {
                let l = choose|l: int| is_sequence_at(cards@, l);
                lemma_seq_window(cards@, l);
                assert(cnt(cards@, l) == 1);
                lemma_cnt_exists(cards@, l, n as int);
            }
        }
        return None;
    }
    let mut k: usize = 0;
    while k < n
        invariant
            n == cards@.len(),
            5 <= n <= 12,
            all_valid(cards@),
            3 <= lo,
            lo as int + n <= 15,
            k <= n,
            exists|i: int| 0 <= i < cards@.len() && spec_strength(cards@[i]) == lo as int,
            forall|i: int|
                0 <= i < cards@.len() ==> spec_strength(#[trigger] cards@[i]) >= lo as int,
            forall|x: int| lo as int <= x < lo as int + k ==> #[trigger] cnt(cards@, x) == 1,
        decreases n - k,
    {
        let kk = (lo as usize + k) as u8;
        if cnt_of(cards, kk) != 1 {
            proof {
                if is_sequence_cards(cards@) {
                    let l = choose|l: int| is_sequence_at(cards@, l);
                    lemma_seq_window(cards@, l);
                    assert(cnt(cards@, l) == 1);
                    lemma_min_pins_low(cards@, lo as int, l);
                    assert(cnt(cards@, lo as int + k) == 1);
                }
            }
            return None;
        }
        k = k + 1;
    }
    proof {
        assert(is_sequence_at(cards@, lo as int));
    }
    // build the run in ascending strength order
    let mut v: Vec<Card> = Vec::new();
    let mut remaining = copy_cards(cards);
    proof {
        lemma_empty_to_multiset(v@);
        assert(v@.to_multiset().add(remaining@.to_multiset()) =~= cards@.to_multiset());
    }
    let mut j: usize = 0;
    while j < n
        invariant
            n == cards@.len(),
            5 <= n <= 12,
            all_valid(cards@),
            all_valid(remaining@),
            all_valid(v@),
            3 <= lo,
            lo as int + n <= 15,
            j <= n,
            v@.len() == j,
            remaining@.len() + j == n,
            is_sequence_at(cards@, lo as int),
            forall|i: int| 0 <= i < j ==> spec_strength(#[trigger] v@[i]) == lo as int + i,
            forall|x: int|
                #[trigger] cnt(remaining@, x) == if lo as int <= x < lo as int + j {
                    0
                } else {
                    cnt(cards@, x)
                },
            v@.to_multiset().add(remaining@.to_multiset()) == cards@.to_multiset(),
        decreases n - j,
    {
        let kk = (lo as usize + j) as u8;
        let (found, rest) = split_by_strength(&remaining, kk);
        proof {
            assert(cnt(remaining@, kk as int) == cnt(cards@, kk as int));
            assert(cnt(cards@, kk as int) == 1);
        }
        let ghost v0 = v@;
        let c = found[0];
        v.push(c);
        proof {
            vstd::seq_lib::to_multiset_build::<Card>(v0, c);
            assert(found@ =~= Seq::<Card>::empty().push(c));
            vstd::seq_lib::to_multiset_build::<Card>(Seq::<Card>::empty(), c);
            lemma_empty_to_multiset(Seq::<Card>::empty());
            assert(v@.to_multiset().add(rest@.to_multiset()) =~= cards@.to_multiset());
        }
        remaining = rest;
        j = j + 1;
    }
    proof {
        lemma_empty_to_multiset(remaining@);
        assert(v@.to_multiset() =~= v@.to_multiset().add(remaining@.to_multiset()));
        let p = Play::Sequence(v);
        lemma_valid_from_multiset(p.spec_cards(), cards@);
        assert(p.wf());
        lemma_sequence_at_unique(cards@, lo as int, sequence_low(cards@));
    }
    Some(Play::Sequence(v))
}

/// Recognizes two or more consecutive-rank triples.
fn try_airplane(cards: &Vec<Card>) -> (r: Option<Play>)
    requires
        all_valid(cards@),
        cards@.len() >= 6,
        cards@.len() % 3 == 0,
    ensures
        r is Some <==> is_airplane_cards(cards@),
        r matches Some(p) ==> {
            &&& p.wf()
            &&& p is Airplane
            &&& p.spec_cards().to_multiset() == cards@.to_multiset()
            &&& p.spec_anchor() == airplane_low(cards@)
            &&& is_airplane_at(cards@, p.spec_anchor())
            &&& p.chain_len() == cards@.len() / 3
        },
{
    broadcast use vstd::multiset::group_multiset_axioms;

    let n = cards.len();
    let m = n / 3;
    proof {
        assert(3 * (m as int) == n as int) by (nonlinear_arith)
            requires m as int == n as int / 3 && n as int % 3 == 0 && n >= 0;
    }
    if m > 12 {
        return None;
    }
    let lo = min_strength(cards);
    if lo < 3 || (lo as usize) + m > 15 {
        proof {
            if is_airplane_cards(cards@) {
                let l = choose|l: int| is_airplane_at(cards@, l);
                lemma_air_window(cards@, l);
                assert(cnt(cards@, l) == 3);
                lemma_cnt_exists(cards@, l, n as int);
            }
        }
        return None;
    }
    let mut k: usize = 0;
    while k < m
        invariant
            n == cards@.len(),
            6 <= n,
            m == n as int / 3,
            3 * (m as int) == n as int,
            m <= 12,
            all_valid(cards@),
            3 <= lo,
            lo as int + m <= 15,
            k <= m,
            exists|i: int| 0 <= i < cards@.len() && spec_strength(cards@[i]) == lo as int,
            forall|i: int|
                0 <= i < cards@.len() ==> spec_strength(#[trigger] cards@[i]) >= lo as int,
            forall|x: int| lo as int <= x < lo as int + k ==> #[trigger] cnt(cards@, x) == 3,
        decreases m - k,
    {
        let kk = (lo as usize + k) as u8;
        if cnt_of(cards, kk) != 3 {
            proof {
                if is_airplane_cards(cards@) {
                    let l = choose|l: int| is_airplane_at(cards@, l);
                    lemma_air_window(cards@, l);
                    assert(cnt(cards@, l) == 3);
                    lemma_min_pins_low(cards@, lo as int, l);
                    assert(cnt(cards@, lo as int + k) == 3);
                }
            }
            return None;
        }
        k = k + 1;
    }
    proof {
        assert(is_airplane_at(cards@, lo as int));
    }
    // gather the triples in ascending strength order
    let ghost f = |t: Vec<Card>| t@;
    let mut triples: Vec<Vec<Card>> = Vec::new();
    let mut remaining = copy_cards(cards);
    proof {
        assert(triples@.map_values(f) =~= Seq::<Seq<Card>>::empty());
        assert(triples@.map_values(f).flatten() =~= Seq::<Card>::empty());
        lemma_empty_to_multiset(triples@.map_values(f).flatten());
        assert(triples@.map_values(f).flatten().to_multiset().add(remaining@.to_multiset())
            =~= cards@.to_multiset());
    }
    let mut j: usize = 0;
    while j < m
        invariant
            n == cards@.len(),
            6 <= n,
            m == n as int / 3,
            3 * (m as int) == n as int,
            m <= 12,
            all_valid(cards@),
            all_valid(remaining@),
            3 <= lo,
            lo as int + m <= 15,
            j <= m,
            triples@.len() == j,
            remaining@.len() + 3 * j == n,
            is_airplane_at(cards@, lo as int),
            f == (|t: Vec<Card>| t@),
            forall|i: int|
                0 <= i < j ==> {
                    &&& (#[trigger] triples@[i])@.len() == 3
                    &&& all_same(triples@[i]@)
                    &&& spec_strength(triples@[i]@[0]) == lo as int + i
                    &&& all_valid(triples@[i]@)
                },
            forall|x: int|
                #[trigger] cnt(remaining@, x) == if lo as int <= x < lo as int + j {
                    0
                } else {
                    cnt(cards@, x)
                },
            triples@.map_values(f).flatten().to_multiset().add(remaining@.to_multiset())
                == cards@.to_multiset(),
        decreases m - j,
    {
        let kk = (lo as usize + j) as u8;
        let (tri, rest) = split_by_strength(&remaining, kk);
        proof {
            assert(cnt(remaining@, kk as int) == cnt(cards@, kk as int));
            assert(cnt(cards@, kk as int) == 3);
        }
        let ghost t0 = triples@;
        let ghost tv = tri@;
        triples.push(tri);
        proof {
            assert(triples@.map_values(f) =~= t0.map_values(f).push(tv));
            t0.map_values(f).lemma_flatten_push(tv);
            vstd::seq_lib::lemma_multiset_commutative(t0.map_values(f).flatten(), tv);
            assert(triples@.map_values(f).flatten().to_multiset().add(rest@.to_multiset())
                =~= cards@.to_multiset());
        }
        remaining = rest;
        j = j + 1;
    }
    proof {
        lemma_empty_to_multiset(remaining@);
        let p = Play::Airplane { triples };
        assert(p.spec_cards() == triples@.map_values(f).flatten());
        assert(p.spec_cards().to_multiset() =~= p.spec_cards().to_multiset().add(
            remaining@.to_multiset(),
        ));
        lemma_valid_from_multiset(p.spec_cards(), cards@);
        assert(p.wf());
        lemma_airplane_at_unique(cards@, lo as int, airplane_low(cards@));
    }
    Some(Play::Airplane { triples })
}

fn classify4(cards: &Vec<Card>) -> (r: Result<Play, GameError>)
    requires
        all_valid(cards@),
        cards@.len() == 4,
    ensures
        classify_post(r, cards@),
{
    broadcast use vstd::multiset::group_multiset_axioms;

    let a0 = strength(&cards[0]);
    let a1 = strength(&cards[1]);
    let a2 = strength(&cards[2]);
    let a3 = strength(&cards[3]);
    if a0 == a1 && a1 == a2 && a2 == a3 {
        let v = copy_cards(cards);
        proof {
            assert(all_same(cards@));
            assert(is_bomb4_cards(cards@));
        }
        Ok(Play::Bomb(v))
    } else {
        let mut t: u8 = 0;
        let mut found = false;
        if cnt_of(cards, a0) == 3 {
            t = a0;
            found = true;
        } else if cnt_of(cards, a1) == 3 {
            t = a1;
            found = true;
        }
        if !found {
            proof {
                assert forall|x: int| #[trigger] cnt(cards@, x) != 3 by {
                    if cnt(cards@, x) == 3 && x != a0 as int && x != a1 as int {
                        lemma_cnt_skip_prefix(cards@, x, 2, 4);
                    }
                }
            }
            return Err(GameError::InvalidShape);
        }
        let (tri, rest) = split_by_strength(cards, t);
        let single = rest[0];
        proof {
            let p = Play::TripleSingle { triple: tri, single };
            assert(rest@ =~= seq![single]);
            assert(p.spec_cards() == tri@ + rest@);
            vstd::seq_lib::lemma_multiset_commutative(tri@, rest@);
            lemma_valid_from_multiset(p.spec_cards(), cards@);
            assert(is_triple_single_cards(cards@));
            assert(!all_same(cards@));
            // the triple's strength is the unique one counted three times
            let tr = triple_rank(cards@);
            assert(cnt(cards@, tr) == 3);
            if tr != t as int {
                lemma_cnt_two_distinct(cards@, t as int, tr, 4);
            }
            assert(p.wf());
        }
        Ok(Play::TripleSingle { triple: tri, single })
    }
}

fn classify5(cards: &Vec<Card>) -> (r: Result<Play, GameError>)
    requires
        all_valid(cards@),
        cards@.len() == 5,
    ensures
        classify_post(r, cards@),
{
    broadcast use vstd::multiset::group_multiset_axioms;

    let a0 = strength(&cards[0]);
    let a1 = strength(&cards[1]);
    let a2 = strength(&cards[2]);
    let mut t: u8 = 0;
    let mut found = false;
    if cnt_of(cards, a0) == 3 {
        t = a0;
        found = true;
    } else if cnt_of(cards, a1) == 3 {
        t = a1;
        found = true;
    } else if cnt_of(cards, a2) == 3 {
        t = a2;
        found = true;
    }
    if !found {
        proof {
            assert forall|x: int| #[trigger] cnt(cards@, x) != 3 by {
                if cnt(cards@, x) == 3 && x != a0 as int && x != a1 as int && x != a2 as int {
                    lemma_cnt_skip_prefix(cards@, x, 3, 5);
                }
            }
        }
        match try_sequence(cards) {
            Some(p) => Ok(p),
            None => Err(GameError::InvalidShape),
        }
    } else {
        let (tri, rest) = split_by_strength(cards, t);
        let p0 = strength(&rest[0]);
        let p1 = strength(&rest[1]);
        if p0 == p1 {
            proof {
                lemma_cnt_len2(rest@, p0 as int);
                assert(cnt(cards@, p0 as int) == 2);
                assert(is_triple_double_cards(cards@));
                let p = Play::TripleDouble { triple: tri, double: rest };
                assert(p.spec_cards() == tri@ + rest@);
                vstd::seq_lib::lemma_multiset_commutative(tri@, rest@);
                lemma_valid_from_multiset(p.spec_cards(), cards@);
                assert(p.wf());
                let tr = triple_rank(cards@);
                assert(cnt(cards@, tr) == 3);
                if tr != t as int {
                    lemma_cnt_two_distinct(cards@, t as int, tr, 5);
                }
                lemma_repeat_no_sequence(cards@, t as int);
            }
            Ok(Play::TripleDouble { triple: tri, double: rest })
        } else {
            proof {
                assert forall|x: int| #[trigger] cnt(cards@, x) != 2 by {
                    if cnt(cards@, x) == 2 {
                        assert(x != t as int);
                        assert(cnt(rest@, x) == 2);
                        lemma_cnt_all_match(rest@, x, 2);
                    }
                }
                lemma_repeat_no_sequence(cards@, t as int);
            }
            Err(GameError::InvalidShape)
        }
    }
}

fn classify6(cards: &Vec<Card>) -> (r: Result<Play, GameError>)
    requires
        all_valid(cards@),
        cards@.len() == 6,
    ensures
        classify_post(r, cards@),
{
    broadcast use vstd::multiset::group_multiset_axioms;

    let a0 = strength(&cards[0]);
    let a1 = strength(&cards[1]);
    let a2 = strength(&cards[2]);
    let mut q: u8 = 0;
    let mut found = false;
    if cnt_of(cards, a0) == 4 {
        q = a0;
        found = true;
    } else if cnt_of(cards, a1) == 4 {
        q = a1;
        found = true;
    } else if cnt_of(cards, a2) == 4 {
        q = a2;
        found = true;
    }
    if found {
        let (quad, rest) = split_by_strength(cards, q);
        let r0 = strength(&rest[0]);
        let r1 = strength(&rest[1]);
        if r0 != r1 {
            let mut s1: Vec<Card> = Vec::new();
            s1.push(rest[0]);
            let mut s2: Vec<Card> = Vec::new();
            s2.push(rest[1]);
            proof {
                lemma_cnt_len2(rest@, r0 as int);
                lemma_cnt_len2(rest@, r1 as int);
                assert(cnt(cards@, r0 as int) == 1);
                assert(cnt(cards@, r1 as int) == 1);
                assert(is_quad_two_single_cards(cards@));
                let p = Play::QuadTwoSingle { quad, single_1: s1, single_2: s2 };
                assert(s1@ + s2@ =~= rest@);
                assert(p.spec_cards() =~= quad@ + rest@);
                vstd::seq_lib::lemma_multiset_commutative(quad@, rest@);
                lemma_valid_from_multiset(p.spec_cards(), cards@);
                assert(p.wf());
                let qr = quad_rank(cards@);
                assert(cnt(cards@, qr) == 4);
                if qr != q as int {
                    lemma_cnt_two_distinct(cards@, q as int, qr, 6);
                }
            }
            Ok(Play::QuadTwoSingle { quad, single_1: s1, single_2: s2 })
        } else {
            proof {
                assert forall|x: int| #[trigger] cnt(cards@, x) != 1 by {
                    if cnt(cards@, x) == 1 {
                        assert(x != q as int);
                        assert(cnt(rest@, x) == 1);
                        lemma_cnt_len2(rest@, x);
                    }
                }
                lemma_quad_no_airplane(cards@, q as int);
                lemma_repeat_no_sequence(cards@, q as int);
            }
            Err(GameError::InvalidShape)
        }
    } else {
        proof {
            assert forall|x: int| #[trigger] cnt(cards@, x) != 4 by {
                if cnt(cards@, x) == 4 && x != a0 as int && x != a1 as int && x != a2 as int {
                    lemma_cnt_skip_prefix(cards@, x, 3, 6);
                }
            }
        }
        match try_airplane(cards) {
            Some(p) => Ok(p),
            None => match try_sequence(cards) {
                Some(p) => Ok(p),
                None => Err(GameError::InvalidShape),
            },
        }
    }
}

fn classify8(cards: &Vec<Card>) -> (r: Result<Play, GameError>)
    requires
        all_valid(cards@),
        cards@.len() == 8,
    ensures
        classify_post(r, cards@),
{
    broadcast use vstd::multiset::group_multiset_axioms;

    let a0 = strength(&cards[0]);
    let a1 = strength(&cards[1]);
    let a2 = strength(&cards[2]);
    let a3 = strength(&cards[3]);
    let a4 = strength(&cards[4]);
    let mut q: u8 = 0;
    let mut found = false;
    if cnt_of(cards, a0) == 4 {
        q = a0;
        found = true;
    } else if cnt_of(cards, a1) == 4 {
        q = a1;
        found = true;
    } else if cnt_of(cards, a2) == 4 {
        q = a2;
        found = true;
    } else if cnt_of(cards, a3) == 4 {
        q = a3;
        found = true;
    } else if cnt_of(cards, a4) == 4 {
        q = a4;
        found = true;
    }
    if !found {
        proof {
            assert forall|x: int| #[trigger] cnt(cards@, x) != 4 by {
                if cnt(cards@, x) == 4 && x != a0 as int && x != a1 as int && x != a2 as int && x
                    != a3 as int && x != a4 as int {
                    lemma_cnt_skip_prefix(cards@, x, 5, 8);
                }
            }
        }
        return match try_sequence(cards) {
            Some(p) => Ok(p),
            None => Err(GameError::InvalidShape),
        };
    }
    let (quad, rest) = split_by_strength(cards, q);
    let p0 = strength(&rest[0]);
    let (pair1, rest2) = split_by_strength(&rest, p0);
    if pair1.len() == 2 {
        let x0 = strength(&rest2[0]);
        let x1 = strength(&rest2[1]);
        if x0 == x1 {
            proof {
                lemma_cnt_len2(rest2@, x0 as int);
                assert(cnt(rest2@, x0 as int) == 2);
                assert(x0 as int != p0 as int);
                assert(cnt(rest@, x0 as int) == 2);
                assert(cnt(cards@, x0 as int) == 2);
                assert(cnt(cards@, p0 as int) == 2);
                assert(is_quad_two_pair_cards(cards@));
                // no card of the second pair carries the quad's strength
                assert(cnt(rest@, q as int) == 0);
                assert(cnt(rest2@, q as int) == 0);
                if spec_strength(rest2@[0]) == q as int {
                    lemma_cnt_member(rest2@, q as int, 0, 2);
                }
                let p = Play::QuadTwoPair { quad, pair_1: pair1, pair_2: rest2 };
                assert(p.spec_cards() == (quad@ + pair1@) + rest2@);
                vstd::seq_lib::lemma_multiset_commutative(quad@ + pair1@, rest2@);
                vstd::seq_lib::lemma_multiset_commutative(quad@, pair1@);
                assert(p.spec_cards().to_multiset() =~= cards@.to_multiset());
                lemma_valid_from_multiset(p.spec_cards(), cards@);
                assert(p.wf());
                let qr = quad_rank(cards@);
                assert(cnt(cards@, qr) == 4);
                if qr != q as int {
                    crate::counting::lemma_cnt_three_distinct(cards@, q as int, qr, p0 as int, 8);
                }
                lemma_repeat_no_sequence(cards@, q as int);
            }
            Ok(Play::QuadTwoPair { quad, pair_1: pair1, pair_2: rest2 })
        } else {
            proof {
                assert forall|a: int, b: int|
                    !(a != b && #[trigger] cnt(cards@, a) == 2 && #[trigger] cnt(cards@, b)
                        == 2) by {
                    if a != b && cnt(cards@, a) == 2 && cnt(cards@, b) == 2 {
                        assert(a != q as int && b != q as int);
                        assert(cnt(rest@, a) == 2 && cnt(rest@, b) == 2);
                        if spec_strength(rest@[0]) != a && spec_strength(rest@[0]) != b {
                            crate::counting::lemma_cnt_two_distinct_skip(rest@, a, b, 1, 4);
                        }
                        let other: int = if p0 as int == a {
                            b
                        } else {
                            a
                        };
                        assert(other != p0 as int);
                        assert(cnt(rest2@, other) == 2);
                        lemma_cnt_all_match(rest2@, other, 2);
                    }
                }
                lemma_repeat_no_sequence(cards@, q as int);
            }
            Err(GameError::InvalidShape)
        }
    } else {
        proof {
            assert forall|a: int, b: int|
                !(a != b && #[trigger] cnt(cards@, a) == 2 && #[trigger] cnt(cards@, b)
                    == 2) by {
                if a != b && cnt(cards@, a) == 2 && cnt(cards@, b) == 2 {
                    assert(a != q as int && b != q as int);
                    assert(cnt(rest@, a) == 2 && cnt(rest@, b) == 2);
                    if spec_strength(rest@[0]) != a && spec_strength(rest@[0]) != b {
                        crate::counting::lemma_cnt_two_distinct_skip(rest@, a, b, 1, 4);
                    }
                    // so the first leftover card belongs to one of the pairs,
                    // and splitting on it must have found exactly two cards
                    assert(cnt(rest@, p0 as int) == 2);
                }
            }
            lemma_repeat_no_sequence(cards@, q as int);
        }
        Err(GameError::InvalidShape)
    }
}

/// Turns an offered set of cards into the one play shape it forms, or
/// rejects it. The composition of per-rank counts decides, never card order.
pub fn classify_cards(cards: &Vec<Card>) -> (r: Result<Play, GameError>)
    requires
        all_valid(cards@),
    ensures
        classify_post(r, cards@),
{
    broadcast use vstd::multiset::group_multiset_axioms;

    let n = cards.len();
    if n == 1 {
        proof {
            assert(seq![cards@[0]] =~= cards@);
        }
        Ok(Play::Single(cards[0]))
    } else if n == 2 {
        let a0 = strength(&cards[0]);
        let a1 = strength(&cards[1]);
        if (a0 == 16 && a1 == 17) || (a0 == 17 && a1 == 16) {
            let v = copy_cards(cards);
            Ok(Play::Bomb(v))
        } else if a0 == a1 {
            let v = copy_cards(cards);
            Ok(Play::Pair(v))
        } else {
            Err(GameError::InvalidShape)
        }
    } else if n == 3 {
        let a0 = strength(&cards[0]);
        let a1 = strength(&cards[1]);
        let a2 = strength(&cards[2]);
        if a0 == a1 && a1 == a2 {
            let v = copy_cards(cards);
            proof {
                assert(all_same(cards@));
            }
            Ok(Play::TripleSolo(v))
        } else {
            proof {
                assert(!all_same(cards@));
            }
            Err(GameError::InvalidShape)
        }
    } else if n == 4 {
        classify4(cards)
    } else if n == 5 {
        classify5(cards)
    } else if n == 6 {
        classify6(cards)
    } else if n == 8 {
        classify8(cards)
    } else if n >= 9 && n % 3 == 0 {
        match try_airplane(cards) {
            Some(p) => Ok(p),
            None => match try_sequence(cards) {
                Some(p) => Ok(p),
                None => Err(GameError::InvalidShape),
            },
        }
    } else if n >= 7 {
        match try_sequence(cards) {
            Some(p) => Ok(p),
            None => Err(GameError::InvalidShape),
        }
    } else {
        // n == 0
        Err(GameError::InvalidShape)
    }
}

} // verus!
