//! Per-strength counting of card collections: the spec-level tools that the
//! play classifier's shape predicates are written with.

use vstd::prelude::*;
use crate::cards::{Card, spec_strength};

verus! {

/// 1 if the card has strength `k`, else 0.
pub open spec fn ind(c: Card, k: int) -> int {
    if spec_strength(c) == k {
        1
    } else {
        0
    }
}

/// Number of cards with strength `k` among the first `n` cards of `s`.
pub open spec fn cnt_upto(s: Seq<Card>, k: int, n: int) -> int
    decreases n,
{
    if n <= 0 {
        0
    } else {
        cnt_upto(s, k, n - 1) + ind(s[n - 1], k)
    }
}

/// Number of cards with strength `k` in `s`.
pub open spec fn cnt(s: Seq<Card>, k: int) -> int {
    cnt_upto(s, k, s.len() as int)
}

pub proof fn lemma_cnt_upto_bounds(s: Seq<Card>, k: int, n: int)
    requires
        0 <= n,
    ensures
        0 <= cnt_upto(s, k, n) <= n,
    decreases n,
{
    if n > 0 {
        lemma_cnt_upto_bounds(s, k, n - 1);
    }
}

/// Two sequences that agree on their first `n` elements count alike there.
pub proof fn lemma_cnt_upto_agree(s: Seq<Card>, t: Seq<Card>, k: int, n: int)
    requires
        0 <= n <= s.len(),
        n <= t.len(),
        forall|i: int| 0 <= i < n ==> s[i] == t[i],
    ensures
        cnt_upto(s, k, n) == cnt_upto(t, k, n),
    decreases n,
{
    if n > 0 {
        lemma_cnt_upto_agree(s, t, k, n - 1);
    }
}

/// Appending one card raises the count of its strength by one and leaves
/// every other count unchanged.
pub proof fn lemma_cnt_push(s: Seq<Card>, c: Card, k: int)
    ensures
        cnt(s.push(c), k) == cnt(s, k) + ind(c, k),
{
    lemma_cnt_upto_agree(s, s.push(c), k, s.len() as int);
    assert(s.push(c)[s.len() as int] == c);
}

/// If none of the first `m` cards has strength `k`, at most `len - m` do.
pub proof fn lemma_cnt_skip_prefix(s: Seq<Card>, k: int, m: int, n: int)
    requires
        0 <= m <= n,
        forall|i: int| 0 <= i < m ==> spec_strength(s[i]) != k,
    ensures
        cnt_upto(s, k, n) <= n - m,
    decreases n,
{
    if n > m {
        lemma_cnt_skip_prefix(s, k, m, n - 1);
    } else {
        lemma_none_match(s, k, n);
    }
}

/// With no matching card among the first `n`, the count there is zero.
pub proof fn lemma_none_match(s: Seq<Card>, k: int, n: int)
    requires
        forall|i: int| 0 <= i < n ==> spec_strength(s[i]) != k,
    ensures
        cnt_upto(s, k, n) <= 0,
    decreases n,
{
    if n > 0 {
        lemma_none_match(s, k, n - 1);
    }
}

/// The count of `k` equals the length exactly when every card matches `k`.
pub proof fn lemma_cnt_all_match(s: Seq<Card>, k: int, n: int)
    requires
        0 <= n <= s.len(),
    ensures
        cnt_upto(s, k, n) == n <==> (forall|i: int| 0 <= i < n ==> spec_strength(s[i]) == k),
    decreases n,
{
    if n > 0 {
        lemma_cnt_all_match(s, k, n - 1);
        lemma_cnt_upto_bounds(s, k, n - 1);
    }
}

/// A positive count names a matching card.
pub proof fn lemma_cnt_exists(s: Seq<Card>, k: int, n: int)
    requires
        0 <= n <= s.len(),
        cnt_upto(s, k, n) > 0,
    ensures
        exists|i: int| 0 <= i < n && spec_strength(s[i]) == k,
    decreases n,
{
    if n > 0 {
        if spec_strength(s[n - 1]) == k {
            assert(0 <= n - 1 < n && spec_strength(s[n - 1]) == k);
        } else {
            lemma_cnt_exists(s, k, n - 1);
        }
    }
}

/// A matching card makes the count positive.
pub proof fn lemma_cnt_member(s: Seq<Card>, k: int, j: int, n: int)
    requires
        0 <= j < n <= s.len(),
        spec_strength(s[j]) == k,
    ensures
        cnt_upto(s, k, n) >= 1,
    decreases n,
{
    lemma_cnt_upto_bounds(s, k, n - 1);
    if j < n - 1 {
        lemma_cnt_member(s, k, j, n - 1);
    }
}

/// Counts of two distinct strengths never exceed the length together.
pub proof fn lemma_cnt_two_distinct(s: Seq<Card>, a: int, b: int, n: int)
    requires
        0 <= n,
        a != b,
    ensures
        cnt_upto(s, a, n) + cnt_upto(s, b, n) <= n,
    decreases n,
{
    if n > 0 {
        lemma_cnt_two_distinct(s, a, b, n - 1);
    }
}

/// Counts of three pairwise distinct strengths never exceed the length
/// together.
pub proof fn lemma_cnt_three_distinct(s: Seq<Card>, a: int, b: int, c: int, n: int)
    requires
        0 <= n,
        a != b,
        a != c,
        b != c,
    ensures
        cnt_upto(s, a, n) + cnt_upto(s, b, n) + cnt_upto(s, c, n) <= n,
    decreases n,
{
    if n > 0 {
        lemma_cnt_three_distinct(s, a, b, c, n - 1);
    }
}

/// Counts of two distinct strengths, neither of which occurs among the
/// first `m` cards, never exceed `len - m` together.
pub proof fn lemma_cnt_two_distinct_skip(s: Seq<Card>, a: int, b: int, m: int, n: int)
    requires
        0 <= m <= n,
        a != b,
        forall|i: int|
            0 <= i < m ==> #[trigger] spec_strength(s[i]) != a && spec_strength(s[i]) != b,
    ensures
        cnt_upto(s, a, n) + cnt_upto(s, b, n) <= n - m,
    decreases n,
{
    if n > m {
        lemma_cnt_two_distinct_skip(s, a, b, m, n - 1);
    } else {
        lemma_none_match(s, a, n);
        lemma_none_match(s, b, n);
        lemma_cnt_upto_bounds(s, a, n);
        lemma_cnt_upto_bounds(s, b, n);
    }
}

/// Sum of `ind(c, k)` over the strength window `[lo, lo + m)`.
pub open spec fn ind_win(c: Card, lo: int, m: int) -> int
    decreases m,
{
    if m <= 0 {
        0
    } else {
        ind_win(c, lo, m - 1) + ind(c, lo + m - 1)
    }
}

pub proof fn lemma_ind_win(c: Card, lo: int, m: int)
    requires
        0 <= m,
    ensures
        ind_win(c, lo, m) == if lo <= spec_strength(c) < lo + m {
            1int
        } else {
            0int
        },
    decreases m,
{
    if m > 0 {
        lemma_ind_win(c, lo, m - 1);
    }
}

/// Sum over the strength window `[lo, lo + m)` of the per-strength counts of
/// the first `n` cards.
pub open spec fn sum_cnt_upto(s: Seq<Card>, lo: int, m: int, n: int) -> int
    decreases m,
{
    if m <= 0 {
        0
    } else {
        sum_cnt_upto(s, lo, m - 1, n) + cnt_upto(s, lo + m - 1, n)
    }
}

/// Sum over the strength window `[lo, lo + m)` of the counts in all of `s`.
pub open spec fn sum_cnt(s: Seq<Card>, lo: int, m: int) -> int {
    sum_cnt_upto(s, lo, m, s.len() as int)
}

proof fn lemma_sum_cnt_upto_step(s: Seq<Card>, lo: int, m: int, n: int)
    requires
        0 <= m,
        0 < n,
    ensures
        sum_cnt_upto(s, lo, m, n) == sum_cnt_upto(s, lo, m, n - 1) + ind_win(s[n - 1], lo, m),
    decreases m,
{
    if m > 0 {
        lemma_sum_cnt_upto_step(s, lo, m - 1, n);
    }
}

/// Number of the first `n` cards whose strength lies in `[lo, lo + m)`.
pub open spec fn win_upto(s: Seq<Card>, lo: int, m: int, n: int) -> int
    decreases n,
{
    if n <= 0 {
        0
    } else {
        win_upto(s, lo, m, n - 1) + if lo <= spec_strength(s[n - 1]) < lo + m {
            1int
        } else {
            0int
        }
    }
}

/// The window sum of counts is exactly the number of cards in the window.
pub proof fn lemma_sum_is_win(s: Seq<Card>, lo: int, m: int, n: int)
    requires
        0 <= m,
        0 <= n,
    ensures
        sum_cnt_upto(s, lo, m, n) == win_upto(s, lo, m, n),
    decreases n,
{
    if n > 0 {
        lemma_sum_is_win(s, lo, m, n - 1);
        lemma_sum_cnt_upto_step(s, lo, m, n);
        lemma_ind_win(s[n - 1], lo, m);
    } else {
        lemma_sum_empty(s, lo, m);
    }
}

proof fn lemma_sum_empty(s: Seq<Card>, lo: int, m: int)
    ensures
        sum_cnt_upto(s, lo, m, 0) == 0,
    decreases m,
{
    if m > 0 {
        lemma_sum_empty(s, lo, m - 1);
    }
}

pub proof fn lemma_win_le_len(s: Seq<Card>, lo: int, m: int, n: int)
    requires
        0 <= n <= s.len(),
    ensures
        win_upto(s, lo, m, n) <= n,
        win_upto(s, lo, m, n) == n <==> (forall|i: int|
            0 <= i < n ==> lo <= #[trigger] spec_strength(s[i]) < lo + m),
    decreases n,
{
    if n > 0 {
        lemma_win_le_len(s, lo, m, n - 1);
    }
}

/// If every strength in the window accounts for `c` cards and those windows
/// together account for the whole of `s`, every card's strength lies in the
/// window.
pub proof fn lemma_window_covers(s: Seq<Card>, lo: int, m: int, c: int)
    requires
        0 <= m,
        forall|k: int| lo <= k < lo + m ==> cnt(s, k) == c,
        c * m == s.len(),
    ensures
        forall|i: int| 0 <= i < s.len() ==> lo <= #[trigger] spec_strength(s[i]) < lo + m,
{
    lemma_sum_const(s, lo, m, c);
    lemma_sum_is_win(s, lo, m, s.len() as int);
    lemma_win_le_len(s, lo, m, s.len() as int);
}

proof fn lemma_sum_const(s: Seq<Card>, lo: int, m: int, c: int)
    requires
        0 <= m,
        forall|k: int| lo <= k < lo + m ==> cnt(s, k) == c,
    ensures
        sum_cnt(s, lo, m) == c * m,
    decreases m,
{
    if m > 0 {
        lemma_sum_const(s, lo, m - 1, c);
        assert(cnt(s, lo + m - 1) == c);
        assert(c * (m - 1) + c == c * m) by (nonlinear_arith);
    } else {
        assert(c * 0 == 0) by (nonlinear_arith);
    }
}

/// A strength outside the window of a fully covered sequence counts zero.
pub proof fn lemma_outside_window_zero(s: Seq<Card>, lo: int, m: int, k: int)
    requires
        forall|i: int| 0 <= i < s.len() ==> lo <= #[trigger] spec_strength(s[i]) < lo + m,
        !(lo <= k < lo + m),
    ensures
        cnt(s, k) == 0,
{
    lemma_none_match(s, k, s.len() as int);
    lemma_cnt_upto_bounds(s, k, s.len() as int);
}

} // verus!
