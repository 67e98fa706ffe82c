//! Flag sequences: the mathematical model of a lift. A lift into an
//! `n`-variable context is a sequence of `n` flags; its domain is the number
//! of set flags, and the `k`-th set flag is where domain variable `k` goes.
use vstd::prelude::*;

verus! {

/// Number of set flags.
pub open spec fn count_true(s: Seq<bool>) -> nat
    decreases s.len(),
{
    if s.len() == 0 {
        0
    } else {
        count_true(s.drop_last()) + if s.last() {
            1nat
        } else {
            0nat
        }
    }
}

/// Number of set flags strictly before position `i`.
pub open spec fn rank(s: Seq<bool>, i: int) -> nat {
    count_true(s.take(i))
}

/// Composition of lifts: `big` embeds the middle context into the ambient
/// one, `small` embeds the inner context into the middle one.
pub open spec fn compose_seq(big: Seq<bool>, small: Seq<bool>) -> Seq<bool> {
    Seq::new(big.len(), |i: int| big[i] && small[rank(big, i) as int])
}

/// Pointwise union of two flag sequences of one length.
pub open spec fn or_seq(a: Seq<bool>, b: Seq<bool>) -> Seq<bool> {
    Seq::new(a.len(), |i: int| a[i] || b[i])
}

/// Pointwise intersection of two flag sequences of one length.
pub open spec fn and_seq(a: Seq<bool>, b: Seq<bool>) -> Seq<bool> {
    Seq::new(a.len(), |i: int| a[i] && b[i])
}

/// Every flag set in `a` is set in `b`.
pub open spec fn subset_seq(a: Seq<bool>, b: Seq<bool>) -> bool {
    a.len() == b.len() && forall|i: int| 0 <= i < a.len() && #[trigger] a[i] ==> b[i]
}

pub proof fn lemma_rank_zero(s: Seq<bool>)
    ensures
        rank(s, 0) == 0,
{
    assert(s.take(0) =~= Seq::<bool>::empty());
}

pub proof fn lemma_count_take_step(s: Seq<bool>, i: int)
    requires
        0 <= i < s.len(),
    ensures
        rank(s, i + 1) == rank(s, i) + if s[i] {
            1nat
        } else {
            0nat
        },
{
    assert(s.take(i + 1).drop_last() =~= s.take(i));
}

pub proof fn lemma_rank_bounds(s: Seq<bool>, i: int)
    requires
        0 <= i <= s.len(),
    ensures
        rank(s, i) <= i,
        rank(s, i) <= count_true(s),
{
    lemma_rank_le_index(s, i);
    lemma_rank_le_count(s, i);
}

proof fn lemma_rank_le_index(s: Seq<bool>, i: int)
    requires
        0 <= i <= s.len(),
    ensures
        rank(s, i) <= i,
    decreases i,
{
    if i == 0 {
        assert(s.take(0) =~= Seq::<bool>::empty());
    } else {
        lemma_rank_le_index(s, i - 1);
        lemma_count_take_step(s, i - 1);
    }
}

proof fn lemma_rank_le_count(s: Seq<bool>, i: int)
    requires
        0 <= i <= s.len(),
    ensures
        rank(s, i) <= count_true(s),
    decreases s.len() - i,
{
    if i == s.len() {
        assert(s.take(i) =~= s);
    } else {
        lemma_rank_le_count(s, i + 1);
        lemma_count_take_step(s, i);
    }
}

pub proof fn lemma_count_le_len(s: Seq<bool>)
    ensures
        count_true(s) <= s.len(),
    decreases s.len(),
{
    if s.len() > 0 {
        lemma_count_le_len(s.drop_last());
    }
}

/// A set flag at `i` leaves `rank(s, i)` strictly below the total.
pub proof fn lemma_rank_selected(s: Seq<bool>, i: int)
    requires
        0 <= i < s.len(),
        s[i],
    ensures
        rank(s, i) < count_true(s),
{
    lemma_count_take_step(s, i);
    lemma_rank_bounds(s, i + 1);
}

pub proof fn lemma_rank_full(s: Seq<bool>)
    ensures
        rank(s, s.len() as int) == count_true(s),
{
    assert(s.take(s.len() as int) =~= s);
}

/// Ranks never decrease, and grow strictly past a set flag.
pub proof fn lemma_rank_monotone(s: Seq<bool>, i: int, j: int)
    requires
        0 <= i <= j <= s.len(),
    ensures
        rank(s, i) <= rank(s, j),
        i < j && s[i] ==> rank(s, i) < rank(s, j),
    decreases j - i,
{
    if i < j {
        lemma_rank_monotone(s, i + 1, j);
        lemma_count_take_step(s, i);
    }
}

/// Every domain position is hit by exactly one set flag.
pub proof fn lemma_rank_surjective(s: Seq<bool>, k: int)
    requires
        0 <= k < count_true(s),
    ensures
        exists|i: int| 0 <= i < s.len() && s[i] && rank(s, i) == k,
    decreases s.len(),
{
    let t = s.drop_last();
    let n = s.len() - 1;
    if k < count_true(t) {
        lemma_rank_surjective(t, k);
        let i = choose|i: int| 0 <= i < t.len() && t[i] && rank(t, i) == k;
        assert(s.take(i) =~= t.take(i));
        assert(s[i]);
    } else {
        assert(s.take(n) =~= t);
        assert(s[n] && rank(s, n) == k);
    }
}

/// A set flag is determined by its rank.
pub proof fn lemma_rank_injective(s: Seq<bool>, i: int, j: int)
    requires
        0 <= i < s.len(),
        0 <= j < s.len(),
        s[i],
        s[j],
        rank(s, i) == rank(s, j),
    ensures
        i == j,
{
    if i < j {
        lemma_rank_monotone(s, i, j);
    } else if j < i {
        lemma_rank_monotone(s, j, i);
    }
}

pub proof fn lemma_count_all_true(n: nat)
    ensures
        count_true(Seq::new(n, |i: int| true)) == n,
    decreases n,
{
    if n > 0 {
        assert(Seq::new(n, |i: int| true).drop_last() =~= Seq::new((n - 1) as nat, |i: int| true));
        lemma_count_all_true((n - 1) as nat);
    }
}

pub proof fn lemma_rank_all_true(n: nat, i: int)
    requires
        0 <= i <= n,
    ensures
        rank(Seq::new(n, |k: int| true), i) == i,
{
    assert(Seq::new(n, |k: int| true).take(i) =~= Seq::new(i as nat, |k: int| true));
    lemma_count_all_true(i as nat);
}

pub proof fn lemma_count_none_true(n: nat)
    ensures
        count_true(Seq::new(n, |i: int| false)) == 0,
    decreases n,
{
    if n > 0 {
        assert(Seq::new(n, |i: int| false).drop_last() =~= Seq::new((n - 1) as nat, |i: int| false));
        lemma_count_none_true((n - 1) as nat);
    }
}

/// The number of set flags of a composition is the number of set flags of
/// the inner lift, and ranks compose.
pub proof fn lemma_compose_rank(big: Seq<bool>, small: Seq<bool>, i: int)
    requires
        small.len() == count_true(big),
        0 <= i <= big.len(),
    ensures
        rank(compose_seq(big, small), i) == rank(small, rank(big, i) as int),
    decreases i,
{
    let c = compose_seq(big, small);
    if i > 0 {
        lemma_compose_rank(big, small, i - 1);
        lemma_count_take_step(c, i - 1);
        lemma_count_take_step(big, i - 1);
        if big[i - 1] {
            lemma_rank_selected(big, i - 1);
            lemma_count_take_step(small, rank(big, i - 1) as int);
        }
    } else {
        assert(c.take(0) =~= Seq::<bool>::empty());
        assert(big.take(0) =~= Seq::<bool>::empty());
        assert(small.take(0) =~= Seq::<bool>::empty());
    }
}

pub proof fn lemma_compose_count(big: Seq<bool>, small: Seq<bool>)
    requires
        small.len() == count_true(big),
    ensures
        count_true(compose_seq(big, small)) == count_true(small),
{
    lemma_compose_rank(big, small, big.len() as int);
    lemma_rank_full(big);
    lemma_rank_full(small);
    lemma_rank_full(compose_seq(big, small));
}

/// Setting an unset flag adds one to the count.
pub proof fn lemma_count_set(s: Seq<bool>, i: int)
    requires
        0 <= i < s.len(),
        !s[i],
    ensures
        count_true(s.update(i, true)) == count_true(s) + 1,
    decreases s.len(),
{
    if i == s.len() - 1 {
        assert(s.update(i, true).drop_last() =~= s.drop_last());
    } else {
        lemma_count_set(s.drop_last(), i);
        assert(s.update(i, true).drop_last() =~= s.drop_last().update(i, true));
    }
}

/// Removing an unset flag keeps the count.
pub proof fn lemma_count_remove_false(s: Seq<bool>, i: int)
    requires
        0 <= i < s.len(),
        !s[i],
    ensures
        count_true(s.remove(i)) == count_true(s),
    decreases s.len(),
{
    if i == s.len() - 1 {
        assert(s.remove(i) =~= s.drop_last());
    } else {
        lemma_count_remove_false(s.drop_last(), i);
        assert(s.remove(i).drop_last() =~= s.drop_last().remove(i));
        assert(s.remove(i).last() == s.last());
    }
}

/// Unset trailing flags do not count.
pub proof fn lemma_count_trailing_false(s: Seq<bool>, k: int)
    requires
        0 <= k <= s.len(),
        forall|i: int| k <= i < s.len() ==> !s[i],
    ensures
        count_true(s) == count_true(s.take(k)),
    decreases s.len() - k,
{
    if s.len() == k {
        assert(s.take(k) =~= s);
    } else {
        let t = s.drop_last();
        lemma_count_trailing_false(t, k);
        assert(t.take(k) =~= s.take(k));
    }
}

} // verus!
