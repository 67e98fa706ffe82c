//! Laws of lifts: composition forms a category of contexts and
//! order-preserving injections, factorisation through a lift is unique, and
//! the equalizer is the largest subcontext on which two lifts agree.
use vstd::prelude::*;
use crate::seqs::{
    count_true, rank, compose_seq, subset_seq, lemma_rank_selected, lemma_rank_surjective,
    lemma_rank_injective, lemma_rank_all_true, lemma_count_all_true, lemma_compose_rank,
    lemma_compose_count, lemma_rank_bounds,
};
use crate::lift::{all_true, equalizer_seq};

verus! {

/// The identity lift is a left unit of composition.
pub proof fn law_compose_identity_left(l: Seq<bool>)
    ensures
        compose_seq(all_true(l.len()), l) == l,
{
    assert forall|i: int| 0 <= i < l.len() implies compose_seq(all_true(l.len()), l)[i] == l[i] by {
        lemma_rank_all_true(l.len(), i);
    }
    assert(compose_seq(all_true(l.len()), l) =~= l);
}

/// The identity lift is a right unit of composition.
pub proof fn law_compose_identity_right(l: Seq<bool>)
    ensures
        compose_seq(l, all_true(count_true(l))) == l,
{
    assert forall|i: int| 0 <= i < l.len() implies compose_seq(l, all_true(count_true(l)))[i] == l[i] by {
        if l[i] {
            lemma_rank_selected(l, i);
        }
    }
    assert(compose_seq(l, all_true(count_true(l))) =~= l);
}

/// Composition selects as many variables as its inner lift.
pub proof fn law_compose_dom(big: Seq<bool>, small: Seq<bool>)
    requires
        small.len() == count_true(big),
    ensures
        compose_seq(big, small).len() == big.len(),
        count_true(compose_seq(big, small)) == count_true(small),
{
    lemma_compose_count(big, small);
}

/// Composition is associative.
pub proof fn law_compose_associative(a: Seq<bool>, b: Seq<bool>, c: Seq<bool>)
    requires
        b.len() == count_true(a),
        c.len() == count_true(b),
    ensures
        compose_seq(compose_seq(a, b), c) == compose_seq(a, compose_seq(b, c)),
{
    let ab = compose_seq(a, b);
    let bc = compose_seq(b, c);
    lemma_compose_count(a, b);
    assert forall|i: int| 0 <= i < a.len() implies compose_seq(ab, c)[i] == compose_seq(a, bc)[i] by {
        lemma_compose_rank(a, b, i);
        if a[i] {
            lemma_rank_selected(a, i);
        }
        if a[i] && b[rank(a, i) as int] {
            lemma_rank_selected(b, rank(a, i) as int);
        }
    }
    assert(compose_seq(ab, c) =~= compose_seq(a, bc));
}

/// Composing with a fixed lift is injective: a lift into its domain is
/// determined by the composite. So factorisations are unique.
pub proof fn law_compose_cancel(big: Seq<bool>, s1: Seq<bool>, s2: Seq<bool>)
    requires
        s1.len() == count_true(big),
        s2.len() == count_true(big),
        compose_seq(big, s1) == compose_seq(big, s2),
    ensures
        s1 == s2,
{
    assert forall|k: int| 0 <= k < s1.len() implies s1[k] == s2[k] by {
        lemma_rank_surjective(big, k);
        let i = choose|i: int| 0 <= i < big.len() && big[i] && rank(big, i) == k;
        assert(big[i] && rank(big, i) == k);
        assert(compose_seq(big, s1)[i] == (big[i] && s1[rank(big, i) as int]));
        assert(compose_seq(big, s2)[i] == (big[i] && s2[rank(big, i) as int]));
        assert(compose_seq(big, s1)[i] == compose_seq(big, s2)[i]);
    }
    assert(s1 =~= s2);
}

/// A composite selects only variables that its outer lift selects.
pub proof fn law_compose_subset(big: Seq<bool>, small: Seq<bool>)
    requires
        small.len() == count_true(big),
    ensures
        subset_seq(compose_seq(big, small), big),
{
}

/// The two lifts agree on their equalizer.
pub proof fn law_equalizer_agrees(a: Seq<bool>, b: Seq<bool>)
    requires
        a.len() == b.len(),
        count_true(a) == count_true(b),
    ensures
        compose_seq(a, equalizer_seq(a, b)) == compose_seq(b, equalizer_seq(a, b)),
{
    let e = equalizer_seq(a, b);
    assert forall|i: int| 0 <= i < a.len() implies compose_seq(a, e)[i] == compose_seq(b, e)[i] by {
        if a[i] && e[rank(a, i) as int] {
            lemma_rank_selected(a, i);
            let k = rank(a, i) as int;
            let w = choose|w: int| 0 <= w < a.len() && a[w] && b[w] && rank(a, w) == k && rank(b, w) == k;
            lemma_rank_injective(a, w, i);
        }
        if b[i] && e[rank(b, i) as int] {
            lemma_rank_selected(b, i);
            let k = rank(b, i) as int;
            let w = choose|w: int| 0 <= w < a.len() && a[w] && b[w] && rank(a, w) == k && rank(b, w) == k;
            lemma_rank_injective(b, w, i);
        }
    }
    assert(compose_seq(a, e) =~= compose_seq(b, e));
}

/// Every subcontext of the shared domain on which the two lifts agree lies
/// inside their equalizer.
pub proof fn law_equalizer_largest(a: Seq<bool>, b: Seq<bool>, s: Seq<bool>)
    requires
        a.len() == b.len(),
        count_true(a) == count_true(b),
        s.len() == count_true(a),
        compose_seq(a, s) == compose_seq(b, s),
    ensures
        subset_seq(s, equalizer_seq(a, b)),
{
    assert forall|k: int| 0 <= k < s.len() && s[k] implies equalizer_seq(a, b)[k] by {
        lemma_rank_surjective(a, k);
        let v = choose|v: int| 0 <= v < a.len() && a[v] && rank(a, v) == k;
        assert(compose_seq(a, s)[v]);
        assert(compose_seq(b, s)[v]);
        let k2 = rank(b, v) as int;
        lemma_rank_selected(b, v);
        lemma_compose_rank(a, s, v);
        lemma_compose_rank(b, s, v);
        lemma_rank_injective(s, k, k2);
        assert(0 <= v < a.len() && a[v] && b[v] && rank(a, v) == k && rank(b, v) == k);
    }
}

} // verus!
