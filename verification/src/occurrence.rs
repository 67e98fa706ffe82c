//! Where a metavariable occurrence lives. During matching, `top_ctx` is
//! the ambient context at the top of the pattern and `current_ctx`
//! additionally holds the variables bound by binders inside the pattern.
//! A Miller occurrence keeps the whole top context plus the bound
//! variables it is applied to; its lift embeds that context into the
//! current one.
use vstd::prelude::*;
use crate::lift::{Lift, selected_seq};
use crate::terms::{Pattern, miller_indices, all_bvars, bvar_indices, miller_ordered, some_outside, has_repeat, strictly_decreasing};

verus! {

/// The flags of an occurrence's lift: the top context, then the levels of
/// the bound variables it is applied to.
pub open spec fn occurrence_seq(top: nat, current: nat, idx: Seq<usize>) -> Seq<bool> {
    Seq::new(current, |j: int| j < top || exists|k: int| 0 <= k < idx.len() && j == current - 1 - idx[k])
}

/// Convert distinct pattern-local indices to levels in the current context.
pub(crate) fn local_indices_to_levels(top_ctx: usize, current_ctx: usize, arguments: &[usize]) -> (r: Option<Vec<usize>>)
    ensures
        r is Some <==> (top_ctx <= current_ctx && !some_outside(arguments@, (current_ctx - top_ctx) as nat)
            && !has_repeat(arguments@)),
        r matches Some(levels) ==> levels@.len() == arguments@.len() && forall|k: int|
            0 <= k < levels@.len() ==> levels@[k] == current_ctx - 1 - arguments@[k],
{
    if current_ctx < top_ctx {
        return None;
    }
    let local_depth = current_ctx - top_ctx;
    let mut levels: Vec<usize> = Vec::new();
    let mut i: usize = 0;
    while i < arguments.len()
        invariant
            i <= arguments@.len(),
            local_depth == current_ctx - top_ctx,
            forall|k: int| 0 <= k < i ==> arguments@[k] < local_depth,
            forall|a: int, b: int| 0 <= a < b < i ==> arguments@[a] != arguments@[b],
            levels@.len() == i,
            forall|k: int| 0 <= k < i ==> levels@[k] == current_ctx - 1 - arguments@[k],
        decreases arguments@.len() - i,
    {
        let index = arguments[i];
        if index >= local_depth {
            return None;
        }
        let mut j: usize = 0;
        while j < i
            invariant
                j <= i < arguments@.len(),
                index == arguments@[i as int],
                forall|a: int| 0 <= a < j ==> arguments@[a] != index,
            decreases i - j,
        {
            if arguments[j] == index {
                proof {
                    assert(has_repeat(arguments@)) by {
                        assert(arguments@[j as int] == arguments@[i as int]);
                    }
                }
                return None;
            }
            j = j + 1;
        }
        levels.push(current_ctx - 1 - index);
        i = i + 1;
    }
    Some(levels)
}

/// The lift that brings `top context + Miller arguments` down into the
/// current context. Arguments must name binders outer to inner.
pub(crate) fn occurrence_lift(top_ctx: usize, current_ctx: usize, arguments: &[usize]) -> (r: Option<Lift>)
    requires
        current_ctx <= 7,
    ensures
        r is Some <==> (top_ctx <= current_ctx && miller_ordered(arguments@, (current_ctx - top_ctx) as nat)),
        r matches Some(l) ==> l@ == occurrence_seq(top_ctx as nat, current_ctx as nat, arguments@),
{
    if arguments.len() == 0 {
        if current_ctx < top_ctx {
            return None;
        }
        let m = crate::lift::mask(top_ctx);
        let l = Lift::from_bits(m, current_ctx);
        proof {
            assert forall|j: int| 0 <= j < current_ctx implies l@[j] == occurrence_seq(
                top_ctx as nat,
                current_ctx as nat,
                arguments@,
            )[j] by {
                crate::bits::lemma_bit_mask(top_ctx as u8, j as u8);
            }
            assert(l@ =~= occurrence_seq(top_ctx as nat, current_ctx as nat, arguments@));
        }
        return Some(l);
    }
    let levels = match local_indices_to_levels(top_ctx, current_ctx, arguments) {
        None => {
            return None;
        },
        Some(v) => v,
    };
    let mut k: usize = 1;
    while k < levels.len()
        invariant
            1 <= k <= levels@.len(),
            levels@.len() == arguments@.len(),
            forall|a: int| 0 <= a < levels@.len() ==> levels@[a] == current_ctx - 1 - arguments@[a],
            forall|a: int, b: int| 0 <= a < b < k ==> levels@[a] < levels@[b],
        decreases levels@.len() - k,
    {
        if !(levels[k - 1] < levels[k]) {
            proof {
                assert(arguments@[k - 1] <= arguments@[k as int]);
            }
            return None;
        }
        proof {
            assert forall|a: int, b: int| 0 <= a < b < k + 1 implies levels@[a] < levels@[b] by {
                if b == k && a < k - 1 {
                    assert(levels@[a] < levels@[k - 1]);
                }
            }
        }
        k = k + 1;
    }
    let mut selected: Vec<usize> = Vec::new();
    let mut j: usize = 0;
    while j < top_ctx
        invariant
            j <= top_ctx <= current_ctx,
            selected@.len() == j,
            forall|a: int| 0 <= a < j ==> selected@[a] == a,
        decreases top_ctx - j,
    {
        selected.push(j);
        j = j + 1;
    }
    let mut i: usize = 0;
    while i < levels.len()
        invariant
            i <= levels@.len(),
            selected@.len() == top_ctx + i,
            forall|a: int| 0 <= a < top_ctx ==> selected@[a] == a,
            forall|a: int| 0 <= a < i ==> selected@[top_ctx + a] == levels@[a],
            levels@.len() == arguments@.len(),
            forall|a: int| 0 <= a < levels@.len() ==> levels@[a] == current_ctx - 1 - arguments@[a],
            top_ctx <= current_ctx,
            !some_outside(arguments@, (current_ctx - top_ctx) as nat),
        decreases levels@.len() - i,
    {
        selected.push(levels[i]);
        i = i + 1;
    }
    proof {
        assert forall|a: int| 0 <= a < selected@.len() implies selected@[a] < current_ctx by {
            if a >= top_ctx {
                let b = a - top_ctx;
                assert(selected@[top_ctx + b] == levels@[b]);
                assert(arguments@[b] < current_ctx - top_ctx);
            }
        }
    }
    let l = Lift::selected(current_ctx, selected.as_slice());
    proof {
        let o = occurrence_seq(top_ctx as nat, current_ctx as nat, arguments@);
        assert forall|j: int| 0 <= j < current_ctx implies l@[j] == o[j] by {
            if j < top_ctx {
                assert(selected@[j] == j);
                assert(selected@.contains(j as usize));
            } else if exists|k: int| 0 <= k < arguments@.len() && j == current_ctx - 1 - arguments@[k] {
                let k = choose|k: int| 0 <= k < arguments@.len() && j == current_ctx - 1 - arguments@[k];
                assert(selected@[top_ctx + k] == levels@[k]);
                assert(selected@.contains(j as usize));
            } else {
                if selected@.contains(j as usize) {
                    let a = choose|a: int| 0 <= a < selected@.len() && selected@[a] == j as usize;
                    if a >= top_ctx {
                        let b = a - top_ctx;
                        assert(selected@[top_ctx + b] == levels@[b]);
                    }
                }
            }
        }
        assert(l@ =~= o);
        assert forall|a: int, b: int| 0 <= a < b < arguments@.len() implies arguments@[a] > arguments@[b] by {
            assert(levels@[a] < levels@[b]);
        }
    }
    Some(l)
}

/// The occurrence lift of a metavariable applied to pattern arguments,
/// which must all be bound variables.
pub(crate) fn pattern_occurrence_lift(top_ctx: usize, current_ctx: usize, arguments: &[Pattern]) -> (r: Option<Lift>)
    requires
        current_ctx <= 7,
    ensures
        r is Some <==> (all_bvars(arguments@) && top_ctx <= current_ctx && miller_ordered(
            bvar_indices(arguments@),
            (current_ctx - top_ctx) as nat,
        )),
        r matches Some(l) ==> l@ == occurrence_seq(top_ctx as nat, current_ctx as nat, bvar_indices(arguments@)),
{
    match miller_indices(arguments) {
        None => None,
        Some(indices) => occurrence_lift(top_ctx, current_ctx, indices.as_slice()),
    }
}

} // verus!
