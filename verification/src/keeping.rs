//! What a rebuild keeps: every e-node hash-consed before it is still stood
//! for, after it, by a hash-consed e-node with the same operator, whose
//! children and class are equivalent to its own once placed in its context.
use vstd::prelude::*;
use crate::seqs::{count_true, compose_seq, rank, lemma_compose_count, lemma_count_all_true};
use crate::lift::{Lift, all_true, lemma_count_push};
use crate::lift_laws::{law_compose_associative, law_compose_identity_left, law_compose_identity_right};
use crate::id::{Id, RAW_MASK, id_of, lemma_id_of, lemma_id_ext, lemma_id_lift_inv, lemma_id_eq};
use crate::memo::{NodeKey, memo_entries};
use crate::unionfind::{ctx_at, id_valid, walk, find_spec, lemma_walk};
use crate::egraph::{EGraph, Node, node_ok, node_of, canonical_form, lemma_egraph_specs, lemma_node_ok_extend};

verus! {

/// Class placement `v` placed further through the flags `l`.
pub(crate) open spec fn place(v: Id, l: Seq<bool>) -> Id {
    id_of(compose_seq(l, v.lift_spec()@), v.raw_spec())
}

/// Raw class `r` in its own context.
pub(crate) open spec fn class_id(g: EGraph, r: int) -> Id {
    id_of(all_true(ctx_at(g.parent@, r)), r as u32)
}

/// Placing a valid class placement through `l`: a valid placement, whose
/// canonical placement is that of `v` placed through `l`.
pub(crate) proof fn lemma_place(g: EGraph, v: Id, l: Seq<bool>)
    requires
        g.wf(),
        id_valid(g.parent@, v),
        l.len() <= 7,
        count_true(l) == v.lift_spec()@.len(),
    ensures
        place(v, l).inv(),
        place(v, l).lift_spec()@ == compose_seq(l, v.lift_spec()@),
        place(v, l).raw_spec() == v.raw_spec(),
        id_valid(g.parent@, place(v, l)),
        g.canon(place(v, l)) == (compose_seq(l, g.canon(v).0), g.canon(v).1),
{
    lemma_egraph_specs(g);
    let vl = v.lift_spec()@;
    let c = compose_seq(l, vl);
    lemma_compose_count(l, vl);
    assert(g.parent@.len() <= RAW_MASK + 1) by {
        crate::egraph::lemma_wf_parent_len(g);
    }
    lemma_id_of(c, v.raw_spec());
    lemma_walk(g.parent@, g.rank@, g.rank_bound@, v.raw_spec() as int);
    law_compose_associative(l, vl, walk(g.parent@, g.rank@, g.rank_bound@, v.raw_spec() as int).0);
}

/// A raw class in its own context: a valid placement whose canonical
/// placement is the walk to its root.
pub(crate) proof fn lemma_class_id(g: EGraph, r: int)
    requires
        g.wf(),
        0 <= r < g.parent@.len(),
    ensures
        class_id(g, r).inv(),
        class_id(g, r).raw_spec() == r,
        class_id(g, r).lift_spec()@ == all_true(ctx_at(g.parent@, r)),
        id_valid(g.parent@, class_id(g, r)),
        g.canon(class_id(g, r)) == walk(g.parent@, g.rank@, g.rank_bound@, r),
{
    lemma_egraph_specs(g);
    crate::egraph::lemma_wf_parent_len(g);
    crate::egraph::lemma_wf_edge(g, r);
    lemma_id_lift_inv(g.parent@[r]);
    lemma_count_all_true(ctx_at(g.parent@, r));
    lemma_id_of(all_true(ctx_at(g.parent@, r)), r as u32);
    lemma_walk(g.parent@, g.rank@, g.rank_bound@, r);
    law_compose_identity_left(walk(g.parent@, g.rank@, g.rank_bound@, r).0);
}

/// The e-node `n` of class placement `x` is well formed in `g`.
pub(crate) open spec fn node_at_ok(g: EGraph, n: Node, x: Id) -> bool {
    &&& x.inv()
    &&& id_valid(g.parent@, x)
    &&& node_ok(g.parent@, g.symbols@.len(), n, x.lift_spec()@.len())
}

/// Entry `i` of the hash-cons table `entries` stands for the e-node `n` of
/// class placement `x` in `g`: it applies the same operator, and its
/// children and class, placed through `l`, are equivalent to those of `n`.
pub(crate) open spec fn stands_for(g: EGraph, entries: Seq<(NodeKey, u32)>, i: int, l: Seq<bool>, n: Node, x: Id) -> bool {
    0 <= i < entries.len() && {
        let (k, r) = entries[i];
        let c = node_of(k);
        &&& (r as int) < g.parent@.len()
        &&& node_ok(g.parent@, g.symbols@.len(), c, ctx_at(g.parent@, r as int))
        &&& l.len() <= 7
        &&& l.len() == x.lift_spec()@.len()
        &&& count_true(l) == ctx_at(g.parent@, r as int)
        &&& g.equiv(x, place(class_id(g, r as int), l))
        &&& match (n, c) {
            (Node::Var, Node::Var) => true,
            (Node::Atom(s), Node::Atom(t)) => s == t,
            (Node::App(f, a), Node::App(f2, a2)) => g.equiv(f, place(f2, l)) && g.equiv(a, place(a2, l)),
            (Node::Binder(s, b), Node::Binder(t, b2)) => s == t && g.equiv(b, place(b2, l.push(true))),
            _ => false,
        }
    }
}

/// Some entry of `entries` stands for `n` of class placement `x` in `g`.
pub(crate) open spec fn stood_for(g: EGraph, entries: Seq<(NodeKey, u32)>, n: Node, x: Id) -> bool {
    exists|i: int, l: Seq<bool>| #[trigger] stands_for(g, entries, i, l, n, x)
}

/// Placing equivalent placements through one lift keeps them equivalent.
pub(crate) proof fn lemma_place_equiv(g: EGraph, u: Id, v: Id, l: Seq<bool>)
    requires
        g.wf(),
        id_valid(g.parent@, u),
        id_valid(g.parent@, v),
        g.equiv(u, v),
        l.len() <= 7,
        count_true(l) == u.lift_spec()@.len(),
        count_true(l) == v.lift_spec()@.len(),
    ensures
        g.equiv(place(u, l), place(v, l)),
{
    lemma_place(g, u, l);
    lemma_place(g, v, l);
}

/// Placing twice is placing through the composed lift.
pub(crate) proof fn lemma_place_twice(g: EGraph, v: Id, l1: Seq<bool>, l2: Seq<bool>)
    requires
        g.wf(),
        id_valid(g.parent@, v),
        l1.len() <= 7,
        count_true(l1) == l2.len(),
        count_true(l2) == v.lift_spec()@.len(),
    ensures
        place(place(v, l2), l1) == place(v, compose_seq(l1, l2)),
{
    lemma_egraph_specs(g);
    crate::egraph::lemma_wf_parent_len(g);
    assert(l2.len() <= 7) by {
        crate::seqs::lemma_count_le_len(l1);
    }
    lemma_place(g, v, l2);
    lemma_place(g, place(v, l2), l1);
    lemma_compose_count(l1, l2);
    lemma_place(g, v, compose_seq(l1, l2));
    law_compose_associative(l1, l2, v.lift_spec()@);
    lemma_id_ext(place(place(v, l2), l1), place(v, compose_seq(l1, l2)));
}

/// Equivalences survive an extension, for valid placements.
pub(crate) proof fn lemma_equiv_extends(g1: EGraph, g2: EGraph, u: Id, v: Id)
    requires
        g1.extends(g2),
        g1.wf(),
        id_valid(g1.parent@, u),
        id_valid(g1.parent@, v),
        g1.equiv(u, v),
    ensures
        g2.equiv(u, v),
{
    lemma_egraph_specs(g1);
    assert(g1.valid(u) && g1.valid(v));
}

/// Standing for an e-node survives an extension that keeps the symbols and
/// the entry.
pub(crate) proof fn lemma_stands_for_extends(
    g1: EGraph,
    g2: EGraph,
    e1: Seq<(NodeKey, u32)>,
    e2: Seq<(NodeKey, u32)>,
    i: int,
    l: Seq<bool>,
    n: Node,
    x: Id,
)
    requires
        g1.wf(),
        g2.wf(),
        g1.extends(g2),
        g2.symbols@.len() >= g1.symbols@.len(),
        stands_for(g1, e1, i, l, n, x),
        node_at_ok(g1, n, x),
        0 <= i < e2.len(),
        e2[i] == e1[i],
    ensures
        stands_for(g2, e2, i, l, n, x),
        node_at_ok(g2, n, x),
{
    lemma_egraph_specs(g1);
    lemma_egraph_specs(g2);
    let (k, r) = e1[i];
    let c = node_of(k);
    let p1 = g1.parent@;
    let p2 = g2.parent@;
    assert forall|j: int| 0 <= j < p1.len() implies ctx_at(p2, j) == ctx_at(p1, j) by {
        assert(g2.class_ctx(j) == g1.class_ctx(j));
    }
    lemma_node_ok_extend(p1, p2, g1.symbols@.len(), c, ctx_at(p1, r as int));
    lemma_node_ok_extend(p1, p2, g1.symbols@.len(), n, x.lift_spec()@.len());
    crate::egraph::lemma_node_ok_symbols(p2, g1.symbols@.len(), g2.symbols@.len(), c, ctx_at(p1, r as int));
    crate::egraph::lemma_node_ok_symbols(p2, g1.symbols@.len(), g2.symbols@.len(), n, x.lift_spec()@.len());
    assert(g2.valid(x)) by {
        assert(g1.valid(x));
    }
    lemma_class_id(g1, r as int);
    assert(class_id(g2, r as int) == class_id(g1, r as int));
    lemma_place(g1, class_id(g1, r as int), l);
    lemma_equiv_extends(g1, g2, x, place(class_id(g1, r as int), l));
    match (n, c) {
        (Node::App(f, a), Node::App(f2, a2)) => {
            lemma_place(g1, f2, l);
            lemma_place(g1, a2, l);
            lemma_equiv_extends(g1, g2, f, place(f2, l));
            lemma_equiv_extends(g1, g2, a, place(a2, l));
        },
        (Node::Binder(s, b), Node::Binder(t, b2)) => {
            lemma_count_push(l, true);
            lemma_id_lift_inv(b);
            lemma_place(g1, b2, l.push(true));
            lemma_equiv_extends(g1, g2, b, place(b2, l.push(true)));
        },
        _ => {},
    }
}

/// Composing lifts that both gain a last, kept variable.
proof fn lemma_compose_push(a: Seq<bool>, b: Seq<bool>)
    requires
        b.len() == count_true(a),
    ensures
        compose_seq(a.push(true), b.push(true)) == compose_seq(a, b).push(true),
{
    let lhs = compose_seq(a.push(true), b.push(true));
    let rhs = compose_seq(a, b).push(true);
    assert forall|i: int| 0 <= i < a.len() + 1 implies lhs[i] == rhs[i] by {
        if i < a.len() {
            assert(a.push(true).take(i) =~= a.take(i));
            if a[i] {
                crate::seqs::lemma_rank_selected(a, i);
            }
        } else {
            assert(a.push(true).take(i) =~= a);
        }
    }
    assert(lhs =~= rhs);
}

/// `u` is `v` placed through `l1`, and `v` is `w` placed through `l2`:
/// then `u` is `w` placed through their composition.
proof fn lemma_chain_equiv(g: EGraph, u: Id, v: Id, w: Id, l1: Seq<bool>, l2: Seq<bool>)
    requires
        g.wf(),
        id_valid(g.parent@, u),
        id_valid(g.parent@, v),
        id_valid(g.parent@, w),
        l1.len() <= 7,
        count_true(l1) == v.lift_spec()@.len(),
        count_true(l2) == w.lift_spec()@.len(),
        l2.len() == v.lift_spec()@.len(),
        g.equiv(u, place(v, l1)),
        g.equiv(v, place(w, l2)),
    ensures
        g.equiv(u, place(w, compose_seq(l1, l2))),
{
    crate::seqs::lemma_count_le_len(l1);
    lemma_place(g, w, l2);
    lemma_place(g, v, l1);
    lemma_place_equiv(g, v, place(w, l2), l1);
    lemma_place_twice(g, w, l1, l2);
}

/// An entry that stands for an entry standing for `n` stands for `n`,
/// through the composed lift.
#[verifier::spinoff_prover]
#[verifier::rlimit(60)]
pub(crate) proof fn lemma_stands_for_chain(
    g: EGraph,
    t: Seq<(NodeKey, u32)>,
    i: int,
    l1: Seq<bool>,
    m: Seq<(NodeKey, u32)>,
    j: int,
    l2: Seq<bool>,
    n: Node,
    x: Id,
)
    requires
        g.wf(),
        stands_for(g, t, i, l1, n, x),
        node_at_ok(g, n, x),
        stands_for(g, m, j, l2, node_of(t[i].0), class_id(g, t[i].1 as int)),
    ensures
        stands_for(g, m, j, compose_seq(l1, l2), n, x),
{
    let (kt, rt) = t[i];
    let (km, rm) = m[j];
    let ct = node_of(kt);
    let cm = node_of(km);
    lemma_class_id(g, rt as int);
    lemma_class_id(g, rm as int);
    lemma_compose_count(l1, l2);
    lemma_chain_equiv(g, x, class_id(g, rt as int), class_id(g, rm as int), l1, l2);
    match (n, ct, cm) {
        (Node::App(f, a), Node::App(ft, at), Node::App(fm, am)) => {
            lemma_chain_equiv(g, f, ft, fm, l1, l2);
            lemma_chain_equiv(g, a, at, am, l1, l2);
        },
        (Node::Binder(s, b), Node::Binder(st, bt), Node::Binder(sm, bm)) => {
            lemma_count_push(l1, true);
            lemma_count_push(l2, true);
            lemma_id_lift_inv(b);
            lemma_id_lift_inv(bt);
            lemma_chain_equiv(g, b, bt, bm, l1.push(true), l2.push(true));
            lemma_compose_push(l1, l2);
        },
        _ => {},
    }
}

/// Placing a valid placement through the identity changes nothing.
pub(crate) proof fn lemma_place_identity(g: EGraph, v: Id)
    requires
        g.wf(),
        v.inv(),
        id_valid(g.parent@, v),
    ensures
        place(v, all_true(v.lift_spec()@.len())) == v,
{
    lemma_id_lift_inv(v);
    lemma_count_all_true(v.lift_spec()@.len());
    lemma_place(g, v, all_true(v.lift_spec()@.len()));
    law_compose_identity_left(v.lift_spec()@);
    lemma_id_eq(place(v, all_true(v.lift_spec()@.len())), v);
}

/// A well-formed entry stands for its own e-node and class.
pub(crate) proof fn lemma_stands_for_self(g: EGraph, e: Seq<(NodeKey, u32)>, i: int)
    requires
        g.wf(),
        0 <= i < e.len(),
        (e[i].1 as int) < g.parent@.len(),
        node_ok(g.parent@, g.symbols@.len(), node_of(e[i].0), ctx_at(g.parent@, e[i].1 as int)),
    ensures
        stands_for(g, e, i, all_true(ctx_at(g.parent@, e[i].1 as int)), node_of(e[i].0), class_id(g, e[i].1 as int)),
        node_at_ok(g, node_of(e[i].0), class_id(g, e[i].1 as int)),
{
    lemma_egraph_specs(g);
    let (k, r) = e[i];
    let c = node_of(k);
    let n = ctx_at(g.parent@, r as int);
    lemma_class_id(g, r as int);
    crate::egraph::lemma_wf_edge(g, r as int);
    lemma_id_lift_inv(g.parent@[r as int]);
    assert(all_true(n).len() <= 7);
    lemma_count_all_true(n);
    lemma_place_identity(g, class_id(g, r as int));
    match c {
        Node::App(f, a) => {
            lemma_place_identity(g, f);
            lemma_place_identity(g, a);
        },
        Node::Binder(s, b) => {
            assert(all_true(n).push(true) =~= all_true(n + 1));
            lemma_place_identity(g, b);
        },
        _ => {},
    }
}

/// A child that an e-node's canonical form replaced, placed back through
/// the form's lift, is equivalent to the child it replaced.
proof fn lemma_canonical_child(g: EGraph, x: Id, y: Id, l: Seq<bool>)
    requires
        g.wf(),
        id_valid(g.parent@, x),
        id_valid(g.parent@, y),
        y.inv(),
        l.len() <= 7,
        count_true(l) == y.lift_spec()@.len(),
        y.raw_spec() == g.canon(x).1,
        compose_seq(l, y.lift_spec()@) == g.canon(x).0,
    ensures
        id_valid(g.parent@, place(y, l)),
        g.equiv(x, place(y, l)),
{
    lemma_egraph_specs(g);
    lemma_walk(g.parent@, g.rank@, g.rank_bound@, x.raw_spec() as int);
    crate::egraph::lemma_canon_root_id(g, y);
    lemma_place(g, y, l);
}

/// An e-node whose canonical form `c`, of lift `l`, is entry `j` of `e`,
/// and a placement `x` equivalent to that entry's class placed through `l`:
/// that entry stands for the e-node in `x`.
pub(crate) proof fn lemma_canonical_entry(
    g0: EGraph,
    g: EGraph,
    node: Node,
    x: Id,
    l: Seq<bool>,
    c: Node,
    e: Seq<(NodeKey, u32)>,
    j: int,
)
    requires
        g0.wf(),
        g.wf(),
        g0.extends(g),
        g.symbols@.len() == g0.symbols@.len(),
        l.len() <= 7,
        node_ok(g0.parent@, g0.symbols@.len(), node, l.len()),
        canonical_form(g0, node, l, c),
        node_ok(g0.parent@, g0.symbols@.len(), c, count_true(l)),
        0 <= j < e.len(),
        node_of(e[j].0) == c,
        (e[j].1 as int) < g.parent@.len(),
        count_true(l) == ctx_at(g.parent@, e[j].1 as int),
        node_ok(g.parent@, g.symbols@.len(), c, ctx_at(g.parent@, e[j].1 as int)),
        x.inv(),
        id_valid(g.parent@, x),
        x.lift_spec()@.len() == l.len(),
        g.equiv(x, place(class_id(g, e[j].1 as int), l)),
    ensures
        stands_for(g, e, j, l, node, x),
        node_at_ok(g, node, x),
{
    lemma_egraph_specs(g0);
    crate::egraph::lemma_extends_ctx(g0, g);
    lemma_node_ok_extend(g0.parent@, g.parent@, g0.symbols@.len(), node, l.len());
    match (node, c) {
        (Node::App(f, a), Node::App(f2, a2)) => {
            lemma_canonical_child(g0, f, f2, l);
            lemma_canonical_child(g0, a, a2, l);
            lemma_equiv_extends(g0, g, f, place(f2, l));
            lemma_equiv_extends(g0, g, a, place(a2, l));
        },
        (Node::Binder(s, b), Node::Binder(t, b2)) => {
            lemma_id_lift_inv(b);
            lemma_count_push(l, true);
            lemma_canonical_child(g0, b, b2, l.push(true));
            lemma_equiv_extends(g0, g, b, place(b2, l.push(true)));
        },
        _ => {},
    }
}

/// The last step of re-canonicalizing an e-node: its class was unioned
/// with the class `base` of its canonical form placed through the form's
/// lift, and the form is entry `j` of the table, of class `target`. Then
/// the table stands for the e-node.
#[verifier::spinoff_prover]
#[verifier::rlimit(80)]
pub(crate) proof fn lemma_rebuilt_node(
    g0: EGraph,
    g1: EGraph,
    g: EGraph,
    node: Node,
    raw: int,
    l: Seq<bool>,
    c: Node,
    base: Id,
    placed: Id,
    target: int,
    j: int,
)
    requires
        g0.wf(),
        g1.wf(),
        g.wf(),
        g0.extends(g1),
        g1.extends(g),
        g1.symbols@.len() == g0.symbols@.len(),
        g.symbols@.len() == g0.symbols@.len(),
        0 <= raw < g0.parent@.len(),
        node_ok(g0.parent@, g0.symbols@.len(), node, ctx_at(g0.parent@, raw)),
        l.len() == ctx_at(g0.parent@, raw),
        canonical_form(g0, node, l, c),
        node_ok(g0.parent@, g0.symbols@.len(), c, count_true(l)),
        0 <= j < memo_entries(g.memo).len(),
        node_of(memo_entries(g.memo)[j].0) == c,
        memo_entries(g.memo)[j].1 as int == target,
        0 <= target < g1.parent@.len(),
        count_true(l) == ctx_at(g1.parent@, target),
        node_ok(g1.parent@, g1.symbols@.len(), c, ctx_at(g1.parent@, target)),
        base.inv(),
        id_valid(g1.parent@, base),
        base.lift_spec()@.len() == count_true(l),
        g1.equiv(base, class_id(g1, target)),
        placed.inv(),
        placed.raw_spec() == base.raw_spec(),
        placed.lift_spec()@ == compose_seq(l, base.lift_spec()@),
        g.equiv(class_id(g0, raw), placed),
    ensures
        stood_for(g, memo_entries(g.memo), node, class_id(g, raw)),
        node_at_ok(g, node, class_id(g, raw)),
{
    crate::egraph::lemma_extends_trans(g0, g1, g);
    crate::egraph::lemma_extends_ctx(g0, g);
    crate::egraph::lemma_extends_ctx(g1, g);
    let e = memo_entries(g.memo);
    let p1 = g1.parent@;
    let p = g.parent@;
    assert(class_id(g, raw) == class_id(g0, raw));
    assert(class_id(g, target) == class_id(g1, target));
    let cid = class_id(g1, target);
    assert(l.len() <= 7) by {
        crate::egraph::lemma_wf_edge(g0, raw);
        lemma_id_lift_inv(g0.parent@[raw]);
    }
    assert(g1.equiv(place(base, l), place(cid, l)) && id_valid(p1, place(base, l)) && id_valid(p1, place(cid, l))
        && place(base, l).inv()) by {
        lemma_class_id(g1, target);
        lemma_place(g1, base, l);
        lemma_place(g1, cid, l);
        lemma_place_equiv(g1, base, cid, l);
    }
    lemma_equiv_extends(g1, g, place(base, l), place(cid, l));
    assert(placed == place(base, l)) by {
        lemma_place(g1, base, l);
        lemma_id_eq(placed, place(base, l));
    }
    lemma_node_ok_extend(p1, p, g1.symbols@.len(), c, ctx_at(p1, target));
    lemma_class_id(g, raw);
    lemma_canonical_entry(g0, g, node, class_id(g, raw), l, c, e, j);
    assert(stands_for(g, e, j, l, node, class_id(g, raw)));
}

/// The first `n` entries of `before` are e-nodes well formed in `g`, each
/// stood for, in `g`, by some entry of `after`.
pub(crate) open spec fn kept(g: EGraph, before: Seq<(NodeKey, u32)>, n: int, after: Seq<(NodeKey, u32)>) -> bool {
    forall|i: int|
        0 <= i < n ==> {
            let (k, r) = #[trigger] before[i];
            &&& (r as int) < g.parent@.len()
            &&& node_at_ok(g, node_of(k), class_id(g, r as int))
            &&& stood_for(g, after, node_of(k), class_id(g, r as int))
        }
}

/// Well-formed entries each stand for themselves.
pub(crate) proof fn lemma_kept_self(g: EGraph, e: Seq<(NodeKey, u32)>)
    requires
        g.wf(),
        forall|i: int|
            0 <= i < e.len() ==> {
                let (k, r) = #[trigger] e[i];
                &&& (r as int) < g.parent@.len()
                &&& node_ok(g.parent@, g.symbols@.len(), node_of(k), ctx_at(g.parent@, r as int))
            },
    ensures
        kept(g, e, e.len() as int, e),
{
    assert forall|i: int| 0 <= i < e.len() implies {
        let (k, r) = #[trigger] e[i];
        &&& (r as int) < g.parent@.len()
        &&& node_at_ok(g, node_of(k), class_id(g, r as int))
        &&& stood_for(g, e, node_of(k), class_id(g, r as int))
    } by {
        let (k, r) = e[i];
        lemma_stands_for_self(g, e, i);
        assert(stands_for(g, e, i, all_true(ctx_at(g.parent@, r as int)), node_of(k), class_id(g, r as int)));
    }
}

/// What is kept stays kept as the e-graph extends with the same symbols and
/// the standing table only grows.
pub(crate) proof fn lemma_kept_extends(
    g1: EGraph,
    g2: EGraph,
    before: Seq<(NodeKey, u32)>,
    n: int,
    a1: Seq<(NodeKey, u32)>,
    a2: Seq<(NodeKey, u32)>,
)
    requires
        g1.wf(),
        g2.wf(),
        g1.extends(g2),
        g2.symbols@.len() == g1.symbols@.len(),
        kept(g1, before, n, a1),
        a1.len() <= a2.len(),
        forall|k: int| 0 <= k < a1.len() ==> #[trigger] a2[k] == a1[k],
    ensures
        kept(g2, before, n, a2),
{
    crate::egraph::lemma_extends_ctx(g1, g2);
    assert forall|i: int| 0 <= i < n implies {
        let (k, r) = #[trigger] before[i];
        &&& (r as int) < g2.parent@.len()
        &&& node_at_ok(g2, node_of(k), class_id(g2, r as int))
        &&& stood_for(g2, a2, node_of(k), class_id(g2, r as int))
    } by {
        let (k, r) = before[i];
        let x = class_id(g1, r as int);
        assert(stood_for(g1, a1, node_of(k), x));
        let (j, l) = choose|j: int, l: Seq<bool>| #[trigger] stands_for(g1, a1, j, l, node_of(k), x);
        let _ = a2[j];
        lemma_stands_for_extends(g1, g2, a1, a2, j, l, node_of(k), x);
        assert(class_id(g2, r as int) == x);
    }
}

/// Kept through a middle table, then kept from that table: kept.
pub(crate) proof fn lemma_kept_chain(
    g: EGraph,
    before: Seq<(NodeKey, u32)>,
    n: int,
    mid: Seq<(NodeKey, u32)>,
    after: Seq<(NodeKey, u32)>,
)
    requires
        g.wf(),
        kept(g, before, n, mid),
        kept(g, mid, mid.len() as int, after),
    ensures
        kept(g, before, n, after),
{
    assert forall|i: int| 0 <= i < n implies {
        let (k, r) = #[trigger] before[i];
        &&& (r as int) < g.parent@.len()
        &&& node_at_ok(g, node_of(k), class_id(g, r as int))
        &&& stood_for(g, after, node_of(k), class_id(g, r as int))
    } by {
        let (k, r) = before[i];
        let x = class_id(g, r as int);
        let nd = node_of(k);
        assert(stood_for(g, mid, nd, x));
        let (j, l1) = choose|j: int, l: Seq<bool>| #[trigger] stands_for(g, mid, j, l, nd, x);
        let _ = mid[j];
        let (km, rm) = mid[j];
        assert(stood_for(g, after, node_of(km), class_id(g, rm as int)));
        let (j2, l2) = choose|j: int, l: Seq<bool>| #[trigger] stands_for(g, after, j, l, node_of(km), class_id(g, rm as int));
        lemma_stands_for_chain(g, mid, j, l1, after, j2, l2, nd, x);
        assert(stands_for(g, after, j2, compose_seq(l1, l2), nd, x));
    }
}

impl EGraph {
    /// Every e-node hash-consed in `self` is still stood for in `next` by a
    /// hash-consed e-node with the same operator and symbol, whose children
    /// and class, placed through one lift, are equal in `next` to its own.
    pub closed spec fn keeps_nodes(self, next: EGraph) -> bool {
        kept(next, memo_entries(self.memo), memo_entries(self.memo).len() as int, memo_entries(next.memo))
    }
}

/// What `kept` says of the whole table at the start is `keeps_nodes`.
pub(crate) proof fn lemma_keeps_nodes(before: EGraph, after: EGraph)
    requires
        kept(after, memo_entries(before.memo), memo_entries(before.memo).len() as int, memo_entries(after.memo)),
    ensures
        before.keeps_nodes(after),
{
}

/// Entry `j` of the hash-cons table of `g` files the e-node `node` under a
/// class that `x` is equivalent to, in `x`'s context.
pub(crate) open spec fn filed(g: EGraph, node: Node, x: Id, j: int) -> bool {
    0 <= j < memo_entries(g.memo).len() && {
        let (k, r) = memo_entries(g.memo)[j];
        &&& node_of(k) == node
        &&& (r as int) < g.parent@.len()
        &&& ctx_at(g.parent@, r as int) == x.lift_spec()@.len()
        &&& node_ok(g.parent@, g.symbols@.len(), node, ctx_at(g.parent@, r as int))
        &&& g.equiv(x, class_id(g, r as int))
    }
}

/// An e-node whose canonical form `c`, of lift `l`, is filed under `base`:
/// the table stands for the e-node in `base` placed through `l`, and in
/// everything equivalent to that.
pub(crate) proof fn lemma_placed_entry(g0: EGraph, g: EGraph, node: Node, x: Id, l: Seq<bool>, c: Node, base: Id, j: int)
    requires
        g0.wf(),
        g.wf(),
        g0.extends(g),
        g.symbols@.len() == g0.symbols@.len(),
        l.len() <= 7,
        node_ok(g0.parent@, g0.symbols@.len(), node, l.len()),
        canonical_form(g0, node, l, c),
        node_ok(g0.parent@, g0.symbols@.len(), c, count_true(l)),
        filed(g, c, base, j),
        base.inv(),
        id_valid(g.parent@, base),
        base.lift_spec()@.len() == count_true(l),
        x.inv(),
        id_valid(g.parent@, x),
        x.lift_spec()@.len() == l.len(),
        g.equiv(x, place(base, l)),
    ensures
        stands_for(g, memo_entries(g.memo), j, l, node, x),
        node_at_ok(g, node, x),
        stood_for(g, memo_entries(g.memo), node, x),
{
    let e = memo_entries(g.memo);
    let r = e[j].1 as int;
    let cid = class_id(g, r);
    lemma_class_id(g, r);
    lemma_place(g, base, l);
    lemma_place(g, cid, l);
    lemma_place_equiv(g, base, cid, l);
    lemma_canonical_entry(g0, g, node, x, l, c, e, j);
}

/// `keeps_nodes` is `kept` of the whole table at the start.
pub(crate) proof fn lemma_keeps_nodes_kept(before: EGraph, after: EGraph)
    requires
        before.keeps_nodes(after),
    ensures
        kept(after, memo_entries(before.memo), memo_entries(before.memo).len() as int, memo_entries(after.memo)),
{
}

/// Reverse-index entry `(node, edge)` of class `r`: the e-node is
/// hash-consed, in entry `i`, in a class equal to `r`'s placed through
/// `edge`.
pub(crate) open spec fn rev_filed(g: EGraph, i: int, r: int, node: Node, edge: Seq<bool>) -> bool {
    &&& 0 <= i < memo_entries(g.memo).len()
    &&& node_of(memo_entries(g.memo)[i].0) == node
    &&& g.equiv(class_id(g, memo_entries(g.memo)[i].1 as int), place(class_id(g, r), edge))
}

/// Entry `k` of class `r`'s reverse-index bucket is hash-consed where
/// the index files it.
pub(crate) open spec fn rev_entry_ok(g: EGraph, r: int, k: int) -> bool {
    exists|i: int| #[trigger] rev_filed(g, i, r, g.rev@[r]@[k].0, g.rev@[r]@[k].1@)
}

/// Every reverse-index entry is hash-consed where the index files it.
#[verifier::opaque]
pub(crate) open spec fn rev_members(g: EGraph) -> bool {
    forall|r: int, k: int| 0 <= r < g.rev@.len() && 0 <= k < g.rev@[r]@.len() ==> #[trigger] rev_entry_ok(g, r, k)
}

/// A reverse index whose every entry is hash-consed where it is filed.
pub(crate) proof fn lemma_rev_members_intro(g: EGraph)
    requires
        forall|r: int, k: int| 0 <= r < g.rev@.len() && 0 <= k < g.rev@[r]@.len() ==> #[trigger] rev_entry_ok(g, r, k),
    ensures
        rev_members(g),
{
    reveal(rev_members);
}

/// Where a reverse-index entry is hash-consed.
pub(crate) proof fn lemma_rev_members_elim(g: EGraph, r: int, k: int) -> (i: int)
    requires
        rev_members(g),
        0 <= r < g.rev@.len(),
        0 <= k < g.rev@[r]@.len(),
    ensures
        rev_filed(g, i, r, g.rev@[r]@[k].0, g.rev@[r]@[k].1@),
{
    reveal(rev_members);
    assert(rev_entry_ok(g, r, k));
    choose|i: int| #[trigger] rev_filed(g, i, r, g.rev@[r]@[k].0, g.rev@[r]@[k].1@)
}

/// Bucket `r` of `rev` holds `node` with the lift `el` at position `k`.
pub(crate) open spec fn rev_slot(rev: Seq<Vec<(Node, Lift)>>, r: int, k: int, node: Node, el: Seq<bool>) -> bool {
    &&& 0 <= r < rev.len()
    &&& 0 <= k < rev[r]@.len()
    &&& rev[r]@[k].0 == node
    &&& rev[r]@[k].1@ == el
}

/// The hash-consed e-node of entry `i` is filed in `rev` under the root of
/// its class, with the lift from its class to that root.
pub(crate) open spec fn rev_holds_in(g: EGraph, rev: Seq<Vec<(Node, Lift)>>, i: int) -> bool {
    let c = g.canon(class_id(g, memo_entries(g.memo)[i].1 as int));
    exists|k: int| #[trigger] rev_slot(rev, c.1, k, node_of(memo_entries(g.memo)[i].0), c.0)
}

/// Every hash-consed e-node is filed in the reverse index under its root.
#[verifier::opaque]
pub(crate) open spec fn rev_complete(g: EGraph) -> bool {
    forall|i: int| 0 <= i < memo_entries(g.memo).len() ==> #[trigger] rev_holds_in(g, g.rev@, i)
}

/// A reverse index that files every hash-consed e-node under its root.
pub(crate) proof fn lemma_rev_complete_intro(g: EGraph)
    requires
        forall|i: int| 0 <= i < memo_entries(g.memo).len() ==> #[trigger] rev_holds_in(g, g.rev@, i),
    ensures
        rev_complete(g),
{
    reveal(rev_complete);
}

/// Where the reverse index files the hash-consed e-node of entry `i`.
pub(crate) proof fn lemma_rev_complete_elim(g: EGraph, i: int)
    requires
        rev_complete(g),
        0 <= i < memo_entries(g.memo).len(),
    ensures
        rev_holds_in(g, g.rev@, i),
{
    reveal(rev_complete);
}

/// `rev_members` and `rev_complete` depend only on the table, the
/// union-find and the index.
pub(crate) proof fn lemma_rev_members_same(g1: EGraph, g2: EGraph)
    requires
        memo_entries(g1.memo) == memo_entries(g2.memo),
        g1.parent@ == g2.parent@,
        g1.rank@ == g2.rank@,
        g1.rank_bound@ == g2.rank_bound@,
        g1.rev@.len() == g2.rev@.len(),
        forall|r: int| 0 <= r < g1.rev@.len() ==> #[trigger] g1.rev@[r]@ == g2.rev@[r]@,
        g1.rev_valid ==> rev_members(g1),
        g1.rev_valid ==> rev_complete(g1),
    ensures
        g1.rev_valid ==> rev_members(g2),
        g1.rev_valid ==> rev_complete(g2),
{
    if g1.rev_valid {
        assert forall|i: int| 0 <= i < memo_entries(g2.memo).len() implies #[trigger] rev_holds_in(g2, g2.rev@, i) by {
            lemma_rev_complete_elim(g1, i);
            lemma_egraph_specs(g1);
            lemma_egraph_specs(g2);
            assert(forall|x: Id| #[trigger] g1.canon(x) == g2.canon(x));
            let c = g1.canon(class_id(g1, memo_entries(g1.memo)[i].1 as int));
            let k = choose|k: int| #[trigger] rev_slot(g1.rev@, c.1, k, node_of(memo_entries(g1.memo)[i].0), c.0);
            assert(g1.rev@[c.1]@ == g2.rev@[c.1]@);
            assert(class_id(g1, memo_entries(g1.memo)[i].1 as int) == class_id(g2, memo_entries(g2.memo)[i].1 as int));
            assert(g2.canon(class_id(g2, memo_entries(g2.memo)[i].1 as int)) == c);
            assert(rev_slot(g2.rev@, c.1, k, node_of(memo_entries(g2.memo)[i].0), c.0));
        }
        lemma_rev_complete_intro(g2);
        lemma_egraph_specs(g1);
        lemma_egraph_specs(g2);
        assert forall|r: int, k: int| 0 <= r < g2.rev@.len() && 0 <= k < g2.rev@[r]@.len() implies #[trigger] rev_entry_ok(g2, r, k) by {
            assert(g1.rev@[r]@ == g2.rev@[r]@);
            let i = lemma_rev_members_elim(g1, r, k);
            assert(forall|x: Id| #[trigger] g1.canon(x) == g2.canon(x));
            assert(rev_filed(g2, i, r, g2.rev@[r]@[k].0, g2.rev@[r]@[k].1@));
        }
        lemma_rev_members_intro(g2);
    }
}

/// Entry `i` of the table of `g` hash-conses `node` in a class that `by`
/// places equal to `x`.
pub(crate) open spec fn placed_at(g: EGraph, i: int, x: Id, node: Node, by: Seq<bool>) -> bool {
    &&& 0 <= i < memo_entries(g.memo).len()
    &&& node_of(memo_entries(g.memo)[i].0) == node
    &&& g.equiv(x, place(class_id(g, memo_entries(g.memo)[i].1 as int), by))
}

/// The class of `x` holds the hash-consed e-node `node` placed through
/// `by`.
pub(crate) open spec fn in_class(g: EGraph, x: Id, node: Node, by: Seq<bool>) -> bool {
    exists|i: int| #[trigger] placed_at(g, i, x, node, by)
}

/// A hash-consed e-node placed into `x`'s class through `by` belongs to a
/// class with `x`'s root, and `by` composed with its lift to that root is
/// `x`'s canonical lift.
pub(crate) proof fn lemma_placed_to_root(g: EGraph, x: Id, i: int, by: Seq<bool>)
    requires
        g.wf(),
        id_valid(g.parent@, x),
        x.inv(),
        0 <= i < memo_entries(g.memo).len(),
        by.len() == g.canon(x).0.len(),
        count_true(by) == ctx_at(g.parent@, memo_entries(g.memo)[i].1 as int),
        placed_at(g, i, x, node_of(memo_entries(g.memo)[i].0), by),
    ensures
        g.canon(class_id(g, memo_entries(g.memo)[i].1 as int)).1 == g.canon(x).1,
        count_true(by) == g.canon(class_id(g, memo_entries(g.memo)[i].1 as int)).0.len(),
        compose_seq(by, g.canon(class_id(g, memo_entries(g.memo)[i].1 as int)).0) == g.canon(x).0,
{
    lemma_egraph_specs(g);
    let raw = memo_entries(g.memo)[i].1 as int;
    assert(raw < g.parent@.len());
    lemma_class_id(g, raw);
    lemma_count_all_true(ctx_at(g.parent@, raw));
    lemma_id_lift_inv(x);
    lemma_walk(g.parent@, g.rank@, g.rank_bound@, x.raw_spec() as int);
    lemma_walk(g.parent@, g.rank@, g.rank_bound@, raw);
    crate::lift::lemma_lift_len(x.lift_spec());
    lemma_place(g, class_id(g, raw), by);
}

/// A hash-consed e-node whose class reaches `x`'s root through `el`, placed
/// through a `by` that composes with `el` to `x`'s canonical lift, is in
/// `x`'s class.
pub(crate) proof fn lemma_placed_from_root(g: EGraph, x: Id, i: int, el: Seq<bool>, by: Seq<bool>)
    requires
        g.wf(),
        id_valid(g.parent@, x),
        x.inv(),
        0 <= i < memo_entries(g.memo).len(),
        g.canon(class_id(g, memo_entries(g.memo)[i].1 as int)) == (el, g.canon(x).1),
        by.len() == g.canon(x).0.len(),
        count_true(by) == el.len(),
        compose_seq(by, el) == g.canon(x).0,
    ensures
        placed_at(g, i, x, node_of(memo_entries(g.memo)[i].0), by),
{
    lemma_egraph_specs(g);
    let raw = memo_entries(g.memo)[i].1 as int;
    assert(raw < g.parent@.len());
    lemma_class_id(g, raw);
    lemma_id_lift_inv(x);
    crate::unionfind::lemma_walk(g.parent@, g.rank@, g.rank_bound@, x.raw_spec() as int);
    crate::seqs::lemma_count_le_len(by);
    lemma_place(g, class_id(g, raw), by);
}

/// An entry of the reverse-index bucket of `x`'s root, placed through a
/// `by` that composes with its edge to `x`'s canonical lift, is in `x`'s
/// class.
#[verifier::spinoff_prover]
#[verifier::rlimit(80)]
pub(crate) proof fn lemma_in_class_rev(g: EGraph, x: Id, k: int, by: Seq<bool>)
    requires
        g.wf(),
        g.rev_valid,
        id_valid(g.parent@, x),
        x.inv(),
        0 <= k < g.rev@[g.canon(x).1]@.len(),
        by.len() == g.canon(x).0.len(),
        count_true(by) == g.rev@[g.canon(x).1]@[k].1@.len(),
        compose_seq(by, g.rev@[g.canon(x).1]@[k].1@) == g.canon(x).0,
    ensures
        in_class(g, x, g.rev@[g.canon(x).1]@[k].0, by),
{
    lemma_egraph_specs(g);
    let r = g.canon(x).1;
    let (node, edge) = g.rev@[r]@[k];
    let e = edge@;
    crate::unionfind::lemma_walk(g.parent@, g.rank@, g.rank_bound@, x.raw_spec() as int);
    lemma_id_lift_inv(x);
    assert(0 <= r < g.rev@.len());
    let _ = g.rev@[r]@[k];
    assert(edge.inv() && count_true(e) == ctx_at(g.parent@, r));
    let i = lemma_rev_members_elim(g, r, k);
    let raw = memo_entries(g.memo)[i].1 as int;
    assert(raw < g.parent@.len());
    let cr = class_id(g, r);
    let ci = class_id(g, raw);
    lemma_class_id(g, r);
    lemma_class_id(g, raw);
    crate::lift::lemma_lift_len(edge);
    crate::seqs::lemma_count_le_len(by);
    lemma_place(g, cr, e);
    lemma_place(g, ci, by);
    lemma_place(g, place(cr, e), by);
    lemma_place_equiv(g, ci, place(cr, e), by);
    lemma_place_twice(g, cr, by, e);
    crate::seqs::lemma_compose_count(by, e);
    lemma_place(g, cr, g.canon(x).0);
    crate::lift_laws::law_compose_identity_right(g.canon(x).0);
    assert(placed_at(g, i, x, node, by));
}

} // verus!
