//! The union-find forest over fat IDs, as a model: each raw class points at
//! a parent placement, roots point at themselves through the identity lift,
//! and walking to the root composes the lifts met on the way.
use vstd::prelude::*;
use crate::seqs::{count_true, compose_seq, lemma_compose_count};
use crate::lift::all_true;
use crate::lift_laws::{law_compose_associative, law_compose_identity_left, law_compose_identity_right};
use crate::id::{Id, RAW_MASK};

verus! {

/// The intrinsic context of raw class `r`.
pub(crate) open spec fn ctx_at(parent: Seq<Id>, r: int) -> nat {
    parent[r].ctx_spec()
}

/// `id` names an existing class, and its lift has that class's context as
/// its domain.
pub(crate) open spec fn id_valid(parent: Seq<Id>, id: Id) -> bool {
    &&& (id.raw_spec() as int) < parent.len()
    &&& count_true(id.lift_spec()@) == ctx_at(parent, id.raw_spec() as int)
}

/// Raw class `r` is a root.
pub(crate) open spec fn is_root(parent: Seq<Id>, r: int) -> bool {
    parent[r].raw_spec() == r
}

/// The forest is well formed: edges are valid placements, roots point at
/// themselves through the identity, and ranks grow towards the roots.
pub(crate) open spec fn uf_ok(parent: Seq<Id>, rank: Seq<nat>, rb: nat) -> bool {
    &&& rank.len() == parent.len()
    &&& parent.len() <= RAW_MASK + 1
    &&& forall|i: int| #![trigger rank[i]] #![trigger parent[i]] 0 <= i < parent.len() ==> {
        &&& rank[i] < rb
        &&& id_valid(parent, parent[i])
        &&& parent[i].inv()
        &&& (is_root(parent, i) ==> parent[i].lift_spec()@ == all_true(ctx_at(parent, i)))
        &&& (!is_root(parent, i) ==> rank[parent[i].raw_spec() as int] > rank[i])
    }
}

/// The lift from class `r`'s context to its root's context, and the root.
pub(crate) open spec fn walk(parent: Seq<Id>, rank: Seq<nat>, rb: nat, r: int) -> (Seq<bool>, int)
    decreases rb - rank[r],
    when uf_ok(parent, rank, rb) && 0 <= r < parent.len()
{
    let e = parent[r];
    if e.raw_spec() == r {
        (all_true(ctx_at(parent, r)), r)
    } else {
        let w = walk(parent, rank, rb, e.raw_spec() as int);
        (compose_seq(e.lift_spec()@, w.0), w.1)
    }
}

/// The canonical placement of `id`: its lift composed with the walk to the
/// root, and the root.
pub(crate) open spec fn find_spec(parent: Seq<Id>, rank: Seq<nat>, rb: nat, id: Id) -> (Seq<bool>, int) {
    let w = walk(parent, rank, rb, id.raw_spec() as int);
    (compose_seq(id.lift_spec()@, w.0), w.1)
}

pub(crate) proof fn lemma_walk(parent: Seq<Id>, rank: Seq<nat>, rb: nat, r: int)
    requires
        uf_ok(parent, rank, rb),
        0 <= r < parent.len(),
    ensures
        ({
            let w = walk(parent, rank, rb, r);
            &&& 0 <= w.1 < parent.len()
            &&& is_root(parent, w.1)
            &&& w.0.len() == ctx_at(parent, r)
            &&& count_true(w.0) == ctx_at(parent, w.1)
            &&& is_root(parent, r) ==> w == (all_true(ctx_at(parent, r)), r)
            &&& !is_root(parent, r) ==> w == ({
                let v = walk(parent, rank, rb, parent[r].raw_spec() as int);
                (compose_seq(parent[r].lift_spec()@, v.0), v.1)
            })
        }),
    decreases rb - rank[r],
{
    let e = parent[r];
    assert(rank[r] < rb);
    if e.raw_spec() == r {
        crate::seqs::lemma_count_all_true(ctx_at(parent, r));
    } else {
        let q = e.raw_spec() as int;
        assert(rank[q] < rb);
        lemma_walk(parent, rank, rb, q);
        let v = walk(parent, rank, rb, q);
        lemma_compose_count(e.lift_spec()@, v.0);
    }
}

/// The walk depends on the forest only, not on the ranks that prove it ends.
pub(crate) proof fn lemma_walk_rank_free(parent: Seq<Id>, rank1: Seq<nat>, rb1: nat, rank2: Seq<nat>, rb2: nat, r: int)
    requires
        uf_ok(parent, rank1, rb1),
        uf_ok(parent, rank2, rb2),
        0 <= r < parent.len(),
    ensures
        walk(parent, rank1, rb1, r) == walk(parent, rank2, rb2, r),
    decreases rb1 - rank1[r],
{
    assert(rank1[r] < rb1);
    lemma_walk(parent, rank1, rb1, r);
    lemma_walk(parent, rank2, rb2, r);
    if !is_root(parent, r) {
        let q = parent[r].raw_spec() as int;
        assert(rank1[q] < rb1);
        lemma_walk_rank_free(parent, rank1, rb1, rank2, rb2, q);
    }
}

/// Appending classes leaves the walks of existing classes alone.
pub(crate) proof fn lemma_walk_extend(p1: Seq<Id>, rank1: Seq<nat>, rb1: nat, p2: Seq<Id>, rank2: Seq<nat>, rb2: nat, r: int)
    requires
        uf_ok(p1, rank1, rb1),
        uf_ok(p2, rank2, rb2),
        p1.len() <= p2.len(),
        forall|i: int| 0 <= i < p1.len() ==> p2[i] == p1[i],
        0 <= r < p1.len(),
    ensures
        walk(p1, rank1, rb1, r) == walk(p2, rank2, rb2, r),
    decreases rb1 - rank1[r],
{
    assert(rank1[r] < rb1);
    lemma_walk(p1, rank1, rb1, r);
    lemma_walk(p2, rank2, rb2, r);
    assert(p2[r] == p1[r]);
    if !is_root(p1, r) {
        let q = p1[r].raw_spec() as int;
        assert(rank1[q] < rb1);
        lemma_walk_extend(p1, rank1, rb1, p2, rank2, rb2, q);
        assert(ctx_at(p2, q) == ctx_at(p1, q));
    } else {
        assert(ctx_at(p2, r) == ctx_at(p1, r));
    }
}

/// One step of the walk, seen from a placement: following the parent edge
/// does not change the canonical placement.
pub(crate) proof fn lemma_find_step(parent: Seq<Id>, rank: Seq<nat>, rb: nat, out: Id, next: Id)
    requires
        uf_ok(parent, rank, rb),
        id_valid(parent, out),
        !is_root(parent, out.raw_spec() as int),
        next.raw_spec() == parent[out.raw_spec() as int].raw_spec(),
        next.lift_spec()@ == compose_seq(out.lift_spec()@, parent[out.raw_spec() as int].lift_spec()@),
    ensures
        id_valid(parent, next),
        find_spec(parent, rank, rb, next) == find_spec(parent, rank, rb, out),
{
    let r = out.raw_spec() as int;
    let e = parent[r];
    let q = e.raw_spec() as int;
    lemma_walk(parent, rank, rb, r);
    lemma_walk(parent, rank, rb, q);
    let v = walk(parent, rank, rb, q);
    law_compose_associative(out.lift_spec()@, e.lift_spec()@, v.0);
    lemma_compose_count(out.lift_spec()@, e.lift_spec()@);
}

/// At a root, the canonical placement is the ID itself.
pub(crate) proof fn lemma_find_root(parent: Seq<Id>, rank: Seq<nat>, rb: nat, id: Id)
    requires
        uf_ok(parent, rank, rb),
        id_valid(parent, id),
        is_root(parent, id.raw_spec() as int),
    ensures
        find_spec(parent, rank, rb, id) == (id.lift_spec()@, id.raw_spec() as int),
{
    lemma_walk(parent, rank, rb, id.raw_spec() as int);
    law_compose_identity_right(id.lift_spec()@);
}

/// The canonical placement of a valid ID is a valid root placement in the
/// same ambient context.
pub(crate) proof fn lemma_find_valid(parent: Seq<Id>, rank: Seq<nat>, rb: nat, id: Id)
    requires
        uf_ok(parent, rank, rb),
        id_valid(parent, id),
    ensures
        ({
            let f = find_spec(parent, rank, rb, id);
            &&& 0 <= f.1 < parent.len()
            &&& is_root(parent, f.1)
            &&& f.0.len() == id.lift_spec()@.len()
            &&& count_true(f.0) == ctx_at(parent, f.1)
        }),
{
    lemma_walk(parent, rank, rb, id.raw_spec() as int);
    let w = walk(parent, rank, rb, id.raw_spec() as int);
    lemma_compose_count(id.lift_spec()@, w.0);
}

/// What linking root `c` under placement `pl` does to a canonical placement.
pub(crate) open spec fn relink(f: (Seq<bool>, int), c: int, pl: Id) -> (Seq<bool>, int) {
    if f.1 == c {
        (compose_seq(f.0, pl.lift_spec()@), pl.raw_spec() as int)
    } else {
        f
    }
}

/// The preconditions of linking root `c` under placement `pl`.
pub(crate) open spec fn link_ok(p1: Seq<Id>, p2: Seq<Id>, c: int, pl: Id) -> bool {
    &&& 0 <= c < p1.len()
    &&& is_root(p1, c)
    &&& id_valid(p1, pl)
    &&& is_root(p1, pl.raw_spec() as int)
    &&& pl.raw_spec() != c
    &&& pl.lift_spec()@.len() == ctx_at(p1, c)
    &&& p2 == p1.update(c, pl)
}

/// Linking a root moves every walk that ended there one edge further.
pub(crate) proof fn lemma_walk_link(
    p1: Seq<Id>,
    rank1: Seq<nat>,
    rb1: nat,
    p2: Seq<Id>,
    rank2: Seq<nat>,
    rb2: nat,
    c: int,
    pl: Id,
    r: int,
)
    requires
        uf_ok(p1, rank1, rb1),
        uf_ok(p2, rank2, rb2),
        link_ok(p1, p2, c, pl),
        0 <= r < p1.len(),
    ensures
        walk(p2, rank2, rb2, r) == relink(walk(p1, rank1, rb1, r), c, pl),
    decreases rb1 - rank1[r],
{
    assert(rank1[r] < rb1);
    lemma_walk(p1, rank1, rb1, r);
    lemma_walk(p2, rank2, rb2, r);
    let q0 = pl.raw_spec() as int;
    if r == c {
        lemma_walk(p2, rank2, rb2, q0);
        assert(p2[q0] == p1[q0]);
        law_compose_identity_right(pl.lift_spec()@);
        law_compose_identity_left(pl.lift_spec()@);
    } else if is_root(p1, r) {
        assert(p2[r] == p1[r]);
    } else {
        assert(p2[r] == p1[r]);
        let e = p1[r];
        let q = e.raw_spec() as int;
        assert(rank1[q] < rb1);
        lemma_walk_link(p1, rank1, rb1, p2, rank2, rb2, c, pl, q);
        lemma_walk(p1, rank1, rb1, q);
        let v = walk(p1, rank1, rb1, q);
        if v.1 == c {
            law_compose_associative(e.lift_spec()@, v.0, pl.lift_spec()@);
        }
    }
}

/// Linking a root acts on canonical placements through `relink`.
pub(crate) proof fn lemma_find_link(
    p1: Seq<Id>,
    rank1: Seq<nat>,
    rb1: nat,
    p2: Seq<Id>,
    rank2: Seq<nat>,
    rb2: nat,
    c: int,
    pl: Id,
    x: Id,
)
    requires
        uf_ok(p1, rank1, rb1),
        uf_ok(p2, rank2, rb2),
        link_ok(p1, p2, c, pl),
        id_valid(p1, x),
    ensures
        find_spec(p2, rank2, rb2, x) == relink(find_spec(p1, rank1, rb1, x), c, pl),
        id_valid(p2, x),
{
    let r = x.raw_spec() as int;
    lemma_walk_link(p1, rank1, rb1, p2, rank2, rb2, c, pl, r);
    lemma_walk(p1, rank1, rb1, r);
    let w = walk(p1, rank1, rb1, r);
    if w.1 == c {
        law_compose_associative(x.lift_spec()@, w.0, pl.lift_spec()@);
    }
    if r == c {
        assert(ctx_at(p2, r) == ctx_at(p1, r));
    } else {
        assert(p2[r] == p1[r]);
    }
}

} // verus!
