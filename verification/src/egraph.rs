//! The e-graph: a union-find over fat IDs, a hash-cons table of e-nodes,
//! and a reverse index from classes to their e-nodes.
use vstd::prelude::*;
use crate::seqs::{count_true, rank, compose_seq, and_seq, or_seq, lemma_compose_count, lemma_count_all_true, lemma_count_le_len};
use crate::lift::{Lift, all_true, single_true, equalizer_seq, lemma_lift_len, lemma_count_single, lemma_count_push};
use crate::lift_laws::{law_compose_identity_right, law_compose_identity_left, law_equalizer_agrees};
use crate::id::{Id, RAW_MASK, lemma_id_eq, lemma_id_lift_inv};
use crate::keeping::{class_id, filed, place, stood_for, node_at_ok, rev_members, rev_complete, lemma_class_id, lemma_place, lemma_place_equiv, lemma_placed_entry};
use crate::holds::{var_at, atom_at, lemma_holds_var, lemma_holds_atom, lemma_holds_app, lemma_holds_binder, lemma_keeps_table, lemma_keeps_table_trans, lemma_holds_apps_atom, lemma_holds_apps_step, law_holds_apps_persist};
use crate::memo::{Memo, NodeKey, memo_entries, memo_new, memo_get, memo_insert, memo_len, memo_get_index, has_key, memo_clone};
use crate::unionfind::{
    ctx_at, id_valid, is_root, uf_ok, walk, find_spec, lemma_walk, lemma_walk_extend,
    lemma_find_step, lemma_find_root, lemma_find_valid, relink, link_ok, lemma_find_link,
    lemma_walk_rank_free,
};

verus! {

/// An e-node. Atoms and binders name their symbol by its number in the
/// e-graph's symbol table.
#[derive(Clone, Copy, Debug, PartialEq, Eq, Structural)]
pub(crate) enum Node {
    Var,
    Atom(u32),
    /// One step of binary, curried application.
    App(Id, Id),
    Binder(u32, Id),
}

/// The e-node in context `n` is well formed: its children are valid
/// placements in the right contexts and its symbol exists.
pub(crate) open spec fn node_ok(parent: Seq<Id>, nsyms: nat, node: Node, n: nat) -> bool {
    match node {
        Node::Var => n == 1,
        Node::Atom(s) => n == 0 && s < nsyms,
        Node::App(f, a) => {
            &&& f.inv()
            &&& a.inv()
            &&& id_valid(parent, f)
            &&& id_valid(parent, a)
            &&& f.ctx_spec() == n
            &&& a.ctx_spec() == n
        },
        Node::Binder(s, b) => {
            &&& s < nsyms
            &&& b.inv()
            &&& id_valid(parent, b)
            &&& b.ctx_spec() == n + 1
        },
    }
}

/// The key under which an e-node is hash-consed.
pub(crate) open spec fn key_of(node: Node) -> NodeKey {
    match node {
        Node::Var => (0u8, 0u32, 0u32),
        Node::Atom(s) => (1u8, s, 0u32),
        Node::App(f, a) => (2u8, f.0, a.0),
        Node::Binder(s, b) => (3u8, s, b.0),
    }
}

/// The e-node a key stands for.
pub(crate) open spec fn node_of(k: NodeKey) -> Node {
    if k.0 == 0 {
        Node::Var
    } else if k.0 == 1 {
        Node::Atom(k.1)
    } else if k.0 == 2 {
        Node::App(Id(k.1), Id(k.2))
    } else {
        Node::Binder(k.1, Id(k.2))
    }
}

pub(crate) fn node_key(node: &Node) -> (k: NodeKey)
    ensures
        k == key_of(*node),
        node_of(k) == *node,
{
    match node {
        Node::Var => (0u8, 0u32, 0u32),
        Node::Atom(s) => (1u8, *s, 0u32),
        Node::App(f, a) => (2u8, f.0, a.0),
        Node::Binder(s, b) => (3u8, *s, b.0),
    }
}

pub(crate) fn key_node(k: &NodeKey) -> (node: Node)
    requires
        key_of(node_of(*k)) == *k,
        node_of(*k) matches Node::App(f, a) ==> f.inv() && a.inv(),
        node_of(*k) matches Node::Binder(_, b) ==> b.inv(),
    ensures
        node == node_of(*k),
{
    if k.0 == 0 {
        Node::Var
    } else if k.0 == 1 {
        Node::Atom(k.1)
    } else if k.0 == 2 {
        Node::App(Id(k.1), Id(k.2))
    } else {
        Node::Binder(k.1, Id(k.2))
    }
}

/// An e-graph whose classes live in variable contexts of at most seven
/// variables.
pub struct EGraph {
    pub(crate) parent: Vec<Id>,
    pub(crate) memo: Memo,
    pub(crate) rev: Vec<Vec<(Node, Lift)>>,
    pub(crate) symbols: Vec<String>,
    /// Keep `rev` current between rebuilds.
    pub(crate) rev_tracked: bool,
    /// `rev` and the hash-cons table reflect a fully rebuilt graph.
    pub(crate) rev_valid: bool,
    /// Nanoseconds spent rebuilding, over the e-graph's lifetime.
    pub(crate) rebuild_nanos: u128,
    pub(crate) rank: Ghost<Seq<nat>>,
    pub(crate) rank_bound: Ghost<nat>,
}

/// The e-graph's invariant, spelled out: the union-find is well ranked,
/// every reverse-index entry and every hash-consed e-node is well formed,
/// and no e-node is hash-consed twice.
pub(crate) open spec fn wf_body(g: EGraph) -> bool {
    let parent = g.parent@;
    let entries = memo_entries(g.memo);
    let nsyms = g.symbols@.len();
    &&& uf_ok(parent, g.rank@, g.rank_bound@)
    &&& g.rank_bound@ >= 1
    &&& g.rev@.len() == parent.len()
    &&& nsyms <= u32::MAX
    &&& forall|r: int, k: int|
        0 <= r < parent.len() && 0 <= k < g.rev@[r]@.len() ==> {
            let (node, edge) = #[trigger] g.rev@[r]@[k];
            &&& edge.inv()
            &&& node_ok(parent, nsyms, node, edge@.len())
            &&& count_true(edge@) == ctx_at(parent, r)
        }
    &&& forall|i: int|
        0 <= i < entries.len() ==> {
            let (k, raw) = #[trigger] entries[i];
            &&& (raw as int) < parent.len()
            &&& key_of(node_of(k)) == k
            &&& node_ok(parent, nsyms, node_of(k), ctx_at(parent, raw as int))
        }
    &&& forall|i: int, j: int|
        0 <= i < entries.len() && 0 <= j < entries.len() && #[trigger] entries[i].0
            == #[trigger] entries[j].0 ==> i == j
    &&& g.rev_valid ==> memo_canonical(g)
    &&& g.rev_valid ==> rev_members(g)
    &&& g.rev_valid ==> rev_complete(g)
}

/// Every hash-consed e-node is its own canonical form: its children are
/// canonical placements of root classes.
pub(crate) open spec fn memo_canonical(g: EGraph) -> bool {
    forall|i: int| 0 <= i < memo_entries(g.memo).len() ==> {
        let (k, raw) = #[trigger] memo_entries(g.memo)[i];
        canonical_form(g, node_of(k), all_true(ctx_at(g.parent@, raw as int)), node_of(k))
    }
}

impl EGraph {
    /// The e-graph's invariant.
    #[verifier::opaque]
    pub closed spec fn wf(self) -> bool {
        wf_body(self)
    }

    /// Every hash-consed e-node is in canonical form, and the reverse index
    /// reflects the hash-cons table: the state a completed rebuild leaves.
    pub closed spec fn rebuilt(self) -> bool {
        self.rev_valid
    }

    /// `other` is this e-graph with, at most, its rebuild time changed.
    pub closed spec fn same_but_timing(self, other: EGraph) -> bool {
        other == EGraph { rebuild_nanos: other.rebuild_nanos, ..self }
    }

    /// Number of raw classes.
    pub closed spec fn len(self) -> nat {
        self.parent@.len()
    }

    /// The intrinsic context of raw class `r`.
    pub closed spec fn class_ctx(self, r: int) -> nat {
        ctx_at(self.parent@, r)
    }

    /// `id` names an existing class through a lift whose domain is that
    /// class's context.
    pub closed spec fn valid(self, id: Id) -> bool {
        id_valid(self.parent@, id)
    }

    /// The canonical placement of `id`: flags and root class.
    pub closed spec fn canon(self, id: Id) -> (Seq<bool>, int) {
        find_spec(self.parent@, self.rank@, self.rank_bound@, id)
    }

    /// Two placements are equal in the e-graph.
    pub open spec fn equiv(self, a: Id, b: Id) -> bool {
        self.canon(a) == self.canon(b)
    }

    /// Everything valid before stays valid, every equality stays, and class
    /// contexts never change.
    pub open spec fn extends(self, next: EGraph) -> bool {
        &&& next.len() >= self.len()
        &&& forall|r: int| 0 <= r < self.len() ==> next.class_ctx(r) == self.class_ctx(r)
        &&& forall|x: Id| self.valid(x) ==> #[trigger] next.valid(x)
        &&& forall|x: Id, y: Id|
            self.valid(x) && self.valid(y) && self.equiv(x, y) ==> #[trigger] next.equiv(x, y)
    }

    /// The hash-cons table, the symbol table and the index mode agree.
    pub closed spec fn same_tables(self, other: EGraph) -> bool {
        &&& self.memo == other.memo
        &&& self.symbols == other.symbols
        &&& self.rev_tracked == other.rev_tracked
    }

    /// The lift from raw class `r`'s own context to its root's, and the root.
    pub closed spec fn class_root(self, r: int) -> (Seq<bool>, int) {
        walk(self.parent@, self.rank@, self.rank_bound@, r)
    }

    /// Raw class `r` is the root of its class.
    pub closed spec fn is_root_class(self, r: int) -> bool {
        is_root(self.parent@, r)
    }

    /// Number of hash-consed e-nodes.
    pub closed spec fn node_len(self) -> nat {
        memo_entries(self.memo).len()
    }

    /// Hash-consed e-nodes `i` and `j` apply the same operator to pairwise
    /// equivalent children: two variables, one atom twice, one binder over
    /// equivalent bodies, or applications of equivalent functions to
    /// equivalent arguments.
    pub closed spec fn congruent_enodes(self, i: int, j: int) -> bool {
        let n1 = node_of(memo_entries(self.memo)[i].0);
        let n2 = node_of(memo_entries(self.memo)[j].0);
        match (n1, n2) {
            (Node::Var, Node::Var) => true,
            (Node::Atom(s), Node::Atom(t)) => s == t,
            (Node::App(f1, a1), Node::App(f2, a2)) => self.equiv(f1, f2) && self.equiv(a1, a2),
            (Node::Binder(s, b1), Node::Binder(t, b2)) => s == t && self.equiv(b1, b2),
            _ => false,
        }
    }

    /// The symbol table.
    pub closed spec fn symbols_view(self) -> Seq<Seq<char>> {
        self.symbols@.map_values(|s: String| s@)
    }
}

impl Clone for EGraph {
    fn clone(&self) -> (r: Self) {
        self.duplicate()
    }
}

impl EGraph {
    /// Whether the e-graph is rebuilt: every hash-consed e-node is in
    /// canonical form, so congruent e-nodes coincide.
    pub fn is_rebuilt(&self) -> (r: bool)
        ensures
            r == self.rebuilt(),
    {
        self.rev_valid
    }

    /// A copy of the e-graph: the same classes, e-nodes and symbols.
    pub fn duplicate(&self) -> (r: EGraph)
        ensures
            self.wf() ==> r.wf(),
            r.len() == self.len(),
            forall|x: Id| #[trigger] r.valid(x) == self.valid(x),
    {
        let mut parent: Vec<Id> = Vec::new();
        let mut i: usize = 0;
        while i < self.parent.len()
            invariant
                i <= self.parent@.len(),
                parent@ == self.parent@.take(i as int),
            decreases self.parent@.len() - i,
        {
            parent.push(self.parent[i]);
            proof {
                assert(parent@ =~= self.parent@.take(i + 1));
            }
            i = i + 1;
        }
        proof {
            assert(parent@ =~= self.parent@);
        }
        let mut rev: Vec<Vec<(Node, Lift)>> = Vec::new();
        let mut r: usize = 0;
        while r < self.rev.len()
            invariant
                r <= self.rev@.len(),
                rev@.len() == r,
                forall|k: int| 0 <= k < r ==> (#[trigger] rev@[k])@ == self.rev@[k]@,
            decreases self.rev@.len() - r,
        {
            let mut row: Vec<(Node, Lift)> = Vec::new();
            let mut k: usize = 0;
            while k < self.rev[r].len()
                invariant
                    r < self.rev@.len(),
                    k <= self.rev@[r as int]@.len(),
                    row@ == self.rev@[r as int]@.take(k as int),
                decreases self.rev@[r as int]@.len() - k,
            {
                row.push(self.rev[r][k]);
                proof {
                    assert(row@ =~= self.rev@[r as int]@.take(k + 1));
                }
                k = k + 1;
            }
            proof {
                assert(row@ =~= self.rev@[r as int]@);
            }
            rev.push(row);
            r = r + 1;
        }
        let mut symbols: Vec<String> = Vec::new();
        let mut j: usize = 0;
        while j < self.symbols.len()
            invariant
                j <= self.symbols@.len(),
                symbols@.len() == j,
                forall|k: int| 0 <= k < j ==> (#[trigger] symbols@[k])@ == self.symbols@[k]@,
            decreases self.symbols@.len() - j,
        {
            symbols.push(self.symbols[j].clone());
            j = j + 1;
        }
        let g = EGraph {
            parent,
            memo: memo_clone(&self.memo),
            rev,
            symbols,
            rev_tracked: self.rev_tracked,
            rev_valid: self.rev_valid,
            rebuild_nanos: self.rebuild_nanos,
            rank: Ghost(self.rank@),
            rank_bound: Ghost(self.rank_bound@),
        };
        proof {
            reveal(EGraph::wf);
            if self.wf() {
                crate::keeping::lemma_rev_members_same(*self, g);
                assert(wf_body(g));
            }
        }
        g
    }
}

impl EGraph {
    /// An empty e-graph.
    pub fn new() -> (r: EGraph)
        ensures
            r.wf(),
            r.len() == 0,
            r.node_len() == 0,
            r.symbols_len() == 0,
            r.class_count_spec() == 0,
    {
        proof {
            reveal(EGraph::wf);
        }
        let r = EGraph {
            parent: Vec::new(),
            memo: memo_new(),
            rev: Vec::new(),
            symbols: Vec::new(),
            rev_tracked: false,
            rev_valid: false,
            rebuild_nanos: 0,
            rank: Ghost(Seq::empty()),
            rank_bound: Ghost(1),
        };
        proof {
            crate::dump::lemma_class_count_empty(r);
        }
        r
    }

    /// Mark the reverse index and hash-cons table as out of date.
    pub(crate) fn mark_stale(&mut self)
        requires
            old(self).wf(),
        ensures
            final(self).wf(),
            *final(self) == (EGraph { rev_valid: false, ..*old(self) }),
    {
        self.rev_valid = false;
        proof {
            reveal(EGraph::wf);
        }
    }

    pub fn raw_id_count(&self) -> (r: usize)
        ensures
            r == self.len(),
    {
        self.parent.len()
    }

    pub fn node_count(&self) -> (r: usize)
        ensures
            r == self.node_len(),
    {
        memo_len(&self.memo)
    }

    /// Add a fresh class with its own `scope`-variable context.
    pub(crate) fn make_set(&mut self, scope: usize) -> (id: Id)
        requires
            old(self).wf(),
            old(self).len() <= RAW_MASK,
            scope <= 7,
        ensures
            final(self).wf(),
            final(self).len() == old(self).len() + 1,
            final(self).parent@ == old(self).parent@.push(id),
            final(self).memo == old(self).memo,
            final(self).symbols == old(self).symbols,
            final(self).rev_tracked == old(self).rev_tracked,
            !final(self).rev_valid,
            id.raw_spec() == old(self).len(),
            id.lift_spec()@ == all_true(scope as nat),
            final(self).valid(id),
            final(self).class_ctx(id.raw_spec() as int) == scope,
            old(self).extends(*final(self)),
            forall|x: Id| old(self).valid(x) ==> #[trigger] final(self).canon(x) == old(self).canon(x),
            final(self).canon(id) == (all_true(scope as nat), old(self).len() as int),
    {
        proof {
            reveal(EGraph::wf);
        }
        let ghost old_self = *self;
        self.rev_valid = false;
        let raw = self.parent.len() as u32;
        let id = Id::new(Lift::identity(scope), raw);
        proof {
            use_type_invariant(&id);
            lemma_id_lift_inv(id);
            lemma_count_all_true(scope as nat);
        }
        self.parent.push(id);
        self.rev.push(Vec::new());
        proof {
            self.rank@ = self.rank@.push(0);
            let p1 = old_self.parent@;
            let p2 = self.parent@;
            assert(is_root(p2, raw as int));
            assert forall|i: int| 0 <= i < p1.len() implies id_valid(p2, #[trigger] p1[i]) by {
                assert(old_self.rank@[i] < old_self.rank_bound@);
                let q = p1[i].raw_spec() as int;
                assert(p2[q] == p1[q]);
            }
            assert(uf_ok(p2, self.rank@, self.rank_bound@)) by {
                assert forall|i: int| 0 <= i < p2.len() implies {
                    &&& self.rank@[i] < self.rank_bound@
                    &&& id_valid(p2, p2[i])
                    &&& p2[i].inv()
                    &&& (is_root(p2, i) ==> p2[i].lift_spec()@ == all_true(ctx_at(p2, i)))
                    &&& (!is_root(p2, i) ==> self.rank@[p2[i].raw_spec() as int] > self.rank@[i])
                } by {
                    if i < p1.len() {
                        assert(old_self.rank@[i] < old_self.rank_bound@);
                        assert(p2[i] == p1[i]);
                        assert(id_valid(p2, p1[i]));
                        let q = p1[i].raw_spec() as int;
                        assert(self.rank@[q] == old_self.rank@[q]);
                    }
                }
            }
            assert forall|x: Id| old_self.valid(x) implies #[trigger] self.valid(x) && self.canon(x) == old_self.canon(x) by {
                lemma_walk_extend(p1, old_self.rank@, old_self.rank_bound@, p2, self.rank@, self.rank_bound@, x.raw_spec() as int);
            }
            assert forall|r: int| 0 <= r < old_self.len() implies self.class_ctx(r) == old_self.class_ctx(r) by {
                assert(p2[r] == p1[r]);
            }
            assert forall|x: Id, y: Id|
                old_self.valid(x) && old_self.valid(y) && old_self.equiv(x, y) implies #[trigger] self.equiv(x, y) by {
                assert(self.valid(x));
                assert(self.valid(y));
                assert(self.canon(x) == old_self.canon(x));
                assert(self.canon(y) == old_self.canon(y));
            }
            assert(old_self.extends(*self));
            assert forall|x: Id| old_self.valid(x) implies #[trigger] self.canon(x) == old_self.canon(x) by {
                assert(self.valid(x));
            }
            lemma_find_root(p2, self.rank@, self.rank_bound@, id);
            assert(self.wf()) by {
                assert forall|r: int, k: int|
                    0 <= r < p2.len() && 0 <= k < self.rev@[r]@.len() implies {
                        let (node, edge) = #[trigger] self.rev@[r]@[k];
                        &&& edge.inv()
                        &&& node_ok(p2, self.symbols@.len(), node, edge@.len())
                        &&& count_true(edge@) == ctx_at(p2, r)
                    } by {
                        assert(r < p1.len());
                        assert(self.rev@[r] == old_self.rev@[r]);
                        assert forall|i: int| 0 <= i < p1.len() implies ctx_at(p2, i) == ctx_at(p1, i) by {
                            assert(p2[i] == p1[i]);
                        }
                        lemma_node_ok_extend(p1, p2, self.symbols@.len(), self.rev@[r]@[k].0, self.rev@[r]@[k].1@.len());
                    }
                let entries = memo_entries(self.memo);
                assert forall|i: int| 0 <= i < entries.len() implies {
                    let (k, raw) = #[trigger] entries[i];
                    &&& (raw as int) < p2.len()
                    &&& key_of(node_of(k)) == k
                    &&& node_ok(p2, self.symbols@.len(), node_of(k), ctx_at(p2, raw as int))
                } by {
                    let (k, raw) = entries[i];
                    assert(p2[raw as int] == p1[raw as int]);
                    assert forall|i: int| 0 <= i < p1.len() implies ctx_at(p2, i) == ctx_at(p1, i) by {
                        assert(p2[i] == p1[i]);
                    }
                    lemma_node_ok_extend(p1, p2, self.symbols@.len(), node_of(k), ctx_at(p1, raw as int));
                }
            }
        }
        id
    }

    /// The identity placement of a raw class in its own context.
    pub(crate) fn origin(&self, raw: u32) -> (id: Id)
        requires
            self.wf(),
            raw < self.len(),
        ensures
            id.raw_spec() == raw,
            id.lift_spec()@ == all_true(self.class_ctx(raw as int)),
            self.valid(id),
    {
        proof {
            reveal(EGraph::wf);
        }
        proof {
            assert(self.rank@[raw as int] < self.rank_bound@);
            lemma_id_lift_inv(self.parent@[raw as int]);
        }
        let ctx = self.parent[raw as usize].ctx();
        proof {
            lemma_count_all_true(ctx as nat);
        }
        Id::new(Lift::identity(ctx), raw)
    }

    /// The canonical placement of `id`: the root of its class, reached by
    /// composing the lifts along the way.
    pub fn find(&self, id: &Id) -> (r: Id)
        requires
            self.wf(),
            self.valid(*id),
        ensures
            r.lift_spec()@ == self.canon(*id).0,
            r.raw_spec() == self.canon(*id).1,
            self.valid(r),
            self.is_root_class(r.raw_spec() as int),
            r.ctx_spec() == id.ctx_spec(),
    {
        proof {
            reveal(EGraph::wf);
        }
        let ghost parent = self.parent@;
        let ghost rank = self.rank@;
        let ghost rb = self.rank_bound@;
        let mut out = *id;
        loop
            invariant
                self.wf(),
                parent == self.parent@,
                rank == self.rank@,
                rb == self.rank_bound@,
                uf_ok(parent, rank, rb),
                id_valid(parent, out),
                find_spec(parent, rank, rb, out) == find_spec(parent, rank, rb, *id),
                out.ctx_spec() == id.ctx_spec(),
            decreases rb - rank[out.raw_spec() as int],
        {
            let edge = self.parent[out.raw() as usize];
            proof {
                assert(rank[out.raw_spec() as int] < rb);
            }
            if edge.raw() == out.raw() {
                proof {
                    lemma_find_root(parent, rank, rb, out);
                }
                return out;
            }
            proof {
                assert(rank[edge.raw_spec() as int] < rb);
            }
            let l = out.lift().compose(&edge.lift());
            let next = Id::new(l, edge.raw());
            proof {
                lemma_find_step(parent, rank, rb, out, next);
            }
            out = next;
        }
    }

    /// As `find`, for callers that hold the e-graph mutably. Compressing
    /// paths would change no canonical placement, so none is done.
    pub(crate) fn find_mut(&mut self, id: &Id) -> (r: Id)
        requires
            old(self).wf(),
            old(self).valid(*id),
        ensures
            *final(self) == *old(self),
            r.lift_spec()@ == old(self).canon(*id).0,
            r.raw_spec() == old(self).canon(*id).1,
            old(self).valid(r),
            old(self).is_root_class(r.raw_spec() as int),
            r.ctx_spec() == id.ctx_spec(),
    {
        self.find(id)
    }

    /// Whether two placements are equal in the e-graph.
    pub fn equivalent(&self, a: &Id, b: &Id) -> (r: bool)
        requires
            self.wf(),
            self.valid(*a),
            self.valid(*b),
        ensures
            r == self.equiv(*a, *b),
    {
        let fa = self.find(a);
        let fb = self.find(b);
        proof {
            use_type_invariant(&fa);
            use_type_invariant(&fb);
            lemma_id_eq(fa, fb);
        }
        fa == fb
    }
}

/// A change that keeps the classes and their contexts keeps the hash-cons
/// table and the reverse index well formed.
pub(crate) proof fn lemma_wf_same_contexts(a: EGraph, b: EGraph)
    requires
        a.wf(),
        uf_ok(b.parent@, b.rank@, b.rank_bound@),
        b.rank_bound@ >= 1,
        b.parent@.len() == a.parent@.len(),
        forall|i: int| 0 <= i < a.parent@.len() ==> ctx_at(b.parent@, i) == ctx_at(a.parent@, i),
        b.rev@ == a.rev@,
        b.memo == a.memo,
        b.symbols@ == a.symbols@,
        !b.rev_valid,
    ensures
        b.wf(),
{
    reveal(EGraph::wf);
    let p1 = a.parent@;
    let p2 = b.parent@;
    let nsyms = b.symbols@.len();
    assert forall|r: int, k: int|
        0 <= r < p2.len() && 0 <= k < b.rev@[r]@.len() implies {
            let (node, edge) = #[trigger] b.rev@[r]@[k];
            &&& edge.inv()
            &&& node_ok(p2, nsyms, node, edge@.len())
            &&& count_true(edge@) == ctx_at(p2, r)
        } by {
        lemma_node_ok_extend(p1, p2, nsyms, b.rev@[r]@[k].0, b.rev@[r]@[k].1@.len());
    }
    let entries = memo_entries(b.memo);
    assert forall|i: int| 0 <= i < entries.len() implies {
        let (k, raw) = #[trigger] entries[i];
        &&& (raw as int) < p2.len()
        &&& key_of(node_of(k)) == k
        &&& node_ok(p2, nsyms, node_of(k), ctx_at(p2, raw as int))
    } by {
        let (k, raw) = entries[i];
        lemma_node_ok_extend(p1, p2, nsyms, node_of(k), ctx_at(p1, raw as int));
    }
}

impl EGraph {
    /// Move the reverse-index entries of `child` to the class of `pl`,
    /// composed with `pl`'s lift.
    fn move_rev(&mut self, child: u32, pl: Id)
        requires
            old(self).wf(),
            child < old(self).len(),
            old(self).valid(pl),
            pl.raw_spec() != child,
            pl.lift_spec()@.len() == old(self).class_ctx(child as int),
            !old(self).rev_valid,
        ensures
            final(self).wf(),
            final(self).parent == old(self).parent,
            final(self).rank == old(self).rank,
            final(self).rank_bound == old(self).rank_bound,
            final(self).memo == old(self).memo,
            final(self).symbols == old(self).symbols,
            final(self).rev_tracked == old(self).rev_tracked,
            final(self).rev_valid == old(self).rev_valid,
            final(self).rev@.len() == old(self).rev@.len(),
            final(self).rev@[child as int]@.len() == 0,
            forall|r: int| 0 <= r < old(self).rev@.len() && r != child && r != pl.raw_spec()
                ==> #[trigger] final(self).rev@[r] == old(self).rev@[r],
            final(self).rev@[pl.raw_spec() as int]@.len()
                == old(self).rev@[pl.raw_spec() as int]@.len() + old(self).rev@[child as int]@.len(),
            forall|k: int| 0 <= k < old(self).rev@[pl.raw_spec() as int]@.len()
                ==> #[trigger] final(self).rev@[pl.raw_spec() as int]@[k] == old(self).rev@[pl.raw_spec() as int]@[k],
            forall|j: int| 0 <= j < old(self).rev@[child as int]@.len() ==> {
                let (n1, e1) = #[trigger] final(self).rev@[pl.raw_spec() as int]@[old(self).rev@[pl.raw_spec() as int]@.len() + j];
                &&& n1 == old(self).rev@[child as int]@[j].0
                &&& e1@ == compose_seq(old(self).rev@[child as int]@[j].1@, pl.lift_spec()@)
            },
    {
        proof {
            reveal(EGraph::wf);
        }
        let ghost old_self = *self;
        let ghost c = child as int;
        let ghost q = pl.raw_spec() as int;
        let mut moved: Vec<(Node, Lift)> = Vec::new();
        self.rev.set_and_swap(child as usize, &mut moved);
        let mut dst: Vec<(Node, Lift)> = Vec::new();
        self.rev.set_and_swap(pl.raw() as usize, &mut dst);
        let ghost dst0 = dst@;
        let ghost cleared = self.rev@;
        proof {
            assert(moved@ == old_self.rev@[c]@);
            assert(dst0 == old_self.rev@[q]@);
        }
        let pl_lift = pl.lift();
        let mut i: usize = 0;
        while i < moved.len()
            invariant
                0 <= i <= moved@.len(),
                dst@.len() == dst0.len() + i,
                forall|k: int| 0 <= k < dst0.len() ==> dst@[k] == dst0[k],
                forall|k: int| 0 <= k < i ==> {
                    let (n1, e1) = #[trigger] dst@[dst0.len() + k];
                    let (n0, e0) = moved@[k];
                    &&& n1 == n0
                    &&& e1.inv()
                    &&& e1@ == compose_seq(e0@, pl_lift@)
                },
                forall|k: int| 0 <= k < moved@.len() ==> {
                    let (n0, e0) = #[trigger] moved@[k];
                    &&& e0.inv()
                    &&& count_true(e0@) == old_self.class_ctx(c)
                },
                pl_lift@.len() == old_self.class_ctx(c),
            decreases moved@.len() - i,
        {
            let (node, edge) = moved[i];
            let composed = edge.compose(&pl_lift);
            proof {
                use_type_invariant(&composed);
            }
            dst.push((node, composed));
            i = i + 1;
        }
        let ghost final_dst = dst@;
        proof {
            assert forall|j: int| 0 <= j < moved@.len() implies {
                let (n1, e1) = final_dst[dst0.len() + j];
                let (n0, e0) = #[trigger] moved@[j];
                &&& n1 == n0
                &&& e1.inv()
                &&& e1@ == compose_seq(e0@, pl_lift@)
            } by {
                let _ = dst@[dst0.len() + j];
            }
        }
        self.rev.set(pl.raw() as usize, dst);
        proof {
            let p = self.parent@;
            assert(self.rev@ == cleared.update(q, dst));
            assert(cleared[c]@.len() == 0);
            let nsyms = self.symbols@.len();
            assert forall|r: int, k: int|
                0 <= r < p.len() && 0 <= k < self.rev@[r]@.len() implies {
                    let (node, edge) = #[trigger] self.rev@[r]@[k];
                    &&& edge.inv()
                    &&& node_ok(p, nsyms, node, edge@.len())
                    &&& count_true(edge@) == ctx_at(p, r)
                } by {
                if r == q {
                    if k >= dst0.len() {
                        let j = k - dst0.len();
                        let (n0, e0) = moved@[j];
                        assert(old_self.rev@[c]@[j] == moved@[j]);
                        let _ = old_self.rev@[c]@[j];
                        assert(node_ok(p, nsyms, n0, e0@.len()));
                        assert(count_true(e0@) == ctx_at(p, c));
                        lemma_compose_count(e0@, pl_lift@);
                        let (n1, e1) = self.rev@[r]@[k];
                        let _ = moved@[j];
                        assert(k == dst0.len() + j);
                        assert(n1 == n0);
                        assert(e1@ == compose_seq(e0@, pl_lift@));
                        assert(e1.inv());
                        assert(e1@.len() == e0@.len());
                        assert(count_true(e1@) == count_true(pl_lift@));
                        assert(count_true(pl_lift@) == ctx_at(p, q));
                    } else {
                        assert(self.rev@[r]@[k] == old_self.rev@[r]@[k]);
                        let _ = old_self.rev@[r]@[k];
                    }
                } else if r == c {
                    assert(self.rev@[r]@.len() == 0);
                } else {
                    assert(self.rev@[r] == old_self.rev@[r]);
                    let _ = old_self.rev@[r]@[k];
                }
            }
            assert(self.rev@[q]@ == final_dst);
            assert forall|j: int| 0 <= j < old_self.rev@[c]@.len() implies {
                let (n1, e1) = #[trigger] self.rev@[q]@[old_self.rev@[q]@.len() + j];
                &&& n1 == old_self.rev@[c]@[j].0
                &&& e1@ == compose_seq(old_self.rev@[c]@[j].1@, pl.lift_spec()@)
            } by {
                let _ = moved@[j];
            }
            assert forall|k: int| 0 <= k < old_self.rev@[q]@.len() implies #[trigger] self.rev@[q]@[k] == old_self.rev@[q]@[k] by {
                assert(final_dst[k] == dst0[k]);
            }
        }
    }

    /// Link root `child` under the root placement `pl`, moving its reverse
    /// index entries along when the index is kept current.
    pub(crate) fn link_root(&mut self, child: u32, pl: Id)
        requires
            old(self).wf(),
            child < old(self).len(),
            old(self).is_root_class(child as int),
            old(self).valid(pl),
            old(self).is_root_class(pl.raw_spec() as int),
            pl.raw_spec() != child,
            pl.ctx_spec() == old(self).class_ctx(child as int),
            !old(self).rev_valid,
        ensures
            final(self).wf(),
            final(self).parent@ == old(self).parent@.update(child as int, pl),
            final(self).memo == old(self).memo,
            final(self).symbols == old(self).symbols,
            final(self).rev_tracked == old(self).rev_tracked,
            final(self).rev_valid == old(self).rev_valid,
            old(self).extends(*final(self)),
            final(self).len() == old(self).len(),
            forall|x: Id| old(self).valid(x) ==> #[trigger] final(self).canon(x) == relink(old(self).canon(x), child as int, pl),
    {
        proof {
            reveal(EGraph::wf);
        }
        let ghost old_self = *self;
        let ghost p1 = self.parent@;
        let ghost r1 = self.rank@;
        let ghost c = child as int;
        let ghost q = pl.raw_spec() as int;
        proof {
            use_type_invariant(&pl);
            assert(self.rank@[c] < self.rank_bound@);
            assert(self.rank@[q] < self.rank_bound@);
        }
        self.parent.set(child as usize, pl);
        proof {
            let newq = if r1[q] > r1[c] + 1 { r1[q] } else { r1[c] + 1 };
            self.rank@ = r1.update(q, newq);
            self.rank_bound@ = if old_self.rank_bound@ > r1[c] + 2 { old_self.rank_bound@ } else { r1[c] + 2 };
            let p2 = self.parent@;
            assert(ctx_at(p2, c) == ctx_at(p1, c));
            assert forall|i: int| 0 <= i < p1.len() implies ctx_at(p2, i) == ctx_at(p1, i) by {
                if i != c {
                    assert(p2[i] == p1[i]);
                }
            }
            assert forall|x: Id| id_valid(p1, x) implies #[trigger] id_valid(p2, x) by {
                assert(ctx_at(p2, x.raw_spec() as int) == ctx_at(p1, x.raw_spec() as int));
            }
            assert(uf_ok(p2, self.rank@, self.rank_bound@)) by {
                assert forall|i: int| 0 <= i < p2.len() implies {
                    &&& self.rank@[i] < self.rank_bound@
                    &&& id_valid(p2, p2[i])
                    &&& p2[i].inv()
                    &&& (is_root(p2, i) ==> p2[i].lift_spec()@ == all_true(ctx_at(p2, i)))
                    &&& (!is_root(p2, i) ==> self.rank@[p2[i].raw_spec() as int] > self.rank@[i])
                } by {
                    assert(r1[i] < old_self.rank_bound@);
                    assert(id_valid(p1, p1[i]));
                    assert(id_valid(p2, p1[i]));
                    if i != c {
                        assert(p2[i] == p1[i]);
                    }
                }
            }
            lemma_wf_same_contexts(old_self, *self);
            assert(link_ok(p1, p2, c, pl));
        }
        let ghost mid = *self;
        if self.rev_tracked {
            self.move_rev(child, pl);
        }
        proof {
            let p2 = self.parent@;
            assert forall|x: Id| old_self.valid(x) implies #[trigger] self.canon(x) == relink(old_self.canon(x), c, pl) && self.valid(x) by {
                lemma_find_link(p1, r1, old_self.rank_bound@, p2, self.rank@, self.rank_bound@, c, pl, x);
            }
            assert forall|x: Id, y: Id| old_self.valid(x) && old_self.valid(y) && old_self.equiv(x, y) implies #[trigger] self.equiv(x, y) by {
                assert(self.canon(x) == relink(old_self.canon(x), c, pl));
                assert(self.canon(y) == relink(old_self.canon(y), c, pl));
            }
            assert forall|x: Id| old_self.valid(x) implies #[trigger] self.valid(x) by {
                assert(self.canon(x) == relink(old_self.canon(x), c, pl));
            }
            assert forall|r: int| 0 <= r < old_self.len() implies self.class_ctx(r) == old_self.class_ctx(r) by {
                if r != c {
                    assert(p2[r] == p1[r]);
                }
            }
        }
    }
}

impl EGraph {
    /// Equating `a` and `b` needs a fresh class: they are placements of one
    /// class that differ, or of two classes whose common variables are
    /// neither placement's own.
    pub open spec fn union_makes_class(self, a: Id, b: Id) -> bool {
        let ca = self.canon(a);
        let cb = self.canon(b);
        &&& ca != cb
        &&& (ca.1 == cb.1 || (and_seq(ca.0, cb.0) != ca.0 && and_seq(ca.0, cb.0) != cb.0))
    }

    /// Make two placements in one context equal. Returns whether they were
    /// not equal before. Equating two placements of one class restricts
    /// that class to the variables on which the placements agree.
    pub fn union(&mut self, a: &Id, b: &Id) -> (changed: bool)
        requires
            old(self).wf(),
            old(self).valid(*a),
            old(self).valid(*b),
            a.ctx_spec() == b.ctx_spec(),
            old(self).len() < RAW_MASK || !old(self).union_makes_class(*a, *b),
        ensures
            final(self).wf(),
            changed == !old(self).equiv(*a, *b),
            final(self).equiv(*a, *b),
            old(self).extends(*final(self)),
            final(self).len() <= old(self).len() + 1,
            final(self).same_tables(*old(self)),
            !changed ==> *final(self) == *old(self),
            final(self).rebuilt() ==> old(self).rebuilt(),
            old(self).keeps_table(*final(self)),
            changed && old(self).canon(*a).1 == old(self).canon(*b).1 ==> forall|x: Id| old(self).valid(x) ==>
                #[trigger] final(self).canon(x) == placed_after_equating(old(self).canon(x), old(self).canon(*a), old(self).canon(*b),
                    old(self).len() as int),
    {
        let ghost s0 = *self;
        let ghost a0 = *a;
        let ghost b0 = *b;
        let a = self.find_mut(a);
        let b = self.find_mut(b);
        proof {
            use_type_invariant(&a);
            use_type_invariant(&b);
            lemma_id_eq(a, b);
            lemma_id_lift_inv(a);
            lemma_id_lift_inv(b);
        }
        if a == b {
            proof {
                lemma_keeps_table(s0, *self);
            }
            return false;
        }
        self.mark_stale();
        let ghost s1 = *self;
        proof {
            assert(s0.extends(s1));
        }
        let la = a.lift();
        let lb = b.lift();
        if a.raw() == b.raw() {
            let dependency = la.equalizer(&lb);
            proof {
                lemma_lift_len(dependency);
            }
            let root = self.make_set(dependency.dom());
            let ghost s2 = *self;
            proof {
                law_equalizer_agrees(la@, lb@);
            }
            let target = Id::new(dependency, root.raw());
            self.link_root(a.raw(), target);
            proof {
                lemma_extends_trans(s1, s2, *self);
                lemma_extends_trans(s0, s1, *self);
                lemma_keeps_table(s0, *self);
                assert forall|x: Id| s0.valid(x) implies #[trigger] self.canon(x) == placed_after_equating(s0.canon(x), s0.canon(a0),
                    s0.canon(b0), s0.len() as int) by {
                    assert(s1.canon(x) == s0.canon(x));
                    assert(s1.valid(x));
                    assert(s2.canon(x) == s1.canon(x));
                }
            }
            return true;
        }
        let pb = la.pullback(&lb);
        let common = pb.diagonal;
        let to_a = pb.from_left;
        let to_b = pb.from_right;
        proof {
            lemma_compose_count(la@, to_a@);
            lemma_compose_count(lb@, to_b@);
        }
        if common == lb {
            let target = Id::new(to_a, b.raw());
            self.link_root(a.raw(), target);
            proof {
                lemma_extends_trans(s0, s1, *self);
            }
        } else if common == la {
            let target = Id::new(to_b, a.raw());
            self.link_root(b.raw(), target);
            proof {
                lemma_extends_trans(s0, s1, *self);
            }
        } else {
            proof {
                lemma_lift_len(common);
                use_type_invariant(&common);
                use_type_invariant(&la);
                use_type_invariant(&lb);
                if common@ == la@ {
                    crate::lift::lemma_view_injective(common, la);
                }
                if common@ == lb@ {
                    crate::lift::lemma_view_injective(common, lb);
                }
                lemma_egraph_specs(s0);
                lemma_egraph_specs(*self);
            }
            let root = self.make_set(common.dom());
            let ghost s2 = *self;
            let ta = Id::new(to_a, root.raw());
            self.link_root(a.raw(), ta);
            let ghost s3 = *self;
            let tb = Id::new(to_b, root.raw());
            self.link_root(b.raw(), tb);
            proof {
                lemma_extends_trans(s2, s3, *self);
                lemma_extends_trans(s1, s2, *self);
                lemma_extends_trans(s0, s1, *self);
            }
        }
        proof {
            lemma_keeps_table(s0, *self);
        }
        true
    }
}

/// Where the canonical placement `f` goes when the two placements `pa`
/// and `pb` of one raw class are equated and that class is linked under a
/// new root class `root`: a placement of that class keeps only the
/// variables on which `pa` and `pb` agree; any other stays as it was.
pub open spec fn placed_after_equating(f: (Seq<bool>, int), pa: (Seq<bool>, int), pb: (Seq<bool>, int), root: int) -> (Seq<bool>, int) {
    if f.1 == pa.1 {
        (compose_seq(f.0, equalizer_seq(pa.0, pb.0)), root)
    } else {
        f
    }
}

/// Equating two placements `pa` and `pb` of one class keeps, as a
/// dependency of the class placed by `pa`, exactly the context variables at
/// which both placements select the same variable of the class; the class
/// placed by `pa` and by `pb` then coincide.
pub proof fn law_equating_keeps_agreed_variables(pa: Seq<bool>, pb: Seq<bool>)
    requires
        pa.len() == pb.len(),
        count_true(pa) == count_true(pb),
    ensures
        forall|i: int| 0 <= i < pa.len() ==> (#[trigger] compose_seq(pa, equalizer_seq(pa, pb))[i]
            <==> (pa[i] && pb[i] && rank(pa, i) == rank(pb, i))),
        compose_seq(pa, equalizer_seq(pa, pb)) == compose_seq(pb, equalizer_seq(pa, pb)),
{
    let e = equalizer_seq(pa, pb);
    assert forall|i: int| 0 <= i < pa.len() implies (#[trigger] compose_seq(pa, e)[i]
        <==> (pa[i] && pb[i] && rank(pa, i) == rank(pb, i))) by {
        if pa[i] && pb[i] && rank(pa, i) == rank(pb, i) {
            crate::seqs::lemma_rank_selected(pa, i);
            assert(e[rank(pa, i) as int]);
        }
        if compose_seq(pa, e)[i] {
            crate::seqs::lemma_rank_selected(pa, i);
            let k = rank(pa, i) as int;
            let w = choose|w: int| 0 <= w < pa.len() && pa[w] && pb[w] && rank(pa, w) == k && rank(pb, w) == k;
            crate::seqs::lemma_rank_injective(pa, i, w);
        }
    }
    law_equalizer_agrees(pa, pb);
}

/// Equating two placements `a` and `b` of one class changes no other
/// class, and leaves the class, placed by `a`, depending on exactly the
/// context variables at which `a` and `b` select the same variable of the
/// class. So `a` and `b` become equal without the class being cut down to
/// a constant, and placements of other classes keep their canonical form.
pub proof fn law_union_of_one_class(g0: EGraph, g1: EGraph, a: Id, b: Id, x: Id)
    requires
        g0.wf(),
        g0.valid(a),
        g0.valid(b),
        g0.valid(x),
        a.ctx_spec() == b.ctx_spec(),
        g0.canon(a).1 == g0.canon(b).1,
        forall|y: Id| g0.valid(y) ==> #[trigger] g1.canon(y) == placed_after_equating(g0.canon(y), g0.canon(a), g0.canon(b),
            g0.len() as int),
    ensures
        g1.canon(a) == g1.canon(b),
        forall|i: int| 0 <= i < a.ctx_spec() ==> (#[trigger] g1.canon(a).0[i] <==> (g0.canon(a).0[i] && g0.canon(b).0[i]
            && rank(g0.canon(a).0, i) == rank(g0.canon(b).0, i))),
        g0.canon(x).1 != g0.canon(a).1 ==> g1.canon(x) == g0.canon(x),
{
    reveal(EGraph::wf);
    crate::unionfind::lemma_find_valid(g0.parent@, g0.rank@, g0.rank_bound@, a);
    crate::unionfind::lemma_find_valid(g0.parent@, g0.rank@, g0.rank_bound@, b);
    assert(g1.canon(a) == placed_after_equating(g0.canon(a), g0.canon(a), g0.canon(b), g0.len() as int));
    assert(g1.canon(b) == placed_after_equating(g0.canon(b), g0.canon(a), g0.canon(b), g0.len() as int));
    law_equating_keeps_agreed_variables(g0.canon(a).0, g0.canon(b).0);
}

/// Validity of an e-node survives a growing symbol table.
pub(crate) proof fn lemma_node_ok_symbols(p: Seq<Id>, n1: nat, n2: nat, node: Node, n: nat)
    requires
        node_ok(p, n1, node, n),
        n1 <= n2,
    ensures
        node_ok(p, n2, node, n),
{
}

/// An e-node has one context.
pub(crate) proof fn lemma_node_ctx_unique(p: Seq<Id>, nsyms: nat, node: Node, n1: nat, n2: nat)
    requires
        node_ok(p, nsyms, node, n1),
        node_ok(p, nsyms, node, n2),
    ensures
        n1 == n2,
{
}

impl EGraph {
    /// The number of the symbol named `name`, if it has one.
    pub(crate) fn find_symbol(&self, name: &str) -> (r: Option<u32>)
        requires
            self.symbols@.len() <= u32::MAX,
        ensures
            r matches Some(s) ==> (s as int) < self.symbols@.len() && self.symbols@[s as int]@ == name@,
            r is None ==> forall|i: int| 0 <= i < self.symbols@.len() ==> self.symbols@[i]@ != name@,
    {
        let key = String::from_str(name);
        let mut i: usize = 0;
        while i < self.symbols.len()
            invariant
                i <= self.symbols@.len(),
                self.symbols@.len() <= u32::MAX,
                key@ == name@,
                forall|k: int| 0 <= k < i ==> self.symbols@[k]@ != name@,
            decreases self.symbols@.len() - i,
        {
            if self.symbols[i] == key {
                return Some(i as u32);
            }
            i = i + 1;
        }
        None
    }

    /// The number of the symbol named `name`, adding it when new.
    pub(crate) fn intern_symbol(&mut self, name: &str) -> (s: u32)
        requires
            old(self).wf(),
            old(self).symbols@.len() < u32::MAX,
        ensures
            final(self).wf(),
            final(self).parent == old(self).parent,
            final(self).rank == old(self).rank,
            final(self).rank_bound == old(self).rank_bound,
            final(self).memo == old(self).memo,
            final(self).rev == old(self).rev,
            final(self).rev_tracked == old(self).rev_tracked,
            final(self).rev_valid == old(self).rev_valid,
            (s as int) < final(self).symbols@.len(),
            final(self).symbols@[s as int]@ == name@,
            final(self).symbols@.len() >= old(self).symbols@.len(),
            final(self).symbols@.len() <= old(self).symbols@.len() + 1,
            forall|i: int| 0 <= i < old(self).symbols@.len() ==> final(self).symbols@[i] == old(self).symbols@[i],
    {
        proof {
            reveal(EGraph::wf);
        }
        if let Some(i) = self.find_symbol(name) {
            return i;
        }
        let key = String::from_str(name);
        let n = self.symbols.len() as u32;
        self.symbols.push(key);
        proof {
            let p = self.parent@;
            let nsyms = self.symbols@.len();
            assert forall|r: int, k: int|
                0 <= r < p.len() && 0 <= k < self.rev@[r]@.len() implies {
                    let (node, edge) = #[trigger] self.rev@[r]@[k];
                    &&& edge.inv()
                    &&& node_ok(p, nsyms, node, edge@.len())
                    &&& count_true(edge@) == ctx_at(p, r)
                } by {
                lemma_node_ok_symbols(p, (nsyms - 1) as nat, nsyms, self.rev@[r]@[k].0, self.rev@[r]@[k].1@.len());
            }
            let entries = memo_entries(self.memo);
            assert forall|j: int| 0 <= j < entries.len() implies {
                let (k, raw) = #[trigger] entries[j];
                &&& (raw as int) < p.len()
                &&& key_of(node_of(k)) == k
                &&& node_ok(p, nsyms, node_of(k), ctx_at(p, raw as int))
            } by {
                let (k, raw) = entries[j];
                lemma_node_ok_symbols(p, (nsyms - 1) as nat, nsyms, node_of(k), ctx_at(p, raw as int));
            }
            crate::keeping::lemma_rev_members_same(*old(self), *self);
        }
        n
    }

    /// Record that class `raw` holds `node`, placed by `edge`.
    fn add_rev_entry(&mut self, raw: u32, node: Node, edge: Lift)
        requires
            old(self).wf(),
            raw < old(self).len(),
            node_ok(old(self).parent@, old(self).symbols@.len(), node, edge@.len()),
            count_true(edge@) == old(self).class_ctx(raw as int),
            !old(self).rev_valid,
        ensures
            final(self).wf(),
            *final(self) == (EGraph { rev: final(self).rev, ..*old(self) }),
            final(self).rev@.len() == old(self).rev@.len(),
            final(self).rev@[raw as int]@ == old(self).rev@[raw as int]@.push((node, edge)),
            forall|r: int| 0 <= r < old(self).rev@.len() && r != raw ==> #[trigger] final(self).rev@[r] == old(self).rev@[r],
    {
        proof {
            reveal(EGraph::wf);
            use_type_invariant(&edge);
        }
        let ghost s1 = *self;
        let mut entries_of: Vec<(Node, Lift)> = Vec::new();
        self.rev.set_and_swap(raw as usize, &mut entries_of);
        let ghost before = entries_of@;
        entries_of.push((node, edge));
        self.rev.set(raw as usize, entries_of);
        proof {
            let p = self.parent@;
            let nsyms = self.symbols@.len();
            let r0 = raw as int;
            assert forall|r: int, k: int|
                0 <= r < p.len() && 0 <= k < self.rev@[r]@.len() implies {
                    let (nd, e) = #[trigger] self.rev@[r]@[k];
                    &&& e.inv()
                    &&& node_ok(p, nsyms, nd, e@.len())
                    &&& count_true(e@) == ctx_at(p, r)
                } by {
                if r == r0 {
                    if k < before.len() {
                        let _ = s1.rev@[r]@[k];
                    }
                } else {
                    let _ = s1.rev@[r]@[k];
                }
            }
        }
    }

    /// Hash-cons `node`, which is new, as class `raw`.
    #[verifier::spinoff_prover]
    pub(crate) fn add_memo_entry(&mut self, key: NodeKey, raw: u32, node: Node)
        requires
            old(self).wf(),
            raw < old(self).len(),
            key == key_of(node),
            node_of(key) == node,
            !has_key(memo_entries(old(self).memo), key),
            node_ok(old(self).parent@, old(self).symbols@.len(), node, old(self).class_ctx(raw as int)),
            !old(self).rev_valid,
        ensures
            final(self).wf(),
            *final(self) == (EGraph { memo: final(self).memo, ..*old(self) }),
            memo_entries(final(self).memo) == memo_entries(old(self).memo).push((key, raw)),
            has_key(memo_entries(final(self).memo), key),
    {
        proof {
            reveal(EGraph::wf);
        }
        let ghost s2 = *self;
        memo_insert(&mut self.memo, key, raw);
        proof {
            let p = self.parent@;
            let nsyms = self.symbols@.len();
            let e1 = memo_entries(s2.memo);
            let e2 = memo_entries(self.memo);
            assert forall|j: int| 0 <= j < e2.len() implies {
                let (k, r) = #[trigger] e2[j];
                &&& (r as int) < p.len()
                &&& key_of(node_of(k)) == k
                &&& node_ok(p, nsyms, node_of(k), ctx_at(p, r as int))
            } by {
                if j < e1.len() {
                    let _ = e1[j];
                }
            }
            assert forall|i: int, j: int|
                0 <= i < e2.len() && 0 <= j < e2.len() && #[trigger] e2[i].0 == #[trigger] e2[j].0 implies i == j by {
                if i < e1.len() && j < e1.len() {
                    let _ = e1[i];
                    let _ = e1[j];
                } else if i < e1.len() {
                    assert(e1[i].0 == key);
                } else if j < e1.len() {
                    assert(e1[j].0 == key);
                }
            }
            assert(e2[e1.len() as int].0 == key);
            assert(!self.rev_valid);
        }
    }

    /// The class of `node` in its own `scope`-variable context, adding the
    /// e-node when it is new.
    #[verifier::spinoff_prover]
    #[verifier::rlimit(80)]
    pub(crate) fn intern(&mut self, scope: usize, node: Node) -> (id: Id)
        requires
            old(self).wf(),
            node_ok(old(self).parent@, old(self).symbols@.len(), node, scope as nat),
            scope <= 7,
            old(self).len() <= RAW_MASK,
        ensures
            final(self).wf(),
            old(self).extends(*final(self)),
            final(self).len() <= old(self).len() + 1,
            final(self).symbols == old(self).symbols,
            final(self).rev_tracked == old(self).rev_tracked,
            final(self).valid(id),
            id.ctx_spec() == scope,
            final(self).is_root_class(id.raw_spec() as int),
            has_key(memo_entries(final(self).memo), key_of(node)),
            exists|j: int| filed(*final(self), node, id, j),
            memo_entries(old(self).memo).len() <= memo_entries(final(self).memo).len(),
            forall|k: int| 0 <= k < memo_entries(old(self).memo).len()
                ==> #[trigger] memo_entries(final(self).memo)[k] == memo_entries(old(self).memo)[k],
            has_key(memo_entries(old(self).memo), key_of(node)) ==> final(self).len() == old(self).len()
                && memo_entries(final(self).memo).len() == memo_entries(old(self).memo).len(),
            final(self).len() > old(self).len() ==> id.lift_spec()@ == all_true(scope as nat),
            old(self).keeps_placements(*final(self)),
    {
        let key = node_key(&node);
        match memo_get(&self.memo, &key) {
            Some(raw) => {
                proof {
                    reveal(EGraph::wf);
                    let entries = memo_entries(self.memo);
                    let i = choose|i: int| 0 <= i < entries.len() && #[trigger] entries[i] == (key, raw);
                    let _ = entries[i];
                    lemma_node_ctx_unique(self.parent@, self.symbols@.len(), node, scope as nat, ctx_at(self.parent@, raw as int));
                    lemma_count_all_true(scope as nat);
                    assert(has_key(entries, key_of(node)));
                }
                let start = Id::new(Lift::identity(scope), raw);
                let found = self.find_mut(&start);
                proof {
                    let entries = memo_entries(self.memo);
                    let i = choose|i: int| 0 <= i < entries.len() && #[trigger] entries[i] == (key, raw);
                    let _ = entries[i];
                    use_type_invariant(&start);
                    lemma_class_id(*self, raw as int);
                    lemma_id_eq(start, class_id(*self, raw as int));
                    lemma_canon_root_id(*self, found);
                    assert(filed(*self, node, found, i));
                }
                return found;
            },
            None => {},
        }
        let ghost s0 = *self;
        let id = self.make_set(scope);
        let ghost s1 = *self;
        let ident = Lift::identity(scope);
        proof {
            reveal(EGraph::wf);
            assert forall|i: int| 0 <= i < s0.len() implies ctx_at(s1.parent@, i) == ctx_at(s0.parent@, i) by {
                assert(s1.parent@[i] == s0.parent@[i]);
            }
            lemma_node_ok_extend(s0.parent@, s1.parent@, s1.symbols@.len(), node, scope as nat);
            lemma_count_all_true(scope as nat);
        }
        if self.rev_tracked {
            self.add_rev_entry(id.raw(), node, ident);
        }
        let ghost s2 = *self;
        self.add_memo_entry(key, id.raw(), node);
        proof {
            use_type_invariant(&id);
            lemma_class_id(*self, id.raw_spec() as int);
            lemma_id_eq(id, class_id(*self, id.raw_spec() as int));
            assert(filed(*self, node, id, memo_entries(s0.memo).len() as int));
            assert forall|x: Id| s0.valid(x) implies #[trigger] self.valid(x) by {
                assert(s1.valid(x));
            }
            assert forall|x: Id, y: Id| s0.valid(x) && s0.valid(y) && s0.equiv(x, y) implies #[trigger] self.equiv(x, y) by {
                assert(s1.valid(x));
                assert(s1.valid(y));
                assert(s1.equiv(x, y));
            }
            assert forall|x: Id| s0.valid(x) implies #[trigger] self.canon(x) == s0.canon(x) by {
                assert(s1.canon(x) == s0.canon(x));
            }
            assert forall|q: int| 0 <= q < s0.len() && s0.is_root_class(q) implies #[trigger] self.is_root_class(q) by {
                assert(s1.parent@[q] == s0.parent@[q]);
            }
        }
        id
    }
}

/// What it means for `(l, canonical)` to be the canonical form of the
/// e-node `node`: the canonical e-node lives in the domain of `l`, and its
/// children, placed back through `l`, are the canonical placements of the
/// children of `node`.
pub(crate) open spec fn canonical_form(g: EGraph, node: Node, l: Seq<bool>, canonical: Node) -> bool {
    match (node, canonical) {
        (Node::Var, Node::Var) => l == all_true(1),
        (Node::Atom(s), Node::Atom(t)) => s == t && l == all_true(0),
        (Node::App(f, a), Node::App(f2, a2)) => {
            &&& f2.raw_spec() == g.canon(f).1
            &&& a2.raw_spec() == g.canon(a).1
            &&& compose_seq(l, f2.lift_spec()@) == g.canon(f).0
            &&& compose_seq(l, a2.lift_spec()@) == g.canon(a).0
        },
        (Node::Binder(s, b), Node::Binder(t, b2)) => {
            &&& s == t
            &&& b2.raw_spec() == g.canon(b).1
            &&& compose_seq(l.push(true), b2.lift_spec()@) == g.canon(b).0
        },
        _ => false,
    }
}

/// A placement through a root class is its own canonical placement.
pub(crate) proof fn lemma_canon_root_id(g: EGraph, x: Id)
    requires
        g.wf(),
        id_valid(g.parent@, x),
        is_root(g.parent@, x.raw_spec() as int),
    ensures
        g.canon(x) == (x.lift_spec()@, x.raw_spec() as int),
{
    reveal(EGraph::wf);
    lemma_walk(g.parent@, g.rank@, g.rank_bound@, x.raw_spec() as int);
    law_compose_identity_right(x.lift_spec()@);
}

/// A canonical form is its own canonical form, in its own context.
pub(crate) proof fn lemma_canonical_idempotent(g: EGraph, node: Node, l: Seq<bool>, c: Node)
    requires
        g.wf(),
        node_ok(g.parent@, g.symbols@.len(), node, l.len()),
        canonical_form(g, node, l, c),
        node_ok(g.parent@, g.symbols@.len(), c, count_true(l)),
    ensures
        canonical_form(g, c, all_true(count_true(l)), c),
{
    reveal(EGraph::wf);
    let parent = g.parent@;
    match (node, c) {
        (Node::App(f, a), Node::App(f2, a2)) => {
            lemma_walk(parent, g.rank@, g.rank_bound@, f.raw_spec() as int);
            lemma_walk(parent, g.rank@, g.rank_bound@, a.raw_spec() as int);
            lemma_canon_root_id(g, f2);
            lemma_canon_root_id(g, a2);
            law_compose_identity_left(f2.lift_spec()@);
            law_compose_identity_left(a2.lift_spec()@);
        },
        (Node::Binder(s, b), Node::Binder(t, b2)) => {
            lemma_walk(parent, g.rank@, g.rank_bound@, b.raw_spec() as int);
            lemma_canon_root_id(g, b2);
            let m = count_true(l);
            assert(all_true(m).push(true) =~= all_true(m + 1));
            law_compose_identity_left(b2.lift_spec()@);
        },
        (Node::Var, Node::Var) => {
            lemma_count_all_true(1);
        },
        (Node::Atom(_), Node::Atom(_)) => {
            lemma_count_all_true(0);
        },
        _ => {},
    }
}

/// A canonical form stays one in a graph that places every valid class
/// the same way.
pub(crate) proof fn lemma_canonical_transfer(g1: EGraph, g2: EGraph, node: Node, n: nat, l: Seq<bool>, c: Node)
    requires
        node_ok(g1.parent@, g1.symbols@.len(), node, n),
        canonical_form(g1, node, l, c),
        forall|x: Id| id_valid(g1.parent@, x) ==> #[trigger] g2.canon(x) == g1.canon(x),
    ensures
        canonical_form(g2, node, l, c),
{
    match node {
        Node::App(f, a) => {
            assert(g2.canon(f) == g1.canon(f));
            assert(g2.canon(a) == g1.canon(a));
        },
        Node::Binder(_, b) => {
            assert(g2.canon(b) == g1.canon(b));
        },
        _ => {},
    }
}

/// The hash-cons table stays canonical in a graph that keeps its classes,
/// their contexts and their canonical placements.
pub(crate) proof fn lemma_memo_canonical_transfer(g1: EGraph, g2: EGraph)
    requires
        g1.wf(),
        memo_canonical(g1),
        g2.memo == g1.memo,
        forall|r: int| 0 <= r < g1.parent@.len() ==> ctx_at(g2.parent@, r) == ctx_at(g1.parent@, r),
        forall|x: Id| id_valid(g1.parent@, x) ==> #[trigger] g2.canon(x) == g1.canon(x),
    ensures
        memo_canonical(g2),
{
    reveal(EGraph::wf);
    let entries = memo_entries(g1.memo);
    assert forall|i: int| 0 <= i < entries.len() implies {
        let (k, raw) = #[trigger] entries[i];
        canonical_form(g2, node_of(k), all_true(ctx_at(g2.parent@, raw as int)), node_of(k))
    } by {
        let (k, raw) = entries[i];
        assert(ctx_at(g2.parent@, raw as int) == ctx_at(g1.parent@, raw as int));
        lemma_canonical_transfer(g1, g2, node_of(k), ctx_at(g1.parent@, raw as int), all_true(ctx_at(g1.parent@, raw as int)), node_of(k));
    }
}

impl EGraph {
    /// Pull an e-node into the smallest context its canonical children
    /// need; return the lift back to the context of `node`.
    #[verifier::spinoff_prover]
    pub(crate) fn canonical_node(&self, node: &Node, n: Ghost<nat>) -> (r: (Lift, Node))
        requires
            self.wf(),
            node_ok(self.parent@, self.symbols@.len(), *node, n@),
            n@ <= 7,
        ensures
            r.0@.len() == n@,
            node_ok(self.parent@, self.symbols@.len(), r.1, count_true(r.0@)),
            canonical_form(*self, *node, r.0@, r.1),
            self.shared_lift(*node, r.0@),
    {
        match node {
            Node::Var => {
                proof {
                    lemma_count_all_true(1);
                }
                (Lift::identity(1), Node::Var)
            },
            Node::Atom(s) => {
                proof {
                    lemma_count_all_true(0);
                }
                (Lift::identity(0), Node::Atom(*s))
            },
            Node::App(function, argument) => {
                let f = self.find(function);
                let a = self.find(argument);
                proof {
                    use_type_invariant(&f);
                    use_type_invariant(&a);
                }
                if f.lift().is_identity() && a.lift().is_identity() {
                    let l = Lift::identity(f.ctx());
                    proof {
                        lemma_count_all_true(n@);
                        law_compose_identity_left(f.lift_spec()@);
                        law_compose_identity_left(a.lift_spec()@);
                        assert(l@ =~= or_seq(self.canon(*function).0, self.canon(*argument).0));
                    }
                    return (l, Node::App(f, a));
                }
                let lf = f.lift();
                let la = a.lift();
                let common = lf.union(&la).lift;
                let uf = common.union(&lf);
                let ua = common.union(&la);
                proof {
                    assert(uf.lift@ =~= common@);
                    assert(ua.lift@ =~= common@);
                    lemma_compose_count(common@, uf.right@);
                    lemma_compose_count(common@, ua.right@);
                }
                let f2 = Id::new(uf.right, f.raw());
                let a2 = Id::new(ua.right, a.raw());
                proof {
                    use_type_invariant(&f2);
                    use_type_invariant(&a2);
                }
                (common, Node::App(f2, a2))
            },
            Node::Binder(op, body) => {
                let b = self.find(body);
                proof {
                    use_type_invariant(&b);
                    lemma_id_lift_inv(b);
                }
                let lb = b.lift();
                let k = b.ctx() - 1;
                let outer = lb.prefix(k);
                let last = lb.get(k);
                let d = outer.dom();
                proof {
                    lemma_count_le_len(outer@);
                }
                let core = Lift::identity(d).append(last);
                proof {
                    crate::seqs::lemma_count_take_step(lb@, k as int);
                    crate::seqs::lemma_rank_full(lb@);
                    lemma_count_all_true(d as nat);
                    lemma_count_push(all_true(d as nat), last);
                    assert(lb@.take(k + 1) =~= lb@);
                    let big = outer@.push(true);
                    assert forall|i: int| 0 <= i < big.len() implies compose_seq(big, core@)[i] == lb@[i] by {
                        if i < k {
                            assert(big.take(i) =~= outer@.take(i));
                            if outer@[i] {
                                crate::seqs::lemma_rank_selected(outer@, i);
                            }
                        } else {
                            assert(big.take(i) =~= outer@);
                        }
                    }
                    assert(compose_seq(big, core@) =~= lb@);
                }
                let core_body = Id::new(core, b.raw());
                proof {
                    use_type_invariant(&core_body);
                }
                (outer, Node::Binder(*op, core_body))
            },
        }
    }
}

impl EGraph {
    /// Room left for new classes and symbols.
    pub open spec fn room(self, n: nat) -> bool {
        &&& self.len() + n <= RAW_MASK + 1
        &&& self.symbols_len() + n <= u32::MAX
    }

    /// The lift that a canonical form of `node` is placed by: the variables
    /// its children use.
    pub closed spec fn shared_lift(self, node: Node, l: Seq<bool>) -> bool {
        match node {
            Node::App(f, a) => l == or_seq(self.canon(f).0, self.canon(a).0),
            Node::Binder(_, b) => l == self.canon(b).0.take(l.len() as int),
            _ => true,
        }
    }

    /// Every valid placement keeps its canonical placement in `next`, and
    /// every root class stays a root.
    pub closed spec fn keeps_placements(self, next: EGraph) -> bool {
        &&& forall|x: Id| self.valid(x) ==> #[trigger] next.canon(x) == self.canon(x)
        &&& forall|q: int| 0 <= q < self.len() && self.is_root_class(q) ==> #[trigger] next.is_root_class(q)
    }

    /// The symbol tables of two e-graphs are the same.
    pub closed spec fn same_symbols(self, other: EGraph) -> bool {
        self.symbols == other.symbols
    }

    /// Number of symbols.
    pub closed spec fn symbols_len(self) -> nat {
        self.symbols@.len()
    }

    /// The variable at level `index` of a `ctx`-variable context.
    pub fn var(&mut self, ctx: usize, index: usize) -> (id: Id)
        requires
            old(self).wf(),
            index < ctx <= 7,
            old(self).room(1),
        ensures
            final(self).wf(),
            old(self).extends(*final(self)),
            final(self).room_used(*old(self), 1),
            final(self).same_symbols(*old(self)),
            final(self).valid(id),
            id.ctx_spec() == ctx,
            final(self).holds_var(id, index as nat),
            old(self).keeps_table(*final(self)),
            forall|j: int| 0 <= j < ctx && j != index ==> !(#[trigger] id.lift_spec()@[j]),
            final(self).len() > old(self).len() ==> id.lift_spec()@ == single_true(ctx as nat, index as int),
            forall|x: Id| #[trigger] old(self).holds_var(x, index as nat) && x.ctx_spec() == ctx ==> final(self).equiv(id, x)
                && final(self).len() == old(self).len() && final(self).node_len() == old(self).node_len(),
    {
        proof {
            lemma_count_all_true(1);
        }
        let base = self.intern(1, Node::Var);
        let by = Lift::select(ctx, index);
        proof {
            lemma_count_single(ctx as nat, index as int);
        }
        let id = base.weaken(&by);
        proof {
            lemma_compose_count(by@, base.lift_spec()@);
            use_type_invariant(&id);
            use_type_invariant(&base);
            law_compose_identity_right(by@);
            let j = choose|j: int| filed(*self, Node::Var, base, j);
            let r = memo_entries(self.memo)[j].1 as int;
            lemma_class_id(*self, r);
            lemma_place(*self, base, by@);
            lemma_id_eq(id, place(base, by@));
            lemma_place_equiv(*self, base, class_id(*self, r), by@);
            assert(var_at(*self, j, id, index as nat));
            lemma_holds_var(*self, id, index as nat, j);
        }
        proof {
            lemma_keeps_table(*old(self), *self);
            crate::holds::law_holds_persist(*old(self), *self);
            assert forall|x: Id| #[trigger] old(self).holds_var(x, index as nat) && x.ctx_spec() == ctx implies self.equiv(id, x)
                && self.len() == old(self).len() && self.node_len() == old(self).node_len() by {
                assert(self.holds_var(x, index as nat));
                crate::holds::law_variables_shared(*self, id, x, index as nat);
                crate::holds::lemma_var_filed(*old(self), x, index as nat);
                lemma_egraph_specs(*old(self));
                lemma_egraph_specs(*self);
            }
        }
        id
    }

    /// The atom `name` in a `ctx`-variable context.
    pub fn atom(&mut self, name: &str, ctx: usize) -> (id: Id)
        requires
            old(self).wf(),
            ctx <= 7,
            old(self).room(1),
        ensures
            final(self).wf(),
            old(self).extends(*final(self)),
            final(self).room_used(*old(self), 1),
            final(self).valid(id),
            id.ctx_spec() == ctx,
            final(self).holds_atom(id, name@),
            old(self).keeps_table(*final(self)),
            forall|j: int| 0 <= j < ctx ==> !(#[trigger] id.lift_spec()@[j]),
            old(self).keeps_placements(*final(self)),
            final(self).is_root_class(id.raw_spec() as int),
    {
        let s = self.intern_symbol(name);
        proof {
            assert(old(self).extends(*self)) by {
                assert forall|x: Id| old(self).valid(x) implies #[trigger] self.valid(x) by {}
                assert forall|x: Id, y: Id| old(self).valid(x) && old(self).valid(y) && old(self).equiv(x, y) implies #[trigger] self.equiv(x, y) by {}
            }
        }
        let ghost mid = *self;
        let id = self.atom_symbol(s, ctx);
        proof {
            lemma_extends_trans(*old(self), mid, *self);
            let i = choose|i: int| atom_at(*self, i, id, self.symbols@[s as int]@);
            lemma_holds_atom(*self, id, name@, i);
        }
        proof {
            lemma_keeps_table(*old(self), mid);
            lemma_keeps_table_trans(*old(self), mid, *self);
        }
        id
    }

    pub(crate) fn atom_symbol(&mut self, name: u32, ctx: usize) -> (id: Id)
        requires
            old(self).wf(),
            ctx <= 7,
            (name as int) < old(self).symbols@.len(),
            old(self).len() <= RAW_MASK,
        ensures
            final(self).wf(),
            old(self).extends(*final(self)),
            final(self).len() <= old(self).len() + 1,
            final(self).symbols == old(self).symbols,
            final(self).rev_tracked == old(self).rev_tracked,
            final(self).valid(id),
            id.ctx_spec() == ctx,
            exists|i: int| atom_at(*final(self), i, id, final(self).symbols@[name as int]@),
            old(self).keeps_table(*final(self)),
            forall|j: int| 0 <= j < ctx ==> !(#[trigger] id.lift_spec()@[j]),
            old(self).keeps_placements(*final(self)),
            final(self).is_root_class(id.raw_spec() as int),
    {
        let base = self.intern(0, Node::Atom(name));
        let by = Lift::unused(ctx);
        proof {
            crate::seqs::lemma_count_none_true(ctx as nat);
        }
        let id = base.weaken(&by);
        proof {
            lemma_compose_count(by@, base.lift_spec()@);
            use_type_invariant(&id);
            use_type_invariant(&base);
            let j = choose|j: int| filed(*self, Node::Atom(name), base, j);
            let r = memo_entries(self.memo)[j].1 as int;
            lemma_class_id(*self, r);
            lemma_place(*self, base, by@);
            lemma_id_eq(id, place(base, by@));
            lemma_place_equiv(*self, base, class_id(*self, r), by@);
            assert(atom_at(*self, j, id, self.symbols@[name as int]@));
        }
        proof {
            lemma_keeps_table(*old(self), *self);
        }
        id
    }

    /// One step of curried application, in the shared context.
    pub fn app(&mut self, function: Id, argument: Id) -> (id: Id)
        requires
            old(self).wf(),
            old(self).valid(function),
            old(self).valid(argument),
            function.ctx_spec() == argument.ctx_spec(),
            old(self).room(1),
        ensures
            final(self).wf(),
            old(self).extends(*final(self)),
            final(self).room_used(*old(self), 1),
            final(self).same_symbols(*old(self)),
            final(self).valid(id),
            id.ctx_spec() == function.ctx_spec(),
            final(self).holds_app(id, function, argument),
            old(self).keeps_table(*final(self)),
            forall|j: int| 0 <= j < id.ctx_spec() && #[trigger] id.lift_spec()@[j]
                ==> old(self).canon(function).0[j] || old(self).canon(argument).0[j],
            final(self).len() > old(self).len() ==> id.lift_spec()@ == or_seq(old(self).canon(function).0, old(self).canon(argument).0),
            old(self).keeps_placements(*final(self)),
            final(self).is_root_class(id.raw_spec() as int),
    {
        proof {
            use_type_invariant(&function);
            use_type_invariant(&argument);
            lemma_id_lift_inv(function);
        }
        let node = Node::App(function, argument);
        let (common, canonical) = self.canonical_node(&node, Ghost(function.ctx_spec()));
        proof {
            lemma_count_le_len(common@);
        }
        let base = self.intern(common.dom(), canonical);
        let id = base.weaken(&common);
        proof {
            law_compose_identity_right(common@);
            lemma_compose_count(common@, base.lift_spec()@);
            use_type_invariant(&id);
            use_type_invariant(&base);
            let j = choose|j: int| filed(*self, canonical, base, j);
            lemma_place(*self, base, common@);
            lemma_id_eq(id, place(base, common@));
            lemma_placed_entry(*old(self), *self, node, id, common@, canonical, base, j);
            lemma_holds_app(*self, id, function, argument);
        }
        proof {
            lemma_keeps_table(*old(self), *self);
        }
        id
    }

    /// A binder over `body`, whose last context variable is the bound one.
    pub fn binder(&mut self, op: &str, body: Id) -> (id: Id)
        requires
            old(self).wf(),
            old(self).valid(body),
            body.ctx_spec() > 0,
            old(self).room(1),
        ensures
            final(self).wf(),
            old(self).extends(*final(self)),
            final(self).room_used(*old(self), 1),
            final(self).valid(id),
            id.ctx_spec() + 1 == body.ctx_spec(),
            final(self).holds_binder(id, op@, body),
            old(self).keeps_table(*final(self)),
            forall|j: int| 0 <= j < id.ctx_spec() && #[trigger] id.lift_spec()@[j] ==> old(self).canon(body).0[j],
            final(self).len() > old(self).len() ==> id.lift_spec()@ == old(self).canon(body).0.take(id.ctx_spec() as int),
    {
        let s = self.intern_symbol(op);
        proof {
            assert(old(self).extends(*self)) by {
                assert forall|x: Id| old(self).valid(x) implies #[trigger] self.valid(x) by {}
                assert forall|x: Id, y: Id| old(self).valid(x) && old(self).valid(y) && old(self).equiv(x, y) implies #[trigger] self.equiv(x, y) by {}
            }
        }
        let ghost mid = *self;
        proof {
            assert(mid.canon(body) == old(self).canon(body));
        }
        let id = self.binder_symbol(s, body);
        proof {
            lemma_extends_trans(*old(self), mid, *self);
            lemma_holds_binder(*self, id, op@, body, s);
        }
        proof {
            lemma_keeps_table(*old(self), mid);
            lemma_keeps_table_trans(*old(self), mid, *self);
        }
        id
    }

    pub(crate) fn binder_symbol(&mut self, op: u32, body: Id) -> (id: Id)
        requires
            old(self).wf(),
            old(self).valid(body),
            body.ctx_spec() > 0,
            (op as int) < old(self).symbols@.len(),
            old(self).len() <= RAW_MASK,
        ensures
            final(self).wf(),
            old(self).extends(*final(self)),
            final(self).len() <= old(self).len() + 1,
            final(self).symbols == old(self).symbols,
            final(self).rev_tracked == old(self).rev_tracked,
            final(self).valid(id),
            id.ctx_spec() + 1 == body.ctx_spec(),
            node_at_ok(*final(self), Node::Binder(op, body), id),
            stood_for(*final(self), memo_entries(final(self).memo), Node::Binder(op, body), id),
            old(self).keeps_table(*final(self)),
            forall|j: int| 0 <= j < id.ctx_spec() && #[trigger] id.lift_spec()@[j] ==> old(self).canon(body).0[j],
            final(self).len() > old(self).len() ==> id.lift_spec()@ == old(self).canon(body).0.take(id.ctx_spec() as int),
    {
        proof {
            use_type_invariant(&body);
            lemma_id_lift_inv(body);
        }
        let node = Node::Binder(op, body);
        let (outer, canonical) = self.canonical_node(&node, Ghost((body.ctx_spec() - 1) as nat));
        proof {
            lemma_count_le_len(outer@);
        }
        let base = self.intern(outer.dom(), canonical);
        let id = base.weaken(&outer);
        proof {
            law_compose_identity_right(outer@);
            lemma_compose_count(outer@, base.lift_spec()@);
            use_type_invariant(&id);
            use_type_invariant(&base);
            let j = choose|j: int| filed(*self, canonical, base, j);
            lemma_place(*self, base, outer@);
            lemma_id_eq(id, place(base, outer@));
            lemma_placed_entry(*old(self), *self, node, id, outer@, canonical, base, j);
        }
        proof {
            lemma_keeps_table(*old(self), *self);
        }
        id
    }

    /// `(op a1 ... an)` as curried application of the atom `op`.
    pub fn apps(&mut self, op: &str, arguments: Vec<Id>) -> (id: Id)
        requires
            old(self).wf(),
            arguments@.len() > 0,
            forall|i: int| 0 <= i < arguments@.len() ==> old(self).valid(#[trigger] arguments@[i]),
            forall|i: int| 0 <= i < arguments@.len() ==> (#[trigger] arguments@[i]).ctx_spec() == arguments@[0].ctx_spec(),
            old(self).room(arguments@.len() + 1),
        ensures
            final(self).wf(),
            old(self).extends(*final(self)),
            final(self).room_used(*old(self), arguments@.len() + 1),
            final(self).valid(id),
            id.ctx_spec() == arguments@[0].ctx_spec(),
            old(self).keeps_table(*final(self)),
            final(self).holds_apps(id, op@, arguments@),
            forall|j: int| 0 <= j < id.ctx_spec() && #[trigger] id.lift_spec()@[j] ==> exists|k: int|
                0 <= k < arguments@.len() && old(self).canon(#[trigger] arguments@[k]).0[j],
    {
        let ctx = arguments[0].ctx();
        let mut application = self.atom(op, ctx);
        proof {
            lemma_holds_apps_atom(*self, application, op@);
            assert(arguments@.take(0) =~= Seq::<Id>::empty());
        }
        let mut i: usize = 0;
        while i < arguments.len()
            invariant
                self.wf(),
                old(self).extends(*self),
                self.room_used(*old(self), i as nat + 1),
                old(self).room(arguments@.len() + 1),
                i <= arguments@.len(),
                self.valid(application),
                application.ctx_spec() == ctx,
                old(self).keeps_table(*self),
                self.holds_apps(application, op@, arguments@.take(i as int)),
                ctx == arguments@[0].ctx_spec(),
                forall|k: int| 0 <= k < arguments@.len() ==> old(self).valid(#[trigger] arguments@[k]),
                forall|k: int| 0 <= k < arguments@.len() ==> (#[trigger] arguments@[k]).ctx_spec() == ctx,
                forall|x: Id| old(self).valid(x) ==> #[trigger] self.canon(x) == old(self).canon(x),
                self.is_root_class(application.raw_spec() as int),
                forall|j: int| 0 <= j < application.ctx_spec() && #[trigger] application.lift_spec()@[j] ==> exists|k: int|
                    0 <= k < i && old(self).canon(#[trigger] arguments@[k]).0[j],
            decreases arguments@.len() - i,
        {
            let argument = arguments[i];
            proof {
                assert(old(self).valid(arguments@[i as int]));
            }
            proof {
                use_type_invariant(&application);
            }
            let ghost before = *self;
            let ghost previous = application;
            application = self.app(application, argument);
            proof {
                lemma_extends_trans(*old(self), before, *self);
                lemma_keeps_table_trans(*old(self), before, *self);
                law_holds_apps_persist(before, *self);
                lemma_holds_apps_step(*self, application, previous, op@, arguments@.take(i as int), argument);
                assert(arguments@.take(i as int).push(argument) =~= arguments@.take(i + 1));
                assert(before.valid(previous));
                lemma_canon_root_id(before, previous);
                assert(before.canon(argument) == old(self).canon(argument));
                assert forall|j: int| 0 <= j < application.ctx_spec() && #[trigger] application.lift_spec()@[j] implies exists|k: int|
                    0 <= k < i + 1 && old(self).canon(#[trigger] arguments@[k]).0[j] by {
                    if previous.lift_spec()@[j] {
                        let k = choose|k: int| 0 <= k < i && old(self).canon(#[trigger] arguments@[k]).0[j];
                    } else {
                        assert(old(self).canon(arguments@[i as int]).0[j]);
                    }
                }
                assert forall|x: Id| old(self).valid(x) implies #[trigger] self.canon(x) == old(self).canon(x) by {
                    assert(before.valid(x));
                }
            }
            i = i + 1;
        }
        proof {
            assert(arguments@.take(arguments@.len() as int) =~= arguments@);
        }
        application
    }

    /// At most `n` classes and `n` symbols were added since `before`.
    pub open spec fn room_used(self, before: EGraph, n: nat) -> bool {
        &&& self.len() <= before.len() + n
        &&& self.symbols_len() <= before.symbols_len() + n
    }
}

/// Validity of an e-node survives any change that keeps every class and
/// its context.
pub(crate) proof fn lemma_node_ok_extend(p1: Seq<Id>, p2: Seq<Id>, nsyms: nat, node: Node, n: nat)
    requires
        node_ok(p1, nsyms, node, n),
        p1.len() <= p2.len(),
        forall|i: int| 0 <= i < p1.len() ==> ctx_at(p2, i) == ctx_at(p1, i),
    ensures
        node_ok(p2, nsyms, node, n),
{
    match node {
        Node::App(f, a) => {
            assert(ctx_at(p2, f.raw_spec() as int) == ctx_at(p1, f.raw_spec() as int));
            assert(ctx_at(p2, a.raw_spec() as int) == ctx_at(p1, a.raw_spec() as int));
        },
        Node::Binder(_, b) => {
            assert(ctx_at(p2, b.raw_spec() as int) == ctx_at(p1, b.raw_spec() as int));
        },
        _ => {},
    }
}

/// `extends` is transitive.
pub proof fn lemma_extends_trans(a: EGraph, b: EGraph, c: EGraph)
    requires
        a.extends(b),
        b.extends(c),
    ensures
        a.extends(c),
{
    assert forall|x: Id| a.valid(x) implies #[trigger] c.valid(x) by {
        assert(b.valid(x));
    }
    assert forall|x: Id, y: Id| a.valid(x) && a.valid(y) && a.equiv(x, y) implies #[trigger] c.equiv(x, y) by {
        assert(b.valid(x));
        assert(b.valid(y));
        assert(b.equiv(x, y));
    }
}


/// What the e-graph's closed specifications mean, for the modules that
/// work on its representation.
/// Congruence: in a rebuilt e-graph, e-nodes that apply the same operator
/// to pairwise equivalent children are one and the same e-node, so they
/// belong to one class.
pub proof fn law_congruence(g: EGraph, i: int, j: int)
    requires
        g.wf(),
        g.rebuilt(),
        0 <= i < g.node_len(),
        0 <= j < g.node_len(),
        g.congruent_enodes(i, j),
    ensures
        i == j,
{
    reveal(EGraph::wf);
    let entries = memo_entries(g.memo);
    let (k1, r1) = entries[i];
    let (k2, r2) = entries[j];
    let n1 = node_of(k1);
    let n2 = node_of(k2);
    let parent = g.parent@;
    assert(canonical_form(g, n1, all_true(ctx_at(parent, r1 as int)), n1));
    assert(canonical_form(g, n2, all_true(ctx_at(parent, r2 as int)), n2));
    match (n1, n2) {
        (Node::App(f1, a1), Node::App(f2, a2)) => {
            law_compose_identity_left(f1.lift_spec()@);
            law_compose_identity_left(a1.lift_spec()@);
            law_compose_identity_left(f2.lift_spec()@);
            law_compose_identity_left(a2.lift_spec()@);
            lemma_id_eq(f1, f2);
            lemma_id_eq(a1, a2);
        },
        (Node::Binder(s, b1), Node::Binder(t, b2)) => {
            let m1 = ctx_at(parent, r1 as int);
            let m2 = ctx_at(parent, r2 as int);
            assert(all_true(m1).push(true) =~= all_true(m1 + 1));
            assert(all_true(m2).push(true) =~= all_true(m2 + 1));
            law_compose_identity_left(b1.lift_spec()@);
            law_compose_identity_left(b2.lift_spec()@);
            lemma_id_eq(b1, b2);
        },
        _ => {},
    }
    assert(n1 == n2);
    assert(k1 == key_of(n1));
    assert(k2 == key_of(n2));
}

/// A well-formed e-graph has at most `RAW_MASK + 1` classes.
pub(crate) proof fn lemma_wf_parent_len(g: EGraph)
    requires
        g.wf(),
    ensures
        g.parent@.len() <= RAW_MASK + 1,
        g.rank@.len() == g.parent@.len(),
{
    reveal(EGraph::wf);
}

/// Each parent edge of a well-formed e-graph is a valid placement.
pub(crate) proof fn lemma_wf_edge(g: EGraph, r: int)
    requires
        g.wf(),
        0 <= r < g.parent@.len(),
    ensures
        g.parent@[r].inv(),
        id_valid(g.parent@, g.parent@[r]),
{
    reveal(EGraph::wf);
    assert(g.rank@[r] < g.rank_bound@);
}

/// An extension keeps every class and its context.
pub(crate) proof fn lemma_extends_ctx(g1: EGraph, g2: EGraph)
    requires
        g1.extends(g2),
    ensures
        g1.parent@.len() <= g2.parent@.len(),
        forall|i: int| 0 <= i < g1.parent@.len() ==> ctx_at(g2.parent@, i) == ctx_at(g1.parent@, i),
{
    assert forall|i: int| 0 <= i < g1.parent@.len() implies ctx_at(g2.parent@, i) == ctx_at(g1.parent@, i) by {
        assert(g2.class_ctx(i) == g1.class_ctx(i));
    }
}

/// E-graphs that differ at most in their rebuild time agree field by
/// field otherwise.
pub(crate) proof fn lemma_same_but_timing_fields(g1: EGraph, g2: EGraph)
    requires
        g1.same_but_timing(g2),
    ensures
        g2 == (EGraph { rebuild_nanos: g2.rebuild_nanos, ..g1 }),
{
}

/// Changing only the rebuild time keeps an e-graph the same but for timing.
pub(crate) proof fn lemma_same_but_timing_intro(g: EGraph, n: u128)
    ensures
        g.same_but_timing(EGraph { rebuild_nanos: n, ..g }),
{
}

/// Finding is idempotent: the canonical placement of a canonical
/// placement is itself.
pub proof fn law_find_idempotent(g: EGraph, x: Id, y: Id)
    requires
        g.wf(),
        g.valid(x),
        g.valid(y),
        y.lift_spec()@ == g.canon(x).0,
        y.raw_spec() == g.canon(x).1,
    ensures
        g.canon(y) == g.canon(x),
{
    reveal(EGraph::wf);
    crate::unionfind::lemma_find_valid(g.parent@, g.rank@, g.rank_bound@, x);
    crate::unionfind::lemma_find_root(g.parent@, g.rank@, g.rank_bound@, y);
}

/// E-graphs that differ at most in their rebuild time have the same
/// classes, placements, hash-consed e-nodes and symbols.
pub proof fn law_same_but_timing(g1: EGraph, g2: EGraph)
    requires
        g1.same_but_timing(g2),
    ensures
        g1.len() == g2.len(),
        g1.node_len() == g2.node_len(),
        g1.symbols_len() == g2.symbols_len(),
        g1.rebuilt() == g2.rebuilt(),
        forall|x: Id| #[trigger] g2.valid(x) == g1.valid(x),
        forall|x: Id| #[trigger] g2.canon(x) == g1.canon(x),
{
    reveal(EGraph::wf);
}

pub(crate) proof fn lemma_egraph_specs(g: EGraph)
    ensures
        g.wf() == wf_body(g),
        g.len() == g.parent@.len(),
        g.node_len() == memo_entries(g.memo).len(),
        g.symbols_len() == g.symbols@.len(),
        g.symbols_view() == g.symbols@.map_values(|s: String| s@),
        forall|r: int| #[trigger] g.class_ctx(r) == ctx_at(g.parent@, r),
        forall|r: int| #[trigger] g.is_root_class(r) == is_root(g.parent@, r),
        forall|x: Id| #[trigger] g.valid(x) == id_valid(g.parent@, x),
        forall|x: Id| #[trigger] g.canon(x) == find_spec(g.parent@, g.rank@, g.rank_bound@, x),
        forall|r: int| #[trigger] g.class_root(r) == walk(g.parent@, g.rank@, g.rank_bound@, r),
        forall|o: EGraph| #[trigger] g.same_symbols(o) == (g.symbols == o.symbols),
        forall|o: EGraph| #[trigger] g.same_tables(o) == (g.memo == o.memo && g.symbols == o.symbols
            && g.rev_tracked == o.rev_tracked),
        g.rebuilt() == g.rev_valid,
{
    reveal(EGraph::wf);
}

} // verus!
