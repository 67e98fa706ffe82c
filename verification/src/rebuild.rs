//! Rebuilding: restoring congruence after unions by re-canonicalizing every
//! hash-consed e-node, and rebuilding the reverse index.
use vstd::prelude::*;
use crate::seqs::{count_true, lemma_compose_count, lemma_count_all_true, lemma_count_le_len};
use crate::lift::{Lift, all_true, lemma_lift_len};
use crate::id::{Id, RAW_MASK, lemma_id_lift_inv, lemma_id_eq};
use crate::memo::{Memo, NodeKey, memo_entries, memo_len, memo_get_index, memo_get, memo_take, has_key};
use crate::unionfind::{ctx_at, id_valid, is_root, walk};
use crate::egraph::{EGraph, Node, node_ok, key_node, key_of, node_of, node_key, wf_body, lemma_egraph_specs, lemma_node_ok_extend, lemma_extends_trans, lemma_node_ctx_unique, memo_canonical, canonical_form, lemma_canonical_idempotent, lemma_canonical_transfer, lemma_memo_canonical_transfer};
use crate::clock::{clock_start, nanos_since};
use crate::keeping::{class_id, stood_for, kept, node_at_ok, rev_filed, rev_entry_ok, lemma_rev_members_intro, rev_slot, rev_holds_in, lemma_rev_complete_intro, lemma_class_id, lemma_rebuilt_node, lemma_kept_self, lemma_kept_extends, lemma_kept_chain, lemma_keeps_nodes};

verus! {

/// Every entry of a reverse index is well formed for `g`.
pub(crate) open spec fn rev_ok(g: EGraph, rev: Seq<Vec<(Node, Lift)>>) -> bool {
    &&& rev.len() == g.parent@.len()
    &&& forall|r: int, k: int|
        0 <= r < rev.len() && 0 <= k < rev[r]@.len() ==> {
            let (node, edge) = #[trigger] rev[r]@[k];
            &&& edge.inv()
            &&& node_ok(g.parent@, g.symbols@.len(), node, edge@.len())
            &&& count_true(edge@) == ctx_at(g.parent@, r)
        }
}

/// Entry `k` of bucket `r` of the index `rev` is hash-consed where it is
/// filed, in `g`.
pub(crate) open spec fn bucket_filed(g: EGraph, rev: Seq<Vec<(Node, Lift)>>, r: int, k: int) -> bool {
    exists|i: int| #[trigger] rev_filed(g, i, r, rev[r]@[k].0, rev[r]@[k].1@)
}

/// Pushing onto one bucket keeps every e-node filed where it was.
proof fn lemma_holds_after_push(g: EGraph, before: Seq<Vec<(Node, Lift)>>, after: Seq<Vec<(Node, Lift)>>, target: int, e: (Node, Lift), j: int)
    requires
        0 <= target < before.len(),
        after == before.update(target, after[target]),
        after[target]@ == before[target]@.push(e),
        0 <= j < memo_entries(g.memo).len(),
    ensures
        rev_holds_in(g, before, j) ==> rev_holds_in(g, after, j),
{
    if rev_holds_in(g, before, j) {
        let c = g.canon(class_id(g, memo_entries(g.memo)[j].1 as int));
        let nd = node_of(memo_entries(g.memo)[j].0);
        let k = choose|k: int| #[trigger] rev_slot(before, c.1, k, nd, c.0);
        if c.1 == target {
            assert(after[c.1]@[k] == before[c.1]@[k]);
        } else {
            assert(after[c.1] == before[c.1]);
        }
        assert(rev_slot(after, c.1, k, nd, c.0));
    }
}

/// The hash-consed e-node of entry `i`, filed under the root of its class
/// with the lift to that root, is hash-consed where it is filed.
proof fn lemma_filed_at_root(g: EGraph, i: int, edge: Id)
    requires
        g.wf(),
        0 <= i < memo_entries(g.memo).len(),
        edge.raw_spec() == g.canon(class_id(g, memo_entries(g.memo)[i].1 as int)).1,
        edge.lift_spec()@ == g.canon(class_id(g, memo_entries(g.memo)[i].1 as int)).0,
        g.is_root_class(edge.raw_spec() as int),
        g.valid(edge),
        edge.inv(),
    ensures
        rev_filed(g, i, edge.raw_spec() as int, node_of(memo_entries(g.memo)[i].0), edge.lift_spec()@),
{
    lemma_egraph_specs(g);
    let (k, raw) = memo_entries(g.memo)[i];
    let r = edge.raw_spec() as int;
    let l = edge.lift_spec()@;
    assert((raw as int) < g.parent@.len());
    lemma_class_id(g, raw as int);
    lemma_class_id(g, r);
    crate::unionfind::lemma_walk(g.parent@, g.rank@, g.rank_bound@, r);
    lemma_id_lift_inv(edge);
    crate::keeping::lemma_place(g, class_id(g, r), l);
    crate::lift_laws::law_compose_identity_right(l);
}

impl EGraph {
    /// Rebuild the reverse index from the hash-cons table: each e-node is
    /// filed under its canonical class, with the lift from its own context.
    pub(crate) fn reindex(&mut self)
        requires
            old(self).wf(),
            memo_canonical(*old(self)),
        ensures
            final(self).wf(),
            final(self).parent == old(self).parent,
            final(self).rank == old(self).rank,
            final(self).rank_bound == old(self).rank_bound,
            final(self).memo == old(self).memo,
            final(self).symbols == old(self).symbols,
            final(self).rebuild_nanos == old(self).rebuild_nanos,
            final(self).rev_tracked,
            final(self).rev_valid,
    {
        proof {
            lemma_egraph_specs(*self);
        }
        let len = self.parent.len();
        let mut fresh: Vec<Vec<(Node, Lift)>> = Vec::new();
        while fresh.len() < len
            invariant
                fresh@.len() <= len,
                len == self.parent@.len(),
                forall|r: int| 0 <= r < fresh@.len() ==> (#[trigger] fresh@[r])@.len() == 0,
            decreases len - fresh@.len(),
        {
            fresh.push(Vec::new());
        }
        proof {
            assert(rev_ok(*self, fresh@));
        }
        let n = memo_len(&self.memo);
        let mut i: usize = 0;
        while i < n
            invariant
                self.wf(),
                wf_body(*self),
                n == memo_entries(self.memo).len(),
                i <= n,
                rev_ok(*self, fresh@),
                forall|r: int, k: int| 0 <= r < fresh@.len() && 0 <= k < fresh@[r]@.len() ==> #[trigger] bucket_filed(*self, fresh@, r, k),
                forall|j: int| 0 <= j < i ==> #[trigger] rev_holds_in(*self, fresh@, j),
                forall|x: Id| #[trigger] self.valid(x) == id_valid(self.parent@, x),
                forall|r: int| #[trigger] self.class_ctx(r) == ctx_at(self.parent@, r),
                self.len() == self.parent@.len(),
            decreases n - i,
        {
            let entry = memo_get_index(&self.memo, i);
            match entry {
                Some((key, raw)) => {
                    proof {
                        let _ = memo_entries(self.memo)[i as int];
                    }
                    let origin = self.origin(raw);
                    let edge = self.find(&origin);
                    let node = key_node(&key);
                    let l = edge.lift();
                    proof {
                        use_type_invariant(&l);
                    }
                    let target = edge.raw() as usize;
                    let ghost before = fresh@;
                    let mut bucket: Vec<(Node, Lift)> = Vec::new();
                    fresh.set_and_swap(target, &mut bucket);
                    let ghost bucket0 = bucket@;
                    bucket.push((node, l));
                    fresh.set(target, bucket);
                    proof {
                        use_type_invariant(&origin);
                        use_type_invariant(&edge);
                        assert(self.canon(origin) == self.canon(class_id(*self, raw as int))) by {
                            lemma_class_id(*self, raw as int);
                            lemma_egraph_specs(*self);
                            lemma_id_eq(origin, class_id(*self, raw as int));
                        }
                        lemma_filed_at_root(*self, i as int, edge);
                        assert forall|r: int, k: int| 0 <= r < fresh@.len() && 0 <= k < fresh@[r]@.len() implies #[trigger] bucket_filed(*self, fresh@, r, k) by {
                            if r == target as int {
                                if k < bucket0.len() {
                                    assert(fresh@[r]@[k] == before[r]@[k]);
                                    assert(bucket_filed(*self, before, r, k));
                                    let j = choose|j: int| #[trigger] rev_filed(*self, j, r, before[r]@[k].0, before[r]@[k].1@);
                                    assert(rev_filed(*self, j, r, fresh@[r]@[k].0, fresh@[r]@[k].1@));
                                } else {
                                    assert(fresh@[r]@[k] == (node, l));
                                    assert(rev_filed(*self, i as int, r, fresh@[r]@[k].0, fresh@[r]@[k].1@));
                                }
                            } else {
                                assert(fresh@[r] == before[r]);
                                assert(bucket_filed(*self, before, r, k));
                            }
                        }
                        assert forall|r: int, k: int|
                            0 <= r < fresh@.len() && 0 <= k < fresh@[r]@.len() implies {
                                let (nd, e) = #[trigger] fresh@[r]@[k];
                                &&& e.inv()
                                &&& node_ok(self.parent@, self.symbols@.len(), nd, e@.len())
                                &&& count_true(e@) == ctx_at(self.parent@, r)
                            } by {
                            if r == target as int {
                                if k < bucket0.len() {
                                    assert(fresh@[r]@[k] == before[r]@[k]);
                                }
                            } else {
                                assert(fresh@[r] == before[r]);
                            }
                        }
                        assert(fresh@ == before.update(target as int, fresh@[target as int]));
                        assert(fresh@[target as int]@ == before[target as int]@.push((node, l)));
                        assert forall|j: int| 0 <= j < i + 1 implies #[trigger] rev_holds_in(*self, fresh@, j) by {
                            lemma_holds_after_push(*self, before, fresh@, target as int, (node, l), j);
                            if j == i {
                                assert(rev_slot(fresh@, target as int, before[target as int]@.len() as int, node, l@));
                            }
                        }
                    }
                },
                None => {},
            }
            i = i + 1;
        }
        let ghost s1 = *self;
        self.rev = fresh;
        self.rev_tracked = true;
        self.rev_valid = true;
        proof {
            lemma_egraph_specs(s1);
            lemma_egraph_specs(*self);
            assert forall|r: int, k: int| 0 <= r < self.rev@.len() && 0 <= k < self.rev@[r]@.len() implies #[trigger] rev_entry_ok(*self, r, k) by {
                assert(bucket_filed(s1, self.rev@, r, k));
                let j = choose|j: int| #[trigger] rev_filed(s1, j, r, self.rev@[r]@[k].0, self.rev@[r]@[k].1@);
                assert(forall|x: Id| #[trigger] s1.canon(x) == self.canon(x));
                assert(rev_filed(*self, j, r, self.rev@[r]@[k].0, self.rev@[r]@[k].1@));
            }
            lemma_rev_members_intro(*self);
            assert forall|j: int| 0 <= j < memo_entries(self.memo).len() implies #[trigger] rev_holds_in(*self, self.rev@, j) by {
                assert(rev_holds_in(s1, self.rev@, j));
                let c = s1.canon(class_id(s1, memo_entries(s1.memo)[j].1 as int));
                let k = choose|k: int| #[trigger] rev_slot(self.rev@, c.1, k, node_of(memo_entries(s1.memo)[j].0), c.0);
                assert(forall|x: Id| #[trigger] s1.canon(x) == self.canon(x));
                assert(class_id(s1, memo_entries(s1.memo)[j].1 as int) == class_id(*self, memo_entries(self.memo)[j].1 as int));
                assert(self.canon(class_id(*self, memo_entries(self.memo)[j].1 as int)) == c);
                assert(rev_slot(self.rev@, c.1, k, node_of(memo_entries(self.memo)[j].0), c.0));
            }
            lemma_rev_complete_intro(*self);
        }
    }
}


/// The taken entries are well formed for `g`.
pub(crate) open spec fn entries_ok(g: EGraph, entries: Seq<(NodeKey, u32)>) -> bool {
    forall|i: int|
        0 <= i < entries.len() ==> {
            let (k, raw) = #[trigger] entries[i];
            &&& (raw as int) < g.parent@.len()
            &&& key_of(node_of(k)) == k
            &&& node_ok(g.parent@, g.symbols@.len(), node_of(k), ctx_at(g.parent@, raw as int))
        }
}

/// Well-formed entries stay well formed as the e-graph extends.
proof fn lemma_entries_extend(g1: EGraph, g2: EGraph, entries: Seq<(NodeKey, u32)>)
    requires
        entries_ok(g1, entries),
        g1.extends(g2),
        g2.symbols == g1.symbols,
    ensures
        entries_ok(g2, entries),
{
    lemma_egraph_specs(g1);
    lemma_egraph_specs(g2);
    assert forall|i: int| 0 <= i < g1.parent@.len() implies ctx_at(g2.parent@, i) == ctx_at(g1.parent@, i) by {
        assert(g2.class_ctx(i) == g1.class_ctx(i));
    }
    assert forall|i: int| 0 <= i < entries.len() implies {
        let (k, raw) = #[trigger] entries[i];
        &&& (raw as int) < g2.parent@.len()
        &&& key_of(node_of(k)) == k
        &&& node_ok(g2.parent@, g2.symbols@.len(), node_of(k), ctx_at(g2.parent@, raw as int))
    } by {
        let (k, raw) = entries[i];
        lemma_node_ok_extend(g1.parent@, g2.parent@, g1.symbols@.len(), node_of(k), ctx_at(g1.parent@, raw as int));
    }
}

/// One step of a rebuild pass: what the taken table keeps of the table at
/// the start carries over, and the entry just re-canonicalized joins the
/// entries kept by the growing table.
proof fn lemma_pass_step(
    before: EGraph,
    after: EGraph,
    m0: Seq<(NodeKey, u32)>,
    t: Seq<(NodeKey, u32)>,
    i: int,
)
    requires
        before.wf(),
        after.wf(),
        before.extends(after),
        after.symbols == before.symbols,
        0 <= i < t.len(),
        entries_ok(after, t),
        kept(before, m0, m0.len() as int, t),
        kept(before, t, i, memo_entries(before.memo)),
        memo_entries(before.memo).len() <= memo_entries(after.memo).len(),
        forall|k: int| 0 <= k < memo_entries(before.memo).len()
            ==> #[trigger] memo_entries(after.memo)[k] == memo_entries(before.memo)[k],
        stood_for(after, memo_entries(after.memo), node_of(t[i].0), class_id(after, t[i].1 as int)),
    ensures
        kept(after, m0, m0.len() as int, t),
        kept(after, t, i + 1, memo_entries(after.memo)),
{
    lemma_kept_extends(before, after, m0, m0.len() as int, t, t);
    lemma_kept_extends(before, after, t, i, memo_entries(before.memo), memo_entries(after.memo));
    let (k, r) = t[i];
    lemma_class_id(after, r as int);
    assert(node_at_ok(after, node_of(k), class_id(after, r as int)));
}

impl EGraph {
    /// Re-canonicalize one taken e-node: hash-cons its canonical form and
    /// union its old class with the canonical form's class. Returns whether
    /// the union changed anything, and whether the e-node's form changed.
    #[verifier::spinoff_prover]
    #[verifier::rlimit(100)]
    fn rebuild_node(&mut self, key: NodeKey, raw: u32) -> (r: (bool, bool))
        requires
            old(self).wf(),
            old(self).len() + 2 <= RAW_MASK,
            (raw as int) < old(self).len(),
            key_of(node_of(key)) == key,
            node_ok(old(self).parent@, old(self).symbols@.len(), node_of(key), old(self).class_ctx(raw as int)),
            !old(self).rev_valid,
        ensures
            final(self).wf(),
            old(self).extends(*final(self)),
            final(self).len() <= old(self).len() + 2,
            final(self).symbols == old(self).symbols,
            final(self).rev_tracked == old(self).rev_tracked,
            !final(self).rev_valid,
            !r.0 && memo_canonical(*old(self)) ==> memo_canonical(*final(self)),
            memo_entries(old(self).memo).len() <= memo_entries(final(self).memo).len(),
            forall|k: int| 0 <= k < memo_entries(old(self).memo).len()
                ==> #[trigger] memo_entries(final(self).memo)[k] == memo_entries(old(self).memo)[k],
            stood_for(*final(self), memo_entries(final(self).memo), node_of(key), class_id(*final(self), raw as int)),
    {
        proof {
            lemma_egraph_specs(*self);
        }
        let ghost s0 = *self;
        let node = key_node(&key);
        let raw_scope = self.parent[raw as usize].ctx();
        proof {
            let _ = self.rank@[raw as int];
            lemma_id_lift_inv(self.parent@[raw as int]);
        }
        let ident = Lift::identity(raw_scope);
        let old_id = Id::new(ident, raw);
        proof {
            lemma_count_all_true(raw_scope as nat);
            assert(self.valid(old_id));
        }
        let (lift, canonical) = self.canonical_node(&node, Ghost(raw_scope as nat));
        let form_changed = lift != ident || canonical != node;
        proof {
            use_type_invariant(&lift);
            lemma_count_le_len(lift@);
        }
        let ckey = node_key(&canonical);
        let ghost mut target: int = 0;
        let ghost mut jj: int = 0;
        let base = match memo_get(&self.memo, &ckey) {
            Some(existing) => {
                proof {
                    let entries = memo_entries(self.memo);
                    let j = choose|j: int| 0 <= j < entries.len() && #[trigger] entries[j] == (ckey, existing);
                    let _ = entries[j];
                    lemma_node_ctx_unique(self.parent@, self.symbols@.len(), canonical, count_true(lift@), ctx_at(self.parent@, existing as int));
                    lemma_count_all_true(lift@.len());
                    lemma_count_all_true(count_true(lift@));
                    jj = j;
                    target = existing as int;
                }
                let start = Id::new(Lift::identity(lift.dom()), existing);
                let found = self.find(&start);
                proof {
                    use_type_invariant(&start);
                    lemma_class_id(*self, existing as int);
                    lemma_id_eq(start, class_id(*self, existing as int));
                    lemma_egraph_specs(*self);
                    crate::egraph::lemma_canon_root_id(*self, found);
                }
                found
            },
            None => {
                if lift == ident {
                    proof {
                        lemma_count_all_true(raw_scope as nat);
                    }
                    self.add_memo_entry(ckey, raw, canonical);
                    proof {
                        lemma_egraph_specs(*self);
                        assert(s0.extends(*self));
                        jj = memo_entries(s0.memo).len() as int;
                        target = raw as int;
                        use_type_invariant(&old_id);
                        lemma_class_id(*self, raw as int);
                        lemma_id_eq(old_id, class_id(*self, raw as int));
                        if memo_canonical(s0) {
                            lemma_egraph_specs(s0);
                            lemma_canonical_idempotent(s0, node, lift@, canonical);
                            lemma_count_all_true(raw_scope as nat);
                            assert forall|x: Id| id_valid(s0.parent@, x) implies #[trigger] self.canon(x) == s0.canon(x) by {}
                            lemma_canonical_transfer(s0, *self, canonical, count_true(lift@), all_true(count_true(lift@)), canonical);
                            let e0 = memo_entries(s0.memo);
                            let e1 = memo_entries(self.memo);
                            assert forall|i: int| 0 <= i < e1.len() implies {
                                let (k, r) = #[trigger] e1[i];
                                canonical_form(*self, node_of(k), all_true(ctx_at(self.parent@, r as int)), node_of(k))
                            } by {
                                if i < e0.len() {
                                    let _ = e0[i];
                                    let (k, r) = e0[i];
                                    lemma_canonical_transfer(s0, *self, node_of(k), ctx_at(s0.parent@, r as int), all_true(ctx_at(s0.parent@, r as int)), node_of(k));
                                }
                            }
                        }
                    }
                    old_id
                } else {
                    let fresh = self.make_set(lift.dom());
                    let ghost s1 = *self;
                    proof {
                        lemma_egraph_specs(*self);
                        lemma_count_all_true(count_true(lift@));
                        assert forall|i: int| 0 <= i < s0.parent@.len() implies ctx_at(s1.parent@, i) == ctx_at(s0.parent@, i) by {
                            assert(s1.parent@[i] == s0.parent@[i]);
                        }
                        lemma_node_ok_extend(s0.parent@, s1.parent@, s1.symbols@.len(), canonical, count_true(lift@));
                    }
                    self.add_memo_entry(ckey, fresh.raw(), canonical);
                    proof {
                        lemma_egraph_specs(*self);
                        assert(s1.extends(*self));
                        jj = memo_entries(s0.memo).len() as int;
                        target = fresh.raw_spec() as int;
                        use_type_invariant(&fresh);
                        lemma_class_id(*self, target);
                        lemma_id_eq(fresh, class_id(*self, target));
                        lemma_extends_trans(s0, s1, *self);
                        if memo_canonical(s0) {
                            lemma_egraph_specs(s0);
                            lemma_canonical_idempotent(s0, node, lift@, canonical);
                            assert forall|x: Id| id_valid(s0.parent@, x) implies #[trigger] self.canon(x) == s0.canon(x) by {
                                assert(s0.valid(x));
                                assert(s1.canon(x) == s0.canon(x));
                            }
                            lemma_canonical_transfer(s0, *self, canonical, count_true(lift@), all_true(count_true(lift@)), canonical);
                            let e0 = memo_entries(s0.memo);
                            let e1 = memo_entries(self.memo);
                            assert forall|i: int| 0 <= i < e1.len() implies {
                                let (k, r) = #[trigger] e1[i];
                                canonical_form(*self, node_of(k), all_true(ctx_at(self.parent@, r as int)), node_of(k))
                            } by {
                                if i < e0.len() {
                                    let _ = e0[i];
                                    let (k, r) = e0[i];
                                    assert(ctx_at(self.parent@, r as int) == ctx_at(s0.parent@, r as int)) by {
                                        assert(self.parent@[r as int] == s0.parent@[r as int]);
                                    }
                                    lemma_canonical_transfer(s0, *self, node_of(k), ctx_at(s0.parent@, r as int), all_true(ctx_at(s0.parent@, r as int)), node_of(k));
                                }
                            }
                        }
                    }
                    fresh
                }
            },
        };
        let ghost s2 = *self;
        proof {
            lemma_egraph_specs(*self);
            use_type_invariant(&base);
            lemma_compose_count(lift@, base.lift_spec()@);
            assert(s0.valid(old_id));
            assert(self.valid(old_id));
        }
        let placed = base.weaken(&lift);
        let changed = self.union(&old_id, &placed);
        proof {
            lemma_egraph_specs(s2);
            lemma_egraph_specs(*self);
            lemma_extends_trans(s0, s2, *self);
            use_type_invariant(&placed);
            use_type_invariant(&old_id);
            lemma_class_id(s0, raw as int);
            lemma_id_eq(old_id, class_id(s0, raw as int));
            lemma_rebuilt_node(s0, s2, *self, node, raw as int, lift@, canonical, base, placed, target, jj);
        }
        (changed, form_changed)
    }

    /// Restore congruence: repeatedly re-canonicalize every hash-consed
    /// e-node until a pass changes nothing, then rebuild the reverse index.
    /// Returns whether anything changed. A pass starts only while there is
    /// room for the classes it may create.
    pub(crate) fn rebuild_inner(&mut self) -> (changed: bool)
        requires
            old(self).wf(),
        ensures
            final(self).wf(),
            old(self).extends(*final(self)),
            final(self).symbols == old(self).symbols,
            kept(*final(self), memo_entries(old(self).memo), memo_entries(old(self).memo).len() as int,
                memo_entries(final(self).memo)),
            !changed ==> final(self).rev_valid || final(self).len() + 2 * final(self).node_len() > RAW_MASK,
            old(self).rev_valid ==> !changed && *final(self) == *old(self),
            memo_entries(old(self).memo).len() == 0 ==> final(self).len() == old(self).len()
                && memo_entries(final(self).memo).len() == 0,
    {
        let ghost m0 = memo_entries(self.memo);
        proof {
            lemma_egraph_specs(*self);
            assert forall|i: int| 0 <= i < m0.len() implies {
                let (k, r) = #[trigger] m0[i];
                &&& (r as int) < self.parent@.len()
                &&& node_ok(self.parent@, self.symbols@.len(), node_of(k), ctx_at(self.parent@, r as int))
            } by {
                let _ = m0[i];
            }
            lemma_kept_self(*self, m0);
        }
        if self.rev_valid {
            return false;
        }
        let mut any_changed = false;
        let mut fuel: u64 = u64::MAX;
        while fuel > 0
            invariant
                !self.rev_valid,
                !old(self).rev_valid,
                self.wf(),
                old(self).extends(*self),
                self.symbols == old(self).symbols,
                m0 == memo_entries(old(self).memo),
                kept(*self, m0, m0.len() as int, memo_entries(self.memo)),
                fuel < u64::MAX ==> any_changed,
                m0.len() == 0 ==> self.len() == old(self).len() && memo_entries(self.memo).len() == 0,
            decreases fuel,
        {
            fuel = fuel - 1;
            proof {
                lemma_egraph_specs(*self);
            }
            let len = self.parent.len();
            let n = memo_len(&self.memo);
            if len > RAW_MASK as usize || n > (RAW_MASK as usize - len) / 2 {
                return any_changed;
            }
            let ghost round = *self;
            let nodes = memo_take(&mut self.memo);
            proof {
                lemma_egraph_specs(*self);
                assert(wf_body(*self));
                assert(round.extends(*self));
                assert(entries_ok(*self, memo_entries(nodes))) by {
                    assert forall|i: int| 0 <= i < memo_entries(nodes).len() implies {
                        let (k, raw) = #[trigger] memo_entries(nodes)[i];
                        &&& (raw as int) < self.parent@.len()
                        &&& key_of(node_of(k)) == k
                        &&& node_ok(self.parent@, self.symbols@.len(), node_of(k), ctx_at(self.parent@, raw as int))
                    } by {
                        let _ = memo_entries(round.memo)[i];
                    }
                }
                lemma_extends_trans(*old(self), round, *self);
                lemma_kept_extends(round, *self, m0, m0.len() as int, memo_entries(nodes), memo_entries(nodes));
            }
            let mut changed = false;
            let mut i: usize = 0;
            proof {
                assert(memo_entries(self.memo).len() == 0);
            }
            while i < n
                invariant
                    self.wf(),
                    old(self).extends(*self),
                    self.symbols == old(self).symbols,
                    n == memo_entries(nodes).len(),
                    !self.rev_valid,
                    !changed ==> memo_canonical(*self),
                    i <= n,
                    entries_ok(*self, memo_entries(nodes)),
                    self.len() + 2 * (n - i) <= RAW_MASK,
                    m0 == memo_entries(old(self).memo),
                    kept(*self, m0, m0.len() as int, memo_entries(nodes)),
                    kept(*self, memo_entries(nodes), i as int, memo_entries(self.memo)),
                    m0.len() == 0 ==> self.len() == old(self).len() && memo_entries(self.memo).len() == 0,
                    m0.len() == 0 ==> n == 0 && round.len() == old(self).len(),
                decreases n - i,
            {
                let entry = memo_get_index(&nodes, i);
                let (key, raw) = match entry {
                    Some(e) => e,
                    None => {
                        proof {
                            assert(false);
                        }
                        (node_key(&Node::Var), 0u32)
                    },
                };
                proof {
                    let _ = memo_entries(nodes)[i as int];
                    lemma_egraph_specs(*self);
                }
                let ghost before = *self;
                let (unioned, form_changed) = self.rebuild_node(key, raw);
                proof {
                    lemma_extends_trans(*old(self), before, *self);
                    lemma_entries_extend(before, *self, memo_entries(nodes));
                    lemma_pass_step(before, *self, m0, memo_entries(nodes), i as int);
                }
                if form_changed {
                    any_changed = true;
                }
                if unioned {
                    changed = true;
                }
                i = i + 1;
            }
            proof {
                lemma_kept_chain(*self, m0, m0.len() as int, memo_entries(nodes), memo_entries(self.memo));
            }
            if changed {
                any_changed = true;
            } else {
                let ghost before = *self;
                self.reindex();
                proof {
                    lemma_egraph_specs(before);
                    lemma_egraph_specs(*self);
                    assert(before.extends(*self));
                    lemma_extends_trans(*old(self), before, *self);
                    lemma_kept_extends(before, *self, m0, m0.len() as int, memo_entries(before.memo), memo_entries(self.memo));
                }
                return any_changed;
            }
        }
        any_changed
    }

    /// Rebuild, and add the time it took to the running total.
    #[verifier::spinoff_prover]
    #[verifier::rlimit(40)]
    pub fn rebuild(&mut self) -> (changed: bool)
        requires
            old(self).wf(),
        ensures
            final(self).wf(),
            old(self).extends(*final(self)),
            final(self).same_symbols(*old(self)),
            old(self).keeps_nodes(*final(self)),
            old(self).holds_within(*final(self)),
            !changed ==> final(self).rebuilt() || final(self).len() + 2 * final(self).node_len() > RAW_MASK,
            old(self).rebuilt() ==> !changed && old(self).same_but_timing(*final(self)),
            old(self).node_len() == 0 ==> final(self).len() == old(self).len() && final(self).node_len() == 0,
    {
        let start = clock_start();
        let changed = self.rebuild_inner();
        let ghost mid = *self;
        let spent = nanos_since(&start);
        self.rebuild_nanos = self.rebuild_nanos.saturating_add(spent);
        proof {
            if old(self).rebuilt() {
                lemma_egraph_specs(*old(self));
                assert(mid == *old(self));
                crate::egraph::lemma_same_but_timing_intro(mid, self.rebuild_nanos);
                assert(*self == EGraph { rebuild_nanos: self.rebuild_nanos, ..mid });
            }
        }
        proof {
            lemma_egraph_specs(mid);
            lemma_egraph_specs(*self);
            lemma_egraph_specs(*old(self));
            crate::keeping::lemma_rev_members_same(mid, *self);
            assert(wf_body(*self) == wf_body(mid));
            assert(mid.extends(*self));
            lemma_extends_trans(*old(self), mid, *self);
            assert(self.same_symbols(*old(self)));
            let m0 = memo_entries(old(self).memo);
            lemma_kept_extends(mid, *self, m0, m0.len() as int, memo_entries(mid.memo), memo_entries(self.memo));
            lemma_keeps_nodes(*old(self), *self);
            crate::holds::lemma_holds_within_rebuild(*old(self), *self);
        }
        changed
    }
}

} // verus!
