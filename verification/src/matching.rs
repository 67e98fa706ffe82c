//! E-matching: the e-nodes of a class, the placements of a stored e-node
//! inside a class, and matching patterns against classes.
use vstd::prelude::*;
use crate::seqs::{count_true, compose_seq, lemma_compose_count, lemma_count_all_true, lemma_count_le_len};
use crate::seqs::{rank, subset_seq, lemma_rank_surjective, lemma_rank_injective, lemma_rank_monotone, lemma_rank_selected};
use crate::lift::{Lift, all_true, single_true, lemma_lift_len, lemma_count_push, selected_seq};
use crate::lift_laws::law_compose_identity_right;
use crate::id::{Id, lemma_id_lift_inv, lemma_id_eq};
use crate::memo::{memo_entries, memo_len, memo_get_index};
use crate::unionfind::{ctx_at, id_valid, is_root, walk, lemma_walk};
use crate::lift_laws::law_compose_identity_left;
use crate::lift::lemma_view_injective;
use crate::id::RAW_MASK;
use crate::egraph::{EGraph, Node, node_ok, key_node, key_of, node_of, wf_body, lemma_egraph_specs};
use crate::terms::{Pattern, match_check, pattern_height};
use crate::occurrence::{pattern_occurrence_lift, occurrence_seq};
use crate::terms::{all_bvars, bvar_indices, miller_ordered};
use crate::keeping::{class_id, place, in_class, placed_at, lemma_class_id, lemma_place, lemma_placed_from_root, lemma_in_class_rev};
use crate::keeping::{rev_slot, lemma_placed_to_root};
use crate::holds::{atom_named, atom_at, no_flags, lemma_atom_placement, lemma_atom_entry, lemma_var_placement};

verus! {

/// Bindings of metavariables to fat IDs, in the order they were made.
#[derive(Clone, Debug)]
pub struct Subst {
    pub(crate) entries: Vec<(String, Id)>,
}

impl View for Subst {
    type V = Seq<(Seq<char>, Id)>;

    closed spec fn view(&self) -> Seq<(Seq<char>, Id)> {
        Seq::new(self.entries@.len(), |i: int| (self.entries@[i].0@, self.entries@[i].1))
    }
}

/// The first binding of `name`.
pub open spec fn subst_lookup(s: Seq<(Seq<char>, Id)>, name: Seq<char>) -> Option<Id>
    decreases s.len(),
{
    if s.len() == 0 {
        None
    } else if s[0].0 == name {
        Some(s[0].1)
    } else {
        subst_lookup(s.drop_first(), name)
    }
}

/// Every binding names a class of `g`.
pub open spec fn subst_ok(g: EGraph, s: Seq<(Seq<char>, Id)>) -> bool {
    forall|i: int| 0 <= i < s.len() ==> #[trigger] g.valid(s[i].1)
}

/// Every substitution of a list is `subst_ok`.
pub open spec fn substs_ok(g: EGraph, v: Seq<Subst>) -> bool {
    forall|i: int| 0 <= i < v.len() ==> subst_ok(g, #[trigger] v[i]@)
}

impl Default for Subst {
    fn default() -> (r: Subst)
        ensures
            r@ == Seq::<(Seq<char>, Id)>::empty(),
    {
        let r = Subst { entries: Vec::new() };
        proof {
            assert(r@ =~= Seq::<(Seq<char>, Id)>::empty());
        }
        r
    }
}

impl Subst {
    /// The binding of `name`, if it has one.
    pub fn get(&self, name: &str) -> (r: Option<Id>)
        ensures
            r == subst_lookup(self@, name@),
    {
        let key = String::from_str(name);
        let mut i: usize = 0;
        proof {
            assert(self@.skip(0) =~= self@);
        }
        while i < self.entries.len()
            invariant
                key@ == name@,
                i <= self.entries@.len(),
                self@.len() == self.entries@.len(),
                subst_lookup(self@, name@) == subst_lookup(self@.skip(i as int), name@),
            decreases self.entries@.len() - i,
        {
            proof {
                assert(self@.skip(i as int).drop_first() =~= self@.skip(i + 1));
                assert(self@.skip(i as int)[0] == self@[i as int]);
            }
            if self.entries[i].0 == key {
                return Some(self.entries[i].1);
            }
            i = i + 1;
        }
        proof {
            assert(self@.skip(i as int) =~= Seq::<(Seq<char>, Id)>::empty());
        }
        None
    }

    /// Record a new binding after the existing ones.
    pub(crate) fn insert(&mut self, name: String, binding: Id)
        ensures
            final(self)@ == old(self)@.push((name@, binding)),
    {
        self.entries.push((name, binding));
        proof {
            assert(self@ =~= old(self)@.push((name@, binding)));
        }
    }

    /// The bindings, in the order they were made.
    pub fn bindings(&self) -> (r: &[(String, Id)])
        ensures
            r@.len() == self@.len(),
            forall|i: int| 0 <= i < r@.len() ==> (#[trigger] r@[i]).0@ == self@[i].0 && r@[i].1 == self@[i].1,
    {
        self.entries.as_slice()
    }

    /// A copy with the same bindings.
    pub(crate) fn duplicate(&self) -> (r: Subst)
        ensures
            r@ == self@,
    {
        let mut entries: Vec<(String, Id)> = Vec::new();
        let mut i: usize = 0;
        while i < self.entries.len()
            invariant
                i <= self.entries@.len(),
                entries@.len() == i,
                forall|k: int| 0 <= k < i ==> (#[trigger] entries@[k]).0@ == self.entries@[k].0@
                    && entries@[k].1 == self.entries@[k].1,
            decreases self.entries@.len() - i,
        {
            let name = self.entries[i].0.clone();
            entries.push((name, self.entries[i].1));
            i = i + 1;
        }
        let r = Subst { entries };
        proof {
            assert(r@ =~= self@);
        }
        r
    }
}

/// How e-nodes of a class are enumerated.
#[derive(Clone, Copy, Debug, PartialEq, Eq, Structural)]
pub(crate) enum MatchMode {
    /// One canonical placement of each stored e-node. This is the mode
    /// rewriting uses, so a redundant union-find edge cannot multiply work.
    Canonical,
    /// Every placement admitted by a lift.
    Lifted,
}

/// `w` places a context whose lift into the class is `edge` so that it
/// reaches the class through `target`: `w` composed with `edge` is `target`.
pub open spec fn factors_through(w: Seq<bool>, target: Seq<bool>, edge: Seq<bool>) -> bool {
    &&& w.len() == target.len()
    &&& count_true(w) == edge.len()
    &&& compose_seq(w, edge) == target
}

/// The position of the `k`-th set flag of `w`.
pub(crate) open spec fn pos(w: Seq<bool>, k: int) -> int {
    choose|i: int| 0 <= i < w.len() && w[i] && rank(w, i) == k
}

/// The `k`-th set flag of `w` sits at `pos(w, k)`, and only there.
proof fn lemma_pos(w: Seq<bool>, k: int)
    requires
        0 <= k < count_true(w),
    ensures
        0 <= pos(w, k) < w.len(),
        w[pos(w, k)],
        rank(w, pos(w, k)) == k,
        forall|i: int| 0 <= i < w.len() && w[i] && rank(w, i) == k ==> i == pos(w, k),
{
    lemma_rank_surjective(w, k);
    assert forall|i: int| 0 <= i < w.len() && w[i] && rank(w, i) == k implies i == pos(w, k) by {
        lemma_rank_injective(w, i, pos(w, k));
    }
}

/// Positions of set flags grow with their number.
proof fn lemma_pos_increasing(w: Seq<bool>, a: int, b: int)
    requires
        0 <= a < b < count_true(w),
    ensures
        pos(w, a) < pos(w, b),
{
    lemma_pos(w, a);
    lemma_pos(w, b);
    if pos(w, b) <= pos(w, a) {
        lemma_rank_monotone(w, pos(w, b), pos(w, a));
    }
}

/// The `k`-th set flag leaves room after it for the rest.
proof fn lemma_pos_bound(w: Seq<bool>, k: int)
    requires
        0 <= k < count_true(w),
    ensures
        pos(w, k) + (count_true(w) - k) <= w.len(),
    decreases count_true(w) - k,
{
    lemma_pos(w, k);
    if k + 1 < count_true(w) {
        lemma_pos_bound(w, k + 1);
        lemma_pos_increasing(w, k, k + 1);
    }
}

/// Selecting the positions of all set flags of `w` gives `w`.
proof fn lemma_selected_positions(w: Seq<bool>, chosen: Seq<usize>)
    requires
        w.len() <= usize::MAX,
        chosen.len() == count_true(w),
        forall|k: int| 0 <= k < chosen.len() ==> chosen[k] as int == pos(w, k),
    ensures
        selected_seq(w.len(), chosen) == w,
{
    assert forall|i: int| 0 <= i < w.len() implies selected_seq(w.len(), chosen)[i] == w[i] by {
        let u = i as usize;
        assert(u as int == i);
        if w[i] {
            lemma_rank_selected(w, i);
            let k = rank(w, i) as int;
            lemma_pos(w, k);
            assert(chosen[k] as int == i);
            assert(chosen[k] == u);
            assert(chosen.contains(u));
        }
        if chosen.contains(u) {
            let k = choose|k: int| 0 <= k < chosen.len() && chosen[k] == u;
            lemma_pos(w, k);
        }
    }
    assert(selected_seq(w.len(), chosen) =~= w);
}

/// A `w` that factors through sets, at each of its positions, the flag of
/// `target` to the matching flag of `edge`.
proof fn lemma_factor_flag(w: Seq<bool>, target: Seq<bool>, edge: Seq<bool>, k: int)
    requires
        factors_through(w, target, edge),
        0 <= k < count_true(w),
    ensures
        target[pos(w, k)] == edge[k],
{
    lemma_pos(w, k);
    assert(compose_seq(w, edge)[pos(w, k)] == (w[pos(w, k)] && edge[rank(w, pos(w, k)) as int]));
}

/// `w` is found by the search that has chosen `chosen` so far: its first
/// positions are the chosen ones, and the next lies at `next` or beyond.
pub(crate) open spec fn extends_choice(w: Seq<bool>, chosen: Seq<usize>, next: int) -> bool {
    &&& chosen.len() <= count_true(w)
    &&& forall|k: int| 0 <= k < chosen.len() ==> #[trigger] chosen[k] as int == pos(w, k)
    &&& chosen.len() < count_true(w) ==> pos(w, chosen.len() as int) >= next
}

/// Enumerate the choices of ambient variables for the remaining variables
/// of `edge`'s codomain, in increasing order, keeping those that factor.
fn factor_visit(target: &Lift, edge: &Lift, source: usize, next: usize, chosen: &mut Vec<usize>, out: &mut Vec<Lift>)
    requires
        source <= edge@.len(),
        old(chosen)@.len() == source,
        forall|k: int| 0 <= k < old(chosen)@.len() ==> old(chosen)@[k] < next,
        next <= target@.len(),
        forall|i: int| 0 <= i < old(out)@.len() ==> factors_through((#[trigger] old(out)@[i])@, target@, edge@),
    ensures
        final(chosen)@ == old(chosen)@,
        forall|i: int| 0 <= i < final(out)@.len() ==> factors_through((#[trigger] final(out)@[i])@, target@, edge@),
        old(out)@.len() <= final(out)@.len(),
        forall|i: int| 0 <= i < old(out)@.len() ==> #[trigger] final(out)@[i] == old(out)@[i],
        forall|w: Seq<bool>| factors_through(w, target@, edge@) && #[trigger] extends_choice(w, old(chosen)@, next as int)
            ==> exists|j: int| 0 <= j < final(out)@.len() && final(out)@[j]@ == w,
    decreases edge@.len() - source,
{
    let tc = target.cod();
    let ec = edge.cod();
    if source == ec {
        let by = Lift::selected(tc, chosen.as_slice());
        let ghost out0 = out@;
        proof {
            assert forall|w: Seq<bool>| factors_through(w, target@, edge@) && #[trigger] extends_choice(w, chosen@, next as int)
                implies by@ == w by {
                lemma_lift_len(*target);
                lemma_selected_positions(w, chosen@);
            }
        }
        if by.dom() == ec {
            let composed = by.compose(edge);
            if composed == *target {
                out.push(by);
                proof {
                    assert forall|w: Seq<bool>| factors_through(w, target@, edge@) && #[trigger] extends_choice(w, old(chosen)@, next as int)
                        implies exists|j: int| 0 <= j < out@.len() && out@[j]@ == w by {
                        assert(out@[out0.len() as int]@ == w);
                    }
                }
            } else {
                proof {
                    use_type_invariant(&composed);
                    use_type_invariant(target);
                    assert forall|w: Seq<bool>| factors_through(w, target@, edge@) && #[trigger] extends_choice(w, old(chosen)@, next as int)
                        implies false by {
                        lemma_view_injective(composed, *target);
                    }
                }
            }
        }
        return;
    }
    let remaining = ec - source - 1;
    let limit = if tc >= remaining { tc - remaining } else { 0 };
    let mut index = next;
    while index < limit
        invariant
            source < edge@.len(),
            tc == target@.len(),
            ec == edge@.len(),
            limit <= tc,
            next <= index,
            chosen@ == old(chosen)@,
            old(chosen)@.len() == source,
            forall|k: int| 0 <= k < old(chosen)@.len() ==> old(chosen)@[k] < next,
            forall|i: int| 0 <= i < out@.len() ==> factors_through((#[trigger] out@[i])@, target@, edge@),
            old(out)@.len() <= out@.len(),
            forall|i: int| 0 <= i < old(out)@.len() ==> #[trigger] out@[i] == old(out)@[i],
            limit == if tc >= ec - source - 1 { tc - (ec - source - 1) } else { 0 },
            forall|w: Seq<bool>| factors_through(w, target@, edge@) && #[trigger] extends_choice(w, old(chosen)@, next as int)
                && pos(w, source as int) < index ==> exists|j: int| 0 <= j < out@.len() && out@[j]@ == w,
        decreases limit - index,
    {
        let ghost out1 = out@;
        if target.get(index) == edge.get(source) {
            chosen.push(index);
            proof {
                assert forall|w: Seq<bool>| factors_through(w, target@, edge@) && #[trigger] extends_choice(w, old(chosen)@, next as int)
                    && pos(w, source as int) == index implies extends_choice(w, chosen@, (index + 1) as int) by {
                    assert(chosen@.len() == source + 1);
                    if source + 1 < count_true(w) {
                        lemma_pos_increasing(w, source as int, source + 1);
                    }
                    assert forall|k: int| 0 <= k < chosen@.len() implies #[trigger] chosen@[k] as int == pos(w, k) by {
                        if k < source {
                            assert(chosen@[k] == old(chosen)@[k]);
                        }
                    }
                }
            }
            factor_visit(target, edge, source + 1, index + 1, chosen, out);
            chosen.pop();
            proof {
                assert(chosen@ =~= old(chosen)@);
            }
        } else {
            proof {
                assert forall|w: Seq<bool>| factors_through(w, target@, edge@) && #[trigger] extends_choice(w, old(chosen)@, next as int)
                    implies pos(w, source as int) != index by {
                    if pos(w, source as int) == index {
                        lemma_factor_flag(w, target@, edge@, source as int);
                    }
                }
            }
        }
        proof {
            assert forall|w: Seq<bool>| factors_through(w, target@, edge@) && #[trigger] extends_choice(w, old(chosen)@, next as int)
                && pos(w, source as int) < index + 1 implies exists|j: int| 0 <= j < out@.len() && out@[j]@ == w by {
                if pos(w, source as int) < index {
                    let j = choose|j: int| 0 <= j < out1.len() && out1[j]@ == w;
                    assert(out@[j] == out1[j]);
                }
            }
        }
        index = index + 1;
    }
    proof {
        assert forall|w: Seq<bool>| factors_through(w, target@, edge@) && #[trigger] extends_choice(w, old(chosen)@, next as int)
            implies pos(w, source as int) < index by {
            lemma_pos_bound(w, source as int);
        }
    }
}

/// Every `w` with `w` composed with `edge` equal to `target`. A redundant
/// edge may admit several, one per choice of ambient variables.
pub(crate) fn factor_lifts(target: &Lift, edge: &Lift) -> (r: Vec<Lift>)
    ensures
        forall|i: int| 0 <= i < r@.len() ==> factors_through((#[trigger] r@[i])@, target@, edge@),
        forall|w: Seq<bool>| #[trigger] factors_through(w, target@, edge@)
            ==> exists|j: int| 0 <= j < r@.len() && r@[j]@ == w,
{
    if target.dom() != edge.dom() || edge.cod() > target.cod() {
        proof {
            lemma_lift_len(*target);
            lemma_lift_len(*edge);
            assert forall|w: Seq<bool>| #[trigger] factors_through(w, target@, edge@) implies false by {
                lemma_compose_count(w, edge@);
                lemma_count_le_len(w);
            }
        }
        return Vec::new();
    }
    if edge.is_identity() {
        let mut v: Vec<Lift> = Vec::new();
        v.push(*target);
        proof {
            law_compose_identity_right(target@);
            lemma_count_all_true(edge@.len());
            assert(factors_through(v@[0]@, target@, edge@));
            assert forall|w: Seq<bool>| #[trigger] factors_through(w, target@, edge@)
                implies exists|j: int| 0 <= j < v@.len() && v@[j]@ == w by {
                law_compose_identity_right(w);
                assert(v@[0]@ == w);
            }
        }
        return v;
    }
    let mut out: Vec<Lift> = Vec::new();
    let mut chosen: Vec<usize> = Vec::new();
    proof {
        lemma_lift_len(*target);
        assert forall|w: Seq<bool>| #[trigger] factors_through(w, target@, edge@)
            implies extends_choice(w, chosen@, 0) by {
            if 0 < count_true(w) {
                lemma_pos(w, 0);
            }
        }
    }
    factor_visit(target, edge, 0, 0, &mut chosen, &mut out);
    out
}

/// The e-node entries of a class, each with the lift that places the
/// e-node's own context into the ambient context of `target`.
pub(crate) open spec fn placements_ok(g: EGraph, target: Id, v: Seq<(Node, Lift)>) -> bool {
    forall|i: int| 0 <= i < v.len() ==> {
        let (node, by) = #[trigger] v[i];
        &&& by@.len() == target.ctx_spec()
        &&& node_ok(g.parent@, g.symbols@.len(), node, count_true(by@))
    }
}

/// Every placement of `v` is a hash-consed e-node of `x`'s class.
pub(crate) open spec fn all_in_class(g: EGraph, x: Id, v: Seq<(Node, Lift)>) -> bool {
    forall|j: int| 0 <= j < v.len() ==> #[trigger] in_class(g, x, v[j].0, v[j].1@)
}

/// `by` places the hash-consed e-node of entry `i` into the class of `x`.
pub(crate) open spec fn placement(g: EGraph, x: Id, i: int, by: Seq<bool>) -> bool {
    &&& 0 <= i < memo_entries(g.memo).len()
    &&& by.len() == x.ctx_spec()
    &&& count_true(by) == ctx_at(g.parent@, memo_entries(g.memo)[i].1 as int)
    &&& placed_at(g, i, x, node_of(memo_entries(g.memo)[i].0), by)
}

/// The e-node is a binder named `op`.
pub(crate) open spec fn binder_named(g: EGraph, node: Node, op: Seq<char>) -> bool {
    node matches Node::Binder(sym, _) && (sym as int) < g.symbols@.len() && g.symbols@[sym as int]@ == op
}

/// The body of a listed binder, placed in the class's context extended by
/// the bound variable.
pub(crate) open spec fn item_body(item: (Node, Lift)) -> Id {
    place(item.0->Binder_1, item.1@.push(true))
}

/// `v` holds the e-node `node`, and in `Lifted` mode holds it placed
/// through `by`.
pub(crate) open spec fn lists(v: Seq<(Node, Lift)>, node: Node, by: Seq<bool>, mode: MatchMode) -> bool {
    exists|j: int| 0 <= j < v.len() && v[j].0 == node && (mode == MatchMode::Lifted ==> v[j].1@ == by)
}

/// What a sequence lists, a longer one with it as prefix lists too.
proof fn lemma_lists_grow(v: Seq<(Node, Lift)>, v2: Seq<(Node, Lift)>, node: Node, by: Seq<bool>, mode: MatchMode)
    requires
        v.len() <= v2.len(),
        forall|j: int| 0 <= j < v.len() ==> #[trigger] v2[j] == v[j],
        lists(v, node, by, mode),
    ensures
        lists(v2, node, by, mode),
{
    let j = choose|j: int| 0 <= j < v.len() && v[j].0 == node && (mode == MatchMode::Lifted ==> v[j].1@ == by);
    assert(v2[j] == v[j]);
}

/// Once the first `limit` factorings are listed with `node`, every
/// factoring is listed as `mode` asks.
proof fn lemma_factors_listed(v: Seq<(Node, Lift)>, node: Node, target: Seq<bool>, edge: Seq<bool>, factors: Seq<Lift>, limit: int, mode: MatchMode)
    requires
        limit == if mode == MatchMode::Canonical && factors.len() > 0 { 1 } else { factors.len() as int },
        forall|k3: int| 0 <= k3 < limit ==> lists(v, node, (#[trigger] factors[k3])@, MatchMode::Lifted),
        forall|w: Seq<bool>| #[trigger] factors_through(w, target, edge)
            ==> exists|jj: int| 0 <= jj < factors.len() && factors[jj]@ == w,
    ensures
        forall|w: Seq<bool>| #[trigger] factors_through(w, target, edge) ==> lists(v, node, w, mode),
{
    assert forall|w: Seq<bool>| #[trigger] factors_through(w, target, edge) implies lists(v, node, w, mode) by {
        let jj = choose|jj: int| 0 <= jj < factors.len() && factors[jj]@ == w;
        if mode == MatchMode::Lifted {
            assert(lists(v, node, factors[jj]@, MatchMode::Lifted));
        } else {
            assert(lists(v, node, factors[0]@, MatchMode::Lifted));
            let j = choose|j: int| 0 <= j < v.len() && v[j].0 == node && (MatchMode::Lifted == MatchMode::Lifted ==> v[j].1@ == factors[0]@);
            assert(v[j].0 == node);
        }
    }
}

impl EGraph {
    /// The e-nodes of `target`'s class, each placed into `target`'s
    /// context: one placement per e-node in `Canonical` mode, all of them
    /// in `Lifted` mode.
    pub(crate) fn nodes_in_class(&self, target: &Id, mode: MatchMode) -> (r: Vec<(Node, Lift)>)
        requires
            self.wf(),
            self.valid(*target),
        ensures
            placements_ok(*self, *target, r@),
            self.rev_valid || !self.rev_tracked ==> all_in_class(*self, *target, r@),
            self.rev_valid || !self.rev_tracked ==> forall|i: int, by: Seq<bool>| #[trigger] placement(*self, *target, i, by)
                ==> lists(r@, node_of(memo_entries(self.memo)[i].0), by, mode),
    {
        proof {
            lemma_egraph_specs(*self);
        }
        let ghost target0 = *target;
        proof {
            use_type_invariant(target);
        }
        let target = self.find(target);
        proof {
            use_type_invariant(&target);
        }
        let mut out: Vec<(Node, Lift)> = Vec::new();
        let tl = target.lift();
        if self.rev_valid || self.rev_tracked {
            let entries = &self.rev[target.raw() as usize];
            let mut i: usize = 0;
            while i < entries.len()
                invariant
                    self.wf(),
                    wf_body(*self),
                    (target.raw_spec() as int) < self.parent@.len(),
                    *entries == self.rev@[target.raw_spec() as int],
                    tl == target.lift_spec(),
                    count_true(tl@) == ctx_at(self.parent@, target.raw_spec() as int),
                    i <= entries@.len(),
                    placements_ok(*self, target, out@),
                    self.valid(target0),
                    target0.inv(),
                    self.canon(target0) == (tl@, target.raw_spec() as int),
                    self.rev_valid || self.rev_tracked,
                    self.rev_valid || !self.rev_tracked ==> all_in_class(*self, target0, out@),
                    forall|k2: int, w: Seq<bool>| 0 <= k2 < i && #[trigger] factors_through(w, tl@, entries@[k2].1@)
                        ==> lists(out@, entries@[k2].0, w, mode),
                decreases entries@.len() - i,
            {
                let ghost out_i = out@;
                let (node, edge) = entries[i];
                proof {
                    let _ = self.rev@[target.raw_spec() as int]@[i as int];
                }
                let factors = factor_lifts(&tl, &edge);
                let limit = if mode == MatchMode::Canonical && factors.len() > 0 { 1 } else { factors.len() };
                let mut k: usize = 0;
                while k < limit
                    invariant
                        limit <= factors@.len(),
                        forall|j: int| 0 <= j < factors@.len() ==> factors_through((#[trigger] factors@[j])@, tl@, edge@),
                        node_ok(self.parent@, self.symbols@.len(), node, edge@.len()),
                        placements_ok(*self, target, out@),
                        tl == target.lift_spec(),
                        self.wf(),
                        self.valid(target0),
                        target0.inv(),
                        self.canon(target0) == (tl@, target.raw_spec() as int),
                        (target.raw_spec() as int) < self.parent@.len(),
                        *entries == self.rev@[target.raw_spec() as int],
                        i < entries@.len(),
                        (node, edge) == self.rev@[target.raw_spec() as int]@[i as int],
                        self.rev_valid || self.rev_tracked,
                        self.rev_valid || !self.rev_tracked ==> all_in_class(*self, target0, out@),
                        out_i.len() <= out@.len(),
                        forall|j: int| 0 <= j < out_i.len() ==> #[trigger] out@[j] == out_i[j],
                        forall|k3: int| 0 <= k3 < k ==> lists(out@, node, (#[trigger] factors@[k3])@, MatchMode::Lifted),
                        limit == if mode == MatchMode::Canonical && factors@.len() > 0 { 1 } else { factors@.len() },
                        forall|w: Seq<bool>| #[trigger] factors_through(w, tl@, edge@)
                            ==> exists|jj: int| 0 <= jj < factors@.len() && factors@[jj]@ == w,
                    decreases limit - k,
                {
                    let by = factors[k];
                    proof {
                        assert(factors_through(factors@[k as int]@, tl@, edge@));
                        if self.rev_valid {
                            lemma_egraph_specs(*self);
                            lemma_in_class_rev(*self, target0, i as int, by@);
                        }
                    }
                    let ghost before = out@;
                    out.push((node, by));
                    proof {
                        if self.rev_valid || !self.rev_tracked {
                            assert(self.rev_valid);
                            assert(in_class(*self, target0, node, by@));
                            assert forall|j: int| 0 <= j < out@.len() implies #[trigger] in_class(*self, target0, out@[j].0, out@[j].1@) by {
                                if j < before.len() {
                                    assert(out@[j] == before[j]);
                                } else {
                                    assert(out@[j] == (node, by));
                                }
                            }
                        }
                    }
                    proof {
                        assert forall|j: int| 0 <= j < out@.len() implies {
                            let (nd, b) = #[trigger] out@[j];
                            &&& b@.len() == target.ctx_spec()
                            &&& node_ok(self.parent@, self.symbols@.len(), nd, count_true(b@))
                        } by {
                            if j < out@.len() - 1 {
                                let _ = placement_at(out@, j);
                            }
                        }
                    }
                    proof {
                        assert(out@[out@.len() - 1] == (node, by));
                        assert forall|k3: int| 0 <= k3 < k + 1 implies lists(out@, node, (#[trigger] factors@[k3])@, MatchMode::Lifted) by {
                            if k3 < k {
                                lemma_lists_grow(before, out@, node, factors@[k3]@, MatchMode::Lifted);
                            } else {
                                let j = out@.len() - 1;
                                assert(0 <= j < out@.len() && out@[j].0 == node && out@[j].1@ == factors@[k3]@);
                            }
                        }
                    }
                    k = k + 1;
                }
                proof {
                    lemma_factors_listed(out@, node, tl@, edge@, factors@, limit as int, mode);
                    assert forall|k2: int, w: Seq<bool>| 0 <= k2 < i + 1 && #[trigger] factors_through(w, tl@, entries@[k2].1@)
                        implies lists(out@, entries@[k2].0, w, mode) by {
                        if k2 < i {
                            lemma_lists_grow(out_i, out@, entries@[k2].0, w, mode);
                        }
                    }
                }
                i = i + 1;
            }
            proof {
                if self.rev_valid {
                    assert forall|i: int, by: Seq<bool>| #[trigger] placement(*self, target0, i, by)
                        implies lists(out@, node_of(memo_entries(self.memo)[i].0), by, mode) by {
                        lemma_placed_to_root(*self, target0, i, by);
                        crate::keeping::lemma_rev_complete_elim(*self, i);
                        let c = self.canon(class_id(*self, memo_entries(self.memo)[i].1 as int));
                        let k = choose|k: int| #[trigger] rev_slot(self.rev@, c.1, k, node_of(memo_entries(self.memo)[i].0), c.0);
                        assert(entries@[k].1@ == c.0);
                        assert(factors_through(by, tl@, entries@[k].1@));
                    }
                }
            }
        } else {
            let n = memo_len(&self.memo);
            let mut i: usize = 0;
            while i < n
                invariant
                    self.wf(),
                    wf_body(*self),
                    n == memo_entries(self.memo).len(),
                    tl == target.lift_spec(),
                    i <= n,
                    placements_ok(*self, target, out@),
                    forall|x: Id| #[trigger] self.valid(x) == id_valid(self.parent@, x),
                    forall|r: int| #[trigger] self.class_ctx(r) == ctx_at(self.parent@, r),
                    self.len() == self.parent@.len(),
                    self.valid(target0),
                    target0.inv(),
                    self.canon(target0) == (tl@, target.raw_spec() as int),
                    all_in_class(*self, target0, out@),
                    forall|i2: int, w: Seq<bool>| 0 <= i2 < i && #[trigger] placement(*self, target0, i2, w)
                        ==> lists(out@, node_of(memo_entries(self.memo)[i2].0), w, mode),
                    tl@.len() == target0.ctx_spec(),
                decreases n - i,
            {
                let ghost out_i = out@;
                let entry = memo_get_index(&self.memo, i);
                match entry {
                    Some((key, raw)) => {
                        proof {
                            let _ = memo_entries(self.memo)[i as int];
                        }
                        let origin = self.origin(raw);
                        let edge = self.find(&origin);
                        proof {
                            use_type_invariant(&origin);
                            lemma_class_id(*self, raw as int);
                            lemma_id_eq(origin, class_id(*self, raw as int));
                        }
                        if edge.raw() == target.raw() {
                            let node = key_node(&key);
                            let el = edge.lift();
                            let factors = factor_lifts(&tl, &el);
                            let limit = if mode == MatchMode::Canonical && factors.len() > 0 { 1 } else { factors.len() };
                            let mut k: usize = 0;
                            while k < limit
                                invariant
                                    limit <= factors@.len(),
                                    forall|j: int| 0 <= j < factors@.len() ==> factors_through((#[trigger] factors@[j])@, tl@, el@),
                                    node_ok(self.parent@, self.symbols@.len(), node, el@.len()),
                                    placements_ok(*self, target, out@),
                                    tl == target.lift_spec(),
                                    self.wf(),
                                    self.valid(target0),
                                    id_valid(self.parent@, target0),
                                    target0.inv(),
                                    self.canon(target0) == (tl@, target.raw_spec() as int),
                                    i < memo_entries(self.memo).len(),
                                    memo_entries(self.memo)[i as int] == (key, raw),
                                    node == node_of(key),
                                    self.canon(class_id(*self, raw as int)) == (el@, target.raw_spec() as int),
                                    all_in_class(*self, target0, out@),
                                    out_i.len() <= out@.len(),
                                    forall|j: int| 0 <= j < out_i.len() ==> #[trigger] out@[j] == out_i[j],
                                    forall|k3: int| 0 <= k3 < k ==> lists(out@, node, (#[trigger] factors@[k3])@, MatchMode::Lifted),
                                    limit == if mode == MatchMode::Canonical && factors@.len() > 0 { 1 } else { factors@.len() },
                                    tl@.len() == target0.ctx_spec(),
                                    forall|w: Seq<bool>| #[trigger] factors_through(w, tl@, el@)
                                        ==> exists|jj: int| 0 <= jj < factors@.len() && factors@[jj]@ == w,
                                decreases limit - k,
                            {
                                let by = factors[k];
                                proof {
                                    assert(factors_through(factors@[k as int]@, tl@, el@));
                                    lemma_placed_from_root(*self, target0, i as int, el@, by@);
                                }
                                let ghost before = out@;
                                out.push((node, by));
                                proof {
                                    assert forall|j: int| 0 <= j < out@.len() implies #[trigger] in_class(*self, target0, out@[j].0, out@[j].1@) by {
                                        if j < before.len() {
                                            assert(out@[j] == before[j]);
                                        } else {
                                            assert(placed_at(*self, i as int, target0, node, by@));
                                        }
                                    }
                                }
                                proof {
                                    assert forall|j: int| 0 <= j < out@.len() implies {
                                        let (nd, b) = #[trigger] out@[j];
                                        &&& b@.len() == target.ctx_spec()
                                        &&& node_ok(self.parent@, self.symbols@.len(), nd, count_true(b@))
                                    } by {
                                        if j < out@.len() - 1 {
                                            let _ = placement_at(out@, j);
                                        }
                                    }
                                }
                                proof {
                                    assert forall|k3: int| 0 <= k3 < k + 1 implies lists(out@, node, (#[trigger] factors@[k3])@, MatchMode::Lifted) by {
                                        if k3 < k {
                                            lemma_lists_grow(before, out@, node, factors@[k3]@, MatchMode::Lifted);
                                        } else {
                                            let j = out@.len() - 1;
                                            assert(0 <= j < out@.len() && out@[j].0 == node && out@[j].1@ == factors@[k3]@);
                                        }
                                    }
                                }
                                k = k + 1;
                            }
                            proof {
                                lemma_factors_listed(out@, node, tl@, el@, factors@, limit as int, mode);
                                assert forall|w: Seq<bool>| #[trigger] placement(*self, target0, i as int, w)
                                    implies lists(out@, node_of(memo_entries(self.memo)[i as int].0), w, mode) by {
                                    lemma_placed_to_root(*self, target0, i as int, w);
                                    assert(factors_through(w, tl@, el@));
                                }
                            }
                        } else {
                            proof {
                                assert forall|w: Seq<bool>| #[trigger] placement(*self, target0, i as int, w)
                                    implies false by {
                                    lemma_placed_to_root(*self, target0, i as int, w);
                                }
                            }
                        }
                        proof {
                            assert forall|i2: int, w: Seq<bool>| 0 <= i2 < i + 1 && #[trigger] placement(*self, target0, i2, w)
                                implies lists(out@, node_of(memo_entries(self.memo)[i2].0), w, mode) by {
                                if i2 < i {
                                    lemma_lists_grow(out_i, out@, node_of(memo_entries(self.memo)[i2].0), w, mode);
                                }
                            }
                        }
                    },
                    None => {},
                }
                i = i + 1;
            }
        }
        out
    }
}

/// Entry `j` of a list of placements; mentioning it lets the solver use
/// facts about that entry.
spec fn placement_at(v: Seq<(Node, Lift)>, j: int) -> (Node, Lift) {
    v[j]
}


/// A placed variable e-node on the context variable at level `level` of
/// an `n`-variable context.
pub(crate) open spec fn var_on(p: (Node, Lift), n: nat, level: int) -> bool {
    p.0 == Node::Var && p.1@ == single_true(n, level)
}

/// A metavariable pattern fits the class of `x` under `s`: its arguments
/// are distinct bound variables, and either its name is bound to a class
/// that, placed as the occurrence says, equals `x`, or its name is unbound
/// and `x` depends only on the variables the occurrence sees.
pub(crate) open spec fn metavar_fits(g: EGraph, x: Id, p: Pattern, ctx: nat, top: nat, s: Seq<(Seq<char>, Id)>) -> bool {
    match p {
        Pattern::MetaVar(name, args) => {
            let occ = occurrence_seq(top, ctx, bvar_indices(args@));
            &&& all_bvars(args@)
            &&& top <= ctx
            &&& miller_ordered(bvar_indices(args@), (ctx - top) as nat)
            &&& match subst_lookup(s, name@) {
                Some(b) => b.ctx_spec() == count_true(occ) && g.equiv(place(b, occ), x),
                None => subset_seq(g.canon(x).0, occ),
            }
        },
        _ => false,
    }
}

impl EGraph {
    /// Match a metavariable pattern: a bound name must meet its binding,
    /// placed as its occurrence says; an unbound one is bound to `target`,
    /// factored through its occurrence. At most one substitution results.
    fn ematch_metavar(
        &self,
        pattern: &Pattern,
        name: &String,
        arguments: &Vec<Pattern>,
        target: &Id,
        subst: Subst,
        top_ctx: usize,
        out: &mut Vec<Subst>,
    )
        requires
            self.wf(),
            self.valid(*target),
            top_ctx <= target.ctx_spec(),
            subst_ok(*self, subst@),
            substs_ok(*self, old(out)@),
            *pattern == Pattern::MetaVar(*name, *arguments),
        ensures
            substs_ok(*self, final(out)@),
            new_matches(*self, *target, *pattern, top_ctx as nat, subst@, old(out)@, final(out)@),
            final(out)@.len() == old(out)@.len()
                + if metavar_fits(*self, *target, *pattern, target.ctx_spec(), top_ctx as nat, subst@) { 1int } else { 0int },
    {
        proof {
            lemma_egraph_specs(*self);
            use_type_invariant(target);
            lemma_id_lift_inv(*target);
        }
        let tctx = target.ctx();
        let ghost out0 = out@;
        let occurrence = match pattern_occurrence_lift(top_ctx, tctx, arguments.as_slice()) {
            None => {
                return;
            },
            Some(l) => l,
        };
        proof {
            use_type_invariant(&occurrence);
        }
        match subst.get(name.as_str()) {
            Some(previous) => {
                proof {
                    use_type_invariant(&previous);
                    crate::seqs::lemma_count_le_len(occurrence@);
                }
                if previous.ctx() == occurrence.dom() {
                    let placed = previous.weaken(&occurrence);
                    proof {
                        assert(self.valid(previous)) by {
                            lemma_subst_lookup_in(subst@, name@);
                        }
                        lemma_compose_count(occurrence@, previous.lift_spec()@);
                        use_type_invariant(&placed);
                        lemma_place(*self, previous, occurrence@);
                        lemma_id_eq(placed, place(previous, occurrence@));
                    }
                    if self.equivalent(&placed, target) {
                        proof {
                            lemma_new_matches_push(*self, *target, *pattern, top_ctx as nat, subst@, out0, out@, subst);
                        }
                        out.push(subst);
                        proof {
                            lemma_push_substs_ok(*self, old(out)@, subst);
                        }
                    }
                }
            },
            None => {
                let found = self.find(target);
                let binding_lift = match occurrence.factor(&found.lift()) {
                    None => {
                        return;
                    },
                    Some(l) => l,
                };
                let binding = Id::new(binding_lift, found.raw());
                let ghost s0 = subst@;
                let mut next = subst;
                next.insert(name.clone(), binding);
                proof {
                    use_type_invariant(&found);
                    lemma_id_lift_inv(found);
                    crate::seqs::lemma_count_le_len(found.lift_spec()@);
                    lemma_compose_count(occurrence@, binding_lift@);
                    assert(self.valid(binding));
                    assert(subst_ok(*self, next@)) by {
                        assert forall|i: int| 0 <= i < next@.len() implies #[trigger] self.valid(next@[i].1) by {
                            if i < s0.len() {
                                assert(next@[i] == s0[i]);
                            }
                        }
                    }
                    lemma_extends_push(s0, (name@, binding));
                    use_type_invariant(&binding);
                    crate::egraph::lemma_canon_root_id(*self, binding);
                    lemma_place(*self, binding, occurrence@);
                    lemma_new_matches_push(*self, *target, *pattern, top_ctx as nat, s0, out0, out@, next);
                }
                out.push(next);
                proof {
                    lemma_push_substs_ok(*self, old(out)@, next);
                }
            },
        }
    }

    /// Match `pattern` against `target`, starting from `subst`, and append
    /// every resulting substitution to `out`. `top_ctx` is the context at
    /// the top of the pattern.
    #[verifier::spinoff_prover]
    #[verifier::rlimit(80)]
    pub(crate) fn ematch_rec(
        &self,
        pattern: &Pattern,
        target: &Id,
        subst: Subst,
        mode: MatchMode,
        top_ctx: usize,
        out: &mut Vec<Subst>,
    )
        requires
            self.wf(),
            self.valid(*target),
            top_ctx <= target.ctx_spec(),
            subst_ok(*self, subst@),
            substs_ok(*self, old(out)@),
        ensures
            substs_ok(*self, final(out)@),
            new_matches(*self, *target, *pattern, top_ctx as nat, subst@, old(out)@, final(out)@),
            *pattern matches Pattern::Atom(name) ==> ((self.rev_valid || !self.rev_tracked)
                && self.holds_atom(*target, name@) ==> old(out)@.len() < final(out)@.len()),
            *pattern is MetaVar ==> final(out)@.len() == old(out)@.len()
                + if metavar_fits(*self, *target, *pattern, target.ctx_spec(), top_ctx as nat, subst@) { 1int } else { 0int },
            *pattern matches Pattern::FVar(l) ==> (mode == MatchMode::Lifted && (self.rev_valid || !self.rev_tracked)
                && l@ < top_ctx && self.holds_var(*target, l@ as nat) ==> old(out)@.len() < final(out)@.len()),
            *pattern matches Pattern::BVar(k) ==> (mode == MatchMode::Lifted && (self.rev_valid || !self.rev_tracked)
                && top_ctx + k@ < target.ctx_spec() && self.holds_var(*target, (target.ctx_spec() - 1 - k@) as nat)
                ==> old(out)@.len() < final(out)@.len()),
            *pattern matches Pattern::Binder(op, bp) ==> (mode == MatchMode::Lifted && self.index_current() && *bp is MetaVar
                && target.ctx_spec() < 7 ==> forall|body: Id| #[trigger] self.holds_binder_body(*target, op@, body)
                && self.fits_under(body, *bp, top_ctx as nat, subst@) ==> exists|k: int| old(out)@.len() <= k < final(out)@.len()
                && self.matches_under(body, *bp, top_ctx as nat, #[trigger] final(out)@[k]@)),
            *pattern matches Pattern::Binder(op, bp) ==> (self.index_current() && *bp is MetaVar && target.ctx_spec() < 7 ==>
                forall|e: int| #[trigger] self.binder_entry_in(*target, op@, e) ==> exists|body: Id| self.entry_body(*target, e, body)
                && (self.fits_under(body, *bp, top_ctx as nat, subst@) ==> exists|k: int| old(out)@.len() <= k < final(out)@.len()
                && self.matches_under(body, *bp, top_ctx as nat, #[trigger] final(out)@[k]@))),
        decreases pattern,
    {
        proof {
            lemma_egraph_specs(*self);
            use_type_invariant(target);
            lemma_id_lift_inv(*target);
        }
        let tctx = target.ctx();
        let ghost out0 = out@;
        match pattern {
            Pattern::MetaVar(name, arguments) => {
                self.ematch_metavar(pattern, name, arguments, target, subst, top_ctx, out);
            },
            Pattern::FVar(index) => {
                let nodes = self.nodes_in_class(target, mode);
                let mut i: usize = 0;
                while i < nodes.len()
                    invariant
                        i <= nodes@.len(),
                        subst_ok(*self, subst@),
                        substs_ok(*self, out@),
                        tctx == target.ctx_spec(),
                        top_ctx <= tctx <= 7,
                        self.rev_valid || !self.rev_tracked ==> all_in_class(*self, *target, nodes@),
                        new_matches(*self, *target, *pattern, top_ctx as nat, subst@, out0, out@),
                        pattern == Pattern::FVar(*index),
                        (exists|j: int| 0 <= j < i && #[trigger] var_on(nodes@[j], tctx as nat, index@ as int))
                            && index@ < top_ctx ==> out0.len() < out@.len(),
                        out0.len() <= out@.len(),
                    decreases nodes@.len() - i,
                {
                    let (node, by) = nodes[i];
                    let level = index.get();
                    let mut hit = false;
                    if node == Node::Var && level < top_ctx {
                        let sel = Lift::select(tctx, level);
                        proof {
                            use_type_invariant(&by);
                            use_type_invariant(&sel);
                            if by@ == sel@ {
                                lemma_view_injective(by, sel);
                            }
                        }
                        hit = by == sel;
                    }
                    if hit {
                        let copy = subst.duplicate();
                        proof {
                            assert(in_class(*self, *target, nodes@[i as int].0, nodes@[i as int].1@) || !(self.rev_valid || !self.rev_tracked));
                            lemma_new_matches_push(*self, *target, *pattern, top_ctx as nat, subst@, out0, out@, copy);
                        }
                        out.push(copy);
                        proof {
                            lemma_push_substs_ok(*self, without_last(out@), copy);
                        }
                    }
                    proof {
                        if exists|j: int| 0 <= j < i + 1 && #[trigger] var_on(nodes@[j], tctx as nat, index@ as int) {
                            let j = choose|j: int| 0 <= j < i + 1 && #[trigger] var_on(nodes@[j], tctx as nat, index@ as int);
                            if j < i {
                                assert(exists|j2: int| 0 <= j2 < i && #[trigger] var_on(nodes@[j2], tctx as nat, index@ as int));
                            }
                        }
                    }
                    i = i + 1;
                }
                proof {
                    if mode == MatchMode::Lifted && (self.rev_valid || !self.rev_tracked) && index@ < top_ctx
                        && self.holds_var(*target, index@ as nat) {
                        lemma_var_placement(*self, *target, index@ as nat);
                        let i0 = choose|i0: int| #[trigger] placement(*self, *target, i0, single_true(target.ctx_spec(), index@ as int))
                            && node_of(memo_entries(self.memo)[i0].0) == Node::Var;
                        assert(lists(nodes@, Node::Var, single_true(target.ctx_spec(), index@ as int), mode));
                        let j = choose|j: int| 0 <= j < nodes@.len() && nodes@[j].0 == Node::Var
                            && (mode == MatchMode::Lifted ==> nodes@[j].1@ == single_true(target.ctx_spec(), index@ as int));
                        assert(var_on(nodes@[j], tctx as nat, index@ as int));
                    }
                }
            },
            Pattern::BVar(index) => {
                let nodes = self.nodes_in_class(target, mode);
                let depth = tctx - top_ctx;
                let mut i: usize = 0;
                while i < nodes.len()
                    invariant
                        i <= nodes@.len(),
                        subst_ok(*self, subst@),
                        substs_ok(*self, out@),
                        tctx == target.ctx_spec(),
                        top_ctx <= tctx <= 7,
                        depth == tctx - top_ctx,
                        self.rev_valid || !self.rev_tracked ==> all_in_class(*self, *target, nodes@),
                        new_matches(*self, *target, *pattern, top_ctx as nat, subst@, out0, out@),
                        pattern == Pattern::BVar(*index),
                        (exists|j: int| 0 <= j < i && #[trigger] var_on(nodes@[j], tctx as nat, tctx - 1 - index@))
                            && index@ < depth ==> out0.len() < out@.len(),
                        out0.len() <= out@.len(),
                    decreases nodes@.len() - i,
                {
                    let (node, by) = nodes[i];
                    let k = index.get();
                    let mut hit = false;
                    if node == Node::Var && k < depth {
                        let sel = Lift::select(tctx, tctx - 1 - k);
                        proof {
                            use_type_invariant(&by);
                            use_type_invariant(&sel);
                            if by@ == sel@ {
                                lemma_view_injective(by, sel);
                            }
                        }
                        hit = by == sel;
                    }
                    if hit {
                        let copy = subst.duplicate();
                        proof {
                            assert(in_class(*self, *target, nodes@[i as int].0, nodes@[i as int].1@) || !(self.rev_valid || !self.rev_tracked));
                            lemma_new_matches_push(*self, *target, *pattern, top_ctx as nat, subst@, out0, out@, copy);
                        }
                        out.push(copy);
                        proof {
                            lemma_push_substs_ok(*self, without_last(out@), copy);
                        }
                    }
                    proof {
                        if exists|j: int| 0 <= j < i + 1 && #[trigger] var_on(nodes@[j], tctx as nat, tctx - 1 - index@) {
                            let j = choose|j: int| 0 <= j < i + 1 && #[trigger] var_on(nodes@[j], tctx as nat, tctx - 1 - index@);
                            if j < i {
                                assert(exists|j2: int| 0 <= j2 < i && #[trigger] var_on(nodes@[j2], tctx as nat, tctx - 1 - index@));
                            }
                        }
                    }
                    i = i + 1;
                }
                proof {
                    if mode == MatchMode::Lifted && (self.rev_valid || !self.rev_tracked) && top_ctx + index@ < tctx
                        && self.holds_var(*target, (tctx - 1 - index@) as nat) {
                        lemma_var_placement(*self, *target, (tctx - 1 - index@) as nat);
                        let v = single_true(target.ctx_spec(), tctx - 1 - index@);
                        let i0 = choose|i0: int| #[trigger] placement(*self, *target, i0, v)
                            && node_of(memo_entries(self.memo)[i0].0) == Node::Var;
                        assert(lists(nodes@, Node::Var, v, mode));
                        let j = choose|j: int| 0 <= j < nodes@.len() && nodes@[j].0 == Node::Var
                            && (mode == MatchMode::Lifted ==> nodes@[j].1@ == v);
                        assert(var_on(nodes@[j], tctx as nat, tctx - 1 - index@));
                    }
                }
            },
            Pattern::Atom(name) => {
                let nodes = self.nodes_in_class(target, mode);
                let mut i: usize = 0;
                while i < nodes.len()
                    invariant
                        self.wf(),
                        wf_body(*self),
                        i <= nodes@.len(),
                        placements_ok(*self, *target, nodes@),
                        subst_ok(*self, subst@),
                        substs_ok(*self, out@),
                        self.rev_valid || !self.rev_tracked ==> all_in_class(*self, *target, nodes@),
                        new_matches(*self, *target, *pattern, top_ctx as nat, subst@, out0, out@),
                        pattern == Pattern::Atom(*name),
                        (exists|j: int| 0 <= j < i && #[trigger] atom_named(self.symbols@, nodes@[j].0, name@)) ==> out0.len() < out@.len(),
                    decreases nodes@.len() - i,
                {
                    let (node, by) = nodes[i];
                    proof {
                        let _ = nodes@[i as int];
                    }
                    match node {
                        Node::Atom(symbol) => {
                            if self.symbols[symbol as usize] == *name {
                                let copy = subst.duplicate();
                                proof {
                                    if self.rev_valid || !self.rev_tracked {
                                        assert(in_class(*self, *target, nodes@[i as int].0, nodes@[i as int].1@));
                                        assert(in_class(*self, *target, Node::Atom(symbol), by@));
                                    }
                                    lemma_new_matches_push(*self, *target, *pattern, top_ctx as nat, subst@, out0, out@, copy);
                                }
                                out.push(copy);
                                proof {
                                    lemma_push_substs_ok(*self, without_last(out@), copy);
                                }
                            }
                        },
                        _ => {},
                    }
                    proof {
                        if exists|j: int| 0 <= j < i + 1 && #[trigger] atom_named(self.symbols@, nodes@[j].0, name@) {
                            let j = choose|j: int| 0 <= j < i + 1 && #[trigger] atom_named(self.symbols@, nodes@[j].0, name@);
                            if j < i {
                                assert(exists|j2: int| 0 <= j2 < i && #[trigger] atom_named(self.symbols@, nodes@[j2].0, name@));
                            }
                        }
                    }
                    i = i + 1;
                }
                proof {
                    if (self.rev_valid || !self.rev_tracked) && self.holds_atom(*target, name@) {
                        lemma_atom_placement(*self, *target, name@);
                        let (i0, by0) = choose|i0: int, by0: Seq<bool>| #[trigger] placement(*self, *target, i0, by0)
                            && atom_named(self.symbols@, node_of(memo_entries(self.memo)[i0].0), name@);
                        assert(lists(nodes@, node_of(memo_entries(self.memo)[i0].0), by0, mode));
                        let j = choose|j: int| 0 <= j < nodes@.len() && nodes@[j].0 == node_of(memo_entries(self.memo)[i0].0)
                            && (mode == MatchMode::Lifted ==> nodes@[j].1@ == by0);
                        assert(atom_named(self.symbols@, nodes@[j].0, name@));
                    }
                }
            },
            Pattern::App(function_pattern, argument_pattern) => {
                let nodes = self.nodes_in_class(target, mode);
                let mut i: usize = 0;
                while i < nodes.len()
                    invariant
                        self.wf(),
                        wf_body(*self),
                        forall|x: Id| #[trigger] self.valid(x) == id_valid(self.parent@, x),
                        i <= nodes@.len(),
                        placements_ok(*self, *target, nodes@),
                        subst_ok(*self, subst@),
                        substs_ok(*self, out@),
                        top_ctx <= target.ctx_spec(),
                        pattern == Pattern::App(*function_pattern, *argument_pattern),
                        self.rev_valid || !self.rev_tracked ==> all_in_class(*self, *target, nodes@),
                        new_matches(*self, *target, *pattern, top_ctx as nat, subst@, out0, out@),
                    decreases nodes@.len() - i,
                {
                    let (node, by) = nodes[i];
                    proof {
                        let _ = nodes@[i as int];
                    }
                    match node {
                        Node::App(function, argument) => {
                            let f = function.weaken(&by);
                            let a = argument.weaken(&by);
                            proof {
                                lemma_compose_count(by@, function.lift_spec()@);
                                lemma_compose_count(by@, argument.lift_spec()@);
                                use_type_invariant(&by);
                                use_type_invariant(&f);
                                use_type_invariant(&a);
                                lemma_lift_len(by);
                                lemma_place(*self, function, by@);
                                lemma_place(*self, argument, by@);
                                lemma_id_eq(f, place(function, by@));
                                lemma_id_eq(a, place(argument, by@));
                            }
                            let mut functions: Vec<Subst> = Vec::new();
                            let start = subst.duplicate();
                            proof {
                                assert(decreases_to!(*pattern => pattern->App_0));
                            }
                            self.ematch_rec(function_pattern, &f, start, mode, top_ctx, &mut functions);
                            let ghost out1 = out@;
                            let mut j: usize = 0;
                            while j < functions.len()
                                invariant
                                    self.wf(),
                                    self.valid(a),
                                    top_ctx <= a.ctx_spec(),
                                    j <= functions@.len(),
                                    substs_ok(*self, functions@),
                                    substs_ok(*self, out@),
                                    pattern == Pattern::App(*function_pattern, *argument_pattern),
                                    new_matches(*self, f, **function_pattern, top_ctx as nat, subst@, Seq::<Subst>::empty(), functions@),
                                    new_matches(*self, *target, *pattern, top_ctx as nat, subst@, out0, out@),
                                    self.rev_valid || !self.rev_tracked ==> in_class(*self, *target, Node::App(function, argument), by@),
                                    f == place(function, by@),
                                    a == place(argument, by@),
                                    a.ctx_spec() == target.ctx_spec(),
                                    f.ctx_spec() == target.ctx_spec(),
                                decreases functions@.len() - j,
                            {
                                let function_subst = functions[j].duplicate();
                                proof {
                                    assert(subst_ok(*self, functions@[j as int]@));
                                }
                                proof {
                                    assert(decreases_to!(*pattern => pattern->App_1));
                                }
                                let ghost fs = functions@[j as int]@;
                                let ghost mid = out@;
                                self.ematch_rec(argument_pattern, &a, function_subst, mode, top_ctx, out);
                                proof {
                                    assert(subst_extends(subst@, fs));
                                    let after = out@;
                                    assert forall|k: int| 0 <= k < out0.len() implies #[trigger] after[k] == out0[k] by {
                                        assert(after[k] == mid[k]);
                                    }
                                    assert forall|k: int| out0.len() <= k < after.len() implies subst_extends(subst@, #[trigger] after[k]@) by {
                                        if k < mid.len() {
                                            assert(after[k] == mid[k]);
                                        } else {
                                            lemma_extends_trans(subst@, fs, after[k]@);
                                        }
                                    }
                                    if self.rev_valid || !self.rev_tracked {
                                        assert(pattern_matched(*self, f, **function_pattern, target.ctx_spec(), top_ctx as nat, fs));
                                        assert forall|k: int| out0.len() <= k < after.len() implies pattern_matched(*self, *target, *pattern, target.ctx_spec(), top_ctx as nat, #[trigger] after[k]@) by {
                                            if k < mid.len() {
                                                assert(after[k] == mid[k]);
                                            } else {
                                                lemma_matched_extends(*self, f, **function_pattern, target.ctx_spec(), top_ctx as nat, fs, after[k]@);
                                                assert(pattern_matched(*self, a, **argument_pattern, target.ctx_spec(), top_ctx as nat, after[k]@));
                                                assert(in_class(*self, *target, Node::App(function, argument), by@));
                                            }
                                        }
                                    }
                                }
                                j = j + 1;
                            }
                        },
                        _ => {},
                    }
                    i = i + 1;
                }
            },
            Pattern::Binder(op, body_pattern) => {
                let nodes = self.nodes_in_class(target, mode);
                let mut i: usize = 0;
                while i < nodes.len()
                    invariant
                        self.wf(),
                        wf_body(*self),
                        forall|x: Id| #[trigger] self.valid(x) == id_valid(self.parent@, x),
                        i <= nodes@.len(),
                        placements_ok(*self, *target, nodes@),
                        subst_ok(*self, subst@),
                        substs_ok(*self, out@),
                        top_ctx <= target.ctx_spec(),
                        tctx == target.ctx_spec(),
                        pattern == Pattern::Binder(*op, *body_pattern),
                        self.rev_valid || !self.rev_tracked ==> all_in_class(*self, *target, nodes@),
                        new_matches(*self, *target, *pattern, top_ctx as nat, subst@, out0, out@),
                        self.index_current() && **body_pattern is MetaVar && tctx < 7 ==>
                            forall|j: int| 0 <= j < i && #[trigger] binder_named(*self, nodes@[j].0, op@)
                                && metavar_fits(*self, item_body(nodes@[j]), **body_pattern, (tctx + 1) as nat, top_ctx as nat, subst@)
                                ==> exists|k: int| out0.len() <= k < out@.len() && pattern_matched(*self, item_body(nodes@[j]),
                                    **body_pattern, (tctx + 1) as nat, top_ctx as nat, #[trigger] out@[k]@),
                        self.rev_valid || !self.rev_tracked ==> forall|i2: int, by2: Seq<bool>| #[trigger] placement(*self, *target, i2, by2)
                            ==> lists(nodes@, node_of(memo_entries(self.memo)[i2].0), by2, mode),
                    decreases nodes@.len() - i,
                {
                    let (node, by) = nodes[i];
                    proof {
                        let _ = nodes@[i as int];
                    }
                    match node {
                        Node::Binder(node_op, body) => {
                            if self.symbols[node_op as usize] == *op && tctx < 7 {
                                let under = by.append(true);
                                proof {
                                    lemma_count_push(by@, true);
                                }
                                let lifted = body.weaken(&under);
                                proof {
                                    lemma_compose_count(under@, body.lift_spec()@);
                                    use_type_invariant(&lifted);
                                    use_type_invariant(&under);
                                    lemma_lift_len(under);
                                    lemma_place(*self, body, under@);
                                    lemma_id_eq(lifted, place(body, under@));
                                }
                                let start = subst.duplicate();
                                proof {
                                    assert(decreases_to!(*pattern => pattern->Binder_1));
                                }
                                let ghost mid = out@;
                                self.ematch_rec(body_pattern, &lifted, start, mode, top_ctx, out);
                                proof {
                                    let after = out@;
                                    if self.index_current() && **body_pattern is MetaVar && tctx < 7 {
                                        assert(lifted == item_body(nodes@[i as int]));
                                        assert forall|j: int| 0 <= j < i + 1 && #[trigger] binder_named(*self, nodes@[j].0, op@)
                                            && metavar_fits(*self, item_body(nodes@[j]), **body_pattern, (tctx + 1) as nat, top_ctx as nat, subst@)
                                            implies exists|k: int| out0.len() <= k < after.len() && pattern_matched(*self, item_body(nodes@[j]),
                                                **body_pattern, (tctx + 1) as nat, top_ctx as nat, #[trigger] after[k]@) by {
                                            if j < i {
                                                let k = choose|k: int| out0.len() <= k < mid.len() && pattern_matched(*self, item_body(nodes@[j]),
                                                    **body_pattern, (tctx + 1) as nat, top_ctx as nat, #[trigger] mid[k]@);
                                                assert(after[k] == mid[k]);
                                            } else {
                                                assert(after.len() == mid.len() + 1);
                                                let k = mid.len() as int;
                                                assert(pattern_matched(*self, lifted, **body_pattern, lifted.ctx_spec(), top_ctx as nat, after[k]@));
                                            }
                                        }
                                    }
                                    assert forall|k: int| 0 <= k < out0.len() implies #[trigger] after[k] == out0[k] by {
                                        assert(after[k] == mid[k]);
                                    }
                                    assert forall|k: int| out0.len() <= k < after.len() implies subst_extends(subst@, #[trigger] after[k]@) by {
                                        if k < mid.len() {
                                            assert(after[k] == mid[k]);
                                        }
                                    }
                                    if self.rev_valid || !self.rev_tracked {
                                        assert(in_class(*self, *target, nodes@[i as int].0, nodes@[i as int].1@));
                                        assert forall|k: int| out0.len() <= k < after.len() implies pattern_matched(*self, *target, *pattern, target.ctx_spec(), top_ctx as nat, #[trigger] after[k]@) by {
                                            if k < mid.len() {
                                                assert(after[k] == mid[k]);
                                            } else {
                                                assert(pattern_matched(*self, lifted, **body_pattern, lifted.ctx_spec(), top_ctx as nat, after[k]@));
                                                assert(in_class(*self, *target, Node::Binder(node_op, body), by@));
                                            }
                                        }
                                    }
                                }
                            }
                        },
                        _ => {},
                    }
                    i = i + 1;
                }
                proof {
                    if mode == MatchMode::Lifted && self.index_current() && **body_pattern is MetaVar && tctx < 7 {
                        assert forall|body: Id| #[trigger] self.holds_binder_body(*target, op@, body)
                            && self.fits_under(body, **body_pattern, top_ctx as nat, subst@) implies exists|k: int| out0.len() <= k < out@.len()
                            && self.matches_under(body, **body_pattern, top_ctx as nat, #[trigger] out@[k]@) by {
                            let (i0, by0) = choose|i0: int, by0: Seq<bool>| #[trigger] placement(*self, *target, i0, by0)
                                && binder_named(*self, node_of(memo_entries(self.memo)[i0].0), op@)
                                && body == place(node_of(memo_entries(self.memo)[i0].0)->Binder_1, by0.push(true));
                            let entry = memo_entries(self.memo)[i0];
                            let _ = memo_entries(self.memo)[i0];
                            let node = node_of(entry.0);
                            assert(lists(nodes@, node, by0, mode));
                            let j = choose|j: int| 0 <= j < nodes@.len() && nodes@[j].0 == node && (mode == MatchMode::Lifted ==> nodes@[j].1@ == by0);
                            assert(item_body(nodes@[j]) == body);
                            let b = node->Binder_1;
                            assert(node_ok(self.parent@, self.symbols@.len(), node, ctx_at(self.parent@, entry.1 as int)));
                            lemma_count_push(by0, true);
                            lemma_place(*self, b, by0.push(true));
                            assert(body.ctx_spec() == tctx + 1);
                        }
                    }
                    if self.index_current() && **body_pattern is MetaVar && tctx < 7 {
                        assert forall|e: int| #[trigger] self.binder_entry_in(*target, op@, e) implies exists|body: Id| self.entry_body(*target, e, body)
                            && (self.fits_under(body, **body_pattern, top_ctx as nat, subst@) ==> exists|k: int| out0.len() <= k < out@.len()
                            && self.matches_under(body, **body_pattern, top_ctx as nat, #[trigger] out@[k]@)) by {
                            let by = choose|by: Seq<bool>| placement(*self, *target, e, by);
                            let entries = memo_entries(self.memo);
                            let entry = entries[e];
                            let _ = entries[e];
                            let node = node_of(entry.0);
                            assert(placement(*self, *target, e, by));
                            assert(lists(nodes@, node, by, mode));
                            let j = choose|j: int| 0 <= j < nodes@.len() && nodes@[j].0 == node && (mode == MatchMode::Lifted ==> nodes@[j].1@ == by);
                            let by0 = nodes@[j].1@;
                            assert(in_class(*self, *target, nodes@[j].0, by0));
                            let i1 = choose|i1: int| #[trigger] placed_at(*self, i1, *target, node, by0);
                            let _ = entries[i1];
                            assert(entries[i1].0 == key_of(node));
                            assert(entries[e].0 == key_of(node));
                            assert(i1 == e);
                            let _ = placement_at(nodes@, j);
                            assert(node_ok(self.parent@, self.symbols@.len(), node, ctx_at(self.parent@, entry.1 as int)));
                            assert(placement(*self, *target, e, by0));
                            let b = node->Binder_1;
                            let body = item_body(nodes@[j]);
                            lemma_count_push(by0, true);
                            lemma_place(*self, b, by0.push(true));
                            assert(body.ctx_spec() == tctx + 1);
                            assert(self.entry_body(*target, e, body));
                        }
                    }
                }
            },
            Pattern::Subst(_, _) => {},
        }
    }

    pub(crate) fn ematch_with(&self, pattern: &Pattern, target: &Id, mode: MatchMode) -> (r: Vec<Subst>)
        requires
            self.wf(),
            self.valid(*target),
        ensures
            substs_ok(*self, r@),
            self.index_current() ==> forall|j: int| 0 <= j < r@.len() ==> self.matches(*target, *pattern, #[trigger] r@[j]@),
            *pattern matches Pattern::Atom(name) ==> (self.index_current() && self.holds_atom(*target, name@) ==> r@.len() > 0),
            *pattern is MetaVar ==> r@.len() == if self.metavar_fits_at(*target, *pattern) { 1int } else { 0int },
            *pattern matches Pattern::FVar(l) ==> (mode == MatchMode::Lifted && self.index_current()
                && l@ < target.ctx_spec() && self.holds_var(*target, l@ as nat) ==> r@.len() > 0),
            *pattern matches Pattern::Binder(op, bp) ==> (mode == MatchMode::Lifted && self.index_current() && *bp is MetaVar
                && target.ctx_spec() < 7 ==> forall|body: Id| #[trigger] self.holds_binder_body(*target, op@, body)
                && self.fits_under(body, *bp, target.ctx_spec(), Seq::empty()) ==> exists|k: int| 0 <= k < r@.len()
                && self.matches_under(body, *bp, target.ctx_spec(), #[trigger] r@[k]@)),
            *pattern matches Pattern::Binder(op, bp) ==> (self.index_current() && *bp is MetaVar && target.ctx_spec() < 7 ==>
                forall|e: int| #[trigger] self.binder_entry_in(*target, op@, e) ==> exists|body: Id| self.entry_body(*target, e, body)
                && (self.fits_under(body, *bp, target.ctx_spec(), Seq::empty()) ==> exists|k: int| 0 <= k < r@.len()
                && self.matches_under(body, *bp, target.ctx_spec(), #[trigger] r@[k]@))),
    {
        let mut matches: Vec<Subst> = Vec::new();
        let start = Subst::default();
        proof {
            use_type_invariant(target);
            crate::id::lemma_id_lift_inv(*target);
        }
        self.ematch_rec(pattern, target, start, mode, target.ctx(), &mut matches);
        proof {
            if self.index_current() {
                assert forall|j: int| 0 <= j < matches@.len() implies self.matches(*target, *pattern, #[trigger] matches@[j]@) by {
                    assert(pattern_matched(*self, *target, *pattern, target.ctx_spec(), target.ctx_spec(), matches@[j]@));
                }
            }
        }
        matches
    }

    /// A metavariable pattern whose top is `target`'s context fits
    /// `target`'s class with nothing bound yet: its arguments are distinct
    /// bound variables, and the class depends only on the variables its
    /// occurrence sees.
    pub closed spec fn metavar_fits_at(self, target: Id, pattern: Pattern) -> bool {
        metavar_fits(self, target, pattern, target.ctx_spec(), target.ctx_spec(), Seq::empty())
    }

    /// The reverse index is current, or the e-graph keeps none and reads
    /// its hash-cons table: then matching reports only true matches.
    pub closed spec fn index_current(self) -> bool {
        self.rev_valid || !self.rev_tracked
    }

    /// Under the bindings `s`, the class of `target` matches `pattern`,
    /// whose top lies in `target`'s context: its metavariables are their
    /// bindings, placed, and its other nodes are hash-consed e-nodes of the
    /// classes they meet.
    pub closed spec fn matches(self, target: Id, pattern: Pattern, s: Seq<(Seq<char>, Id)>) -> bool {
        pattern_matched(self, target, pattern, target.ctx_spec(), target.ctx_spec(), s)
    }

    /// Under the bindings `s`, the class of `x` matches `pattern`, a part
    /// of a pattern whose top is the `top`-variable context.
    pub closed spec fn matches_under(self, x: Id, pattern: Pattern, top: nat, s: Seq<(Seq<char>, Id)>) -> bool {
        pattern_matched(self, x, pattern, x.ctx_spec(), top, s)
    }

    /// The metavariable pattern `pattern`, with top the `top`-variable
    /// context, fits the class of `x` under the bindings `s`.
    pub closed spec fn fits_under(self, x: Id, pattern: Pattern, top: nat, s: Seq<(Seq<char>, Id)>) -> bool {
        metavar_fits(self, x, pattern, x.ctx_spec(), top, s)
    }

    /// `x` is the canonical placement of the class of some hash-consed
    /// e-node: one of the placements that a search tries.
    pub closed spec fn canonical_target(self, x: Id) -> bool {
        x.inv() && valid_root_entry(self, x, self.node_len() as int)
    }

    /// Entry `e` of the hash-cons table is a binder e-node named `op` of
    /// the class of `x`.
    pub closed spec fn binder_entry_in(self, x: Id, op: Seq<char>, e: int) -> bool {
        &&& binder_named(self, node_of(memo_entries(self.memo)[e].0), op)
        &&& exists|by: Seq<bool>| placement(self, x, e, by)
    }

    /// `body` is the body of the binder e-node of entry `e`, placed into the
    /// context of `x` extended by the bound variable.
    pub closed spec fn entry_body(self, x: Id, e: int, body: Id) -> bool {
        exists|by: Seq<bool>| #[trigger] placement(self, x, e, by)
            && body == place(node_of(memo_entries(self.memo)[e].0)->Binder_1, by.push(true))
    }

    /// The class of `x` has a binder e-node named `op` whose body, placed in
    /// `x`'s context extended by the bound variable, is `body`.
    pub closed spec fn holds_binder_body(self, x: Id, op: Seq<char>, body: Id) -> bool {
        exists|i: int, by: Seq<bool>| #[trigger] placement(self, x, i, by)
            && binder_named(self, node_of(memo_entries(self.memo)[i].0), op)
            && body == place(node_of(memo_entries(self.memo)[i].0)->Binder_1, by.push(true))
    }

    /// Match a pattern against one class, one canonical placement of each
    /// e-node at a time. An invalid match pattern matches nothing.
    pub fn ematch(&self, pattern: &Pattern, target: &Id) -> (r: Vec<Subst>)
        requires
            self.wf(),
            self.valid(*target),
            pattern_height(*pattern) <= usize::MAX,
        ensures
            substs_ok(*self, r@),
            match_check(*pattern, 0, Seq::empty()) is Err ==> r@.len() == 0,
            self.index_current() ==> forall|j: int| 0 <= j < r@.len() ==> self.matches(*target, *pattern, #[trigger] r@[j]@),
            *pattern matches Pattern::Atom(name) ==> (self.index_current() && self.holds_atom(*target, name@) ==> r@.len() > 0),
            *pattern is MetaVar && match_check(*pattern, 0, Seq::empty()) is Ok
                ==> r@.len() == if self.metavar_fits_at(*target, *pattern) { 1int } else { 0int },
            *pattern matches Pattern::Binder(op, bp) ==> (match_check(*pattern, 0, Seq::empty()) is Ok && self.index_current()
                && *bp is MetaVar && target.ctx_spec() < 7 ==> forall|e: int| #[trigger] self.binder_entry_in(*target, op@, e)
                ==> exists|body: Id| self.entry_body(*target, e, body) && (self.fits_under(body, *bp, target.ctx_spec(), Seq::empty())
                ==> exists|k: int| 0 <= k < r@.len() && self.matches_under(body, *bp, target.ctx_spec(), #[trigger] r@[k]@))),
    {
        match pattern.match_metavariables() {
            Err(_) => Vec::new(),
            Ok(_) => self.ematch_with(pattern, target, MatchMode::Canonical),
        }
    }

    /// Match a pattern against one class, trying every placement of each
    /// e-node that a redundant lift admits.
    pub fn ematch_lifted(&self, pattern: &Pattern, target: &Id) -> (r: Vec<Subst>)
        requires
            self.wf(),
            self.valid(*target),
            pattern_height(*pattern) <= usize::MAX,
        ensures
            substs_ok(*self, r@),
            match_check(*pattern, 0, Seq::empty()) is Err ==> r@.len() == 0,
            self.index_current() ==> forall|j: int| 0 <= j < r@.len() ==> self.matches(*target, *pattern, #[trigger] r@[j]@),
            *pattern matches Pattern::Atom(name) ==> (self.index_current() && self.holds_atom(*target, name@) ==> r@.len() > 0),
            *pattern is MetaVar && match_check(*pattern, 0, Seq::empty()) is Ok
                ==> r@.len() == if self.metavar_fits_at(*target, *pattern) { 1int } else { 0int },
            *pattern matches Pattern::FVar(l) ==> (self.index_current() && l@ < target.ctx_spec()
                && self.holds_var(*target, l@ as nat) ==> r@.len() > 0),
            *pattern matches Pattern::Binder(op, bp) ==> (match_check(*pattern, 0, Seq::empty()) is Ok && self.index_current()
                && *bp is MetaVar && target.ctx_spec() < 7 ==> forall|body: Id| #[trigger] self.holds_binder_body(*target, op@, body)
                && self.fits_under(body, *bp, target.ctx_spec(), Seq::empty()) ==> exists|k: int| 0 <= k < r@.len()
                && self.matches_under(body, *bp, target.ctx_spec(), #[trigger] r@[k]@)),
            *pattern matches Pattern::Binder(op, bp) ==> (match_check(*pattern, 0, Seq::empty()) is Ok && self.index_current()
                && *bp is MetaVar && target.ctx_spec() < 7 ==> forall|e: int| #[trigger] self.binder_entry_in(*target, op@, e)
                ==> exists|body: Id| self.entry_body(*target, e, body) && (self.fits_under(body, *bp, target.ctx_spec(), Seq::empty())
                ==> exists|k: int| 0 <= k < r@.len() && self.matches_under(body, *bp, target.ctx_spec(), #[trigger] r@[k]@))),
    {
        match pattern.match_metavariables() {
            Err(_) => Vec::new(),
            Ok(_) => self.ematch_with(pattern, target, MatchMode::Lifted),
        }
    }
}

/// One substitution matches a metavariable at two classes of one context
/// only if the classes are equal. So where a class has binder e-nodes whose
/// bodies differ, matching it lists a substitution for each: the matches
/// `r` that matching reports, complete for binders over a metavariable,
/// hold two different substitutions when two such bodies are not equal.
pub proof fn law_binder_bodies_match_apart(
    g: EGraph,
    target: Id,
    op: Seq<char>,
    bp: Pattern,
    r: Seq<Subst>,
    body1: Id,
    body2: Id,
)
    requires
        bp is MetaVar,
        forall|body: Id| #[trigger] g.holds_binder_body(target, op, body) && g.fits_under(body, bp, target.ctx_spec(), Seq::empty())
            ==> exists|k: int| 0 <= k < r.len() && g.matches_under(body, bp, target.ctx_spec(), #[trigger] r[k]@),
        g.holds_binder_body(target, op, body1),
        g.holds_binder_body(target, op, body2),
        g.fits_under(body1, bp, target.ctx_spec(), Seq::empty()),
        g.fits_under(body2, bp, target.ctx_spec(), Seq::empty()),
        body1.ctx_spec() == body2.ctx_spec(),
        !g.equiv(body1, body2),
    ensures
        r.len() >= 2,
        exists|k1: int, k2: int| 0 <= k1 < r.len() && 0 <= k2 < r.len() && k1 != k2
            && g.matches_under(body1, bp, target.ctx_spec(), #[trigger] r[k1]@) && g.matches_under(body2, bp, target.ctx_spec(), #[trigger] r[k2]@),
{
    let k1 = choose|k: int| 0 <= k < r.len() && g.matches_under(body1, bp, target.ctx_spec(), #[trigger] r[k]@);
    let k2 = choose|k: int| 0 <= k < r.len() && g.matches_under(body2, bp, target.ctx_spec(), #[trigger] r[k]@);
    if k1 == k2 {
        assert(g.equiv(body1, body2));
    }
}

/// Bodies of binder e-nodes of one class, placed into the class's
/// context extended by the bound variable, all live in one context.
proof fn lemma_entry_body_ctx(g: EGraph, target: Id, e: int, body: Id)
    requires
        g.wf(),
        target.ctx_spec() < 7,
        g.entry_body(target, e, body),
        node_of(memo_entries(g.memo)[e].0) is Binder,
    ensures
        body.ctx_spec() == target.ctx_spec() + 1,
{
    lemma_egraph_specs(g);
    let by = choose|by: Seq<bool>| #[trigger] placement(g, target, e, by)
        && body == place(node_of(memo_entries(g.memo)[e].0)->Binder_1, by.push(true));
    let entries = memo_entries(g.memo);
    let _ = entries[e];
    let node = node_of(entries[e].0);
    assert(node_ok(g.parent@, g.symbols@.len(), node, ctx_at(g.parent@, entries[e].1 as int)));
    lemma_count_push_seq(by);
    lemma_place(g, node->Binder_1, by.push(true));
}

proof fn lemma_count_push_seq(s: Seq<bool>)
    ensures
        count_true(s.push(true)) == count_true(s) + 1,
{
    assert(s.push(true).drop_last() =~= s);
}

/// Matching a class with two binder e-nodes named `op` whose bodies are
/// not equal, against a binder over a metavariable, reports two different
/// substitutions, one for each e-node: the matches `r`, complete for
/// binders over a metavariable, cannot serve both with one.
pub proof fn law_binder_entries_match_apart(
    g: EGraph,
    target: Id,
    op: Seq<char>,
    bp: Pattern,
    r: Seq<Subst>,
    e1: int,
    e2: int,
)
    requires
        g.wf(),
        target.ctx_spec() < 7,
        bp is MetaVar,
        forall|e: int| #[trigger] g.binder_entry_in(target, op, e) ==> exists|body: Id| g.entry_body(target, e, body)
            && (g.fits_under(body, bp, target.ctx_spec(), Seq::empty()) ==> exists|k: int| 0 <= k < r.len()
            && g.matches_under(body, bp, target.ctx_spec(), #[trigger] r[k]@)),
        g.binder_entry_in(target, op, e1),
        g.binder_entry_in(target, op, e2),
        forall|b: Id| g.entry_body(target, e1, b) ==> #[trigger] g.fits_under(b, bp, target.ctx_spec(), Seq::empty()),
        forall|b: Id| g.entry_body(target, e2, b) ==> #[trigger] g.fits_under(b, bp, target.ctx_spec(), Seq::empty()),
        forall|b1: Id, b2: Id| g.entry_body(target, e1, b1) && g.entry_body(target, e2, b2) ==> !#[trigger] g.equiv(b1, b2),
    ensures
        r.len() >= 2,
{
    let b1 = choose|body: Id| g.entry_body(target, e1, body) && (g.fits_under(body, bp, target.ctx_spec(), Seq::empty())
        ==> exists|k: int| 0 <= k < r.len() && g.matches_under(body, bp, target.ctx_spec(), #[trigger] r[k]@));
    let b2 = choose|body: Id| g.entry_body(target, e2, body) && (g.fits_under(body, bp, target.ctx_spec(), Seq::empty())
        ==> exists|k: int| 0 <= k < r.len() && g.matches_under(body, bp, target.ctx_spec(), #[trigger] r[k]@));
    assert(g.fits_under(b1, bp, target.ctx_spec(), Seq::empty()));
    assert(g.fits_under(b2, bp, target.ctx_spec(), Seq::empty()));
    let k1 = choose|k: int| 0 <= k < r.len() && g.matches_under(b1, bp, target.ctx_spec(), #[trigger] r[k]@);
    let k2 = choose|k: int| 0 <= k < r.len() && g.matches_under(b2, bp, target.ctx_spec(), #[trigger] r[k]@);
    lemma_entry_body_ctx(g, target, e1, b1);
    lemma_entry_body_ctx(g, target, e2, b2);
    if k1 == k2 {
        assert(g.equiv(b1, b2));
    }
}

/// The first binding of a name is one of the bindings.
pub proof fn lemma_subst_lookup_in(s: Seq<(Seq<char>, Id)>, name: Seq<char>)
    requires
        subst_lookup(s, name) is Some,
    ensures
        exists|i: int| 0 <= i < s.len() && s[i].1 == subst_lookup(s, name)->Some_0,
    decreases s.len(),
{
    if s[0].0 != name {
        lemma_subst_lookup_in(s.drop_first(), name);
        let i = choose|i: int| 0 <= i < s.drop_first().len() && s.drop_first()[i].1 == subst_lookup(s, name)->Some_0;
        assert(s[i + 1] == s.drop_first()[i]);
    }
}

/// `t` binds every name that `s` binds, to the same class.
pub(crate) open spec fn subst_extends(s: Seq<(Seq<char>, Id)>, t: Seq<(Seq<char>, Id)>) -> bool {
    forall|n: Seq<char>| #[trigger] subst_lookup(s, n) is Some ==> subst_lookup(t, n) == subst_lookup(s, n)
}

/// Looking up a name after a binding was added at the end.
proof fn lemma_lookup_push(s: Seq<(Seq<char>, Id)>, e: (Seq<char>, Id), n: Seq<char>)
    ensures
        subst_lookup(s.push(e), n) == (if subst_lookup(s, n) is Some {
            subst_lookup(s, n)
        } else if e.0 == n {
            Some(e.1)
        } else {
            None
        }),
    decreases s.len(),
{
    if s.len() > 0 {
        assert(s.push(e)[0] == s[0]);
        assert(s.push(e).drop_first() =~= s.drop_first().push(e));
        lemma_lookup_push(s.drop_first(), e, n);
        assert(subst_lookup(s.push(e).drop_first(), n) == subst_lookup(s.drop_first().push(e), n));
    } else {
        assert(s.push(e)[0] == e);
        assert(s.push(e).drop_first().len() == 0);
        assert(subst_lookup(s.push(e).drop_first(), n) is None);
    }
}

/// Binding a new name extends a substitution.
proof fn lemma_extends_push(s: Seq<(Seq<char>, Id)>, e: (Seq<char>, Id))
    requires
        subst_lookup(s, e.0) is None,
    ensures
        subst_extends(s, s.push(e)),
        subst_lookup(s.push(e), e.0) == Some(e.1),
{
    lemma_lookup_push(s, e, e.0);
    assert forall|n: Seq<char>| #[trigger] subst_lookup(s, n) is Some implies subst_lookup(s.push(e), n) == subst_lookup(s, n) by {
        lemma_lookup_push(s, e, n);
    }
}

/// The class of `x`, in a `ctx`-variable context whose top lies
/// `ctx - top` binders out, matches the pattern `p` under the bindings `s`:
/// a metavariable applied to distinct bound variables is its binding placed
/// through their occurrence; a variable, an atom, an application or a
/// binder is a hash-consed e-node of the class, placed into its context,
/// whose children match the sub-patterns.
pub(crate) open spec fn pattern_matched(g: EGraph, x: Id, p: Pattern, ctx: nat, top: nat, s: Seq<(Seq<char>, Id)>) -> bool
    decreases p,
{
    match p {
        Pattern::MetaVar(name, args) => {
            &&& all_bvars(args@)
            &&& top <= ctx
            &&& miller_ordered(bvar_indices(args@), (ctx - top) as nat)
            &&& subst_lookup(s, name@) matches Some(b)
            &&& g.equiv(x, place(b, occurrence_seq(top, ctx, bvar_indices(args@))))
        },
        Pattern::FVar(l) => l@ < top && in_class(g, x, Node::Var, single_true(ctx, l@ as int)),
        Pattern::BVar(k) => top + k@ < ctx && in_class(g, x, Node::Var, single_true(ctx, ctx - 1 - k@)),
        Pattern::Atom(name) => exists|sym: u32, by: Seq<bool>|
            #[trigger] in_class(g, x, Node::Atom(sym), by) && (sym as int) < g.symbols@.len() && g.symbols@[sym as int]@ == name@,
        Pattern::App(fp, ap) => exists|f: Id, a: Id, by: Seq<bool>|
            #[trigger] in_class(g, x, Node::App(f, a), by) && pattern_matched(g, place(f, by), *fp, ctx, top, s)
                && pattern_matched(g, place(a, by), *ap, ctx, top, s),
        Pattern::Binder(op, bp) => ctx < 7 && exists|sym: u32, b: Id, by: Seq<bool>|
            #[trigger] in_class(g, x, Node::Binder(sym, b), by) && (sym as int) < g.symbols@.len()
                && g.symbols@[sym as int]@ == op@ && pattern_matched(g, place(b, by.push(true)), *bp, ctx + 1, top, s),
        Pattern::Subst(_, _) => false,
    }
}

/// A match stays a match under more bindings.
proof fn lemma_matched_extends(g: EGraph, x: Id, p: Pattern, ctx: nat, top: nat, s: Seq<(Seq<char>, Id)>, t: Seq<(Seq<char>, Id)>)
    requires
        subst_extends(s, t),
        pattern_matched(g, x, p, ctx, top, s),
    ensures
        pattern_matched(g, x, p, ctx, top, t),
    decreases p,
{
    match p {
        Pattern::MetaVar(name, args) => {
            assert(subst_lookup(s, name@) is Some);
        },
        Pattern::App(fp, ap) => {
            let (f, a, by) = choose|f: Id, a: Id, by: Seq<bool>|
                #[trigger] in_class(g, x, Node::App(f, a), by) && pattern_matched(g, place(f, by), *fp, ctx, top, s)
                    && pattern_matched(g, place(a, by), *ap, ctx, top, s);
            lemma_matched_extends(g, place(f, by), *fp, ctx, top, s, t);
            lemma_matched_extends(g, place(a, by), *ap, ctx, top, s, t);
        },
        Pattern::Binder(op, bp) => {
            let (sym, b, by) = choose|sym: u32, b: Id, by: Seq<bool>|
                #[trigger] in_class(g, x, Node::Binder(sym, b), by) && (sym as int) < g.symbols@.len()
                    && g.symbols@[sym as int]@ == op@ && pattern_matched(g, place(b, by.push(true)), *bp, ctx + 1, top, s);
            lemma_matched_extends(g, place(b, by.push(true)), *bp, ctx + 1, top, s, t);
        },
        _ => {},
    }
}

/// A rebuilt e-graph's reverse index is current.
pub proof fn lemma_rebuilt_index_current(g: EGraph)
    requires
        g.rebuilt(),
    ensures
        g.index_current(),
{
    lemma_egraph_specs(g);
}

/// Extending is transitive.
proof fn lemma_extends_trans(s: Seq<(Seq<char>, Id)>, t: Seq<(Seq<char>, Id)>, u: Seq<(Seq<char>, Id)>)
    requires
        subst_extends(s, t),
        subst_extends(t, u),
    ensures
        subst_extends(s, u),
{
    assert forall|n: Seq<char>| #[trigger] subst_lookup(s, n) is Some implies subst_lookup(u, n) == subst_lookup(s, n) by {
        assert(subst_lookup(t, n) is Some);
    }
}

/// The substitutions that `after` adds to `before` each extend `s` and,
/// while the reverse index is current or unused, make `target` match `p`.
pub(crate) open spec fn new_matches(
    g: EGraph,
    target: Id,
    p: Pattern,
    top: nat,
    s: Seq<(Seq<char>, Id)>,
    before: Seq<Subst>,
    after: Seq<Subst>,
) -> bool {
    &&& before.len() <= after.len()
    &&& forall|j: int| 0 <= j < before.len() ==> #[trigger] after[j] == before[j]
    &&& forall|j: int| before.len() <= j < after.len() ==> subst_extends(s, #[trigger] after[j]@)
    &&& (g.rev_valid || !g.rev_tracked) ==> forall|j: int|
        before.len() <= j < after.len() ==> pattern_matched(g, target, p, target.ctx_spec(), top, #[trigger] after[j]@)
}

/// Adding one more matching substitution.
proof fn lemma_new_matches_push(
    g: EGraph,
    target: Id,
    p: Pattern,
    top: nat,
    s: Seq<(Seq<char>, Id)>,
    before: Seq<Subst>,
    mid: Seq<Subst>,
    t: Subst,
)
    requires
        new_matches(g, target, p, top, s, before, mid),
        subst_extends(s, t@),
        (g.rev_valid || !g.rev_tracked) ==> pattern_matched(g, target, p, target.ctx_spec(), top, t@),
    ensures
        new_matches(g, target, p, top, s, before, mid.push(t)),
{
    let after = mid.push(t);
    assert forall|j: int| 0 <= j < before.len() implies #[trigger] after[j] == before[j] by {
        assert(after[j] == mid[j]);
    }
    assert forall|j: int| before.len() <= j < after.len() implies subst_extends(s, #[trigger] after[j]@) by {
        if j < mid.len() {
            assert(after[j] == mid[j]);
        }
    }
    if g.rev_valid || !g.rev_tracked {
        assert forall|j: int| before.len() <= j < after.len() implies pattern_matched(g, target, p, target.ctx_spec(), top, #[trigger] after[j]@) by {
            if j < mid.len() {
                assert(after[j] == mid[j]);
            }
        }
    }
}

/// A list of substitutions without its last entry.
spec fn without_last(v: Seq<Subst>) -> Seq<Subst> {
    v.drop_last()
}

/// Appending a good substitution keeps a list good.
proof fn lemma_push_substs_ok(g: EGraph, v: Seq<Subst>, s: Subst)
    requires
        substs_ok(g, v),
        subst_ok(g, s@),
    ensures
        substs_ok(g, v.push(s)),
{
    assert forall|i: int| 0 <= i < v.push(s).len() implies subst_ok(g, #[trigger] v.push(s)[i]@) by {
        if i < v.len() {
            assert(v.push(s)[i] == v[i]);
        }
    }
}


/// The order of match targets: by raw class, then by the packed lift,
/// which orders lifts by context size and then by their selection bits.
pub(crate) open spec fn target_lt(a: Id, b: Id) -> bool {
    ||| a.raw_spec() < b.raw_spec()
    ||| (a.raw_spec() == b.raw_spec() && a.lift_spec().byte() < b.lift_spec().byte())
}

/// The canonical placement of the class of hash-consed entry `i`.
pub(crate) open spec fn entry_root(g: EGraph, i: int) -> (Seq<bool>, int) {
    g.class_root(memo_entries(g.memo)[i].1 as int)
}

/// Bucket `r` holds, in increasing packed order, exactly the canonical
/// placements at root `r` of the first `n` entries.
pub(crate) open spec fn buckets_ok(g: EGraph, b: Seq<Vec<Lift>>, n: int) -> bool {
    &&& b.len() == g.len()
    &&& forall|r: int, k: int| 0 <= r < b.len() && 0 <= k < b[r]@.len() ==> {
        &&& (#[trigger] b[r]@[k]).inv()
        &&& exists|i: int| 0 <= i < n && entry_root(g, i) == (b[r]@[k]@, r)
    }
    &&& forall|r: int, k1: int, k2: int| 0 <= r < b.len() && 0 <= k1 < k2 < b[r]@.len() ==> (#[trigger] b[r]@[k1]).0 < (#[trigger] b[r]@[k2]).0
    &&& forall|i: int| 0 <= i < n ==> bucket_has(b, #[trigger] entry_root(g, i))
}

/// Some lift of bucket `e.1` has flags `e.0`.
pub(crate) open spec fn bucket_has(b: Seq<Vec<Lift>>, e: (Seq<bool>, int)) -> bool {
    exists|k: int| 0 <= k < b[e.1]@.len() && #[trigger] b[e.1]@[k]@ == e.0
}

impl EGraph {
    /// Every canonical class placement that some hash-consed e-node
    /// reaches, once each, in target order.
    pub(crate) fn canonical_targets(&self) -> (r: Vec<Id>)
        requires
            self.wf(),
        ensures
            forall|j: int| 0 <= j < r@.len() ==> valid_root_entry(*self, #[trigger] r@[j], self.node_len() as int),
            forall|i: int| 0 <= i < self.node_len() ==> target_listed(r@, #[trigger] entry_root(*self, i)),
            forall|j1: int, j2: int| 0 <= j1 < j2 < r@.len() ==> target_lt(#[trigger] r@[j1], #[trigger] r@[j2]),
            forall|j: int| 0 <= j < r@.len() ==> (#[trigger] r@[j]).inv(),
    {
        proof {
            lemma_egraph_specs(*self);
        }
        let len = self.parent.len();
        let mut buckets: Vec<Vec<Lift>> = Vec::new();
        while buckets.len() < len
            invariant
                buckets@.len() <= len,
                len == self.len(),
                forall|r: int| 0 <= r < buckets@.len() ==> (#[trigger] buckets@[r])@.len() == 0,
            decreases len - buckets@.len(),
        {
            buckets.push(Vec::new());
        }
        let n = memo_len(&self.memo);
        let mut i: usize = 0;
        while i < n
            invariant
                self.wf(),
                wf_body(*self),
                n == self.node_len(),
                n == memo_entries(self.memo).len(),
                len == self.len(),
                len == self.parent@.len(),
                i <= n,
                buckets_ok(*self, buckets@, i as int),
                forall|x: Id| #[trigger] self.valid(x) == id_valid(self.parent@, x),
                forall|x: Id| #[trigger] self.canon(x) == crate::unionfind::find_spec(self.parent@, self.rank@, self.rank_bound@, x),
                forall|r: int| #[trigger] self.class_root(r) == walk(self.parent@, self.rank@, self.rank_bound@, r),
                forall|r: int| #[trigger] self.class_ctx(r) == ctx_at(self.parent@, r),
                forall|r: int| #[trigger] self.is_root_class(r) == is_root(self.parent@, r),
            decreases n - i,
        {
            let entry = memo_get_index(&self.memo, i);
            let raw = match entry {
                Some((_, raw)) => raw,
                None => {
                    proof {
                        assert(false);
                    }
                    0
                },
            };
            proof {
                let _ = memo_entries(self.memo)[i as int];
            }
            let origin = self.origin(raw);
            let placed = self.find(&origin);
            let l = placed.lift();
            let root = placed.raw();
            proof {
                use_type_invariant(&l);
                lemma_walk(self.parent@, self.rank@, self.rank_bound@, raw as int);
                let w = walk(self.parent@, self.rank@, self.rank_bound@, raw as int);
                law_compose_identity_left(w.0);
                assert(entry_root(*self, i as int) == (l@, root as int));
            }
            let ghost old_buckets = buckets@;
            let mut bucket: Vec<Lift> = Vec::new();
            buckets.set_and_swap(root as usize, &mut bucket);
            let mut p: usize = 0;
            while p < bucket.len() && bucket[p].0 < l.0
                invariant
                    p <= bucket@.len(),
                    forall|k: int| 0 <= k < p ==> (#[trigger] bucket@[k]).0 < l.0,
                decreases bucket@.len() - p,
            {
                p = p + 1;
            }
            if p < bucket.len() && bucket[p].0 == l.0 {
                buckets.set(root as usize, bucket);
                proof {
                    assert(buckets@ =~= old_buckets);
                    assert(buckets_ok(*self, buckets@, i + 1)) by {
                        lemma_buckets_step_present(*self, old_buckets, i as int, p as int);
                    }
                }
            } else {
                let ghost before_insert = bucket@;
                bucket.insert(p, l);
                buckets.set(root as usize, bucket);
                proof {
                    assert(buckets@ =~= old_buckets.update(root as int, buckets@[root as int]));
                    assert(before_insert == old_buckets[root as int]@);
                    lemma_buckets_step_insert(*self, old_buckets, buckets@, i as int, p as int, l);
                }
            }
            i = i + 1;
        }
        let mut out: Vec<Id> = Vec::new();
        let mut q: usize = 0;
        proof {
            assert forall|i: int| 0 <= i < n implies (#[trigger] entry_root(*self, i)).1 >= 0 by {
                lemma_entry_root_valid(*self, i);
            }
        }
        while q < len
            invariant
                self.wf(),
                len == self.len(),
                len == self.parent@.len(),
                len <= RAW_MASK + 1,
                n == self.node_len(),
                q <= len,
                buckets_ok(*self, buckets@, n as int),
                forall|x: Id| #[trigger] self.valid(x) == id_valid(self.parent@, x),
                forall|q: int| #[trigger] self.class_root(q) == walk(self.parent@, self.rank@, self.rank_bound@, q),
                forall|q: int| #[trigger] self.is_root_class(q) == is_root(self.parent@, q),
                forall|j: int| 0 <= j < out@.len() ==> (#[trigger] out@[j]).raw_spec() < q,
                forall|j: int| 0 <= j < out@.len() ==> valid_root_entry(*self, #[trigger] out@[j], n as int),
                forall|i: int| 0 <= i < n && (#[trigger] entry_root(*self, i)).1 < q ==> exists|j: int| 0 <= j < out@.len()
                    && entry_root(*self, i) == (out@[j].lift_spec()@, out@[j].raw_spec() as int),
                forall|j1: int, j2: int| 0 <= j1 < j2 < out@.len() ==> target_lt(#[trigger] out@[j1], #[trigger] out@[j2]),
                forall|j: int| 0 <= j < out@.len() ==> (#[trigger] out@[j]).inv(),
            decreases len - q,
        {
            let ghost base = out@;
            append_bucket(&mut out, &buckets[q], q as u32);
            proof {
                lemma_append_step(*self, buckets@, n as int, q as int, base, out@);
                assert forall|j: int| 0 <= j < out@.len() implies (#[trigger] out@[j]).inv() by {
                    if j < base.len() {
                        assert(base[j].inv());
                    } else {
                        let m = j - base.len();
                        assert(out@[base.len() + m].inv());
                    }
                }
            }
            q = q + 1;
        }
        proof {
            assert forall|i: int| 0 <= i < self.node_len() implies target_listed(out@, #[trigger] entry_root(*self, i)) by {
                lemma_entry_root_valid(*self, i);
            }
        }
        out
    }
}

/// The output invariant of `canonical_targets` after appending bucket `r`.
#[verifier::spinoff_prover]
#[verifier::rlimit(80)]
proof fn lemma_append_step(g: EGraph, b: Seq<Vec<Lift>>, n: int, r: int, base: Seq<Id>, out: Seq<Id>)
    requires
        g.wf(),
        n == g.node_len(),
        buckets_ok(g, b, n),
        0 <= r < b.len(),
        forall|j: int| 0 <= j < base.len() ==> (#[trigger] base[j]).raw_spec() < r,
        forall|j: int| 0 <= j < base.len() ==> valid_root_entry(g, #[trigger] base[j], n),
        forall|i: int| 0 <= i < n && (#[trigger] entry_root(g, i)).1 < r ==> exists|j: int| 0 <= j < base.len()
            && entry_root(g, i) == (base[j].lift_spec()@, base[j].raw_spec() as int),
        forall|j1: int, j2: int| 0 <= j1 < j2 < base.len() ==> target_lt(#[trigger] base[j1], #[trigger] base[j2]),
        out.len() == base.len() + b[r]@.len(),
        forall|j: int| 0 <= j < base.len() ==> out[j] == base[j],
        forall|m: int| 0 <= m < b[r]@.len() ==> (#[trigger] out[base.len() + m]).raw_spec() == r
            && out[base.len() + m].lift_spec() == b[r]@[m],
    ensures
        forall|j: int| 0 <= j < out.len() ==> (#[trigger] out[j]).raw_spec() < r + 1,
        forall|j: int| 0 <= j < out.len() ==> valid_root_entry(g, #[trigger] out[j], n),
        forall|i: int| 0 <= i < n && (#[trigger] entry_root(g, i)).1 < r + 1 ==> exists|j: int| 0 <= j < out.len()
            && entry_root(g, i) == (out[j].lift_spec()@, out[j].raw_spec() as int),
        forall|j1: int, j2: int| 0 <= j1 < j2 < out.len() ==> target_lt(#[trigger] out[j1], #[trigger] out[j2]),
{
    let bk = b[r]@;
    assert forall|j: int| 0 <= j < out.len() implies (#[trigger] out[j]).raw_spec() < r + 1 by {
        if j >= base.len() {
            let m = j - base.len();
            assert(out[base.len() + m].raw_spec() == r);
        } else {
            assert(out[j] == base[j]);
        }
    }
    assert forall|j: int| 0 <= j < out.len() implies valid_root_entry(g, #[trigger] out[j], n) by {
        if j >= base.len() {
            let m = j - base.len();
            let x = out[base.len() + m];
            assert(bk[m].inv());
            let i0 = choose|i0: int| 0 <= i0 < n && entry_root(g, i0) == (bk[m]@, r);
            lemma_entry_root_valid(g, i0);
            assert(entry_root(g, i0) == (x.lift_spec()@, x.raw_spec() as int));
        } else {
            assert(out[j] == base[j]);
        }
    }
    assert forall|i: int| 0 <= i < n && (#[trigger] entry_root(g, i)).1 < r + 1 implies exists|j: int| 0 <= j < out.len()
            && entry_root(g, i) == (out[j].lift_spec()@, out[j].raw_spec() as int) by {
        let e = entry_root(g, i);
        if e.1 < r {
            let j = choose|j: int| 0 <= j < base.len() && entry_root(g, i) == (base[j].lift_spec()@, base[j].raw_spec() as int);
            assert(out[j] == base[j]);
        } else {
            assert(bucket_has(b, e));
            let kk = choose|kk: int| 0 <= kk < b[e.1]@.len() && b[e.1]@[kk]@ == e.0;
            assert(out[base.len() + kk].lift_spec() == bk[kk]);
        }
    }
    assert forall|j1: int, j2: int| 0 <= j1 < j2 < out.len() implies target_lt(#[trigger] out[j1], #[trigger] out[j2]) by {
        if j2 < base.len() {
            assert(out[j1] == base[j1]);
            assert(out[j2] == base[j2]);
        } else if j1 < base.len() {
            assert(out[j1] == base[j1]);
            let m2 = j2 - base.len();
            assert(out[base.len() + m2].raw_spec() == r);
        } else {
            let m1 = j1 - base.len();
            let m2 = j2 - base.len();
            assert(out[base.len() + m1].lift_spec() == bk[m1]);
            assert(out[base.len() + m2].lift_spec() == bk[m2]);
            assert(bk[m1].0 < bk[m2].0);
        }
    }
}

/// Append the placements of bucket `r` at root `r`.
fn append_bucket(out: &mut Vec<Id>, bucket: &Vec<Lift>, r: u32)
    requires
        r <= RAW_MASK,
    ensures
        final(out)@.len() == old(out)@.len() + bucket@.len(),
        forall|j: int| 0 <= j < old(out)@.len() ==> final(out)@[j] == old(out)@[j],
        forall|m: int| 0 <= m < bucket@.len() ==> (#[trigger] final(out)@[old(out)@.len() + m]).raw_spec() == r
            && final(out)@[old(out)@.len() + m].lift_spec() == bucket@[m],
        forall|j: int| 0 <= j < old(out)@.len() && (#[trigger] old(out)@[j]).inv() ==> final(out)@[j].inv(),
        forall|m: int| 0 <= m < bucket@.len() ==> (#[trigger] final(out)@[old(out)@.len() + m]).inv(),
{
    let mut k: usize = 0;
    while k < bucket.len()
        invariant
            r <= RAW_MASK,
            k <= bucket@.len(),
            out@.len() == old(out)@.len() + k,
            forall|j: int| 0 <= j < old(out)@.len() ==> out@[j] == old(out)@[j],
            forall|m: int| 0 <= m < k ==> (#[trigger] out@[old(out)@.len() + m]).raw_spec() == r
                && out@[old(out)@.len() + m].lift_spec() == bucket@[m],
            forall|m: int| 0 <= m < k ==> (#[trigger] out@[old(out)@.len() + m]).inv(),
        decreases bucket@.len() - k,
    {
        let id = Id::new(bucket[k], r);
        proof {
            use_type_invariant(&id);
        }
        let ghost prev = out@;
        out.push(id);
        proof {
            assert forall|m: int| 0 <= m < k + 1 implies (#[trigger] out@[old(out)@.len() + m]).inv() by {
                if m < k {
                    assert(out@[old(out)@.len() + m] == prev[old(out)@.len() + m]);
                }
            }
            assert forall|m: int| 0 <= m < k + 1 implies (#[trigger] out@[old(out)@.len() + m]).raw_spec() == r
                && out@[old(out)@.len() + m].lift_spec() == bucket@[m] by {
                if m < k {
                    assert(out@[old(out)@.len() + m] == prev[old(out)@.len() + m]);
                }
            }
        }
        k = k + 1;
    }
}

/// Some target of the list is the placement `e`.
pub(crate) open spec fn target_listed(v: Seq<Id>, e: (Seq<bool>, int)) -> bool {
    exists|j: int| 0 <= j < v.len() && e == (v[j].lift_spec()@, v[j].raw_spec() as int)
}

/// `x` is a valid root placement reached by one of the first `n` entries.
pub(crate) open spec fn valid_root_entry(g: EGraph, x: Id, n: int) -> bool {
    &&& g.valid(x)
    &&& g.is_root_class(x.raw_spec() as int)
    &&& exists|i: int| 0 <= i < n && #[trigger] entry_root(g, i) == (x.lift_spec()@, x.raw_spec() as int)
}

/// A canonical target is one of the listed targets.
pub(crate) proof fn lemma_canonical_target_listed(g: EGraph, x: Id, targets: Seq<Id>)
    requires
        g.wf(),
        g.canonical_target(x),
        forall|j: int| 0 <= j < targets.len() ==> valid_root_entry(g, #[trigger] targets[j], g.node_len() as int),
        forall|i: int| 0 <= i < g.node_len() ==> target_listed(targets, #[trigger] entry_root(g, i)),
        forall|j: int| 0 <= j < targets.len() ==> (#[trigger] targets[j]).inv(),
    ensures
        exists|j: int| 0 <= j < targets.len() && targets[j] == x,
{
    let i = choose|i: int| 0 <= i < g.node_len() && #[trigger] entry_root(g, i) == (x.lift_spec()@, x.raw_spec() as int);
    assert(target_listed(targets, entry_root(g, i)));
    let j = choose|j: int| 0 <= j < targets.len() && entry_root(g, i) == (targets[j].lift_spec()@, targets[j].raw_spec() as int);
    lemma_id_eq(targets[j], x);
}

/// E-graphs that differ only in their rebuild time have the same
/// canonical targets and binder e-nodes, and match metavariables alike.
pub(crate) proof fn lemma_same_but_timing_matches(g1: EGraph, g2: EGraph)
    requires
        g1.same_but_timing(g2),
    ensures
        forall|x: Id| #[trigger] g2.canonical_target(x) == g1.canonical_target(x),
        forall|x: Id, op: Seq<char>, e: int| #[trigger] g2.binder_entry_in(x, op, e) == g1.binder_entry_in(x, op, e),
        forall|x: Id, e: int, body: Id| #[trigger] g2.entry_body(x, e, body) == g1.entry_body(x, e, body),
        forall|x: Id, p: Pattern, top: nat, s: Seq<(Seq<char>, Id)>| p is MetaVar ==> #[trigger] g2.fits_under(x, p, top, s) == g1.fits_under(x, p, top, s),
        forall|x: Id, p: Pattern, top: nat, s: Seq<(Seq<char>, Id)>| p is MetaVar ==> #[trigger] g2.matches_under(x, p, top, s) == g1.matches_under(x, p, top, s),
{
    crate::egraph::law_same_but_timing(g1, g2);
    crate::egraph::lemma_same_but_timing_fields(g1, g2);
    lemma_egraph_specs(g1);
    lemma_egraph_specs(g2);
    assert(g2.parent == g1.parent && g2.rank == g1.rank && g2.rank_bound == g1.rank_bound);
    assert(g2.memo == g1.memo && g2.symbols == g1.symbols);
    let n = g1.node_len() as int;
    assert forall|i: int| #[trigger] entry_root(g2, i) == entry_root(g1, i) by {}
    assert forall|x: Id, i: int, by: Seq<bool>| #[trigger] placement(g2, x, i, by) == placement(g1, x, i, by) by {}
    assert forall|x: Id| #[trigger] g2.canonical_target(x) == g1.canonical_target(x) by {
        let key = (x.lift_spec()@, x.raw_spec() as int);
        if valid_root_entry(g1, x, n) {
            let i = choose|i: int| 0 <= i < n && #[trigger] entry_root(g1, i) == key;
            assert(entry_root(g2, i) == entry_root(g1, i));
        }
        if valid_root_entry(g2, x, n) {
            let i = choose|i: int| 0 <= i < n && #[trigger] entry_root(g2, i) == key;
            assert(entry_root(g2, i) == entry_root(g1, i));
        }
        assert(valid_root_entry(g2, x, n) == valid_root_entry(g1, x, n));
    }
    assert forall|x: Id, op: Seq<char>, e: int| #[trigger] g2.binder_entry_in(x, op, e) == g1.binder_entry_in(x, op, e) by {
        if g1.binder_entry_in(x, op, e) {
            let by = choose|by: Seq<bool>| placement(g1, x, e, by);
            assert(placement(g2, x, e, by));
        }
        if g2.binder_entry_in(x, op, e) {
            let by = choose|by: Seq<bool>| placement(g2, x, e, by);
            assert(placement(g1, x, e, by));
        }
    }
    assert forall|x: Id, e: int, body: Id| #[trigger] g2.entry_body(x, e, body) == g1.entry_body(x, e, body) by {
        if g1.entry_body(x, e, body) {
            let by = choose|by: Seq<bool>| #[trigger] placement(g1, x, e, by)
                && body == place(node_of(memo_entries(g1.memo)[e].0)->Binder_1, by.push(true));
            assert(placement(g2, x, e, by));
        }
        if g2.entry_body(x, e, body) {
            let by = choose|by: Seq<bool>| #[trigger] placement(g2, x, e, by)
                && body == place(node_of(memo_entries(g2.memo)[e].0)->Binder_1, by.push(true));
            assert(placement(g1, x, e, by));
        }
    }
}

/// A canonical target names an existing class.
pub(crate) proof fn lemma_canonical_target_valid(g: EGraph, x: Id)
    requires
        g.canonical_target(x),
    ensures
        g.valid(x),
{
}

/// The canonical target that an atom's entry reaches holds that atom.
#[verifier::spinoff_prover]
#[verifier::rlimit(60)]
pub(crate) proof fn lemma_atom_target(g: EGraph, x: Id, name: Seq<char>, t: Id, i: int)
    requires
        g.wf(),
        atom_at(g, i, x, name),
        t.inv(),
        g.valid(t),
        g.is_root_class(t.raw_spec() as int),
        entry_root(g, i) == (t.lift_spec()@, t.raw_spec() as int),
    ensures
        g.holds_atom(t, name),
        atom_at(g, i, t, name),
        t.lift_spec()@.len() == 0,
{
    lemma_egraph_specs(g);
    let raw = memo_entries(g.memo)[i].1 as int;
    lemma_class_id(g, raw);
    crate::unionfind::lemma_walk(g.parent@, g.rank@, g.rank_bound@, raw);
    assert(t.lift_spec()@.len() == 0);
    crate::egraph::lemma_canon_root_id(g, t);
    let e = no_flags(t.lift_spec()@.len());
    assert(e =~= Seq::<bool>::empty());
    assert(compose_seq(e, class_id(g, raw).lift_spec()@) =~= class_id(g, raw).lift_spec()@);
    lemma_place(g, class_id(g, raw), e);
    lemma_id_lift_inv(place(class_id(g, raw), e));
    lemma_id_lift_inv(class_id(g, raw));
    lemma_view_injective(place(class_id(g, raw), e).lift_spec(), class_id(g, raw).lift_spec());
    crate::id::lemma_id_ext(place(class_id(g, raw), e), class_id(g, raw));
    assert(atom_at(g, i, t, name));
    crate::holds::lemma_holds_atom(g, t, name, i);
}

/// The placement an entry reaches is a valid root placement.
proof fn lemma_entry_root_valid(g: EGraph, i: int)
    requires
        g.wf(),
        0 <= i < g.node_len(),
    ensures
        0 <= entry_root(g, i).1 < g.len(),
        g.is_root_class(entry_root(g, i).1),
        count_true(entry_root(g, i).0) == g.class_ctx(entry_root(g, i).1),
        forall|x: Id| x.raw_spec() == entry_root(g, i).1 && x.lift_spec()@ == entry_root(g, i).0 ==> #[trigger] g.valid(x),
{
    lemma_egraph_specs(g);
    let _ = memo_entries(g.memo)[i];
    lemma_walk(g.parent@, g.rank@, g.rank_bound@, memo_entries(g.memo)[i].1 as int);
}

proof fn lemma_buckets_step_present(g: EGraph, b: Seq<Vec<Lift>>, i: int, p: int)
    requires
        buckets_ok(g, b, i),
        0 <= i < g.node_len(),
        0 <= entry_root(g, i).1 < b.len(),
        0 <= p < b[entry_root(g, i).1]@.len(),
        b[entry_root(g, i).1]@[p]@ == entry_root(g, i).0,
    ensures
        buckets_ok(g, b, i + 1),
{
    assert forall|r: int, k: int| 0 <= r < b.len() && 0 <= k < b[r]@.len() implies {
        &&& (#[trigger] b[r]@[k]).inv()
        &&& exists|i2: int| 0 <= i2 < i + 1 && entry_root(g, i2) == (b[r]@[k]@, r)
    } by {
        let i2 = choose|i2: int| 0 <= i2 < i && entry_root(g, i2) == (b[r]@[k]@, r);
    }
    assert forall|i2: int| 0 <= i2 < i + 1 implies bucket_has(b, #[trigger] entry_root(g, i2)) by {
        if i2 == i {
            let e = entry_root(g, i2);
            assert(0 <= p < b[e.1]@.len() && b[e.1]@[p]@ == e.0);
        }
    }
}

proof fn lemma_buckets_step_insert(g: EGraph, b: Seq<Vec<Lift>>, b2: Seq<Vec<Lift>>, i: int, p: int, l: Lift)
    requires
        g.wf(),
        buckets_ok(g, b, i),
        0 <= i < g.node_len(),
        l.inv(),
        entry_root(g, i) == (l@, entry_root(g, i).1),
        0 <= entry_root(g, i).1 < b.len(),
        0 <= p <= b[entry_root(g, i).1]@.len(),
        forall|k: int| 0 <= k < p ==> (#[trigger] b[entry_root(g, i).1]@[k]).0 < l.0,
        p < b[entry_root(g, i).1]@.len() ==> b[entry_root(g, i).1]@[p].0 > l.0,
        b2 == b.update(entry_root(g, i).1, b2[entry_root(g, i).1]),
        b2[entry_root(g, i).1]@ == b[entry_root(g, i).1]@.insert(p, l),
    ensures
        buckets_ok(g, b2, i + 1),
{
    let root = entry_root(g, i).1;
    let old_b = b[root]@;
    let new_b = b2[root]@;
    assert(b2.len() == b.len());
    assert forall|r: int, k: int| 0 <= r < b2.len() && 0 <= k < b2[r]@.len() implies {
        &&& (#[trigger] b2[r]@[k]).inv()
        &&& exists|i2: int| 0 <= i2 < i + 1 && entry_root(g, i2) == (b2[r]@[k]@, r)
    } by {
        if r != root {
            assert(b2[r] == b[r]);
            let i2 = choose|i2: int| 0 <= i2 < i && entry_root(g, i2) == (b[r]@[k]@, r);
        } else if k < p {
            assert(new_b[k] == old_b[k]);
            let i2 = choose|i2: int| 0 <= i2 < i && entry_root(g, i2) == (b[r]@[k]@, r);
        } else if k == p {
            assert(new_b[k] == l);
        } else {
            assert(new_b[k] == old_b[k - 1]);
            let i2 = choose|i2: int| 0 <= i2 < i && entry_root(g, i2) == (b[r]@[k - 1]@, r);
        }
    }
    assert forall|r: int, k1: int, k2: int| 0 <= r < b2.len() && 0 <= k1 < k2 < b2[r]@.len() implies (#[trigger] b2[r]@[k1]).0 < (#[trigger] b2[r]@[k2]).0 by {
        if r != root {
            assert(b2[r] == b[r]);
        } else {
            if k2 < p {
                assert(new_b[k1] == old_b[k1]);
                assert(new_b[k2] == old_b[k2]);
            } else if k2 == p {
                assert(new_b[k1] == old_b[k1]);
            } else if k1 < p {
                assert(new_b[k1] == old_b[k1]);
                assert(new_b[k2] == old_b[k2 - 1]);
            } else if k1 == p {
                assert(new_b[k2] == old_b[k2 - 1]);
                if k2 - 1 > p {
                    assert(old_b[p].0 < old_b[k2 - 1].0);
                }
            } else {
                assert(new_b[k1] == old_b[k1 - 1]);
                assert(new_b[k2] == old_b[k2 - 1]);
            }
        }
    }
    assert forall|i2: int| 0 <= i2 < i + 1 implies bucket_has(b2, #[trigger] entry_root(g, i2)) by {
        let e = entry_root(g, i2);
        lemma_entry_root_valid(g, i2);
        if i2 == i {
            assert(new_b[p] == l);
        } else {
            assert(bucket_has(b, entry_root(g, i2)));
            let k = choose|k: int| 0 <= k < b[e.1]@.len() && b[e.1]@[k]@ == e.0;
            if e.1 != root {
                assert(b2[e.1] == b[e.1]);
            } else if k < p {
                assert(new_b[k] == old_b[k]);
            } else {
                assert(new_b[k + 1] == old_b[k]);
            }
        }
    }
}

} // verus!
