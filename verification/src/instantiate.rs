//! Building terms from rewrite templates, and capture-avoiding
//! substitution of context variables by e-class traversal.
use vstd::prelude::*;
use crate::seqs::{count_true, compose_seq, lemma_compose_count, lemma_count_all_true, lemma_count_le_len};
use crate::lift::{Lift, all_true, lemma_lift_len, lemma_count_push, lemma_count_single};
use crate::id::{Id, RAW_MASK, lemma_id_lift_inv, lemma_resize_count, resize_seq};
use crate::unionfind::{ctx_at, id_valid};
use crate::egraph::{EGraph, Node, node_ok, wf_body, lemma_egraph_specs, lemma_extends_trans};
use crate::matching::{MatchMode, Subst, subst_ok, subst_lookup, placements_ok, lemma_subst_lookup_in};
use crate::terms::Pattern;
use crate::occurrence::{pattern_occurrence_lift, occurrence_seq};
use crate::terms::{all_bvars, bvar_indices, miller_ordered};
use crate::holds::{subst_parts, lemma_holds_within_use, lemma_keeps_table, lemma_keeps_table_trans, lemma_holds_within_table, lemma_holds_within_trans, lemma_holds_within_refl};

verus! {

/// A finished or pending substitution: `target` with `replacements`
/// into an `ctx`-variable context is `result`.
pub(crate) struct Reuse {
    pub(crate) target: Id,
    pub(crate) replacements: Vec<Id>,
    pub(crate) ctx: usize,
    pub(crate) result: Id,
}

/// Every recorded result is a valid class in its context.
pub(crate) open spec fn reuse_ok(g: EGraph, m: Seq<Reuse>) -> bool {
    forall|i: int| 0 <= i < m.len() ==> {
        &&& g.valid((#[trigger] m[i]).result)
        &&& m[i].result.ctx_spec() == m[i].ctx
        &&& m[i].ctx <= 7
    }
}

/// Every replacement is a valid class in the `ctx`-variable context.
pub(crate) open spec fn replacements_ok(g: EGraph, reps: Seq<Id>, ctx: nat) -> bool {
    forall|i: int| 0 <= i < reps.len() ==> g.valid(#[trigger] reps[i]) && reps[i].ctx_spec() == ctx
}

/// Validity of recorded results survives an extension of the e-graph.
proof fn lemma_reuse_extend(g1: EGraph, g2: EGraph, m: Seq<Reuse>)
    requires
        reuse_ok(g1, m),
        g1.extends(g2),
    ensures
        reuse_ok(g2, m),
{
    assert forall|i: int| 0 <= i < m.len() implies g2.valid((#[trigger] m[i]).result) by {
        assert(g1.valid(m[i].result));
    }
}

/// Validity of replacements survives an extension of the e-graph.
proof fn lemma_replacements_extend(g1: EGraph, g2: EGraph, reps: Seq<Id>, ctx: nat)
    requires
        replacements_ok(g1, reps, ctx),
        g1.extends(g2),
    ensures
        replacements_ok(g2, reps, ctx),
{
    assert forall|i: int| 0 <= i < reps.len() implies g2.valid(#[trigger] reps[i]) by {
        assert(g1.valid(reps[i]));
    }
}

impl EGraph {
    /// Whether `n` more classes and symbols fit.
    pub(crate) fn has_room(&self, n: usize) -> (r: bool)
        requires
            self.wf(),
        ensures
            r == self.room(n as nat),
    {
        proof {
            lemma_egraph_specs(*self);
        }
        let len = self.parent.len() as u64;
        let syms = self.symbols.len() as u64;
        let n64 = n as u64;
        len <= RAW_MASK as u64 + 1 && n64 <= RAW_MASK as u64 + 1 - len && syms <= u32::MAX as u64 && n64
            <= u32::MAX as u64 - syms
    }
}


/// Whether two lists of IDs are equal.
fn same_ids(a: &Vec<Id>, b: &Vec<Id>) -> (r: bool)
    ensures
        r == (a@ == b@),
{
    if a.len() != b.len() {
        return false;
    }
    let mut i: usize = 0;
    while i < a.len()
        invariant
            a@.len() == b@.len(),
            i <= a@.len(),
            forall|k: int| 0 <= k < i ==> a@[k] == b@[k],
        decreases a@.len() - i,
    {
        if a[i] != b[i] {
            return false;
        }
        i = i + 1;
    }
    proof {
        assert(a@ =~= b@);
    }
    true
}

/// `y` is `x` grown or shrunk to a `ctx`-variable context, which drops no
/// variable that `x` uses.
pub(crate) open spec fn lifts_to(x: Id, y: Id, ctx: nat) -> bool {
    &&& !(ctx < x.ctx_spec() && exists|i: int| ctx <= i < x.ctx_spec() && x.lift_spec()@[i])
    &&& y.raw_spec() == x.raw_spec()
    &&& y.lift_spec()@ == resize_seq(x.lift_spec()@, ctx)
}

/// Every ID of `a`, grown or shrunk to a `ctx`-variable context, is the ID
/// at the same position of `b`.
pub(crate) open spec fn lifted_prefix_spec(a: Seq<Id>, b: Seq<Id>, ctx: nat) -> bool {
    a.len() <= b.len() && forall|i: int| 0 <= i < a.len() ==> #[trigger] lifts_to(a[i], b[i], ctx)
}

/// Whether each ID of `old`, grown or shrunk to a `ctx`-variable context,
/// is the ID at the same position of `new`.
fn lifted_prefix(old: &Vec<Id>, new: &Vec<Id>, ctx: usize) -> (r: bool)
    requires
        ctx <= 7,
    ensures
        r == lifted_prefix_spec(old@, new@, ctx as nat),
{
    if old.len() > new.len() {
        return false;
    }
    let mut i: usize = 0;
    while i < old.len()
        invariant
            old@.len() <= new@.len(),
            i <= old@.len(),
            ctx <= 7,
            forall|k: int| 0 <= k < i ==> #[trigger] lifts_to(old@[k], new@[k], ctx as nat),
        decreases old@.len() - i,
    {
        let y = new[i];
        match old[i].in_context(ctx) {
            Some(x) => {
                proof {
                    use_type_invariant(&x);
                    use_type_invariant(&y);
                    crate::id::lemma_id_eq(x, y);
                }
                if x != y {
                    proof {
                        assert(!lifts_to(old@[i as int], new@[i as int], ctx as nat));
                    }
                    return false;
                }
            },
            None => {
                proof {
                    assert(!lifts_to(old@[i as int], new@[i as int], ctx as nat));
                }
                return false;
            },
        }
        i = i + 1;
    }
    true
}

/// Entry `m` records the result for exactly this substitution.
pub(crate) open spec fn reuse_exact(m: Reuse, target: Id, reps: Seq<Id>, ctx: nat) -> bool {
    m.target == target && m.ctx == ctx && m.replacements@ == reps
}

/// Entry `m` records a substitution of which this one is a lifted copy,
/// and `x` is its result in this one's context.
pub(crate) open spec fn reuse_lifted(m: Reuse, target: Id, reps: Seq<Id>, ctx: nat, x: Id) -> bool {
    &&& lifts_to(m.target, target, target.ctx_spec())
    &&& lifted_prefix_spec(m.replacements@, reps, ctx)
    &&& lifts_to(m.result, x, ctx)
}

/// An ID viewed in a larger or equal context is valid there.
proof fn lemma_in_context_valid(g: EGraph, x: Id, y: Id, ctx: nat)
    requires
        g.valid(x),
        y.raw_spec() == x.raw_spec(),
        y.lift_spec()@ == resize_seq(x.lift_spec()@, ctx),
        forall|i: int| ctx <= i < x.lift_spec()@.len() ==> !x.lift_spec()@[i],
    ensures
        g.valid(y),
        y.ctx_spec() == ctx,
{
    lemma_egraph_specs(g);
    lemma_resize_count(x.lift_spec()@, ctx);
}

impl EGraph {
    /// The canonical placements of a list of IDs.
    fn canonical_ids(&self, ids: &Vec<Id>, Ghost(ctx): Ghost<nat>) -> (r: Vec<Id>)
        requires
            self.wf(),
            replacements_ok(*self, ids@, ctx),
        ensures
            r@.len() == ids@.len(),
            replacements_ok(*self, r@, ctx),
    {
        let mut out: Vec<Id> = Vec::new();
        let mut i: usize = 0;
        while i < ids.len()
            invariant
                self.wf(),
                replacements_ok(*self, ids@, ctx),
                i <= ids@.len(),
                out@.len() == i,
                replacements_ok(*self, out@, ctx),
            decreases ids@.len() - i,
        {
            proof {
                assert(self.valid(ids@[i as int]));
            }
            let x = self.find(&ids[i]);
            out.push(x);
            proof {
                assert forall|k: int| 0 <= k < out@.len() implies self.valid(#[trigger] out@[k]) && out@[k].ctx_spec() == ctx by {
                    if k < i {
                        assert(out@[k] == id_at(out@, k));
                    }
                }
            }
            i = i + 1;
        }
        out
    }

    /// A recorded result for this substitution, or for one of which it is
    /// a lifted copy beneath extra unused binders.
    fn lookup_reuse(&self, memo: &Vec<Reuse>, target: Id, reps: &Vec<Id>, output_ctx: usize) -> (r: Option<Id>)
        requires
            self.wf(),
            reuse_ok(*self, memo@),
            target.ctx_spec() <= 7,
            output_ctx <= 7,
        ensures
            r matches Some(x) ==> self.valid(x) && x.ctx_spec() == output_ctx,
            (exists|i: int| 0 <= i < memo@.len() && #[trigger] reuse_exact(memo@[i], target, reps@, output_ctx as nat))
                ==> r is Some,
            r matches Some(x) ==> exists|i: int|
                0 <= i < memo@.len() && ((#[trigger] reuse_exact(memo@[i], target, reps@, output_ctx as nat)
                    && x == memo@[i].result) || reuse_lifted(memo@[i], target, reps@, output_ctx as nat, x)),
    {
        let mut i: usize = 0;
        while i < memo.len()
            invariant
                self.wf(),
                reuse_ok(*self, memo@),
                output_ctx <= 7,
                i <= memo@.len(),
                forall|k: int| 0 <= k < i ==> !(#[trigger] reuse_exact(memo@[k], target, reps@, output_ctx as nat)),
            decreases memo@.len() - i,
        {
            let e = &memo[i];
            if e.target == target && e.ctx == output_ctx && same_ids(&e.replacements, reps) {
                proof {
                    assert(reuse_ok(*self, memo@));
                    assert(self.valid(memo@[i as int].result));
                    assert(reuse_exact(memo@[i as int], target, reps@, output_ctx as nat));
                }
                return Some(e.result);
            }
            i = i + 1;
        }
        let tctx = target.ctx();
        let mut i: usize = 0;
        while i < memo.len()
            invariant
                self.wf(),
                reuse_ok(*self, memo@),
                output_ctx <= 7,
                tctx <= 7,
                tctx == target.ctx_spec(),
                i <= memo@.len(),
                forall|k: int| 0 <= k < memo@.len() ==> !(#[trigger] reuse_exact(memo@[k], target, reps@, output_ctx as nat)),
            decreases memo@.len() - i,
        {
            let e = &memo[i];
            if e.target.raw() == target.raw() {
                match e.target.in_context(tctx) {
                    Some(t) => {
                        if t == target && lifted_prefix(&e.replacements, reps, output_ctx) {
                            match e.result.in_context(output_ctx) {
                                Some(result) => {
                                    proof {
                                        assert(self.valid(memo@[i as int].result));
                                        lemma_in_context_valid(*self, e.result, result, output_ctx as nat);
                                        assert(reuse_lifted(memo@[i as int], target, reps@, output_ctx as nat, result));
                                        assert(!reuse_exact(memo@[i as int], target, reps@, output_ctx as nat));
                                    }
                                    return Some(result);
                                },
                                None => {},
                            }
                        }
                    },
                    None => {},
                }
            }
            i = i + 1;
        }
        None
    }
}

/// Entry `k` of a list of ids; mentioning it lets the solver use facts
/// about that entry.
spec fn id_at(v: Seq<Id>, k: int) -> Id {
    v[k]
}


impl EGraph {
    /// Translate one e-node of the class being substituted, placed by `by`
    /// in the class's context: `Some(Some(t))` is the translated term,
    /// `Some(None)` an e-node whose binder cannot go one context deeper,
    /// `None` a substitution that has run out of room or depth.
    fn translate_node(
        &mut self,
        node: Node,
        by: Lift,
        output_ctx: usize,
        reps: &Vec<Id>,
        memo: &mut Vec<Reuse>,
        fuel: u64,
    ) -> (r: Option<Option<Id>>)
        requires
            old(self).wf(),
            by.inv(),
            by@.len() == reps@.len(),
            node_ok(old(self).parent@, old(self).symbols@.len(), node, count_true(by@)),
            output_ctx <= 7,
            replacements_ok(*old(self), reps@, output_ctx as nat),
            reuse_ok(*old(self), old(memo)@),
            fuel + old(self).len() >= RAW_MASK + 2,
        ensures
            final(self).wf(),
            old(self).extends(*final(self)),
            final(self).symbols == old(self).symbols,
            reuse_ok(*final(self), final(memo)@),
            r matches Some(Some(x)) ==> final(self).valid(x) && x.ctx_spec() == output_ctx,
            old(self).keeps_table(*final(self)),
            r is None ==> !final(self).room(2),
        decreases fuel, 0nat,
    {
        proof {
            lemma_egraph_specs(*self);
            lemma_lift_len(by);
            lemma_keeps_table(*self, *self);
        }
        match node {
            Node::Var => {
                let mut index: usize = 0;
                while index < by.cod()
                    invariant
                        index <= by@.len(),
                        by@.len() == reps@.len(),
                        self.wf(),
                        old(self).keeps_table(*self),
                        replacements_ok(*self, reps@, output_ctx as nat),
                        reuse_ok(*self, memo@),
                        forall|k: int| 0 <= k < index ==> !by@[k],
                        count_true(by@) == 1,
                    decreases by@.len() - index,
                {
                    if by.get(index) {
                        proof {
                            assert(self.valid(reps@[index as int]));
                        }
                        return Some(Some(reps[index]));
                    }
                    index = index + 1;
                }
                proof {
                    assert(by@ =~= Seq::new(by@.len(), |i: int| false));
                    crate::seqs::lemma_count_none_true(by@.len());
                }
                None
            },
            Node::Atom(name) => {
                if !self.has_room(1) {
                    return None;
                }
                let ghost s0 = *self;
                let x = self.atom_symbol(name, output_ctx);
                proof {
                    lemma_reuse_extend(s0, *self, memo@);
                }
                Some(Some(x))
            },
            Node::App(function, argument) => {
                let f = function.weaken(&by);
                let a = argument.weaken(&by);
                proof {
                    lemma_compose_count(by@, function.lift_spec()@);
                    lemma_compose_count(by@, argument.lift_spec()@);
                }
                if fuel == 0 {
                    return None;
                }
                let ghost s0 = *self;
                let f2 = match self.substitute_many_rec(&f, output_ctx, reps, memo, fuel - 1) {
                    None => {
                        return None;
                    },
                    Some(x) => x,
                };
                let ghost s1 = *self;
                proof {
                    lemma_replacements_extend(s0, s1, reps@, output_ctx as nat);
                    assert(s1.valid(a));
                }
                let a2 = match self.substitute_many_rec(&a, output_ctx, reps, memo, fuel - 1) {
                    None => {
                        proof {
                            lemma_keeps_table_trans(s0, s1, *self);
                        }
                        return None;
                    },
                    Some(x) => x,
                };
                let ghost s2 = *self;
                proof {
                    lemma_extends_trans(s0, s1, s2);
                    lemma_keeps_table_trans(s0, s1, s2);
                    assert(s2.valid(f2));
                }
                if !self.has_room(1) {
                    return None;
                }
                let x = self.app(f2, a2);
                proof {
                    lemma_keeps_table_trans(s0, s2, *self);
                    lemma_egraph_specs(s2);
                    lemma_egraph_specs(*self);
                    lemma_extends_trans(s0, s2, *self);
                    lemma_reuse_extend(s2, *self, memo@);
                    assert(self.same_symbols(s2));
                }
                Some(Some(x))
            },
            Node::Binder(op, body) => {
                if by.cod() >= 7 || output_ctx >= 7 {
                    return Some(None);
                }
                let under_by = by.append(true);
                proof {
                    lemma_count_push(by@, true);
                }
                let b = body.weaken(&under_by);
                proof {
                    lemma_compose_count(under_by@, body.lift_spec()@);
                }
                let deeper = output_ctx + 1;
                let mut under: Vec<Id> = Vec::new();
                let mut i: usize = 0;
                while i < reps.len()
                    invariant
                        self.wf(),
                        deeper == output_ctx + 1 <= 7,
                        replacements_ok(*self, reps@, output_ctx as nat),
                        i <= reps@.len(),
                        under@.len() == i,
                        replacements_ok(*self, under@, deeper as nat),
                    decreases reps@.len() - i,
                {
                    proof {
                        assert(self.valid(reps@[i as int]));
                    }
                    match reps[i].in_context(deeper) {
                        Some(x) => {
                            proof {
                                lemma_in_context_valid(*self, reps@[i as int], x, deeper as nat);
                            }
                            under.push(x);
                            proof {
                                assert forall|k: int| 0 <= k < under@.len() implies self.valid(#[trigger] under@[k]) && under@[k].ctx_spec() == deeper by {
                                    if k < i {
                                        assert(under@[k] == id_at(under@, k));
                                    }
                                }
                            }
                        },
                        None => {
                            return None;
                        },
                    }
                    i = i + 1;
                }
                if !self.has_room(1) {
                    return None;
                }
                let ghost s0 = *self;
                let bound = self.var(deeper, output_ctx);
                let ghost s1 = *self;
                under.push(bound);
                proof {
                    lemma_egraph_specs(s0);
                    lemma_egraph_specs(s1);
                    lemma_replacements_extend(s0, s1, under@.drop_last(), deeper as nat);
                    assert forall|k: int| 0 <= k < under@.len() implies s1.valid(#[trigger] under@[k]) && under@[k].ctx_spec() == deeper by {
                        if k < under@.len() - 1 {
                            assert(under@[k] == under@.drop_last()[k]);
                        }
                    }
                    lemma_reuse_extend(s0, s1, memo@);
                    assert(s1.valid(b));
                    assert(s1.same_symbols(s0));
                }
                if fuel == 0 {
                    return None;
                }
                let b2 = match self.substitute_many_rec(&b, deeper, &under, memo, fuel - 1) {
                    None => {
                        proof {
                            lemma_keeps_table_trans(s0, s1, *self);
                        }
                        return None;
                    },
                    Some(x) => x,
                };
                let ghost s2 = *self;
                proof {
                    lemma_extends_trans(s0, s1, s2);
                    lemma_keeps_table_trans(s0, s1, s2);
                }
                if !self.has_room(1) {
                    return None;
                }
                let x = self.binder_symbol(op, b2);
                proof {
                    lemma_keeps_table_trans(s0, s2, *self);
                    lemma_extends_trans(s0, s2, *self);
                    lemma_reuse_extend(s2, *self, memo@);
                }
                Some(Some(x))
            },
        }
    }

    /// Simultaneously replace every context variable of `target` with the
    /// matching replacement, a class in the `output_ctx`-variable context.
    /// Results are recorded in `memo` before the class is traversed, which
    /// ties the knot on cyclic classes.
    #[verifier::rlimit(40)]
    pub(crate) fn substitute_many_rec(
        &mut self,
        target: &Id,
        output_ctx: usize,
        replacements: &Vec<Id>,
        memo: &mut Vec<Reuse>,
        fuel: u64,
    ) -> (r: Option<Id>)
        requires
            old(self).wf(),
            old(self).valid(*target),
            target.ctx_spec() == replacements@.len(),
            output_ctx <= 7,
            replacements_ok(*old(self), replacements@, output_ctx as nat),
            reuse_ok(*old(self), old(memo)@),
            fuel + old(self).len() >= RAW_MASK + 1,
        ensures
            final(self).wf(),
            old(self).extends(*final(self)),
            final(self).symbols == old(self).symbols,
            reuse_ok(*final(self), final(memo)@),
            r matches Some(x) ==> final(self).valid(x) && x.ctx_spec() == output_ctx,
            old(self).keeps_table(*final(self)),
            r is None ==> !final(self).room(2),
        decreases fuel, 1nat,
    {
        proof {
            lemma_egraph_specs(*self);
            use_type_invariant(target);
            lemma_id_lift_inv(*target);
            lemma_keeps_table(*self, *self);
        }
        let target = self.find(target);
        let reps = self.canonical_ids(replacements, Ghost(output_ctx as nat));
        match self.lookup_reuse(memo, target, &reps, output_ctx) {
            Some(x) => {
                return Some(x);
            },
            None => {},
        }
        if !self.has_room(1) {
            return None;
        }
        let ghost s0 = *self;
        proof {
            assert(s0 == *old(self));
        }
        let result = self.make_set(output_ctx);
        proof {
            lemma_keeps_table(s0, *self);
            lemma_egraph_specs(*self);
            lemma_reuse_extend(s0, *self, memo@);
            lemma_replacements_extend(s0, *self, reps@, output_ctx as nat);
            assert(self.valid(target));
        }
        memo.push(Reuse { target, replacements: reps.clone(), ctx: output_ctx, result });
        proof {
            assert forall|i: int| 0 <= i < memo@.len() implies {
                &&& self.valid((#[trigger] memo@[i]).result)
                &&& memo@[i].result.ctx_spec() == memo@[i].ctx
                &&& memo@[i].ctx <= 7
            } by {
                if i < memo@.len() - 1 {
                    assert(memo@[i] == memo@.drop_last()[i]);
                }
            }
        }
        let nodes = self.nodes_in_class(&target, MatchMode::Lifted);
        let ghost s1 = *self;
        let mut i: usize = 0;
        while i < nodes.len()
            invariant
                self.wf(),
                s0 == *old(self),
                s0.extends(*self),
                s1.extends(*self),
                self.symbols == s1.symbols,
                s1.symbols == s0.symbols,
                s1.wf(),
                placements_ok(s1, target, nodes@),
                target.ctx_spec() == reps@.len(),
                output_ctx <= 7,
                self.valid(result),
                result.ctx_spec() == output_ctx,
                replacements_ok(*self, reps@, output_ctx as nat),
                reuse_ok(*self, memo@),
                i <= nodes@.len(),
                s0.keeps_table(*self),
                self.len() >= s0.len() + 1,
                fuel + s0.len() >= RAW_MASK + 1,
            decreases nodes@.len() - i,
        {
            let (node, by) = nodes[i];
            proof {
                let _ = nodes@[i as int];
                use_type_invariant(&by);
                lemma_egraph_specs(s1);
                lemma_egraph_specs(*self);
                assert forall|k: int| 0 <= k < s1.parent@.len() implies ctx_at(self.parent@, k) == ctx_at(s1.parent@, k) by {
                    assert(self.class_ctx(k) == s1.class_ctx(k));
                }
                crate::egraph::lemma_node_ok_extend(s1.parent@, self.parent@, s1.symbols@.len(), node, count_true(by@));
            }
            let ghost s2 = *self;
            let translated = self.translate_node(node, by, output_ctx, &reps, memo, fuel);
            let ghost s3 = *self;
            proof {
                lemma_keeps_table_trans(s0, s2, s3);
                lemma_extends_trans(s1, s2, s3);
                lemma_extends_trans(s0, s2, s3);
                lemma_replacements_extend(s2, s3, reps@, output_ctx as nat);
                assert(s3.valid(result));
            }
            match translated {
                None => {
                    return None;
                },
                Some(None) => {},
                Some(Some(t)) => {
                    if !self.has_room(2) {
                        return None;
                    }
                    proof {
                        lemma_egraph_specs(s3);
                    }
                    self.union(&result, &t);
                    proof {
                        lemma_keeps_table_trans(s0, s3, *self);
                        lemma_egraph_specs(s3);
                        lemma_egraph_specs(*self);
                        lemma_extends_trans(s1, s3, *self);
                        lemma_extends_trans(s0, s3, *self);
                        lemma_reuse_extend(s3, *self, memo@);
                        lemma_replacements_extend(s3, *self, reps@, output_ctx as nat);
                    }
                },
            }
            i = i + 1;
        }
        let r = self.find(&result);
        proof {
            lemma_egraph_specs(*self);
            crate::unionfind::lemma_find_valid(self.parent@, self.rank@, self.rank_bound@, result);
        }
        Some(r)
    }
}


/// Bindings stay valid as the e-graph extends.
pub(crate) proof fn lemma_subst_extend(g1: EGraph, g2: EGraph, s: Seq<(Seq<char>, Id)>)
    requires
        subst_ok(g1, s),
        g1.extends(g2),
    ensures
        subst_ok(g2, s),
{
    assert forall|i: int| 0 <= i < s.len() implies #[trigger] g2.valid(s[i].1) by {
        assert(g1.valid(s[i].1));
    }
}

impl EGraph {
    /// Simultaneously replace every context variable of `target` with a
    /// class of the `output_ctx`-variable context. `None` when the e-graph
    /// runs out of room for the classes this needs.
    #[verifier::spinoff_prover]
    #[verifier::rlimit(40)]
    pub(crate) fn substitute_many(&mut self, target: &Id, output_ctx: usize, replacements: &Vec<Id>) -> (r: Option<Id>)
        requires
            old(self).wf(),
            old(self).valid(*target),
            target.ctx_spec() == replacements@.len(),
            output_ctx <= 7,
            replacements_ok(*old(self), replacements@, output_ctx as nat),
        ensures
            final(self).wf(),
            old(self).extends(*final(self)),
            final(self).same_symbols(*old(self)),
            r matches Some(x) ==> final(self).valid(x) && x.ctx_spec() == output_ctx,
            old(self).holds_within(*final(self)),
            r is None ==> !final(self).room(2),
    {
        let ghost s0 = *self;
        proof {
            lemma_holds_within_refl(s0);
        }
        if !self.rev_valid && !self.rev_tracked {
            self.rebuild();
        }
        let ghost s1 = *self;
        proof {
            lemma_egraph_specs(s0);
            lemma_egraph_specs(s1);
            lemma_replacements_extend(s0, s1, replacements@, output_ctx as nat);
        }
        self.rev_tracked = true;
        proof {
            lemma_keeps_table(s1, *self);
            lemma_egraph_specs(*self);
            crate::keeping::lemma_rev_members_same(s1, *self);
            assert(wf_body(*self) == wf_body(s1));
            assert(s1.extends(*self));
            lemma_extends_trans(s0, s1, *self);
            lemma_replacements_extend(s1, *self, replacements@, output_ctx as nat);
            assert(self.valid(*target));
            assert(s1.same_symbols(s0));
        }
        let ghost s2 = *self;
        let mut memo: Vec<Reuse> = Vec::new();
        assert(u64::MAX + self.len() >= RAW_MASK + 1);
        let result = self.substitute_many_rec(target, output_ctx, replacements, &mut memo, u64::MAX);
        proof {
            lemma_holds_within_table(s1, s2);
            lemma_holds_within_table(s2, *self);
            lemma_holds_within_trans(s0, s1, s2);
            lemma_holds_within_trans(s0, s2, *self);
            lemma_extends_trans(s0, s2, *self);
            lemma_egraph_specs(*self);
            lemma_egraph_specs(s2);
            assert(self.same_symbols(s0));
        }
        match result {
            None => None,
            Some(x) => Some(self.find(&x)),
        }
    }
}


impl EGraph {
    /// Substitute one ambient context variable: `target` lives in an
    /// n-variable context, `replacement` and the result in an
    /// (n-1)-variable one, and the variables after `variable` shift down
    /// by one. `None` when the e-graph runs out of room for the classes
    /// this needs.
    #[verifier::spinoff_prover]
    #[verifier::rlimit(40)]
    pub fn substitute(&mut self, target: &Id, variable: usize, replacement: &Id) -> (r: Option<Id>)
        requires
            old(self).wf(),
            old(self).valid(*target),
            old(self).valid(*replacement),
            target.ctx_spec() == replacement.ctx_spec() + 1,
            variable < target.ctx_spec(),
        ensures
            final(self).wf(),
            old(self).extends(*final(self)),
            final(self).same_symbols(*old(self)),
            r matches Some(x) ==> final(self).valid(x) && x.ctx_spec() == replacement.ctx_spec(),
            old(self).holds_within(*final(self)),
            r is None ==> !final(self).room(2),
            old(self).rebuilt() && !old(self).canon(*target).0[variable as int] ==> (r matches Some(x)
                && x.raw_spec() == old(self).canon(*target).1 && x.lift_spec()@ == old(self).canon(*target).0.remove(variable as int)
                && old(self).same_but_timing(*final(self))),
    {
        let ghost s0 = *self;
        let ghost t0 = *target;
        proof {
            assert(s0 == *old(self));
        }
        self.rebuild();
        let ghost s1 = *self;
        proof {
            if s0.rebuilt() {
                crate::egraph::law_same_but_timing(s0, s1);
            }
            lemma_egraph_specs(s0);
            lemma_egraph_specs(s1);
            assert(s1.valid(*target));
            assert(s1.valid(*replacement));
            use_type_invariant(target);
            lemma_id_lift_inv(*target);
        }
        let canonical = self.find(target);
        let replacement = self.find(replacement);
        match canonical.remove_context_variable(variable) {
            Some(projected) => {
                proof {
                    use_type_invariant(&canonical);
                    crate::seqs::lemma_count_remove_false(canonical.lift_spec()@, variable as int);
                }
                return Some(projected);
            },
            None => {},
        }
        let output_ctx = replacement.ctx();
        let n = canonical.ctx();
        proof {
            assert(s0.rebuilt() ==> s0.canon(t0).0[variable as int]);
        }
        let mut replacements: Vec<Id> = Vec::new();
        let mut level: usize = 0;
        while level < n
            invariant
                self.wf(),
                s0 == *old(self),
                s0.extends(*self),
                self.same_symbols(s0),
                n == canonical.ctx_spec(),
                n == output_ctx + 1,
                output_ctx <= 7,
                variable < n,
                level <= n,
                replacements@.len() == level,
                replacements_ok(*self, replacements@, output_ctx as nat),
                self.valid(canonical),
                self.valid(replacement),
                replacement.ctx_spec() == output_ctx,
                s0.holds_within(*self),
                s0.rebuilt() ==> s0.canon(t0).0[variable as int],
                t0 == *target,
            decreases n - level,
        {
            if level == variable {
                replacements.push(replacement);
            } else {
                let shifted = if level > variable { level - 1 } else { level };
                if !self.has_room(1) {
                    return None;
                }
                let ghost before = *self;
                let x = self.var(output_ctx, shifted);
                proof {
                    lemma_holds_within_table(before, *self);
                    lemma_holds_within_trans(s0, before, *self);
                    lemma_extends_trans(s0, before, *self);
                    lemma_replacements_extend(before, *self, replacements@, output_ctx as nat);
                    lemma_egraph_specs(before);
                    lemma_egraph_specs(*self);
                    lemma_egraph_specs(s0);
                    assert(self.valid(canonical));
                    assert(self.valid(replacement));
                }
                replacements.push(x);
            }
            proof {
                assert forall|k: int| 0 <= k < replacements@.len() implies self.valid(#[trigger] replacements@[k]) && replacements@[k].ctx_spec() == output_ctx by {
                    if k < level {
                        assert(replacements@[k] == id_at(replacements@, k));
                    }
                }
            }
            level = level + 1;
        }
        let ghost s2 = *self;
        let result = self.substitute_many(&canonical, output_ctx, &replacements);
        let ghost s3 = *self;
        proof {
            lemma_holds_within_trans(s0, s2, s3);
            lemma_extends_trans(s0, s2, s3);
            lemma_egraph_specs(s0);
            lemma_egraph_specs(s2);
            lemma_egraph_specs(s3);
        }
        match result {
            None => None,
            Some(x) => {
                self.rebuild();
                proof {
                    lemma_holds_within_trans(s0, s3, *self);
                    lemma_extends_trans(s0, s3, *self);
                    lemma_egraph_specs(*self);
                    assert(self.valid(x));
                }
                Some(self.find(&x))
            },
        }
    }

    /// Instantiate a binding stored in `top context + formals` with the
    /// given arguments in the `current_ctx`-variable context.
    pub(crate) fn instantiate_binding(&mut self, binding: &Id, top_ctx: usize, current_ctx: usize, arguments: &Vec<Id>) -> (r: Option<Id>)
        requires
            old(self).wf(),
            old(self).valid(*binding),
            top_ctx <= current_ctx <= 7,
            replacements_ok(*old(self), arguments@, current_ctx as nat),
        ensures
            final(self).wf(),
            old(self).extends(*final(self)),
            final(self).same_symbols(*old(self)),
            r matches Some(x) ==> final(self).valid(x) && x.ctx_spec() == current_ctx,
            old(self).holds_within(*final(self)),
            arguments@.len() <= binding.ctx_spec() && binding.ctx_spec() - arguments@.len() == top_ctx
                && r is None ==> !final(self).room(2),
    {
        let ghost s0 = *self;
        proof {
            lemma_holds_within_refl(s0);
            assert(s0 == *old(self));
            use_type_invariant(binding);
            lemma_id_lift_inv(*binding);
            lemma_egraph_specs(s0);
        }
        if arguments.len() > binding.ctx() || binding.ctx() - arguments.len() != top_ctx {
            return None;
        }
        let mut replacements: Vec<Id> = Vec::new();
        let mut level: usize = 0;
        while level < top_ctx
            invariant
                self.wf(),
                s0 == *old(self),
                s0.extends(*self),
                self.same_symbols(s0),
                top_ctx <= current_ctx <= 7,
                level <= top_ctx,
                replacements@.len() == level,
                replacements_ok(*self, replacements@, current_ctx as nat),
                replacements_ok(*self, arguments@, current_ctx as nat),
                self.valid(*binding),
                s0.holds_within(*self),
            decreases top_ctx - level,
        {
            if !self.has_room(1) {
                return None;
            }
            let ghost before = *self;
            let x = self.var(current_ctx, level);
            proof {
                lemma_holds_within_table(before, *self);
                lemma_holds_within_trans(s0, before, *self);
                lemma_extends_trans(s0, before, *self);
                lemma_replacements_extend(before, *self, replacements@, current_ctx as nat);
                lemma_replacements_extend(before, *self, arguments@, current_ctx as nat);
                lemma_egraph_specs(before);
                lemma_egraph_specs(*self);
                lemma_egraph_specs(s0);
                assert(self.valid(*binding));
            }
            replacements.push(x);
            proof {
                assert forall|k: int| 0 <= k < replacements@.len() implies self.valid(#[trigger] replacements@[k]) && replacements@[k].ctx_spec() == current_ctx by {
                    if k < level {
                        assert(replacements@[k] == id_at(replacements@, k));
                    }
                }
            }
            level = level + 1;
        }
        let mut i: usize = 0;
        while i < arguments.len()
            invariant
                self.wf(),
                i <= arguments@.len(),
                replacements@.len() == top_ctx + i,
                replacements_ok(*self, replacements@, current_ctx as nat),
                replacements_ok(*self, arguments@, current_ctx as nat),
                s0.holds_within(*self),
            decreases arguments@.len() - i,
        {
            replacements.push(arguments[i]);
            proof {
                assert forall|k: int| 0 <= k < replacements@.len() implies self.valid(#[trigger] replacements@[k]) && replacements@[k].ctx_spec() == current_ctx by {
                    if k < replacements@.len() - 1 {
                        assert(replacements@[k] == id_at(replacements@, k));
                    } else {
                        assert(self.valid(arguments@[i as int]));
                    }
                }
            }
            i = i + 1;
        }
        let ghost s1 = *self;
        let r = self.substitute_many(binding, current_ctx, &replacements);
        proof {
            lemma_holds_within_trans(s0, s1, *self);
            lemma_extends_trans(s0, s1, *self);
            lemma_egraph_specs(s0);
            lemma_egraph_specs(s1);
            lemma_egraph_specs(*self);
        }
        r
    }
}


/// The class of `x` holds the template `p` instantiated in the
/// `ctx`-variable context, whose top lies `ctx - top` binders out, under the
/// bindings `s`: a metavariable applied to distinct bound variables is its
/// binding placed through the occurrence of those variables; a variable,
/// an atom, an application or a binder is held as such, over classes
/// holding the instantiated parts. Of a metavariable applied otherwise,
/// and of a substitution, it says only that its binding exists, and that
/// classes hold the substitution's parts.
pub open spec fn pattern_holds(g: EGraph, x: Id, p: Pattern, ctx: nat, top: nat, s: Seq<(Seq<char>, Id)>) -> bool
    decreases p,
{
    match p {
        Pattern::MetaVar(name, args) => match subst_lookup(s, name@) {
            None => false,
            Some(b) => if all_bvars(args@) && top <= ctx && miller_ordered(bvar_indices(args@), (ctx - top) as nat) {
                &&& x.raw_spec() == b.raw_spec()
                &&& x.lift_spec()@ == compose_seq(occurrence_seq(top, ctx, bvar_indices(args@)), b.lift_spec()@)
            } else {
                true
            },
        },
        Pattern::FVar(l) => g.holds_var(x, l@ as nat),
        Pattern::BVar(k) => k@ < ctx && g.holds_var(x, (ctx - 1 - k@) as nat),
        Pattern::Atom(name) => g.holds_atom(x, name@),
        Pattern::App(f, a) => exists|fx: Id, ax: Id|
            #[trigger] g.holds_app(x, fx, ax) && pattern_holds(g, fx, *f, ctx, top, s) && pattern_holds(g, ax, *a, ctx, top, s),
        Pattern::Binder(op, body) => exists|bx: Id|
            #[trigger] g.holds_binder(x, op@, bx) && pattern_holds(g, bx, *body, ctx + 1, top, s),
        Pattern::Subst(body, replacement) => exists|bx: Id, rx: Id|
            #[trigger] subst_parts(bx, rx) == (bx, rx) && pattern_holds(g, bx, *body, ctx + 1, top, s)
                && pattern_holds(g, rx, *replacement, ctx, top, s),
    }
}

/// A template with no substitution whose metavariables are all bound, each
/// applied to distinct bound variables in order and bound to a class of
/// the context those variables make: instantiating it needs nothing but
/// room for its nodes.
pub open spec fn plain_instantiable(p: Pattern, ctx: nat, top: nat, s: Seq<(Seq<char>, Id)>) -> bool
    decreases p,
{
    match p {
        Pattern::MetaVar(name, args) => subst_lookup(s, name@) matches Some(b) && all_bvars(args@) && top <= ctx
            && miller_ordered(bvar_indices(args@), (ctx - top) as nat)
            && b.ctx_spec() == count_true(occurrence_seq(top, ctx, bvar_indices(args@))),
        Pattern::FVar(l) => l@ < top,
        Pattern::BVar(k) => top + k@ < ctx,
        Pattern::Atom(_) => true,
        Pattern::App(f, a) => plain_instantiable(*f, ctx, top, s) && plain_instantiable(*a, ctx, top, s),
        Pattern::Binder(_, b) => ctx < 7 && plain_instantiable(*b, ctx + 1, top, s),
        Pattern::Subst(_, _) => false,
    }
}

/// Every metavariable of a template is bound, to a class whose context is
/// the template's top context plus one variable per argument (the context
/// its occurrence sees, for arguments that are distinct bound variables),
/// every variable is in scope, and substitution and binders stay within
/// seven variables: instantiating it fails only for want of room.
pub open spec fn template_fits(p: Pattern, ctx: nat, top: nat, s: Seq<(Seq<char>, Id)>) -> bool
    decreases p,
{
    match p {
        Pattern::MetaVar(name, args) => match subst_lookup(s, name@) {
            None => false,
            Some(b) => if all_bvars(args@) && top <= ctx && miller_ordered(bvar_indices(args@), (ctx - top) as nat) {
                b.ctx_spec() == count_true(occurrence_seq(top, ctx, bvar_indices(args@)))
            } else {
                &&& args@.len() <= b.ctx_spec()
                &&& b.ctx_spec() - args@.len() == top
                &&& forall|i: int| 0 <= i < args@.len() ==> {
                    proof {
                        assert(decreases_to!(p => args));
                        assert(decreases_to!(args => args@));
                        assert(decreases_to!(args@ => args@[i]));
                    }
                    template_fits(#[trigger] args@[i], ctx, top, s)
                }
            },
        },
        Pattern::FVar(l) => l@ < top,
        Pattern::BVar(k) => top + k@ < ctx,
        Pattern::Atom(_) => true,
        Pattern::App(f, a) => template_fits(*f, ctx, top, s) && template_fits(*a, ctx, top, s),
        Pattern::Binder(_, b) => ctx < 7 && template_fits(*b, ctx + 1, top, s),
        Pattern::Subst(b, r) => ctx < 7 && template_fits(*b, ctx + 1, top, s) && template_fits(*r, ctx, top, s),
    }
}

/// The number of e-nodes a template adds at most, metavariables aside.
pub open spec fn pattern_nodes(p: Pattern) -> nat
    decreases p,
{
    match p {
        Pattern::MetaVar(_, _) => 0,
        Pattern::App(f, a) => pattern_nodes(*f) + pattern_nodes(*a) + 1,
        Pattern::Binder(_, b) => pattern_nodes(*b) + 1,
        Pattern::Subst(b, r) => pattern_nodes(*b) + pattern_nodes(*r) + 1,
        _ => 1,
    }
}

/// An instantiated template held in one e-graph is held in any that holds
/// what it holds.
pub(crate) proof fn lemma_pattern_holds_within(g1: EGraph, g2: EGraph, x: Id, p: Pattern, ctx: nat, top: nat, s: Seq<(Seq<char>, Id)>)
    requires
        g1.holds_within(g2),
        pattern_holds(g1, x, p, ctx, top, s),
    ensures
        pattern_holds(g2, x, p, ctx, top, s),
    decreases p,
{
    lemma_holds_within_use(g1, g2);
    match p {
        Pattern::App(f, a) => {
            let (fx, ax) = choose|fx: Id, ax: Id|
                #[trigger] g1.holds_app(x, fx, ax) && pattern_holds(g1, fx, *f, ctx, top, s) && pattern_holds(g1, ax, *a, ctx, top, s);
            lemma_pattern_holds_within(g1, g2, fx, *f, ctx, top, s);
            lemma_pattern_holds_within(g1, g2, ax, *a, ctx, top, s);
            assert(g2.holds_app(x, fx, ax));
        },
        Pattern::Binder(op, body) => {
            let bx = choose|bx: Id| #[trigger] g1.holds_binder(x, op@, bx) && pattern_holds(g1, bx, *body, ctx + 1, top, s);
            lemma_pattern_holds_within(g1, g2, bx, *body, ctx + 1, top, s);
            assert(g2.holds_binder(x, op@, bx));
        },
        Pattern::Subst(body, replacement) => {
            let (bx, rx) = choose|bx: Id, rx: Id|
                #[trigger] subst_parts(bx, rx) == (bx, rx) && pattern_holds(g1, bx, *body, ctx + 1, top, s)
                    && pattern_holds(g1, rx, *replacement, ctx, top, s);
            lemma_pattern_holds_within(g1, g2, bx, *body, ctx + 1, top, s);
            lemma_pattern_holds_within(g1, g2, rx, *replacement, ctx, top, s);
            assert(subst_parts(bx, rx) == (bx, rx));
        },
        _ => {},
    }
}

impl EGraph {
    /// Build a template in the `ctx`-variable context, whose top lies
    /// `ctx - top_ctx` binders further out. `None` when a metavariable is
    /// unbound, a bound variable is out of scope, or the e-graph runs out
    /// of room or context variables.
    fn try_instantiate_rec(&mut self, pattern: &Pattern, ctx: usize, top_ctx: usize, subst: &Subst) -> (r: Option<Id>)
        requires
            old(self).wf(),
            top_ctx <= ctx <= 7,
            subst_ok(*old(self), subst@),
        ensures
            final(self).wf(),
            old(self).extends(*final(self)),
            r matches Some(x) ==> final(self).valid(x) && x.ctx_spec() == ctx,
            old(self).holds_within(*final(self)),
            r matches Some(x) ==> pattern_holds(*final(self), x, *pattern, ctx as nat, top_ctx as nat, subst@),
            plain_instantiable(*pattern, ctx as nat, top_ctx as nat, subst@) && old(self).room(pattern_nodes(*pattern))
                ==> r is Some && final(self).room_used(*old(self), pattern_nodes(*pattern)),
            template_fits(*pattern, ctx as nat, top_ctx as nat, subst@) && r is None ==> !final(self).room(2),
            old(self).symbols_len() <= final(self).symbols_len(),
        decreases pattern,
    {
        let ghost s0 = *self;
        proof {
            lemma_egraph_specs(s0);
            lemma_holds_within_refl(s0);
        }
        match pattern {
            Pattern::MetaVar(name, arguments) => {
                let binding = match subst.get(name.as_str()) {
                    None => {
                        return None;
                    },
                    Some(b) => b,
                };
                proof {
                    lemma_subst_lookup_in(subst@, name@);
                    assert(self.valid(binding));
                    use_type_invariant(&binding);
                }
                match pattern_occurrence_lift(top_ctx, ctx, arguments.as_slice()) {
                    Some(occurrence) => {
                        proof {
                            lemma_count_le_len(occurrence@);
                        }
                        if binding.ctx() != occurrence.dom() {
                            return None;
                        }
                        let x = binding.weaken(&occurrence);
                        proof {
                            lemma_compose_count(occurrence@, binding.lift_spec()@);
                        }
                        return Some(x);
                    },
                    None => {},
                }
                let mut values: Vec<Id> = Vec::new();
                let mut i: usize = 0;
                while i < arguments.len()
                    invariant
                        self.wf(),
                        s0 == *old(self),
                        s0.extends(*self),
                        top_ctx <= ctx <= 7,
                        subst_ok(*self, subst@),
                        self.valid(binding),
                        s0.holds_within(*self),
                        i <= arguments@.len(),
                        replacements_ok(*self, values@, ctx as nat),
                        pattern is MetaVar,
                        pattern->MetaVar_1 == *arguments,
                        !plain_instantiable(*pattern, ctx as nat, top_ctx as nat, subst@),
                        values@.len() == i,
                        s0.symbols_len() <= self.symbols_len(),
                        template_fits(*pattern, ctx as nat, top_ctx as nat, subst@) ==> {
                            &&& arguments@.len() <= binding.ctx_spec()
                            &&& binding.ctx_spec() - arguments@.len() == top_ctx
                            &&& forall|k: int| 0 <= k < arguments@.len() ==> template_fits(#[trigger] arguments@[k], ctx as nat, top_ctx as nat, subst@)
                        },
                    decreases arguments@.len() - i,
                {
                    proof {
                        assert(decreases_to!(*pattern => pattern->MetaVar_1));
                        assert(decreases_to!(*arguments => arguments@));
                        assert(decreases_to!(arguments@ => arguments@[i as int]));
                    }
                    let ghost before = *self;
                    let v = self.try_instantiate_rec(&arguments[i], ctx, top_ctx, subst);
                    proof {
                        lemma_holds_within_trans(s0, before, *self);
                        lemma_extends_trans(s0, before, *self);
                        lemma_subst_extend(before, *self, subst@);
                        lemma_replacements_extend(before, *self, values@, ctx as nat);
                        lemma_egraph_specs(before);
                        lemma_egraph_specs(*self);
                        assert(self.valid(binding));
                    }
                    match v {
                        None => {
                            return None;
                        },
                        Some(x) => {
                            values.push(x);
                            proof {
                                assert forall|k: int| 0 <= k < values@.len() implies self.valid(#[trigger] values@[k]) && values@[k].ctx_spec() == ctx by {
                                    if k < values@.len() - 1 {
                                        assert(values@[k] == id_at(values@, k));
                                    }
                                }
                            }
                        },
                    }
                    i = i + 1;
                }
                let ghost s1 = *self;
                let r = self.instantiate_binding(&binding, top_ctx, ctx, &values);
                proof {
                    lemma_extends_trans(s0, s1, *self);
                    lemma_holds_within_trans(s0, s1, *self);
                    lemma_egraph_specs(s1);
                    lemma_egraph_specs(*self);
                    assert(self.same_symbols(s1));
                    assert(self.symbols == s1.symbols);
                    assert(s0.symbols_len() <= s1.symbols_len());
                }
                r
            },
            Pattern::FVar(index) => {
                let level = index.get();
                if level >= top_ctx || !self.has_room(1) {
                    return None;
                }
                let x = self.var(ctx, level);
                proof {
                    lemma_holds_within_table(s0, *self);
                    lemma_egraph_specs(s0);
                    lemma_egraph_specs(*self);
                }
                Some(x)
            },
            Pattern::BVar(index) => {
                let k = index.get();
                let depth = ctx - top_ctx;
                if k >= depth || !self.has_room(1) {
                    return None;
                }
                let x = self.var(ctx, ctx - 1 - k);
                proof {
                    lemma_holds_within_table(s0, *self);
                    lemma_egraph_specs(s0);
                    lemma_egraph_specs(*self);
                }
                Some(x)
            },
            Pattern::Atom(name) => {
                if !self.has_room(1) {
                    return None;
                }
                let x = self.atom(name.as_str(), ctx);
                proof {
                    crate::holds::lemma_keeps_table_symbols(s0, *self);
                    lemma_holds_within_table(s0, *self);
                }
                Some(x)
            },
            Pattern::App(function, argument) => {
                let f = match self.try_instantiate_rec(function, ctx, top_ctx, subst) {
                    None => {
                        return None;
                    },
                    Some(x) => x,
                };
                let ghost s1 = *self;
                proof {
                    lemma_subst_extend(s0, s1, subst@);
                }
                let a = match self.try_instantiate_rec(argument, ctx, top_ctx, subst) {
                    None => {
                        proof {
                            lemma_holds_within_trans(s0, s1, *self);
                        }
                        return None;
                    },
                    Some(x) => x,
                };
                let ghost s2 = *self;
                proof {
                    lemma_extends_trans(s0, s1, s2);
                    assert(s2.valid(f));
                }
                proof {
                    lemma_holds_within_trans(s0, s1, s2);
                }
                if !self.has_room(1) {
                    return None;
                }
                let x = self.app(f, a);
                proof {
                    lemma_egraph_specs(s2);
                    lemma_egraph_specs(*self);
                    lemma_extends_trans(s0, s2, *self);
                    lemma_holds_within_table(s2, *self);
                    lemma_holds_within_trans(s0, s1, s2);
                    lemma_holds_within_trans(s0, s2, *self);
                    lemma_holds_within_trans(s1, s2, *self);
                    lemma_pattern_holds_within(s1, *self, f, **function, ctx as nat, top_ctx as nat, subst@);
                    lemma_pattern_holds_within(s2, *self, a, **argument, ctx as nat, top_ctx as nat, subst@);
                    assert(self.holds_app(x, f, a));
                }
                Some(x)
            },
            Pattern::Binder(op, body) => {
                if ctx >= 7 {
                    return None;
                }
                let b = match self.try_instantiate_rec(body, ctx + 1, top_ctx, subst) {
                    None => {
                        return None;
                    },
                    Some(x) => x,
                };
                let ghost s1 = *self;
                if !self.has_room(1) {
                    return None;
                }
                let x = self.binder(op.as_str(), b);
                proof {
                    crate::holds::lemma_keeps_table_symbols(s1, *self);
                    lemma_extends_trans(s0, s1, *self);
                    lemma_holds_within_table(s1, *self);
                    lemma_holds_within_trans(s0, s1, *self);
                    lemma_pattern_holds_within(s1, *self, b, **body, (ctx + 1) as nat, top_ctx as nat, subst@);
                    assert(self.holds_binder(x, op@, b));
                }
                Some(x)
            },
            Pattern::Subst(body, replacement) => {
                if ctx >= 7 {
                    return None;
                }
                let b = match self.try_instantiate_rec(body, ctx + 1, top_ctx, subst) {
                    None => {
                        return None;
                    },
                    Some(x) => x,
                };
                let ghost s1 = *self;
                proof {
                    lemma_subst_extend(s0, s1, subst@);
                }
                let r = match self.try_instantiate_rec(replacement, ctx, top_ctx, subst) {
                    None => {
                        proof {
                            lemma_holds_within_trans(s0, s1, *self);
                        }
                        return None;
                    },
                    Some(x) => x,
                };
                let ghost s2 = *self;
                proof {
                    lemma_extends_trans(s0, s1, s2);
                    assert(s2.valid(b));
                }
                let x = self.substitute(&b, ctx, &r);
                proof {
                    lemma_egraph_specs(s2);
                    lemma_egraph_specs(*self);
                    lemma_extends_trans(s0, s2, *self);
                    lemma_holds_within_trans(s0, s1, s2);
                    lemma_holds_within_trans(s0, s2, *self);
                    lemma_holds_within_trans(s1, s2, *self);
                    lemma_pattern_holds_within(s1, *self, b, **body, (ctx + 1) as nat, top_ctx as nat, subst@);
                    lemma_pattern_holds_within(s2, *self, r, **replacement, ctx as nat, top_ctx as nat, subst@);
                    assert(subst_parts(b, r) == (b, r));
                }
                x
            },
        }
    }

    /// Build a template in the `ctx`-variable context under the bindings
    /// of a match. `None` when a metavariable is unbound, a bound variable
    /// is out of scope, or the e-graph runs out of room or context
    /// variables.
    pub fn try_instantiate(&mut self, pattern: &Pattern, ctx: usize, subst: &Subst) -> (r: Option<Id>)
        requires
            old(self).wf(),
            ctx <= 7,
            subst_ok(*old(self), subst@),
        ensures
            final(self).wf(),
            old(self).extends(*final(self)),
            r matches Some(x) ==> final(self).valid(x) && x.ctx_spec() == ctx,
            old(self).holds_within(*final(self)),
            r matches Some(x) ==> pattern_holds(*final(self), x, *pattern, ctx as nat, ctx as nat, subst@),
            plain_instantiable(*pattern, ctx as nat, ctx as nat, subst@) && old(self).room(pattern_nodes(*pattern))
                ==> r is Some && final(self).room_used(*old(self), pattern_nodes(*pattern)),
            template_fits(*pattern, ctx as nat, ctx as nat, subst@) && r is None ==> !final(self).room(2),
            old(self).symbols_len() <= final(self).symbols_len(),
    {
        self.try_instantiate_rec(pattern, ctx, ctx, subst)
    }
}

} // verus!
