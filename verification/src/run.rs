//! Equality saturation: search every rule, apply every match, rebuild,
//! and repeat until nothing changes or the round limit is reached.
use vstd::prelude::*;
use crate::id::{Id, RAW_MASK};
use crate::memo::memo_len;
use crate::egraph::{EGraph, lemma_egraph_specs, lemma_extends_trans};
use crate::matching::{MatchMode, Subst, subst_ok, substs_ok, valid_root_entry, entry_root, target_listed, lemma_atom_target};
use crate::holds::{atom_at, lemma_atom_entry, lemma_holds_within_use, lemma_holds_within_table, lemma_holds_within_trans, lemma_holds_within_refl, lemma_keeps_table_symbols, lemma_keeps_table};
use crate::instantiate::{lemma_subst_extend, template_fits, pattern_holds, lemma_pattern_holds_within};
use crate::terms::{Pattern, Rewrite, match_check, pattern_height};
use crate::clock::{clock_start, nanos_since};

verus! {

/// What a run did. Times are in nanoseconds.
#[derive(Clone, Copy, Debug, PartialEq, Eq, Structural)]
pub struct RunStats {
    /// Rounds that changed the e-graph. A final no-change check is not counted.
    pub rounds: usize,
    /// Successful unions requested directly by rewrite applications.
    pub unions: usize,
    pub match_time: u128,
    pub apply_time: u128,
    pub rebuild_time: u128,
}

impl Default for RunStats {
    fn default() -> (r: RunStats)
        ensures
            r == (RunStats { rounds: 0, unions: 0, match_time: 0, apply_time: 0, rebuild_time: 0 }),
    {
        RunStats { rounds: 0, unions: 0, match_time: 0, apply_time: 0, rebuild_time: 0 }
    }
}

/// `a + b`, or the largest `u128` when that overflows.
pub open spec fn sat_add(a: u128, b: u128) -> u128 {
    if a + b > u128::MAX { u128::MAX } else { (a + b) as u128 }
}

impl RunStats {
    /// Time spent in all three phases.
    pub fn total_time(&self) -> (r: u128)
        ensures
            r == sat_add(sat_add(self.match_time, self.apply_time), self.rebuild_time),
    {
        self.match_time.saturating_add(self.apply_time).saturating_add(self.rebuild_time)
    }
}

/// Every recorded match names a class of `g` and binds classes of `g`.
pub open spec fn matches_ok(g: EGraph, m: Seq<Vec<(Id, Subst)>>) -> bool {
    forall|r: int, k: int| 0 <= r < m.len() && 0 <= k < m[r]@.len() ==> {
        &&& g.valid((#[trigger] m[r]@[k]).0)
        &&& subst_ok(g, m[r]@[k].1@)
    }
}

proof fn lemma_matches_extend(g1: EGraph, g2: EGraph, m: Seq<Vec<(Id, Subst)>>)
    requires
        matches_ok(g1, m),
        g1.extends(g2),
    ensures
        matches_ok(g2, m),
{
    assert forall|r: int, k: int| 0 <= r < m.len() && 0 <= k < m[r]@.len() implies {
        &&& g2.valid((#[trigger] m[r]@[k]).0)
        &&& subst_ok(g2, m[r]@[k].1@)
    } by {
        assert(g1.valid(m[r]@[k].0));
        lemma_subst_extend(g1, g2, m[r]@[k].1@);
    }
}

/// A match `m` found by a search: some class of `g`, in a context of
/// `m.0` variables, matches `pattern` under the bindings `m.1`.
pub open spec fn found_in(g: EGraph, pattern: Pattern, m: (usize, Subst)) -> bool {
    exists|x: Id| #[trigger] g.matches(x, pattern, m.1@) && g.valid(x) && x.ctx_spec() == m.0
}

impl EGraph {
    /// Match a pattern against every canonical class placement. Each match
    /// comes with the size of the context it was found in. An invalid
    /// match pattern matches nothing.
    pub fn search(&mut self, pattern: &Pattern) -> (r: Vec<(usize, Subst)>)
        requires
            old(self).wf(),
            pattern_height(*pattern) <= usize::MAX,
        ensures
            final(self).wf(),
            old(self).extends(*final(self)),
            forall|i: int| 0 <= i < r@.len() ==> (#[trigger] r@[i]).0 <= 7 && subst_ok(*final(self), r@[i].1@),
            match_check(*pattern, 0, Seq::empty()) is Err ==> r@.len() == 0,
            final(self).index_current() ==> forall|i: int| 0 <= i < r@.len() ==> #[trigger] found_in(*final(self), *pattern, r@[i]),
            *pattern matches Pattern::Atom(name) ==> (final(self).index_current()
                && (exists|x: Id| old(self).holds_atom(x, name@)) ==> r@.len() > 0),
    {
        let ghost s0 = *self;
        self.rebuild();
        let mut out: Vec<(usize, Subst)> = Vec::new();
        match pattern.match_metavariables() {
            Err(_) => {
                return out;
            },
            Ok(_) => {},
        }
        let targets = self.canonical_targets();
        let ghost nm = atom_name(*pattern);
        let ghost want = *pattern is Atom && self.index_current() && exists|x: Id| s0.holds_atom(x, nm);
        let ghost gx = choose|x: Id| s0.holds_atom(x, nm);
        let ghost gi = choose|k: int| atom_at(*self, k, gx, nm);
        proof {
            if want {
                lemma_holds_within_use(s0, *self);
                assert(self.holds_atom(gx, nm));
                lemma_atom_entry(*self, gx, nm);
                lemma_egraph_specs(*self);
                assert(target_listed(targets@, entry_root(*self, gi)));
            }
        }
        let mut i: usize = 0;
        while i < targets.len()
            invariant
                self.wf(),
                want ==> atom_at(*self, gi, gx, nm),
                want ==> *pattern is Atom && nm == atom_name(*pattern),
                want ==> self.index_current(),
                want ==> ((exists|j: int| 0 <= j < i && entry_root(*self, gi) == (#[trigger] targets@[j].lift_spec()@, targets@[j].raw_spec() as int))
                    ==> out@.len() > 0),
                i <= targets@.len(),
                forall|j: int| 0 <= j < targets@.len() ==> valid_root_entry(*self, #[trigger] targets@[j], self.node_len() as int),
                forall|k: int| 0 <= k < out@.len() ==> (#[trigger] out@[k]).0 <= 7 && subst_ok(*self, out@[k].1@),
                self.index_current() ==> forall|k: int| 0 <= k < out@.len() ==> #[trigger] found_in(*self, *pattern, out@[k]),
            decreases targets@.len() - i,
        {
            let target = targets[i];
            proof {
                assert(valid_root_entry(*self, targets@[i as int], self.node_len() as int));
                use_type_invariant(&target);
                crate::id::lemma_id_lift_inv(target);
            }
            let context = target.ctx();
            proof {
                if want && entry_root(*self, gi) == (target.lift_spec()@, target.raw_spec() as int) {
                    lemma_atom_target(*self, gx, nm, target, gi);
                }
            }
            let found = self.ematch_with(pattern, &target, MatchMode::Canonical);
            let ghost out_i = out@;
            let mut k: usize = 0;
            while k < found.len()
                invariant
                    self.wf(),
                    k <= found@.len(),
                    out@.len() == out_i.len() + k,
                    context <= 7,
                    substs_ok(*self, found@),
                    forall|j: int| 0 <= j < out@.len() ==> (#[trigger] out@[j]).0 <= 7 && subst_ok(*self, out@[j].1@),
                    self.index_current() ==> forall|j: int| 0 <= j < out@.len() ==> #[trigger] found_in(*self, *pattern, out@[j]),
                    self.index_current() ==> forall|j: int| 0 <= j < found@.len() ==> self.matches(target, *pattern, #[trigger] found@[j]@),
                    self.valid(target),
                    target.ctx_spec() == context,
                decreases found@.len() - k,
            {
                let s = found[k].duplicate();
                proof {
                    assert(subst_ok(*self, found@[k as int]@));
                }
                let ghost before = out@;
                out.push((context, s));
                proof {
                    assert forall|j: int| 0 <= j < out@.len() implies (#[trigger] out@[j]).0 <= 7 && subst_ok(*self, out@[j].1@) by {
                        if j < out@.len() - 1 {
                            assert(out@[j] == out@.drop_last()[j]);
                        }
                    }
                    if self.index_current() {
                        assert(self.matches(target, *pattern, found@[k as int]@));
                        assert forall|j: int| 0 <= j < out@.len() implies #[trigger] found_in(*self, *pattern, out@[j]) by {
                            if j < before.len() {
                                assert(out@[j] == before[j]);
                            } else {
                                assert(self.matches(target, *pattern, out@[j].1@));
                            }
                        }
                    }
                }
                k = k + 1;
            }
            proof {
                if want {
                    if exists|j: int| 0 <= j < i + 1 && entry_root(*self, gi) == (#[trigger] targets@[j].lift_spec()@, targets@[j].raw_spec() as int) {
                        if !(exists|j: int| 0 <= j < i && entry_root(*self, gi) == (#[trigger] targets@[j].lift_spec()@, targets@[j].raw_spec() as int)) {
                            assert(entry_root(*self, gi) == (target.lift_spec()@, target.raw_spec() as int));
                            assert(found@.len() > 0);
                        }
                    }
                }
            }
            i = i + 1;
        }
        out
    }
}

/// The name of an atom pattern.
pub open spec fn atom_name(p: Pattern) -> Seq<char> {
    match p {
        Pattern::Atom(n) => n@,
        _ => Seq::empty(),
    }
}


/// A match of a rule at `target` under the bindings `s` has been applied
/// in `g`: a class holding the rule's right-hand side, instantiated with
/// `s` in `target`'s context, equals `target`. Owed unless the right-hand
/// side does not fit the bindings or the e-graph is out of room.
pub open spec fn match_applied(g: EGraph, rhs: Pattern, target: Id, s: Seq<(Seq<char>, Id)>) -> bool {
    ||| !template_fits(rhs, target.ctx_spec(), target.ctx_spec(), s)
    ||| !g.room(2)
    ||| exists|x: Id| #[trigger] pattern_holds(g, x, rhs, target.ctx_spec(), target.ctx_spec(), s)
        && g.valid(x) && g.equiv(target, x)
}

/// An applied match stays applied as the e-graph grows.
proof fn lemma_applied_persist(g1: EGraph, g2: EGraph, rhs: Pattern, target: Id, s: Seq<(Seq<char>, Id)>)
    requires
        g1.extends(g2),
        g1.holds_within(g2),
        g1.symbols_len() <= g2.symbols_len(),
        g1.valid(target),
        match_applied(g1, rhs, target, s),
    ensures
        match_applied(g2, rhs, target, s),
{
    let c = target.ctx_spec();
    if template_fits(rhs, c, c, s) && g1.room(2) {
        let x = choose|x: Id| #[trigger] pattern_holds(g1, x, rhs, c, c, s) && g1.valid(x) && g1.equiv(target, x);
        lemma_pattern_holds_within(g1, g2, x, rhs, c, c, s);
        assert(g2.equiv(target, x));
        assert(pattern_holds(g2, x, rhs, c, c, s));
    }
}

/// A rule whose left-hand side is an atom fires at `x`: a class of the
/// empty context that holds that atom.
pub open spec fn atom_rule_fires(g: EGraph, rule: Rewrite, x: Id) -> bool {
    rule.lhs_spec() is Atom && x.ctx_spec() == 0 && g.holds_atom(x, atom_name(rule.lhs_spec()))
}

/// A rule whose left-hand side is a binder over a metavariable.
pub open spec fn binder_rule(rule: Rewrite) -> bool {
    rule.lhs_spec() matches Pattern::Binder(_, bp) && *bp is MetaVar
}

/// The operator of a binder rule's left-hand side.
pub open spec fn binder_rule_op(rule: Rewrite) -> Seq<char> {
    rule.lhs_spec()->Binder_0@
}

/// The body pattern of a binder rule's left-hand side.
pub open spec fn binder_rule_body(rule: Rewrite) -> Pattern {
    *rule.lhs_spec()->Binder_1
}

/// Among the recorded matches `rec`, the binder e-node of entry `e` of the
/// class of `x` has one at `x` for a placement of its body, if that body
/// fits the rule's metavariable.
pub open spec fn binder_entry_recorded(g: EGraph, rule: Rewrite, x: Id, e: int, rec: Seq<(Id, Subst)>) -> bool {
    exists|body: Id| #[trigger] g.entry_body(x, e, body) && (g.fits_under(body, binder_rule_body(rule), x.ctx_spec(), Seq::empty())
        ==> exists|k: int| 0 <= k < rec.len() && (#[trigger] rec[k]).0 == x
            && g.matches_under(body, binder_rule_body(rule), x.ctx_spec(), rec[k].1@))
}

/// Recorded matches stay recorded as more are appended.
proof fn lemma_recorded_grow(g: EGraph, rule: Rewrite, x: Id, e: int, rec1: Seq<(Id, Subst)>, rec2: Seq<(Id, Subst)>)
    requires
        binder_entry_recorded(g, rule, x, e, rec1),
        rec1.len() <= rec2.len(),
        forall|j: int| 0 <= j < rec1.len() ==> #[trigger] rec2[j] == rec1[j],
    ensures
        binder_entry_recorded(g, rule, x, e, rec2),
{
    let body = choose|body: Id| #[trigger] g.entry_body(x, e, body) && (g.fits_under(body, binder_rule_body(rule), x.ctx_spec(), Seq::empty())
        ==> exists|k: int| 0 <= k < rec1.len() && (#[trigger] rec1[k]).0 == x
            && g.matches_under(body, binder_rule_body(rule), x.ctx_spec(), rec1[k].1@));
    if g.fits_under(body, binder_rule_body(rule), x.ctx_spec(), Seq::empty()) {
        let k = choose|k: int| 0 <= k < rec1.len() && (#[trigger] rec1[k]).0 == x
            && g.matches_under(body, binder_rule_body(rule), x.ctx_spec(), rec1[k].1@);
        assert(rec2[k] == rec1[k]);
    }
}

/// In `g`, every binder rule has been applied at every binder e-node that
/// its operator names in a canonical class placement `x` of `g0` with room
/// for one more variable: for a placement of the e-node's body, wherever
/// that body fits the rule's metavariable, `g` holds the right-hand side
/// under bindings that match the body, equal to `x`.
pub open spec fn binder_rules_applied(g0: EGraph, g: EGraph, rules: Seq<Rewrite>) -> bool {
    forall|q: int, x: Id, e: int| 0 <= q < rules.len() && binder_rule(rules[q]) && #[trigger] g0.canonical_target(x)
        && x.ctx_spec() < 7 && #[trigger] g0.binder_entry_in(x, binder_rule_op(rules[q]), e)
        ==> exists|body: Id| #[trigger] g0.entry_body(x, e, body)
            && (g0.fits_under(body, binder_rule_body(rules[q]), x.ctx_spec(), Seq::empty())
                ==> exists|s: Seq<(Seq<char>, Id)>| #[trigger] g0.matches_under(body, binder_rule_body(rules[q]), x.ctx_spec(), s)
                    && match_applied(g, rules[q].rhs_spec(), x, s))
}

/// Applied binder rules stay applied as the e-graph grows.
proof fn lemma_binder_rules_persist(g0: EGraph, g1: EGraph, g2: EGraph, rules: Seq<Rewrite>)
    requires
        binder_rules_applied(g0, g1, rules),
        g0.extends(g1),
        g1.extends(g2),
        g1.holds_within(g2),
        g1.symbols_len() <= g2.symbols_len(),
    ensures
        binder_rules_applied(g0, g2, rules),
{
    assert forall|q: int, x: Id, e: int| 0 <= q < rules.len() && binder_rule(rules[q]) && #[trigger] g0.canonical_target(x)
        && x.ctx_spec() < 7 && #[trigger] g0.binder_entry_in(x, binder_rule_op(rules[q]), e)
        implies exists|body: Id| #[trigger] g0.entry_body(x, e, body)
            && (g0.fits_under(body, binder_rule_body(rules[q]), x.ctx_spec(), Seq::empty())
                ==> exists|s: Seq<(Seq<char>, Id)>| #[trigger] g0.matches_under(body, binder_rule_body(rules[q]), x.ctx_spec(), s)
                    && match_applied(g2, rules[q].rhs_spec(), x, s)) by {
        let body = choose|body: Id| #[trigger] g0.entry_body(x, e, body)
            && (g0.fits_under(body, binder_rule_body(rules[q]), x.ctx_spec(), Seq::empty())
                ==> exists|s: Seq<(Seq<char>, Id)>| #[trigger] g0.matches_under(body, binder_rule_body(rules[q]), x.ctx_spec(), s)
                    && match_applied(g1, rules[q].rhs_spec(), x, s));
        if g0.fits_under(body, binder_rule_body(rules[q]), x.ctx_spec(), Seq::empty()) {
            let s = choose|s: Seq<(Seq<char>, Id)>| #[trigger] g0.matches_under(body, binder_rule_body(rules[q]), x.ctx_spec(), s)
                && match_applied(g1, rules[q].rhs_spec(), x, s);
            crate::matching::lemma_canonical_target_valid(g0, x);
            assert(g1.valid(x));
            lemma_applied_persist(g1, g2, rules[q].rhs_spec(), x, s);
        }
    }
}

/// The first round of a run applies every binder rule at every binder
/// e-node of the e-graph the run began with.
proof fn lemma_first_round_binders(s0: EGraph, sa: EGraph, sc: EGraph, rules: Seq<Rewrite>, all: Seq<Vec<(Id, Subst)>>)
    requires
        s0.same_but_timing(sa),
        all.len() == rules.len(),
        forall|q: int, x: Id, e: int| 0 <= q < rules.len() && binder_rule(rules[q])
            && #[trigger] sa.canonical_target(x) && x.ctx_spec() < 7 && #[trigger] sa.binder_entry_in(x, binder_rule_op(rules[q]), e)
            ==> binder_entry_recorded(sa, rules[q], x, e, all[q]@),
        forall|q: int, k: int| 0 <= q < rules.len() && 0 <= k < all[q]@.len() ==> #[trigger] match_applied(
            sc, rules[q].rhs_spec(), all[q]@[k].0, all[q]@[k].1@),
    ensures
        binder_rules_applied(s0, sc, rules),
{
    crate::matching::lemma_same_but_timing_matches(s0, sa);
    assert forall|q: int, x: Id, e: int| 0 <= q < rules.len() && binder_rule(rules[q]) && #[trigger] s0.canonical_target(x)
        && x.ctx_spec() < 7 && #[trigger] s0.binder_entry_in(x, binder_rule_op(rules[q]), e)
        implies exists|body: Id| #[trigger] s0.entry_body(x, e, body)
            && (s0.fits_under(body, binder_rule_body(rules[q]), x.ctx_spec(), Seq::empty())
                ==> exists|s: Seq<(Seq<char>, Id)>| #[trigger] s0.matches_under(body, binder_rule_body(rules[q]), x.ctx_spec(), s)
                    && match_applied(sc, rules[q].rhs_spec(), x, s)) by {
        let op = binder_rule_op(rules[q]);
        let bp = binder_rule_body(rules[q]);
        assert(sa.canonical_target(x));
        assert(sa.binder_entry_in(x, op, e));
        assert(binder_entry_recorded(sa, rules[q], x, e, all[q]@));
        let body = choose|body: Id| #[trigger] sa.entry_body(x, e, body) && (sa.fits_under(body, bp, x.ctx_spec(), Seq::empty())
            ==> exists|k: int| 0 <= k < all[q]@.len() && (#[trigger] all[q]@[k]).0 == x
                && sa.matches_under(body, bp, x.ctx_spec(), all[q]@[k].1@));
        assert(bp is MetaVar);
        assert(s0.entry_body(x, e, body));
        assert(sa.fits_under(body, bp, x.ctx_spec(), Seq::empty()) == s0.fits_under(body, bp, x.ctx_spec(), Seq::empty()));
        if s0.fits_under(body, bp, x.ctx_spec(), Seq::empty()) {
            let k = choose|k: int| 0 <= k < all[q]@.len() && (#[trigger] all[q]@[k]).0 == x
                && sa.matches_under(body, bp, x.ctx_spec(), all[q]@[k].1@);
            let s = all[q]@[k].1@;
            assert(sa.matches_under(body, bp, x.ctx_spec(), s) == s0.matches_under(body, bp, x.ctx_spec(), s));
            assert(match_applied(sc, rules[q].rhs_spec(), all[q]@[k].0, all[q]@[k].1@));
        }
    }
}

/// The atom entry that `x` holds reaches one of the first `t` targets.
pub(crate) open spec fn reached(g: EGraph, x: Id, name: Seq<char>, v: Seq<Id>, t: int) -> bool {
    exists|i: int, j: int| #![trigger atom_at(g, i, x, name), v[j]]
        0 <= j < t && atom_at(g, i, x, name) && entry_root(g, i) == (v[j].lift_spec()@, v[j].raw_spec() as int)
}

/// In `g`, every atom rule that fired in `g0` has been applied: each class
/// where it fired is equal to an instance of its right-hand side, unless
/// that instance does not fit or the e-graph is out of room.
pub open spec fn atom_rules_applied(g0: EGraph, g: EGraph, rules: Seq<Rewrite>) -> bool {
    forall|q: int, x: Id| 0 <= q < rules.len() && #[trigger] atom_rule_fires(g0, rules[q], x) ==> exists|t: Id, s: Seq<(Seq<char>, Id)>|
        #[trigger] match_applied(g, rules[q].rhs_spec(), t, s) && g.valid(t) && g.equiv(t, x)
}

/// Applied atom rules stay applied as the e-graph grows.
proof fn lemma_atom_rules_persist(g0: EGraph, g1: EGraph, g2: EGraph, rules: Seq<Rewrite>)
    requires
        atom_rules_applied(g0, g1, rules),
        g0.extends(g1),
        g1.extends(g2),
        g1.holds_within(g2),
        g1.symbols_len() <= g2.symbols_len(),
    ensures
        atom_rules_applied(g0, g2, rules),
{
    assert forall|q: int, x: Id| 0 <= q < rules.len() && #[trigger] atom_rule_fires(g0, rules[q], x) implies exists|t: Id, s: Seq<(Seq<char>, Id)>|
        #[trigger] match_applied(g2, rules[q].rhs_spec(), t, s) && g2.valid(t) && g2.equiv(t, x) by {
        let (t, s) = choose|t: Id, s: Seq<(Seq<char>, Id)>| #[trigger] match_applied(g1, rules[q].rhs_spec(), t, s) && g1.valid(t) && g1.equiv(t, x);
        let i = lemma_atom_entry(g0, x, atom_name(rules[q].lhs_spec()));
        lemma_egraph_specs(g0);
        lemma_egraph_specs(g1);
        assert(g0.valid(x));
        assert(g1.valid(x));
        lemma_applied_persist(g1, g2, rules[q].rhs_spec(), t, s);
    }
}

/// The first round of a run applies every atom rule that fired when the
/// run began.
proof fn lemma_first_round(s0: EGraph, sa: EGraph, sc: EGraph, rules: Seq<Rewrite>, all: Seq<Vec<(Id, Subst)>>)
    requires
        s0.holds_within(sa),
        s0.extends(sa),
        sa.extends(sc),
        sa.index_current(),
        all.len() == rules.len(),
        matches_ok(sa, all),
        forall|q: int, x: Id| 0 <= q < rules.len() && #[trigger] atom_rule_fires(sa, rules[q], x)
            ==> exists|k: int| 0 <= k < all[q]@.len() && sa.equiv(#[trigger] all[q]@[k].0, x),
        forall|q: int, k: int| 0 <= q < rules.len() && 0 <= k < all[q]@.len() ==> #[trigger] match_applied(
            sc, rules[q].rhs_spec(), all[q]@[k].0, all[q]@[k].1@),
    ensures
        atom_rules_applied(s0, sc, rules),
{
    lemma_holds_within_use(s0, sa);
    assert forall|q: int, x: Id| 0 <= q < rules.len() && #[trigger] atom_rule_fires(s0, rules[q], x) implies exists|t: Id, s: Seq<(Seq<char>, Id)>|
        #[trigger] match_applied(sc, rules[q].rhs_spec(), t, s) && sc.valid(t) && sc.equiv(t, x) by {
        let name = atom_name(rules[q].lhs_spec());
        assert(sa.holds_atom(x, name));
        assert(atom_rule_fires(sa, rules[q], x));
        let k = choose|k: int| 0 <= k < all[q]@.len() && sa.equiv(#[trigger] all[q]@[k].0, x);
        let t = all[q]@[k].0;
        let i = lemma_atom_entry(s0, x, name);
        lemma_egraph_specs(s0);
        assert(s0.valid(x));
        assert(sa.valid(x));
        assert(sa.valid(t));
        assert(match_applied(sc, rules[q].rhs_spec(), t, all[q]@[k].1@));
    }
}

impl EGraph {
    /// Search every rule against every canonical class placement.
    fn collect_matches(&self, rules: &[Rewrite]) -> (r: Vec<Vec<(Id, Subst)>>)
        requires
            self.wf(),
        ensures
            r@.len() == rules@.len(),
            matches_ok(*self, r@),
            self.index_current() ==> forall|q: int, x: Id| 0 <= q < rules@.len() && #[trigger] atom_rule_fires(*self, rules@[q], x)
                ==> exists|k: int| 0 <= k < r@[q]@.len() && self.equiv(#[trigger] r@[q]@[k].0, x),
            self.index_current() ==> forall|q: int, x: Id, e: int| 0 <= q < rules@.len() && binder_rule(rules@[q])
                && #[trigger] self.canonical_target(x) && x.ctx_spec() < 7 && #[trigger] self.binder_entry_in(x, binder_rule_op(rules@[q]), e)
                ==> binder_entry_recorded(*self, rules@[q], x, e, r@[q]@),
    {
        let targets = self.canonical_targets();
        let mut all: Vec<Vec<(Id, Subst)>> = Vec::new();
        let mut r: usize = 0;
        while r < rules.len()
            invariant
                self.wf(),
                r <= rules@.len(),
                all@.len() == r,
                matches_ok(*self, all@),
                forall|j: int| 0 <= j < targets@.len() ==> valid_root_entry(*self, #[trigger] targets@[j], self.node_len() as int),
                forall|i: int| 0 <= i < self.node_len() ==> target_listed(targets@, #[trigger] entry_root(*self, i)),
                forall|j: int| 0 <= j < targets@.len() ==> (#[trigger] targets@[j]).inv(),
                self.index_current() ==> forall|q: int, x: Id| 0 <= q < r && #[trigger] atom_rule_fires(*self, rules@[q], x)
                    ==> exists|k: int| 0 <= k < all@[q]@.len() && self.equiv(#[trigger] all@[q]@[k].0, x),
                self.index_current() ==> forall|q: int, x: Id, e: int| 0 <= q < r && binder_rule(rules@[q])
                    && #[trigger] self.canonical_target(x) && x.ctx_spec() < 7 && #[trigger] self.binder_entry_in(x, binder_rule_op(rules@[q]), e)
                    ==> binder_entry_recorded(*self, rules@[q], x, e, all@[q]@),
            decreases rules@.len() - r,
        {
            let rule = &rules[r];
            let ghost nm = atom_name(rule.lhs_spec());
            let mut found_all: Vec<(Id, Subst)> = Vec::new();
            let mut t: usize = 0;
            while t < targets.len()
                invariant
                    self.wf(),
                    t <= targets@.len(),
                    forall|j: int| 0 <= j < targets@.len() ==> valid_root_entry(*self, #[trigger] targets@[j], self.node_len() as int),
                    forall|k: int| 0 <= k < found_all@.len() ==> self.valid((#[trigger] found_all@[k]).0) && subst_ok(*self, found_all@[k].1@),
                    nm == atom_name(rule.lhs_spec()),
                    self.index_current() ==> forall|x: Id| #[trigger] atom_rule_fires(*self, *rule, x) && reached(*self, x, nm, targets@, t as int)
                        ==> exists|k: int| 0 <= k < found_all@.len() && self.equiv(#[trigger] found_all@[k].0, x),
                    self.index_current() && binder_rule(*rule) ==> forall|jj: int, e: int| 0 <= jj < t && targets@[jj].ctx_spec() < 7
                        && #[trigger] self.binder_entry_in(targets@[jj], binder_rule_op(*rule), e)
                        ==> binder_entry_recorded(*self, *rule, targets@[jj], e, found_all@),
                decreases targets@.len() - t,
            {
                let target = targets[t];
                proof {
                    assert(valid_root_entry(*self, targets@[t as int], self.node_len() as int));
                    use_type_invariant(&target);
                }
                let found = self.ematch_with(rule.lhs(), &target, MatchMode::Canonical);
                let ghost fa0 = found_all@;
                let mut k: usize = 0;
                while k < found.len()
                    invariant
                        self.wf(),
                        k <= found@.len(),
                        self.valid(target),
                        substs_ok(*self, found@),
                        forall|j: int| 0 <= j < found_all@.len() ==> self.valid((#[trigger] found_all@[j]).0) && subst_ok(*self, found_all@[j].1@),
                        found_all@.len() == fa0.len() + k,
                        forall|j: int| 0 <= j < fa0.len() ==> #[trigger] found_all@[j] == fa0[j],
                        forall|j: int| fa0.len() <= j < found_all@.len() ==> (#[trigger] found_all@[j]).0 == target,
                        forall|m: int| 0 <= m < k ==> (#[trigger] found_all@[fa0.len() + m]).1@ == found@[m]@,
                    decreases found@.len() - k,
                {
                    let s = found[k].duplicate();
                    proof {
                        assert(subst_ok(*self, found@[k as int]@));
                    }
                    let ghost before = found_all@;
                    found_all.push((target, s));
                    proof {
                        assert forall|j: int| 0 <= j < found_all@.len() implies self.valid((#[trigger] found_all@[j]).0) && subst_ok(*self, found_all@[j].1@) by {
                            if j < found_all@.len() - 1 {
                                assert(found_all@[j] == found_all@.drop_last()[j]);
                            }
                        }
                        assert forall|j: int| 0 <= j < fa0.len() implies #[trigger] found_all@[j] == fa0[j] by {
                            assert(found_all@[j] == before[j]);
                        }
                        assert forall|j: int| fa0.len() <= j < found_all@.len() implies (#[trigger] found_all@[j]).0 == target by {
                            if j < found_all@.len() - 1 {
                                assert(found_all@[j] == before[j]);
                            }
                        }
                        assert forall|m: int| 0 <= m < k + 1 implies (#[trigger] found_all@[fa0.len() + m]).1@ == found@[m]@ by {
                            if m < k {
                                assert(found_all@[fa0.len() + m] == before[fa0.len() + m]);
                            }
                        }
                    }
                    k = k + 1;
                }
                proof {
                    if self.index_current() && binder_rule(*rule) {
                        assert forall|jj: int, e: int| 0 <= jj < t + 1 && targets@[jj].ctx_spec() < 7
                            && #[trigger] self.binder_entry_in(targets@[jj], binder_rule_op(*rule), e)
                            implies binder_entry_recorded(*self, *rule, targets@[jj], e, found_all@) by {
                            if jj < t {
                                lemma_recorded_grow(*self, *rule, targets@[jj], e, fa0, found_all@);
                            } else {
                                let bp = binder_rule_body(*rule);
                                assert(rule.lhs_spec() == Pattern::Binder(rule.lhs_spec()->Binder_0, rule.lhs_spec()->Binder_1));
                                let body = choose|body: Id| self.entry_body(target, e, body)
                                    && (self.fits_under(body, bp, target.ctx_spec(), Seq::empty()) ==> exists|kk: int| 0 <= kk < found@.len()
                                    && self.matches_under(body, bp, target.ctx_spec(), #[trigger] found@[kk]@));
                                if self.fits_under(body, bp, target.ctx_spec(), Seq::empty()) {
                                    let kk = choose|kk: int| 0 <= kk < found@.len() && self.matches_under(body, bp, target.ctx_spec(), #[trigger] found@[kk]@);
                                    assert(found_all@[fa0.len() + kk].1@ == found@[kk]@);
                                    assert(found_all@[fa0.len() + kk].0 == target);
                                }
                                assert(self.entry_body(target, e, body));
                            }
                        }
                    }
                }
                proof {
                    if self.index_current() {
                        assert forall|x: Id| #[trigger] atom_rule_fires(*self, *rule, x) && reached(*self, x, nm, targets@, t + 1)
                            implies exists|k: int| 0 <= k < found_all@.len() && self.equiv(#[trigger] found_all@[k].0, x) by {
                            if reached(*self, x, nm, targets@, t as int) {
                                let k = choose|k: int| 0 <= k < fa0.len() && self.equiv(#[trigger] fa0[k].0, x);
                                assert(found_all@[k] == fa0[k]);
                            } else {
                                let (i, j) = choose|i: int, j: int| #![trigger atom_at(*self, i, x, nm), targets@[j]]
                                    0 <= j < t + 1 && atom_at(*self, i, x, nm) && entry_root(*self, i) == (targets@[j].lift_spec()@, targets@[j].raw_spec() as int);
                                assert(j == t);
                                lemma_atom_target(*self, x, nm, target, i);
                                assert(found@.len() > 0);
                                assert(found_all@[fa0.len() as int].0 == target);
                                assert(x.lift_spec()@.len() == 0);
                                assert(self.equiv(target, x));
                            }
                        }
                    }
                }
                t = t + 1;
            }
            proof {
                if self.index_current() {
                    assert forall|x: Id| #[trigger] atom_rule_fires(*self, *rule, x)
                        implies exists|k: int| 0 <= k < found_all@.len() && self.equiv(#[trigger] found_all@[k].0, x) by {
                        let i = lemma_atom_entry(*self, x, nm);
                        lemma_egraph_specs(*self);
                        assert(target_listed(targets@, entry_root(*self, i)));
                        let j = choose|j: int| 0 <= j < targets@.len() && entry_root(*self, i) == (targets@[j].lift_spec()@, targets@[j].raw_spec() as int);
                        assert(reached(*self, x, nm, targets@, targets@.len() as int));
                    }
                }
            }
            proof {
                if self.index_current() && binder_rule(*rule) {
                    assert forall|x: Id, e: int| #[trigger] self.canonical_target(x) && x.ctx_spec() < 7
                        && #[trigger] self.binder_entry_in(x, binder_rule_op(*rule), e)
                        implies binder_entry_recorded(*self, *rule, x, e, found_all@) by {
                        crate::matching::lemma_canonical_target_listed(*self, x, targets@);
                        let j = choose|j: int| 0 <= j < targets@.len() && targets@[j] == x;
                        assert(self.binder_entry_in(targets@[j], binder_rule_op(*rule), e));
                    }
                }
            }
            let ghost all0 = all@;
            all.push(found_all);
            proof {
                if self.index_current() {
                    assert forall|q: int, x: Id| 0 <= q < r + 1 && #[trigger] atom_rule_fires(*self, rules@[q], x)
                        implies exists|k: int| 0 <= k < all@[q]@.len() && self.equiv(#[trigger] all@[q]@[k].0, x) by {
                        if q < r {
                            assert(all@[q] == all0[q]);
                            let k = choose|k: int| 0 <= k < all0[q]@.len() && self.equiv(#[trigger] all0[q]@[k].0, x);
                        } else {
                            assert(all@[q] == found_all);
                            assert(rules@[q] == *rule);
                        }
                    }
                    assert forall|q: int, x: Id, e: int| 0 <= q < r + 1 && binder_rule(rules@[q])
                        && #[trigger] self.canonical_target(x) && x.ctx_spec() < 7 && #[trigger] self.binder_entry_in(x, binder_rule_op(rules@[q]), e)
                        implies binder_entry_recorded(*self, rules@[q], x, e, all@[q]@) by {
                        if q < r {
                            assert(all@[q] == all0[q]);
                        } else {
                            assert(all@[q] == found_all);
                            assert(rules@[q] == *rule);
                        }
                    }
                }
                assert forall|q: int, k: int| 0 <= q < all@.len() && 0 <= k < all@[q]@.len() implies {
                    &&& self.valid((#[trigger] all@[q]@[k]).0)
                    &&& subst_ok(*self, all@[q]@[k].1@)
                } by {
                    if q < all@.len() - 1 {
                        assert(all@[q] == all@.drop_last()[q]);
                    }
                }
            }
            r = r + 1;
        }
        all
    }

    /// Apply every recorded match: instantiate the rule's right-hand side
    /// in the match's context and union it with the matched class.
    /// Returns the number of unions that changed something, and whether
    /// the e-graph ran out of room.
    fn apply_matches(&mut self, rules: &[Rewrite], all: &Vec<Vec<(Id, Subst)>>) -> (r: (usize, bool))
        requires
            old(self).wf(),
            all@.len() == rules@.len(),
            matches_ok(*old(self), all@),
        ensures
            final(self).wf(),
            old(self).extends(*final(self)),
            r.1 ==> !final(self).room(2),
            forall|q: int, k: int| 0 <= q < rules@.len() && 0 <= k < all@[q]@.len() ==> #[trigger] match_applied(
                *final(self), rules@[q].rhs_spec(), all@[q]@[k].0, all@[q]@[k].1@),
            old(self).holds_within(*final(self)),
            old(self).symbols_len() <= final(self).symbols_len(),
    {
        let ghost s0 = *self;
        proof {
            lemma_holds_within_refl(s0);
        }
        let mut unions: usize = 0;
        let mut r: usize = 0;
        while r < rules.len()
            invariant
                self.wf(),
                s0 == *old(self),
                s0.extends(*self),
                all@.len() == rules@.len(),
                r <= rules@.len(),
                matches_ok(*self, all@),
                forall|q: int, k: int| 0 <= q < r && 0 <= k < all@[q]@.len() ==> #[trigger] match_applied(
                    *self, rules@[q].rhs_spec(), all@[q]@[k].0, all@[q]@[k].1@),
                s0.holds_within(*self),
                s0.symbols_len() <= self.symbols_len(),
            decreases rules@.len() - r,
        {
            let rule = &rules[r];
            let matches = &all[r];
            let mut k: usize = 0;
            while k < matches.len()
                invariant
                    self.wf(),
                    s0 == *old(self),
                    s0.extends(*self),
                    all@.len() == rules@.len(),
                    0 <= r < rules@.len(),
                    *matches == all@[r as int],
                    *rule == rules@[r as int],
                    k <= matches@.len(),
                    matches_ok(*self, all@),
                    forall|q: int, k2: int| 0 <= q < r && 0 <= k2 < all@[q]@.len() ==> #[trigger] match_applied(
                        *self, rules@[q].rhs_spec(), all@[q]@[k2].0, all@[q]@[k2].1@),
                    forall|k2: int| 0 <= k2 < k ==> #[trigger] match_applied(
                        *self, rules@[r as int].rhs_spec(), all@[r as int]@[k2].0, all@[r as int]@[k2].1@),
                    s0.holds_within(*self),
                    s0.symbols_len() <= self.symbols_len(),
                decreases matches@.len() - k,
            {
                let target = matches[k].0;
                let subst = &matches[k].1;
                proof {
                    assert(self.valid(all@[r as int]@[k as int].0));
                    use_type_invariant(&target);
                    crate::id::lemma_id_lift_inv(target);
                }
                let ghost s1 = *self;
                let replacement = self.try_instantiate(rule.rhs(), target.ctx(), subst);
                let ghost s2 = *self;
                proof {
                    lemma_extends_trans(s0, s1, s2);
                    lemma_matches_extend(s1, s2, all@);
                    assert(s2.valid(target));
                }
                match replacement {
                    Some(x) => {
                        if !self.has_room(2) {
                            proof {
                                assert forall|q: int, k2: int| 0 <= q < rules@.len() && 0 <= k2 < all@[q]@.len() implies #[trigger] match_applied(
                                    *self, rules@[q].rhs_spec(), all@[q]@[k2].0, all@[q]@[k2].1@) by {}
                                lemma_holds_within_trans(s0, s1, s2);
                            }
                            return (unions, true);
                        }
                        proof {
                            lemma_egraph_specs(*self);
                        }
                        let changed = self.union(&target, &x);
                        proof {
                            lemma_extends_trans(s0, s2, *self);
                            lemma_matches_extend(s2, *self, all@);
                            lemma_holds_within_table(s2, *self);
                            lemma_keeps_table_symbols(s2, *self);
                            assert(pattern_holds(s2, x, rule.rhs_spec(), target.ctx_spec(), target.ctx_spec(), subst@));
                            lemma_pattern_holds_within(s2, *self, x, rule.rhs_spec(), target.ctx_spec(), target.ctx_spec(), subst@);
                            assert(self.equiv(target, x));
                            assert(match_applied(*self, rule.rhs_spec(), target, subst@));
                        }
                        if changed {
                            unions = unions.saturating_add(1);
                        }
                    },
                    None => {
                        proof {
                            lemma_holds_within_refl(s2);
                            assert(match_applied(*self, rule.rhs_spec(), target, subst@));
                        }
                    },
                }
                proof {
                    lemma_holds_within_trans(s1, s2, *self);
                    lemma_holds_within_trans(s0, s1, *self);
                    assert(s1.symbols_len() <= self.symbols_len());
                    assert(all@[r as int]@[k as int].0 == target && all@[r as int]@[k as int].1@ == subst@);
                    assert(*rule == rules@[r as int]);
                    assert(match_applied(*self, rules@[r as int].rhs_spec(), all@[r as int]@[k as int].0, all@[r as int]@[k as int].1@));
                    assert forall|q: int, k2: int| 0 <= q < r && 0 <= k2 < all@[q]@.len() implies #[trigger] match_applied(
                        *self, rules@[q].rhs_spec(), all@[q]@[k2].0, all@[q]@[k2].1@) by {
                        lemma_applied_persist(s1, *self, rules@[q].rhs_spec(), all@[q]@[k2].0, all@[q]@[k2].1@);
                    }
                    assert forall|k2: int| 0 <= k2 < k + 1 implies #[trigger] match_applied(
                        *self, rules@[r as int].rhs_spec(), all@[r as int]@[k2].0, all@[r as int]@[k2].1@) by {
                        if k2 < k {
                            lemma_applied_persist(s1, *self, rules@[r as int].rhs_spec(), all@[r as int]@[k2].0, all@[r as int]@[k2].1@);
                        }
                    }
                }
                k = k + 1;
            }
            proof {
                assert forall|q: int, k2: int| 0 <= q < r + 1 && 0 <= k2 < all@[q]@.len() implies #[trigger] match_applied(
                    *self, rules@[q].rhs_spec(), all@[q]@[k2].0, all@[q]@[k2].1@) by {
                    if q == r {
                        assert(match_applied(*self, rules@[r as int].rhs_spec(), all@[r as int]@[k2].0, all@[r as int]@[k2].1@));
                    }
                }
            }
            r = r + 1;
        }
        (unions, false)
    }

    /// Run at most `limit` rounds of equality saturation with `rules`.
    /// Stops early after a round that changes nothing, or when the
    /// e-graph runs out of room for new classes.
    pub fn run(&mut self, rules: &[Rewrite], limit: usize) -> (stats: RunStats)
        requires
            old(self).wf(),
        ensures
            final(self).wf(),
            old(self).extends(*final(self)),
            stats.rounds <= limit,
            stats.rounds < limit ==> !final(self).room(2) || final(self).rebuilt()
                || final(self).len() + 2 * final(self).node_len() > RAW_MASK,
            limit > 0 && old(self).rebuilt() ==> atom_rules_applied(*old(self), *final(self), rules@),
            limit > 0 && old(self).rebuilt() ==> binder_rules_applied(*old(self), *final(self), rules@),
    {
        let ghost s0 = *self;
        let mut stats = RunStats::default();
        let rebuild_before = self.rebuild_nanos;
        self.rebuild();
        let ghost sa = *self;
        proof {
            if s0.rebuilt() {
                crate::egraph::law_same_but_timing(s0, sa);
                crate::matching::lemma_rebuilt_index_current(sa);
            }
        }
        let ghost mut applied = false;
        stats.rebuild_time = stats.rebuild_time.saturating_add(self.rebuild_nanos.saturating_sub(rebuild_before));
        while stats.rounds < limit
            invariant
                self.wf(),
                s0 == *old(self),
                s0.extends(*self),
                stats.rounds <= limit,
                s0.holds_within(sa),
                s0.extends(sa),
                s0.rebuilt() ==> sa.index_current(),
                !applied ==> *self == sa && stats.rounds == 0,
                applied && s0.rebuilt() ==> atom_rules_applied(s0, *self, rules@),
                applied && s0.rebuilt() ==> binder_rules_applied(s0, *self, rules@),
                s0.rebuilt() ==> s0.same_but_timing(sa),
            decreases limit - stats.rounds,
        {
            let ghost pre = *self;
            let before_nodes = self.node_count();
            let start = clock_start();
            let all = self.collect_matches(rules);
            stats.match_time = stats.match_time.saturating_add(nanos_since(&start));
            let start = clock_start();
            let rebuild_before = self.rebuild_nanos;
            let mut needs_index = false;
            let mut r: usize = 0;
            while r < rules.len()
                invariant
                    r <= rules@.len(),
                decreases rules@.len() - r,
            {
                if rules[r].rhs_needs_traversal {
                    needs_index = true;
                }
                r = r + 1;
            }
            let ghost s1 = *self;
            self.rev_tracked = needs_index;
            proof {
                lemma_egraph_specs(s1);
                crate::keeping::lemma_rev_members_same(s1, *self);
                lemma_egraph_specs(*self);
                assert(s1.extends(*self));
                lemma_extends_trans(s0, s1, *self);
                lemma_matches_extend(s1, *self, all@);
            }
            let ghost s2 = *self;
            let (unions, full) = self.apply_matches(rules, &all);
            proof {
                lemma_extends_trans(s0, s2, *self);
                lemma_keeps_table(s1, s2);
                lemma_holds_within_table(s1, s2);
                lemma_extends_trans(s1, s2, *self);
                lemma_holds_within_trans(s1, s2, *self);
                lemma_egraph_specs(s1);
                lemma_egraph_specs(s2);
                if s0.rebuilt() {
                    if applied {
                        lemma_atom_rules_persist(s0, pre, *self, rules@);
                        lemma_binder_rules_persist(s0, pre, *self, rules@);
                    } else {
                        lemma_first_round(s0, sa, *self, rules@, all@);
                        lemma_first_round_binders(s0, sa, *self, rules@, all@);
                    }
                }
                applied = true;
            }
            stats.unions = stats.unions.saturating_add(unions);
            let elapsed = nanos_since(&start);
            let nested = self.rebuild_nanos.saturating_sub(rebuild_before);
            stats.rebuild_time = stats.rebuild_time.saturating_add(nested);
            stats.apply_time = stats.apply_time.saturating_add(elapsed.saturating_sub(nested));
            if full {
                return stats;
            }
            let rebuild_before = self.rebuild_nanos;
            let ghost s3 = *self;
            let rebuilt = self.rebuild();
            proof {
                lemma_extends_trans(s0, s3, *self);
                lemma_egraph_specs(s3);
                lemma_egraph_specs(*self);
                if s0.rebuilt() {
                    lemma_atom_rules_persist(s0, s3, *self, rules@);
                    lemma_binder_rules_persist(s0, s3, *self, rules@);
                }
            }
            stats.rebuild_time = stats.rebuild_time.saturating_add(self.rebuild_nanos.saturating_sub(rebuild_before));
            let changed = unions > 0 || rebuilt || before_nodes != self.node_count();
            if !changed {
                return stats;
            }
            stats.rounds = stats.rounds + 1;
        }
        stats
    }

    /// Run equality saturation until a round changes nothing.
    pub fn saturate(&mut self, rules: &[Rewrite]) -> (stats: RunStats)
        requires
            old(self).wf(),
        ensures
            final(self).wf(),
            old(self).extends(*final(self)),
            stats.rounds < usize::MAX ==> !final(self).room(2) || final(self).rebuilt()
                || final(self).len() + 2 * final(self).node_len() > RAW_MASK,
            old(self).rebuilt() ==> atom_rules_applied(*old(self), *final(self), rules@),
            old(self).rebuilt() ==> binder_rules_applied(*old(self), *final(self), rules@),
    {
        self.run(rules, usize::MAX)
    }
}

} // verus!
