//! Patterns and rewrites: their shape, their static checks, and the Miller
//! discipline on metavariable arguments.
use vstd::prelude::*;
use crate::debruijn::{DeBruijnIndex, DeBruijnLevel};
use crate::text::{push_str, push_char, push_decimal, decimal};

verus! {

/// A pattern over e-graph terms.
#[derive(Debug)]
pub enum Pattern {
    /// A metavariable application. Match patterns restrict its arguments to
    /// distinct `BVar`s (Miller form); rewrite templates may use arbitrary
    /// terms, which are simultaneously substituted into the captured body.
    MetaVar(String, Vec<Pattern>),
    /// A free variable from the context outside the pattern, stored as a
    /// de Bruijn level in that ambient context.
    FVar(DeBruijnLevel),
    /// A bound variable introduced inside the pattern, stored as a de Bruijn
    /// index counting outward from the nearest pattern binder.
    BVar(DeBruijnIndex),
    Atom(String),
    /// Binary, curried application.
    App(Box<Pattern>, Box<Pattern>),
    Binder(String, Box<Pattern>),
    /// Built-in capture-avoiding substitution. Its body is parsed beneath
    /// one additional binder and the result lives outside that binder.
    Subst(Box<Pattern>, Box<Pattern>),
}

/// Every argument is a bound variable.
pub open spec fn all_bvars(args: Seq<Pattern>) -> bool {
    forall|i: int| 0 <= i < args.len() ==> #[trigger] args[i] is BVar
}

/// The indices of a list of bound-variable arguments.
pub open spec fn bvar_indices(args: Seq<Pattern>) -> Seq<usize> {
    Seq::new(args.len(), |i: int| args[i]->BVar_0@)
}

/// Some index points outside `depth` binders.
pub open spec fn some_outside(idx: Seq<usize>, depth: nat) -> bool {
    exists|i: int| 0 <= i < idx.len() && idx[i] >= depth
}

/// Some index occurs twice.
pub open spec fn has_repeat(idx: Seq<usize>) -> bool {
    exists|i: int, j: int| 0 <= i < j < idx.len() && idx[i] == idx[j]
}

/// The indices decrease strictly: the arguments name binders outer to inner.
pub open spec fn strictly_decreasing(idx: Seq<usize>) -> bool {
    forall|i: int, j: int| 0 <= i < j < idx.len() ==> idx[i] > idx[j]
}

/// A Miller occurrence `{?m #i ...}` at `depth` pattern binders keeps the
/// top context and selects its arguments in outer-to-inner order.
pub open spec fn miller_ordered(idx: Seq<usize>, depth: nat) -> bool {
    &&& !some_outside(idx, depth)
    &&& strictly_decreasing(idx)
}

/// The members of `idx` below `k`, largest first.
pub open spec fn members_descending(idx: Seq<usize>, k: nat) -> Seq<usize>
    decreases k,
{
    if k == 0 {
        Seq::empty()
    } else {
        let rest = members_descending(idx, (k - 1) as nat);
        if idx.contains((k - 1) as usize) {
            seq![(k - 1) as usize] + rest
        } else {
            rest
        }
    }
}

/// `#a #b ...`, the indices written as bound-variable references.
pub open spec fn hash_list(idx: Seq<usize>) -> Seq<char>
    decreases idx.len(),
{
    if idx.len() == 0 {
        Seq::empty()
    } else if idx.len() == 1 {
        seq!['#'] + decimal(idx[0] as nat)
    } else {
        hash_list(idx.drop_last()) + seq![' ', '#'] + decimal(idx.last() as nat)
    }
}

/// Name-to-arity table, in order of first occurrence.
pub open spec fn arity_view(v: Seq<(String, usize)>) -> Seq<(Seq<char>, nat)> {
    Seq::new(v.len(), |i: int| (v[i].0@, v[i].1 as nat))
}

/// The arity recorded for `name`.
pub open spec fn lookup_arity(ar: Seq<(Seq<char>, nat)>, name: Seq<char>) -> Option<nat>
    decreases ar.len(),
{
    if ar.len() == 0 {
        None
    } else if ar[0].0 == name {
        Some(ar[0].1)
    } else {
        lookup_arity(ar.drop_first(), name)
    }
}

pub open spec fn msg_not_bound(name: Seq<char>) -> Seq<char> {
    "match metavariable '"@ + name + "' may only be applied to bound variables"@
}

pub open spec fn msg_outside(name: Seq<char>) -> Seq<char> {
    "Miller metavariable '"@ + name + "' refers outside the pattern binders"@
}

pub open spec fn msg_repeat(name: Seq<char>) -> Seq<char> {
    "Miller metavariable '"@ + name + "' repeats a pattern binder"@
}

pub open spec fn msg_order(name: Seq<char>, correct: Seq<char>) -> Seq<char> {
    "Miller metavariable '"@ + name + "' arguments are out of order; write {"@ + name + " "@ + correct
        + "} on the match left-hand side, then permute its arguments on the rewrite right-hand side if needed"@
}

pub open spec fn msg_arity(name: Seq<char>) -> Seq<char> {
    "Miller metavariable '"@ + name + "' has inconsistent arity in match pattern"@
}

pub open spec fn msg_subst_lhs() -> Seq<char> {
    "#subst is only allowed on a rewrite right-hand side"@
}

pub open spec fn msg_bvar_outside() -> Seq<char> {
    "bound variable refers outside the pattern binders"@
}

pub open spec fn msg_unbound(name: Seq<char>) -> Seq<char> {
    "rewrite right-hand side uses unbound metavariable '"@ + name + "'"@
}

pub open spec fn msg_arity_mismatch(name: Seq<char>, left: nat, right: nat) -> Seq<char> {
    "Miller metavariable '"@ + name + "' has arity "@ + decimal(left) + " on the left and "@ + decimal(right)
        + " on the right"@
}

/// The check of one Miller occurrence `{?name args}` at `depth` binders.
pub open spec fn check_occurrence(name: Seq<char>, args: Seq<Pattern>, depth: nat) -> Result<(), Seq<char>> {
    if !all_bvars(args) {
        Err(msg_not_bound(name))
    } else {
        let idx = bvar_indices(args);
        if some_outside(idx, depth) {
            Err(msg_outside(name))
        } else if has_repeat(idx) {
            Err(msg_repeat(name))
        } else if !strictly_decreasing(idx) {
            Err(msg_order(name, hash_list(members_descending(idx, depth))))
        } else {
            Ok(())
        }
    }
}

/// The static check of a match pattern at `depth` binders, threading the
/// table of metavariable arities: the first problem in left-to-right order,
/// or the extended table.
pub open spec fn match_check(p: Pattern, depth: nat, ar: Seq<(Seq<char>, nat)>) -> Result<Seq<(Seq<char>, nat)>, Seq<char>>
    decreases p,
{
    match p {
        Pattern::MetaVar(name, args) => match check_occurrence(name@, args@, depth) {
            Err(e) => Err(e),
            Ok(_) => match lookup_arity(ar, name@) {
                Some(a) => if a != args@.len() {
                    Err(msg_arity(name@))
                } else {
                    Ok(ar)
                },
                None => Ok(ar.push((name@, args@.len()))),
            },
        },
        Pattern::App(f, a) => match match_check(*f, depth, ar) {
            Err(e) => Err(e),
            Ok(ar2) => match_check(*a, depth, ar2),
        },
        Pattern::Binder(_, b) => match_check(*b, depth + 1, ar),
        Pattern::Subst(_, _) => Err(msg_subst_lhs()),
        Pattern::BVar(i) => if i@ >= depth {
            Err(msg_bvar_outside())
        } else {
            Ok(ar)
        },
        _ => Ok(ar),
    }
}

/// The static check of a rewrite template against the left-hand side's
/// arities.
pub open spec fn template_check(p: Pattern, depth: nat, ar: Seq<(Seq<char>, nat)>) -> Result<(), Seq<char>>
    decreases p,
{
    match p {
        Pattern::MetaVar(name, args) => match lookup_arity(ar, name@) {
            None => Err(msg_unbound(name@)),
            Some(a) => if args@.len() != a {
                Err(msg_arity_mismatch(name@, a, args@.len()))
            } else {
                templates_check(args@, depth, ar)
            },
        },
        Pattern::App(f, a) => match template_check(*f, depth, ar) {
            Err(e) => Err(e),
            Ok(_) => template_check(*a, depth, ar),
        },
        Pattern::Binder(_, b) => template_check(*b, depth + 1, ar),
        Pattern::Subst(b, r) => match template_check(*b, depth + 1, ar) {
            Err(e) => Err(e),
            Ok(_) => template_check(*r, depth, ar),
        },
        Pattern::BVar(i) => if i@ >= depth {
            Err(msg_bvar_outside())
        } else {
            Ok(())
        },
        _ => Ok(()),
    }
}

/// `template_check` of each pattern in turn, stopping at the first error.
pub open spec fn templates_check(ps: Seq<Pattern>, depth: nat, ar: Seq<(Seq<char>, nat)>) -> Result<(), Seq<char>>
    decreases ps,
{
    if ps.len() == 0 {
        Ok(())
    } else {
        match template_check(ps[0], depth, ar) {
            Err(e) => Err(e),
            Ok(_) => templates_check(ps.drop_first(), depth, ar),
        }
    }
}

/// Whether instantiating a template may need to traverse an e-class: some
/// metavariable occurrence is not an ordered Miller occurrence.
pub open spec fn traversal_needed(p: Pattern, depth: nat) -> bool
    decreases p,
{
    match p {
        Pattern::MetaVar(_, args) => !all_bvars(args@) || !miller_ordered(bvar_indices(args@), depth),
        Pattern::App(f, a) => traversal_needed(*f, depth) || traversal_needed(*a, depth),
        Pattern::Binder(_, b) => traversal_needed(*b, depth + 1),
        Pattern::Subst(b, r) => traversal_needed(*b, depth + 1) || traversal_needed(*r, depth),
        _ => false,
    }
}

/// Append `#a #b ...` for the indices in `idx`.
fn push_hash_list(s: &mut String, idx: &Vec<usize>)
    ensures
        final(s)@ == old(s)@ + hash_list(idx@),
{
    let mut i: usize = 0;
    while i < idx.len()
        invariant
            i <= idx@.len(),
            s@ == old(s)@ + hash_list(idx@.take(i as int)),
        decreases idx@.len() - i,
    {
        let ghost before = s@;
        if i > 0 {
            push_char(s, ' ');
        }
        push_char(s, '#');
        push_decimal(s, idx[i]);
        proof {
            let t = idx@.take(i + 1);
            assert(t.drop_last() =~= idx@.take(i as int));
            if i == 0 {
                assert(idx@.take(0) =~= Seq::<usize>::empty());
            }
            assert(s@ =~= old(s)@ + hash_list(t));
        }
        i = i + 1;
    }
    proof {
        assert(idx@.take(idx@.len() as int) =~= idx@);
    }
}


/// `head` applied, one curried step at a time, to each argument.
pub open spec fn apps_spec(head: Pattern, args: Seq<Pattern>) -> Pattern
    decreases args.len(),
{
    if args.len() == 0 {
        head
    } else {
        Pattern::App(Box::new(apps_spec(head, args.drop_last())), Box::new(args.last()))
    }
}

/// A pattern as a mathematical value.
pub enum PatternV {
    MetaVar(Seq<char>, Seq<PatternV>),
    FVar(nat),
    BVar(nat),
    Atom(Seq<char>),
    App(Box<PatternV>, Box<PatternV>),
    Binder(Seq<char>, Box<PatternV>),
    Subst(Box<PatternV>, Box<PatternV>),
}

pub open spec fn pattern_view(p: Pattern) -> PatternV
    decreases p,
{
    match p {
        Pattern::MetaVar(n, args) => PatternV::MetaVar(
            n@,
            Seq::new(args@.len(), |i: int| if 0 <= i < args@.len() { pattern_view(args@[i]) } else { PatternV::FVar(0) }),
        ),
        Pattern::FVar(l) => PatternV::FVar(l@ as nat),
        Pattern::BVar(i) => PatternV::BVar(i@ as nat),
        Pattern::Atom(n) => PatternV::Atom(n@),
        Pattern::App(f, a) => PatternV::App(Box::new(pattern_view(*f)), Box::new(pattern_view(*a))),
        Pattern::Binder(op, b) => PatternV::Binder(op@, Box::new(pattern_view(*b))),
        Pattern::Subst(b, r) => PatternV::Subst(Box::new(pattern_view(*b)), Box::new(pattern_view(*r))),
    }
}

impl View for Pattern {
    type V = PatternV;

    open spec fn view(&self) -> PatternV {
        pattern_view(*self)
    }
}

/// The views of a list of patterns.
pub open spec fn patterns_view(ps: Seq<Pattern>) -> Seq<PatternV> {
    Seq::new(ps.len(), |i: int| ps[i]@)
}

/// `head` applied to `args` one at a time.
pub open spec fn apps_v(head: PatternV, args: Seq<PatternV>) -> PatternV
    decreases args.len(),
{
    if args.len() == 0 {
        head
    } else {
        PatternV::App(Box::new(apps_v(head, args.drop_last())), Box::new(args.last()))
    }
}

/// `n`, capped at `usize::MAX`.
pub open spec fn capped(n: nat) -> nat {
    if n < usize::MAX {
        n
    } else {
        usize::MAX as nat
    }
}

/// Height of a pattern: the longest chain of nested sub-patterns.
pub open spec fn heights(ps: Seq<Pattern>) -> nat
    decreases ps,
{
    if ps.len() == 0 {
        0
    } else {
        let h = pattern_height(ps[0]);
        let t = heights(ps.drop_first());
        if h >= t { h } else { t }
    }
}

pub open spec fn pattern_height(p: Pattern) -> nat
    decreases p,
{
    match p {
        Pattern::MetaVar(_, args) => 1 + heights(args@),
        Pattern::App(f, a) => {
            let x = pattern_height(*f);
            let y = pattern_height(*a);
            1 + if x >= y { x } else { y }
        },
        Pattern::Binder(_, b) => 1 + pattern_height(*b),
        Pattern::Subst(b, r) => {
            let x = pattern_height(*b);
            let y = pattern_height(*r);
            1 + if x >= y { x } else { y }
        },
        _ => 1,
    }
}

/// Each pattern of a list is no taller than the list.
pub proof fn lemma_heights(ps: Seq<Pattern>, i: int)
    requires
        0 <= i < ps.len(),
    ensures
        pattern_height(ps[i]) <= heights(ps),
    decreases ps.len(),
{
    if i > 0 {
        lemma_heights(ps.drop_first(), i - 1);
    }
}

/// Height of a pattern value: the longest chain of nested sub-patterns.
pub open spec fn view_height(v: PatternV) -> nat
    decreases v,
{
    match v {
        PatternV::MetaVar(_, args) => 1 + view_heights(args),
        PatternV::App(f, a) => {
            let x = view_height(*f);
            let y = view_height(*a);
            1 + if x >= y { x } else { y }
        },
        PatternV::Binder(_, b) => 1 + view_height(*b),
        PatternV::Subst(b, r) => {
            let x = view_height(*b);
            let y = view_height(*r);
            1 + if x >= y { x } else { y }
        },
        _ => 1,
    }
}

/// The tallest of a list of pattern values.
pub open spec fn view_heights(vs: Seq<PatternV>) -> nat
    decreases vs,
{
    if vs.len() == 0 {
        0
    } else {
        let h = view_height(vs[0]);
        let t = view_heights(vs.drop_first());
        if h >= t { h } else { t }
    }
}

/// A pattern's height is that of its value.
pub proof fn lemma_view_height(p: Pattern)
    ensures
        pattern_height(p) == view_height(p@),
    decreases p,
{
    match p {
        Pattern::MetaVar(n, args) => {
            assert(decreases_to!(p => args));
            lemma_view_heights(args@);
            assert(p@->MetaVar_1 =~= patterns_view(args@));
        },
        Pattern::App(f, a) => {
            lemma_view_height(*f);
            lemma_view_height(*a);
        },
        Pattern::Binder(_, b) => {
            lemma_view_height(*b);
        },
        Pattern::Subst(b, r) => {
            lemma_view_height(*b);
            lemma_view_height(*r);
        },
        _ => {},
    }
}

proof fn lemma_view_heights(ps: Seq<Pattern>)
    ensures
        heights(ps) == view_heights(patterns_view(ps)),
    decreases ps,
{
    if ps.len() > 0 {
        lemma_view_height(ps[0]);
        assert(patterns_view(ps).drop_first() =~= patterns_view(ps.drop_first()));
        lemma_view_heights(ps.drop_first());
    }
}

/// Two patterns agree on every static check.
pub open spec fn same_checks(p: Pattern, q: Pattern) -> bool {
    &&& forall|d: nat, ar: Seq<(Seq<char>, nat)>| #[trigger] match_check(p, d, ar) == match_check(q, d, ar)
    &&& forall|d: nat, ar: Seq<(Seq<char>, nat)>| #[trigger] template_check(p, d, ar) == template_check(q, d, ar)
    &&& forall|d: nat| #[trigger] traversal_needed(p, d) == traversal_needed(q, d)
    &&& pattern_height(p) == pattern_height(q)
}

/// Lists whose patterns pairwise agree on every check agree as lists.
proof fn lemma_same_checks_list(ps: Seq<Pattern>, qs: Seq<Pattern>)
    requires
        ps.len() == qs.len(),
        forall|i: int| 0 <= i < ps.len() ==> same_checks(#[trigger] ps[i], qs[i]) && ps[i]@ == qs[i]@,
    ensures
        forall|d: nat, ar: Seq<(Seq<char>, nat)>| #[trigger] templates_check(ps, d, ar) == templates_check(qs, d, ar),
        heights(ps) == heights(qs),
        all_bvars(ps) == all_bvars(qs),
        all_bvars(ps) ==> bvar_indices(ps) == bvar_indices(qs),
    decreases ps.len(),
{
    if ps.len() > 0 {
        lemma_same_checks_list(ps.drop_first(), qs.drop_first());
        assert(same_checks(ps[0], qs[0]));
        assert forall|d: nat, ar: Seq<(Seq<char>, nat)>| #[trigger] templates_check(ps, d, ar) == templates_check(qs, d, ar) by {
            assert(template_check(ps[0], d, ar) == template_check(qs[0], d, ar));
            assert(templates_check(ps.drop_first(), d, ar) == templates_check(qs.drop_first(), d, ar));
        }
    }
    assert forall|i: int| 0 <= i < ps.len() implies (#[trigger] ps[i] is BVar) == qs[i] is BVar by {
        assert(ps[i]@ == qs[i]@);
    }
    if all_bvars(ps) {
        assert forall|i: int| 0 <= i < qs.len() implies #[trigger] qs[i] is BVar by {
            assert(ps[i] is BVar);
            assert(ps[i]@ == qs[i]@);
        }
    }
    if all_bvars(qs) {
        assert forall|i: int| 0 <= i < ps.len() implies #[trigger] ps[i] is BVar by {
            assert(qs[i] is BVar);
            assert(ps[i]@ == qs[i]@);
        }
    }
    if all_bvars(ps) {
        assert forall|i: int| 0 <= i < ps.len() implies #[trigger] bvar_indices(ps)[i] == bvar_indices(qs)[i] by {
            assert(ps[i]@ == qs[i]@);
            assert(ps[i] is BVar);
        }
        assert(bvar_indices(ps) =~= bvar_indices(qs));
    }
}

/// Patterns with the same view pass and fail the same static checks and
/// have the same height.
pub proof fn lemma_same_view_checks(p: Pattern, q: Pattern)
    requires
        p@ == q@,
    ensures
        same_checks(p, q),
    decreases p,
{
    match p {
        Pattern::MetaVar(n, args) => {
            assert(p@ is MetaVar);
            assert(q is MetaVar);
            let brgs = q->MetaVar_1;
            assert(p@->MetaVar_1.len() == args@.len());
            assert(q@->MetaVar_1.len() == brgs@.len());
            assert forall|i: int| 0 <= i < args@.len() implies same_checks(#[trigger] args@[i], brgs@[i]) && args@[i]@ == brgs@[i]@ by {
                assert(p@->MetaVar_1[i] == q@->MetaVar_1[i]);
                assert(p@->MetaVar_1[i] == args@[i]@);
                assert(q@->MetaVar_1[i] == brgs@[i]@);
                assert(decreases_to!(p => args));
                assert(decreases_to!(args => args@));
                assert(decreases_to!(args@ => args@[i]));
                lemma_same_view_checks(args@[i], brgs@[i]);
            }
            lemma_same_checks_list(args@, brgs@);
            let m = q->MetaVar_0;
            assert(n@ == m@);
            assert forall|d: nat, ar: Seq<(Seq<char>, nat)>| #[trigger] match_check(p, d, ar) == match_check(q, d, ar) by {
                assert(check_occurrence(n@, args@, d) == check_occurrence(m@, brgs@, d));
            }
            assert forall|d: nat, ar: Seq<(Seq<char>, nat)>| #[trigger] template_check(p, d, ar) == template_check(q, d, ar) by {
                assert(templates_check(args@, d, ar) == templates_check(brgs@, d, ar));
            }
            assert forall|d: nat| #[trigger] traversal_needed(p, d) == traversal_needed(q, d) by {
            }
        },
        Pattern::App(f, a) => {
            lemma_same_view_checks(*f, *q->App_0);
            lemma_same_view_checks(*a, *q->App_1);
            assert forall|d: nat, ar: Seq<(Seq<char>, nat)>| #[trigger] match_check(p, d, ar) == match_check(q, d, ar) by {
                assert(match_check(*f, d, ar) == match_check(*q->App_0, d, ar));
                match match_check(*f, d, ar) {
                    Ok(ar2) => {
                        assert(match_check(*a, d, ar2) == match_check(*q->App_1, d, ar2));
                    },
                    Err(_) => {},
                }
            }
            assert forall|d: nat, ar: Seq<(Seq<char>, nat)>| #[trigger] template_check(p, d, ar) == template_check(q, d, ar) by {
                assert(template_check(*f, d, ar) == template_check(*q->App_0, d, ar));
                assert(template_check(*a, d, ar) == template_check(*q->App_1, d, ar));
            }
            assert forall|d: nat| #[trigger] traversal_needed(p, d) == traversal_needed(q, d) by {
                assert(traversal_needed(*f, d) == traversal_needed(*q->App_0, d));
                assert(traversal_needed(*a, d) == traversal_needed(*q->App_1, d));
            }
        },
        Pattern::Binder(_, b) => {
            lemma_same_view_checks(*b, *q->Binder_1);
            assert forall|d: nat, ar: Seq<(Seq<char>, nat)>| #[trigger] match_check(p, d, ar) == match_check(q, d, ar) by {
                assert(match_check(*b, d + 1, ar) == match_check(*q->Binder_1, d + 1, ar));
            }
            assert forall|d: nat, ar: Seq<(Seq<char>, nat)>| #[trigger] template_check(p, d, ar) == template_check(q, d, ar) by {
                assert(template_check(*b, d + 1, ar) == template_check(*q->Binder_1, d + 1, ar));
            }
            assert forall|d: nat| #[trigger] traversal_needed(p, d) == traversal_needed(q, d) by {
                assert(traversal_needed(*b, d + 1) == traversal_needed(*q->Binder_1, d + 1));
            }
        },
        Pattern::Subst(b, r) => {
            lemma_same_view_checks(*b, *q->Subst_0);
            lemma_same_view_checks(*r, *q->Subst_1);
            assert forall|d: nat, ar: Seq<(Seq<char>, nat)>| #[trigger] template_check(p, d, ar) == template_check(q, d, ar) by {
                assert(template_check(*b, d + 1, ar) == template_check(*q->Subst_0, d + 1, ar));
                assert(template_check(*r, d, ar) == template_check(*q->Subst_1, d, ar));
            }
            assert forall|d: nat| #[trigger] traversal_needed(p, d) == traversal_needed(q, d) by {
                assert(traversal_needed(*b, d + 1) == traversal_needed(*q->Subst_0, d + 1));
                assert(traversal_needed(*r, d) == traversal_needed(*q->Subst_1, d));
            }
        },
        _ => {},
    }
}

/// The indices of the arguments when all of them are bound variables.
pub(crate) fn miller_indices(arguments: &[Pattern]) -> (r: Option<Vec<usize>>)
    ensures
        r is Some <==> all_bvars(arguments@),
        r matches Some(v) ==> v@ == bvar_indices(arguments@),
{
    let mut out: Vec<usize> = Vec::new();
    let mut i: usize = 0;
    while i < arguments.len()
        invariant
            i <= arguments@.len(),
            forall|k: int| 0 <= k < i ==> #[trigger] arguments@[k] is BVar,
            out@ == bvar_indices(arguments@.take(i as int)),
        decreases arguments@.len() - i,
    {
        match &arguments[i] {
            Pattern::BVar(index) => {
                out.push(index.get());
                proof {
                    assert(out@ =~= bvar_indices(arguments@.take(i + 1)));
                }
            },
            _ => {
                return None;
            },
        }
        i = i + 1;
    }
    proof {
        assert(arguments@.take(arguments@.len() as int) =~= arguments@);
    }
    Some(out)
}

/// Whether `v` occurs in `idx`.
fn contains_index(idx: &Vec<usize>, v: usize) -> (r: bool)
    ensures
        r == idx@.contains(v),
{
    let mut i: usize = 0;
    while i < idx.len()
        invariant
            i <= idx@.len(),
            forall|k: int| 0 <= k < i ==> idx@[k] != v,
        decreases idx@.len() - i,
    {
        if idx[i] == v {
            return true;
        }
        i = i + 1;
    }
    false
}

/// The members of `idx` below `k`, largest first.
fn descending_members(idx: &Vec<usize>, k: usize) -> (r: Vec<usize>)
    ensures
        r@ == members_descending(idx@, k as nat),
{
    let mut out: Vec<usize> = Vec::new();
    let mut v = k;
    while v > 0
        invariant
            v <= k,
            out@ + members_descending(idx@, v as nat) == members_descending(idx@, k as nat),
        decreases v,
    {
        let c = contains_index(idx, v - 1);
        if c {
            out.push(v - 1);
        }
        proof {
            let rest = members_descending(idx@, (v - 1) as nat);
            if c {
                assert(out@ + rest =~= out@.drop_last() + (seq![(v - 1) as usize] + rest));
            }
        }
        v = v - 1;
    }
    proof {
        assert(out@ + Seq::<usize>::empty() =~= out@);
    }
    out
}

/// Whether some index points outside `depth` binders.
fn any_outside(idx: &Vec<usize>, depth: usize) -> (r: bool)
    ensures
        r == some_outside(idx@, depth as nat),
{
    let mut i: usize = 0;
    while i < idx.len()
        invariant
            i <= idx@.len(),
            forall|k: int| 0 <= k < i ==> idx@[k] < depth,
        decreases idx@.len() - i,
    {
        if idx[i] >= depth {
            return true;
        }
        i = i + 1;
    }
    false
}

/// Whether some index occurs twice.
fn any_repeat(idx: &Vec<usize>) -> (r: bool)
    ensures
        r == has_repeat(idx@),
{
    let mut j: usize = 0;
    while j < idx.len()
        invariant
            j <= idx@.len(),
            forall|a: int, b: int| 0 <= a < b < j ==> idx@[a] != idx@[b],
        decreases idx@.len() - j,
    {
        let mut i: usize = 0;
        while i < j
            invariant
                i <= j < idx@.len(),
                forall|a: int| 0 <= a < i ==> idx@[a] != idx@[j as int],
            decreases j - i,
        {
            if idx[i] == idx[j] {
                return true;
            }
            i = i + 1;
        }
        j = j + 1;
    }
    false
}

/// Whether the indices decrease strictly.
fn decreasing(idx: &Vec<usize>) -> (r: bool)
    ensures
        r == strictly_decreasing(idx@),
{
    let mut i: usize = 1;
    if idx.len() == 0 {
        return true;
    }
    while i < idx.len()
        invariant
            1 <= i <= idx@.len(),
            forall|a: int, b: int| 0 <= a < b < i ==> idx@[a] > idx@[b],
        decreases idx@.len() - i,
    {
        if idx[i - 1] <= idx[i] {
            return false;
        }
        proof {
            assert forall|a: int, b: int| 0 <= a < b < i + 1 implies idx@[a] > idx@[b] by {
                if b == i && a < i - 1 {
                    assert(idx@[a] > idx@[i - 1]);
                }
            }
        }
        i = i + 1;
    }
    true
}

/// `prefix NAME suffix` as a new string.
pub(crate) fn message(prefix: &str, name: &str, suffix: &str) -> (r: String)
    ensures
        r@ == prefix@ + name@ + suffix@,
{
    let mut s = String::new();
    push_str(&mut s, prefix);
    push_str(&mut s, name);
    push_str(&mut s, suffix);
    s
}

/// Check one Miller occurrence `{?name args}` at `depth` binders; on
/// success return its argument indices.
fn check_occurrence_exec(name: &String, args: &Vec<Pattern>, depth: usize) -> (r: Result<Vec<usize>, String>)
    ensures
        r matches Ok(v) ==> check_occurrence(name@, args@, depth as nat) is Ok && v@ == bvar_indices(args@),
        r matches Err(e) ==> check_occurrence(name@, args@, depth as nat) == Err::<(), Seq<char>>(e@),
{
    let idx = match miller_indices(args.as_slice()) {
        None => {
            return Err(message("match metavariable '", name.as_str(), "' may only be applied to bound variables"));
        },
        Some(v) => v,
    };
    if any_outside(&idx, depth) {
        return Err(message("Miller metavariable '", name.as_str(), "' refers outside the pattern binders"));
    }
    if any_repeat(&idx) {
        return Err(message("Miller metavariable '", name.as_str(), "' repeats a pattern binder"));
    }
    if !decreasing(&idx) {
        let correct = descending_members(&idx, depth);
        let mut s = String::new();
        push_str(&mut s, "Miller metavariable '");
        push_str(&mut s, name.as_str());
        push_str(&mut s, "' arguments are out of order; write {");
        push_str(&mut s, name.as_str());
        push_str(&mut s, " ");
        push_hash_list(&mut s, &correct);
        push_str(&mut s, "} on the match left-hand side, then permute its arguments on the rewrite right-hand side if needed");
        return Err(s);
    }
    Ok(idx)
}

/// The arity recorded for `name` in the table.
fn find_arity(ar: &Vec<(String, usize)>, name: &String) -> (r: Option<usize>)
    ensures
        r matches Some(a) ==> lookup_arity(arity_view(ar@), name@) == Some(a as nat),
        r is None ==> lookup_arity(arity_view(ar@), name@) is None,
{
    let mut i: usize = 0;
    proof {
        assert(arity_view(ar@).skip(0) =~= arity_view(ar@));
    }
    while i < ar.len()
        invariant
            i <= ar@.len(),
            lookup_arity(arity_view(ar@), name@) == lookup_arity(arity_view(ar@).skip(i as int), name@),
        decreases ar@.len() - i,
    {
        let ghost rest = arity_view(ar@).skip(i as int);
        proof {
            assert(rest.drop_first() =~= arity_view(ar@).skip(i + 1));
            assert(rest[0] == arity_view(ar@)[i as int]);
        }
        if ar[i].0 == *name {
            return Some(ar[i].1);
        }
        i = i + 1;
    }
    proof {
        assert(arity_view(ar@).skip(i as int) =~= Seq::empty());
    }
    None
}

impl Pattern {
    /// Check a match pattern beneath `depth` binders, extending the table
    /// of metavariable arities.
    fn match_go(&self, depth: usize, ar: &mut Vec<(String, usize)>) -> (r: Result<(), String>)
        requires
            depth + pattern_height(*self) <= usize::MAX,
        ensures
            match match_check(*self, depth as nat, arity_view(old(ar)@)) {
                Ok(a2) => r is Ok && arity_view(final(ar)@) == a2,
                Err(e) => r matches Err(e2) && e2@ == e,
            },
        decreases self,
    {
        match self {
            Pattern::MetaVar(name, args) => {
                match check_occurrence_exec(name, args, depth) {
                    Err(e) => Err(e),
                    Ok(_) => match find_arity(ar, name) {
                        Some(a) => if a != args.len() {
                            Err(message("Miller metavariable '", name.as_str(), "' has inconsistent arity in match pattern"))
                        } else {
                            Ok(())
                        },
                        None => {
                            let n = name.clone();
                            ar.push((n, args.len()));
                            proof {
                                assert(arity_view(ar@) =~= arity_view(old(ar)@).push((name@, args@.len())));
                            }
                            Ok(())
                        },
                    },
                }
            },
            Pattern::App(f, a) => {
                let r = f.match_go(depth, ar);
                match r {
                    Err(e) => Err(e),
                    Ok(_) => a.match_go(depth, ar),
                }
            },
            Pattern::Binder(_, b) => b.match_go(depth + 1, ar),
            Pattern::Subst(_, _) => {
                let mut s = String::new();
                push_str(&mut s, "#subst is only allowed on a rewrite right-hand side");
                Err(s)
            },
            Pattern::BVar(i) => if i.get() >= depth {
                let mut s = String::new();
                push_str(&mut s, "bound variable refers outside the pattern binders");
                Err(s)
            } else {
                Ok(())
            },
            _ => Ok(()),
        }
    }

    /// Validate a match pattern and return the arity of every metavariable,
    /// in order of first occurrence.
    pub fn match_metavariables(&self) -> (r: Result<Vec<(String, usize)>, String>)
        requires
            pattern_height(*self) <= usize::MAX,
        ensures
            match match_check(*self, 0, Seq::empty()) {
                Ok(a2) => r matches Ok(v) && arity_view(v@) == a2,
                Err(e) => r matches Err(e2) && e2@ == e,
            },
    {
        let mut ar: Vec<(String, usize)> = Vec::new();
        proof {
            assert(arity_view(ar@) =~= Seq::empty());
        }
        match self.match_go(0, &mut ar) {
            Err(e) => Err(e),
            Ok(_) => Ok(ar),
        }
    }

    /// Reject malformed or out-of-order Miller applications and constructs
    /// such as `#subst` that cannot be observed during matching.
    pub fn validate_match_pattern(&self) -> (r: Result<(), String>)
        requires
            pattern_height(*self) <= usize::MAX,
        ensures
            match match_check(*self, 0, Seq::empty()) {
                Ok(_) => r is Ok,
                Err(e) => r matches Err(e2) && e2@ == e,
            },
    {
        match self.match_metavariables() {
            Ok(_) => Ok(()),
            Err(e) => Err(e),
        }
    }
}


impl Pattern {
    /// Check a template beneath `depth` binders against the arity table.
    fn template_go(&self, depth: usize, ar: &Vec<(String, usize)>) -> (r: Result<(), String>)
        requires
            depth + pattern_height(*self) <= usize::MAX,
        ensures
            match template_check(*self, depth as nat, arity_view(ar@)) {
                Ok(_) => r is Ok,
                Err(e) => r matches Err(e2) && e2@ == e,
            },
        decreases self,
    {
        match self {
            Pattern::MetaVar(name, args) => {
                let arity = match find_arity(ar, name) {
                    None => {
                        return Err(message("rewrite right-hand side uses unbound metavariable '", name.as_str(), "'"));
                    },
                    Some(a) => a,
                };
                if args.len() != arity {
                    let mut s = String::new();
                    push_str(&mut s, "Miller metavariable '");
                    push_str(&mut s, name.as_str());
                    push_str(&mut s, "' has arity ");
                    push_decimal(&mut s, arity);
                    push_str(&mut s, " on the left and ");
                    push_decimal(&mut s, args.len());
                    push_str(&mut s, " on the right");
                    return Err(s);
                }
                let mut i: usize = 0;
                proof {
                    assert(args@.skip(0) =~= args@);
                }
                while i < args.len()
                    invariant
                        self is MetaVar,
                        self->MetaVar_1 == *args,
                        i <= args@.len(),
                        depth + pattern_height(*self) <= usize::MAX,
                        template_check(*self, depth as nat, arity_view(ar@))
                            == templates_check(args@, depth as nat, arity_view(ar@)),
                        templates_check(args@, depth as nat, arity_view(ar@))
                            == templates_check(args@.skip(i as int), depth as nat, arity_view(ar@)),
                    decreases args@.len() - i,
                {
                    proof {
                        assert(decreases_to!(*self => self->MetaVar_1));
                        assert(decreases_to!(*args => args@));
                        assert(decreases_to!(args@ => args@[i as int]));
                        lemma_heights(args@, i as int);
                        assert(args@.skip(i as int).drop_first() =~= args@.skip(i + 1));
                        assert(args@.skip(i as int)[0] == args@[i as int]);
                    }
                    match args[i].template_go(depth, ar) {
                        Err(e) => {
                            proof {
                                let t = args@.skip(i as int);
                                assert(templates_check(t, depth as nat, arity_view(ar@)) == Err::<(), Seq<char>>(e@));
                            }
                            return Err(e);
                        },
                        Ok(_) => {},
                    }
                    i = i + 1;
                }
                Ok(())
            },
            Pattern::App(f, a) => match f.template_go(depth, ar) {
                Err(e) => Err(e),
                Ok(_) => a.template_go(depth, ar),
            },
            Pattern::Binder(_, b) => b.template_go(depth + 1, ar),
            Pattern::Subst(b, r) => match b.template_go(depth + 1, ar) {
                Err(e) => Err(e),
                Ok(_) => r.template_go(depth, ar),
            },
            Pattern::BVar(i) => if i.get() >= depth {
                let mut s = String::new();
                push_str(&mut s, "bound variable refers outside the pattern binders");
                Err(s)
            } else {
                Ok(())
            },
            _ => Ok(()),
        }
    }

    /// Check a rewrite template: every metavariable is bound on the left,
    /// at the same arity, and every bound variable is in scope.
    pub fn validate_template(&self, metavariables: &Vec<(String, usize)>) -> (r: Result<(), String>)
        requires
            pattern_height(*self) <= usize::MAX,
        ensures
            match template_check(*self, 0, arity_view(metavariables@)) {
                Ok(_) => r is Ok,
                Err(e) => r matches Err(e2) && e2@ == e,
            },
    {
        self.template_go(0, metavariables)
    }

    /// Whether instantiating this template may need to traverse an e-class.
    /// Ordered bound-variable applications remain a packed lift; permutations
    /// and general term arguments require simultaneous substitution.
    pub fn needs_binding_traversal(&self, depth: usize) -> (r: bool)
        requires
            depth + pattern_height(*self) <= usize::MAX,
        ensures
            r == traversal_needed(*self, depth as nat),
        decreases self,
    {
        match self {
            Pattern::MetaVar(_, arguments) => match miller_indices(arguments.as_slice()) {
                None => true,
                Some(indices) => any_outside(&indices, depth) || !decreasing(&indices),
            },
            Pattern::App(function, argument) => {
                function.needs_binding_traversal(depth) || argument.needs_binding_traversal(depth)
            },
            Pattern::Binder(_, body) => body.needs_binding_traversal(depth + 1),
            Pattern::Subst(body, replacement) => {
                body.needs_binding_traversal(depth + 1) || replacement.needs_binding_traversal(depth)
            },
            _ => false,
        }
    }
}

/// A statically checked rewrite. Validation guarantees that the left-hand
/// side is observable and every right-hand metavariable has a compatible
/// binding. The traversal flag is cached for the application phase.
#[derive(Debug)]
pub struct Rewrite {
    pub(crate) lhs: Pattern,
    pub(crate) rhs: Pattern,
    pub(crate) rhs_needs_traversal: bool,
}

/// `lhs` is a valid match pattern and `rhs` a valid template for it.
pub open spec fn rewrite_ok(lhs: Pattern, rhs: Pattern) -> bool {
    &&& match_check(lhs, 0, Seq::empty()) is Ok
    &&& template_check(rhs, 0, match_check(lhs, 0, Seq::empty())->Ok_0) is Ok
}

impl Rewrite {
    #[verifier::type_invariant]
    pub(crate) open spec fn inv(self) -> bool {
        &&& rewrite_ok(self.lhs, self.rhs)
        &&& pattern_height(self.lhs) <= usize::MAX
        &&& pattern_height(self.rhs) <= usize::MAX
        &&& self.rhs_needs_traversal == traversal_needed(self.rhs, 0)
    }

    pub closed spec fn lhs_spec(self) -> Pattern {
        self.lhs
    }

    pub closed spec fn rhs_spec(self) -> Pattern {
        self.rhs
    }

    pub closed spec fn traversal_spec(self) -> bool {
        self.rhs_needs_traversal
    }

    /// A checked rewrite from `lhs` to `rhs`, or the first problem found in
    /// either side.
    pub fn new(lhs: Pattern, rhs: Pattern) -> (r: Result<Self, String>)
        requires
            pattern_height(lhs) <= usize::MAX,
            pattern_height(rhs) <= usize::MAX,
        ensures
            match match_check(lhs, 0, Seq::empty()) {
                Err(e) => r matches Err(e2) && e2@ == e,
                Ok(ar) => match template_check(rhs, 0, ar) {
                    Err(e) => r matches Err(e2) && e2@ == e,
                    Ok(_) => r matches Ok(w) && w.lhs_spec() == lhs && w.rhs_spec() == rhs
                        && w.traversal_spec() == traversal_needed(rhs, 0),
                },
            },
    {
        let metavariables = match lhs.match_metavariables() {
            Err(e) => {
                return Err(e);
            },
            Ok(m) => m,
        };
        match rhs.validate_template(&metavariables) {
            Err(e) => {
                return Err(e);
            },
            Ok(_) => {},
        }
        let rhs_needs_traversal = rhs.needs_binding_traversal(0);
        Ok(Rewrite { lhs, rhs, rhs_needs_traversal })
    }

    /// A copy of this rewrite.
    pub fn duplicate(&self) -> (r: Rewrite)
        ensures
            r.lhs_spec()@ == self.lhs_spec()@,
            r.rhs_spec()@ == self.rhs_spec()@,
            r.traversal_spec() == self.traversal_spec(),
    {
        proof {
            use_type_invariant(self);
        }
        let lhs = self.lhs.duplicate();
        let rhs = self.rhs.duplicate();
        proof {
            lemma_same_view_checks(self.lhs, lhs);
            lemma_same_view_checks(self.rhs, rhs);
            assert(match_check(lhs, 0, Seq::empty()) == match_check(self.lhs, 0, Seq::empty()));
            let ar = match_check(lhs, 0, Seq::empty())->Ok_0;
            assert(template_check(rhs, 0, ar) == template_check(self.rhs, 0, ar));
            assert(traversal_needed(rhs, 0) == traversal_needed(self.rhs, 0));
        }
        Rewrite { lhs, rhs, rhs_needs_traversal: self.rhs_needs_traversal }
    }

    pub fn lhs(&self) -> (r: &Pattern)
        ensures
            *r == self.lhs_spec(),
    {
        &self.lhs
    }

    pub fn rhs(&self) -> (r: &Pattern)
        ensures
            *r == self.rhs_spec(),
    {
        &self.rhs
    }
}


impl Pattern {
    /// A copy of this pattern.
    pub fn duplicate(&self) -> (r: Pattern)
        ensures
            r@ == self@,
        decreases self,
    {
        match self {
            Pattern::MetaVar(name, args) => {
                let mut copies: Vec<Pattern> = Vec::new();
                let mut i: usize = 0;
                while i < args.len()
                    invariant
                        self is MetaVar,
                        self->MetaVar_1 == *args,
                        i <= args@.len(),
                        copies@.len() == i,
                        forall|j: int| 0 <= j < i ==> (#[trigger] copies@[j])@ == args@[j]@,
                    decreases args@.len() - i,
                {
                    proof {
                        assert(decreases_to!(*self => self->MetaVar_1));
                        assert(decreases_to!(*args => args@));
                        assert(decreases_to!(args@ => args@[i as int]));
                    }
                    let c = args[i].duplicate();
                    copies.push(c);
                    i = i + 1;
                }
                let r = Pattern::MetaVar(name.clone(), copies);
                proof {
                    assert(r@->MetaVar_1 =~= self@->MetaVar_1);
                }
                r
            },
            Pattern::FVar(l) => Pattern::FVar(*l),
            Pattern::BVar(i) => Pattern::BVar(*i),
            Pattern::Atom(n) => Pattern::Atom(n.clone()),
            Pattern::App(f, a) => Pattern::App(Box::new(f.duplicate()), Box::new(a.duplicate())),
            Pattern::Binder(op, b) => Pattern::Binder(op.clone(), Box::new(b.duplicate())),
            Pattern::Subst(b, r) => Pattern::Subst(Box::new(b.duplicate()), Box::new(r.duplicate())),
        }
    }

    /// The height of this pattern, capped at `usize::MAX`.
    pub fn height(&self) -> (r: usize)
        ensures
            r == capped(pattern_height(*self)),
        decreases self,
    {
        match self {
            Pattern::MetaVar(_, args) => {
                let mut m: usize = 0;
                let mut i = args.len();
                proof {
                    assert(args@.skip(i as int) =~= Seq::<Pattern>::empty());
                }
                while i > 0
                    invariant
                        self is MetaVar,
                        self->MetaVar_1 == *args,
                        i <= args@.len(),
                        m == capped(heights(args@.skip(i as int))),
                    decreases i,
                {
                    proof {
                        assert(decreases_to!(*self => self->MetaVar_1));
                        assert(decreases_to!(*args => args@));
                        assert(decreases_to!(args@ => args@[i - 1]));
                    }
                    let h = args[i - 1].height();
                    proof {
                        assert(args@.skip(i - 1).drop_first() =~= args@.skip(i as int));
                        assert(args@.skip(i - 1)[0] == args@[i - 1]);
                    }
                    if h > m {
                        m = h;
                    }
                    i = i - 1;
                }
                proof {
                    assert(args@.skip(0) =~= args@);
                }
                if m == usize::MAX { m } else { m + 1 }
            },
            Pattern::App(f, a) => {
                let x = f.height();
                let y = a.height();
                let m = if x >= y { x } else { y };
                if m == usize::MAX { m } else { m + 1 }
            },
            Pattern::Binder(_, b) => {
                let x = b.height();
                if x == usize::MAX { x } else { x + 1 }
            },
            Pattern::Subst(b, r) => {
                let x = b.height();
                let y = r.height();
                let m = if x >= y { x } else { y };
                if m == usize::MAX { m } else { m + 1 }
            },
            _ => 1,
        }
    }

    /// `?name`, a metavariable with no arguments.
    pub fn meta(name: &str) -> (r: Self)
        ensures
            r matches Pattern::MetaVar(n, args) && n@ == name@ && args@.len() == 0,
    {
        Pattern::MetaVar(String::from_str(name), Vec::new())
    }

    /// `{?name #i ...}`, a metavariable applied to bound variables.
    pub fn miller(name: &str, arguments: Vec<usize>) -> (r: Self)
        ensures
            r matches Pattern::MetaVar(n, args) && n@ == name@ && all_bvars(args@)
                && bvar_indices(args@) == arguments@,
    {
        let mut args: Vec<Pattern> = Vec::new();
        let mut i: usize = 0;
        while i < arguments.len()
            invariant
                i <= arguments@.len(),
                args@.len() == i,
                all_bvars(args@),
                bvar_indices(args@) == arguments@.take(i as int),
            decreases arguments@.len() - i,
        {
            args.push(Pattern::BVar(DeBruijnIndex::new(arguments[i])));
            proof {
                assert(bvar_indices(args@) =~= arguments@.take(i + 1));
            }
            i = i + 1;
        }
        proof {
            assert(arguments@.take(arguments@.len() as int) =~= arguments@);
        }
        Pattern::MetaVar(String::from_str(name), args)
    }

    pub fn atom(name: &str) -> (r: Self)
        ensures
            r matches Pattern::Atom(n) && n@ == name@,
    {
        Pattern::Atom(String::from_str(name))
    }

    /// `(op a1 ... an)` as curried application of the atom `op`.
    pub fn apps(op: &str, arguments: Vec<Self>) -> (r: Self)
        requires
            arguments@.len() > 0,
        ensures
            exists|s: String| s@ == op@ && r == apps_spec(Pattern::Atom(s), arguments@),
    {
        let head = String::from_str(op);
        let ghost h = Pattern::Atom(head);
        let mut application = Pattern::Atom(head);
        let mut rest = arguments;
        let n = rest.len();
        let mut k: usize = 0;
        proof {
            assert(arguments@.take(0) =~= Seq::<Pattern>::empty());
            assert(arguments@.skip(0) =~= arguments@);
        }
        while rest.len() > 0
            invariant
                k <= arguments@.len(),
                application == apps_spec(h, arguments@.take(k as int)),
                rest@ == arguments@.skip(k as int),
                rest@.len() == arguments@.len() - k,
                n == arguments@.len(),
            decreases rest@.len(),
        {
            let first = rest.remove(0);
            proof {
                assert(arguments@.take(k + 1).drop_last() =~= arguments@.take(k as int));
                assert(rest@ =~= arguments@.skip(k + 1));
            }
            application = Pattern::app(application, first);
            k = k + 1;
        }
        proof {
            assert(arguments@.take(k as int) =~= arguments@);
        }
        application
    }

    /// One step of curried application.
    pub fn app(function: Self, argument: Self) -> (r: Self)
        ensures
            r == Pattern::App(Box::new(function), Box::new(argument)),
    {
        Pattern::App(Box::new(function), Box::new(argument))
    }

    /// `(@op x body)`, a binder over `body`.
    pub fn binder(op: &str, body: Self) -> (r: Self)
        ensures
            r matches Pattern::Binder(n, b) && n@ == op@ && *b == body,
    {
        Pattern::Binder(String::from_str(op), Box::new(body))
    }
}

} // verus!
