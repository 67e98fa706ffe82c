//! Adding a term written as a form to the e-graph.
use vstd::prelude::*;
use crate::id::Id;
use crate::lexer::{Delimiter, Location, located};
use crate::parser::{Syntax, SyntaxKind, SyntaxV, forms_view};
use crate::egraph::{EGraph, lemma_extends_trans};
use crate::term::names_view;
use crate::terms::message;
use crate::text::{push_str, push_decimal, decimal, chars_of, skip_chars, string_of, parse_usize, usize_text, has_prefix, same_text};
use crate::frontend::{
    locate_in, line_of, column_of, atom_spec, atom_of, resolve_spec, resolve_binder, binder_name_spec,
    binder_name, subst_binder_spec, subst_binder_name,
};
use crate::read_pattern::{placed, msg_outer, lemma_located_prefix, lemma_placed_prefix};
use crate::holds::{subst_parts, lemma_holds_within_use, lemma_holds_within_refl, lemma_holds_within_trans, lemma_holds_within_table};

verus! {

/// The most variables a context can hold.
pub const MAX_CONTEXT: usize = 7;

pub open spec fn msg_context() -> Seq<char> {
    "thinnings support at most 7 context variables"@
}

/// The e-graph has no room left for the classes a term needs.
pub open spec fn msg_full() -> Seq<char> {
    "exhausted 24-bit raw IDs"@
}

pub open spec fn msg_out_of_scope(t: Seq<char>, outer: nat) -> Seq<char> {
    t + " is out of scope in outer context "@ + decimal(outer)
}

pub open spec fn msg_term_arity(op: Seq<char>) -> Seq<char> {
    "application '("@ + op + " ...)' needs an argument"@
}

/// Whether reading form `s` as a term, in an outer context of `outer`
/// variables under term binders `bs` (innermost last), succeeds; else the
/// first problem met, in reading order.
pub open spec fn term_check(s: SyntaxV, outer: nat, bs: Seq<Seq<char>>) -> Result<(), Seq<char>>
    decreases s, 2nat,
{
    if outer + bs.len() > 7 {
        Err(located(line_of(s), column_of(s), msg_context()))
    } else {
        placed(s, term_raw(s, outer, bs))
    }
}

/// The reading of form `s` as a term, its problems not yet placed.
pub open spec fn term_raw(s: SyntaxV, outer: nat, bs: Seq<Seq<char>>) -> Result<(), Seq<char>>
    decreases s, 1nat,
{
            match s {
                SyntaxV::Atom(t, q, _, _) => if q {
                    Ok(())
                } else if resolve_spec(t, bs) is Some {
                    Ok(())
                } else if t.len() > 0 && t[0] == '$' {
                    match usize_text(t.drop_first()) {
                        None => Err(msg_outer(t)),
                        Some(i) => if i >= outer {
                            Err(msg_out_of_scope(t, outer))
                        } else {
                            Ok(())
                        },
                    }
                } else if t.len() > 0 && t[0] == '?' {
                    Err("pattern variable '"@ + t + "' used in a term"@)
                } else {
                    Ok(())
                },
                SyntaxV::Group(Delimiter::Brace, _, _, _) => Err("metavariable occurrence used in a term"@),
                SyntaxV::Group(Delimiter::Bracket, items, _, _) => if items.len() < 2 {
                    Err("application '[FUNCTION ARGUMENT ...]' needs an argument"@)
                } else {
                    terms_check(s, 0, outer, bs)
                },
                SyntaxV::Group(Delimiter::Paren, items, _, _) => if items.len() == 0 {
                    Err("empty term list"@)
                } else {
                    match atom_spec(items[0]) {
                        Err(e) => Err(e),
                        Ok(op) => if op.len() > 0 && op[0] == '@' {
                            if op.len() == 1 || items.len() != 3 {
                                Err("(@OP NAME BODY) takes a binder name and body"@)
                            } else {
                                match binder_name_spec(items[1]) {
                                    Err(e) => Err(e),
                                    Ok(name) => term_check(items[2], outer, bs.push(name)),
                                }
                            }
                        } else if op == "#subst"@ {
                            if items.len() != 4 {
                                Err("(#subst BODY NAME REPLACEMENT) takes a body, binder, and replacement"@)
                            } else {
                                match subst_binder_spec(items[2]) {
                                    Err(e) => Err(e),
                                    Ok(name) => match term_check(items[1], outer, bs.push(name)) {
                                        Err(e) => Err(e),
                                        Ok(_) => term_check(items[3], outer, bs),
                                    },
                                }
                            }
                        } else if items.len() < 2 {
                            Err(msg_term_arity(op))
                        } else {
                            terms_check(s, 1, outer, bs)
                        },
                    }
                },
            }
}

/// Whether the items of group `s` from position `k` on read as terms.
pub open spec fn terms_check(s: SyntaxV, k: nat, outer: nat, bs: Seq<Seq<char>>) -> Result<(), Seq<char>>
    decreases s, 0nat, s->Group_1.len() - k,
{
    if s is Group && k < s->Group_1.len() {
        match term_check(s->Group_1[k as int], outer, bs) {
            Err(e) => Err(e),
            Ok(_) => terms_check(s, k + 1, outer, bs),
        }
    } else {
        Ok(())
    }
}

/// The ids `ps` apply, one by one, the class `ps[0]` to `args[1]`, ...,
/// `args[n - 1]`, ending in `x`.
pub open spec fn curried(g: EGraph, x: Id, ps: Seq<Id>, args: Seq<Id>, n: nat) -> bool {
    &&& ps.len() == n
    &&& args.len() == n
    &&& n > 0
    &&& x == ps[n - 1]
    &&& forall|i: int| 1 <= i < n ==> #[trigger] g.holds_app(ps[i], ps[i - 1], args[i])
}

/// The class of `x` holds the term read from form `s`, in an outer context
/// of `outer` variables under term binders `bs` (innermost last): its atom;
/// its variable; for `[F A1 ... An]` the curried application of a class
/// holding `F` to classes holding the arguments; for `(@OP NAME BODY)` the
/// binder `OP` over a class holding `BODY`; for `(OP A1 ... An)` the atom
/// `OP` applied to classes holding the arguments. Of a substitution
/// `(#subst BODY NAME REPLACEMENT)` it says only that classes hold its
/// body and its replacement.
pub open spec fn term_holds(g: EGraph, x: Id, s: SyntaxV, outer: nat, bs: Seq<Seq<char>>) -> bool
    decreases s,
{
    match s {
        SyntaxV::Atom(t, q, _, _) => if q {
            g.holds_atom(x, t)
        } else {
            match resolve_spec(t, bs) {
                Some((_, slot)) => g.holds_var(x, outer + slot),
                None => if t.len() > 0 && t[0] == '$' {
                    match usize_text(t.drop_first()) {
                        Some(i) => g.holds_var(x, i),
                        None => false,
                    }
                } else {
                    g.holds_atom(x, t)
                },
            }
        },
        SyntaxV::Group(Delimiter::Brace, _, _, _) => false,
        SyntaxV::Group(Delimiter::Bracket, items, _, _) => items.len() >= 2 && exists|ps: Seq<Id>, args: Seq<Id>|
            #[trigger] curried(g, x, ps, args, items.len()) && term_holds(g, ps[0], items[0], outer, bs)
                && forall|i: int| 1 <= i < items.len() ==> term_holds(g, #[trigger] args[i], items[i], outer, bs),
        SyntaxV::Group(Delimiter::Paren, items, _, _) => items.len() > 0 && match atom_spec(items[0]) {
            Err(_) => false,
            Ok(op) => if op.len() > 0 && op[0] == '@' {
                items.len() == 3 && match binder_name_spec(items[1]) {
                    Err(_) => false,
                    Ok(name) => exists|b: Id|
                        #[trigger] g.holds_binder(x, op.drop_first(), b) && term_holds(g, b, items[2], outer, bs.push(name)),
                }
            } else if op == "#subst"@ {
                items.len() == 4 && match subst_binder_spec(items[2]) {
                    Err(_) => false,
                    Ok(name) => exists|b: Id, r: Id|
                        #[trigger] subst_parts(b, r) == (b, r) && term_holds(g, b, items[1], outer, bs.push(name))
                            && term_holds(g, r, items[3], outer, bs),
                }
            } else {
                items.len() >= 2 && exists|args: Seq<Id>|
                    #[trigger] g.holds_apps(x, op, args) && args.len() + 1 == items.len()
                        && forall|i: int| 0 <= i < args.len() ==> term_holds(g, #[trigger] args[i], items[i + 1], outer, bs)
            },
        },
    }
}

/// A term held in one e-graph is held in any that holds what it holds.
pub(crate) proof fn lemma_term_holds_within(g1: EGraph, g2: EGraph, x: Id, s: SyntaxV, outer: nat, bs: Seq<Seq<char>>)
    requires
        g1.holds_within(g2),
        term_holds(g1, x, s, outer, bs),
    ensures
        term_holds(g2, x, s, outer, bs),
    decreases s,
{
    lemma_holds_within_use(g1, g2);
    match s {
        SyntaxV::Atom(..) => {},
        SyntaxV::Group(Delimiter::Brace, _, _, _) => {},
        SyntaxV::Group(Delimiter::Bracket, items, _, _) => {
            let n = items.len();
            let (ps, args) = choose|ps: Seq<Id>, args: Seq<Id>|
                #[trigger] curried(g1, x, ps, args, n) && term_holds(g1, ps[0], items[0], outer, bs)
                    && forall|i: int| 1 <= i < n ==> term_holds(g1, #[trigger] args[i], items[i], outer, bs);
            lemma_term_holds_within(g1, g2, ps[0], items[0], outer, bs);
            assert forall|i: int| 1 <= i < n implies term_holds(g2, #[trigger] args[i], items[i], outer, bs) by {
                lemma_term_holds_within(g1, g2, args[i], items[i], outer, bs);
            }
            assert forall|i: int| 1 <= i < n implies #[trigger] g2.holds_app(ps[i], ps[i - 1], args[i]) by {
                assert(g1.holds_app(ps[i], ps[i - 1], args[i]));
            }
            assert(curried(g2, x, ps, args, n));
        },
        SyntaxV::Group(Delimiter::Paren, items, _, _) => {
            match atom_spec(items[0]) {
                Err(_) => {},
                Ok(op) => {
                    if op.len() > 0 && op[0] == '@' {
                        match binder_name_spec(items[1]) {
                            Err(_) => {},
                            Ok(name) => {
                                let b = choose|b: Id|
                                    #[trigger] g1.holds_binder(x, op.drop_first(), b) && term_holds(g1, b, items[2], outer, bs.push(name));
                                lemma_term_holds_within(g1, g2, b, items[2], outer, bs.push(name));
                                assert(g2.holds_binder(x, op.drop_first(), b));
                            },
                        }
                    } else if op == "#subst"@ {
                        match subst_binder_spec(items[2]) {
                            Err(_) => {},
                            Ok(name) => {
                                let (b, r) = choose|b: Id, r: Id|
                                    #[trigger] subst_parts(b, r) == (b, r) && term_holds(g1, b, items[1], outer, bs.push(name))
                                        && term_holds(g1, r, items[3], outer, bs);
                                lemma_term_holds_within(g1, g2, b, items[1], outer, bs.push(name));
                                lemma_term_holds_within(g1, g2, r, items[3], outer, bs);
                                assert(subst_parts(b, r) == (b, r));
                            },
                        }
                    } else {
                        let args = choose|args: Seq<Id>|
                            #[trigger] g1.holds_apps(x, op, args) && args.len() + 1 == items.len()
                                && forall|i: int| 0 <= i < args.len() ==> term_holds(g1, #[trigger] args[i], items[i + 1], outer, bs);
                        assert forall|i: int| 0 <= i < args.len() implies term_holds(g2, #[trigger] args[i], items[i + 1], outer, bs) by {
                            lemma_term_holds_within(g1, g2, args[i], items[i + 1], outer, bs);
                        }
                        assert(g2.holds_apps(x, op, args));
                    }
                },
            }
        },
    }
}

/// A curried application chain, held in one e-graph, with its first `k`
/// parts, is held in any that holds what it holds.
proof fn lemma_chain_within(
    g1: EGraph,
    g2: EGraph,
    ps: Seq<Id>,
    args: Seq<Id>,
    iv: Seq<SyntaxV>,
    k: int,
    outer: nat,
    bs: Seq<Seq<char>>,
)
    requires
        g1.holds_within(g2),
        1 <= k <= iv.len(),
        term_holds(g1, ps[0], iv[0], outer, bs),
        forall|i: int| 1 <= i < k ==> #[trigger] g1.holds_app(ps[i], ps[i - 1], args[i]),
        forall|i: int| 1 <= i < k ==> term_holds(g1, #[trigger] args[i], iv[i], outer, bs),
    ensures
        term_holds(g2, ps[0], iv[0], outer, bs),
        forall|i: int| 1 <= i < k ==> #[trigger] g2.holds_app(ps[i], ps[i - 1], args[i]),
        forall|i: int| 1 <= i < k ==> term_holds(g2, #[trigger] args[i], iv[i], outer, bs),
{
    lemma_holds_within_use(g1, g2);
    lemma_term_holds_within(g1, g2, ps[0], iv[0], outer, bs);
    assert forall|i: int| 1 <= i < k implies #[trigger] g2.holds_app(ps[i], ps[i - 1], args[i]) by {
        assert(g1.holds_app(ps[i], ps[i - 1], args[i]));
    }
    assert forall|i: int| 1 <= i < k implies term_holds(g2, #[trigger] args[i], iv[i], outer, bs) by {
        lemma_term_holds_within(g1, g2, args[i], iv[i], outer, bs);
    }
}

/// Terms held by the first `n` of `ids`, read from `iv` from position 1
/// on, are held in any e-graph that holds what theirs holds.
proof fn lemma_args_within(g1: EGraph, g2: EGraph, ids: Seq<Id>, iv: Seq<SyntaxV>, n: int, outer: nat, bs: Seq<Seq<char>>)
    requires
        g1.holds_within(g2),
        n <= ids.len(),
        n + 1 <= iv.len(),
        forall|i: int| 0 <= i < n ==> term_holds(g1, #[trigger] ids[i], iv[i + 1], outer, bs),
    ensures
        forall|i: int| 0 <= i < n ==> term_holds(g2, #[trigger] ids[i], iv[i + 1], outer, bs),
{
    assert forall|i: int| 0 <= i < n implies term_holds(g2, #[trigger] ids[i], iv[i + 1], outer, bs) by {
        lemma_term_holds_within(g1, g2, ids[i], iv[i + 1], outer, bs);
    }
}

/// How many classes and symbols adding the term read from form `s` can
/// take at most: one per variable, atom, application step and binder.
/// `None` for a form that is no term, or holds a substitution, whose room
/// is not known ahead.
pub open spec fn term_cost(s: SyntaxV) -> Option<nat>
    decreases s, 1nat,
{
    match s {
        SyntaxV::Atom(..) => Some(1),
        SyntaxV::Group(Delimiter::Brace, _, _, _) => None,
        SyntaxV::Group(Delimiter::Bracket, items, _, _) => if items.len() < 2 {
            None
        } else {
            match items_cost(s, 0) {
                Some(c) => Some((c + items.len() - 1) as nat),
                None => None,
            }
        },
        SyntaxV::Group(Delimiter::Paren, items, _, _) => if items.len() == 0 {
            None
        } else {
            match atom_spec(items[0]) {
                Err(_) => None,
                Ok(op) => if op.len() > 0 && op[0] == '@' {
                    if items.len() != 3 {
                        None
                    } else {
                        match term_cost(items[2]) {
                            Some(c) => Some(c + 1),
                            None => None,
                        }
                    }
                } else if op == "#subst"@ || items.len() < 2 {
                    None
                } else {
                    match items_cost(s, 1) {
                        Some(c) => Some(c + items.len()),
                        None => None,
                    }
                },
            }
        },
    }
}

/// The total cost of the items of group `s` from position `k` on.
pub open spec fn items_cost(s: SyntaxV, k: nat) -> Option<nat>
    decreases s, 0nat, s->Group_1.len() - k,
{
    if s is Group && k < s->Group_1.len() {
        match (term_cost(s->Group_1[k as int]), items_cost(s, k + 1)) {
            (Some(a), Some(b)) => Some(a + b),
            _ => None,
        }
    } else {
        Some(0)
    }
}

/// Of a total cost `total`, `g` has used at most what is left once the
/// remaining items, costing `rest`, and `pending` more are set aside.
pub open spec fn spent_ok(g0: EGraph, g: EGraph, total: Option<nat>, rest: Option<nat>, pending: nat) -> bool {
    total matches Some(c) ==> (rest is Some && c >= rest->Some_0 + pending && g.room_used(
        g0,
        (c - rest->Some_0 - pending) as nat,
    ))
}

/// Room for `total`, of which `spent` is used: room for the rest.
proof fn lemma_room_left(g0: EGraph, g1: EGraph, spent: nat, total: nat)
    requires
        g0.room(total),
        g1.room_used(g0, spent),
        spent <= total,
    ensures
        g1.room((total - spent) as nat),
{
}

/// An error that the e-graph's size caused, placed or not.
pub open spec fn full_error(m: Seq<char>) -> bool {
    m == msg_full() || exists|l: nat, c: nat| m == located(l, c, msg_full())
}

/// A failure to add a term: the first problem of its form, or a full
/// e-graph.
pub open spec fn term_failure(check: Result<(), Seq<char>>, m: Seq<char>) -> bool {
    (check matches Err(e) && m == e) || full_error(m)
}

/// The full-e-graph message does not name a line.
proof fn lemma_full_unplaced()
    ensures
        !has_prefix(msg_full(), "line "@),
{
    reveal_strlit("line ");
    reveal_strlit("exhausted 24-bit raw IDs");
    let m = msg_full();
    assert(m[0] == 'e');
    if has_prefix(m, "line "@) {
        assert(m.take(5)[0] == 'l');
    }
}

/// A full-e-graph error stays one when placed.
proof fn lemma_full_placed(s: SyntaxV, m: Seq<char>)
    requires
        full_error(m),
    ensures
        full_error(locate_in(s, m)),
{
    lemma_full_unplaced();
    if m == msg_full() {
        assert(locate_in(s, m) == located(line_of(s), column_of(s), msg_full()));
    } else {
        let (l, c) = choose|l: nat, c: nat| m == located(l, c, msg_full());
        lemma_located_prefix(l, c, msg_full());
    }
}

/// Every problem of a term reading names its line.
proof fn lemma_term_error_prefix(s: SyntaxV, outer: nat, bs: Seq<Seq<char>>)
    ensures
        term_check(s, outer, bs) matches Err(e) ==> has_prefix(e, "line "@),
{
    lemma_located_prefix(line_of(s), column_of(s), msg_context());
    match term_raw(s, outer, bs) {
        Err(e) => {
            lemma_placed_prefix(s, e);
        },
        Ok(_) => {},
    }
}

proof fn lemma_terms_error_prefix(s: SyntaxV, k: nat, outer: nat, bs: Seq<Seq<char>>)
    ensures
        terms_check(s, k, outer, bs) matches Err(e) ==> has_prefix(e, "line "@),
    decreases s->Group_1.len() - k,
{
    if s is Group && k < s->Group_1.len() {
        lemma_term_error_prefix(s->Group_1[k as int], outer, bs);
        lemma_terms_error_prefix(s, k + 1, outer, bs);
    }
}

/// Errors of atoms and binder names name their line.
proof fn lemma_name_errors_prefix(s: SyntaxV)
    ensures
        atom_spec(s) matches Err(e) ==> has_prefix(e, "line "@),
        binder_name_spec(s) matches Err(e) ==> has_prefix(e, "line "@),
        subst_binder_spec(s) matches Err(e) ==> has_prefix(e, "line "@),
{
    match s {
        SyntaxV::Atom(t, q, l, c) => {
            lemma_located_prefix(l, c, "binder must be an unquoted name"@);
            lemma_located_prefix(l, c, "invalid binder name '"@ + t + "'"@);
        },
        SyntaxV::Group(_, _, l, c) => {
            lemma_located_prefix(l, c, "expected an atom"@);
            lemma_located_prefix(l, c, "binder must be an unquoted name"@);
        },
    }
}

fn full() -> (r: String)
    ensures
        r@ == msg_full(),
        full_error(r@),
{
    String::from_str("exhausted 24-bit raw IDs")
}

/// Add the term written as `syntax`, in an outer context of `outer`
/// variables and under the term binders `binders` (innermost last).
fn term_go(eg: &mut EGraph, syntax: &Syntax, outer: usize, binders: &mut Vec<String>) -> (r: Result<Id, String>)
    requires
        old(eg).wf(),
        outer + old(binders)@.len() <= 8,
    ensures
        final(eg).wf(),
        old(eg).extends(*final(eg)),
        final(binders)@ == old(binders)@,
        old(eg).holds_within(*final(eg)),
        r matches Ok(id) ==> term_check(syntax@, outer as nat, names_view(old(binders)@)) is Ok
            && final(eg).valid(id) && id.ctx_spec() == outer + old(binders)@.len()
            && term_holds(*final(eg), id, syntax@, outer as nat, names_view(old(binders)@)),
        r matches Err(x) ==> term_failure(term_check(syntax@, outer as nat, names_view(old(binders)@)), x@),
        term_check(syntax@, outer as nat, names_view(old(binders)@)) is Err ==> r is Err,
        term_cost(syntax@) matches Some(c) ==> (term_check(syntax@, outer as nat, names_view(old(binders)@)) is Ok
            && old(eg).room(c) ==> r is Ok),
        term_cost(syntax@) matches Some(c) ==> (r is Ok ==> final(eg).room_used(*old(eg), c)),
    decreases syntax, 1nat,
{
    proof {
        lemma_holds_within_refl(*eg);
    }
    if outer + binders.len() > MAX_CONTEXT {
        return Err(syntax.location.error("thinnings support at most 7 context variables"));
    }
    match term_inner(eg, syntax, outer, binders) {
        Ok(id) => Ok(id),
        Err(e) => {
            proof {
                if full_error(e@) {
                    lemma_full_placed(syntax@, e@);
                }
            }
            Err(syntax.locate(e))
        },
    }
}

/// A failure of the unplaced reading of a term.
pub open spec fn raw_failure(raw: Result<(), Seq<char>>, m: Seq<char>) -> bool {
    (raw matches Err(e) && m == e) || full_error(m)
}

/// The body of `term_go`: add the term, leaving its problems unplaced.
#[verifier::spinoff_prover]
#[verifier::rlimit(60)]
fn term_inner(eg: &mut EGraph, syntax: &Syntax, outer: usize, binders: &mut Vec<String>) -> (r: Result<Id, String>)
    requires
        old(eg).wf(),
        outer + old(binders)@.len() <= 7,
    ensures
        final(eg).wf(),
        old(eg).extends(*final(eg)),
        final(binders)@ == old(binders)@,
        old(eg).holds_within(*final(eg)),
        r matches Ok(id) ==> term_raw(syntax@, outer as nat, names_view(old(binders)@)) is Ok
            && final(eg).valid(id) && id.ctx_spec() == outer + old(binders)@.len()
            && term_holds(*final(eg), id, syntax@, outer as nat, names_view(old(binders)@)),
        r matches Err(x) ==> raw_failure(term_raw(syntax@, outer as nat, names_view(old(binders)@)), x@),
        term_raw(syntax@, outer as nat, names_view(old(binders)@)) is Err ==> r is Err,
        term_cost(syntax@) matches Some(c) ==> (term_raw(syntax@, outer as nat, names_view(old(binders)@)) is Ok
            && old(eg).room(c) ==> r is Ok),
        term_cost(syntax@) matches Some(c) ==> (r is Ok ==> final(eg).room_used(*old(eg), c)),
    decreases syntax, 0nat,
{
    let ghost b0 = binders@;
    let ghost bs = names_view(binders@);
    let ghost sv = syntax@;
    let ghost e0 = *eg;
    proof {
        lemma_holds_within_refl(*eg);
    }
    let ctx = outer + binders.len();
    match &syntax.kind {
        SyntaxKind::Atom { text, quoted } => {
            if *quoted {
                if !eg.has_room(1) {
                    return Err(full());
                }
                let id = eg.atom(text.as_str(), ctx);
                proof {
                    lemma_holds_within_table(e0, *eg);
                }
                return Ok(id);
            }
            match resolve_binder(text.as_str(), binders.as_slice()) {
                Some((_, slot)) => {
                    if !eg.has_room(1) {
                        return Err(full());
                    }
                    let id = eg.var(ctx, outer + slot);
                    proof {
                        lemma_holds_within_table(e0, *eg);
                    }
                    return Ok(id);
                },
                None => {},
            }
            let cs = chars_of(text.as_str());
            if cs.len() > 0 && cs[0] == '$' {
                let rest = skip_chars(cs.as_slice(), 1);
                proof {
                    assert(rest@ =~= text@.drop_first());
                }
                match parse_usize(rest.as_slice()) {
                    None => {
                        return Err(message("invalid outer-context variable '", text.as_str(), "'"));
                    },
                    Some(i) => {
                        if i >= outer {
                            let mut m = String::new();
                            push_str(&mut m, text.as_str());
                            push_str(&mut m, " is out of scope in outer context ");
                            push_decimal(&mut m, outer);
                            proof {
                                assert(m@ =~= msg_out_of_scope(text@, outer as nat));
                            }
                            return Err(m);
                        }
                        if !eg.has_room(1) {
                            return Err(full());
                        }
                        let id = eg.var(ctx, i);
                        proof {
                            lemma_holds_within_table(e0, *eg);
                        }
                        return Ok(id);
                    },
                }
            }
            if cs.len() > 0 && cs[0] == '?' {
                return Err(message("pattern variable '", text.as_str(), "' used in a term"));
            }
            if !eg.has_room(1) {
                return Err(full());
            }
            let id = eg.atom(text.as_str(), ctx);
            proof {
                lemma_holds_within_table(e0, *eg);
            }
            Ok(id)
        },
        SyntaxKind::Group { delimiter, items } => {
            let ghost iv = sv->Group_1;
            proof {
                assert(forms_view(items@) =~= iv);
            }
            match delimiter {
                Delimiter::Brace => Err(String::from_str("metavariable occurrence used in a term")),
                Delimiter::Bracket => {
                    if items.len() < 2 {
                        return Err(String::from_str("application '[FUNCTION ARGUMENT ...]' needs an argument"));
                    }
                    proof {
                        assert(decreases_to!(*syntax => syntax.kind));
                        assert(decreases_to!(syntax.kind => syntax.kind->items));
                        assert(decreases_to!(*items => items@));
                        assert(decreases_to!(items@ => items@[0]));
                        assert(iv[0] == items@[0]@);
                        lemma_term_error_prefix(iv[0], outer as nat, bs);
                    }
                    let mut application = match term_go(eg, &items[0], outer, binders) {
                        Err(e) => {
                            return Err(e);
                        },
                        Ok(f) => f,
                    };
                    proof {
                        assert(spent_ok(*old(eg), *eg, term_cost(sv), items_cost(sv, 1), (iv.len() - 1) as nat));
                    }
                    let ghost mut ps: Seq<Id> = seq![application];
                    let ghost mut args: Seq<Id> = seq![application];
                    let mut k: usize = 1;
                    while k < items.len()
                        invariant
                            syntax.kind is Group,
                            syntax.kind->items == *items,
                            sv == syntax@,
                            sv is Group,
                            iv == sv->Group_1,
                            forms_view(items@) == iv,
                            1 <= k <= items@.len(),
                            b0 == old(binders)@,
                            binders@ == b0,
                            bs == names_view(b0),
                            outer + b0.len() <= 7,
                            ctx == outer + b0.len(),
                            eg.wf(),
                            old(eg).extends(*eg),
                            eg.valid(application),
                            application.ctx_spec() == ctx,
                            old(eg).holds_within(*eg),
                            ps.len() == k,
                            args.len() == k,
                            application == ps[k - 1],
                            term_holds(*eg, ps[0], iv[0], outer as nat, bs),
                            forall|i: int| 1 <= i < k ==> #[trigger] eg.holds_app(ps[i], ps[i - 1], args[i]),
                            forall|i: int| 1 <= i < k ==> term_holds(*eg, #[trigger] args[i], iv[i], outer as nat, bs),
                            terms_check(sv, 0, outer as nat, bs) == terms_check(sv, k as nat, outer as nat, bs),
                            term_raw(sv, outer as nat, bs) == terms_check(sv, 0, outer as nat, bs),
                            spent_ok(*old(eg), *eg, term_cost(sv), items_cost(sv, k as nat), (iv.len() - k) as nat),
                            term_cost(sv) is Some ==> term_cost(sv) == Some((items_cost(sv, 0)->Some_0 + iv.len() - 1) as nat),
                        decreases items@.len() - k,
                    {
                        proof {
                            assert(decreases_to!(*syntax => syntax.kind));
                            assert(decreases_to!(syntax.kind => syntax.kind->items));
                            assert(decreases_to!(*items => items@));
                            assert(decreases_to!(items@ => items@[k as int]));
                            assert(iv[k as int] == items@[k as int]@);
                            lemma_term_error_prefix(iv[k as int], outer as nat, bs);
                            if term_cost(sv) is Some {
                                let c = term_cost(sv)->Some_0;
                                let ick = items_cost(sv, k as nat)->Some_0;
                                if old(eg).room(c) {
                                    lemma_room_left(*old(eg), *eg, (c - ick - (iv.len() - k)) as nat, c);
                                }
                                assert(term_cost(iv[k as int]) is Some);
                            }
                        }
                        let ghost before = *eg;
                        let argument = match term_go(eg, &items[k], outer, binders) {
                            Err(e) => {
                                proof {
                                    lemma_extends_trans(*old(eg), before, *eg);
                                    lemma_holds_within_trans(*old(eg), before, *eg);
                                }
                                return Err(e);
                            },
                            Ok(a) => a,
                        };
                        proof {
                            lemma_extends_trans(*old(eg), before, *eg);
                            lemma_holds_within_trans(*old(eg), before, *eg);
                            lemma_chain_within(before, *eg, ps, args, iv, k as int, outer as nat, bs);
                        }
                        proof {
                            if term_cost(sv) is Some {
                                let c = term_cost(sv)->Some_0;
                                let ick = items_cost(sv, k as nat)->Some_0;
                                assert(eg.room_used(*old(eg), (c - ick - (iv.len() - k) + term_cost(iv[k as int])->Some_0) as nat));
                                if old(eg).room(c) {
                                    lemma_room_left(*old(eg), *eg, (c - ick - (iv.len() - k) + term_cost(iv[k as int])->Some_0) as nat, c);
                                }
                            }
                        }
                        if !eg.has_room(1) {
                            return Err(full());
                        }
                        let ghost before2 = *eg;
                        let ghost previous = application;
                        application = eg.app(application, argument);
                        proof {
                            lemma_extends_trans(*old(eg), before2, *eg);
                            lemma_holds_within_table(before2, *eg);
                            lemma_holds_within_trans(*old(eg), before2, *eg);
                            lemma_chain_within(before2, *eg, ps, args, iv, k as int, outer as nat, bs);
                            lemma_holds_within_use(before2, *eg);
                            lemma_term_holds_within(before2, *eg, argument, iv[k as int], outer as nat, bs);
                            ps = ps.push(application);
                            args = args.push(argument);
                            assert forall|i: int| 1 <= i < k + 1 implies #[trigger] eg.holds_app(ps[i], ps[i - 1], args[i]) by {
                                if i < k {
                                    assert(ps[i] == ps.drop_last()[i] && ps[i - 1] == ps.drop_last()[i - 1]);
                                }
                            }
                            assert forall|i: int| 1 <= i < k + 1 implies term_holds(*eg, #[trigger] args[i], iv[i], outer as nat, bs) by {
                                if i < k {
                                    assert(args[i] == args.drop_last()[i]);
                                }
                            }
                        }
                        k = k + 1;
                    }
                    proof {
                        assert(curried(*eg, application, ps, args, iv.len()));
                    }
                    Ok(application)
                },
                Delimiter::Paren => {
                    if items.len() == 0 {
                        return Err(String::from_str("empty term list"));
                    }
                    proof {
                        assert(iv[0] == items@[0]@);
                        lemma_name_errors_prefix(iv[0]);
                    }
                    let op = match atom_of(&items[0]) {
                        Err(e) => {
                            return Err(e);
                        },
                        Ok(op) => op,
                    };
                    let oc = chars_of(op);
                    if oc.len() > 0 && oc[0] == '@' {
                        if oc.len() == 1 || items.len() != 3 {
                            return Err(String::from_str("(@OP NAME BODY) takes a binder name and body"));
                        }
                        proof {
                            assert(iv[1] == items@[1]@);
                            assert(iv[2] == items@[2]@);
                            lemma_name_errors_prefix(iv[1]);
                        }
                        let name = match binder_name(&items[1]) {
                            Err(e) => {
                                return Err(e);
                            },
                            Ok(n) => n,
                        };
                        let rest = skip_chars(oc.as_slice(), 1);
                        let op_name = string_of(rest.as_slice());
                        proof {
                            assert(decreases_to!(*syntax => syntax.kind));
                            assert(decreases_to!(syntax.kind => syntax.kind->items));
                            assert(decreases_to!(*items => items@));
                            assert(decreases_to!(items@ => items@[2]));
                        }
                        let bound = String::from_str(name);
                        let ghost bv = bound@;
                        binders.push(bound);
                        proof {
                            assert(names_view(binders@) =~= bs.push(bv));
                            lemma_term_error_prefix(iv[2], outer as nat, bs.push(bv));
                        }
                        let body = term_go(eg, &items[2], outer, binders);
                        binders.pop();
                        proof {
                            assert(binders@ =~= b0);
                        }
                        let body = match body {
                            Err(e) => {
                                return Err(e);
                            },
                            Ok(b) => b,
                        };
                        if !eg.has_room(1) {
                            return Err(full());
                        }
                        let ghost before = *eg;
                        let id = eg.binder(op_name.as_str(), body);
                        proof {
                            lemma_extends_trans(*old(eg), before, *eg);
                            lemma_holds_within_table(before, *eg);
                            lemma_holds_within_trans(*old(eg), before, *eg);
                            lemma_term_holds_within(before, *eg, body, iv[2], outer as nat, bs.push(bv));
                            assert(op_name@ =~= op@.drop_first());
                            assert(eg.holds_binder(id, op@.drop_first(), body));
                        }
                        return Ok(id);
                    }
                    if same_text(op, "#subst") {
                        if items.len() != 4 {
                            return Err(String::from_str("(#subst BODY NAME REPLACEMENT) takes a body, binder, and replacement"));
                        }
                        proof {
                            assert(iv[1] == items@[1]@);
                            assert(iv[2] == items@[2]@);
                            assert(iv[3] == items@[3]@);
                            lemma_name_errors_prefix(iv[2]);
                        }
                        let name = match subst_binder_name(&items[2]) {
                            Err(e) => {
                                return Err(e);
                            },
                            Ok(n) => n,
                        };
                        proof {
                            assert(decreases_to!(*syntax => syntax.kind));
                            assert(decreases_to!(syntax.kind => syntax.kind->items));
                            assert(decreases_to!(*items => items@));
                            assert(decreases_to!(items@ => items@[1]));
                            assert(decreases_to!(items@ => items@[3]));
                        }
                        let bound = String::from_str(name);
                        let ghost bv = bound@;
                        binders.push(bound);
                        proof {
                            assert(names_view(binders@) =~= bs.push(bv));
                            lemma_term_error_prefix(iv[1], outer as nat, bs.push(bv));
                            lemma_term_error_prefix(iv[3], outer as nat, bs);
                        }
                        let body = term_go(eg, &items[1], outer, binders);
                        binders.pop();
                        proof {
                            assert(binders@ =~= b0);
                        }
                        let body = match body {
                            Err(e) => {
                                return Err(e);
                            },
                            Ok(b) => b,
                        };
                        let ghost mid = *eg;
                        let replacement = match term_go(eg, &items[3], outer, binders) {
                            Err(e) => {
                                proof {
                                    lemma_extends_trans(*old(eg), mid, *eg);
                                    lemma_holds_within_trans(*old(eg), mid, *eg);
                                }
                                return Err(e);
                            },
                            Ok(p) => p,
                        };
                        proof {
                            lemma_extends_trans(*old(eg), mid, *eg);
                            lemma_holds_within_trans(*old(eg), mid, *eg);
                        }
                        let ghost before = *eg;
                        let result = eg.substitute(&body, ctx, &replacement);
                        proof {
                            lemma_extends_trans(*old(eg), before, *eg);
                            lemma_holds_within_trans(*old(eg), before, *eg);
                            lemma_holds_within_trans(mid, before, *eg);
                            lemma_term_holds_within(mid, *eg, body, iv[1], outer as nat, bs.push(bv));
                            lemma_term_holds_within(before, *eg, replacement, iv[3], outer as nat, bs);
                            assert(subst_parts(body, replacement) == (body, replacement));
                        }
                        return match result {
                            None => Err(full()),
                            Some(id) => Ok(id),
                        };
                    }
                    if items.len() < 2 {
                        return Err(message("application '(", op, " ...)' needs an argument"));
                    }
                    let mut children: Vec<Id> = Vec::new();
                    let mut k: usize = 1;
                    proof {
                        assert(spent_ok(*old(eg), *eg, term_cost(sv), items_cost(sv, 1), iv.len() as nat));
                    }
                    while k < items.len()
                        invariant
                            syntax.kind is Group,
                            syntax.kind->items == *items,
                            sv == syntax@,
                            sv is Group,
                            iv == sv->Group_1,
                            forms_view(items@) == iv,
                            1 <= k <= items@.len(),
                            children@.len() == k - 1,
                            b0 == old(binders)@,
                            binders@ == b0,
                            bs == names_view(b0),
                            outer + b0.len() <= 7,
                            ctx == outer + b0.len(),
                            eg.wf(),
                            old(eg).extends(*eg),
                            forall|i: int| 0 <= i < children@.len() ==> eg.valid(#[trigger] children@[i]),
                            forall|i: int| 0 <= i < children@.len() ==> (#[trigger] children@[i]).ctx_spec() == ctx,
                            old(eg).holds_within(*eg),
                            forall|i: int| 0 <= i < k - 1 ==> term_holds(*eg, #[trigger] children@[i], iv[i + 1], outer as nat, bs),
                            terms_check(sv, 1, outer as nat, bs) == terms_check(sv, k as nat, outer as nat, bs),
                            term_raw(sv, outer as nat, bs) == terms_check(sv, 1, outer as nat, bs),
                            spent_ok(*old(eg), *eg, term_cost(sv), items_cost(sv, k as nat), iv.len() as nat),
                            term_cost(sv) is Some ==> term_cost(sv) == Some((items_cost(sv, 1)->Some_0 + iv.len()) as nat),
                        decreases items@.len() - k,
                    {
                        proof {
                            assert(decreases_to!(*syntax => syntax.kind));
                            assert(decreases_to!(syntax.kind => syntax.kind->items));
                            assert(decreases_to!(*items => items@));
                            assert(decreases_to!(items@ => items@[k as int]));
                            assert(iv[k as int] == items@[k as int]@);
                            lemma_term_error_prefix(iv[k as int], outer as nat, bs);
                            if term_cost(sv) is Some {
                                let c = term_cost(sv)->Some_0;
                                let ick = items_cost(sv, k as nat)->Some_0;
                                if old(eg).room(c) {
                                    lemma_room_left(*old(eg), *eg, (c - ick - iv.len()) as nat, c);
                                }
                                assert(term_cost(iv[k as int]) is Some);
                            }
                        }
                        let ghost before = *eg;
                        let child = match term_go(eg, &items[k], outer, binders) {
                            Err(e) => {
                                proof {
                                    lemma_extends_trans(*old(eg), before, *eg);
                                    lemma_holds_within_trans(*old(eg), before, *eg);
                                }
                                return Err(e);
                            },
                            Ok(a) => a,
                        };
                        proof {
                            lemma_extends_trans(*old(eg), before, *eg);
                            lemma_holds_within_trans(*old(eg), before, *eg);
                            lemma_args_within(before, *eg, children@, iv, k - 1, outer as nat, bs);
                        }
                        let ghost earlier = children@;
                        children.push(child);
                        proof {
                            assert forall|i: int| 0 <= i < k implies term_holds(*eg, #[trigger] children@[i], iv[i + 1], outer as nat, bs) by {
                                if i < k - 1 {
                                    assert(children@[i] == earlier[i]);
                                }
                            }
                        }
                        k = k + 1;
                    }
                    proof {
                        if term_cost(sv) is Some {
                            let c = term_cost(sv)->Some_0;
                            assert(items_cost(sv, k as nat) == Some(0nat));
                            if old(eg).room(c) {
                                lemma_room_left(*old(eg), *eg, (c - iv.len()) as nat, c);
                            }
                        }
                    }
                    if !eg.has_room(children.len() + 1) {
                        return Err(full());
                    }
                    let ghost before = *eg;
                    let ghost kids = children@;
                    let id = eg.apps(op, children);
                    proof {
                        lemma_extends_trans(*old(eg), before, *eg);
                        lemma_holds_within_table(before, *eg);
                        lemma_holds_within_trans(*old(eg), before, *eg);
                        lemma_args_within(before, *eg, kids, iv, kids.len() as int, outer as nat, bs);
                        assert(eg.holds_apps(id, op@, kids));
                    }
                    Ok(id)
                },
            }
        },
    }
}

/// Whether adding form `s` as a term in a `ctx`-variable context
/// succeeds; else its first problem.
pub open spec fn add_check(s: SyntaxV, ctx: nat) -> Result<(), Seq<char>> {
    if ctx > 7 {
        Err(msg_context())
    } else {
        term_check(s, ctx, Seq::empty())
    }
}

/// Add the term written as `syntax` to the e-graph, in a context of `ctx`
/// variables named `$0`, `$1`, ... The result lives in that context and
/// holds the term; the e-graph loses nothing that it held.
pub fn add_syntax_term(eg: &mut EGraph, syntax: &Syntax, ctx: usize) -> (r: Result<Id, String>)
    requires
        old(eg).wf(),
    ensures
        final(eg).wf(),
        old(eg).extends(*final(eg)),
        old(eg).holds_within(*final(eg)),
        r matches Ok(id) ==> add_check(syntax@, ctx as nat) is Ok && final(eg).valid(id) && id.ctx_spec() == ctx
            && term_holds(*final(eg), id, syntax@, ctx as nat, Seq::empty()),
        term_cost(syntax@) matches Some(c) ==> (add_check(syntax@, ctx as nat) is Ok && old(eg).room(c) ==> r is Ok),
        term_cost(syntax@) matches Some(c) ==> (r is Ok ==> final(eg).room_used(*old(eg), c)),
        r matches Err(x) ==> term_failure(add_check(syntax@, ctx as nat), x@),
        add_check(syntax@, ctx as nat) is Err ==> r is Err,
        ctx > 7 ==> (r matches Err(x) && x@ == msg_context() && *final(eg) == *old(eg)),
{
    proof {
        lemma_holds_within_refl(*eg);
    }
    if ctx > MAX_CONTEXT {
        let m = String::from_str("thinnings support at most 7 context variables");
        proof {
            reveal_strlit("thinnings support at most 7 context variables");
        }
        return Err(m);
    }
    let mut binders: Vec<String> = Vec::new();
    proof {
        assert(names_view(binders@) =~= Seq::<Seq<char>>::empty());
    }
    term_go(eg, syntax, ctx, &mut binders)
}

} // verus!
