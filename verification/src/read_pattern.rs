//! Reading match patterns and rewrite templates from forms.
use vstd::prelude::*;
use crate::debruijn::{DeBruijnIndex, DeBruijnLevel};
use crate::lexer::{Delimiter, Location, located};
use crate::parser::{Syntax, SyntaxKind, SyntaxV, forms_view};
use crate::terms::{Pattern, PatternV, patterns_view, apps_v, msg_not_bound, msg_repeat, message, match_check, pattern_height, capped, view_height, lemma_view_height};
use crate::term::names_view;
use crate::text::{push_str, push_char, chars_of, skip_chars, string_of, parse_usize, usize_text, has_prefix, same_text};
use crate::frontend::{
    locate_in, line_of, column_of, atom_spec, atom_of, resolve_spec, resolve_binder, binder_name_spec,
    binder_name, subst_binder_spec, subst_binder_name,
};

verus! {

pub open spec fn msg_out_of_order(name: Seq<char>, correct: Seq<char>) -> Seq<char> {
    "Miller metavariable '"@ + name + "' arguments are out of order; write {"@ + name + " "@ + correct
        + "} on the match left-hand side, then permute its arguments on the rewrite right-hand side if needed"@
}

pub open spec fn msg_head(op: Seq<char>) -> Seq<char> {
    "metavariable '"@ + op + "' is not allowed in application head position; use {"@ + op
        + " ...} for a Miller metavariable occurrence or ["@ + op + " ...] for a curried application pattern"@
}

pub open spec fn msg_pattern_arity(op: Seq<char>) -> Seq<char> {
    "pattern '("@ + op + " ...)' needs an argument"@
}

pub open spec fn msg_outer(t: Seq<char>) -> Seq<char> {
    "invalid outer-context variable '"@ + t + "'"@
}

/// An error result placed at form `s`.
pub open spec fn placed<T>(s: SyntaxV, r: Result<T, Seq<char>>) -> Result<T, Seq<char>> {
    match r {
        Err(e) => Err(locate_in(s, e)),
        Ok(v) => Ok(v),
    }
}

/// The slots that the arguments `items[k..]` of a match metavariable name,
/// after those in `acc`, each with its name.
pub open spec fn miller_slots(items: Seq<SyntaxV>, k: nat, name: Seq<char>, bs: Seq<Seq<char>>, acc: Seq<(nat, Seq<char>)>) -> Result<Seq<(nat, Seq<char>)>, Seq<char>>
    decreases items.len() - k,
{
    if k >= items.len() {
        Ok(acc)
    } else {
        let a = items[k as int];
        match a {
            SyntaxV::Atom(t, false, al, ac) => match resolve_spec(t, bs) {
                None => Err(located(al, ac, msg_not_bound(name))),
                Some((_, slot)) => if exists|j: int| 0 <= j < acc.len() && acc[j].0 == slot {
                    Err(located(al, ac, msg_repeat(name)))
                } else {
                    miller_slots(items, k + 1, name, bs, acc.push((slot, t)))
                },
            },
            _ => Err(located(line_of(a), column_of(a), msg_not_bound(name))),
        }
    }
}

/// Slots increase from one argument to the next.
pub open spec fn slots_increasing(r: Seq<(nat, Seq<char>)>) -> bool {
    forall|i: int| 0 <= i < r.len() - 1 ==> #[trigger] r[i].0 < r[i + 1].0
}

/// The name recorded for `slot`.
pub open spec fn slot_name(r: Seq<(nat, Seq<char>)>, slot: nat) -> Option<Seq<char>>
    decreases r.len(),
{
    if r.len() == 0 {
        None
    } else if r[0].0 == slot {
        Some(r[0].1)
    } else {
        slot_name(r.drop_first(), slot)
    }
}

/// The names recorded for slots below `k`, in increasing slot order.
pub open spec fn names_by_slot(r: Seq<(nat, Seq<char>)>, k: nat) -> Seq<Seq<char>>
    decreases k,
{
    if k == 0 {
        Seq::empty()
    } else {
        names_by_slot(r, (k - 1) as nat) + match slot_name(r, (k - 1) as nat) {
            Some(n) => seq![n],
            None => Seq::empty(),
        }
    }
}

/// Words joined by single spaces.
pub open spec fn join_words(ws: Seq<Seq<char>>) -> Seq<char>
    decreases ws.len(),
{
    if ws.len() == 0 {
        Seq::empty()
    } else if ws.len() == 1 {
        ws[0]
    } else {
        join_words(ws.drop_last()) + seq![' '] + ws.last()
    }
}

/// The Miller check of a match metavariable occurrence `{name args..}`.
pub open spec fn miller_check(items: Seq<SyntaxV>, name: Seq<char>, bs: Seq<Seq<char>>, line: nat, column: nat) -> Result<(), Seq<char>> {
    match miller_slots(items, 1, name, bs, Seq::empty()) {
        Err(e) => Err(e),
        Ok(res) => if slots_increasing(res) {
            Ok(())
        } else {
            Err(located(line, column, msg_out_of_order(name, join_words(names_by_slot(res, bs.len())))))
        },
    }
}

/// A pattern read from form `s` under pattern binders `bs` (innermost
/// last). `lhs` selects the match left-hand-side rules for metavariable
/// arguments; otherwise the form is read as a template.
pub open spec fn pattern_from(s: SyntaxV, lhs: bool, bs: Seq<Seq<char>>) -> Result<PatternV, Seq<char>>
    decreases s, 1nat,
{
    placed(
        s,
        match s {
            SyntaxV::Atom(t, q, _, _) => if q {
                Ok(PatternV::Atom(t))
            } else if t.len() > 1 && t[0] == '?' {
                Ok(PatternV::MetaVar(t, Seq::empty()))
            } else if resolve_spec(t, bs) is Some {
                Ok(PatternV::BVar(resolve_spec(t, bs)->Some_0.0))
            } else if t.len() > 0 && t[0] == '$' {
                match usize_text(t.drop_first()) {
                    None => Err(msg_outer(t)),
                    Some(n) => Ok(PatternV::FVar(n)),
                }
            } else {
                Ok(PatternV::Atom(t))
            },
            SyntaxV::Group(Delimiter::Brace, items, l, c) => if items.len() == 0 {
                Err(located(l, c, "metavariable occurrence must start with ?NAME"@))
            } else {
                match atom_spec(items[0]) {
                    Err(e) => Err(e),
                    Ok(name) => if !(items[0] matches SyntaxV::Atom(_, false, _, _)) || !(name.len() > 0 && name[0] == '?')
                        || name.len() == 1 {
                        Err(located(l, c, "metavariable occurrence must start with ?NAME"@))
                    } else {
                        match if lhs { miller_check(items, name, bs, l, c) } else { Ok(()) } {
                            Err(e) => Err(e),
                            Ok(_) => match patterns_from(s, 1, lhs, bs) {
                                Err(e) => Err(e),
                                Ok(args) => Ok(PatternV::MetaVar(name, args)),
                            },
                        }
                    },
                }
            },
            SyntaxV::Group(Delimiter::Bracket, items, l, c) => if items.len() < 2 {
                Err(located(l, c, "application '[FUNCTION ARGUMENT ...]' needs an argument"@))
            } else {
                match pattern_from(items[0], lhs, bs) {
                    Err(e) => Err(e),
                    Ok(f) => match patterns_from(s, 1, lhs, bs) {
                        Err(e) => Err(e),
                        Ok(args) => Ok(apps_v(f, args)),
                    },
                }
            },
            SyntaxV::Group(Delimiter::Paren, items, l, c) => if items.len() == 0 {
                Err(located(l, c, "empty pattern list"@))
            } else {
                match atom_spec(items[0]) {
                    Err(e) => Err(e),
                    Ok(op) => if op.len() > 0 && op[0] == '?' {
                        Err(located(line_of(items[0]), column_of(items[0]), msg_head(op)))
                    } else if op.len() > 0 && op[0] == '@' {
                        if op.len() == 1 || items.len() != 3 {
                            Err(located(l, c, "(@OP NAME PATTERN) takes a binder name and body"@))
                        } else {
                            match binder_name_spec(items[1]) {
                                Err(e) => Err(e),
                                Ok(name) => match pattern_from(items[2], lhs, bs.push(name)) {
                                    Err(e) => Err(e),
                                    Ok(b) => Ok(PatternV::Binder(op.drop_first(), Box::new(b))),
                                },
                            }
                        }
                    } else if op == "#subst"@ {
                        if items.len() != 4 {
                            Err(located(l, c, "(#subst BODY NAME REPLACEMENT) takes a body, binder, and replacement"@))
                        } else {
                            match subst_binder_spec(items[2]) {
                                Err(e) => Err(e),
                                Ok(name) => match pattern_from(items[3], lhs, bs) {
                                    Err(e) => Err(e),
                                    Ok(rp) => match pattern_from(items[1], lhs, bs.push(name)) {
                                        Err(e) => Err(e),
                                        Ok(b) => Ok(PatternV::Subst(Box::new(b), Box::new(rp))),
                                    },
                                },
                            }
                        }
                    } else if items.len() < 2 {
                        Err(located(l, c, msg_pattern_arity(op)))
                    } else {
                        match patterns_from(s, 1, lhs, bs) {
                            Err(e) => Err(e),
                            Ok(args) => Ok(apps_v(PatternV::Atom(op), args)),
                        }
                    },
                }
            },
        },
    )
}

/// The patterns read from the items of group `s` from position `k` on.
pub open spec fn patterns_from(s: SyntaxV, k: nat, lhs: bool, bs: Seq<Seq<char>>) -> Result<Seq<PatternV>, Seq<char>>
    decreases s, 0nat, s->Group_1.len() - k,
{
    if s is Group && k < s->Group_1.len() {
        match pattern_from(s->Group_1[k as int], lhs, bs) {
            Err(e) => Err(e),
            Ok(p) => match patterns_from(s, k + 1, lhs, bs) {
                Err(e) => Err(e),
                Ok(rest) => Ok(seq![p] + rest),
            },
        }
    } else {
        Ok(Seq::empty())
    }
}

/// A located error starts with `line `.
pub proof fn lemma_located_prefix(l: nat, c: nat, m: Seq<char>)
    ensures
        has_prefix(located(l, c, m), "line "@),
{
    let p = "line "@;
    let rest = crate::text::decimal(l) + seq![':'] + crate::text::decimal(c) + ": "@ + m;
    assert(located(l, c, m) =~= p + rest);
    assert((p + rest).take(p.len() as int) =~= p);
}

/// An error placed at a form starts with `line `.
pub proof fn lemma_placed_prefix(s: SyntaxV, e: Seq<char>)
    ensures
        has_prefix(locate_in(s, e), "line "@),
{
    lemma_located_prefix(line_of(s), column_of(s), e);
}

/// Every error of a pattern reading names its line.
proof fn lemma_pattern_error_prefix(s: SyntaxV, lhs: bool, bs: Seq<Seq<char>>)
    ensures
        pattern_from(s, lhs, bs) matches Err(e) ==> has_prefix(e, "line "@),
{
    match pattern_from(s, lhs, bs) {
        Err(_) => {
            assert(exists|e0: Seq<char>| pattern_from(s, lhs, bs) == Err::<PatternV, Seq<char>>(locate_in(s, e0)));
            let e0 = choose|e0: Seq<char>| pattern_from(s, lhs, bs) == Err::<PatternV, Seq<char>>(locate_in(s, e0));
            lemma_placed_prefix(s, e0);
        },
        Ok(_) => {},
    }
}

proof fn lemma_patterns_error_prefix(s: SyntaxV, k: nat, lhs: bool, bs: Seq<Seq<char>>)
    ensures
        patterns_from(s, k, lhs, bs) matches Err(e) ==> has_prefix(e, "line "@),
    decreases s->Group_1.len() - k,
{
    if s is Group && k < s->Group_1.len() {
        lemma_pattern_error_prefix(s->Group_1[k as int], lhs, bs);
        lemma_patterns_error_prefix(s, k + 1, lhs, bs);
    }
}

/// The view of a list of resolved arguments.
pub open spec fn slots_view(v: Seq<(usize, String)>) -> Seq<(nat, Seq<char>)> {
    Seq::new(v.len(), |i: int| (v[i].0 as nat, v[i].1@))
}

/// Check the arguments of a match metavariable occurrence `{name args..}`:
/// distinct pattern binders, written outer to inner.
fn check_miller(syntax: &Syntax, name: &str, binders: &Vec<String>) -> (r: Result<(), String>)
    requires
        syntax@ is Group,
    ensures
        match miller_check(syntax@->Group_1, name@, names_view(binders@), line_of(syntax@), column_of(syntax@)) {
            Ok(_) => r is Ok,
            Err(e) => r matches Err(x) && x@ == e,
        },
{
    let ghost bs = names_view(binders@);
    let items = match &syntax.kind {
        SyntaxKind::Group { delimiter: _, items } => items,
        SyntaxKind::Atom { text: _, quoted: _ } => {
            proof {
                assert(false);
            }
            return Ok(());
        },
    };
    let ghost iv = syntax@->Group_1;
    proof {
        assert(forms_view(items@) =~= iv);
    }
    let ghost whole = miller_slots(iv, 1, name@, bs, Seq::empty());
    let mut resolved: Vec<(usize, String)> = Vec::new();
    let mut k: usize = 1;
    proof {
        assert(slots_view(resolved@) =~= Seq::<(nat, Seq<char>)>::empty());
    }
    while k < items.len()
        invariant
            iv == forms_view(items@),
            iv == syntax@->Group_1,
            syntax@ is Group,
            bs == names_view(binders@),
            whole == miller_slots(iv, 1, name@, bs, Seq::empty()),
            1 <= k,
            whole == miller_slots(iv, k as nat, name@, bs, slots_view(resolved@)),
        decreases items@.len() - k,
    {
        let arg = &items[k];
        let ghost acc = slots_view(resolved@);
        proof {
            assert(iv[k as int] == arg@);
        }
        match &arg.kind {
            SyntaxKind::Atom { text, quoted } => {
                if *quoted {
                    let m = message("match metavariable '", name, "' may only be applied to bound variables");
                    return Err(arg.location.error(m.as_str()));
                }
                match resolve_binder(text.as_str(), binders.as_slice()) {
                    None => {
                        let m = message("match metavariable '", name, "' may only be applied to bound variables");
                        return Err(arg.location.error(m.as_str()));
                    },
                    Some((_, slot)) => {
                        let mut j: usize = 0;
                        let mut repeated = false;
                        while j < resolved.len()
                            invariant
                                j <= resolved@.len(),
                                acc == slots_view(resolved@),
                                repeated == (exists|jj: int| 0 <= jj < j && acc[jj].0 == slot),
                            decreases resolved@.len() - j,
                        {
                            if resolved[j].0 == slot {
                                repeated = true;
                            }
                            proof {
                                assert(acc[j as int].0 == resolved@[j as int].0);
                            }
                            j = j + 1;
                        }
                        if repeated {
                            let m = message("Miller metavariable '", name, "' repeats a pattern binder");
                            return Err(arg.location.error(m.as_str()));
                        }
                        resolved.push((slot, text.clone()));
                        proof {
                            assert(slots_view(resolved@) =~= acc.push((slot as nat, text@)));
                        }
                    },
                }
            },
            SyntaxKind::Group { delimiter: _, items: _ } => {
                let m = message("match metavariable '", name, "' may only be applied to bound variables");
                return Err(arg.location.error(m.as_str()));
            },
        }
        k = k + 1;
    }
    let ghost res = slots_view(resolved@);
    let mut increasing = true;
    let mut i: usize = 0;
    while resolved.len() > 0 && i < resolved.len() - 1
        invariant
            res == slots_view(resolved@),
            increasing == (forall|t: int| 0 <= t < i ==> #[trigger] res[t].0 < res[t + 1].0),
            i < resolved@.len() || i == 0,
        decreases resolved@.len() - i,
    {
        if resolved[i].0 >= resolved[i + 1].0 {
            increasing = false;
        }
        proof {
            assert(res[i as int].0 == resolved@[i as int].0);
            assert(res[i + 1].0 == resolved@[i + 1].0);
        }
        i = i + 1;
    }
    if increasing {
        proof {
            assert forall|t: int| 0 <= t < res.len() - 1 implies #[trigger] res[t].0 < res[t + 1].0 by {
                assert(0 <= t < i);
            }
        }
        return Ok(());
    }
    proof {
        if slots_increasing(res) {
            assert forall|t: int| 0 <= t < i implies #[trigger] res[t].0 < res[t + 1].0 by {
                assert(0 <= t < res.len() - 1);
            }
            assert(false);
        }
    }
    let mut correct = String::new();
    let ghost mut words: Seq<Seq<char>> = Seq::empty();
    let mut slot: usize = 0;
    let mut any = false;
    while slot < binders.len()
        invariant
            any == (words.len() > 0),
            res == slots_view(resolved@),
            slot <= binders@.len(),
            words == names_by_slot(res, slot as nat),
            correct@ == join_words(words),
        decreases binders@.len() - slot,
    {
        let mut j: usize = 0;
        let mut found: Option<usize> = None;
        proof {
            assert(res.skip(0) =~= res);
        }
        while j < resolved.len()
            invariant
                j <= resolved@.len(),
                res == slots_view(resolved@),
                found is None ==> slot_name(res, slot as nat) == slot_name(res.skip(j as int), slot as nat),
                found matches Some(f) ==> f < resolved@.len() && slot_name(res, slot as nat) == Some(res[f as int].1),
            decreases resolved@.len() - j,
        {
            if found.is_none() {
                proof {
                    assert(res.skip(j as int).drop_first() =~= res.skip(j + 1));
                    assert(res.skip(j as int)[0] == res[j as int]);
                }
                if resolved[j].0 == slot {
                    found = Some(j);
                }
            }
            j = j + 1;
        }
        proof {
            assert(res.skip(j as int) =~= Seq::<(nat, Seq<char>)>::empty());
        }
        match found {
            Some(f) => {
                if any {
                    push_char(&mut correct, ' ');
                }
                any = true;
                push_str(&mut correct, resolved[f].1.as_str());
                proof {
                    let w = res[f as int].1;
                    let nw = words.push(w);
                    assert(nw.drop_last() =~= words);
                    if words.len() == 0 {
                        assert(correct@ =~= join_words(nw));
                    } else {
                        assert(correct@ =~= join_words(nw));
                    }
                    assert(names_by_slot(res, (slot + 1) as nat) =~= nw);
                    words = nw;
                }
            },
            None => {
                proof {
                    assert(names_by_slot(res, (slot + 1) as nat) =~= words);
                }
            },
        }
        slot = slot + 1;
    }
    let mut m = String::new();
    push_str(&mut m, "Miller metavariable '");
    push_str(&mut m, name);
    push_str(&mut m, "' arguments are out of order; write {");
    push_str(&mut m, name);
    push_str(&mut m, " ");
    push_str(&mut m, correct.as_str());
    push_str(&mut m, "} on the match left-hand side, then permute its arguments on the rewrite right-hand side if needed");
    proof {
        assert(m@ =~= msg_out_of_order(name@, correct@));
    }
    Err(syntax.location.error(m.as_str()))
}

/// Errors of atoms and binder names name their line.
proof fn lemma_name_errors_prefix(s: SyntaxV)
    ensures
        atom_spec(s) matches Err(e) ==> has_prefix(e, "line "@),
        binder_name_spec(s) matches Err(e) ==> has_prefix(e, "line "@),
        subst_binder_spec(s) matches Err(e) ==> has_prefix(e, "line "@),
{
    match s {
        SyntaxV::Atom(t, q, l, c) => {
            lemma_located_prefix(l, c, "binder must be an unquoted name"@);
            lemma_located_prefix(l, c, "invalid binder name '"@ + t + "'"@);
        },
        SyntaxV::Group(_, _, l, c) => {
            lemma_located_prefix(l, c, "expected an atom"@);
            lemma_located_prefix(l, c, "binder must be an unquoted name"@);
        },
    }
}

/// Errors of the Miller check name their line.
proof fn lemma_miller_errors_prefix(items: Seq<SyntaxV>, k: nat, name: Seq<char>, bs: Seq<Seq<char>>, acc: Seq<(nat, Seq<char>)>)
    ensures
        miller_slots(items, k, name, bs, acc) matches Err(e) ==> has_prefix(e, "line "@),
    decreases items.len() - k,
{
    if k < items.len() {
        let a = items[k as int];
        lemma_located_prefix(line_of(a), column_of(a), msg_not_bound(name));
        lemma_located_prefix(line_of(a), column_of(a), msg_repeat(name));
        match a {
            SyntaxV::Atom(t, false, al, ac) => match resolve_spec(t, bs) {
                Some((_, slot)) => {
                    lemma_miller_errors_prefix(items, k + 1, name, bs, acc.push((slot, t)));
                },
                None => {},
            },
            _ => {},
        }
    }
}

/// The outer-variable message does not name a line.
proof fn lemma_outer_unplaced(t: Seq<char>)
    ensures
        !has_prefix(msg_outer(t), "line "@),
{
    reveal_strlit("line ");
    reveal_strlit("invalid outer-context variable '");
    let m = msg_outer(t);
    assert(m[0] == 'i');
    if has_prefix(m, "line "@) {
        assert(m.take(5)[0] == 'l');
    }
}

/// `head` applied to each of `args` in turn.
fn build_apps(head: Pattern, args: Vec<Pattern>) -> (r: Pattern)
    ensures
        r@ == apps_v(head@, patterns_view(args@)),
{
    let ghost hv = head@;
    let ghost av = patterns_view(args@);
    let _n = args.len();
    let mut application = head;
    let mut rest = args;
    let mut k: usize = 0;
    proof {
        assert(av.take(0) =~= Seq::<PatternV>::empty());
        assert(patterns_view(rest@) =~= av.skip(0));
    }
    while rest.len() > 0
        invariant
            k <= av.len(),
            av.len() <= usize::MAX,
            application@ == apps_v(hv, av.take(k as int)),
            patterns_view(rest@) == av.skip(k as int),
        decreases rest@.len(),
    {
        let ghost before = rest@;
        proof {
            assert(patterns_view(before).len() == av.skip(k as int).len());
            assert(k < av.len());
        }
        let first = rest.remove(0);
        proof {
            assert(patterns_view(before)[0] == first@);
            assert(av.skip(k as int)[0] == av[k as int]);
            assert(av.take(k + 1).drop_last() =~= av.take(k as int));
            assert forall|i: int| 0 <= i < rest@.len() implies #[trigger] patterns_view(rest@)[i] == av.skip(k + 1)[i] by {
                assert(rest@[i] == before[i + 1]);
                assert(patterns_view(before)[i + 1] == av.skip(k as int)[i + 1]);
            }
            assert(patterns_view(rest@) =~= av.skip(k + 1));
        }
        application = Pattern::App(Box::new(application), Box::new(first));
        k = k + 1;
    }
    proof {
        assert(av.skip(k as int).len() == 0);
        assert(av.take(k as int) =~= av);
    }
    application
}

/// `acc` followed by read patterns, errors passed through.
pub open spec fn prepend_patterns(acc: Seq<PatternV>, r: Result<Seq<PatternV>, Seq<char>>) -> Result<Seq<PatternV>, Seq<char>> {
    match r {
        Err(e) => Err(e),
        Ok(rest) => Ok(acc + rest),
    }
}

/// The patterns of the items of group `parent` from position `start` on.
fn read_items(parent: &Syntax, start: usize, lhs: bool, binders: &mut Vec<String>) -> (r: Result<Vec<Pattern>, String>)
    requires
        parent@ is Group,
        start <= parent@->Group_1.len(),
    ensures
        final(binders)@ == old(binders)@,
        match patterns_from(parent@, start as nat, lhs, names_view(old(binders)@)) {
            Ok(vs) => r matches Ok(ps) && patterns_view(ps@) == vs,
            Err(e) => r matches Err(x) && x@ == e,
        },
    decreases parent, 0nat,
{
    let ghost b0 = binders@;
    let ghost bs = names_view(binders@);
    let items = match &parent.kind {
        SyntaxKind::Group { delimiter: _, items } => items,
        SyntaxKind::Atom { text: _, quoted: _ } => {
            proof {
                assert(false);
            }
            return Ok(Vec::new());
        },
    };
    proof {
        assert(forms_view(items@) =~= parent@->Group_1);
    }
    let ghost whole = patterns_from(parent@, start as nat, lhs, bs);
    let mut out: Vec<Pattern> = Vec::new();
    let mut k = start;
    proof {
        assert(patterns_view(out@) =~= Seq::<PatternV>::empty());
        match whole {
            Ok(vs) => {
                assert(Seq::<PatternV>::empty() + vs =~= vs);
            },
            Err(_) => {},
        }
    }
    while k < items.len()
        invariant
            parent.kind is Group,
            parent.kind->items == *items,
            parent@ is Group,
            forms_view(items@) == parent@->Group_1,
            start <= k <= items@.len(),
            binders@ == b0,
            b0 == old(binders)@,
            bs == names_view(b0),
            whole == patterns_from(parent@, start as nat, lhs, bs),
            whole == prepend_patterns(patterns_view(out@), patterns_from(parent@, k as nat, lhs, bs)),
        decreases items@.len() - k,
    {
        proof {
            assert(decreases_to!(*parent => parent.kind));
            assert(decreases_to!(parent.kind => parent.kind->items));
            assert(decreases_to!(*items => items@));
            assert(decreases_to!(items@ => items@[k as int]));
            assert(forms_view(items@)[k as int] == items@[k as int]@);
            lemma_pattern_error_prefix(items@[k as int]@, lhs, bs);
        }
        let ghost before = patterns_view(out@);
        match read_pattern(&items[k], lhs, binders) {
            Err(e) => {
                return Err(e);
            },
            Ok(p) => {
                let ghost pv = p@;
                out.push(p);
                proof {
                    assert(patterns_view(out@) =~= before.push(pv));
                    match patterns_from(parent@, (k + 1) as nat, lhs, bs) {
                        Ok(rest) => {
                            assert(before + (seq![pv] + rest) =~= patterns_view(out@) + rest);
                        },
                        Err(_) => {},
                    }
                }
            },
        }
        k = k + 1;
    }
    proof {
        assert(patterns_view(out@) + Seq::<PatternV>::empty() =~= patterns_view(out@));
    }
    Ok(out)
}

/// Read a pattern from a form under pattern binders `binders`, innermost
/// last; `lhs` selects the match left-hand-side rules.
fn read_pattern(syntax: &Syntax, lhs: bool, binders: &mut Vec<String>) -> (r: Result<Pattern, String>)
    ensures
        final(binders)@ == old(binders)@,
        match pattern_from(syntax@, lhs, names_view(old(binders)@)) {
            Ok(v) => r matches Ok(p) && p@ == v,
            Err(e) => r matches Err(x) && x@ == e,
        },
    decreases syntax, 1nat,
{
    let ghost b0 = binders@;
    let ghost bs = names_view(binders@);
    let ghost sv = syntax@;
    match &syntax.kind {
        SyntaxKind::Atom { text, quoted } => {
            if *quoted {
                return Ok(Pattern::Atom(text.clone()));
            }
            let cs = chars_of(text.as_str());
            if cs.len() > 1 && cs[0] == '?' {
                let p = Pattern::MetaVar(text.clone(), Vec::new());
                proof {
                    assert(p@->MetaVar_1 =~= Seq::<PatternV>::empty());
                }
                return Ok(p);
            }
            match resolve_binder(text.as_str(), binders.as_slice()) {
                Some((index, _)) => {
                    return Ok(Pattern::BVar(DeBruijnIndex::new(index)));
                },
                None => {},
            }
            if cs.len() > 0 && cs[0] == '$' {
                let rest = skip_chars(cs.as_slice(), 1);
                proof {
                    assert(rest@ =~= text@.drop_first());
                }
                match parse_usize(rest.as_slice()) {
                    None => {
                        let m = message("invalid outer-context variable '", text.as_str(), "'");
                        proof {
                            lemma_outer_unplaced(text@);
                        }
                        return Err(syntax.location.error(m.as_str()));
                    },
                    Some(n) => {
                        return Ok(Pattern::FVar(DeBruijnLevel::new(n)));
                    },
                }
            }
            Ok(Pattern::Atom(text.clone()))
        },
        SyntaxKind::Group { delimiter, items } => {
            let ghost iv = sv->Group_1;
            let l = syntax.location.line;
            let c = syntax.location.column;
            proof {
                assert(forms_view(items@) =~= iv);
            }
            match delimiter {
                Delimiter::Brace => {
                    if items.len() == 0 {
                        proof {
                            lemma_located_prefix(l as nat, c as nat, "metavariable occurrence must start with ?NAME"@);
                        }
                        return Err(syntax.location.error("metavariable occurrence must start with ?NAME"));
                    }
                    proof {
                        assert(iv[0] == items@[0]@);
                        lemma_name_errors_prefix(iv[0]);
                    }
                    let name = match atom_of(&items[0]) {
                        Err(e) => {
                            return Err(e);
                        },
                        Ok(n) => n,
                    };
                    let unquoted = match &items[0].kind {
                        SyntaxKind::Atom { text: _, quoted } => !*quoted,
                        _ => false,
                    };
                    let nc = chars_of(name);
                    if !unquoted || !(nc.len() > 0 && nc[0] == '?') || nc.len() == 1 {
                        proof {
                            lemma_located_prefix(l as nat, c as nat, "metavariable occurrence must start with ?NAME"@);
                        }
                        return Err(syntax.location.error("metavariable occurrence must start with ?NAME"));
                    }
                    if lhs {
                        proof {
                            lemma_miller_errors_prefix(iv, 1, name@, bs, Seq::empty());
                            lemma_located_prefix(l as nat, c as nat, msg_out_of_order(name@, join_words(names_by_slot(
                                miller_slots(iv, 1, name@, bs, Seq::empty())->Ok_0, bs.len()))));
                        }
                        match check_miller(syntax, name, binders) {
                            Err(e) => {
                                return Err(e);
                            },
                            Ok(_) => {},
                        }
                    }
                    proof {
                        lemma_patterns_error_prefix(sv, 1, lhs, bs);
                    }
                    match read_items(syntax, 1, lhs, binders) {
                        Err(e) => {
                            return Err(e);
                        },
                        Ok(args) => {
                            let p = Pattern::MetaVar(String::from_str(name), args);
                            proof {
                                assert(p@->MetaVar_1 =~= patterns_view(args@));
                            }
                            Ok(p)
                        },
                    }
                },
                Delimiter::Bracket => {
                    if items.len() < 2 {
                        proof {
                            lemma_located_prefix(l as nat, c as nat, "application '[FUNCTION ARGUMENT ...]' needs an argument"@);
                        }
                        return Err(syntax.location.error("application '[FUNCTION ARGUMENT ...]' needs an argument"));
                    }
                    proof {
                        assert(decreases_to!(*syntax => syntax.kind));
                        assert(decreases_to!(syntax.kind => syntax.kind->items));
                        assert(decreases_to!(*items => items@));
                        assert(decreases_to!(items@ => items@[0]));
                        assert(iv[0] == items@[0]@);
                        lemma_pattern_error_prefix(iv[0], lhs, bs);
                        lemma_patterns_error_prefix(sv, 1, lhs, bs);
                    }
                    let f = match read_pattern(&items[0], lhs, binders) {
                        Err(e) => {
                            return Err(e);
                        },
                        Ok(f) => f,
                    };
                    match read_items(syntax, 1, lhs, binders) {
                        Err(e) => Err(e),
                        Ok(args) => Ok(build_apps(f, args)),
                    }
                },
                Delimiter::Paren => {
                    if items.len() == 0 {
                        proof {
                            lemma_located_prefix(l as nat, c as nat, "empty pattern list"@);
                        }
                        return Err(syntax.location.error("empty pattern list"));
                    }
                    proof {
                        assert(iv[0] == items@[0]@);
                        lemma_name_errors_prefix(iv[0]);
                    }
                    let op = match atom_of(&items[0]) {
                        Err(e) => {
                            return Err(e);
                        },
                        Ok(op) => op,
                    };
                    let oc = chars_of(op);
                    if oc.len() > 0 && oc[0] == '?' {
                        let mut m = String::new();
                        push_str(&mut m, "metavariable '");
                        push_str(&mut m, op);
                        push_str(&mut m, "' is not allowed in application head position; use {");
                        push_str(&mut m, op);
                        push_str(&mut m, " ...} for a Miller metavariable occurrence or [");
                        push_str(&mut m, op);
                        push_str(&mut m, " ...] for a curried application pattern");
                        proof {
                            assert(m@ =~= msg_head(op@));
                            lemma_located_prefix(line_of(iv[0]), column_of(iv[0]), msg_head(op@));
                        }
                        return Err(items[0].location.error(m.as_str()));
                    }
                    if oc.len() > 0 && oc[0] == '@' {
                        if oc.len() == 1 || items.len() != 3 {
                            proof {
                                lemma_located_prefix(l as nat, c as nat, "(@OP NAME PATTERN) takes a binder name and body"@);
                            }
                            return Err(syntax.location.error("(@OP NAME PATTERN) takes a binder name and body"));
                        }
                        proof {
                            assert(iv[1] == items@[1]@);
                            assert(iv[2] == items@[2]@);
                            lemma_name_errors_prefix(iv[1]);
                        }
                        let name = match binder_name(&items[1]) {
                            Err(e) => {
                                return Err(e);
                            },
                            Ok(n) => n,
                        };
                        let rest = skip_chars(oc.as_slice(), 1);
                        let op_name = string_of(rest.as_slice());
                        proof {
                            assert(op_name@ =~= op@.drop_first());
                            assert(decreases_to!(*syntax => syntax.kind));
                            assert(decreases_to!(syntax.kind => syntax.kind->items));
                            assert(decreases_to!(*items => items@));
                            assert(decreases_to!(items@ => items@[2]));
                        }
                        let bound = String::from_str(name);
                        let ghost bv = bound@;
                        binders.push(bound);
                        proof {
                            assert(names_view(binders@) =~= bs.push(bv));
                            lemma_pattern_error_prefix(iv[2], lhs, bs.push(bv));
                        }
                        let body = read_pattern(&items[2], lhs, binders);
                        binders.pop();
                        proof {
                            assert(binders@ =~= b0);
                        }
                        return match body {
                            Err(e) => Err(e),
                            Ok(b) => Ok(Pattern::Binder(op_name, Box::new(b))),
                        };
                    }
                    if same_text(op, "#subst") {
                        if items.len() != 4 {
                            proof {
                                lemma_located_prefix(l as nat, c as nat, "(#subst BODY NAME REPLACEMENT) takes a body, binder, and replacement"@);
                            }
                            return Err(syntax.location.error("(#subst BODY NAME REPLACEMENT) takes a body, binder, and replacement"));
                        }
                        proof {
                            assert(iv[1] == items@[1]@);
                            assert(iv[2] == items@[2]@);
                            assert(iv[3] == items@[3]@);
                            lemma_name_errors_prefix(iv[2]);
                        }
                        let name = match subst_binder_name(&items[2]) {
                            Err(e) => {
                                return Err(e);
                            },
                            Ok(n) => n,
                        };
                        proof {
                            assert(decreases_to!(*syntax => syntax.kind));
                            assert(decreases_to!(syntax.kind => syntax.kind->items));
                            assert(decreases_to!(*items => items@));
                            assert(decreases_to!(items@ => items@[1]));
                            assert(decreases_to!(items@ => items@[3]));
                        }
                        let bound = String::from_str(name);
                        let ghost bv = bound@;
                        binders.push(bound);
                        proof {
                            assert(names_view(binders@) =~= bs.push(bv));
                            lemma_pattern_error_prefix(iv[1], lhs, bs.push(bv));
                            lemma_pattern_error_prefix(iv[3], lhs, bs);
                        }
                        let body = read_pattern(&items[1], lhs, binders);
                        binders.pop();
                        proof {
                            assert(binders@ =~= b0);
                        }
                        let replacement = match read_pattern(&items[3], lhs, binders) {
                            Err(e) => {
                                return Err(e);
                            },
                            Ok(p) => p,
                        };
                        return match body {
                            Err(e) => Err(e),
                            Ok(b) => Ok(Pattern::Subst(Box::new(b), Box::new(replacement))),
                        };
                    }
                    if items.len() < 2 {
                        let m = message("pattern '(", op, " ...)' needs an argument");
                        proof {
                            lemma_located_prefix(l as nat, c as nat, msg_pattern_arity(op@));
                        }
                        return Err(syntax.location.error(m.as_str()));
                    }
                    proof {
                        lemma_patterns_error_prefix(sv, 1, lhs, bs);
                    }
                    match read_items(syntax, 1, lhs, binders) {
                        Err(e) => Err(e),
                        Ok(args) => Ok(build_apps(Pattern::Atom(String::from_str(op)), args)),
                    }
                },
            }
        },
    }
}

/// A pattern too tall for its height to be counted in a `usize`.
pub open spec fn msg_too_deep() -> Seq<char> {
    "pattern nests too deeply"@
}

/// A template read from a form: the right-hand side of a rewrite.
pub fn syntax_pattern(syntax: &Syntax) -> (r: Result<Pattern, String>)
    ensures
        match pattern_from(syntax@, false, Seq::empty()) {
            Err(e) => r matches Err(x) && x@ == e,
            Ok(v) => if view_height(v) < usize::MAX {
                r matches Ok(p) && p@ == v && pattern_height(p) < usize::MAX
            } else {
                r matches Err(x) && x@ == locate_in(syntax@, msg_too_deep())
            },
        },
{
    let mut binders: Vec<String> = Vec::new();
    proof {
        assert(names_view(binders@) =~= Seq::<Seq<char>>::empty());
    }
    let p = match read_pattern(syntax, false, &mut binders) {
        Err(e) => {
            return Err(e);
        },
        Ok(p) => p,
    };
    proof {
        lemma_view_height(p);
    }
    if p.height() == usize::MAX {
        return Err(syntax.locate(String::from_str("pattern nests too deeply")));
    }
    Ok(p)
}

/// A match pattern read from a form: its Miller arguments are distinct
/// pattern binders written outer to inner, and it passes the static match
/// checks of `Pattern::validate_match_pattern`.
pub fn syntax_match_pattern(syntax: &Syntax) -> (r: Result<Pattern, String>)
    ensures
        match pattern_from(syntax@, true, Seq::empty()) {
            Err(e) => r matches Err(x) && x@ == e,
            Ok(v) => if view_height(v) < usize::MAX {
                match r {
                    Ok(p) => p@ == v && pattern_height(p) < usize::MAX && match_check(p, 0, Seq::empty()) is Ok,
                    Err(x) => exists|p: Pattern|
                        #![trigger match_check(p, 0, Seq::empty())]
                        p@ == v && (match_check(p, 0, Seq::empty()) matches Err(m) && x@ == locate_in(syntax@, m)),
                }
            } else {
                r matches Err(x) && x@ == locate_in(syntax@, msg_too_deep())
            },
        },
{
    let mut binders: Vec<String> = Vec::new();
    proof {
        assert(names_view(binders@) =~= Seq::<Seq<char>>::empty());
    }
    let p = match read_pattern(syntax, true, &mut binders) {
        Err(e) => {
            return Err(e);
        },
        Ok(p) => p,
    };
    proof {
        lemma_view_height(p);
    }
    if p.height() == usize::MAX {
        return Err(syntax.locate(String::from_str("pattern nests too deeply")));
    }
    match p.validate_match_pattern() {
        Err(e) => {
            let x = syntax.locate(e);
            proof {
                assert(match_check(p, 0, Seq::empty()) matches Err(m) && x@ == locate_in(syntax@, m));
            }
            Err(x)
        },
        Ok(_) => Ok(p),
    }
}

} // verus!
