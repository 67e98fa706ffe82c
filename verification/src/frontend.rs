//! Reading terms and patterns from forms: binder names, namespaced
//! references `x@n`, outer-context variables `$n`, and the checks on each.
use vstd::prelude::*;
use crate::lexer::{Delimiter, Location, located};
use crate::parser::{Syntax, SyntaxKind, SyntaxV, forms_view};
use crate::term::{last_at, base_name, names_view, find_last_at, base_of};
use crate::text::{push_str, push_char, chars_of, string_of, skip_chars, parse_usize, usize_text, has_prefix, starts_with};

verus! {

/// Where a form starts.
pub open spec fn line_of(s: SyntaxV) -> nat {
    match s {
        SyntaxV::Atom(_, _, l, _) => l,
        SyntaxV::Group(_, _, l, _) => l,
    }
}

pub open spec fn column_of(s: SyntaxV) -> nat {
    match s {
        SyntaxV::Atom(_, _, _, c) => c,
        SyntaxV::Group(_, _, _, c) => c,
    }
}

/// An error as it stands if it already names a line, else placed at
/// `line:column`.
pub open spec fn locate_at(line: nat, column: nat, e: Seq<char>) -> Seq<char> {
    if has_prefix(e, "line "@) {
        e
    } else {
        located(line, column, e)
    }
}

/// An error placed at form `s` unless it is placed already.
pub open spec fn locate_in(s: SyntaxV, e: Seq<char>) -> Seq<char> {
    locate_at(line_of(s), column_of(s), e)
}

impl Syntax {
    /// `error` placed at this form, unless it already names a line.
    pub fn locate(&self, error: String) -> (r: String)
        ensures
            r@ == locate_in(self@, error@),
    {
        if starts_with(error.as_str(), "line ") {
            error
        } else {
            self.location.error(error.as_str())
        }
    }

    /// The items of this form if it is a group in `delimiter`.
    pub fn group(&self, delimiter: Delimiter) -> (r: Option<&[Syntax]>)
        ensures
            match self@ {
                SyntaxV::Group(d, items, _, _) => if d == delimiter {
                    r matches Some(v) && forms_view(v@) == items
                } else {
                    r is None
                },
                _ => r is None,
            },
    {
        match &self.kind {
            SyntaxKind::Group { delimiter: found, items } => {
                if *found == delimiter {
                    proof {
                        assert(forms_view(items@) =~= self@->Group_1);
                    }
                    Some(items.as_slice())
                } else {
                    None
                }
            },
            _ => None,
        }
    }
}

/// The text of an atom, or an error at a group.
pub open spec fn atom_spec(s: SyntaxV) -> Result<Seq<char>, Seq<char>> {
    match s {
        SyntaxV::Atom(t, _, _, _) => Ok(t),
        SyntaxV::Group(_, _, l, c) => Err(located(l, c, "expected an atom"@)),
    }
}

/// The text of an atom form.
pub fn atom_of(syntax: &Syntax) -> (r: Result<&str, String>)
    ensures
        match atom_spec(syntax@) {
            Ok(t) => r matches Ok(x) && x@ == t,
            Err(e) => r matches Err(x) && x@ == e,
        },
{
    match &syntax.kind {
        SyntaxKind::Atom { text, quoted: _ } => Ok(text.as_str()),
        SyntaxKind::Group { delimiter: _, items: _ } => Err(syntax.location.error("expected an atom")),
    }
}

/// `t` ends in `@n` for a number `n`.
pub open spec fn has_namespace(t: Seq<char>) -> bool {
    last_at(t) >= 0 && usize_text(t.skip(last_at(t) + 1)) is Some
}

/// The `n` of an `@n` suffix, or 0 without one.
pub open spec fn namespace_index(t: Seq<char>) -> nat {
    if has_namespace(t) {
        usize_text(t.skip(last_at(t) + 1))->Some_0
    } else {
        0
    }
}

/// Split `x@n` into `x` and `n`; any other atom stands for itself with 0.
pub fn namespaced_name(atom: &str) -> (r: (String, usize))
    ensures
        r.0@ == base_name(atom@),
        r.1 == namespace_index(atom@),
{
    let cs = chars_of(atom);
    let name = base_of(atom);
    let _n = cs.len();
    match find_last_at(&cs) {
        None => (name, 0),
        Some(p) => {
            let suffix = skip_chars(cs.as_slice(), p + 1);
            match parse_usize(suffix.as_slice()) {
                Some(n) => (name, n),
                None => (name, 0),
            }
        },
    }
}

/// Slot of the `n`-th binder named `name`, counting from the innermost.
pub open spec fn inner_slot(bs: Seq<Seq<char>>, name: Seq<char>, n: nat) -> Option<nat>
    decreases bs.len(),
{
    if bs.len() == 0 {
        None
    } else if bs.last() == name {
        if n == 0 {
            Some((bs.len() - 1) as nat)
        } else {
            inner_slot(bs.drop_last(), name, (n - 1) as nat)
        }
    } else {
        inner_slot(bs.drop_last(), name, n)
    }
}

/// `x` or `x@n` resolved among binders: its de Bruijn index and its slot
/// counted from the outermost binder.
pub open spec fn resolve_spec(atom: Seq<char>, bs: Seq<Seq<char>>) -> Option<(nat, nat)> {
    match inner_slot(bs, base_name(atom), namespace_index(atom)) {
        Some(slot) => Some(((bs.len() - 1 - slot) as nat, slot)),
        None => None,
    }
}

proof fn lemma_inner_slot_bound(bs: Seq<Seq<char>>, name: Seq<char>, n: nat)
    ensures
        inner_slot(bs, name, n) matches Some(s) ==> s < bs.len(),
    decreases bs.len(),
{
    if bs.len() > 0 {
        if bs.last() == name && n > 0 {
            lemma_inner_slot_bound(bs.drop_last(), name, (n - 1) as nat);
        } else if bs.last() != name {
            lemma_inner_slot_bound(bs.drop_last(), name, n);
        }
    }
}

/// Resolve `x` or `x@n` among binders named `x`, counting from the inside:
/// the de Bruijn index and the binder's outer-to-inner slot.
pub fn resolve_binder(atom: &str, binders: &[String]) -> (r: Option<(usize, usize)>)
    ensures
        match resolve_spec(atom@, names_view(binders@)) {
            Some((i, s)) => r matches Some((a, b)) && a == i && b == s,
            None => r is None,
        },
        r matches Some((a, b)) ==> b < binders@.len() && a + b + 1 == binders@.len(),
{
    let (name, index) = namespaced_name(atom);
    let ghost bs = names_view(binders@);
    let mut i = binders.len();
    let mut left = index;
    proof {
        assert(bs.take(i as int) =~= bs);
    }
    while i > 0
        invariant
            i <= binders@.len(),
            bs == names_view(binders@),
            inner_slot(bs, base_name(atom@), namespace_index(atom@)) == inner_slot(bs.take(i as int), name@, left as nat),
            name@ == base_name(atom@),
        decreases i,
    {
        proof {
            assert(bs.take(i as int).drop_last() =~= bs.take(i - 1));
            assert(bs.take(i as int).last() == binders@[i - 1]@);
        }
        if binders[i - 1] == name {
            if left == 0 {
                proof {
                    lemma_inner_slot_bound(bs, name@, namespace_index(atom@));
                }
                return Some((binders.len() - i, i - 1));
            }
            left = left - 1;
        }
        i = i - 1;
    }
    None
}

/// A binder's name: an unquoted atom, not empty, not starting with `?` or
/// `$`, and without an `@n` suffix.
pub open spec fn binder_name_spec(s: SyntaxV) -> Result<Seq<char>, Seq<char>> {
    match s {
        SyntaxV::Atom(t, q, l, c) => if q {
            Err(located(l, c, "binder must be an unquoted name"@))
        } else if t.len() == 0 || t[0] == '?' || t[0] == '$' || has_namespace(t) {
            Err(located(l, c, "invalid binder name '"@ + t + "'"@))
        } else {
            Ok(t)
        },
        SyntaxV::Group(_, _, l, c) => Err(located(l, c, "binder must be an unquoted name"@)),
    }
}

/// The name a form binds.
pub fn binder_name(syntax: &Syntax) -> (r: Result<&str, String>)
    ensures
        match binder_name_spec(syntax@) {
            Ok(t) => r matches Ok(x) && x@ == t,
            Err(e) => r matches Err(x) && x@ == e,
        },
{
    match &syntax.kind {
        SyntaxKind::Atom { text, quoted } => {
            if *quoted {
                return Err(syntax.location.error("binder must be an unquoted name"));
            }
            let cs = chars_of(text.as_str());
            let mut namespaced = false;
            let _n = cs.len();
            match find_last_at(&cs) {
                None => {},
                Some(p) => {
                    let suffix = skip_chars(cs.as_slice(), p + 1);
                    namespaced = parse_usize(suffix.as_slice()).is_some();
                },
            }
            if cs.len() == 0 || cs[0] == '?' || cs[0] == '$' || namespaced {
                let mut m = String::new();
                push_str(&mut m, "invalid binder name '");
                push_str(&mut m, text.as_str());
                push_str(&mut m, "'");
                proof {
                    assert(m@ =~= "invalid binder name '"@ + text@ + "'"@);
                }
                return Err(syntax.location.error(m.as_str()));
            }
            Ok(text.as_str())
        },
        SyntaxKind::Group { delimiter: _, items: _ } => Err(syntax.location.error("binder must be an unquoted name")),
    }
}

/// `$n` names an outer-context variable.
pub open spec fn outer_reference(t: Seq<char>) -> bool {
    t.len() > 0 && t[0] == '$' && usize_text(t.drop_first()) is Some
}

/// The name that `#subst` replaces: `$n`, or a binder name.
pub open spec fn subst_binder_spec(s: SyntaxV) -> Result<Seq<char>, Seq<char>> {
    match s {
        SyntaxV::Atom(t, q, _, _) => if !q && outer_reference(t) {
            Ok(t)
        } else {
            binder_name_spec(s)
        },
        _ => binder_name_spec(s),
    }
}

/// Whether an atom's text is `$n`.
fn is_outer_reference(cs: &Vec<char>) -> (r: bool)
    ensures
        r == outer_reference(cs@),
{
    if cs.len() == 0 || cs[0] != '$' {
        return false;
    }
    let rest = skip_chars(cs.as_slice(), 1);
    proof {
        assert(rest@ =~= cs@.drop_first());
    }
    parse_usize(rest.as_slice()).is_some()
}

/// The variable a `#subst` form replaces.
pub fn subst_binder_name(syntax: &Syntax) -> (r: Result<&str, String>)
    ensures
        match subst_binder_spec(syntax@) {
            Ok(t) => r matches Ok(x) && x@ == t,
            Err(e) => r matches Err(x) && x@ == e,
        },
{
    match &syntax.kind {
        SyntaxKind::Atom { text, quoted } => {
            if !*quoted {
                let cs = chars_of(text.as_str());
                if is_outer_reference(&cs) {
                    return Ok(text.as_str());
                }
            }
            binder_name(syntax)
        },
        _ => binder_name(syntax),
    }
}

} // verus!
