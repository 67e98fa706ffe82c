//! Scripts of commands over one e-graph and a list of rewrites.
use vstd::prelude::*;
use crate::lexer::{Delimiter, Location, located};
use crate::parser::{Syntax, SyntaxKind, SyntaxV, forms_view, parse_syntax, parse_text};
use crate::frontend::{line_of, column_of, atom_spec, atom_of, locate_in};
use crate::read_term::{msg_context, add_syntax_term, MAX_CONTEXT, term_cost, add_check, term_failure, term_holds, lemma_term_holds_within};
use crate::holds::{lemma_holds_within_trans, lemma_holds_within_table};
use crate::dump::dump_header;
use crate::read_pattern::{pattern_from, syntax_pattern, syntax_match_pattern, msg_too_deep};
use crate::egraph::{EGraph, lemma_extends_trans};
use crate::id::{Id, show_spec};
use crate::terms::{Pattern, PatternV, Rewrite, message, match_check, template_check, view_height};
use crate::term::{Term, TermCtx, named_text, names_view};
use crate::matching::{Subst, subst_ok};
use crate::clock::nanos_text;
use crate::text::{push_str, push_char, push_decimal, decimal, chars_of, string_of, skip_chars, take_chars, parse_usize, usize_text, has_prefix, starts_with, same_text};

verus! {

pub open spec fn msg_wrong_arity(command: Seq<char>) -> Seq<char> {
    "wrong number of arguments to '"@ + command + "'"@
}

/// The ambient context of `(COMMAND [CONTEXT] ARG..)` and the position of
/// its first argument: the context defaults to 0 when `items` holds
/// exactly `arity` arguments after the command, and otherwise must be a
/// number of at most 7 followed by `arity` arguments.
pub open spec fn context_spec(items: Seq<SyntaxV>, command: Seq<char>, arity: nat) -> Result<(nat, nat), Seq<char>> {
    if items.len() == arity + 1 {
        Ok((0, 1))
    } else if items.len() != arity + 2 {
        Err(msg_wrong_arity(command))
    } else {
        let c = items[1];
        match atom_spec(c) {
            Err(e) => Err(e),
            Ok(t) => match usize_text(t) {
                None => Err(located(line_of(c), column_of(c), command + " context must be a nonnegative integer"@)),
                Some(v) => if v > 7 {
                    Err(located(line_of(c), column_of(c), msg_context()))
                } else {
                    Ok((v, 2))
                },
            },
        }
    }
}

/// Split `(COMMAND [CONTEXT] ARG..)` into its ambient context and the
/// position of its `arity` remaining argument forms.
pub fn command_context(items: &[Syntax], command: &str, arity: usize) -> (r: Result<(usize, usize), String>)
    requires
        items@.len() >= 1,
        arity < 3,
    ensures
        match context_spec(forms_view(items@), command@, arity as nat) {
            Ok((c, start)) => r == Ok::<(usize, usize), String>((c as usize, start as usize)),
            Err(e) => r matches Err(x) && x@ == e,
        },
{
    let ghost iv = forms_view(items@);
    if items.len() == arity + 1 {
        return Ok((0, 1));
    }
    if items.len() != arity + 2 {
        let m = crate::terms::message("wrong number of arguments to '", command, "'");
        return Err(m);
    }
    let context = &items[1];
    proof {
        assert(iv[1] == context@);
    }
    let text = match atom_of(context) {
        Err(e) => {
            return Err(e);
        },
        Ok(t) => t,
    };
    let cs = chars_of(text);
    match parse_usize(cs.as_slice()) {
        None => {
            let mut m = String::new();
            push_str(&mut m, command);
            push_str(&mut m, " context must be a nonnegative integer");
            proof {
                assert(m@ =~= command@ + " context must be a nonnegative integer"@);
            }
            Err(context.location.error(m.as_str()))
        },
        Some(v) => {
            if v > crate::read_term::MAX_CONTEXT {
                Err(context.location.error("thinnings support at most 7 context variables"))
            } else {
                Ok((v, 2))
            }
        },
    }
}

/// A line's text with `; ` after each newline.
pub open spec fn comment_rest(t: Seq<char>) -> Seq<char>
    decreases t.len(),
{
    if t.len() == 0 {
        Seq::empty()
    } else {
        comment_rest(t.drop_last()) + if t.last() == '\n' {
            "\n; "@
        } else {
            seq![t.last()]
        }
    }
}

/// Every line of `t` turned into a `; ` comment.
pub open spec fn commented(t: Seq<char>) -> Seq<char> {
    "; "@ + comment_rest(t)
}

/// Turn every line of `text` into a `; ` comment.
pub fn comment_lines(text: &str) -> (r: String)
    ensures
        r@ == commented(text@),
{
    let cs = chars_of(text);
    let mut out = String::new();
    push_str(&mut out, "; ");
    let mut i: usize = 0;
    proof {
        assert(cs@.take(0) =~= Seq::<char>::empty());
    }
    while i < cs.len()
        invariant
            i <= cs@.len(),
            out@ == "; "@ + comment_rest(cs@.take(i as int)),
        decreases cs@.len() - i,
    {
        let ghost before = out@;
        if cs[i] == '\n' {
            push_str(&mut out, "\n; ");
        } else {
            push_char(&mut out, cs[i]);
        }
        proof {
            let t = cs@.take(i + 1);
            assert(t.drop_last() =~= cs@.take(i as int));
            assert(t.last() == cs@[i as int]);
            assert(out@ =~= "; "@ + comment_rest(t));
        }
        i = i + 1;
    }
    proof {
        assert(cs@.take(i as int) =~= cs@);
    }
    out
}

/// A value shown in a context: plain in the empty context, else prefixed
/// by `ctxN |-> `.
pub open spec fn in_context_spec(context: nat, value: Seq<char>) -> Seq<char> {
    if context == 0 {
        value
    } else {
        "ctx"@ + decimal(context) + " |-> "@ + value
    }
}

pub fn in_context(context: usize, value: &str) -> (r: String)
    ensures
        r@ == in_context_spec(context as nat, value@),
{
    let mut s = String::new();
    if context != 0 {
        push_str(&mut s, "ctx");
        push_decimal(&mut s, context);
        push_str(&mut s, " |-> ");
    }
    push_str(&mut s, value);
    proof {
        if context == 0 {
            assert(s@ =~= value@);
        } else {
            assert(s@ =~= "ctx"@ + decimal(context as nat) + " |-> "@ + value@);
        }
    }
    s
}

/// The first position of `c` in `s`.
pub open spec fn first_index(s: Seq<char>, c: char) -> Option<nat> {
    if exists|i: int| 0 <= i < s.len() && s[i] == c && forall|j: int| 0 <= j < i ==> s[j] != c {
        Some((choose|i: int| 0 <= i < s.len() && s[i] == c && forall|j: int| 0 <= j < i ==> s[j] != c) as nat)
    } else {
        None
    }
}

/// `a` followed by `b` at position `j` of `s`.
pub open spec fn pair_at(s: Seq<char>, j: int, a: char, b: char) -> bool {
    0 <= j && j + 1 < s.len() && s[j] == a && s[j + 1] == b
}

/// The first position where `a` is followed by `b` in `s`.
pub open spec fn first_pair(s: Seq<char>, a: char, b: char) -> Option<nat> {
    if exists|i: int| pair_at(s, i, a, b) && forall|j: int| 0 <= j < i ==> !#[trigger] pair_at(s, j, a, b) {
        Some((choose|i: int| pair_at(s, i, a, b) && forall|j: int| 0 <= j < i ==> !#[trigger] pair_at(s, j, a, b)) as nat)
    } else {
        None
    }
}

/// The line, column and message of `LINE:COLUMN: MESSAGE`: the line ends
/// at the first `:`, the column at the next `: `.
pub open spec fn location_parts(rest: Seq<char>) -> Option<(Seq<char>, Seq<char>, Seq<char>)> {
    match first_index(rest, ':') {
        None => None,
        Some(i) => {
            let rest2 = rest.skip(i + 1int);
            match first_pair(rest2, ':', ' ') {
                None => None,
                Some(j) => Some((rest.take(i as int), rest2.take(j as int), rest2.skip(j + 2int))),
            }
        },
    }
}

/// An error as a terminal shows it: `SOURCE:LINE:COLUMN: error: MESSAGE`
/// when it starts with `line LINE:COLUMN: `, else `error: ERROR`.
pub open spec fn terminal_spec(source: Seq<char>, error: Seq<char>) -> Seq<char> {
    let plain = "error: "@ + error;
    if !has_prefix(error, "line "@) {
        plain
    } else {
        match location_parts(error.skip(5)) {
            None => plain,
            Some((line, column, message)) => if usize_text(line) is None || usize_text(column) is None {
                plain
            } else {
                source + ":"@ + line + ":"@ + column + ": error: "@ + message
            },
        }
    }
}

/// The position of the first `c` in `s`.
fn find_char(s: &Vec<char>, c: char) -> (r: Option<usize>)
    ensures
        match first_index(s@, c) {
            Some(i) => r == Some(i as usize),
            None => r is None,
        },
        r matches Some(i) ==> i < s@.len(),
{
    let mut i: usize = 0;
    while i < s.len()
        invariant
            i <= s@.len(),
            forall|j: int| 0 <= j < i ==> s@[j] != c,
        decreases s@.len() - i,
    {
        if s[i] == c {
            proof {
                let w = choose|k: int| 0 <= k < s@.len() && s@[k] == c && forall|j: int| 0 <= j < k ==> s@[j] != c;
                assert(0 <= i < s@.len() && s@[i as int] == c && forall|j: int| 0 <= j < i ==> s@[j] != c);
                if w < i {
                } else if w > i {
                    assert(s@[i as int] != c);
                }
            }
            return Some(i);
        }
        i = i + 1;
    }
    None
}

/// The position of the first `a` followed by `b` in `s`.
fn find_pair(s: &Vec<char>, a: char, b: char) -> (r: Option<usize>)
    ensures
        match first_pair(s@, a, b) {
            Some(i) => r == Some(i as usize),
            None => r is None,
        },
        r matches Some(i) ==> i < s@.len(),
{
    let mut i: usize = 0;
    while i < s.len() && i + 1 < s.len()
        invariant
            i <= s@.len(),
            forall|j: int| 0 <= j < i ==> !#[trigger] pair_at(s@, j, a, b),
        decreases s@.len() - i,
    {
        if s[i] == a && s[i + 1] == b {
            proof {
                assert(pair_at(s@, i as int, a, b));
                let w = choose|k: int| pair_at(s@, k, a, b) && forall|j: int| 0 <= j < k ==> !#[trigger] pair_at(s@, j, a, b);
                if w > i {
                    assert(!pair_at(s@, i as int, a, b));
                }
            }
            return Some(i);
        }
        i = i + 1;
    }
    proof {
        if exists|k: int| pair_at(s@, k, a, b) && forall|j: int| 0 <= j < k ==> !#[trigger] pair_at(s@, j, a, b) {
            let w = choose|k: int| pair_at(s@, k, a, b) && forall|j: int| 0 <= j < k ==> !#[trigger] pair_at(s@, j, a, b);
            assert(pair_at(s@, w, a, b));
        }
    }
    None
}

/// Split `LINE:COLUMN: MESSAGE` into its three parts.
fn split_location(rest: &Vec<char>) -> (r: Option<(Vec<char>, Vec<char>, Vec<char>)>)
    ensures
        match location_parts(rest@) {
            None => r is None,
            Some((l, c, m)) => r matches Some((a, b, d)) && a@ == l && b@ == c && d@ == m,
        },
{
    let _n = rest.len();
    let i = match find_char(rest, ':') {
        None => {
            return None;
        },
        Some(i) => i,
    };
    let line = take_chars(rest.as_slice(), i);
    let rest2 = skip_chars(rest.as_slice(), i + 1);
    let _n2 = rest2.len();
    let j = match find_pair(&rest2, ':', ' ') {
        None => {
            return None;
        },
        Some(j) => j,
    };
    let column = take_chars(rest2.as_slice(), j);
    let message = skip_chars(rest2.as_slice(), j + 2);
    Some((line, column, message))
}

/// Show an error for a terminal: `SOURCE:LINE:COLUMN: error: MESSAGE` for
/// an error that starts with `line LINE:COLUMN: `, else `error: ERROR`.
pub fn terminal_error(source: &str, error: &str) -> (r: String)
    ensures
        r@ == terminal_spec(source@, error@),
{
    let mut plain = String::new();
    push_str(&mut plain, "error: ");
    push_str(&mut plain, error);
    if !starts_with(error, "line ") {
        return plain;
    }
    let cs = chars_of(error);
    proof {
        reveal_strlit("line ");
    }
    let rest = skip_chars(cs.as_slice(), 5);
    let (line, column, message) = match split_location(&rest) {
        None => {
            return plain;
        },
        Some(parts) => parts,
    };
    if parse_usize(line.as_slice()).is_none() || parse_usize(column.as_slice()).is_none() {
        return plain;
    }
    let mut s = String::new();
    push_str(&mut s, source);
    push_char(&mut s, ':');
    push_str(&mut s, string_of(line.as_slice()).as_str());
    push_char(&mut s, ':');
    push_str(&mut s, string_of(column.as_slice()).as_str());
    push_str(&mut s, ": error: ");
    push_str(&mut s, string_of(message.as_slice()).as_str());
    proof {
        assert(s@ =~= source@ + ":"@ + line@ + ":"@ + column@ + ": error: "@ + message@) by {
            reveal_strlit(":");
        }
    }
    s
}

/// The text of an extracted term, or a placeholder when there is none.
fn show_extracted(eg: &mut EGraph, id: &Id) -> (r: String)
    requires
        old(eg).wf(),
        old(eg).valid(*id),
    ensures
        final(eg).wf(),
        old(eg).extends(*final(eg)),
        r@ == "<no finite term>"@ || exists|t: Term| r@ == #[trigger] named_text(t, id.ctx_spec(), Seq::empty(), Seq::empty()),
        old(eg).holds_some_leaf(*id) && final(eg).rebuilt()
            ==> exists|t: Term| r@ == #[trigger] named_text(t, id.ctx_spec(), Seq::empty(), Seq::empty()),
{
    match eg.extract(id) {
        None => String::from_str("<no finite term>"),
        Some(t) => {
            let named = t.display();
            let text = named.to_string();
            proof {
                assert(names_view(named.root_binders@) =~= Seq::<Seq<char>>::empty());
                assert(text@ == named_text(t.t, id.ctx_spec(), Seq::empty(), Seq::empty()));
            }
            text
        },
    }
}

/// The class of `id` holds the term of an `insert` command, in the
/// command's context.
pub open spec fn term_inserted(g: EGraph, items: Seq<SyntaxV>, id: Id) -> bool {
    context_spec(items, "insert"@, 1) matches Ok((c, start))
        && g.valid(id) && term_holds(g, id, items[start as int], c, Seq::empty())
}

/// The classes of `a` and `b` hold the two terms of a two-term command,
/// in the command's context.
pub open spec fn pair_held(g: EGraph, items: Seq<SyntaxV>, command: Seq<char>, a: Id, b: Id) -> bool {
    context_spec(items, command, 2) matches Ok((c, start))
        && g.valid(a) && g.valid(b)
        && term_holds(g, a, items[start as int], c, Seq::empty())
        && term_holds(g, b, items[start + 1int], c, Seq::empty())
}

/// The text of a binding whose last `extra` variables are the formal
/// parameters of a metavariable: `mlam`, generated names for them, and the
/// term with those names.
fn miller_text(term: &TermCtx, extra: usize) -> (r: String)
    requires
        extra <= term.scope,
    ensures
        extra == 0 ==> r@ == named_text(term.t, term.scope as nat, Seq::empty(), Seq::empty()),
        extra > 0 ==> has_prefix(r@, "mlam"@),
{
    if extra == 0 {
        let named = term.display();
        let text = named.to_string();
        proof {
            assert(names_view(named.root_binders@) =~= Seq::<Seq<char>>::empty());
        }
        return text;
    }
    let mut names: Vec<String> = Vec::new();
    let mut s = String::from_str("mlam");
    let ghost head = s@;
    proof {
        reveal_strlit("mlam");
        assert(s@.take(head.len() as int) =~= head);
    }
    let mut i: usize = 0;
    while i < extra
        invariant
            i <= extra,
            names@.len() == i,
            has_prefix(s@, "mlam"@),
            head == "mlam"@,
        decreases extra - i,
    {
        let mut name = String::from_str("x");
        push_decimal(&mut name, i);
        let ghost before = s@;
        push_char(&mut s, ' ');
        push_str(&mut s, name.as_str());
        proof {
            assert(s@.take(head.len() as int) =~= before.take(head.len() as int));
        }
        names.push(name);
        i = i + 1;
    }
    let body = term.display_with_root_binders(names.as_slice()).to_string();
    let ghost before = s@;
    push_char(&mut s, ' ');
    push_str(&mut s, body.as_str());
    proof {
        assert(s@.take(head.len() as int) =~= before.take(head.len() as int));
    }
    s
}

/// Why a one-term command fails with `x`: its context is malformed, or
/// its term cannot be added.
pub open spec fn one_term_failure(items: Seq<SyntaxV>, command: Seq<char>, x: Seq<char>) -> bool {
    match context_spec(items, command, 1) {
        Err(e) => x == e,
        Ok((c, start)) => term_failure(add_check(items[start as int], c), x),
    }
}

/// Why a two-term command fails with `x`: its context is malformed, or
/// one of its terms cannot be added.
pub open spec fn two_term_failure(items: Seq<SyntaxV>, command: Seq<char>, x: Seq<char>) -> bool {
    match context_spec(items, command, 2) {
        Err(e) => x == e,
        Ok((c, start)) => term_failure(add_check(items[start as int], c), x)
            || term_failure(add_check(items[start + 1int], c), x),
    }
}

/// `(insert [CONTEXT] TERM)`: add a term and name its class.
fn cmd_insert(eg: &mut EGraph, items: &[Syntax]) -> (r: Result<String, String>)
    requires
        old(eg).wf(),
        2 <= items@.len() <= 3,
    ensures
        final(eg).wf(),
        old(eg).extends(*final(eg)),
        r matches Ok(line) ==> exists|id: Id| term_inserted(*final(eg), forms_view(items@), id)
            && line@ == "inserted "@ + show_spec(id.lift_spec()@, id.raw_spec()),
        context_spec(forms_view(items@), "insert"@, 1) matches Err(e) ==> r matches Err(x) && x@ == e,
        context_spec(forms_view(items@), "insert"@, 1) matches Ok((c, start)) ==> (term_cost(items@[start as int]@) is Some
            && add_check(items@[start as int]@, c) is Ok && old(eg).room(term_cost(items@[start as int]@)->Some_0) ==> r is Ok),
        r matches Err(x) ==> one_term_failure(forms_view(items@), "insert"@, x@),
{
    let (ctx, start) = match command_context(items, "insert", 1) {
        Err(e) => {
            return Err(e);
        },
        Ok(c) => c,
    };
    proof {
        assert(forms_view(items@)[start as int] == items@[start as int]@);
    }
    let id = match add_syntax_term(eg, &items[start], ctx) {
        Err(e) => {
            return Err(e);
        },
        Ok(id) => id,
    };
    proof {
        assert(forms_view(items@)[start as int] == items@[start as int]@);
        assert(term_inserted(*eg, forms_view(items@), id));
    }
    let mut line = String::from_str("inserted ");
    let shown = id.show();
    push_str(&mut line, shown.as_str());
    Ok(line)
}

/// The room two terms, at `start` and after it, can take.
pub open spec fn pair_cost(iv: Seq<SyntaxV>, start: nat) -> Option<nat> {
    match (term_cost(iv[start as int]), term_cost(iv[start + 1int])) {
        (Some(a), Some(b)) => Some(a + b),
        _ => None,
    }
}

/// Add two terms of one `(COMMAND [CONTEXT] LEFT RIGHT)` form.
fn add_pair(eg: &mut EGraph, items: &[Syntax], command: &str) -> (r: Result<(Id, Id), String>)
    requires
        old(eg).wf(),
        3 <= items@.len() <= 4,
    ensures
        final(eg).wf(),
        old(eg).extends(*final(eg)),
        r matches Ok((a, b)) ==> final(eg).valid(a) && final(eg).valid(b) && a.ctx_spec() == b.ctx_spec()
            && pair_held(*final(eg), forms_view(items@), command@, a, b),
        context_spec(forms_view(items@), command@, 2) matches Err(e) ==> r matches Err(x) && x@ == e,
        context_spec(forms_view(items@), command@, 2) matches Ok((c, start)) ==> (pair_cost(forms_view(items@), start) is Some
            && add_check(items@[start as int]@, c) is Ok && add_check(items@[start + 1int]@, c) is Ok
            && old(eg).room(pair_cost(forms_view(items@), start)->Some_0) ==> r is Ok),
        context_spec(forms_view(items@), command@, 2) matches Ok((c, start)) ==> (pair_cost(forms_view(items@), start) is Some
            && r is Ok ==> final(eg).room_used(*old(eg), pair_cost(forms_view(items@), start)->Some_0)),
        r matches Err(x) ==> two_term_failure(forms_view(items@), command@, x@),
{
    let (ctx, start) = match command_context(items, command, 2) {
        Err(e) => {
            return Err(e);
        },
        Ok(c) => c,
    };
    proof {
        assert(forms_view(items@)[start as int] == items@[start as int]@);
        assert(forms_view(items@)[start + 1] == items@[start + 1]@);
    }
    let ghost e0 = *eg;
    let left = match add_syntax_term(eg, &items[start], ctx) {
        Err(e) => {
            return Err(e);
        },
        Ok(id) => id,
    };
    let ghost e1 = *eg;
    let right = match add_syntax_term(eg, &items[start + 1], ctx) {
        Err(e) => {
            proof {
                lemma_extends_trans(e0, e1, *eg);
            }
            return Err(e);
        },
        Ok(id) => id,
    };
    proof {
        lemma_extends_trans(e0, e1, *eg);
        lemma_term_holds_within(e1, *eg, left, items@[start as int]@, ctx as nat, Seq::empty());
        assert(forms_view(items@)[start as int] == items@[start as int]@);
        assert(forms_view(items@)[start + 1] == items@[start + 1]@);
    }
    Ok((left, right))
}

/// `(union [CONTEXT] LEFT RIGHT)`: merge the classes of two terms.
fn cmd_union(eg: &mut EGraph, items: &[Syntax]) -> (r: Result<String, String>)
    requires
        old(eg).wf(),
        3 <= items@.len() <= 4,
    ensures
        final(eg).wf(),
        old(eg).extends(*final(eg)),
        r matches Ok(line) ==> line@ == "unioned"@ || line@ == "already equivalent"@,
        r is Ok ==> exists|a: Id, b: Id| #[trigger] pair_held(*final(eg), forms_view(items@), "union"@, a, b)
            && final(eg).equiv(a, b),
        context_spec(forms_view(items@), "union"@, 2) matches Err(e) ==> r matches Err(x) && x@ == e,
        context_spec(forms_view(items@), "union"@, 2) matches Ok((c, start)) ==> (pair_cost(forms_view(items@), start) is Some
            && add_check(items@[start as int]@, c) is Ok && add_check(items@[start + 1int]@, c) is Ok
            && old(eg).room(pair_cost(forms_view(items@), start)->Some_0 + 2) ==> r is Ok),
        r matches Err(x) ==> two_term_failure(forms_view(items@), "union"@, x@),
{
    let ghost e0 = *eg;
    let (left, right) = match add_pair(eg, items, "union") {
        Err(e) => {
            return Err(e);
        },
        Ok(p) => p,
    };
    if !eg.has_room(2) {
        let m = String::from_str("exhausted 24-bit raw IDs");
        proof {
            reveal_strlit("exhausted 24-bit raw IDs");
            assert(crate::read_term::full_error(m@));
            let (c, start) = context_spec(forms_view(items@), "union"@, 2)->Ok_0;
            assert(term_failure(add_check(forms_view(items@)[start as int], c), m@));
        }
        return Err(m);
    }
    let ghost e1 = *eg;
    let changed = eg.union(&left, &right);
    let ghost e2 = *eg;
    eg.rebuild();
    proof {
        lemma_extends_trans(e0, e1, e2);
        lemma_extends_trans(e0, e2, *eg);
        lemma_holds_within_table(e1, e2);
        lemma_holds_within_trans(e1, e2, *eg);
        let v = forms_view(items@);
        let (c, start) = context_spec(v, "union"@, 2)->Ok_0;
        lemma_term_holds_within(e1, *eg, left, v[start as int], c, Seq::empty());
        lemma_term_holds_within(e1, *eg, right, v[start + 1int], c, Seq::empty());
        assert(e1.extends(*eg));
        assert(pair_held(*eg, v, "union"@, left, right));
    }
    if changed {
        Ok(String::from_str("unioned"))
    } else {
        Ok(String::from_str("already equivalent"))
    }
}

/// `(guard [CONTEXT] LEFT RIGHT)`: fail unless two terms are equivalent.
fn cmd_guard(eg: &mut EGraph, items: &[Syntax]) -> (r: Result<String, String>)
    requires
        old(eg).wf(),
        3 <= items@.len() <= 4,
    ensures
        final(eg).wf(),
        old(eg).extends(*final(eg)),
        r matches Ok(line) ==> line@ == "guard passed"@,
        r is Ok ==> exists|a: Id, b: Id| #[trigger] pair_held(*final(eg), forms_view(items@), "guard"@, a, b)
            && final(eg).equiv(a, b),
        context_spec(forms_view(items@), "guard"@, 2) matches Err(e) ==> r matches Err(x) && x@ == e,
        context_spec(forms_view(items@), "guard"@, 2) matches Ok((c, start)) ==> (pair_cost(forms_view(items@), start) is Some
            && add_check(items@[start as int]@, c) is Ok && add_check(items@[start + 1int]@, c) is Ok
            && old(eg).room(pair_cost(forms_view(items@), start)->Some_0) ==> (r is Ok || (r matches Err(m)
            && has_prefix(m@, "guard failed: "@)))),
        r matches Err(x) ==> two_term_failure(forms_view(items@), "guard"@, x@) || has_prefix(x@, "guard failed: "@),
{
    let ghost e0 = *eg;
    let (left, right) = match add_pair(eg, items, "guard") {
        Err(e) => {
            return Err(e);
        },
        Ok(p) => p,
    };
    let ghost e1 = *eg;
    eg.rebuild();
    proof {
        lemma_extends_trans(e0, e1, *eg);
        let v = forms_view(items@);
        let (c, start) = context_spec(v, "guard"@, 2)->Ok_0;
        lemma_term_holds_within(e1, *eg, left, v[start as int], c, Seq::empty());
        lemma_term_holds_within(e1, *eg, right, v[start + 1int], c, Seq::empty());
        assert(pair_held(*eg, v, "guard"@, left, right));
    }
    if !eg.equivalent(&left, &right) {
        let ghost e2 = *eg;
        let l = show_extracted(eg, &left);
        let ghost e3 = *eg;
        let rt = show_extracted(eg, &right);
        proof {
            lemma_extends_trans(e0, e2, e3);
            lemma_extends_trans(e0, e3, *eg);
        }
        let mut m = String::from_str("guard failed: ");
        let ghost head = m@;
        push_str(&mut m, l.as_str());
        push_str(&mut m, " != ");
        push_str(&mut m, rt.as_str());
        proof {
            assert(m@.take(head.len() as int) =~= head);
        }
        return Err(m);
    }
    Ok(String::from_str("guard passed"))
}

/// The view of a list of rewrites: each rule's two sides.
pub open spec fn rules_view(v: Seq<Rewrite>) -> Seq<(PatternV, PatternV)> {
    Seq::new(v.len(), |i: int| (v[i].lhs_spec()@, v[i].rhs_spec()@))
}

/// A pattern `p` read from form `s` into the view `v` fails the match-side
/// checks with the message `x`, placed at `s`.
pub open spec fn match_side_fails(s: SyntaxV, v: PatternV, x: Seq<char>) -> bool {
    exists|p: Pattern|
        #![trigger match_check(p, 0, Seq::empty())]
        p@ == v && (match_check(p, 0, Seq::empty()) matches Err(m) && x == locate_in(s, m))
}

/// A rule from `lv` to `rv` fails its checks with the message `x`: its
/// left side is no match pattern, or its right side no template for it.
pub open spec fn rule_check_fails(lv: PatternV, rv: PatternV, x: Seq<char>) -> bool {
    exists|lp: Pattern, rp: Pattern|
        #![trigger lp@, rp@]
        lp@ == lv && rp@ == rv && match match_check(lp, 0, Seq::empty()) {
            Err(m) => x == m,
            Ok(ar) => template_check(rp, 0, ar) matches Err(m) && x == m,
        }
}

/// Why reading a rule from the forms `l` and `r` fails with `x`: a side
/// that does not read as a pattern, one nested too deeply, a left side
/// (or, for a rule each way, either side) that is no match pattern, or a
/// side that is no template for the other.
pub open spec fn rule_failure(l: SyntaxV, r: SyntaxV, both: bool, x: Seq<char>) -> bool {
    match pattern_from(l, true, Seq::empty()) {
        Err(e) => x == e,
        Ok(lv) => (view_height(lv) >= usize::MAX && x == locate_in(l, msg_too_deep())) || match_side_fails(l, lv, x)
            || match pattern_from(r, both, Seq::empty()) {
            Err(e) => x == e,
            Ok(rv) => (view_height(rv) >= usize::MAX && x == locate_in(r, msg_too_deep())) || (both && match_side_fails(r, rv, x))
                || rule_check_fails(lv, rv, x) || (both && rule_check_fails(rv, lv, x)),
        },
    }
}

/// `(rewrite LHS RHS)`: add a rule.
fn cmd_rewrite(rules: &mut Vec<Rewrite>, items: &[Syntax]) -> (r: Result<String, String>)
    requires
        items@.len() == 3,
    ensures
        r is Err ==> final(rules)@ == old(rules)@,
        r matches Err(x) ==> rule_failure(items@[1]@, items@[2]@, false, x@),
        r matches Ok(line) ==> {
            &&& pattern_from(items@[1]@, true, Seq::empty()) matches Ok(lv)
            &&& pattern_from(items@[2]@, false, Seq::empty()) matches Ok(rv)
            &&& rules_view(final(rules)@) == rules_view(old(rules)@).push((lv, rv))
            &&& line@ == "rewrite "@ + decimal(final(rules)@.len()) + " added"@
        },
{
    let lhs = match syntax_match_pattern(&items[1]) {
        Err(e) => {
            return Err(e);
        },
        Ok(p) => p,
    };
    let rhs = match syntax_pattern(&items[2]) {
        Err(e) => {
            return Err(e);
        },
        Ok(p) => p,
    };
    let rule = match Rewrite::new(lhs, rhs) {
        Err(e) => {
            proof {
                assert(lhs@ == lhs@ && rhs@ == rhs@);
                assert(rule_check_fails(lhs@, rhs@, e@));
            }
            return Err(e);
        },
        Ok(w) => w,
    };
    let ghost before = rules@;
    rules.push(rule);
    proof {
        assert(rules_view(rules@) =~= rules_view(before).push((lhs@, rhs@)));
    }
    let mut line = String::from_str("rewrite ");
    push_decimal(&mut line, rules.len());
    push_str(&mut line, " added");
    Ok(line)
}

/// `(birewrite LHS RHS)`: add a rule each way. Both sides must be match
/// patterns, and each a template for the other.
fn cmd_birewrite(rules: &mut Vec<Rewrite>, items: &[Syntax]) -> (r: Result<String, String>)
    requires
        items@.len() == 3,
    ensures
        r is Err ==> final(rules)@ == old(rules)@,
        r matches Err(x) ==> rule_failure(items@[1]@, items@[2]@, true, x@),
        r matches Ok(line) ==> {
            &&& pattern_from(items@[1]@, true, Seq::empty()) matches Ok(lv)
            &&& pattern_from(items@[2]@, true, Seq::empty()) matches Ok(rv)
            &&& rules_view(final(rules)@) == rules_view(old(rules)@).push((lv, rv)).push((rv, lv))
            &&& line@ == "birewrite "@ + decimal((final(rules)@.len() - 1) as nat) + " and "@ + decimal(final(rules)@.len()) + " added"@
        },
{
    let left = match syntax_match_pattern(&items[1]) {
        Err(e) => {
            return Err(e);
        },
        Ok(p) => p,
    };
    let right = match syntax_match_pattern(&items[2]) {
        Err(e) => {
            return Err(e);
        },
        Ok(p) => p,
    };
    let left2 = left.duplicate();
    let right2 = right.duplicate();
    proof {
        crate::terms::lemma_same_view_checks(left, left2);
        crate::terms::lemma_same_view_checks(right, right2);
    }
    let forward = match Rewrite::new(left2, right2) {
        Err(e) => {
            proof {
                assert(left2@ == left@ && right2@ == right@);
                assert(rule_check_fails(left@, right@, e@));
            }
            return Err(e);
        },
        Ok(w) => w,
    };
    let backward = match Rewrite::new(right, left) {
        Err(e) => {
            proof {
                assert(right@ == right@ && left@ == left@);
                assert(rule_check_fails(right@, left@, e@));
            }
            return Err(e);
        },
        Ok(w) => w,
    };
    let ghost before = rules@;
    rules.push(forward);
    rules.push(backward);
    proof {
        assert(rules_view(rules@) =~= rules_view(before).push((left@, right@)).push((right@, left@)));
    }
    let n = rules.len();
    let mut line = String::from_str("birewrite ");
    push_decimal(&mut line, n - 1);
    push_str(&mut line, " and ");
    push_decimal(&mut line, n);
    push_str(&mut line, " added");
    Ok(line)
}

/// Why `(match PATTERN)` fails with `x`, the pattern read from `s`: the
/// pattern does not read, nests too deeply or fails the match checks, or a
/// binding has no term to show.
pub open spec fn match_refused(s: SyntaxV, x: Seq<char>) -> bool {
    match pattern_from(s, true, Seq::empty()) {
        Err(e) => x == e,
        Ok(v) => (view_height(v) >= usize::MAX && x == locate_in(s, msg_too_deep())) || match_side_fails(s, v, x)
            || has_prefix(x, "binding "@),
    }
}

/// One line per match of a pattern: each binding extracted and shown in
/// the context it extends.
fn cmd_match(eg: &mut EGraph, items: &[Syntax]) -> (r: Result<Vec<String>, String>)
    requires
        old(eg).wf(),
        items@.len() == 2,
    ensures
        final(eg).wf(),
        old(eg).extends(*final(eg)),
        pattern_from(items@[1]@, true, Seq::empty()) matches Err(e) ==> r matches Err(x) && x@ == e,
        r matches Ok(lines) ==> match_lines(lines@),
        r matches Err(x) ==> match_refused(items@[1]@, x@),
{
    let pattern = match syntax_match_pattern(&items[1]) {
        Err(e) => {
            return Err(e);
        },
        Ok(p) => p,
    };
    proof {
        reveal_strlit("binding ");
    }
    let matches = eg.search(&pattern);
    let mut lines: Vec<String> = Vec::new();
    if matches.len() == 0 {
        lines.push(String::from_str("no matches"));
        proof {
            reveal_strlit("no matches");
        }
        return Ok(lines);
    }
    let mut index: usize = 0;
    while index < matches.len()
        invariant
            eg.wf(),
            old(eg).extends(*eg),
            index <= matches@.len(),
            matches@.len() >= 1,
            items@.len() == 2,
            pattern_from(items@[1]@, true, Seq::empty()) is Ok,
            forall|i: int| 0 <= i < matches@.len() ==> subst_ok(*eg, (#[trigger] matches@[i]).1@),
            lines@.len() == index,
            forall|i: int| 0 <= i < lines@.len() ==> has_prefix(#[trigger] lines@[i]@, "match "@ + decimal((i + 1) as nat) + " ctx"@),
        decreases matches@.len() - index,
    {
        let context = matches[index].0;
        let bindings = matches[index].1.bindings();
        let mut rendered = String::new();
        let mut k: usize = 0;
        while k < bindings.len()
            invariant
                eg.wf(),
                old(eg).extends(*eg),
                index < matches@.len(),
                bindings@.len() == matches@[index as int].1@.len(),
                forall|i: int| 0 <= i < bindings@.len() ==> (#[trigger] bindings@[i]).1 == matches@[index as int].1@[i].1,
                forall|i: int| 0 <= i < matches@.len() ==> subst_ok(*eg, (#[trigger] matches@[i]).1@),
                k <= bindings@.len(),
                items@.len() == 2,
                pattern_from(items@[1]@, true, Seq::empty()) is Ok,
            decreases bindings@.len() - k,
        {
            let name = &bindings[k].0;
            let binding = bindings[k].1;
            proof {
                assert(subst_ok(*eg, matches@[index as int].1@));
                assert(eg.valid(matches@[index as int].1@[k as int].1));
            }
            let extra = match binding.ctx().checked_sub(context) {
                None => {
                    let m = message("binding ", name.as_str(), " has an invalid context");
                    proof {
                        reveal_strlit("binding ");
                        assert(m@.take(8) =~= "binding "@);
                    }
                    return Err(m);
                },
                Some(x) => x,
            };
            let ghost before = *eg;
            let term = match eg.extract(&binding) {
                None => {
                    let m = message("binding ", name.as_str(), " has no finite extractable term");
                    proof {
                        reveal_strlit("binding ");
                        assert(m@.take(8) =~= "binding "@);
                    }
                    return Err(m);
                },
                Some(t) => t,
            };
            proof {
                lemma_extends_trans(*old(eg), before, *eg);
                assert forall|i: int| 0 <= i < matches@.len() implies subst_ok(*eg, (#[trigger] matches@[i]).1@) by {
                    assert(subst_ok(before, matches@[i].1@));
                    assert forall|j: int| 0 <= j < matches@[i].1@.len() implies #[trigger] eg.valid(matches@[i].1@[j].1) by {
                        assert(before.valid(matches@[i].1@[j].1));
                    }
                }
            }
            if k > 0 {
                push_str(&mut rendered, ", ");
            }
            push_str(&mut rendered, name.as_str());
            push_str(&mut rendered, " = ");
            let placed = miller_text(&term, extra);
            push_str(&mut rendered, placed.as_str());
            k = k + 1;
        }
        let mut braced = String::from_str("{");
        push_str(&mut braced, rendered.as_str());
        push_str(&mut braced, "}");
        let mut line = String::from_str("match ");
        push_decimal(&mut line, index + 1);
        push_str(&mut line, " ctx");
        let ghost head = line@;
        push_decimal(&mut line, context);
        push_str(&mut line, " |-> ");
        push_str(&mut line, braced.as_str());
        proof {
            assert(head == "match "@ + decimal((index + 1) as nat) + " ctx"@);
            assert(line@.take(head.len() as int) =~= head);
        }
        let ghost before = lines@;
        lines.push(line);
        proof {
            assert forall|i: int| 0 <= i < lines@.len() implies has_prefix(#[trigger] lines@[i]@, "match "@ + decimal((i + 1) as nat) + " ctx"@) by {
                if i < before.len() {
                    assert(lines@[i] == before[i]);
                }
            }
        }
        index = index + 1;
    }
    Ok(lines)
}

/// The first line of a `run` report: rounds and unions of the run, then
/// the classes and e-nodes of the e-graph it left.
pub open spec fn run_report(rounds: nat, unions: nat, classes: nat, nodes: nat) -> Seq<char> {
    "ran "@ + decimal(rounds) + " rounds, "@ + decimal(unions) + " unions: "@ + decimal(classes) + " classes, "@
        + decimal(nodes) + " e-nodes"@
}

/// `line` reports a run that left the e-graph `g`.
pub open spec fn run_reported(line: Seq<char>, g: EGraph) -> bool {
    exists|rounds: nat, unions: nat| #[trigger] has_prefix(line, run_report(rounds, unions, g.class_count_spec(), g.node_len()))
}

pub open spec fn msg_run_limit() -> Seq<char> {
    "run limit must be a nonnegative integer"@
}

/// `(run LIMIT)`: apply the rules for at most `LIMIT` rounds and report.
fn cmd_run(eg: &mut EGraph, rules: &Vec<Rewrite>, items: &[Syntax]) -> (r: Result<String, String>)
    requires
        old(eg).wf(),
        items@.len() == 2,
    ensures
        final(eg).wf(),
        old(eg).extends(*final(eg)),
        match atom_spec(items@[1]@) {
            Err(e) => r matches Err(x) && x@ == e,
            Ok(t) => match usize_text(t) {
                None => r matches Err(x) && x@ == located(line_of(items@[1]@), column_of(items@[1]@), msg_run_limit()),
                Some(_) => r is Ok,
            },
        },
        r matches Ok(line) ==> run_reported(line@, *final(eg)),
{
    let text = match atom_of(&items[1]) {
        Err(e) => {
            return Err(e);
        },
        Ok(t) => t,
    };
    let cs = chars_of(text);
    let limit = match parse_usize(cs.as_slice()) {
        None => {
            proof {
                assert(line_of(items@[1]@) == items@[1].location.line);
                assert(column_of(items@[1]@) == items@[1].location.column);
            }
            return Err(items[1].location.error("run limit must be a nonnegative integer"));
        },
        Some(n) => n,
    };
    let stats = eg.run(rules.as_slice(), limit);
    let mut line = String::from_str("ran ");
    let ghost start = line@;
    push_decimal(&mut line, stats.rounds);
    push_str(&mut line, " rounds, ");
    push_decimal(&mut line, stats.unions);
    push_str(&mut line, " unions: ");
    let classes = eg.class_count();
    push_decimal(&mut line, classes);
    push_str(&mut line, " classes, ");
    let nodes = eg.node_count();
    push_decimal(&mut line, nodes);
    push_str(&mut line, " e-nodes");
    let ghost report = line@;
    proof {
        reveal_strlit("ran ");
        reveal_strlit(" rounds, ");
        reveal_strlit(" unions: ");
        reveal_strlit(" classes, ");
        reveal_strlit(" e-nodes");
        assert(report =~= run_report(stats.rounds as nat, stats.unions as nat, eg.class_count_spec(), eg.node_len()));
    }
    push_str(&mut line, "\nmatch ");
    push_str(&mut line, nanos_text(stats.match_time).as_str());
    push_str(&mut line, ", apply ");
    push_str(&mut line, nanos_text(stats.apply_time).as_str());
    push_str(&mut line, ", rebuild ");
    push_str(&mut line, nanos_text(stats.rebuild_time).as_str());
    proof {
        assert(line@.take(start.len() as int) =~= start);
        assert(line@.take(report.len() as int) =~= report);
        assert(has_prefix(line@, run_report(stats.rounds as nat, stats.unions as nat, eg.class_count_spec(), eg.node_len())));
        assert(run_reported(line@, *eg));
    }
    Ok(line)
}

/// `(extract [CONTEXT] TERM)`: the best term of a class, with names.
fn cmd_extract(eg: &mut EGraph, items: &[Syntax]) -> (r: Result<String, String>)
    requires
        old(eg).wf(),
        2 <= items@.len() <= 3,
    ensures
        final(eg).wf(),
        old(eg).extends(*final(eg)),
        context_spec(forms_view(items@), "extract"@, 1) matches Err(e) ==> r matches Err(x) && x@ == e,
        context_spec(forms_view(items@), "extract"@, 1) matches Ok((c, start)) ==> (r matches Err(x) ==> (
            term_failure(add_check(items@[start as int]@, c), x@) || x@ == "class has no finite extractable term"@)),
        context_spec(forms_view(items@), "extract"@, 1) matches Ok((c, start)) ==> (r matches Ok(line)
            ==> exists|t: Term| line@ == #[trigger] named_text(t, c, Seq::empty(), Seq::empty())),
{
    let (ctx, start) = match command_context(items, "extract", 1) {
        Err(e) => {
            return Err(e);
        },
        Ok(c) => c,
    };
    let ghost e0 = *eg;
    let id = match add_syntax_term(eg, &items[start], ctx) {
        Err(e) => {
            return Err(e);
        },
        Ok(id) => id,
    };
    let ghost e1 = *eg;
    let result = eg.extract(&id);
    proof {
        lemma_extends_trans(e0, e1, *eg);
    }
    match result {
        None => Err(String::from_str("class has no finite extractable term")),
        Some(t) => {
            let named = t.display();
            let text = named.to_string();
            proof {
                assert(names_view(named.root_binders@) =~= Seq::<Seq<char>>::empty());
                assert(text@ == named_text(t.t, t.scope as nat, Seq::empty(), Seq::empty()));
            }
            Ok(text)
        },
    }
}

/// The views of a list of output lines.
pub open spec fn lines_view(v: Seq<String>) -> Seq<Seq<char>> {
    Seq::new(v.len(), |i: int| v[i]@)
}

pub open spec fn msg_unknown(command: Seq<char>) -> Seq<char> {
    "unknown command '"@ + command + "'"@
}

/// The items of a command form and its name, or why it is none: a
/// command is a non-empty parenthesized list headed by an atom.
pub open spec fn command_head(form: SyntaxV, index: nat) -> Result<(Seq<SyntaxV>, Seq<char>), Seq<char>> {
    match form {
        SyntaxV::Group(Delimiter::Paren, items, _, _) => if items.len() == 0 {
            Err("command "@ + decimal(index + 1) + " is empty"@)
        } else {
            match atom_spec(items[0]) {
                Err(e) => Err(e),
                Ok(c) => Ok((items, c)),
            }
        },
        _ => Err("command "@ + decimal(index + 1) + " must be a list"@),
    }
}

/// The names of the commands.
pub open spec fn known_command(c: Seq<char>) -> bool {
    ||| c == "reset"@
    ||| c == "insert"@
    ||| c == "union"@
    ||| c == "guard"@
    ||| c == "rewrite"@
    ||| c == "birewrite"@
    ||| c == "match"@
    ||| c == "run"@
    ||| c == "echo"@
    ||| c == "fail"@
    ||| c == "print-egraph"@
    ||| c == "extract"@
}

/// A command's form holds `n` items, its name included, as the command
/// takes them.
pub open spec fn arity_fits(c: Seq<char>, n: nat) -> bool {
    if c == "reset"@ || c == "print-egraph"@ {
        n == 1
    } else if c == "insert"@ || c == "extract"@ {
        n == 2 || n == 3
    } else if c == "union"@ || c == "guard"@ {
        n == 3 || n == 4
    } else if c == "rewrite"@ || c == "birewrite"@ {
        n == 3
    } else {
        n == 2
    }
}

/// Output lines as they are appended: commented or as they stand.
pub open spec fn shown_lines(lines: Seq<String>, comment: bool) -> Seq<Seq<char>> {
    Seq::new(lines.len(), |j: int| if comment { commented(lines[j]@) } else { lines[j]@ })
}

/// Append `lines` to `output`, each turned into a comment if `comment`.
fn append_lines(output: &mut Vec<String>, lines: &Vec<String>, comment: bool)
    ensures
        lines_view(final(output)@) == lines_view(old(output)@) + shown_lines(lines@, comment),
{
    let ghost out0 = lines_view(output@);
    let mut i: usize = 0;
    proof {
        assert(out0 + shown_lines(lines@.take(0), comment) =~= out0);
    }
    while i < lines.len()
        invariant
            i <= lines@.len(),
            out0 == lines_view(old(output)@),
            lines_view(output@) == out0 + shown_lines(lines@.take(i as int), comment),
        decreases lines@.len() - i,
    {
        let line = if comment {
            comment_lines(lines[i].as_str())
        } else {
            lines[i].clone()
        };
        let ghost before = output@;
        output.push(line);
        proof {
            assert(output@ == before.push(line));
            assert(lines_view(before).len() == before.len());
            assert(shown_lines(lines@.take(i as int), comment).len() == i);
            assert(before.len() == out0.len() + i);
            let t = lines@.take(i + 1);
            assert(t[i as int] == lines@[i as int]);
            assert(lines_view(before) == out0 + shown_lines(lines@.take(i as int), comment));
            assert forall|j: int| 0 <= j < out0.len() + i + 1 implies #[trigger] lines_view(output@)[j] == (out0 + shown_lines(t, comment))[j] by {
                if j < out0.len() + i {
                    assert(output@[j] == before[j]);
                    assert(lines_view(before)[j] == (out0 + shown_lines(lines@.take(i as int), comment))[j]);
                    if j >= out0.len() {
                        assert(t[j - out0.len()] == lines@.take(i as int)[j - out0.len()]);
                    }
                } else {
                    assert(output@[j] == line);
                }
            }
            assert(lines_view(output@) =~= out0 + shown_lines(t, comment));
        }
        i = i + 1;
    }
    proof {
        assert(lines@.take(i as int) =~= lines@);
    }
}

/// The items of a command form.
pub open spec fn head_items(form: SyntaxV, index: nat) -> Seq<SyntaxV> {
    command_head(form, index)->Ok_0.0
}

/// The name of a command form.
pub open spec fn head_name(form: SyntaxV, index: nat) -> Seq<char> {
    command_head(form, index)->Ok_0.1
}

/// A command form is `(name ...)` with `n` items, its name included.
pub open spec fn is_command(form: SyntaxV, index: nat, name: Seq<char>, n: nat) -> bool {
    command_head(form, index) is Ok && head_name(form, index) == name && head_items(form, index).len() == n
}

/// A command form names no command.
pub open spec fn unknown(form: SyntaxV, index: nat) -> bool {
    command_head(form, index) is Ok && !known_command(head_name(form, index))
}

/// A command form holds the wrong number of items for its command.
pub open spec fn misapplied(form: SyntaxV, index: nat) -> bool {
    command_head(form, index) is Ok && known_command(head_name(form, index)) && !arity_fits(
        head_name(form, index),
        head_items(form, index).len(),
    )
}

/// What `(echo VALUE)` does: report the atom's text, or fail as reading it
/// fails.
pub open spec fn echo_result(value: SyntaxV, r: Result<(), String>, out0: Seq<Seq<char>>, out1: Seq<Seq<char>>) -> bool {
    match atom_spec(value) {
        Err(e) => r matches Err(x) && x@ == e,
        Ok(t) => r is Ok && out1 == out0.push(commented(t)),
    }
}

/// What a successful `(rewrite LHS RHS)` does: the rule read from its two
/// sides goes last, and its number is reported.
pub open spec fn rewrite_added(items: Seq<SyntaxV>, rules0: Seq<(PatternV, PatternV)>, rules1: Seq<(PatternV, PatternV)>, out0: Seq<Seq<char>>, out1: Seq<Seq<char>>) -> bool {
    &&& pattern_from(items[1], true, Seq::empty()) matches Ok(lv)
    &&& pattern_from(items[2], false, Seq::empty()) matches Ok(rv)
    &&& rules1 == rules0.push((lv, rv))
    &&& out1 == out0.push(commented("rewrite "@ + decimal(rules1.len()) + " added"@))
}

/// What a successful `(birewrite LHS RHS)` does: the rule read from its
/// two sides, then its reverse, go last, and their numbers are reported.
pub open spec fn birewrite_added(items: Seq<SyntaxV>, rules0: Seq<(PatternV, PatternV)>, rules1: Seq<(PatternV, PatternV)>, out0: Seq<Seq<char>>, out1: Seq<Seq<char>>) -> bool {
    &&& pattern_from(items[1], true, Seq::empty()) matches Ok(lv)
    &&& pattern_from(items[2], true, Seq::empty()) matches Ok(rv)
    &&& rules1 == rules0.push((lv, rv)).push((rv, lv))
    &&& out1 == out0.push(commented("birewrite "@ + decimal((rules1.len() - 1) as nat) + " and "@ + decimal(rules1.len()) + " added"@))
}

/// The report lines of a `match`: "no matches", or one numbered line per
/// match.
pub open spec fn match_lines(lines: Seq<String>) -> bool {
    lines.len() >= 1 && ((lines.len() == 1 && lines[0]@ == "no matches"@)
        || forall|i: int| 0 <= i < lines.len() ==> has_prefix(#[trigger] lines[i]@, "match "@ + decimal((i + 1) as nat) + " ctx"@))
}

/// What a command that succeeded did, command by command: the e-graph
/// `g0` became `g1`, the rules `r0` became `r1`, and the output `o0`
/// became `o1`, which extends it by the command's reports.
pub open spec fn command_ok(
    form: SyntaxV,
    index: nat,
    g0: EGraph,
    g1: EGraph,
    r0: Seq<(PatternV, PatternV)>,
    r1: Seq<(PatternV, PatternV)>,
    o0: Seq<Seq<char>>,
    o1: Seq<Seq<char>>,
) -> bool {
    let items = head_items(form, index);
    let name = head_name(form, index);
    let n = items.len();
    &&& command_head(form, index) is Ok
    &&& g1.wf()
    &&& o0.len() <= o1.len() && o1.take(o0.len() as int) == o0
    &&& name == "reset"@ ==> n == 1 && g1.len() == 0 && r1.len() == 0 && o1 == o0.push(commented("reset"@))
    &&& name != "reset"@ ==> g0.extends(g1)
    &&& name == "insert"@ ==> r1 == r0 && exists|id: Id| #[trigger] term_inserted(g1, items, id)
        && o1 == o0.push(commented("inserted "@ + show_spec(id.lift_spec()@, id.raw_spec())))
    &&& name == "union"@ ==> r1 == r0 && exists|a: Id, b: Id| #[trigger] pair_held(g1, items, "union"@, a, b)
        && g1.equiv(a, b) && (o1 == o0.push(commented("unioned"@)) || o1 == o0.push(commented("already equivalent"@)))
    &&& name == "guard"@ ==> r1 == r0 && exists|a: Id, b: Id| #[trigger] pair_held(g1, items, "guard"@, a, b)
        && g1.equiv(a, b) && o1 == o0.push(commented("guard passed"@))
    &&& name == "rewrite"@ ==> rewrite_added(items, r0, r1, o0, o1)
    &&& name == "birewrite"@ ==> birewrite_added(items, r0, r1, o0, o1)
    &&& name == "match"@ ==> r1 == r0 && exists|v: Seq<String>| match_lines(v) && o1 == o0 + #[trigger] shown_lines(v, true)
    &&& name == "run"@ ==> r1 == r0 && exists|line: Seq<char>| run_reported(line, g1) && o1 == o0.push(#[trigger] commented(line))
    &&& name == "echo"@ ==> g1 == g0 && r1 == r0 && (atom_spec(items[1]) matches Ok(t) && o1 == o0.push(commented(t)))
    &&& name == "fail"@ ==> g1 == g0 && r1 == r0 && exists|e: Seq<char>| #[trigger] command_refused(items[1], index, e)
        && o1 == o0.push(commented("failed as expected: "@ + e))
    &&& name == "print-egraph"@ ==> r1 == r0 && exists|d: Seq<char>, g: EGraph| g0.extends(g) && g.extends(g1)
        && #[trigger] has_prefix(d, dump_header(g.class_count_spec(), g.node_len())) && o1 == o0.push(commented(d))
    &&& name == "extract"@ ==> r1 == r0 && (context_spec(items, "extract"@, 1) matches Ok((c, start))
        && exists|t: Term| o1 == o0.push(#[trigger] named_text(t, c, Seq::empty(), Seq::empty())))
}

/// Why the command `form`, the `index`-th of its script, fails with `e`:
/// it is no command, names none, has the wrong number of items, or meets
/// a failure of its own.
pub open spec fn command_refused(form: SyntaxV, index: nat, e: Seq<char>) -> bool {
    match command_head(form, index) {
        Err(h) => e == h,
        Ok((items, name)) => if !known_command(name) {
            e == msg_unknown(name)
        } else if !arity_fits(name, items.len()) {
            e == msg_wrong_arity(name)
        } else if name == "insert"@ {
            one_term_failure(items, name, e)
        } else if name == "extract"@ {
            one_term_failure(items, name, e) || e == "class has no finite extractable term"@
        } else if name == "union"@ {
            two_term_failure(items, name, e)
        } else if name == "guard"@ {
            two_term_failure(items, name, e) || has_prefix(e, "guard failed: "@)
        } else if name == "rewrite"@ {
            rule_failure(items[1], items[2], false, e)
        } else if name == "birewrite"@ {
            rule_failure(items[1], items[2], true, e)
        } else if name == "match"@ {
            match_refused(items[1], e)
        } else if name == "run"@ {
            match atom_spec(items[1]) {
                Err(a) => e == a,
                Ok(t) => usize_text(t) is None && e == located(line_of(items[1]), column_of(items[1]), msg_run_limit()),
            }
        } else if name == "echo"@ {
            atom_spec(items[1]) matches Err(a) && e == a
        } else if name == "fail"@ {
            e == "wrapped command succeeded"@
        } else {
            false
        }
    }
}

/// `(insert [CONTEXT] TERM)` whose term can be added to `g`.
pub open spec fn insert_owed(items: Seq<SyntaxV>, g: EGraph) -> bool {
    context_spec(items, "insert"@, 1) matches Ok((c, start)) && term_cost(items[start as int]) matches Some(k)
        && add_check(items[start as int], c) is Ok && g.room(k)
}

/// `(union [CONTEXT] LEFT RIGHT)` whose terms can be added to `g` and
/// merged.
pub open spec fn union_owed(items: Seq<SyntaxV>, g: EGraph) -> bool {
    context_spec(items, "union"@, 2) matches Ok((c, start)) && pair_cost(items, start) matches Some(k)
        && add_check(items[start as int], c) is Ok && add_check(items[start + 1int], c) is Ok && g.room(k + 2)
}

/// The command `form` succeeds on the e-graph `g`, whatever the rules: a
/// `reset` or `print-egraph`; an `insert` or `union` whose terms read and
/// fit; a `run` whose limit reads; an `echo` of an atom.
pub open spec fn command_owed(form: SyntaxV, index: nat, g: EGraph) -> bool {
    command_head(form, index) matches Ok((items, name)) && known_command(name) && arity_fits(name, items.len()) && {
        ||| name == "reset"@
        ||| name == "print-egraph"@
        ||| name == "insert"@ && insert_owed(items, g)
        ||| name == "union"@ && union_owed(items, g)
        ||| name == "run"@ && (atom_spec(items[1]) matches Ok(t) && usize_text(t) is Some)
        ||| name == "echo"@ && atom_spec(items[1]) is Ok
    }
}

/// A `run` command that succeeded reports, after its rounds and unions,
/// the number of classes and the number of e-nodes of the e-graph it left,
/// in that order.
pub proof fn law_run_reports_counts(
    form: SyntaxV,
    index: nat,
    g0: EGraph,
    g1: EGraph,
    r0: Seq<(PatternV, PatternV)>,
    r1: Seq<(PatternV, PatternV)>,
    o0: Seq<Seq<char>>,
    o1: Seq<Seq<char>>,
)
    requires
        command_ok(form, index, g0, g1, r0, r1, o0, o1),
        head_name(form, index) == "run"@,
    ensures
        exists|line: Seq<char>, rounds: nat, unions: nat|
            #![trigger commented(line), run_report(rounds, unions, g1.class_count_spec(), g1.node_len())]
            o1 == o0.push(commented(line)) && has_prefix(line, run_report(rounds, unions, g1.class_count_spec(), g1.node_len())),
{
    let line = choose|line: Seq<char>| run_reported(line, g1) && o1 == o0.push(#[trigger] commented(line));
    let (rounds, unions) = choose|rounds: nat, unions: nat| #[trigger] has_prefix(line, run_report(rounds, unions, g1.class_count_spec(), g1.node_len()));
    assert(o1 == o0.push(commented(line)) && has_prefix(line, run_report(rounds, unions, g1.class_count_spec(), g1.node_len())));
}

/// Command names of equal length differ.
proof fn lemma_names_differ()
    ensures
        "union"@ != "reset"@,
        "guard"@ != "reset"@,
        "guard"@ != "union"@,
        "match"@ != "reset"@,
        "match"@ != "union"@,
        "match"@ != "guard"@,
        "rewrite"@ != "extract"@,
        "echo"@ != "fail"@,
{
    reveal_strlit("reset");
    reveal_strlit("union");
    reveal_strlit("guard");
    reveal_strlit("match");
    reveal_strlit("rewrite");
    reveal_strlit("extract");
    reveal_strlit("echo");
    reveal_strlit("fail");
    assert("union"@[0] != "reset"@[0]);
    assert("guard"@[0] != "reset"@[0]);
    assert("guard"@[0] != "union"@[0]);
    assert("match"@[0] != "reset"@[0]);
    assert("match"@[0] != "union"@[0]);
    assert("match"@[0] != "guard"@[0]);
    assert("rewrite"@[0] != "extract"@[0]);
    assert("echo"@[0] != "fail"@[0]);
}

/// One appended line.
proof fn lemma_one_line(lines: Seq<String>, comment: bool)
    requires
        lines.len() == 1,
    ensures
        shown_lines(lines, comment) == seq![if comment { commented(lines[0]@) } else { lines[0]@ }],
{
    assert(shown_lines(lines, comment) =~= seq![if comment { commented(lines[0]@) } else { lines[0]@ }]);
}

/// Copies of a list of rules.
fn duplicate_rules(rules: &Vec<Rewrite>) -> (r: Vec<Rewrite>)
    ensures
        rules_view(r@) == rules_view(rules@),
{
    let mut out: Vec<Rewrite> = Vec::new();
    let mut i: usize = 0;
    while i < rules.len()
        invariant
            i <= rules@.len(),
            rules_view(out@) == rules_view(rules@.take(i as int)),
        decreases rules@.len() - i,
    {
        let d = rules[i].duplicate();
        let ghost before = out@;
        out.push(d);
        proof {
            let t = rules@.take(i + 1);
            assert(rules_view(before) == rules_view(rules@.take(i as int)));
            assert(rules_view(before).len() == before.len());
            assert(rules_view(rules@.take(i as int)).len() == i);
            assert(out@ == before.push(d));
            assert forall|j: int| 0 <= j < i + 1 implies #[trigger] rules_view(out@)[j] == rules_view(t)[j] by {
                if j < i {
                    assert(out@[j] == before[j]);
                    assert(t[j] == rules@.take(i as int)[j]);
                    assert(rules_view(before)[j] == rules_view(rules@.take(i as int))[j]);
                } else {
                    assert(out@[j] == d);
                    assert(t[j] == rules@[i as int]);
                }
            }
            assert(rules_view(out@) =~= rules_view(t));
        }
        i = i + 1;
    }
    proof {
        assert(rules@.take(i as int) =~= rules@);
    }
    out
}

/// Run one command form, the `command_index`-th of its script, over the
/// e-graph and rules, appending what it reports to `output`. Reports are
/// `; ` comments, except the term that `extract` prints. A failing command
/// appends nothing and leaves the rules as they were.
pub fn run_command(
    form: &Syntax,
    command_index: usize,
    eg: &mut EGraph,
    rules: &mut Vec<Rewrite>,
    output: &mut Vec<String>,
) -> (r: Result<(), String>)
    requires
        old(eg).wf(),
        command_index < usize::MAX,
    ensures
        final(eg).wf(),
        r is Err ==> lines_view(final(output)@) == lines_view(old(output)@) && final(rules)@ == old(rules)@,
        r is Ok ==> old(output)@.len() <= final(output)@.len()
            && lines_view(final(output)@).take(old(output)@.len() as int) == lines_view(old(output)@),
        command_head(form@, command_index as nat) matches Err(e) ==> r matches Err(x) && x@ == e,
        command_head(form@, command_index as nat) is Err ==> *final(eg) == *old(eg),
        unknown(form@, command_index as nat) ==> (r matches Err(x) && x@ == msg_unknown(head_name(form@, command_index as nat))),
        unknown(form@, command_index as nat) ==> *final(eg) == *old(eg),
        misapplied(form@, command_index as nat) ==> (r matches Err(x) && x@ == msg_wrong_arity(head_name(form@, command_index as nat))),
        misapplied(form@, command_index as nat) ==> *final(eg) == *old(eg),
        is_command(form@, command_index as nat, "reset"@, 1) ==> r is Ok && final(eg).len() == 0 && final(rules)@.len() == 0
            && lines_view(final(output)@) == lines_view(old(output)@).push(commented("reset"@)),
        !is_command(form@, command_index as nat, "reset"@, 1) ==> old(eg).extends(*final(eg)),
        is_command(form@, command_index as nat, "echo"@, 2) ==> *final(eg) == *old(eg) && final(rules)@ == old(rules)@
            && echo_result(head_items(form@, command_index as nat)[1], r, lines_view(old(output)@), lines_view(final(output)@)),
        is_command(form@, command_index as nat, "fail"@, 2) ==> *final(eg) == *old(eg) && final(rules)@ == old(rules)@,
        is_command(form@, command_index as nat, "fail"@, 2) ==> (r matches Err(x) ==> x@ == "wrapped command succeeded"@),
        is_command(form@, command_index as nat, "fail"@, 2) && r is Ok ==> exists|e: Seq<char>|
            #[trigger] command_refused(head_items(form@, command_index as nat)[1], command_index as nat, e)
            && lines_view(final(output)@) == lines_view(old(output)@).push(commented("failed as expected: "@ + e)),
        r matches Err(x) ==> command_refused(form@, command_index as nat, x@),
        command_owed(form@, command_index as nat, *old(eg)) ==> r is Ok,
        r is Ok ==> command_ok(form@, command_index as nat, *old(eg), *final(eg), rules_view(old(rules)@),
            rules_view(final(rules)@), lines_view(old(output)@), lines_view(final(output)@)),
        is_command(form@, command_index as nat, "rewrite"@, 3) && r is Ok ==> rewrite_added(
            head_items(form@, command_index as nat),
            rules_view(old(rules)@),
            rules_view(final(rules)@),
            lines_view(old(output)@),
            lines_view(final(output)@),
        ),
    decreases form,
{
    proof {
        reveal_strlit("reset");
        reveal_strlit("insert");
        reveal_strlit("union");
        reveal_strlit("guard");
        reveal_strlit("rewrite");
        reveal_strlit("birewrite");
        reveal_strlit("match");
        reveal_strlit("run");
        reveal_strlit("echo");
        reveal_strlit("fail");
        reveal_strlit("print-egraph");
        reveal_strlit("extract");
        lemma_names_differ();
    }
    let ghost fv = form@;
    let mut number = String::from_str("command ");
    push_decimal(&mut number, command_index + 1);
    let items = match &form.kind {
        SyntaxKind::Group { delimiter: Delimiter::Paren, items } => items,
        _ => {
            push_str(&mut number, " must be a list");
            return Err(number);
        },
    };
    proof {
        assert(forms_view(items@) =~= fv->Group_1);
    }
    if items.len() == 0 {
        push_str(&mut number, " is empty");
        return Err(number);
    }
    proof {
        assert(fv->Group_1[0] == items@[0]@);
    }
    let command = match atom_of(&items[0]) {
        Err(e) => {
            return Err(e);
        },
        Ok(c) => c,
    };
    let n = items.len();
    proof {
        assert(command_head(fv, command_index as nat) == Ok::<(Seq<SyntaxV>, Seq<char>), Seq<char>>((fv->Group_1, command@)));
        assert(head_name(fv, command_index as nat) == command@);
        assert(head_items(fv, command_index as nat).len() == n);
    }
    let ghost e0 = *eg;
    let ghost r0 = rules@;
    let mut lines: Vec<String> = Vec::new();
    let mut comment = true;
    if same_text(command, "reset") && n == 1 {
        *eg = EGraph::new();
        rules.clear();
        lines.push(String::from_str("reset"));
    } else if same_text(command, "insert") && (n == 2 || n == 3) {
        match cmd_insert(eg, items.as_slice()) {
            Err(e) => {
                return Err(e);
            },
            Ok(line) => lines.push(line),
        }
    } else if same_text(command, "union") && (n == 3 || n == 4) {
        match cmd_union(eg, items.as_slice()) {
            Err(e) => {
                return Err(e);
            },
            Ok(line) => lines.push(line),
        }
    } else if same_text(command, "guard") && (n == 3 || n == 4) {
        match cmd_guard(eg, items.as_slice()) {
            Err(e) => {
                return Err(e);
            },
            Ok(line) => lines.push(line),
        }
    } else if same_text(command, "rewrite") && n == 3 {
        proof {
            assert(fv->Group_1[1] == items@[1]@);
            assert(fv->Group_1[2] == items@[2]@);
        }
        match cmd_rewrite(rules, items.as_slice()) {
            Err(e) => {
                return Err(e);
            },
            Ok(line) => {
                let ghost lv = line@;
                lines.push(line);
                proof {
                    assert(lines@.len() == 1 && lines@[0]@ == lv);
                }
            },
        }
    } else if same_text(command, "birewrite") && n == 3 {
        match cmd_birewrite(rules, items.as_slice()) {
            Err(e) => {
                return Err(e);
            },
            Ok(line) => lines.push(line),
        }
    } else if same_text(command, "match") && n == 2 {
        match cmd_match(eg, items.as_slice()) {
            Err(e) => {
                return Err(e);
            },
            Ok(found) => {
                lines = found;
            },
        }
    } else if same_text(command, "run") && n == 2 {
        match cmd_run(eg, rules, items.as_slice()) {
            Err(e) => {
                return Err(e);
            },
            Ok(line) => lines.push(line),
        }
    } else if same_text(command, "echo") && n == 2 {
        proof {
            assert(fv->Group_1[1] == items@[1]@);
        }
        match atom_of(&items[1]) {
            Err(e) => {
                return Err(e);
            },
            Ok(t) => {
                lines.push(String::from_str(t));
                proof {
                    assert(lines@.len() == 1 && lines@[0]@ == t@);
                }
            },
        }
    } else if same_text(command, "fail") && n == 2 {
        let mut trial_eg = eg.duplicate();
        let mut trial_rules = duplicate_rules(rules);
        let mut trial_output: Vec<String> = Vec::new();
        proof {
            assert(decreases_to!(*form => form.kind));
            assert(decreases_to!(form.kind => form.kind->items));
            assert(decreases_to!(*items => items@));
            assert(decreases_to!(items@ => items@[1]));
        }
        match run_command(&items[1], command_index, &mut trial_eg, &mut trial_rules, &mut trial_output) {
            Ok(()) => {
                return Err(String::from_str("wrapped command succeeded"));
            },
            Err(e) => {
                let mut m = String::from_str("failed as expected: ");
                push_str(&mut m, e.as_str());
                lines.push(m);
            },
        }
    } else if same_text(command, "print-egraph") && n == 1 {
        lines.push(eg.dump());
    } else if same_text(command, "extract") && (n == 2 || n == 3) {
        match cmd_extract(eg, items.as_slice()) {
            Err(e) => {
                return Err(e);
            },
            Ok(line) => lines.push(line),
        }
        comment = false;
    } else if same_text(command, "reset") || same_text(command, "insert") || same_text(command, "union")
        || same_text(command, "guard") || same_text(command, "rewrite") || same_text(command, "birewrite")
        || same_text(command, "match") || same_text(command, "run") || same_text(command, "echo")
        || same_text(command, "fail") || same_text(command, "print-egraph") || same_text(command, "extract") {
        return Err(message("wrong number of arguments to '", command, "'"));
    } else {
        return Err(message("unknown command '", command, "'"));
    }
    let ghost out0 = lines_view(output@);
    proof {
        assert(out0 == lines_view(old(output)@));
        assert(out0.len() == old(output)@.len());
    }
    append_lines(output, &lines, comment);
    proof {
        assert(lines_view(output@).len() == output@.len());
        assert(lines_view(output@).take(out0.len() as int) =~= out0);
        if lines@.len() == 1 {
            lemma_one_line(lines@, comment);
            assert(lines_view(output@) == out0.push(if comment { commented(lines@[0]@) } else { lines@[0]@ }));
        }
    }
    Ok(())
}

/// The e-graphs `gs`, rules `rs` and outputs `os` are the states a run of
/// `forms` passes through, each command succeeding, from an empty e-graph,
/// no rules and no output.
pub open spec fn script_steps(
    forms: Seq<SyntaxV>,
    gs: Seq<EGraph>,
    rs: Seq<Seq<(PatternV, PatternV)>>,
    os: Seq<Seq<Seq<char>>>,
) -> bool {
    &&& gs.len() == forms.len() + 1 && rs.len() == forms.len() + 1 && os.len() == forms.len() + 1
    &&& gs[0].len() == 0 && gs[0].node_len() == 0 && rs[0].len() == 0 && os[0].len() == 0
    &&& forall|i: int| 0 <= i < forms.len() ==> #[trigger] command_ok(forms[i], i as nat, gs[i], gs[i + 1], rs[i], rs[i + 1], os[i], os[i + 1])
}

/// The e-graphs `gs`, rules `rs` and outputs `os` are the states a run of
/// `forms` passes through in its first `k` commands, each succeeding, from
/// an empty e-graph, no rules and no output.
pub open spec fn script_prefix(
    forms: Seq<SyntaxV>,
    k: nat,
    gs: Seq<EGraph>,
    rs: Seq<Seq<(PatternV, PatternV)>>,
    os: Seq<Seq<Seq<char>>>,
) -> bool {
    &&& k <= forms.len()
    &&& gs.len() == k + 1 && rs.len() == k + 1 && os.len() == k + 1
    &&& gs[0].len() == 0 && gs[0].node_len() == 0 && gs[0].symbols_len() == 0 && rs[0].len() == 0 && os[0].len() == 0
    &&& forall|i: int| 0 <= i < k ==> #[trigger] command_ok(forms[i], i as nat, gs[i], gs[i + 1], rs[i], rs[i + 1], os[i], os[i + 1])
}

/// A run of `forms` fails with `x`: some command, reached with every
/// command before it succeeding, refuses with a message that `x` places at
/// it, and its success was not owed in the state it was reached in.
pub open spec fn script_refused(forms: Seq<SyntaxV>, x: Seq<char>) -> bool {
    exists|k: nat, gs: Seq<EGraph>, rs: Seq<Seq<(PatternV, PatternV)>>, os: Seq<Seq<Seq<char>>>, e: Seq<char>|
        #![trigger script_prefix(forms, k, gs, rs, os), command_refused(forms[k as int], k, e)]
        script_prefix(forms, k, gs, rs, os) && k < forms.len() && command_refused(forms[k as int], k, e)
            && !command_owed(forms[k as int], k, gs[k as int]) && x == locate_in(forms[k as int], e)
}

/// `out` is the output of running every form of `forms` in order, each
/// command succeeding.
pub open spec fn script_output(forms: Seq<SyntaxV>, out: Seq<Seq<char>>) -> bool {
    exists|gs: Seq<EGraph>, rs: Seq<Seq<(PatternV, PatternV)>>, os: Seq<Seq<Seq<char>>>|
        #[trigger] script_steps(forms, gs, rs, os) && os[forms.len() as int] == out
}

/// Run a script: parse its forms and run each as a command over one
/// e-graph and one list of rules, starting empty. The result is every
/// report, in order, or the first error, placed at the line and column of
/// the command that failed unless it names a line already.
pub fn run_script(input: &str) -> (r: Result<Vec<String>, String>)
    requires
        input@.len() < usize::MAX,
    ensures
        parse_text(input@) matches Err(e) ==> r matches Err(x) && x@ == e,
        parse_text(input@) == Ok::<Seq<SyntaxV>, Seq<char>>(Seq::empty()) ==> (r matches Ok(v) && v@.len() == 0),
        parse_text(input@) is Ok && r is Err ==> has_prefix(r->Err_0@, "line "@),
        r matches Ok(v) ==> parse_text(input@) matches Ok(forms) && script_output(forms, lines_view(v@)),
        parse_text(input@) matches Ok(forms) ==> (r matches Err(x) ==> script_refused(forms, x@)),
{
    let forms = match parse_syntax(input) {
        Err(e) => {
            return Err(e);
        },
        Ok(f) => f,
    };
    let mut eg = EGraph::new();
    let mut rules: Vec<Rewrite> = Vec::new();
    let mut output: Vec<String> = Vec::new();
    let ghost fv = forms_view(forms@);
    let ghost mut gs: Seq<EGraph> = seq![eg];
    let ghost mut rs: Seq<Seq<(PatternV, PatternV)>> = seq![rules_view(rules@)];
    let ghost mut os: Seq<Seq<Seq<char>>> = seq![lines_view(output@)];
    proof {
        assert(lines_view(output@) =~= Seq::<Seq<char>>::empty());
        assert(rules_view(rules@) =~= Seq::<(PatternV, PatternV)>::empty());
    }
    let mut i: usize = 0;
    while i < forms.len()
        invariant
            eg.wf(),
            i <= forms@.len(),
            fv == forms_view(forms@),
            parse_text(input@) == Ok::<Seq<SyntaxV>, Seq<char>>(fv),
            i == 0 ==> output@.len() == 0,
            gs.len() == i + 1 && rs.len() == i + 1 && os.len() == i + 1,
            gs[0].len() == 0 && gs[0].node_len() == 0 && gs[0].symbols_len() == 0 && rs[0].len() == 0 && os[0].len() == 0,
            gs[i as int] == eg && rs[i as int] == rules_view(rules@) && os[i as int] == lines_view(output@),
            forall|k: int| 0 <= k < i ==> #[trigger] command_ok(fv[k], k as nat, gs[k], gs[k + 1], rs[k], rs[k + 1], os[k], os[k + 1]),
        decreases forms@.len() - i,
    {
        let ghost before = output@.len();
        proof {
            assert(fv.len() > 0);
            assert(gs[i as int] == eg);
        }
        match run_command(&forms[i], i, &mut eg, &mut rules, &mut output) {
            Err(e) => {
                let placed = forms[i].locate(e);
                proof {
                    crate::read_pattern::lemma_placed_prefix(forms@[i as int]@, e@);
                    assert(fv[i as int] == forms@[i as int]@);
                    assert(script_prefix(fv, i as nat, gs, rs, os));
                    assert(command_refused(fv[i as int], i as nat, e@));
                    assert(!command_owed(fv[i as int], i as nat, gs[i as int]));
                    assert(placed@ == locate_in(fv[i as int], e@));
                    assert(i < fv.len());
                    let k: nat = i as nat;
                    assert(script_prefix(fv, k, gs, rs, os) && command_refused(fv[k as int], k, e@)
                        && !command_owed(fv[k as int], k, gs[k as int]) && placed@ == locate_in(fv[k as int], e@));
                    assert(script_refused(fv, placed@));
                }
                return Err(placed);
            },
            Ok(()) => {},
        }
        proof {
            let g0 = gs;
            let r0 = rs;
            let o0 = os;
            gs = gs.push(eg);
            rs = rs.push(rules_view(rules@));
            os = os.push(lines_view(output@));
            assert(fv[i as int] == forms@[i as int]@);
            assert forall|k: int| 0 <= k < i + 1 implies #[trigger] command_ok(fv[k], k as nat, gs[k], gs[k + 1], rs[k], rs[k + 1], os[k], os[k + 1]) by {
                if k < i {
                    assert(gs[k] == g0[k] && gs[k + 1] == g0[k + 1]);
                    assert(rs[k] == r0[k] && rs[k + 1] == r0[k + 1]);
                    assert(os[k] == o0[k] && os[k + 1] == o0[k + 1]);
                }
            }
        }
        i = i + 1;
    }
    proof {
        assert(script_steps(fv, gs, rs, os));
    }
    Ok(output)
}

} // verus!
