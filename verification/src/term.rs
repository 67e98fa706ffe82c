//! Extracted terms and how they are written out.
use vstd::prelude::*;
use crate::debruijn::{DeBruijnIndex, DeBruijnLevel};
use crate::text::{
    push_str, push_char, push_decimal, push_decimal_wide, decimal, chars_of, string_of, is_white, is_whitespace,
    parse_usize, usize_text,
};

verus! {

/// A term with de Bruijn variables: levels for the free variables of its
/// context, indices for variables bound inside it.
#[derive(Debug, PartialEq, Eq)]
pub enum Term {
    FVar(DeBruijnLevel),
    BVar(DeBruijnIndex),
    Atom(String),
    /// Binary, curried application.
    App(Box<Term>, Box<Term>),
    Binder(String, Box<Term>),
}

/// Number of nodes.
pub open spec fn term_size(t: Term) -> nat
    decreases t,
{
    match t {
        Term::App(f, a) => 1 + term_size(*f) + term_size(*a),
        Term::Binder(_, b) => 1 + term_size(*b),
        _ => 1,
    }
}

/// Longest chain of nested nodes.
pub open spec fn term_height(t: Term) -> nat
    decreases t,
{
    match t {
        Term::App(f, a) => {
            let x = term_height(*f);
            let y = term_height(*a);
            1 + if x >= y { x } else { y }
        },
        Term::Binder(_, b) => 1 + term_height(*b),
        _ => 1,
    }
}

impl Term {
    pub fn size(&self) -> (r: usize)
        requires
            term_size(*self) <= usize::MAX,
        ensures
            r == term_size(*self),
        decreases self,
    {
        match self {
            Term::App(function, argument) => 1 + function.size() + argument.size(),
            Term::Binder(_, body) => 1 + body.size(),
            _ => 1,
        }
    }
}

/// Characters that end a bare atom, besides white space.
pub open spec fn quote_special(c: char) -> bool {
    c == '(' || c == ')' || c == '[' || c == ']' || c == '{' || c == '}' || c == ';' || c == '"'
}

/// An atom must be quoted when it is empty, starts like a metavariable or
/// a context variable, or holds a delimiter or white space.
pub open spec fn needs_quoting_spec(t: Seq<char>) -> bool {
    ||| t.len() == 0
    ||| t[0] == '?'
    ||| t[0] == '$'
    ||| exists|i: int| 0 <= i < t.len() && (is_white(#[trigger] t[i]) || quote_special(t[i]))
}

/// One character inside quotes.
pub open spec fn escape_char(c: char) -> Seq<char> {
    if c == '\n' {
        seq!['\\', 'n']
    } else if c == '\t' {
        seq!['\\', 't']
    } else if c == '"' || c == '\\' {
        seq!['\\', c]
    } else {
        seq![c]
    }
}

pub open spec fn escaped(t: Seq<char>) -> Seq<char>
    decreases t.len(),
{
    if t.len() == 0 {
        Seq::empty()
    } else {
        escaped(t.drop_last()) + escape_char(t.last())
    }
}

/// How an atom is written: bare when it can be, else quoted and escaped.
pub open spec fn atom_text(t: Seq<char>, force_quote: bool) -> Seq<char> {
    if !force_quote && !needs_quoting_spec(t) {
        t
    } else {
        seq!['"'] + escaped(t) + seq!['"']
    }
}

/// Whether an atom must be printed quoted. The delimiter set mirrors the
/// lexer's, so that printed output re-reads as the same atom.
pub fn needs_quoting(text: &str) -> (r: bool)
    ensures
        r == needs_quoting_spec(text@),
{
    let cs = chars_of(text);
    if cs.len() == 0 || cs[0] == '?' || cs[0] == '$' {
        return true;
    }
    let mut i: usize = 0;
    while i < cs.len()
        invariant
            i <= cs@.len(),
            cs@ == text@,
            forall|k: int| 0 <= k < i ==> !(is_white(#[trigger] cs@[k]) || quote_special(cs@[k])),
        decreases cs@.len() - i,
    {
        let c = cs[i];
        if is_whitespace(c) || c == '(' || c == ')' || c == '[' || c == ']' || c == '{' || c == '}' || c
            == ';' || c == '"' {
            return true;
        }
        i = i + 1;
    }
    false
}

/// Write an atom, quoting and escaping it when it cannot be written bare.
/// `force_quote` additionally quotes a name that would otherwise capture a
/// binder in scope.
pub fn write_atom(out: &mut String, text: &str, force_quote: bool)
    ensures
        final(out)@ == old(out)@ + atom_text(text@, force_quote),
{
    if !force_quote && !needs_quoting(text) {
        push_str(out, text);
        return;
    }
    let cs = chars_of(text);
    push_char(out, '"');
    let ghost start = out@;
    let mut i: usize = 0;
    while i < cs.len()
        invariant
            i <= cs@.len(),
            out@ == start + escaped(cs@.take(i as int)),
        decreases cs@.len() - i,
    {
        let c = cs[i];
        if c == '\n' {
            push_char(out, '\\');
            push_char(out, 'n');
        } else if c == '\t' {
            push_char(out, '\\');
            push_char(out, 't');
        } else if c == '"' || c == '\\' {
            push_char(out, '\\');
            push_char(out, c);
        } else {
            push_char(out, c);
        }
        proof {
            assert(cs@.take(i + 1).drop_last() =~= cs@.take(i as int));
            assert(out@ =~= start + escaped(cs@.take(i + 1)));
        }
        i = i + 1;
    }
    push_char(out, '"');
    proof {
        assert(cs@.take(cs@.len() as int) =~= cs@);
        assert(out@ =~= old(out)@ + atom_text(text@, force_quote));
    }
}

/// A term written with de Bruijn references: `$n` for free variables,
/// `#n` for bound ones.
pub open spec fn term_text(t: Term) -> Seq<char>
    decreases t, 1nat,
{
    match t {
        Term::FVar(l) => seq!['$'] + decimal(l@ as nat),
        Term::BVar(i) => seq!['#'] + decimal(i@ as nat),
        Term::Atom(n) => atom_text(n@, false),
        Term::App(f, a) => seq!['('] + head_text(*f) + seq![' '] + term_text(*a) + seq![')'],
        Term::Binder(op, b) => seq!['(', '@'] + op@ + seq![' '] + term_text(*b) + seq![')'],
    }
}

/// The function part of a curried application, flattened: `f a b`.
pub open spec fn head_text(t: Term) -> Seq<char>
    decreases t, 2nat,
{
    match t {
        Term::App(f, a) => head_text(*f) + seq![' '] + term_text(*a),
        _ => term_text(t),
    }
}

fn write_term(t: &Term, out: &mut String)
    ensures
        final(out)@ == old(out)@ + term_text(*t),
    decreases t, 1nat,
{
    match t {
        Term::FVar(level) => {
            push_char(out, '$');
            push_decimal(out, level.get());
        },
        Term::BVar(index) => {
            push_char(out, '#');
            push_decimal(out, index.get());
        },
        Term::Atom(name) => write_atom(out, name.as_str(), false),
        Term::App(function, argument) => {
            push_char(out, '(');
            write_head(function, out);
            push_char(out, ' ');
            write_term(argument, out);
            push_char(out, ')');
        },
        Term::Binder(op, body) => {
            push_char(out, '(');
            push_char(out, '@');
            push_str(out, op.as_str());
            push_char(out, ' ');
            write_term(body, out);
            push_char(out, ')');
        },
    }
    proof {
        assert(final(out)@ =~= old(out)@ + term_text(*t));
    }
}

fn write_head(t: &Term, out: &mut String)
    ensures
        final(out)@ == old(out)@ + head_text(*t),
    decreases t, 2nat,
{
    match t {
        Term::App(function, argument) => {
            write_head(function, out);
            push_char(out, ' ');
            write_term(argument, out);
            proof {
                assert(final(out)@ =~= old(out)@ + head_text(*t));
            }
        },
        _ => write_term(t, out),
    }
}

impl Term {
    /// The term written with `$n` and `#n` variable references.
    pub fn to_string(&self) -> (r: String)
        ensures
            r@ == term_text(*self),
    {
        let mut s = String::new();
        write_term(self, &mut s);
        s
    }
}

/// An extracted term together with the size of its free-variable context.
/// `FVar` levels refer to this scope; `BVar` indices refer to enclosing binders.
#[derive(Debug, PartialEq, Eq)]
pub struct TermCtx {
    pub scope: usize,
    pub t: Term,
}

impl TermCtx {
    pub fn size(&self) -> (r: usize)
        requires
            term_size(self.t) <= usize::MAX,
        ensures
            r == term_size(self.t),
    {
        self.t.size()
    }

    /// The term written with `$n` and `#n` variable references.
    pub fn to_string(&self) -> (r: String)
        ensures
            r@ == term_text(self.t),
    {
        self.t.to_string()
    }

    /// Render with generated names for binders and `$n` for free variables.
    pub fn display(&self) -> (r: NamedTerm<'_>)
        ensures
            r.term == self,
            r.root_binders@.len() == 0,
    {
        NamedTerm { term: self, root_binders: &[] }
    }

    /// Name the final free variables as Miller formal parameters. Variables
    /// before them remain `$n` references to the outer context.
    pub fn display_with_root_binders<'a>(&'a self, root_binders: &'a [String]) -> (r: NamedTerm<'a>)
        requires
            root_binders@.len() <= self.scope,
        ensures
            r.term == self,
            r.root_binders == root_binders,
    {
        NamedTerm { term: self, root_binders }
    }
}

/// A term to be written with names: generated names for its binders, and
/// the given names for the last variables of its context.
pub struct NamedTerm<'a> {
    pub term: &'a TermCtx,
    pub root_binders: &'a [String],
}

/// The views of a list of strings.
pub open spec fn names_view(v: Seq<String>) -> Seq<Seq<char>> {
    Seq::new(v.len(), |i: int| v[i]@)
}

/// Position of the last `@`, or -1.
pub open spec fn last_at(t: Seq<char>) -> int
    decreases t.len(),
{
    if t.len() == 0 {
        -1
    } else if t.last() == '@' {
        t.len() - 1
    } else {
        last_at(t.drop_last())
    }
}

/// A name without its `@n` namespace suffix, if it has one.
pub open spec fn base_name(t: Seq<char>) -> Seq<char> {
    let p = last_at(t);
    if p >= 0 && usize_text(t.skip(p + 1)) is Some {
        t.take(p)
    } else {
        t
    }
}

/// Writing `t` bare would make it read as one of the binder names.
pub open spec fn collides(t: Seq<char>, root: Seq<Seq<char>>, binders: Seq<Seq<char>>) -> bool {
    let base = base_name(t);
    ||| exists|j: int| 0 <= j < root.len() && root[j] == base
    ||| exists|j: int| 0 <= j < binders.len() && binders[j] == base
}

/// The generated name of the binder numbered `n`.
pub open spec fn binder_label(n: nat) -> Seq<char> {
    seq!['x'] + decimal(n)
}

/// A term written with names: `outer` free variables written `$n`, then
/// the `root` names, then the `binders` in scope, innermost last.
pub open spec fn named_text(t: Term, outer: nat, root: Seq<Seq<char>>, binders: Seq<Seq<char>>) -> Seq<char>
    decreases t, 1nat,
{
    match t {
        Term::FVar(l) => if l@ < outer {
            seq!['$'] + decimal(l@ as nat)
        } else if l@ < outer + root.len() {
            root[l@ - outer]
        } else {
            seq!['$'] + decimal(l@ as nat)
        },
        Term::BVar(i) => if i@ < binders.len() {
            binders[binders.len() - 1 - i@]
        } else {
            seq!['#'] + decimal(i@ as nat)
        },
        Term::Atom(n) => atom_text(n@, collides(n@, root, binders)),
        Term::App(f, a) => seq!['('] + named_head(*f, outer, root, binders) + seq![' '] + named_text(
            *a,
            outer,
            root,
            binders,
        ) + seq![')'],
        Term::Binder(op, b) => {
            let name = binder_label(root.len() + binders.len());
            seq!['(', '@'] + op@ + seq![' '] + name + seq![' '] + named_text(*b, outer, root, binders.push(name))
                + seq![')']
        },
    }
}

pub open spec fn named_head(t: Term, outer: nat, root: Seq<Seq<char>>, binders: Seq<Seq<char>>) -> Seq<char>
    decreases t, 2nat,
{
    match t {
        Term::App(f, a) => named_head(*f, outer, root, binders) + seq![' '] + named_text(*a, outer, root, binders),
        _ => named_text(t, outer, root, binders),
    }
}

/// The position of the last `@` in `cs`, if any.
pub(crate) fn find_last_at(cs: &Vec<char>) -> (r: Option<usize>)
    ensures
        r is None ==> last_at(cs@) == -1,
        r matches Some(p) ==> last_at(cs@) == p && p < cs@.len(),
{
    let mut i = cs.len();
    proof {
        assert(cs@.take(i as int) =~= cs@);
    }
    while i > 0
        invariant
            i <= cs@.len(),
            last_at(cs@) == last_at(cs@.take(i as int)),
        decreases i,
    {
        proof {
            assert(cs@.take(i as int).drop_last() =~= cs@.take(i - 1));
        }
        if cs[i - 1] == '@' {
            return Some(i - 1);
        }
        i = i - 1;
    }
    None
}

/// `text` without an `@n` namespace suffix.
pub(crate) fn base_of(text: &str) -> (r: String)
    ensures
        r@ == base_name(text@),
{
    let cs = chars_of(text);
    let n = cs.len();
    match find_last_at(&cs) {
        None => string_of(cs.as_slice()),
        Some(p) => {
            let mut suffix: Vec<char> = Vec::new();
            let mut k = p + 1;
            while k < cs.len()
                invariant
                    p < k <= cs@.len(),
                    suffix@ == cs@.subrange(p + 1, k as int),
                decreases cs@.len() - k,
            {
                suffix.push(cs[k]);
                proof {
                    assert(suffix@ =~= cs@.subrange(p + 1, k + 1));
                }
                k = k + 1;
            }
            proof {
                assert(suffix@ =~= cs@.skip(p + 1));
            }
            match parse_usize(suffix.as_slice()) {
                Some(_) => {
                    let mut prefix: Vec<char> = Vec::new();
                    let mut j: usize = 0;
                    while j < p
                        invariant
                            j <= p < cs@.len(),
                            prefix@ == cs@.take(j as int),
                        decreases p - j,
                    {
                        prefix.push(cs[j]);
                        proof {
                            assert(prefix@ =~= cs@.take(j + 1));
                        }
                        j = j + 1;
                    }
                    string_of(prefix.as_slice())
                },
                None => string_of(cs.as_slice()),
            }
        },
    }
}

/// Whether writing `text` bare would read as one of the binder names.
fn collides_exec(text: &str, root: &[String], binders: &Vec<String>) -> (r: bool)
    ensures
        r == collides(text@, names_view(root@), names_view(binders@)),
{
    let base = base_of(text);
    let mut i: usize = 0;
    while i < root.len()
        invariant
            i <= root@.len(),
            base@ == base_name(text@),
            forall|j: int| 0 <= j < i ==> root@[j]@ != base@,
        decreases root@.len() - i,
    {
        if root[i] == base {
            proof {
                assert(root@[i as int]@ == base@);
                assert(base@ == base_name(text@));
                assert(0 <= i < root@.len());
                assert(names_view(root@)[i as int] == root@[i as int]@);
            }
            return true;
        }
        i = i + 1;
    }
    let mut i: usize = 0;
    while i < binders.len()
        invariant
            i <= binders@.len(),
            base@ == base_name(text@),
            forall|j: int| 0 <= j < i ==> binders@[j]@ != base@,
        decreases binders@.len() - i,
    {
        if binders[i] == base {
            proof {
                assert(binders@[i as int]@ == base@);
                assert(base@ == base_name(text@));
                assert(names_view(binders@)[i as int] == binders@[i as int]@);
            }
            return true;
        }
        i = i + 1;
    }
    proof {
        let rv = names_view(root@);
        let bv = names_view(binders@);
        assert(!(exists|j: int| 0 <= j < rv.len() && rv[j] == base_name(text@))) by {
            assert forall|j: int| 0 <= j < rv.len() implies rv[j] != base_name(text@) by {
                assert(rv[j] == root@[j]@);
            }
        }
        assert(!(exists|j: int| 0 <= j < bv.len() && bv[j] == base_name(text@))) by {
            assert forall|j: int| 0 <= j < bv.len() implies bv[j] != base_name(text@) by {
                assert(bv[j] == binders@[j]@);
            }
        }
    }
    false
}

fn write_named(t: &Term, out: &mut String, outer: usize, root: &[String], binders: &mut Vec<String>)
    requires
        outer + root@.len() <= usize::MAX,
    ensures
        final(out)@ == old(out)@ + named_text(*t, outer as nat, names_view(root@), names_view(old(binders)@)),
        names_view(final(binders)@) == names_view(old(binders)@),
        final(binders)@.len() == old(binders)@.len(),
    decreases t, 1nat,
{
    let ghost b0 = names_view(binders@);
    match t {
        Term::FVar(level) => {
            let l = level.get();
            if l < outer {
                push_char(out, '$');
                push_decimal(out, l);
            } else if l < outer + root.len() {
                push_str(out, root[l - outer].as_str());
            } else {
                push_char(out, '$');
                push_decimal(out, l);
            }
        },
        Term::BVar(index) => {
            let i = index.get();
            if i < binders.len() {
                push_str(out, binders[binders.len() - 1 - i].as_str());
            } else {
                push_char(out, '#');
                push_decimal(out, i);
            }
        },
        Term::Atom(name) => {
            let force = collides_exec(name.as_str(), root, binders);
            write_atom(out, name.as_str(), force);
        },
        Term::App(function, argument) => {
            push_char(out, '(');
            write_named_head(function, out, outer, root, binders);
            push_char(out, ' ');
            write_named(argument, out, outer, root, binders);
            push_char(out, ')');
        },
        Term::Binder(op, body) => {
            let n = root.len() as u128 + binders.len() as u128;
            let mut name = String::new();
            push_char(&mut name, 'x');
            push_decimal_wide(&mut name, n);
            push_char(out, '(');
            push_char(out, '@');
            push_str(out, op.as_str());
            push_char(out, ' ');
            push_str(out, name.as_str());
            push_char(out, ' ');
            let ghost nm = name@;
            binders.push(name);
            proof {
                assert(names_view(binders@) =~= b0.push(nm));
            }
            write_named(body, out, outer, root, binders);
            let ghost mid = binders@;
            binders.pop();
            proof {
                assert(binders@ == mid.drop_last());
                assert forall|j: int| 0 <= j < b0.len() implies names_view(binders@)[j] == b0[j] by {
                    assert(names_view(mid)[j] == b0.push(nm)[j]);
                }
                assert(names_view(binders@) =~= b0);
            }
            push_char(out, ')');
        },
    }
    proof {
        assert(final(out)@ =~= old(out)@ + named_text(*t, outer as nat, names_view(root@), b0));
    }
}

fn write_named_head(t: &Term, out: &mut String, outer: usize, root: &[String], binders: &mut Vec<String>)
    requires
        outer + root@.len() <= usize::MAX,
    ensures
        final(out)@ == old(out)@ + named_head(*t, outer as nat, names_view(root@), names_view(old(binders)@)),
        names_view(final(binders)@) == names_view(old(binders)@),
        final(binders)@.len() == old(binders)@.len(),
    decreases t, 2nat,
{
    match t {
        Term::App(function, argument) => {
            let ghost b0 = names_view(binders@);
            write_named_head(function, out, outer, root, binders);
            push_char(out, ' ');
            write_named(argument, out, outer, root, binders);
            proof {
                assert(final(out)@ =~= old(out)@ + named_head(*t, outer as nat, names_view(root@), b0));
            }
        },
        _ => write_named(t, out, outer, root, binders),
    }
}

impl<'a> NamedTerm<'a> {
    /// The term written with generated binder names.
    pub fn to_string(&self) -> (r: String)
        requires
            self.root_binders@.len() <= self.term.scope,
        ensures
            r@ == named_text(
                self.term.t,
                (self.term.scope - self.root_binders@.len()) as nat,
                names_view(self.root_binders@),
                Seq::empty(),
            ),
    {
        let outer = self.term.scope - self.root_binders.len();
        let mut binders: Vec<String> = Vec::new();
        let mut s = String::new();
        proof {
            assert(names_view(binders@) =~= Seq::<Seq<char>>::empty());
        }
        write_named(&self.term.t, &mut s, outer, self.root_binders, &mut binders);
        s
    }
}

} // verus!
