//! Printed atoms read back as the same atom.
use vstd::prelude::*;
use crate::text::is_white;
use crate::lexer::{lex_from, scan_quoted, scan_bare, skip_comment, located, atom_end, open_delimiter, close_delimiter, prepend_text, Cursor, TokenV};
use crate::term::{atom_text, escaped, escape_char, needs_quoting_spec, quote_special};

verus! {

/// Scanning the escaped form of `u` inside a quoted atom yields `u`,
/// leaves the line alone and moves the column by the escaped length.
proof fn lemma_scan_escaped(cs: Seq<char>, k: nat, u: Seq<char>, line: nat, column: nat, start: (nat, nat))
    requires
        k + escaped(u).len() <= cs.len(),
        cs.subrange(k as int, (k + escaped(u).len()) as int) == escaped(u),
    ensures
        scan_quoted(cs, k, line, column, start) == prepend_text(
            u,
            scan_quoted(cs, k + escaped(u).len(), line, column + escaped(u).len(), start),
        ),
    decreases u.len(),
{
    if u.len() == 0 {
        assert(escaped(u).len() == 0);
        match scan_quoted(cs, k, line, column, start) {
            Ok((t, cur)) => {
                assert(Seq::<char>::empty() + t =~= t);
            },
            Err(_) => {},
        }
    } else {
        let v = u.drop_last();
        let x = u.last();
        let ev = escaped(v);
        let ex = escape_char(x);
        assert(escaped(u) == ev + ex);
        assert(cs.subrange(k as int, (k + ev.len()) as int) =~= ev) by {
            assert forall|j: int| 0 <= j < ev.len() implies cs.subrange(k as int, (k + ev.len()) as int)[j] == ev[j] by {
                assert(cs.subrange(k as int, (k + escaped(u).len()) as int)[j] == escaped(u)[j]);
            }
        }
        lemma_scan_escaped(cs, k, v, line, column, start);
        let p = k + ev.len();
        assert forall|j: int| 0 <= j < ex.len() implies cs[(p + j) as int] == ex[j] by {
            assert(cs.subrange(k as int, (k + escaped(u).len()) as int)[ev.len() + j] == escaped(u)[ev.len() + j]);
        }
        let after = scan_quoted(cs, (p + ex.len()) as nat, line, (column + ev.len() + ex.len()) as nat, start);
        assert(scan_quoted(cs, p, line, column + ev.len(), start) == prepend_text(seq![x], after)) by {
            if x == '\n' || x == '\t' || x == '"' || x == '\\' {
                assert(cs[(p + 0) as int] == ex[0]);
                assert(cs[p as int] == '\\');
                assert(cs[(p + 1) as int] == ex[1]);
            } else {
                assert(ex == seq![x]);
                assert(cs[(p + 0) as int] == ex[0]);
                assert(cs[p as int] == x);
            }
            match after {
                Ok((t, cur)) => {},
                Err(_) => {},
            }
        }
        match after {
            Ok((t, cur)) => {
                assert(v + (seq![x] + t) =~= u + t);
            },
            Err(_) => {},
        }
    }
}

/// A character of an escaped text is never a raw quote without its
/// backslash; the escaped text is as long as the characters it encodes
/// or longer.
proof fn lemma_escaped_len(u: Seq<char>)
    ensures
        escaped(u).len() >= u.len(),
    decreases u.len(),
{
    if u.len() > 0 {
        lemma_escaped_len(u.drop_last());
    }
}

/// A bare atom is scanned to its end.
proof fn lemma_scan_bare_all(t: Seq<char>, i: nat)
    requires
        i <= t.len(),
        forall|j: int| 0 <= j < t.len() ==> !is_white(#[trigger] t[j]) && !atom_end(t[j]),
    ensures
        scan_bare(t, i) == t.len(),
    decreases t.len() - i,
{
    if i < t.len() {
        lemma_scan_bare_all(t, i + 1);
    }
}

/// Printing an atom and lexing the text gives back the atom: a single atom
/// token at the start, quoted exactly when it was printed quoted.
pub proof fn law_printed_atom_relexes(t: Seq<char>, force_quote: bool)
    ensures
        lex_from(atom_text(t, force_quote), 0, 1, 1) == Ok::<Seq<TokenV>, Seq<char>>(
            seq![TokenV::Atom(t, force_quote || needs_quoting_spec(t), 1, 1)],
        ),
{
    let cs = atom_text(t, force_quote);
    if !force_quote && !needs_quoting_spec(t) {
        assert(cs == t);
        assert forall|j: int| 0 <= j < t.len() implies !is_white(#[trigger] t[j]) && !atom_end(t[j]) by {
            if is_white(t[j]) || quote_special(t[j]) {
                assert(needs_quoting_spec(t));
            }
        }
        lemma_scan_bare_all(t, 0);
        assert(t[0] != '"') by {
            assert(!quote_special(t[0]));
        }
        assert(t.subrange(0, t.len() as int) =~= t);
        assert(lex_from(t, t.len(), 1, (1 + t.len()) as nat) == Ok::<Seq<TokenV>, Seq<char>>(Seq::empty()));
        assert(seq![TokenV::Atom(t, false, 1, 1)] + Seq::<TokenV>::empty() =~= seq![TokenV::Atom(t, false, 1, 1)]);
    } else {
        let e = escaped(t);
        assert(cs == seq!['"'] + e + seq!['"']);
        assert(cs.subrange(1, (1 + e.len()) as int) =~= e);
        lemma_scan_escaped(cs, 1, t, 1, 2, (1, 1));
        let end = (1 + e.len()) as nat;
        assert(cs[end as int] == '"');
        let closing = scan_quoted(cs, end, 1, (2 + e.len()) as nat, (1, 1));
        assert(closing == Ok::<(Seq<char>, Cursor), Seq<char>>((Seq::empty(), Cursor { i: end + 1, line: 1, column: (3 + e.len()) as nat })));
        assert(t + Seq::<char>::empty() =~= t);
        assert(cs.len() == end + 1);
        assert(lex_from(cs, end + 1, 1, (3 + e.len()) as nat) == Ok::<Seq<TokenV>, Seq<char>>(Seq::empty()));
        assert(seq![TokenV::Atom(t, true, 1, 1)] + Seq::<TokenV>::empty() =~= seq![TokenV::Atom(t, true, 1, 1)]);
    }
}

} // verus!
