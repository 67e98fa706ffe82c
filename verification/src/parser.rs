//! S-expression forms: atoms and groups in one of three delimiters, each
//! remembering where it starts.
use vstd::prelude::*;
use crate::lexer::{Delimiter, Location, Token, TokenV, located, lex, lex_from, tokens_view};
use crate::text::{push_str, push_char};

verus! {

#[derive(Debug)]
pub enum SyntaxKind {
    Atom { text: String, quoted: bool },
    Group { delimiter: Delimiter, items: Vec<Syntax> },
}

/// One parsed form and where it starts.
#[derive(Debug)]
pub struct Syntax {
    pub kind: SyntaxKind,
    pub location: Location,
}

/// A form as a mathematical value: an atom's text, whether it was quoted,
/// and its line and column; or a group's delimiter, items, line and column.
pub enum SyntaxV {
    Atom(Seq<char>, bool, nat, nat),
    Group(Delimiter, Seq<SyntaxV>, nat, nat),
}

pub open spec fn syntax_view(s: Syntax) -> SyntaxV
    decreases s,
{
    match s.kind {
        SyntaxKind::Atom { text, quoted } => SyntaxV::Atom(text@, quoted, s.location.line as nat, s.location.column as nat),
        SyntaxKind::Group { delimiter, items } => SyntaxV::Group(
            delimiter,
            Seq::new(items@.len(), |i: int| if 0 <= i < items@.len() { syntax_view(items@[i]) } else { SyntaxV::Atom(Seq::empty(), false, 0, 0) }),
            s.location.line as nat,
            s.location.column as nat,
        ),
    }
}

impl View for Syntax {
    type V = SyntaxV;

    open spec fn view(&self) -> SyntaxV {
        syntax_view(*self)
    }
}

/// A group's items from token `c` on, up to its closing delimiter `d`;
/// `line` and `column` say where the group opened.
pub open spec fn parse_items(ts: Seq<TokenV>, c: nat, d: Delimiter, line: nat, column: nat) -> Result<(Seq<SyntaxV>, nat), Seq<char>>
    decreases ts.len() - c, 1nat,
{
    if c >= ts.len() {
        Err(located(line, column, "unclosed '"@ + seq![d.open_spec()] + "'"@))
    } else {
        match ts[c as int] {
            TokenV::Right(f, fl, fc) => if f == d {
                Ok((Seq::empty(), c + 1))
            } else {
                Err(located(fl, fc, "expected '"@ + seq![d.close_spec()] + "', found '"@ + seq![f.close_spec()] + "'"@))
            },
            _ => match parse_one(ts, c) {
                Err(e) => Err(e),
                Ok((s, c2)) => if c2 <= c || c2 > ts.len() {
                    Err(Seq::empty())
                } else {
                    match parse_items(ts, c2, d, line, column) {
                        Err(e) => Err(e),
                        Ok((rest, c3)) => Ok((seq![s] + rest, c3)),
                    }
                },
            },
        }
    }
}

/// The form that starts at token `c`, and the token after it.
pub open spec fn parse_one(ts: Seq<TokenV>, c: nat) -> Result<(SyntaxV, nat), Seq<char>>
    decreases ts.len() - c, 0nat,
{
    if c >= ts.len() {
        Err(located(1, 1, "unexpected end of input"@))
    } else {
        match ts[c as int] {
            TokenV::Atom(t, q, l, col) => Ok((SyntaxV::Atom(t, q, l, col), c + 1)),
            TokenV::Left(d, l, col) => match parse_items(ts, c + 1, d, l, col) {
                Err(e) => Err(e),
                Ok((items, c2)) => Ok((SyntaxV::Group(d, items, l, col), c2)),
            },
            TokenV::Right(d, l, col) => Err(located(l, col, "unexpected '"@ + seq![d.close_spec()] + "'"@)),
        }
    }
}

/// All forms from token `c` to the end.
pub open spec fn parse_forms_from(ts: Seq<TokenV>, c: nat) -> Result<Seq<SyntaxV>, Seq<char>>
    decreases ts.len() - c,
{
    if c >= ts.len() {
        Ok(Seq::empty())
    } else {
        match parse_one(ts, c) {
            Err(e) => Err(e),
            Ok((s, c2)) => if c2 <= c || c2 > ts.len() {
                Err(Seq::empty())
            } else {
                match parse_forms_from(ts, c2) {
                    Err(e) => Err(e),
                    Ok(rest) => Ok(seq![s] + rest),
                }
            },
        }
    }
}

/// The forms of a source text, or the first lexical or syntax error.
pub open spec fn parse_text(cs: Seq<char>) -> Result<Seq<SyntaxV>, Seq<char>> {
    match lex_from(cs, 0, 1, 1) {
        Err(e) => Err(e),
        Ok(ts) => parse_forms_from(ts, 0),
    }
}

/// A successful parse from token `c` ends after `c`, within the tokens.
pub open spec fn advances<T>(r: Result<(T, nat), Seq<char>>, c: nat, len: nat) -> bool {
    r matches Ok((_, c2)) ==> c < c2 <= len
}

proof fn lemma_parse_advances(ts: Seq<TokenV>, c: nat)
    ensures
        advances(parse_one(ts, c), c, ts.len()),
        forall|d: Delimiter, l: nat, col: nat| #[trigger] advances(parse_items(ts, c, d, l, col), c, ts.len()),
    decreases ts.len() - c,
{
    if c < ts.len() {
        lemma_parse_advances(ts, c + 1);
        match ts[c as int] {
            TokenV::Left(d, l, col) => {
                assert(advances(parse_items(ts, c + 1, d, l, col), c + 1, ts.len()));
            },
            _ => {},
        }
        assert forall|d: Delimiter, l: nat, col: nat| #[trigger] advances(parse_items(ts, c, d, l, col), c, ts.len()) by {
            match ts[c as int] {
                TokenV::Right(_, _, _) => {},
                _ => {
                    match parse_one(ts, c) {
                        Err(_) => {},
                        Ok((_, c2)) => {
                            if c < c2 <= ts.len() {
                                lemma_parse_advances(ts, c2);
                                assert(advances(parse_items(ts, c2, d, l, col), c2, ts.len()));
                            }
                        },
                    }
                },
            }
        }
    }
}

/// The views of a list of forms.
pub open spec fn forms_view(v: Seq<Syntax>) -> Seq<SyntaxV> {
    Seq::new(v.len(), |i: int| v[i]@)
}

/// `acc` followed by parsed items, errors passed through.
pub open spec fn prepend_items(acc: Seq<SyntaxV>, r: Result<(Seq<SyntaxV>, nat), Seq<char>>) -> Result<(Seq<SyntaxV>, nat), Seq<char>> {
    match r {
        Err(e) => Err(e),
        Ok((rest, c)) => Ok((acc + rest, c)),
    }
}

/// `acc` followed by parsed forms, errors passed through.
pub open spec fn prepend_forms(acc: Seq<SyntaxV>, r: Result<Seq<SyntaxV>, Seq<char>>) -> Result<Seq<SyntaxV>, Seq<char>> {
    match r {
        Err(e) => Err(e),
        Ok(rest) => Ok(acc + rest),
    }
}

/// `prefix`, then `ch`, then a closing quote.
fn quote_message(prefix: &str, ch: char) -> (r: String)
    ensures
        r@ == prefix@ + seq![ch] + "'"@,
{
    let mut s = String::new();
    push_str(&mut s, prefix);
    push_char(&mut s, ch);
    push_str(&mut s, "'");
    proof {
        assert(s@ =~= prefix@ + seq![ch] + "'"@);
    }
    s
}

/// The group view of `items` in delimiter `d` at `loc`.
proof fn lemma_group_view(d: Delimiter, items: Vec<Syntax>, loc: Location)
    ensures
        (Syntax { kind: SyntaxKind::Group { delimiter: d, items }, location: loc })@
            == SyntaxV::Group(d, forms_view(items@), loc.line as nat, loc.column as nat),
{
    let g = Syntax { kind: SyntaxKind::Group { delimiter: d, items }, location: loc };
    assert(g@ matches SyntaxV::Group(_, v, _, _) && v =~= forms_view(items@));
}

/// The form that starts at token `cursor`, and the token after it.
fn parse_one_exec(tokens: &Vec<Token>, cursor: usize) -> (r: Result<(Syntax, usize), String>)
    requires
        cursor <= tokens@.len(),
    ensures
        match parse_one(tokens_view(tokens@), cursor as nat) {
            Err(e) => r matches Err(x) && x@ == e,
            Ok((s, c2)) => r matches Ok((x, c)) && x@ == s && c == c2,
        },
    decreases tokens@.len() - cursor,
{
    let ghost ts = tokens_view(tokens@);
    if cursor >= tokens.len() {
        let start = Location { line: 1, column: 1 };
        return Err(start.error("unexpected end of input"));
    }
    match &tokens[cursor] {
        Token::Atom(t, q, loc) => {
            let s = Syntax { kind: SyntaxKind::Atom { text: t.clone(), quoted: *q }, location: *loc };
            Ok((s, cursor + 1))
        },
        Token::Right(d, loc) => {
            let m = quote_message("unexpected '", d.close());
            Err(loc.error(m.as_str()))
        },
        Token::Left(d, loc) => {
            let d = *d;
            let loc = *loc;
            let ghost whole = parse_items(ts, (cursor + 1) as nat, d, loc.line as nat, loc.column as nat);
            let mut items: Vec<Syntax> = Vec::new();
            let mut c = cursor + 1;
            proof {
                assert(forms_view(items@) =~= Seq::<SyntaxV>::empty());
                match whole {
                    Ok((rest, _)) => {
                        assert(Seq::<SyntaxV>::empty() + rest =~= rest);
                    },
                    Err(_) => {},
                }
            }
            loop
                invariant
                    cursor < c <= tokens@.len(),
                    ts == tokens_view(tokens@),
                    ts[cursor as int] == TokenV::Left(d, loc.line as nat, loc.column as nat),
                    whole == prepend_items(forms_view(items@), parse_items(ts, c as nat, d, loc.line as nat, loc.column as nat)),
                    whole == parse_items(ts, (cursor + 1) as nat, d, loc.line as nat, loc.column as nat),
                decreases tokens@.len() - c,
            {
                let ghost before = forms_view(items@);
                if c >= tokens.len() {
                    let m = quote_message("unclosed '", d.open());
                    return Err(loc.error(m.as_str()));
                }
                match &tokens[c] {
                    Token::Right(f, floc) => {
                        if *f == d {
                            proof {
                                assert(before + Seq::<SyntaxV>::empty() =~= before);
                                lemma_group_view(d, items, loc);
                            }
                            let g = Syntax { kind: SyntaxKind::Group { delimiter: d, items }, location: loc };
                            return Ok((g, c + 1));
                        } else {
                            let mut m = quote_message("expected '", d.close());
                            push_str(&mut m, ", found '");
                            push_char(&mut m, f.close());
                            push_str(&mut m, "'");
                            proof {
                                assert(m@ =~= "expected '"@ + seq![d.close_spec()] + "', found '"@ + seq![f.close_spec()] + "'"@) by {
                                    reveal_strlit("'");
                                    reveal_strlit(", found '");
                                    reveal_strlit("', found '");
                                }
                            }
                            return Err(floc.error(m.as_str()));
                        }
                    },
                    _ => {
                        proof {
                            lemma_parse_advances(ts, c as nat);
                        }
                        match parse_one_exec(tokens, c) {
                            Err(e) => {
                                return Err(e);
                            },
                            Ok((s, c2)) => {
                                let ghost sv = s@;
                                items.push(s);
                                proof {
                                    assert(forms_view(items@) =~= before.push(sv));
                                    match parse_items(ts, c2 as nat, d, loc.line as nat, loc.column as nat) {
                                        Ok((rest, _)) => {
                                            assert(before + (seq![sv] + rest) =~= forms_view(items@) + rest);
                                        },
                                        Err(_) => {},
                                    }
                                }
                                c = c2;
                            },
                        }
                    },
                }
            }
        },
    }
}

/// Parse a source text into its forms.
pub fn parse_syntax(input: &str) -> (r: Result<Vec<Syntax>, String>)
    requires
        input@.len() < usize::MAX,
    ensures
        match parse_text(input@) {
            Err(e) => r matches Err(x) && x@ == e,
            Ok(f) => r matches Ok(v) && forms_view(v@) == f,
        },
{
    let tokens = match lex(input) {
        Err(e) => {
            return Err(e);
        },
        Ok(t) => t,
    };
    let ghost ts = tokens_view(tokens@);
    let ghost whole = parse_forms_from(ts, 0);
    let mut forms: Vec<Syntax> = Vec::new();
    let mut c: usize = 0;
    proof {
        assert(forms_view(forms@) =~= Seq::<SyntaxV>::empty());
        match whole {
            Ok(rest) => {
                assert(Seq::<SyntaxV>::empty() + rest =~= rest);
            },
            Err(_) => {},
        }
    }
    while c < tokens.len()
        invariant
            c <= tokens@.len(),
            ts == tokens_view(tokens@),
            whole == prepend_forms(forms_view(forms@), parse_forms_from(ts, c as nat)),
            whole == parse_forms_from(ts, 0),
            whole == parse_text(input@),
        decreases tokens@.len() - c,
    {
        let ghost before = forms_view(forms@);
        proof {
            lemma_parse_advances(ts, c as nat);
        }
        match parse_one_exec(&tokens, c) {
            Err(e) => {
                proof {
                    assert(parse_forms_from(ts, c as nat) == Err::<Seq<SyntaxV>, Seq<char>>(e@));
                }
                return Err(e);
            },
            Ok((s, c2)) => {
                let ghost sv = s@;
                forms.push(s);
                proof {
                    assert(forms_view(forms@) =~= before.push(sv));
                    match parse_forms_from(ts, c2 as nat) {
                        Ok(rest) => {
                            assert(before + (seq![sv] + rest) =~= forms_view(forms@) + rest);
                        },
                        Err(_) => {},
                    }
                }
                c = c2;
            },
        }
    }
    proof {
        assert(forms_view(forms@) + Seq::<SyntaxV>::empty() =~= forms_view(forms@));
    }
    Ok(forms)
}

/// Parse a source text into its forms.
pub fn parse_forms(input: &str) -> (r: Result<Vec<Syntax>, String>)
    requires
        input@.len() < usize::MAX,
    ensures
        match parse_text(input@) {
            Err(e) => r matches Err(x) && x@ == e,
            Ok(f) => r matches Ok(v) && forms_view(v@) == f,
        },
{
    parse_syntax(input)
}

} // verus!
