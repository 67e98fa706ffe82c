//! The S-expression lexer: delimiters, `;` comments, bare atoms, and
//! quoted atoms with `\n`, `\t`, `\"` and `\\` escapes. Every token
//! records the line and column where it starts.
use vstd::prelude::*;
use crate::text::{push_str, push_char, push_decimal, decimal, chars_of, is_white, is_whitespace, string_of};

verus! {

#[derive(Clone, Copy, Debug, PartialEq, Eq, Structural)]
pub enum Delimiter {
    Paren,
    Bracket,
    Brace,
}

/// A line and a column, both counted from one.
#[derive(Clone, Copy, Debug, PartialEq, Eq, Structural)]
pub struct Location {
    pub line: usize,
    pub column: usize,
}

/// `line L:C: message`.
pub open spec fn located(line: nat, column: nat, message: Seq<char>) -> Seq<char> {
    "line "@ + decimal(line) + seq![':'] + decimal(column) + ": "@ + message
}

impl Location {
    /// An error message that names this location.
    pub fn error(self, message: &str) -> (r: String)
        ensures
            r@ == located(self.line as nat, self.column as nat, message@),
    {
        let mut s = String::new();
        push_str(&mut s, "line ");
        push_decimal(&mut s, self.line);
        push_char(&mut s, ':');
        push_decimal(&mut s, self.column);
        push_str(&mut s, ": ");
        push_str(&mut s, message);
        s
    }
}

impl Delimiter {
    pub open spec fn open_spec(self) -> char {
        match self {
            Delimiter::Paren => '(',
            Delimiter::Bracket => '[',
            Delimiter::Brace => '{',
        }
    }

    pub open spec fn close_spec(self) -> char {
        match self {
            Delimiter::Paren => ')',
            Delimiter::Bracket => ']',
            Delimiter::Brace => '}',
        }
    }

    pub fn open(self) -> (r: char)
        ensures
            r == self.open_spec(),
    {
        match self {
            Delimiter::Paren => '(',
            Delimiter::Bracket => '[',
            Delimiter::Brace => '{',
        }
    }

    pub fn close(self) -> (r: char)
        ensures
            r == self.close_spec(),
    {
        match self {
            Delimiter::Paren => ')',
            Delimiter::Bracket => ']',
            Delimiter::Brace => '}',
        }
    }
}

/// A token.
#[derive(Debug)]
pub enum Token {
    Left(Delimiter, Location),
    Right(Delimiter, Location),
    /// An atom's text, whether it was quoted, and where it starts.
    Atom(String, bool, Location),
}

/// A token as a mathematical value.
pub enum TokenV {
    Left(Delimiter, nat, nat),
    Right(Delimiter, nat, nat),
    Atom(Seq<char>, bool, nat, nat),
}

impl View for Token {
    type V = TokenV;

    open spec fn view(&self) -> TokenV {
        match self {
            Token::Left(d, l) => TokenV::Left(*d, l.line as nat, l.column as nat),
            Token::Right(d, l) => TokenV::Right(*d, l.line as nat, l.column as nat),
            Token::Atom(t, q, l) => TokenV::Atom(t@, *q, l.line as nat, l.column as nat),
        }
    }
}

/// The views of a list of tokens.
pub open spec fn tokens_view(v: Seq<Token>) -> Seq<TokenV> {
    Seq::new(v.len(), |i: int| v[i]@)
}

/// Characters that end a bare atom, besides white space.
pub open spec fn atom_end(c: char) -> bool {
    c == '(' || c == ')' || c == '[' || c == ']' || c == '{' || c == '}' || c == ';'
}

pub open spec fn open_delimiter(c: char) -> Option<Delimiter> {
    if c == '(' {
        Some(Delimiter::Paren)
    } else if c == '[' {
        Some(Delimiter::Bracket)
    } else if c == '{' {
        Some(Delimiter::Brace)
    } else {
        None
    }
}

pub open spec fn close_delimiter(c: char) -> Option<Delimiter> {
    if c == ')' {
        Some(Delimiter::Paren)
    } else if c == ']' {
        Some(Delimiter::Bracket)
    } else if c == '}' {
        Some(Delimiter::Brace)
    } else {
        None
    }
}

/// Where scanning stands: next character, line and column.
pub struct Cursor {
    pub i: nat,
    pub line: nat,
    pub column: nat,
}

/// The end of a comment started at `i`: the cursor after its newline, or
/// after the end of the input.
pub open spec fn skip_comment(cs: Seq<char>, i: nat, line: nat, column: nat) -> Cursor
    decreases cs.len() - i,
{
    if i >= cs.len() {
        Cursor { i, line, column }
    } else if cs[i as int] == '\n' {
        Cursor { i: i + 1, line: line + 1, column: 1 }
    } else {
        skip_comment(cs, i + 1, line, column + 1)
    }
}

/// The end of a bare atom started at `i`, and its text.
pub open spec fn scan_bare(cs: Seq<char>, i: nat) -> nat
    decreases cs.len() - i,
{
    if i >= cs.len() || is_white(cs[i as int]) || atom_end(cs[i as int]) {
        i
    } else {
        scan_bare(cs, i + 1)
    }
}

/// The rest of a quoted atom after `i`: its text and the cursor after the
/// closing quote, or the error. `start` is where the atom began.
pub open spec fn scan_quoted(cs: Seq<char>, i: nat, line: nat, column: nat, start: (nat, nat)) -> Result<(Seq<char>, Cursor), Seq<char>>
    decreases cs.len() - i,
{
    if i >= cs.len() {
        Err(located(start.0, start.1, "unterminated quoted atom"@))
    } else {
        let c = cs[i as int];
        if c == '"' {
            Ok((Seq::empty(), Cursor { i: i + 1, line, column: column + 1 }))
        } else if c == '\\' {
            if i + 1 >= cs.len() {
                Err(located(line, column, "unterminated escape"@))
            } else {
                let e = cs[(i + 1) as int];
                let decoded = if e == 'n' {
                    Some('\n')
                } else if e == 't' {
                    Some('\t')
                } else if e == '"' || e == '\\' {
                    Some(e)
                } else {
                    None
                };
                match decoded {
                    None => Err(located(line, column, "unsupported escape \\"@ + seq![e])),
                    Some(d) => match scan_quoted(cs, i + 2, line, column + 2, start) {
                        Err(m) => Err(m),
                        Ok((text, cur)) => Ok((seq![d] + text, cur)),
                    },
                }
            }
        } else {
            let (l2, c2) = if c == '\n' { (line + 1, 1nat) } else { (line, column + 1) };
            match scan_quoted(cs, i + 1, l2, c2, start) {
                Err(m) => Err(m),
                Ok((text, cur)) => Ok((seq![c] + text, cur)),
            }
        }
    }
}

/// The tokens of `cs` from position `i` on.
pub open spec fn lex_from(cs: Seq<char>, i: nat, line: nat, column: nat) -> Result<Seq<TokenV>, Seq<char>>
    decreases cs.len() - i,
{
    if i >= cs.len() {
        Ok(Seq::empty())
    } else {
        let c = cs[i as int];
        if is_white(c) {
            if c == '\n' {
                lex_from(cs, i + 1, line + 1, 1)
            } else {
                lex_from(cs, i + 1, line, column + 1)
            }
        } else if c == ';' {
            let cur = skip_comment(cs, i + 1, line, column + 1);
            if cur.i <= i || cur.i > cs.len() {
                Ok(Seq::empty())
            } else {
                lex_from(cs, cur.i, cur.line, cur.column)
            }
        } else if open_delimiter(c) is Some {
            match lex_from(cs, i + 1, line, column + 1) {
                Err(m) => Err(m),
                Ok(rest) => Ok(seq![TokenV::Left(open_delimiter(c)->Some_0, line, column)] + rest),
            }
        } else if close_delimiter(c) is Some {
            match lex_from(cs, i + 1, line, column + 1) {
                Err(m) => Err(m),
                Ok(rest) => Ok(seq![TokenV::Right(close_delimiter(c)->Some_0, line, column)] + rest),
            }
        } else if c == '"' {
            match scan_quoted(cs, i + 1, line, column + 1, (line, column)) {
                Err(m) => Err(m),
                Ok((text, cur)) => if cur.i <= i || cur.i > cs.len() {
                    Ok(Seq::empty())
                } else {
                    match lex_from(cs, cur.i, cur.line, cur.column) {
                        Err(m) => Err(m),
                        Ok(rest) => Ok(seq![TokenV::Atom(text, true, line, column)] + rest),
                    }
                },
            }
        } else {
            let j = scan_bare(cs, i);
            if j <= i || j > cs.len() {
                Ok(Seq::empty())
            } else {
                match lex_from(cs, j, line, (column + j - i) as nat) {
                    Err(m) => Err(m),
                    Ok(rest) => Ok(seq![TokenV::Atom(cs.subrange(i as int, j as int), false, line, column)] + rest),
                }
            }
        }
    }
}


/// `acc` followed by a scanned text, errors passed through.
pub open spec fn prepend_text(acc: Seq<char>, r: Result<(Seq<char>, Cursor), Seq<char>>) -> Result<(Seq<char>, Cursor), Seq<char>> {
    match r {
        Err(m) => Err(m),
        Ok((t, cur)) => Ok((acc + t, cur)),
    }
}

/// `acc` followed by lexed tokens, errors passed through.
pub open spec fn prepend_tokens(acc: Seq<TokenV>, r: Result<Seq<TokenV>, Seq<char>>) -> Result<Seq<TokenV>, Seq<char>> {
    match r {
        Err(m) => Err(m),
        Ok(t) => Ok(acc + t),
    }
}

proof fn lemma_skip_comment(cs: Seq<char>, i: nat, line: nat, column: nat)
    requires
        i <= cs.len(),
    ensures
        i <= skip_comment(cs, i, line, column).i <= cs.len(),
    decreases cs.len() - i,
{
    if i < cs.len() && cs[i as int] != '\n' {
        lemma_skip_comment(cs, i + 1, line, column + 1);
    }
}

proof fn lemma_scan_bare(cs: Seq<char>, i: nat)
    requires
        i <= cs.len(),
    ensures
        i <= scan_bare(cs, i) <= cs.len(),
    decreases cs.len() - i,
{
    if !(i >= cs.len() || is_white(cs[i as int]) || atom_end(cs[i as int])) {
        lemma_scan_bare(cs, i + 1);
    }
}

proof fn lemma_scan_quoted(cs: Seq<char>, i: nat, line: nat, column: nat, start: (nat, nat))
    ensures
        scan_quoted(cs, i, line, column, start) matches Ok((_, cur)) ==> i < cur.i <= cs.len(),
    decreases cs.len() - i,
{
    if i < cs.len() {
        let c = cs[i as int];
        if c == '\\' {
            if i + 1 < cs.len() {
                lemma_scan_quoted(cs, i + 2, line, column + 2, start);
            }
        } else if c != '"' {
            let (l2, c2) = if c == '\n' { (line + 1, 1nat) } else { (line, column + 1) };
            lemma_scan_quoted(cs, i + 1, l2, c2, start);
        }
    }
}

/// The text of a quoted atom after its opening quote at `i - 1`.
fn lex_quoted(cs: &Vec<char>, i: usize, line: usize, column: usize, start: Location) -> (r: Result<(String, usize, usize, usize), String>)
    requires
        cs@.len() < usize::MAX,
        i <= cs@.len(),
        1 <= line <= i + 1,
        1 <= column <= i + 1,
    ensures
        match scan_quoted(cs@, i as nat, line as nat, column as nat, (start.line as nat, start.column as nat)) {
            Err(m) => r matches Err(e) && e@ == m,
            Ok((t, cur)) => r matches Ok((text, i2, l2, c2)) && text@ == t && i2 == cur.i && l2 == cur.line && c2 == cur.column
                && 1 <= l2 <= i2 + 1 && 1 <= c2 <= i2 + 1,
        },
{
    let ghost whole = scan_quoted(cs@, i as nat, line as nat, column as nat, (start.line as nat, start.column as nat));
    let mut text = String::new();
    proof {
        match whole {
            Ok((t, _)) => {
                assert(Seq::<char>::empty() + t =~= t);
            },
            Err(_) => {},
        }
    }
    let mut pos = i;
    let mut ln = line;
    let mut col = column;
    while pos < cs.len()
        invariant
            cs@.len() < usize::MAX,
            pos <= cs@.len(),
            1 <= ln <= pos + 1,
            1 <= col <= pos + 1,
            whole == prepend_text(text@, scan_quoted(cs@, pos as nat, ln as nat, col as nat, (start.line as nat, start.column as nat))),
            whole == scan_quoted(cs@, i as nat, line as nat, column as nat, (start.line as nat, start.column as nat)),
        decreases cs@.len() - pos,
    {
        let c = cs[pos];
        if c == '"' {
            proof {
                assert(text@ + Seq::<char>::empty() =~= text@);
            }
            return Ok((text, pos + 1, ln, col + 1));
        } else if c == '\\' {
            let escape = Location { line: ln, column: col };
            if pos + 1 >= cs.len() {
                return Err(escape.error("unterminated escape"));
            }
            let e = cs[pos + 1];
            let decoded = if e == 'n' {
                '\n'
            } else if e == 't' {
                '\t'
            } else if e == '"' || e == '\\' {
                e
            } else {
                let mut message = String::new();
                push_str(&mut message, "unsupported escape \\");
                push_char(&mut message, e);
                return Err(escape.error(message.as_str()));
            };
            let ghost before = text@;
            push_char(&mut text, decoded);
            proof {
                let rest = scan_quoted(cs@, (pos + 2) as nat, ln as nat, (col + 2) as nat, (start.line as nat, start.column as nat));
                match rest {
                    Err(_) => {},
                    Ok((t, cur)) => {
                        assert(before + (seq![decoded] + t) =~= text@ + t);
                    },
                }
            }
            pos = pos + 2;
            col = col + 2;
        } else {
            let ghost before = text@;
            push_char(&mut text, c);
            let ghost (l2, c2) = if c == '\n' { (ln as nat + 1, 1nat) } else { (ln as nat, col as nat + 1) };
            proof {
                let rest = scan_quoted(cs@, (pos + 1) as nat, l2, c2, (start.line as nat, start.column as nat));
                match rest {
                    Err(_) => {},
                    Ok((t, cur)) => {
                        assert(before + (seq![c] + t) =~= text@ + t);
                    },
                }
            }
            if c == '\n' {
                ln = ln + 1;
                col = 1;
            } else {
                col = col + 1;
            }
            pos = pos + 1;
        }
    }
    Err(start.error("unterminated quoted atom"))
}

/// Split input into tokens.
pub fn lex(input: &str) -> (r: Result<Vec<Token>, String>)
    requires
        input@.len() < usize::MAX,
    ensures
        match lex_from(input@, 0, 1, 1) {
            Err(m) => r matches Err(e) && e@ == m,
            Ok(ts) => r matches Ok(v) && tokens_view(v@) == ts,
        },
{
    let cs = chars_of(input);
    let ghost whole = lex_from(cs@, 0, 1, 1);
    let mut tokens: Vec<Token> = Vec::new();
    let mut i: usize = 0;
    let mut line: usize = 1;
    let mut column: usize = 1;
    proof {
        assert(tokens_view(tokens@) =~= Seq::<TokenV>::empty());
        assert(Seq::<TokenV>::empty() + Seq::<TokenV>::empty() =~= Seq::<TokenV>::empty());
    }
    while i < cs.len()
        invariant
            cs@ == input@,
            cs@.len() < usize::MAX,
            i <= cs@.len(),
            1 <= line <= i + 1,
            1 <= column <= i + 1,
            whole == prepend_tokens(tokens_view(tokens@), lex_from(cs@, i as nat, line as nat, column as nat)),
            whole == lex_from(cs@, 0, 1, 1),
        decreases cs@.len() - i,
    {
        let ghost tv = tokens_view(tokens@);
        let ch = cs[i];
        if is_whitespace(ch) {
            if ch == '\n' {
                line = line + 1;
                column = 1;
            } else {
                column = column + 1;
            }
            i = i + 1;
        } else if ch == ';' {
            let mut j = i + 1;
            let mut c2 = column + 1;
            let mut l2 = line;
            proof {
                lemma_skip_comment(cs@, (i + 1) as nat, line as nat, (column + 1) as nat);
            }
            let ghost target = skip_comment(cs@, (i + 1) as nat, line as nat, (column + 1) as nat);
            while j < cs.len() && cs[j] != '\n'
                invariant
                    cs@.len() < usize::MAX,
                    i < j <= cs@.len(),
                    1 <= l2 <= j + 1,
                    1 <= c2 <= j + 1,
                    skip_comment(cs@, j as nat, l2 as nat, c2 as nat) == target,
                decreases cs@.len() - j,
            {
                j = j + 1;
                c2 = c2 + 1;
            }
            if j < cs.len() {
                j = j + 1;
                l2 = l2 + 1;
                c2 = 1;
            }
            proof {
                assert(target == Cursor { i: j as nat, line: l2 as nat, column: c2 as nat });
            }
            i = j;
            line = l2;
            column = c2;
        } else if ch == '(' || ch == '[' || ch == '{' {
            let delimiter = if ch == '(' {
                Delimiter::Paren
            } else if ch == '[' {
                Delimiter::Bracket
            } else {
                Delimiter::Brace
            };
            tokens.push(Token::Left(delimiter, Location { line, column }));
            proof {
                let rest = lex_from(cs@, (i + 1) as nat, line as nat, (column + 1) as nat);
                assert(tokens_view(tokens@) =~= tv.push(TokenV::Left(delimiter, line as nat, column as nat)));
                match rest {
                    Err(_) => {},
                    Ok(t) => {
                        assert(tv + (seq![TokenV::Left(delimiter, line as nat, column as nat)] + t) =~= tokens_view(tokens@) + t);
                    },
                }
            }
            column = column + 1;
            i = i + 1;
        } else if ch == ')' || ch == ']' || ch == '}' {
            let delimiter = if ch == ')' {
                Delimiter::Paren
            } else if ch == ']' {
                Delimiter::Bracket
            } else {
                Delimiter::Brace
            };
            tokens.push(Token::Right(delimiter, Location { line, column }));
            proof {
                let rest = lex_from(cs@, (i + 1) as nat, line as nat, (column + 1) as nat);
                assert(tokens_view(tokens@) =~= tv.push(TokenV::Right(delimiter, line as nat, column as nat)));
                match rest {
                    Err(_) => {},
                    Ok(t) => {
                        assert(tv + (seq![TokenV::Right(delimiter, line as nat, column as nat)] + t) =~= tokens_view(tokens@) + t);
                    },
                }
            }
            column = column + 1;
            i = i + 1;
        } else if ch == '"' {
            let start = Location { line, column };
            proof {
                lemma_scan_quoted(cs@, (i + 1) as nat, line as nat, (column + 1) as nat, (line as nat, column as nat));
            }
            match lex_quoted(&cs, i + 1, line, column + 1, start) {
                Err(e) => {
                    return Err(e);
                },
                Ok((text, i2, l2, c2)) => {
                    let ghost tt = text@;
                    tokens.push(Token::Atom(text, true, start));
                    proof {
                        let rest = lex_from(cs@, i2 as nat, l2 as nat, c2 as nat);
                        assert(tokens_view(tokens@) =~= tv.push(TokenV::Atom(tt, true, line as nat, column as nat)));
                        match rest {
                            Err(_) => {},
                            Ok(t) => {
                                assert(tv + (seq![TokenV::Atom(tt, true, line as nat, column as nat)] + t) =~= tokens_view(tokens@) + t);
                            },
                        }
                    }
                    i = i2;
                    line = l2;
                    column = c2;
                },
            }
        } else {
            let start = Location { line, column };
            let mut atom: Vec<char> = Vec::new();
            let mut j = i;
            proof {
                lemma_scan_bare(cs@, i as nat);
            }
            while j < cs.len() && !is_whitespace(cs[j]) && !(cs[j] == '(' || cs[j] == ')' || cs[j] == '[' || cs[j]
                == ']' || cs[j] == '{' || cs[j] == '}' || cs[j] == ';')
                invariant
                    i <= j <= cs@.len(),
                    scan_bare(cs@, j as nat) == scan_bare(cs@, i as nat),
                    atom@ == cs@.subrange(i as int, j as int),
                decreases cs@.len() - j,
            {
                atom.push(cs[j]);
                proof {
                    assert(atom@ =~= cs@.subrange(i as int, j + 1));
                }
                j = j + 1;
            }
            let text = string_of(atom.as_slice());
            tokens.push(Token::Atom(text, false, start));
            proof {
                let rest = lex_from(cs@, j as nat, line as nat, (column + j - i) as nat);
                let tt = cs@.subrange(i as int, j as int);
                assert(tokens_view(tokens@) =~= tv.push(TokenV::Atom(tt, false, line as nat, column as nat)));
                match rest {
                    Err(_) => {},
                    Ok(t) => {
                        assert(tv + (seq![TokenV::Atom(tt, false, line as nat, column as nat)] + t) =~= tokens_view(tokens@) + t);
                    },
                }
            }
            column = column + (j - i);
            i = j;
        }
    }
    proof {
        assert(tokens_view(tokens@) + Seq::<TokenV>::empty() =~= tokens_view(tokens@));
    }
    Ok(tokens)
}

} // verus!
