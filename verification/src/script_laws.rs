//! Laws of scripts and their errors.
use vstd::prelude::*;
use crate::lexer::located;
use crate::text::{decimal, digit_char, digit_value, digits_value, all_digits, is_digit, usize_text, digits_number};
use crate::script::{terminal_spec, location_parts, first_index, first_pair, pair_at};

verus! {

/// A decimal numeral is a non-empty string of digits worth its number.
proof fn lemma_decimal_digits(n: nat)
    ensures
        decimal(n).len() > 0,
        all_digits(decimal(n)),
        digits_value(decimal(n)) == n,
    decreases n,
{
    let d = (n % 10) as nat;
    assert(is_digit(digit_char(d)) && digit_value(digit_char(d)) == d) by {
        assert(d < 10);
    }
    if n >= 10 {
        lemma_decimal_digits(n / 10);
        let s = decimal(n);
        assert(s.drop_last() =~= decimal(n / 10));
        assert(s.last() == digit_char(d));
        assert forall|i: int| 0 <= i < s.len() implies is_digit(#[trigger] s[i]) by {
            if i < s.len() - 1 {
                assert(s[i] == decimal(n / 10)[i]);
            }
        }
        assert((n / 10) * 10 + n % 10 == n) by (nonlinear_arith);
        assert(digits_value(s) == digits_value(decimal(n / 10)) * 10 + digit_value(digit_char(d)));
    } else {
        let s = decimal(n);
        assert(s.drop_last() =~= Seq::<char>::empty());
        assert(digits_value(s) == digits_value(s.drop_last()) * 10 + digit_value(digit_char(d)));
    }
}

/// The first `:` of `a + [':'] + b`, where `a` holds none, is right after `a`.
proof fn lemma_first_colon(a: Seq<char>, b: Seq<char>)
    requires
        all_digits(a),
    ensures
        first_index(a + seq![':'] + b, ':') == Some(a.len()),
{
    let s = a + seq![':'] + b;
    let k = a.len() as int;
    assert(s[k] == ':');
    assert forall|j: int| 0 <= j < k implies s[j] != ':' by {
        assert(s[j] == a[j]);
        assert(is_digit(a[j]));
    }
    let w = choose|i: int| 0 <= i < s.len() && s[i] == ':' && forall|j: int| 0 <= j < i ==> s[j] != ':';
    if w < k {
        assert(s[w] == a[w]);
        assert(is_digit(a[w]));
    } else if w > k {
        assert(s[k] != ':');
    }
}

/// The first `: ` of `a + ": " + b`, where `a` holds no `:`, is right
/// after `a`.
proof fn lemma_first_colon_space(a: Seq<char>, b: Seq<char>)
    requires
        all_digits(a),
    ensures
        first_pair(a + ": "@ + b, ':', ' ') == Some(a.len()),
{
    reveal_strlit(": ");
    let s = a + ": "@ + b;
    let k = a.len() as int;
    assert(pair_at(s, k, ':', ' '));
    assert forall|j: int| 0 <= j < k implies !#[trigger] pair_at(s, j, ':', ' ') by {
        assert(s[j] == a[j]);
        assert(is_digit(a[j]));
    }
    let w = choose|i: int| pair_at(s, i, ':', ' ') && forall|j: int| 0 <= j < i ==> !#[trigger] pair_at(s, j, ':', ' ');
    if w < k {
        assert(s[w] == a[w]);
        assert(is_digit(a[w]));
    } else if w > k {
        assert(!pair_at(s, k, ':', ' '));
    }
}

/// A numeral that fits in `usize` reads back as its number.
proof fn lemma_decimal_reads_back(n: nat)
    requires
        n <= usize::MAX,
    ensures
        usize_text(decimal(n)) == Some(n),
{
    lemma_decimal_digits(n);
    assert(is_digit(decimal(n)[0]));
}

/// The parts of `LINE:COLUMN: MESSAGE` for numerals `LINE` and `COLUMN`.
proof fn lemma_location_parts(l: Seq<char>, c: Seq<char>, message: Seq<char>)
    requires
        all_digits(l),
        all_digits(c),
    ensures
        location_parts(l + seq![':'] + (c + ": "@ + message)) == Some((l, c, message)),
{
    reveal_strlit(": ");
    let rest = l + seq![':'] + (c + ": "@ + message);
    lemma_first_colon(l, c + ": "@ + message);
    let rest2 = rest.skip(l.len() + 1int);
    assert(rest2 =~= c + ": "@ + message);
    lemma_first_colon_space(c, message);
    assert(rest.take(l.len() as int) =~= l);
    assert(rest2.take(c.len() as int) =~= c);
    assert(rest2.skip(c.len() + 2int) =~= message);
}

/// Every error the library places at a line and column is shown to a
/// terminal as `SOURCE:LINE:COLUMN: error: MESSAGE`.
#[verifier::spinoff_prover]
pub proof fn law_terminal_shows_location(source: Seq<char>, line: nat, column: nat, message: Seq<char>)
    requires
        line <= usize::MAX,
        column <= usize::MAX,
    ensures
        terminal_spec(source, located(line, column, message)) == source + ":"@ + decimal(line) + ":"@ + decimal(column)
            + ": error: "@ + message,
{
    reveal_strlit("line ");
    let e = located(line, column, message);
    let l = decimal(line);
    let c = decimal(column);
    lemma_decimal_digits(line);
    lemma_decimal_digits(column);
    lemma_decimal_reads_back(line);
    lemma_decimal_reads_back(column);
    let rest = l + seq![':'] + (c + ": "@ + message);
    assert(e =~= "line "@ + rest);
    assert(e.take(5) =~= "line "@);
    assert(e.skip(5) =~= rest);
    lemma_location_parts(l, c, message);
}

} // verus!
