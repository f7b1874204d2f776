//! Decimal text of unsigned integers: the form in which book ids, ports and
//! cookie ages are written, and the parser that reads ids back.

use vstd::prelude::*;
use crate::text::push_char;

verus! {

/// The character of a decimal digit.
pub open spec fn digit_char(d: nat) -> char {
    (d + 48) as char
}

/// Whether `c` is one of the ASCII digits `0`..`9`.
pub open spec fn is_digit(c: char) -> bool {
    48 <= (c as int) <= 57
}

/// The value of an ASCII digit.
pub open spec fn digit_value(c: char) -> nat {
    ((c as int) - 48) as nat
}

/// The decimal text of `n`, without sign and without leading zeros.
pub open spec fn decimal(n: nat) -> Seq<char>
    decreases n,
{
    if n < 10 {
        seq![digit_char(n)]
    } else {
        decimal(n / 10).push(digit_char(n % 10))
    }
}

/// Why a text is not the decimal form of a `usize`.
#[derive(Debug, Clone, Copy, PartialEq, Eq, Structural)]
pub enum ParseIdError {
    /// The text is empty.
    Empty,
    /// A character is not a digit (a lone sign counts as one).
    InvalidDigit,
    /// The number does not fit in a `usize`.
    Overflow,
}

/// Reads the digits `s` from left to right, starting from the value `acc`;
/// the first character that is no digit, or the first step past
/// `usize::MAX`, decides the error.
pub open spec fn parse_digits(s: Seq<char>, acc: nat) -> Result<nat, ParseIdError>
    decreases s.len(),
{
    if s.len() == 0 {
        Ok(acc)
    } else if !is_digit(s[0]) {
        Err(ParseIdError::InvalidDigit)
    } else if acc * 10 + digit_value(s[0]) > usize::MAX {
        Err(ParseIdError::Overflow)
    } else {
        parse_digits(s.drop_first(), acc * 10 + digit_value(s[0]))
    }
}

/// What `str::parse::<usize>` gives for `s`: an empty text is refused, one
/// leading `+` is allowed when digits follow it, and the rest is read as
/// decimal digits.
pub open spec fn parse_usize_spec(s: Seq<char>) -> Result<nat, ParseIdError> {
    if s.len() == 0 {
        Err(ParseIdError::Empty)
    } else if s[0] == '+' && s.len() == 1 {
        Err(ParseIdError::InvalidDigit)
    } else if s[0] == '+' {
        parse_digits(s.drop_first(), 0)
    } else {
        parse_digits(s, 0)
    }
}

proof fn lemma_parse_digits_bound(s: Seq<char>, acc: nat)
    requires
        acc <= usize::MAX,
    ensures
        parse_digits(s, acc) matches Ok(v) ==> v <= usize::MAX,
    decreases s.len(),
{
    if s.len() > 0 && is_digit(s[0]) && acc * 10 + digit_value(s[0]) <= usize::MAX {
        lemma_parse_digits_bound(s.drop_first(), acc * 10 + digit_value(s[0]));
    }
}

/// Whatever `str::parse::<usize>` accepts fits in a `usize`.
pub proof fn lemma_parse_usize_bound(s: Seq<char>)
    ensures
        parse_usize_spec(s) matches Ok(v) ==> v <= usize::MAX,
{
    lemma_parse_digits_bound(s, 0);
    if s.len() > 0 {
        lemma_parse_digits_bound(s.drop_first(), 0);
    }
}

proof fn lemma_decimal_digits(n: nat)
    ensures
        decimal(n).len() >= 1,
        forall|i: int| 0 <= i < decimal(n).len() ==> #[trigger] is_digit(decimal(n)[i]),
    decreases n,
{
    if n >= 10 {
        lemma_decimal_digits(n / 10);
    }
}

proof fn lemma_parse_digits_append(s: Seq<char>, t: Seq<char>, acc: nat)
    ensures
        parse_digits(s + t, acc) == match parse_digits(s, acc) {
            Ok(v) => parse_digits(t, v),
            Err(e) => Err(e),
        },
    decreases s.len(),
{
    if s.len() == 0 {
        assert(s + t =~= t);
    } else {
        assert((s + t).drop_first() =~= s.drop_first() + t);
        assert((s + t)[0] == s[0]);
        if is_digit(s[0]) && acc * 10 + digit_value(s[0]) <= usize::MAX {
            lemma_parse_digits_append(s.drop_first(), t, acc * 10 + digit_value(s[0]));
        }
    }
}

/// Reading the decimal text of `n` from zero gives `n` back.
proof fn lemma_parse_decimal(n: nat)
    requires
        n <= usize::MAX,
    ensures
        parse_digits(decimal(n), 0) == Ok::<nat, ParseIdError>(n),
    decreases n,
{
    if n < 10 {
        let s = decimal(n);
        let c = digit_char(n);
        assert(c as int == n + 48);
        assert(is_digit(c));
        assert(s[0] == c);
        assert(s.drop_first() =~= Seq::<char>::empty());
        assert(digit_value(c) == n);
        assert(parse_digits(s.drop_first(), n) == Ok::<nat, ParseIdError>(n));
    } else {
        lemma_parse_decimal(n / 10);
        let c = digit_char(n % 10);
        assert(decimal(n) =~= decimal(n / 10) + seq![c]);
        lemma_parse_digits_append(decimal(n / 10), seq![c], 0);
        assert(digit_value(c) == n % 10);
        assert((n / 10) * 10 + n % 10 == n);
        assert(seq![c].drop_first() =~= Seq::<char>::empty());
        assert(c as int == n % 10 + 48);
        assert(is_digit(c));
        assert(seq![c][0] == c);
        assert(parse_digits(seq![c].drop_first(), n) == Ok::<nat, ParseIdError>(n));
        assert(parse_digits(seq![c], n / 10) == Ok::<nat, ParseIdError>(n));
    }
}

/// Law: the text that `usize_to_decimal` writes for a number is read back by
/// `parse_usize` as that same number.
pub proof fn law_parse_reads_back_decimal(n: usize)
    ensures
        parse_usize_spec(decimal(n as nat)) == Ok::<nat, ParseIdError>(n as nat),
{
    lemma_decimal_digits(n as nat);
    lemma_parse_decimal(n as nat);
    assert(is_digit(decimal(n as nat)[0]));
}

/// Law: the decimal text of a number is canonical: at least one
/// character, all of them digits, and no leading zero; `0` alone is
/// written `0`. With the read-back law this fixes the text of every number.
pub proof fn law_decimal_has_no_leading_zero(n: nat)
    ensures
        decimal(n).len() >= 1,
        forall|i: int| 0 <= i < decimal(n).len() ==> is_digit(#[trigger] decimal(n)[i]),
        decimal(n)[0] == '0' ==> n == 0 && decimal(n).len() == 1,
        n == 0 ==> decimal(n) == seq!['0'],
    decreases n,
{
    lemma_decimal_digits(n);
    if n >= 10 {
        law_decimal_has_no_leading_zero(n / 10);
        assert(decimal(n)[0] == decimal(n / 10)[0]);
    } else {
        assert(decimal(n)[0] == digit_char(n));
        assert(digit_char(n) as int == n + 48);
    }
}

/// Writes `n` in decimal.
pub fn usize_to_decimal(n: usize) -> (res: String)
    ensures
        res@ == decimal(n as nat),
    decreases n,
{
    if n < 10 {
        let mut s = String::new();
        push_char(&mut s, ((n as u8) + 48u8) as char);
        assert(s@ =~= seq![digit_char(n as nat)]);
        s
    } else {
        let mut s = usize_to_decimal(n / 10);
        let d = n % 10;
        push_char(&mut s, ((d as u8) + 48u8) as char);
        s
    }
}

/// Reads a `usize` from its decimal text, as `str::parse::<usize>` does.
pub fn parse_usize(s: &str) -> (res: Result<usize, ParseIdError>)
    ensures
        match parse_usize_spec(s@) {
            Ok(v) => res == Ok::<usize, ParseIdError>(v as usize),
            Err(e) => res == Err::<usize, ParseIdError>(e),
        },
        parse_usize_spec(s@) matches Ok(v) ==> v <= usize::MAX,
{
    proof {
        lemma_parse_usize_bound(s@);
    }
    let n = s.unicode_len();
    if n == 0 {
        return Err(ParseIdError::Empty);
    }
    let first = s.get_char(0);
    let mut i: usize = 0;
    if first == '+' {
        if n == 1 {
            return Err(ParseIdError::InvalidDigit);
        }
        i = 1;
    }
    let ghost start = i as int;
    let ghost digits = s@.subrange(start, n as int);
    proof {
        if first == '+' {
            assert(s@.drop_first() =~= digits);
        } else {
            assert(s@ =~= digits);
        }
    }
    let mut acc: usize = 0;
    while i < n
        invariant
            n == s@.len(),
            start <= i <= n,
            digits == s@.subrange(start, n as int),
            parse_usize_spec(s@) == parse_digits(digits, 0),
            parse_digits(digits, 0) == parse_digits(s@.subrange(i as int, n as int), acc as nat),
        decreases n - i,
    {
        let c = s.get_char(i);
        let ghost rest = s@.subrange(i as int, n as int);
        assert(rest[0] == c);
        assert(rest.drop_first() =~= s@.subrange(i + 1, n as int));
        if !('0' <= c && c <= '9') {
            assert(!is_digit(c));
            return Err(ParseIdError::InvalidDigit);
        }
        assert(is_digit(c));
        let d = (c as u32 - 48) as usize;
        assert(d == digit_value(c));
        if acc > (usize::MAX - d) / 10 {
            assert(acc * 10 + d > usize::MAX) by (nonlinear_arith)
                requires acc > (usize::MAX - d) / 10, d <= 9;
            return Err(ParseIdError::Overflow);
        }
        assert(acc * 10 + d <= usize::MAX) by (nonlinear_arith)
            requires acc <= (usize::MAX - d) / 10, d <= 9;
        acc = acc * 10 + d;
        i = i + 1;
    }
    assert(s@.subrange(n as int, n as int) =~= Seq::<char>::empty());
    Ok(acc)
}

} // verus!
