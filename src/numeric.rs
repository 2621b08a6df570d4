//! Decimal parsing and formatting of `i32` values typed by a user.
use vstd::prelude::*;

verus! {

/// Why a piece of text is not a decimal `i32`.
#[derive(Debug, Clone, Copy, PartialEq, Eq, Structural)]
pub enum NumError {
    Empty,
    InvalidDigit,
    PosOverflow,
    NegOverflow,
}

pub open spec fn is_digit(c: char) -> bool {
    '0' <= c && c <= '9'
}

pub open spec fn digit_value(c: char) -> int {
    c as int - '0' as int
}

/// Reads `body[i..]` after the sign, left to right, as std's integer parser
/// does: the first character that is not a digit, or the first digit that
/// takes the value out of range, decides the error.
pub open spec fn scan(body: Seq<char>, neg: bool, i: int, acc: int) -> Result<int, NumError>
    decreases body.len() - i,
{
    if i < 0 || i >= body.len() {
        Ok(acc)
    } else if !is_digit(body[i]) {
        Err(NumError::InvalidDigit)
    } else {
        let next = if neg {
            acc * 10 - digit_value(body[i])
        } else {
            acc * 10 + digit_value(body[i])
        };
        if next < i32::MIN as int {
            Err(NumError::NegOverflow)
        } else if next > i32::MAX as int {
            Err(NumError::PosOverflow)
        } else {
            scan(body, neg, i + 1, next)
        }
    }
}

/// What parsing `s` as a decimal `i32` gives: an optional `+` or `-`, then
/// at least one digit and nothing else.
pub open spec fn parse_spec(s: Seq<char>) -> Result<int, NumError> {
    if s.len() == 0 {
        Err(NumError::Empty)
    } else {
        let signed = s[0] == '+' || s[0] == '-';
        let body = if signed { s.drop_first() } else { s };
        if body.len() == 0 {
            Err(NumError::InvalidDigit)
        } else {
            scan(body, s[0] == '-', 0, 0)
        }
    }
}

pub open spec fn digit_char(d: nat) -> char
    recommends d < 10,
{
    ('0' as nat + d) as char
}

/// The decimal digits of `n`, most significant first, without leading zeros.
pub open spec fn digits_of(n: nat) -> Seq<char>
    decreases n,
{
    if n < 10 {
        seq![digit_char(n)]
    } else {
        digits_of(n / 10).push(digit_char(n % 10))
    }
}

/// The decimal text of `n`: a `-` before negative values.
pub open spec fn decimal_of(n: int) -> Seq<char> {
    if n < 0 {
        seq!['-'] + digits_of((-n) as nat)
    } else {
        digits_of(n as nat)
    }
}

/// The value of a string of decimal digits.
pub open spec fn digits_value(s: Seq<char>) -> int
    decreases s.len(),
{
    if s.len() == 0 {
        0
    } else {
        digits_value(s.drop_last()) * 10 + digit_value(s.last())
    }
}

pub open spec fn all_digits(s: Seq<char>) -> bool {
    forall|i: int| 0 <= i < s.len() ==> is_digit(#[trigger] s[i])
}

proof fn lemma_digit_char(d: nat)
    requires
        d < 10,
    ensures
        is_digit(digit_char(d)),
        digit_value(digit_char(d)) == d,
{
}

proof fn lemma_digits_of(n: nat)
    ensures
        digits_of(n).len() > 0,
        all_digits(digits_of(n)),
        digits_value(digits_of(n)) == n,
    decreases n,
{
    if n < 10 {
        lemma_digit_char(n);
        let s = digits_of(n);
        assert(s.drop_last() =~= Seq::<char>::empty());
        assert(s.last() == digit_char(n));
        assert(digits_value(s) == digits_value(s.drop_last()) * 10 + digit_value(s.last()));
    } else {
        lemma_digits_of(n / 10);
        lemma_digit_char(n % 10);
        let s = digits_of(n);
        assert(s.drop_last() =~= digits_of(n / 10));
        assert(s.last() == digit_char(n % 10));
        assert(digits_value(s) == digits_value(s.drop_last()) * 10 + digit_value(s.last()));
        assert((n / 10) * 10 + n % 10 == n);
        assert forall|i: int| 0 <= i < s.len() implies is_digit(#[trigger] s[i]) by {
            if i < s.len() - 1 {
                assert(s[i] == digits_of(n / 10)[i]);
            }
        }
    }
}

proof fn lemma_digits_value_nonneg(s: Seq<char>)
    requires
        all_digits(s),
    ensures
        digits_value(s) >= 0,
    decreases s.len(),
{
    if s.len() > 0 {
        assert(all_digits(s.drop_last())) by {
            assert forall|i: int| 0 <= i < s.drop_last().len() implies is_digit(#[trigger] s.drop_last()[i]) by {
                assert(s.drop_last()[i] == s[i]);
            }
        }
        lemma_digits_value_nonneg(s.drop_last());
        assert(is_digit(s[s.len() - 1]));
    }
}

proof fn lemma_prefix_value(s: Seq<char>, i: int)
    requires
        all_digits(s),
        0 <= i <= s.len(),
    ensures
        0 <= digits_value(s.subrange(0, i)) <= digits_value(s),
    decreases s.len(),
{
    if i == s.len() {
        assert(s.subrange(0, i) =~= s);
        lemma_digits_value_nonneg(s);
    } else {
        let d = s.drop_last();
        assert(all_digits(d)) by {
            assert forall|j: int| 0 <= j < d.len() implies is_digit(#[trigger] d[j]) by {
                assert(d[j] == s[j]);
            }
        }
        lemma_prefix_value(d, i);
        assert(d.subrange(0, i) =~= s.subrange(0, i));
        lemma_digits_value_nonneg(d);
        assert(is_digit(s[s.len() - 1]));
    }
}

proof fn lemma_scan_digits(body: Seq<char>, neg: bool, i: int)
    requires
        all_digits(body),
        0 <= i <= body.len(),
        neg ==> digits_value(body) <= 0x8000_0000,
        !neg ==> digits_value(body) <= 0x7fff_ffff,
    ensures
        scan(body, neg, i, if neg { -digits_value(body.subrange(0, i)) } else { digits_value(body.subrange(0, i)) })
            == Ok::<int, NumError>(if neg { -digits_value(body) } else { digits_value(body) }),
    decreases body.len() - i,
{
    if i == body.len() {
        assert(body.subrange(0, i) =~= body);
    } else {
        let p = body.subrange(0, i);
        let q = body.subrange(0, i + 1);
        assert(q.drop_last() =~= p);
        assert(q.last() == body[i]);
        assert(is_digit(body[i]));
        lemma_prefix_value(body, i + 1);
        lemma_scan_digits(body, neg, i + 1);
    }
}

/// Formatting a number and parsing the text back gives the number.
pub proof fn lemma_format_parse_round_trip(n: i32)
    ensures
        parse_spec(decimal_of(n as int)) == Ok::<int, NumError>(n as int),
{
    let s = decimal_of(n as int);
    if n < 0 {
        let m = (-(n as int)) as nat;
        lemma_digits_of(m);
        assert(s.drop_first() =~= digits_of(m));
        assert(s[0] == '-');
        lemma_scan_digits(digits_of(m), true, 0);
        assert(digits_of(m).subrange(0, 0) =~= Seq::<char>::empty());
    } else {
        let m = n as nat;
        lemma_digits_of(m);
        assert(is_digit(s[0]));
        lemma_scan_digits(digits_of(m), false, 0);
        assert(digits_of(m).subrange(0, 0) =~= Seq::<char>::empty());
    }
}

fn scan_body(s: &str, start: usize, neg: bool) -> (r: Result<i32, NumError>)
    requires
        start <= s@.len(),
    ensures
        match r {
            Ok(v) => scan(s@.subrange(start as int, s@.len() as int), neg, 0, 0) == Ok::<int, NumError>(v as int),
            Err(e) => scan(s@.subrange(start as int, s@.len() as int), neg, 0, 0) == Err::<int, NumError>(e),
        },
{
    let ghost body = s@.subrange(start as int, s@.len() as int);
    let len = s.unicode_len();
    let mut i: usize = start;
    let mut acc: i32 = 0;
    while i < len
        invariant
            start <= i <= len,
            len == s@.len(),
            body == s@.subrange(start as int, s@.len() as int),
            scan(body, neg, 0, 0) == scan(body, neg, (i - start) as int, acc as int),
        decreases len - i,
    {
        let c = s.get_char(i);
        assert(body[(i - start) as int] == c);
        if c < '0' || c > '9' {
            return Err(NumError::InvalidDigit);
        }
        let d: i64 = (c as u32 - '0' as u32) as i64;
        let next: i64 = if neg {
            acc as i64 * 10 - d
        } else {
            acc as i64 * 10 + d
        };
        if next < i32::MIN as i64 {
            return Err(NumError::NegOverflow);
        }
        if next > i32::MAX as i64 {
            return Err(NumError::PosOverflow);
        }
        acc = next as i32;
        i = i + 1;
    }
    Ok(acc)
}

/// Parses the text of a numeric input as a decimal `i32`, as `str::parse`
/// does: no surrounding whitespace, an optional sign, then digits.
pub fn parse_i32(s: &str) -> (r: Result<i32, NumError>)
    ensures
        match r {
            Ok(v) => parse_spec(s@) == Ok::<int, NumError>(v as int),
            Err(e) => parse_spec(s@) == Err::<int, NumError>(e),
        },
{
    let len = s.unicode_len();
    if len == 0 {
        return Err(NumError::Empty);
    }
    let c0 = s.get_char(0);
    let signed = c0 == '+' || c0 == '-';
    let start: usize = if signed { 1 } else { 0 };
    if start == len {
        return Err(NumError::InvalidDigit);
    }
    proof {
        if signed {
            assert(s@.drop_first() =~= s@.subrange(1, s@.len() as int));
        } else {
            assert(s@ =~= s@.subrange(0, s@.len() as int));
        }
    }
    scan_body(s, start, c0 == '-')
}

/// The number typed into an input, or 0 when the text is not a number.
pub fn parse_or_zero(s: &str) -> (r: i32)
    ensures
        match parse_spec(s@) {
            Ok(v) => r as int == v,
            Err(_) => r == 0,
        },
{
    match parse_i32(s) {
        Ok(v) => v,
        Err(_) => 0,
    }
}

/// What the slow loader computes from its source value: ten times it, or
/// `None` where that leaves the range of `i32`.
pub fn load_data(value: i32) -> (r: Option<i32>)
    ensures
        match r {
            Some(v) => v as int == value as int * 10,
            None => value as int * 10 > i32::MAX || value as int * 10 < i32::MIN,
        },
{
    value.checked_mul(10)
}

fn digit_text(d: u32) -> (r: &'static str)
    requires
        d < 10,
    ensures
        r@ == seq![digit_char(d as nat)],
{
    proof {
        reveal_strlit("0");
        reveal_strlit("1");
        reveal_strlit("2");
        reveal_strlit("3");
        reveal_strlit("4");
        reveal_strlit("5");
        reveal_strlit("6");
        reveal_strlit("7");
        reveal_strlit("8");
        reveal_strlit("9");
    }
    match d {
        0 => "0",
        1 => "1",
        2 => "2",
        3 => "3",
        4 => "4",
        5 => "5",
        6 => "6",
        7 => "7",
        8 => "8",
        _ => "9",
    }
}

fn push_digits(out: &mut String, n: u32)
    ensures
        final(out)@ == old(out)@ + digits_of(n as nat),
    decreases n,
{
    if n >= 10 {
        push_digits(out, n / 10);
    }
    out.append(digit_text(n % 10));
    proof {
        if n >= 10 {
            assert(old(out)@ + digits_of(n as nat) =~= old(out)@ + digits_of((n / 10) as nat) + seq![digit_char((n % 10) as nat)]);
        } else {
            assert(n % 10 == n);
        }
    }
}

/// Formats `n` in decimal, with a leading `-` when it is negative.
pub fn format_i32(n: i32) -> (r: String)
    ensures
        r@ == decimal_of(n as int),
{
    let mut out = String::new();
    if n < 0 {
        proof {
            reveal_strlit("-");
        }
        out.append("-");
        let mag: u32 = (-(n as i64)) as u32;
        push_digits(&mut out, mag);
    } else {
        push_digits(&mut out, n as u32);
    }
    out
}

} // verus!
