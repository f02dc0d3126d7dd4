//! Reading numbers from text, and writing counts in decimal.
use vstd::prelude::*;

verus! {

/// The decimal digits of `n`, most significant first, without sign or
/// leading zeros.
pub open spec fn decimal(n: nat) -> Seq<char>
    decreases n,
{
    if n < 10 {
        seq![digit(n)]
    } else {
        decimal(n / 10).push(digit(n % 10))
    }
}

pub open spec fn digit(d: nat) -> char {
    seq!['0', '1', '2', '3', '4', '5', '6', '7', '8', '9'][d as int]
}

/// Relies on `ToString::to_string` through `usize`'s `Display`, which writes
/// the number in decimal digits.
#[verifier::external_body]
pub(crate) fn usize_to_string(n: usize) -> (r: String)
    ensures
        r@ == decimal(n as nat),
{
    n.to_string()
}

/// Relies on `ToString::to_string` through `u128`'s `Display`, which writes
/// the number in decimal digits.
#[verifier::external_body]
pub(crate) fn u128_to_string(n: u128) -> (r: String)
    ensures
        r@ == decimal(n as nat),
{
    n.to_string()
}

/// The decimal text of an integer, with a leading `-` where it is negative.
pub open spec fn signed_decimal(n: int) -> Seq<char> {
    if n < 0 {
        seq!['-'] + decimal((-n) as nat)
    } else {
        decimal(n as nat)
    }
}

/// Relies on `ToString::to_string` through `i128`'s `Display`, which writes
/// a `-` for a negative number and then its magnitude in decimal digits.
#[verifier::external_body]
pub(crate) fn i128_to_string(n: i128) -> (r: String)
    ensures
        r@ == signed_decimal(n as int),
{
    n.to_string()
}

/// The lines of `s`, given `cur`, the part of a line read so far: lines end
/// at `\n`, or at `\r\n`, neither kept; the last line ending is optional.
pub open spec fn lines_from(s: Seq<char>, cur: Seq<char>) -> Seq<Seq<char>>
    decreases s.len(),
{
    if s.len() == 0 {
        if cur.len() == 0 {
            seq![]
        } else {
            seq![cur]
        }
    } else if s[0] == '\n' {
        let line = if cur.len() > 0 && cur.last() == '\r' {
            cur.drop_last()
        } else {
            cur
        };
        seq![line] + lines_from(s.drop_first(), seq![])
    } else {
        lines_from(s.drop_first(), cur.push(s[0]))
    }
}

/// What `str::lines` yields for a text.
pub open spec fn lines_of(s: Seq<char>) -> Seq<Seq<char>> {
    lines_from(s, seq![])
}

/// What `str::split_whitespace` yields for a text.
pub uninterp spec fn words_of(s: Seq<char>) -> Seq<Seq<char>>;

pub open spec fn is_ascii_digit(c: char) -> bool {
    '0' <= c <= '9'
}

/// One or more ASCII digits.
pub open spec fn all_digits(s: Seq<char>) -> bool {
    s.len() >= 1 && forall|i: int| 0 <= i < s.len() ==> #[trigger] is_ascii_digit(s[i])
}

/// The value of a run of ASCII digits.
pub open spec fn digits_value(s: Seq<char>) -> int
    decreases s.len(),
{
    if s.len() == 0 {
        0
    } else {
        digits_value(s.drop_last()) * 10 + (s.last() as u32 - '0' as u32)
    }
}

/// An integer written as an optional `+` or `-` and one or more ASCII
/// digits, and nothing else.
pub open spec fn integer_of(s: Seq<char>) -> Option<int> {
    if s.len() > 0 && s[0] == '-' && all_digits(s.drop_first()) {
        Some(-digits_value(s.drop_first()))
    } else if s.len() > 0 && s[0] == '+' && all_digits(s.drop_first()) {
        Some(digits_value(s.drop_first()))
    } else if all_digits(s) {
        Some(digits_value(s))
    } else {
        None
    }
}

/// What `str::parse::<i32>` gives for a text, where it succeeds.
pub open spec fn parse_i32_of(s: Seq<char>) -> Option<i32> {
    match integer_of(s) {
        Some(v) => if i32::MIN <= v <= i32::MAX {
            Some(v as i32)
        } else {
            None
        },
        None => None,
    }
}

/// What `str::parse::<i64>` gives for a text, where it succeeds.
pub open spec fn parse_i64_of(s: Seq<char>) -> Option<i64> {
    match integer_of(s) {
        Some(v) => if i64::MIN <= v <= i64::MAX {
            Some(v as i64)
        } else {
            None
        },
        None => None,
    }
}

/// Relies on `str::lines`: the text split at `\n` and `\r\n`, which are
/// not kept, with no empty line after a final line break.
#[verifier::external_body]
pub(crate) fn lines(s: &str) -> (r: Vec<&str>)
    ensures
        r@.map_values(|l: &str| l@) == lines_of(s@),
{
    s.lines().collect()
}

/// Relies on `str::split_whitespace`: the text's words, which depend on the
/// text alone.
#[verifier::external_body]
pub(crate) fn words(s: &str) -> (r: Vec<&str>)
    ensures
        r@.map_values(|w: &str| w@) == words_of(s@),
{
    s.split_whitespace().collect()
}

/// Relies on `str::parse::<i32>`: an optional sign and ASCII digits whose
/// value fits, else `None`.
#[verifier::external_body]
pub(crate) fn parse_i32(s: &str) -> (r: Option<i32>)
    ensures
        r == parse_i32_of(s@),
{
    s.parse::<i32>().ok()
}

/// Relies on `str::parse::<i64>`: an optional sign and ASCII digits whose
/// value fits, else `None`.
#[verifier::external_body]
pub(crate) fn parse_i64(s: &str) -> (r: Option<i64>)
    ensures
        r == parse_i64_of(s@),
{
    s.parse::<i64>().ok()
}

/// Relies on `str::chars`: the characters of the text, in order.
#[verifier::external_body]
pub(crate) fn chars(s: &str) -> (r: Vec<char>)
    ensures
        r@ == s@,
{
    s.chars().collect()
}

/// Every word of the line is a number that fits an `i32`.
pub open spec fn all_i32(line: Seq<char>) -> bool {
    forall|j: int| 0 <= j < words_of(line).len() ==> (#[trigger] parse_i32_of(words_of(line)[j])) is Some
}

/// The numbers that the words of a line stand for.
pub open spec fn row_i32(line: Seq<char>) -> Seq<i32> {
    words_of(line).map_values(|w: Seq<char>| parse_i32_of(w).unwrap())
}

/// The numbers of one line, or `None` where a word is no `i32`.
pub fn numbers_i32(line: &str) -> (r: Option<Vec<i32>>)
    ensures
        r is Some <==> all_i32(line@),
        r is Some ==> r.unwrap()@ == row_i32(line@),
{
    let ws = words(line);
    let ghost wv = ws@.map_values(|w: &str| w@);
    let mut out: Vec<i32> = Vec::new();
    let mut j: usize = 0;
    while j < ws.len()
        invariant
            wv == words_of(line@),
            wv.len() == ws.len(),
            forall|k: int| 0 <= k < ws.len() ==> #[trigger] wv[k] == ws@[k]@,
            j <= ws.len(),
            forall|k: int| 0 <= k < j ==> (#[trigger] parse_i32_of(wv[k])) is Some,
            out@ == wv.take(j as int).map_values(|w: Seq<char>| parse_i32_of(w).unwrap()),
        decreases ws.len() - j,
    {
        match parse_i32(ws[j]) {
            Some(v) => {
                out.push(v);
            },
            None => {
                assert(parse_i32_of(wv[j as int]) is None);
                return None;
            },
        }
        j = j + 1;
        assert(out@ =~= wv.take(j as int).map_values(|w: Seq<char>| parse_i32_of(w).unwrap()));
    }
    assert(wv.take(j as int) =~= wv);
    Some(out)
}

} // verus!
