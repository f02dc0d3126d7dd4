//! Sums of the products in the well-formed `mul(a,b)` of corrupted text.
use crate::text::{decimal, u128_to_string};
use vstd::prelude::*;
use vstd::string::StringSliceAdditionalSpecFns;

verus! {

pub const ZERO: u8 = 48;
pub const NINE: u8 = 57;
pub const COMMA: u8 = 44;
pub const OPEN: u8 = 40;
pub const CLOSE: u8 = 41;

pub open spec fn is_digit(b: u8) -> bool {
    ZERO <= b <= NINE
}

/// Where the run of digits that starts at `s` ends.
pub open spec fn number_end(t: Seq<u8>, s: int) -> int
    decreases t.len() - s,
{
    if s < 0 || s >= t.len() || !is_digit(t[s]) {
        s
    } else {
        number_end(t, s + 1)
    }
}

proof fn lemma_number_end_after(t: Seq<u8>, s: int)
    requires
        0 <= s,
    ensures
        number_end(t, s) >= s,
    decreases t.len() - s,
{
    if s < t.len() && is_digit(t[s]) {
        lemma_number_end_after(t, s + 1);
    }
}

/// The value of the `n` decimal digits at `s`.
pub open spec fn value(t: Seq<u8>, s: int, n: int) -> nat
    decreases n,
{
    if n <= 0 {
        0
    } else {
        value(t, s, n - 1) * 10 + (t[s + n - 1] - ZERO) as nat
    }
}

/// `t` holds the bytes of `word` from `i` on.
pub open spec fn word_at(t: Seq<u8>, i: int, word: Seq<u8>) -> bool {
    0 <= i && i + word.len() <= t.len() && t.subrange(i, i + word.len()) == word
}

/// The bytes of `mul(`.
pub open spec fn mul_open() -> Seq<u8> {
    seq![109u8, 117u8, 108u8, OPEN]
}

/// A number of one to three digits starts at `s`.
pub open spec fn short_number(t: Seq<u8>, s: int) -> bool {
    1 <= number_end(t, s) - s <= 3
}

/// The factors of a `mul(a,b)` that starts at `i`: `mul(`, one to three
/// digits, `,`, one to three digits, `)`.
pub open spec fn mul_at(t: Seq<u8>, i: int) -> Option<(nat, nat)> {
    let a = i + 4;
    let ae = number_end(t, a);
    let b = ae + 1;
    let be = number_end(t, b);
    if word_at(t, i, mul_open()) && short_number(t, a) && ae < t.len() && t[ae] == COMMA && short_number(t, b)
        && be < t.len() && t[be] == CLOSE {
        Some((value(t, a, ae - a), value(t, b, be - b)))
    } else {
        None
    }
}

/// The sum of the products of the `mul` that start among the first `k` bytes.
pub open spec fn product_sum(t: Seq<u8>, k: int) -> nat
    decreases k,
{
    if k <= 0 {
        0
    } else {
        product_sum(t, k - 1) + match mul_at(t, k - 1) {
            Some((a, b)) => a * b,
            None => 0,
        }
    }
}

/// Whether `t` holds `word` from `i` on.
pub fn matches_at(t: &[u8], i: usize, word: &[u8]) -> (r: bool)
    ensures
        r == word_at(t@, i as int, word@),
        r ==> i + word.len() <= t.len(),
{
    if i > t.len() || word.len() > t.len() - i {
        return false;
    }
    let mut k: usize = 0;
    while k < word.len()
        invariant
            i + word.len() <= t.len(),
            k <= word.len(),
            forall|q: int| 0 <= q < k ==> t@[i + q] == word@[q],
        decreases word.len() - k,
    {
        if t[i + k] != word[k] {
            assert(t@.subrange(i as int, i + word.len())[k as int] != word@[k as int]);
            return false;
        }
        k = k + 1;
    }
    assert(t@.subrange(i as int, i + word.len()) =~= word@);
    true
}

/// A number of one to three digits at `s`: its value and where it ends.
pub fn parse_number(t: &[u8], s: usize) -> (r: Option<(u32, usize)>)
    requires
        s <= t.len(),
    ensures
        r is Some <==> short_number(t@, s as int),
        r is Some ==> r.unwrap().1 as int == number_end(t@, s as int) && r.unwrap().0 as nat == value(
            t@,
            s as int,
            number_end(t@, s as int) - s,
        ) && r.unwrap().0 <= 999,
{
    let mut e: usize = s;
    let mut v: u32 = 0;
    while e < t.len() && ZERO <= t[e] && t[e] <= NINE && e - s < 4
        invariant
            s <= e <= t.len(),
            e - s <= 4,
            number_end(t@, s as int) == number_end(t@, e as int),
            v as nat == value(t@, s as int, e - s),
            e - s == 0 ==> v == 0,
            e - s <= 1 ==> v <= 9,
            e - s <= 2 ==> v <= 99,
            e - s <= 3 ==> v <= 999,
            v <= 9999,
        decreases t.len() - e,
    {
        v = v * 10 + (t[e] - ZERO) as u32;
        e = e + 1;
    }
    proof {
        lemma_number_end_after(t@, e as int);
    }
    if e == s || e - s > 3 {
        return None;
    }
    Some((v, e))
}

/// The factors of the `mul(a,b)` that starts at `i`, if one does.
pub fn parse_expr(t: &[u8], i: usize) -> (r: Option<(u32, u32)>)
    ensures
        r is Some <==> mul_at(t@, i as int) is Some,
        r is Some ==> r.unwrap().0 as nat == mul_at(t@, i as int).unwrap().0 && r.unwrap().1 as nat == mul_at(
            t@,
            i as int,
        ).unwrap().1,
        r is Some ==> r.unwrap().0 <= 999 && r.unwrap().1 <= 999,
{
    let open: [u8; 4] = [109, 117, 108, OPEN];
    assert(open@ =~= mul_open());
    if !matches_at(t, i, &open) {
        return None;
    }
    assert(open@.len() == 4);
    let (a, ae) = match parse_number(t, i + 4) {
        Some(p) => p,
        None => return None,
    };
    if ae >= t.len() || t[ae] != COMMA {
        return None;
    }
    let (b, be) = match parse_number(t, ae + 1) {
        Some(p) => p,
        None => return None,
    };
    if be >= t.len() || t[be] != CLOSE {
        return None;
    }
    Some((a, b))
}

/// The sum of the products of every well-formed `mul(a,b)` in the text, in
/// decimal.
pub fn process(expr: &str) -> (r: String)
    ensures
        r@ == decimal(product_sum(expr.spec_bytes(), expr.spec_bytes().len() as int)),
{
    let t = expr.as_bytes();
    let mut result: u128 = 0;
    let mut i: usize = 0;
    while i < t.len()
        invariant
            t@ == expr.spec_bytes(),
            i <= t.len(),
            result as nat == product_sum(t@, i as int),
            result <= i as nat * 1_000_000,
        decreases t.len() - i,
    {
        if let Some((a, b)) = parse_expr(t, i) {
            proof {
                assert(a * b <= 999 * 999) by (nonlinear_arith)
                    requires
                        a <= 999,
                        b <= 999,
                ;
            }
            result = result + (a as u128) * (b as u128);
        }
        i = i + 1;
    }
    u128_to_string(result)
}

} // verus!
