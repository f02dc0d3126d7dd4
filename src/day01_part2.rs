//! The similarity score of two lists of location ids.
use crate::day01_part1::{column, pairs_parse, read_pairs, PairError};
use crate::text::{i128_to_string, lines_of, signed_decimal};
use vstd::prelude::*;

verus! {

/// How often `x` occurs among the first `k` numbers of `s`.
pub open spec fn occurrences(s: Seq<i64>, x: i64, k: int) -> nat
    decreases k,
{
    if k <= 0 {
        0
    } else {
        occurrences(s, x, k - 1) + if s[k - 1] == x {
            1nat
        } else {
            0nat
        }
    }
}

/// The sum, over the first `k` numbers `x` of `a`, of `x` times the number
/// of times `x` occurs in `b`.
pub open spec fn similarity(a: Seq<i64>, b: Seq<i64>, k: int) -> int
    decreases k,
{
    if k <= 0 {
        0
    } else {
        similarity(a, b, k - 1) + a[k - 1] * occurrences(b, a[k - 1], b.len() as int)
    }
}

pub open spec fn fits_i128(n: int) -> bool {
    i128::MIN <= n <= i128::MAX
}

/// Every partial sum of the similarity score fits an `i128`.
pub open spec fn sums_fit(a: Seq<i64>, b: Seq<i64>) -> bool {
    forall|k: int| 0 <= k <= a.len() ==> fits_i128(#[trigger] similarity(a, b, k))
}

/// How often `x` occurs in `s`.
pub fn count_of(s: &Vec<i64>, x: i64) -> (r: usize)
    ensures
        r == occurrences(s@, x, s.len() as int),
{
    let mut n: usize = 0;
    let mut i: usize = 0;
    while i < s.len()
        invariant
            i <= s.len(),
            n <= i,
            n == occurrences(s@, x, i as int),
        decreases s.len() - i,
    {
        if s[i] == x {
            n = n + 1;
        }
        i = i + 1;
    }
    n
}

/// Why no similarity score was given.
#[derive(Clone, Copy, PartialEq, Eq, Debug, Structural)]
pub enum ScoreError {
    /// A word of a pair that is no `i64`.
    BadNumber,
    /// A partial sum of the score leaves the range of `i128`.
    Overflow,
}

/// The similarity score of the two columns, in decimal.
pub fn process(input: &str) -> (r: Result<String, ScoreError>)
    ensures
        ({
            let ls = lines_of(input@);
            let a = column(ls, 0, ls.len() as int);
            let b = column(ls, 1, ls.len() as int);
            &&& (r == Err::<String, ScoreError>(ScoreError::BadNumber)) <==> !pairs_parse(ls)
            &&& (r == Err::<String, ScoreError>(ScoreError::Overflow)) <==> pairs_parse(ls) && !sums_fit(a, b)
            &&& r is Ok ==> r.unwrap()@ == signed_decimal(similarity(a, b, a.len() as int))
        }),
{
    let (xs, ys) = match read_pairs(input) {
        Some(p) => p,
        None => return Err(ScoreError::BadNumber),
    };
    let mut total: i128 = 0;
    let mut i: usize = 0;
    while i < xs.len()
        invariant
            pairs_parse(lines_of(input@)),
            xs@ == column(lines_of(input@), 0, lines_of(input@).len() as int),
            ys@ == column(lines_of(input@), 1, lines_of(input@).len() as int),
            i <= xs.len(),
            total as int == similarity(xs@, ys@, i as int),
            forall|k: int| 0 <= k <= i ==> fits_i128(#[trigger] similarity(xs@, ys@, k)),
        decreases xs.len() - i,
    {
        let c = count_of(&ys, xs[i]);
        proof {
            let (x, n) = (xs[i as int] as int, c as int);
            let m = 0xffff_ffff_ffff_ffffint;
            if x >= 0 {
                assert(x * n <= 0x7fff_ffff_ffff_ffff * n) by (nonlinear_arith)
                    requires
                        0 <= x <= 0x7fff_ffff_ffff_ffff,
                        0 <= n,
                ;
                assert(0x7fff_ffff_ffff_ffff * n <= 0x7fff_ffff_ffff_ffff * m) by (nonlinear_arith)
                    requires
                        0 <= n <= m,
                ;
                assert(0 <= x * n) by (nonlinear_arith)
                    requires
                        0 <= x,
                        0 <= n,
                ;
            } else {
                assert(x * n >= -0x8000_0000_0000_0000 * n) by (nonlinear_arith)
                    requires
                        -0x8000_0000_0000_0000 <= x < 0,
                        0 <= n,
                ;
                assert(-0x8000_0000_0000_0000 * n >= -0x8000_0000_0000_0000 * m) by (nonlinear_arith)
                    requires
                        0 <= n <= m,
                ;
                assert(x * n <= 0) by (nonlinear_arith)
                    requires
                        x < 0,
                        0 <= n,
                ;
            }
        }
        let term = xs[i] as i128 * c as i128;
        match total.checked_add(term) {
            Some(t) => {
                total = t;
            },
            None => {
                assert(!fits_i128(similarity(xs@, ys@, i + 1)));
                return Err(ScoreError::Overflow);
            },
        }
        i = i + 1;
    }
    Ok(i128_to_string(total))
}

} // verus!
