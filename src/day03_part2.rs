//! Sums of the products of corrupted text, where `do()` and `don't()` turn
//! the following `mul(a,b)` on and off.
use crate::day03_part1::{matches_at, mul_at, parse_expr, word_at, CLOSE, OPEN};
use crate::text::{decimal, u128_to_string};
use vstd::prelude::*;
use vstd::string::StringSliceAdditionalSpecFns;

verus! {

/// The bytes of `do()`.
pub open spec fn do_bytes() -> Seq<u8> {
    seq![100u8, 111u8, OPEN, CLOSE]
}

/// The bytes of `don't()`.
pub open spec fn dont_bytes() -> Seq<u8> {
    seq![100u8, 111u8, 110u8, 39u8, 116u8, OPEN, CLOSE]
}

/// An instruction found in the text.
#[derive(Clone, Copy, PartialEq, Eq, Debug, Structural)]
pub enum Expr {
    Do,
    Dont,
    Multiply(u32, u32),
}

/// The instruction that starts at `i`, if any.
pub open spec fn expr_at(t: Seq<u8>, i: int) -> Option<Expr> {
    if word_at(t, i, do_bytes()) {
        Some(Expr::Do)
    } else if word_at(t, i, dont_bytes()) {
        Some(Expr::Dont)
    } else {
        match mul_at(t, i) {
            Some((a, b)) => Some(Expr::Multiply(a as u32, b as u32)),
            None => None,
        }
    }
}

/// The sum of the products enabled among the instructions that start in the
/// first `k` bytes, and whether products are enabled after them.
pub open spec fn scan(t: Seq<u8>, k: int) -> (nat, bool)
    decreases k,
{
    if k <= 0 {
        (0, true)
    } else {
        let (sum, active) = scan(t, k - 1);
        match expr_at(t, k - 1) {
            Some(Expr::Do) => (sum, true),
            Some(Expr::Dont) => (sum, false),
            Some(Expr::Multiply(a, b)) => if active {
                (sum + (a as nat) * (b as nat), active)
            } else {
                (sum, active)
            },
            None => (sum, active),
        }
    }
}

/// The instruction that starts at byte `i`, if any.
pub fn parse(t: &[u8], i: usize) -> (r: Option<Expr>)
    ensures
        r == expr_at(t@, i as int),
        r matches Some(Expr::Multiply(a, b)) ==> a <= 999 && b <= 999,
{
    let do_word: [u8; 4] = [100, 111, OPEN, CLOSE];
    let dont_word: [u8; 7] = [100, 111, 110, 39, 116, OPEN, CLOSE];
    assert(do_word@ =~= do_bytes());
    assert(dont_word@ =~= dont_bytes());
    if matches_at(t, i, &do_word) {
        return Some(Expr::Do);
    }
    if matches_at(t, i, &dont_word) {
        return Some(Expr::Dont);
    }
    match parse_expr(t, i) {
        Some((a, b)) => Some(Expr::Multiply(a, b)),
        None => None,
    }
}

/// The sum of the products of the enabled `mul(a,b)`, in decimal.
pub fn process(expr: &str) -> (r: String)
    ensures
        r@ == decimal(scan(expr.spec_bytes(), expr.spec_bytes().len() as int).0),
{
    let t = expr.as_bytes();
    let mut result: u128 = 0;
    let mut active = true;
    let mut i: usize = 0;
    while i < t.len()
        invariant
            t@ == expr.spec_bytes(),
            i <= t.len(),
            (result as nat, active) == scan(t@, i as int),
            result <= i as nat * 1_000_000,
        decreases t.len() - i,
    {
        match parse(t, i) {
            Some(Expr::Do) => active = true,
            Some(Expr::Dont) => active = false,
            Some(Expr::Multiply(a, b)) => {
                if active {
                    proof {
                        assert(a * b <= 999 * 999) by (nonlinear_arith)
                            requires
                                a <= 999,
                                b <= 999,
                        ;
                    }
                    result = result + (a as u128) * (b as u128);
                }
            },
            None => {},
        }
        i = i + 1;
    }
    u128_to_string(result)
}

} // verus!
