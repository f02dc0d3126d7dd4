//! Reports of levels that are safe, or safe once one level is left out.
use crate::text::{all_i32, decimal, lines, lines_of, numbers_i32, row_i32, usize_to_string};
use vstd::prelude::*;

verus! {

/// The level after `i` is one to three above it.
pub open spec fn rises(s: Seq<i32>, i: int) -> bool {
    1 <= s[i + 1] - s[i] <= 3
}

/// The level after `i` is one to three below it.
pub open spec fn falls(s: Seq<i32>, i: int) -> bool {
    -3 <= s[i + 1] - s[i] <= -1
}

/// Neighbouring levels all rise, or all fall, by one to three.
pub open spec fn safe(s: Seq<i32>) -> bool {
    (forall|i: int| 0 <= i < s.len() - 1 ==> #[trigger] rises(s, i)) || (forall|i: int|
        0 <= i < s.len() - 1 ==> #[trigger] falls(s, i))
}

/// Safe as it stands, or after leaving out one level.
pub open spec fn safe_with_dampening(s: Seq<i32>) -> bool {
    safe(s) || exists|i: int| 0 <= i < s.len() && #[trigger] safe(s.remove(i))
}

/// Whether the levels are safe.
pub fn levels_ok(levels: &[i32]) -> (r: bool)
    ensures
        r == safe(levels@),
{
    if levels.len() < 2 {
        return true;
    }
    let mut last_diff: i64 = 0;
    let mut i: usize = 1;
    while i < levels.len()
        invariant
            1 <= i <= levels.len(),
            i == 1 ==> last_diff == 0,
            i >= 2 ==> last_diff == levels@[i - 1] - levels@[i - 2],
            (forall|k: int| 0 <= k < i - 1 ==> #[trigger] rises(levels@, k)) || (forall|k: int|
                0 <= k < i - 1 ==> #[trigger] falls(levels@, k)),
        decreases levels.len() - i,
    {
        let diff = levels[i] as i64 - levels[i - 1] as i64;
        if (diff > 0 && last_diff < 0) || (diff < 0 && last_diff > 0) {
            assert(!rises(levels@, i - 1) || !rises(levels@, i - 2));
            assert(!falls(levels@, i - 1) || !falls(levels@, i - 2));
            assert(0 <= i - 2 && i - 1 < levels@.len() - 1);
            assert(!safe(levels@));
            return false;
        }
        if diff < -3 || diff == 0 || diff > 3 {
            assert(!rises(levels@, i - 1) && !falls(levels@, i - 1));
            return false;
        }
        assert(i >= 2 ==> (rises(levels@, i - 1) && rises(levels@, i - 2)) || (falls(levels@, i - 1) && falls(levels@, i - 2)));
        assert(rises(levels@, i - 1) || falls(levels@, i - 1));
        last_diff = diff;
        i = i + 1;
    }
    true
}

/// The levels with the one at `skip` left out.
fn without(levels: &[i32], skip: usize) -> (r: Vec<i32>)
    requires
        skip < levels.len(),
    ensures
        r@ == levels@.remove(skip as int),
{
    let mut out: Vec<i32> = Vec::new();
    let mut j: usize = 0;
    while j < levels.len()
        invariant
            skip < levels.len(),
            j <= levels.len(),
            j <= skip ==> out@ == levels@.take(j as int),
            j > skip ==> out@ == levels@.take(skip as int) + levels@.subrange(skip + 1, j as int),
        decreases levels.len() - j,
    {
        if j != skip {
            out.push(levels[j]);
        }
        j = j + 1;
        assert(j <= skip ==> out@ =~= levels@.take(j as int));
        assert(j > skip ==> out@ =~= levels@.take(skip as int) + levels@.subrange(skip + 1, j as int));
    }
    assert(out@ =~= levels@.remove(skip as int));
    out
}

/// Whether the levels are safe, or safe once one of them is left out.
pub fn levels_ok_with_dampening(levels: &[i32]) -> (r: bool)
    ensures
        r == safe_with_dampening(levels@),
{
    if levels_ok(levels) {
        return true;
    }
    let mut i: usize = 0;
    while i < levels.len()
        invariant
            i <= levels.len(),
            !safe(levels@),
            forall|k: int| 0 <= k < i ==> !#[trigger] safe(levels@.remove(k)),
        decreases levels.len() - i,
    {
        let v = without(levels, i);
        if levels_ok(v.as_slice()) {
            return true;
        }
        i = i + 1;
    }
    false
}

/// How many of the first `k` lines hold levels that are safe, or safe
/// with dampening; lines without words are no report.
pub open spec fn safe_count(ls: Seq<Seq<char>>, k: int, dampened: bool) -> nat
    decreases k,
{
    if k <= 0 {
        0
    } else {
        safe_count(ls, k - 1, dampened) + if row_i32(ls[k - 1]).len() > 0 && (if dampened {
            safe_with_dampening(row_i32(ls[k - 1]))
        } else {
            safe(row_i32(ls[k - 1]))
        }) {
            1nat
        } else {
            0nat
        }
    }
}

/// Every word of every line is an `i32`.
pub open spec fn all_reports(s: Seq<char>) -> bool {
    forall|i: int| 0 <= i < lines_of(s).len() ==> #[trigger] all_i32(lines_of(s)[i])
}

/// Counts the reports, one per line, that are safe (or, with `dampened`,
/// safe with dampening); `None` where a word is no `i32`.
pub fn count_safe(input: &str, dampened: bool) -> (r: Option<usize>)
    ensures
        r is Some <==> all_reports(input@),
        r is Some ==> r.unwrap() == safe_count(lines_of(input@), lines_of(input@).len() as int, dampened),
{
    let ls = lines(input);
    let ghost lv = ls@.map_values(|l: &str| l@);
    let mut count: usize = 0;
    let mut i: usize = 0;
    while i < ls.len()
        invariant
            lv == lines_of(input@),
            lv.len() == ls.len(),
            forall|k: int| 0 <= k < ls.len() ==> #[trigger] lv[k] == ls@[k]@,
            i <= ls.len(),
            count <= i,
            forall|k: int| 0 <= k < i ==> #[trigger] all_i32(lv[k]),
            count == safe_count(lv, i as int, dampened),
        decreases ls.len() - i,
    {
        match numbers_i32(ls[i]) {
            None => {
                assert(!all_i32(lv[i as int]));
                return None;
            },
            Some(levels) => {
                let ok = if dampened {
                    levels_ok_with_dampening(levels.as_slice())
                } else {
                    levels_ok(levels.as_slice())
                };
                if levels.len() > 0 && ok {
                    count = count + 1;
                }
            },
        }
        i = i + 1;
    }
    Some(count)
}

/// Why a text holds no reports.
#[derive(Clone, Copy, PartialEq, Eq, Debug, Structural)]
pub enum ReportError {
    /// A word that is no `i32`.
    BadNumber,
}

/// The number of reports safe with dampening, in decimal.
pub fn process(input: &str) -> (r: Result<String, ReportError>)
    ensures
        r is Ok <==> all_reports(input@),
        r is Ok ==> r.unwrap()@ == decimal(safe_count(lines_of(input@), lines_of(input@).len() as int, true)),
{
    match count_safe(input, true) {
        Some(n) => Ok(usize_to_string(n)),
        None => Err(ReportError::BadNumber),
    }
}

} // verus!
