//! The total distance between two sorted lists of location ids.
use crate::text::{decimal, lines, lines_of, parse_i64, parse_i64_of, u128_to_string, words, words_of};
use vstd::prelude::*;
use vstd::seq_lib::{to_multiset_contains, to_multiset_update};

verus! {

/// A line with at least two words: its first two words form a pair.
pub open spec fn pair_line(l: Seq<char>) -> bool {
    words_of(l).len() >= 2
}

/// The first two words of every pair line are `i64` numbers.
pub open spec fn pairs_parse(ls: Seq<Seq<char>>) -> bool {
    forall|i: int|
        0 <= i < ls.len() && #[trigger] pair_line(ls[i]) ==> parse_i64_of(words_of(ls[i])[0]) is Some
            && parse_i64_of(words_of(ls[i])[1]) is Some
}

/// The numbers in column `c` (0 or 1) of the pair lines among the first `k`.
pub open spec fn column(ls: Seq<Seq<char>>, c: int, k: int) -> Seq<i64>
    decreases k,
{
    if k <= 0 {
        Seq::empty()
    } else if pair_line(ls[k - 1]) {
        column(ls, c, k - 1).push(parse_i64_of(words_of(ls[k - 1])[c]).unwrap())
    } else {
        column(ls, c, k - 1)
    }
}

/// The two columns of the pairs in a text, or `None` where a word of a pair
/// is no `i64`.
pub fn read_pairs(input: &str) -> (r: Option<(Vec<i64>, Vec<i64>)>)
    ensures
        r is Some <==> pairs_parse(lines_of(input@)),
        r is Some ==> r.unwrap().0@ == column(lines_of(input@), 0, lines_of(input@).len() as int)
            && r.unwrap().1@ == column(lines_of(input@), 1, lines_of(input@).len() as int),
{
    let ls = lines(input);
    let ghost lv = ls@.map_values(|l: &str| l@);
    let mut xs: Vec<i64> = Vec::new();
    let mut ys: Vec<i64> = Vec::new();
    let mut i: usize = 0;
    while i < ls.len()
        invariant
            lv == lines_of(input@),
            lv.len() == ls.len(),
            forall|k: int| 0 <= k < ls.len() ==> #[trigger] lv[k] == ls@[k]@,
            i <= ls.len(),
            pairs_parse(lv.take(i as int)),
            xs@ == column(lv, 0, i as int),
            ys@ == column(lv, 1, i as int),
        decreases ls.len() - i,
    {
        let ws = words(ls[i]);
        assert(ws@.map_values(|w: &str| w@) == words_of(lv[i as int]));
        if ws.len() >= 2 {
            assert(ws@[0]@ == words_of(lv[i as int])[0]);
            assert(ws@[1]@ == words_of(lv[i as int])[1]);
            match (parse_i64(ws[0]), parse_i64(ws[1])) {
                (Some(x), Some(y)) => {
                    xs.push(x);
                    ys.push(y);
                },
                _ => {
                    assert(pair_line(lv[i as int]));
                    return None;
                },
            }
        }
        assert(lv.take(i + 1).drop_last() =~= lv.take(i as int));
        assert forall|k: int| 0 <= k < i + 1 && #[trigger] pair_line(lv.take(i + 1)[k]) implies parse_i64_of(
            words_of(lv.take(i + 1)[k])[0],
        ) is Some && parse_i64_of(words_of(lv.take(i + 1)[k])[1]) is Some by {
            if k < i {
                assert(lv.take(i + 1)[k] == lv.take(i as int)[k]);
            }
        }
        i = i + 1;
    }
    assert(lv.take(i as int) =~= lv);
    Some((xs, ys))
}

pub open spec fn sorted(s: Seq<i64>) -> bool {
    forall|a: int, b: int| 0 <= a < b < s.len() ==> s[a] <= s[b]
}

/// Sorts the numbers in increasing order.
pub fn sort(v: &mut Vec<i64>)
    ensures
        sorted(final(v)@),
        final(v)@.to_multiset() == old(v)@.to_multiset(),
{
    let mut i: usize = 1;
    while i < v.len()
        invariant
            1 <= i,
            v.len() == old(v).len(),
            forall|a: int, b: int| 0 <= a < b < i && b < v.len() ==> v@[a] <= v@[b],
            v@.to_multiset() == old(v)@.to_multiset(),
        decreases v.len() - i,
    {
        let mut j: usize = i;
        while j > 0 && v[j - 1] > v[j]
            invariant
                0 <= j <= i < v.len(),
                v.len() == old(v).len(),
                forall|a: int, b: int| 0 <= a < b <= i && b != j ==> v@[a] <= v@[b],
                forall|b: int| j < b <= i ==> v@[j as int] < v@[b] || v@[j as int] <= v@[b],
                j < i ==> v@[j as int] <= v@[j + 1],
                forall|a: int, b: int| 0 <= a < j && j < b <= i ==> v@[a] <= v@[b],
                v@.to_multiset() == old(v)@.to_multiset(),
            decreases j,
        {
            let ghost s = v@;
            let a = v[j - 1];
            let b = v[j];
            v.set(j - 1, b);
            proof {
                to_multiset_update(s, j - 1, b);
            }
            let ghost s1 = v@;
            v.set(j, a);
            proof {
                to_multiset_update(s1, j as int, a);
                broadcast use vstd::multiset::group_multiset_axioms;
                assert(s.contains(a) && s[j - 1] == a);
                to_multiset_contains(s, a);
                assert(v@.to_multiset() =~= s.to_multiset());
            }
            j = j - 1;
        }
        i = i + 1;
    }
}

/// The sum of the distances between the numbers at each place.
pub open spec fn total_distance(a: Seq<i64>, b: Seq<i64>, k: int) -> int
    decreases k,
{
    if k <= 0 {
        0
    } else {
        total_distance(a, b, k - 1) + if a[k - 1] >= b[k - 1] {
            a[k - 1] - b[k - 1]
        } else {
            b[k - 1] - a[k - 1]
        }
    }
}

pub open spec fn shorter(a: Seq<i64>, b: Seq<i64>) -> int {
    if a.len() <= b.len() {
        a.len() as int
    } else {
        b.len() as int
    }
}

/// Why a text holds no list of pairs.
#[derive(Clone, Copy, PartialEq, Eq, Debug, Structural)]
pub enum PairError {
    /// A word of a pair that is no `i64`.
    BadNumber,
}

/// The total distance between the two columns, each sorted, in decimal.
pub fn process(input: &str) -> (r: Result<String, PairError>)
    ensures
        r is Ok <==> pairs_parse(lines_of(input@)),
        r is Ok ==> exists|a: Seq<i64>, b: Seq<i64>|
            {
                let ls = lines_of(input@);
                &&& sorted(a) && a.to_multiset() == column(ls, 0, ls.len() as int).to_multiset()
                &&& sorted(b) && b.to_multiset() == column(ls, 1, ls.len() as int).to_multiset()
                &&& r.unwrap()@ == decimal(#[trigger] total_distance(a, b, shorter(a, b)) as nat)
            },
{
    let (mut xs, mut ys) = match read_pairs(input) {
        Some(p) => p,
        None => return Err(PairError::BadNumber),
    };
    sort(&mut xs);
    sort(&mut ys);
    let n = if xs.len() < ys.len() { xs.len() } else { ys.len() };
    let mut total: u128 = 0;
    let mut i: usize = 0;
    while i < n
        invariant
            n <= xs.len(),
            n <= ys.len(),
            i <= n,
            total as int == total_distance(xs@, ys@, i as int),
            total as int <= i as int * 0x1_0000_0000_0000_0000,
        decreases n - i,
    {
        let d: u128 = if xs[i] >= ys[i] {
            (xs[i] as i128 - ys[i] as i128) as u128
        } else {
            (ys[i] as i128 - xs[i] as i128) as u128
        };
        proof {
            let (t, k, dd) = (total as int, i as int, d as int);
            assert(t + dd <= (k + 1) * 0x1_0000_0000_0000_0000) by (nonlinear_arith)
                requires
                    t <= k * 0x1_0000_0000_0000_0000,
                    dd <= 0x1_0000_0000_0000_0000,
            ;
            assert((k + 1) * 0x1_0000_0000_0000_0000 <= 0x1_0000_0000_0000_0000 * 0x1_0000_0000_0000_0000)
                by (nonlinear_arith)
                requires
                    k + 1 <= 0x1_0000_0000_0000_0000,
            ;
        }
        total = total + d;
        i = i + 1;
    }
    assert(total_distance(xs@, ys@, shorter(xs@, ys@)) == total as int);
    Ok(u128_to_string(total))
}

} // verus!
