//! Occurrences of `XMAS` in a word search, in any of the eight directions.
use crate::text::{chars, decimal, lines, lines_of, usize_to_string};
use vstd::prelude::*;

verus! {

/// The character at row `i`, column `j`, where the place lies within the
/// first row's width and within row `i`.
pub open spec fn char_at(g: Seq<Seq<char>>, i: int, j: int) -> Option<char> {
    if 0 <= i < g.len() && 0 <= j < g[0].len() && j < g[i].len() {
        Some(g[i][j])
    } else {
        None
    }
}

/// The rows of characters of a grid.
pub open spec fn grid_view(g: Seq<Vec<char>>) -> Seq<Seq<char>> {
    g.map_values(|row: Vec<char>| row@)
}

/// The lines of a text as rows of characters.
pub fn read_grid(input: &str) -> (r: Vec<Vec<char>>)
    ensures
        grid_view(r@) == lines_of(input@),
{
    let ls = lines(input);
    let ghost lv = ls@.map_values(|l: &str| l@);
    let mut g: Vec<Vec<char>> = Vec::new();
    let mut i: usize = 0;
    while i < ls.len()
        invariant
            lv == lines_of(input@),
            lv.len() == ls.len(),
            forall|k: int| 0 <= k < ls.len() ==> #[trigger] lv[k] == ls@[k]@,
            i <= ls.len(),
            grid_view(g@) == lv.take(i as int),
        decreases ls.len() - i,
    {
        let ghost before = g@;
        let row = chars(ls[i]);
        assert(row@ == lv[i as int]);
        g.push(row);
        assert(g@ == before.push(row));
        assert(grid_view(g@) =~= grid_view(before).push(row@));
        assert(lv.take(i + 1) =~= lv.take(i as int).push(lv[i as int]));
        i = i + 1;
        assert(grid_view(g@) =~= lv.take(i as int));
    }
    assert(lv.take(i as int) =~= lv);
    g
}

/// The character at `(i, j)` as `char_at` gives it.
pub fn lookup(g: &Vec<Vec<char>>, i: usize, j: usize) -> (r: Option<char>)
    ensures
        r == char_at(grid_view(g@), i as int, j as int),
{
    let ghost gv = grid_view(g@);
    if i >= g.len() || g.len() == 0 {
        return None;
    }
    let row = &g[i];
    if j >= g[0].len() || j >= row.len() {
        return None;
    }
    assert(gv[i as int] == row@);
    assert(gv[0] == g@[0]@);
    Some(row[j])
}

/// `i + k * di`, or `None` where that lies outside `0..=usize::MAX`.
pub fn offset(i: usize, k: usize, di: i64) -> (r: Option<usize>)
    requires
        -1 <= di <= 1,
        k <= 3,
    ensures
        r is Some ==> r.unwrap() == i + k * di,
        r is None ==> i + k * di < 0 || i + k * di > usize::MAX,
{
    if di < 0 {
        assert(k * di == -k) by (nonlinear_arith)
            requires
                di == -1,
        ;
        if k > i {
            None
        } else {
            Some(i - k)
        }
    } else if di > 0 {
        assert(k * di == k) by (nonlinear_arith)
            requires
                di == 1,
        ;
        i.checked_add(k)
    } else {
        assert(k * di == 0) by (nonlinear_arith)
            requires
                di == 0,
        ;
        Some(i)
    }
}

/// The character at `(i + k * di, j + k * dj)` as `char_at` gives it.
pub fn index_along(g: &Vec<Vec<char>>, i: usize, j: usize, k: usize, di: i64, dj: i64) -> (r: Option<char>)
    requires
        -1 <= di <= 1,
        -1 <= dj <= 1,
        k <= 3,
    ensures
        r == char_at(grid_view(g@), i + k * di, j + k * dj),
{
    match (offset(i, k, di), offset(j, k, dj)) {
        (Some(x), Some(y)) => lookup(g, x, y),
        _ => {
            let ghost gv = grid_view(g@);
            assert(gv.len() == g.len());
            if g.len() > 0 {
                let w = g[0].len();
                assert(gv[0] == g@[0]@ && gv[0].len() == w);
            }
            None
        },
    }
}

/// Column and row change of direction `d` of the eight, counted clockwise
/// from east.
pub open spec fn heading(d: int) -> (int, int) {
    if d == 0 {
        (0, 1)
    } else if d == 1 {
        (1, 1)
    } else if d == 2 {
        (1, 0)
    } else if d == 3 {
        (1, -1)
    } else if d == 4 {
        (0, -1)
    } else if d == 5 {
        (-1, -1)
    } else if d == 6 {
        (-1, 0)
    } else {
        (-1, 1)
    }
}

pub open spec fn xmas() -> Seq<char> {
    seq!['X', 'M', 'A', 'S']
}

/// `XMAS` reads from `(i, j)` in direction `d`.
pub open spec fn reads_xmas(g: Seq<Seq<char>>, i: int, j: int, d: int) -> bool {
    forall|k: int| 0 <= k < 4 ==> #[trigger] char_at(g, i + k * heading(d).0, j + k * heading(d).1) == Some(xmas()[k])
}

/// How many of the first `n` directions read `XMAS` from `(i, j)`.
pub open spec fn xmas_from(g: Seq<Seq<char>>, i: int, j: int, n: int) -> nat
    decreases n,
{
    if n <= 0 {
        0
    } else {
        xmas_from(g, i, j, n - 1) + if reads_xmas(g, i, j, n - 1) {
            1nat
        } else {
            0nat
        }
    }
}

/// The number of `XMAS` readings that start in the first `k` places of row
/// `i`.
pub open spec fn row_total(g: Seq<Seq<char>>, i: int, k: int) -> nat
    decreases k,
{
    if k <= 0 {
        0
    } else {
        row_total(g, i, k - 1) + xmas_from(g, i, k - 1, 8)
    }
}

/// The number of `XMAS` readings that start in the first `k` rows.
pub open spec fn grid_total(g: Seq<Seq<char>>, k: int) -> nat
    decreases k,
{
    if k <= 0 {
        0
    } else {
        grid_total(g, k - 1) + row_total(g, k - 1, g[k - 1].len() as int)
    }
}

/// The number of directions in which `XMAS` reads from `(i, j)`.
fn adj_search(g: &Vec<Vec<char>>, i: usize, j: usize) -> (r: usize)
    ensures
        r == xmas_from(grid_view(g@), i as int, j as int, 8),
        r <= 8,
{
    let ghost gv = grid_view(g@);
    let kernel: [(i64, i64); 8] = [(0, 1), (1, 1), (1, 0), (1, -1), (0, -1), (-1, -1), (-1, 0), (-1, 1)];
    let word: [char; 4] = ['X', 'M', 'A', 'S'];
    let mut count: usize = 0;
    let mut d: usize = 0;
    while d < 8
        invariant
            gv == grid_view(g@),
            kernel@.len() == 8,
            forall|q: int|
                0 <= q < 8 ==> (#[trigger] kernel@[q]).0 as int == heading(q).0 && kernel@[q].1 as int == heading(q).1,
            word@ == xmas(),
            d <= 8,
            count <= d,
            count == xmas_from(gv, i as int, j as int, d as int),
        decreases 8 - d,
    {
        let (di, dj) = kernel[d];
        assert(di as int == heading(d as int).0 && dj as int == heading(d as int).1);
        let mut k: usize = 0;
        let mut all = true;
        while k < 4
            invariant
                -1 <= di <= 1,
                -1 <= dj <= 1,
                di as int == heading(d as int).0,
                dj as int == heading(d as int).1,
                gv == grid_view(g@),
                word@ == xmas(),
                k <= 4,
                all == forall|q: int|
                    0 <= q < k ==> #[trigger] char_at(gv, i + q * di, j + q * dj) == Some(xmas()[q]),
            decreases 4 - k,
        {
            let c = index_along(g, i, j, k, di, dj);
            if c != Some(word[k]) {
                all = false;
            }
            k = k + 1;
        }
        if all {
            count = count + 1;
        }
        d = d + 1;
    }
    count
}

proof fn lemma_no_reading(g: Seq<Seq<char>>, i: int, j: int, n: int)
    requires
        char_at(g, i, j) != Some('X'),
        n <= 8,
    ensures
        xmas_from(g, i, j, n) == 0,
    decreases n,
{
    if n > 0 {
        let h = heading(n - 1);
        assert(char_at(g, i + 0 * h.0, j + 0 * h.1) == char_at(g, i, j));
        lemma_no_reading(g, i, j, n - 1);
    }
}

proof fn lemma_row_total_grows(g: Seq<Seq<char>>, i: int, k: int, m: int)
    requires
        0 <= k <= m,
    ensures
        row_total(g, i, k) <= row_total(g, i, m),
    decreases m - k,
{
    if k < m {
        lemma_row_total_grows(g, i, k, m - 1);
    }
}

proof fn lemma_grid_total_grows(g: Seq<Seq<char>>, k: int, m: int)
    requires
        0 <= k <= m,
    ensures
        grid_total(g, k) <= grid_total(g, m),
    decreases m - k,
{
    if k < m {
        lemma_grid_total_grows(g, k, m - 1);
    }
}

/// Why a word search was not counted.
#[derive(Clone, Copy, PartialEq, Eq, Debug, Structural)]
pub enum SearchError {
    /// The count does not fit a `usize`.
    Overflow,
}

/// Counts the readings of `XMAS` that start at the `X`s of the grid.
pub fn count_xmas(g: &Vec<Vec<char>>) -> (r: Option<usize>)
    ensures
        r is Some <==> grid_total(grid_view(g@), g.len() as int) <= usize::MAX,
        r is Some ==> r.unwrap() == grid_total(grid_view(g@), g.len() as int),
{
    let ghost gv = grid_view(g@);
    let mut count: usize = 0;
    let mut i: usize = 0;
    while i < g.len()
        invariant
            gv == grid_view(g@),
            i <= g.len(),
            count == grid_total(gv, i as int),
        decreases g.len() - i,
    {
        let row = &g[i];
        assert(gv[i as int] == row@);
        let mut j: usize = 0;
        while j < row.len()
            invariant
                gv == grid_view(g@),
                i < g.len(),
                gv[i as int] == row@,
                j <= row.len(),
                count == grid_total(gv, i as int) + row_total(gv, i as int, j as int),
            decreases row.len() - j,
        {
            if row[j] == 'X' {
                let n = adj_search(g, i, j);
                match count.checked_add(n) {
                    Some(c) => count = c,
                    None => {
                        proof {
                            lemma_row_total_grows(gv, i as int, j + 1, gv[i as int].len() as int);
                            lemma_grid_total_grows(gv, i + 1, gv.len() as int);
                        }
                        return None;
                    },
                }
            } else {
                proof {
                    lemma_no_reading(gv, i as int, j as int, 8);
                }
            }
            j = j + 1;
        }
        i = i + 1;
    }
    Some(count)
}

/// The number of readings of `XMAS`, in decimal.
pub fn process(input: &str) -> (r: Result<String, SearchError>)
    ensures
        r is Ok <==> grid_total(lines_of(input@), lines_of(input@).len() as int) <= usize::MAX,
        r is Ok ==> r.unwrap()@ == decimal(grid_total(lines_of(input@), lines_of(input@).len() as int)),
{
    let g = read_grid(input);
    match count_xmas(&g) {
        Some(n) => Ok(usize_to_string(n)),
        None => Err(SearchError::Overflow),
    }
}

} // verus!
