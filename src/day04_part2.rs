//! Crossings of two diagonal `MAS` in a word search.
use crate::day04_part1::{grid_view, read_grid};
use crate::text::{decimal, lines_of, usize_to_string};
use vstd::prelude::*;

verus! {

/// The character at row `i`, column `j`, where row `i` reaches that far.
pub open spec fn in_row(g: Seq<Seq<char>>, i: int, j: int) -> Option<char> {
    if 0 <= i < g.len() && 0 <= j < g[i].len() {
        Some(g[i][j])
    } else {
        None
    }
}

/// `M`, `A`, `S` stand at the three places, in this order.
pub open spec fn mas_at(g: Seq<Seq<char>>, p: Seq<(int, int)>) -> bool {
    &&& in_row(g, p[0].0, p[0].1) == Some('M')
    &&& in_row(g, p[1].0, p[1].1) == Some('A')
    &&& in_row(g, p[2].0, p[2].1) == Some('S')
}

/// The character at `(i, j)`, as `in_row` gives it.
pub fn index(g: &Vec<Vec<char>>, i: usize, j: usize) -> (r: Option<char>)
    ensures
        r == in_row(grid_view(g@), i as int, j as int),
{
    let ghost gv = grid_view(g@);
    if i >= g.len() {
        return None;
    }
    let row = &g[i];
    assert(gv[i as int] == row@);
    if j >= row.len() {
        return None;
    }
    Some(row[j])
}

/// Both diagonals through `(i, j)` read `MAS`, each in either direction.
pub open spec fn x_mas(g: Seq<Seq<char>>, i: int, j: int) -> bool {
    &&& (mas_at(g, seq![(i - 1, j - 1), (i, j), (i + 1, j + 1)]) || mas_at(
        g,
        seq![(i + 1, j + 1), (i, j), (i - 1, j - 1)],
    ))
    &&& (mas_at(g, seq![(i - 1, j + 1), (i, j), (i + 1, j - 1)]) || mas_at(
        g,
        seq![(i + 1, j - 1), (i, j), (i - 1, j + 1)],
    ))
}

/// `(i, j)` lies off the border of the grid and centres a crossing.
pub open spec fn counted(g: Seq<Seq<char>>, i: int, j: int) -> bool {
    1 <= i < g.len() - 1 && 1 <= j < g[i].len() - 1 && x_mas(g, i, j)
}

/// The crossings centred in the first `k` places of row `i`.
pub open spec fn row_crossings(g: Seq<Seq<char>>, i: int, k: int) -> nat
    decreases k,
{
    if k <= 0 {
        0
    } else {
        row_crossings(g, i, k - 1) + if counted(g, i, k - 1) {
            1nat
        } else {
            0nat
        }
    }
}

/// The crossings centred in the first `k` rows.
pub open spec fn crossings(g: Seq<Seq<char>>, k: int) -> nat
    decreases k,
{
    if k <= 0 {
        0
    } else {
        crossings(g, k - 1) + row_crossings(g, k - 1, g[k - 1].len() as int)
    }
}

/// Whether `M`, `A`, `S` stand at the three places, in this order.
pub fn check_match(g: &Vec<Vec<char>>, p: [(usize, usize); 3]) -> (r: bool)
    ensures
        r == mas_at(grid_view(g@), seq![
            (p[0].0 as int, p[0].1 as int),
            (p[1].0 as int, p[1].1 as int),
            (p[2].0 as int, p[2].1 as int),
        ]),
{
    index(g, p[0].0, p[0].1) == Some('M') && index(g, p[1].0, p[1].1) == Some('A') && index(g, p[2].0, p[2].1)
        == Some('S')
}

/// Whether both diagonals through `(i, j)` read `MAS`.
pub fn adj_search(g: &Vec<Vec<char>>, i: usize, j: usize) -> (r: bool)
    requires
        1 <= i < usize::MAX,
        1 <= j < usize::MAX,
    ensures
        r == x_mas(grid_view(g@), i as int, j as int),
{
    let kernel: [[(usize, usize); 3]; 4] = [
        [(i - 1, j - 1), (i, j), (i + 1, j + 1)],
        [(i + 1, j + 1), (i, j), (i - 1, j - 1)],
        [(i - 1, j + 1), (i, j), (i + 1, j - 1)],
        [(i + 1, j - 1), (i, j), (i - 1, j + 1)],
    ];
    let ghost (x, y) = (i as int, j as int);
    assert(seq![(x - 1, y - 1), (x, y), (x + 1, y + 1)] =~= seq![
        (kernel[0][0].0 as int, kernel[0][0].1 as int),
        (kernel[0][1].0 as int, kernel[0][1].1 as int),
        (kernel[0][2].0 as int, kernel[0][2].1 as int),
    ]);
    assert(seq![(x + 1, y + 1), (x, y), (x - 1, y - 1)] =~= seq![
        (kernel[1][0].0 as int, kernel[1][0].1 as int),
        (kernel[1][1].0 as int, kernel[1][1].1 as int),
        (kernel[1][2].0 as int, kernel[1][2].1 as int),
    ]);
    assert(seq![(x - 1, y + 1), (x, y), (x + 1, y - 1)] =~= seq![
        (kernel[2][0].0 as int, kernel[2][0].1 as int),
        (kernel[2][1].0 as int, kernel[2][1].1 as int),
        (kernel[2][2].0 as int, kernel[2][2].1 as int),
    ]);
    assert(seq![(x + 1, y - 1), (x, y), (x - 1, y + 1)] =~= seq![
        (kernel[3][0].0 as int, kernel[3][0].1 as int),
        (kernel[3][1].0 as int, kernel[3][1].1 as int),
        (kernel[3][2].0 as int, kernel[3][2].1 as int),
    ]);
    (check_match(g, kernel[0]) || check_match(g, kernel[1])) && (check_match(g, kernel[2]) || check_match(
        g,
        kernel[3],
    ))
}

proof fn lemma_row_crossings_grow(g: Seq<Seq<char>>, i: int, k: int, m: int)
    requires
        0 <= k <= m,
    ensures
        row_crossings(g, i, k) <= row_crossings(g, i, m),
    decreases m - k,
{
    if k < m {
        lemma_row_crossings_grow(g, i, k, m - 1);
    }
}

proof fn lemma_crossings_grow(g: Seq<Seq<char>>, k: int, m: int)
    requires
        0 <= k <= m,
    ensures
        crossings(g, k) <= crossings(g, m),
    decreases m - k,
{
    if k < m {
        lemma_crossings_grow(g, k, m - 1);
    }
}

/// Counts the crossings; `None` where the count does not fit a `usize`.
pub fn count_crossings(g: &Vec<Vec<char>>) -> (r: Option<usize>)
    ensures
        r is Some <==> crossings(grid_view(g@), g.len() as int) <= usize::MAX,
        r is Some ==> r.unwrap() == crossings(grid_view(g@), g.len() as int),
{
    let ghost gv = grid_view(g@);
    let mut count: usize = 0;
    let mut i: usize = 0;
    while i < g.len()
        invariant
            gv == grid_view(g@),
            i <= g.len(),
            count == crossings(gv, i as int),
        decreases g.len() - i,
    {
        let row = &g[i];
        assert(gv[i as int] == row@);
        let mut j: usize = 0;
        while j < row.len()
            invariant
                gv == grid_view(g@),
                i < g.len(),
                gv[i as int] == row@,
                j <= row.len(),
                count == crossings(gv, i as int) + row_crossings(gv, i as int, j as int),
            decreases row.len() - j,
        {
            if i != 0 && i != g.len() - 1 && j != 0 && j != row.len() - 1 && row[j] == 'A' {
                if adj_search(g, i, j) {
                    match count.checked_add(1) {
                        Some(c) => count = c,
                        None => {
                            proof {
                                lemma_row_crossings_grow(gv, i as int, j + 1, gv[i as int].len() as int);
                                lemma_crossings_grow(gv, i + 1, gv.len() as int);
                            }
                            return None;
                        },
                    }
                }
            } else {
                assert(!counted(gv, i as int, j as int));
            }
            j = j + 1;
        }
        i = i + 1;
    }
    Some(count)
}

/// Why a word search was not counted.
#[derive(Clone, Copy, PartialEq, Eq, Debug, Structural)]
pub enum CrossError {
    /// The count does not fit a `usize`.
    Overflow,
}

/// The number of crossings, in decimal.
pub fn process(input: &str) -> (r: Result<String, CrossError>)
    ensures
        r is Ok <==> crossings(lines_of(input@), lines_of(input@).len() as int) <= usize::MAX,
        r is Ok ==> r.unwrap()@ == decimal(crossings(lines_of(input@), lines_of(input@).len() as int)),
{
    let g = read_grid(input);
    match count_crossings(&g) {
        Some(n) => Ok(usize_to_string(n)),
        None => Err(CrossError::Overflow),
    }
}

} // verus!
