//! How many single extra obstacles would make the guard walk in a loop.
use crate::day06::{enters, lemma_index_bound, lemma_obstacle_off_the_path, lemma_step, load_map, load_spec, unmarked, Board, ExitReason, Guard, LoadError, Scene, OBSTACLE};
use crate::text::{decimal, usize_to_string};
use vstd::arithmetic::div_mod::{lemma_fundamental_div_mod, lemma_mod_pos_bound};
use vstd::prelude::*;
use vstd::string::StringSliceAdditionalSpecFns;

verus! {

/// The start state `b` with an obstacle added on cell `i` and the guard put
/// at `g`.
pub open spec fn trial(b: Board, i: int, g: Guard) -> Board {
    Board { cells: b.cells.update(i, b.cells[i].spec_with(OBSTACLE)), guard: g, ..b }
}

/// The predecessor table after the transition from `b` to `b2`: where the
/// guard stepped onto a cell other than `start` that has no entry yet, the
/// cell gets the guard as it stood before the step.
pub open spec fn note(preds: Seq<Option<Guard>>, b: Board, b2: Board, start: int) -> Seq<Option<Guard>> {
    let i = b.index(b2.guard.x as int, b2.guard.y as int);
    if (b2.guard.x != b.guard.x || b2.guard.y != b.guard.y) && i != start && preds[i] is None {
        preds.update(i, Some(b.guard))
    } else {
        preds
    }
}

/// The predecessor table after at most `fuel` transitions from `b`.
pub open spec fn record(b: Board, preds: Seq<Option<Guard>>, start: int, fuel: nat) -> Seq<Option<Guard>>
    decreases fuel,
{
    if fuel == 0 {
        preds
    } else {
        match b.step() {
            Err(_) => preds,
            Ok(b2) => record(b2, note(preds, b, b2, start), start, (fuel - 1) as nat),
        }
    }
}

/// For each cell, the guard's state just before it first stepped onto the
/// cell during the whole walk from `b`; `None` for cells never stepped onto
/// and for the start cell.
pub open spec fn predecessors(b: Board) -> Seq<Option<Guard>> {
    record(
        b,
        Seq::new(b.cells.len(), |i: int| None::<Guard>),
        b.index(b.guard.x as int, b.guard.y as int),
        unmarked(b.cells) + 1,
    )
}

/// How many of the first `k` cells with a predecessor make the walk loop
/// when an obstacle is put on them and the walk resumes from the predecessor.
pub open spec fn loop_count(b: Board, preds: Seq<Option<Guard>>, k: int) -> nat
    decreases k,
{
    if k <= 0 {
        0
    } else {
        loop_count(b, preds, k - 1) + if preds[k - 1] is Some && trial(b, k - 1, preds[k - 1].unwrap()).walk().0
            == ExitReason::Loop {
            1nat
        } else {
            0nat
        }
    }
}

/// Where the walk from `b` leaves the grid, an obstacle on an empty cell,
/// other than the start cell, that the walk never steps onto makes no loop:
/// trying such a cell cannot add to the count.
pub proof fn lemma_unentered_cell_makes_no_loop(b: Board, i: int)
    requires
        b.wf(),
        0 <= i < b.cells.len(),
        b.cells[i].bits == 0,
        i != b.index(b.guard.x as int, b.guard.y as int),
        !enters(b, i, unmarked(b.cells) + 1),
        b.walk().0 == ExitReason::LeftScene,
    ensures
        trial(b, i, b.guard).walk().0 == ExitReason::LeftScene,
{
    lemma_obstacle_off_the_path(b, i);
    assert(trial(b, i, b.guard) == crate::day06::with_obstacle(b, i));
}

/// Recording keeps every entry that is already there.
proof fn lemma_record_keeps(b: Board, preds: Seq<Option<Guard>>, start: int, fuel: nat, i: int)
    requires
        b.wf(),
        preds.len() == b.cells.len(),
        0 <= i < preds.len(),
        preds[i] is Some,
    ensures
        record(b, preds, start, fuel)[i] is Some,
        record(b, preds, start, fuel).len() == preds.len(),
    decreases fuel,
{
    if fuel > 0 {
        if let Ok(b2) = b.step() {
            lemma_step(b);
            let g2 = b2.guard;
            lemma_index_bound(b, g2.x as int, g2.y as int);
            lemma_record_keeps(b2, note(preds, b, b2, start), start, (fuel - 1) as nat, i);
        }
    }
}

/// A cell other than `start` that ends with no entry is never stepped onto,
/// where the guard's own cell has an entry or is `start`.
proof fn lemma_no_entry_not_entered(b: Board, preds: Seq<Option<Guard>>, start: int, fuel: nat, i: int)
    requires
        b.wf(),
        preds.len() == b.cells.len(),
        0 <= i < preds.len(),
        i != start,
        preds[b.index(b.guard.x as int, b.guard.y as int)] is Some || b.index(b.guard.x as int, b.guard.y as int)
            == start,
        record(b, preds, start, fuel)[i] is None,
    ensures
        !enters(b, i, fuel),
    decreases fuel,
{
    if fuel > 0 {
        if let Ok(b2) = b.step() {
            lemma_step(b);
            let g = b.guard;
            let g2 = b2.guard;
            lemma_index_bound(b, g.x as int, g.y as int);
            lemma_index_bound(b, g2.x as int, g2.y as int);
            let k = b.index(g2.x as int, g2.y as int);
            let p2 = note(preds, b, b2, start);
            assert(b2.index(g2.x as int, g2.y as int) == k);
            if g2.x == g.x && g2.y == g.y {
                assert(p2 == preds);
                assert(p2[k] is Some || k == start);
            } else {
                assert(p2[k] is Some || k == start);
            }
            if k == i {
                lemma_record_keeps(b2, p2, start, (fuel - 1) as nat, i);
            } else {
                lemma_no_entry_not_entered(b2, p2, start, (fuel - 1) as nat, i);
            }
        }
    }
}

/// Where the walk from `b` leaves the grid, an empty cell other than the
/// start cell that has no predecessor makes no loop when tried from the
/// start: the cells `count_loop_placements` skips add nothing to the count
/// over all cells.
pub proof fn lemma_no_predecessor_makes_no_loop(b: Board, i: int)
    requires
        b.wf(),
        0 <= i < b.cells.len(),
        b.cells[i].bits == 0,
        i != b.index(b.guard.x as int, b.guard.y as int),
        predecessors(b)[i] is None,
        b.walk().0 == ExitReason::LeftScene,
    ensures
        trial(b, i, b.guard).walk().0 == ExitReason::LeftScene,
{
    let s = b.index(b.guard.x as int, b.guard.y as int);
    let empty = Seq::new(b.cells.len(), |j: int| None::<Guard>);
    lemma_no_entry_not_entered(b, empty, s, unmarked(b.cells) + 1, i);
    lemma_unentered_cell_makes_no_loop(b, i);
}

/// Walks the guard from `scene` with an obstacle added at `(ox, oy)`.
pub fn search(scene: &mut Scene, ox: i64, oy: i64) -> (r: ExitReason)
    requires
        old(scene).wf(),
        old(scene)@.in_bounds(ox as int, oy as int),
    ensures
        (r, final(scene)@) == trial(old(scene)@, old(scene)@.index(ox as int, oy as int), old(scene)@.guard).walk(),
{
    proof {
        lemma_index_bound(scene@, ox as int, oy as int);
    }
    scene.set_at(ox, oy, OBSTACLE);
    assert(scene@.cells.len() == old(scene)@.cells.len());
    crate::day06::search(scene)
}

/// The predecessor table of the whole walk from `start`.
pub fn candidates(start: &Scene) -> (r: Vec<Option<Guard>>)
    requires
        start.wf(),
    ensures
        r@ == predecessors(start@),
        r.len() == start.cells.len(),
        forall|i: int|
            0 <= i < r.len() && #[trigger] r@[i] is Some ==> start@.in_bounds(
                r@[i].unwrap().x as int,
                r@[i].unwrap().y as int,
            ),
{
    let mut scene = start.duplicate();
    let first = scene.index_of(scene.guard.x, scene.guard.y);
    let mut preds: Vec<Option<Guard>> = Vec::new();
    let mut i: usize = 0;
    while i < scene.cells.len()
        invariant
            i <= scene.cells.len(),
            preds@ == Seq::new(i as nat, |j: int| None::<Guard>),
        decreases scene.cells.len() - i,
    {
        preds.push(None);
        i = i + 1;
        assert(preds@ =~= Seq::new(i as nat, |j: int| None::<Guard>));
    }
    assert(preds@ =~= Seq::new(start@.cells.len(), |j: int| None::<Guard>));
    loop
        invariant
            start.wf(),
            scene.wf(),
            scene@.same_grid(start@),
            first as int == start@.index(start@.guard.x as int, start@.guard.y as int),
            preds.len() == scene.cells.len(),
            record(scene@, preds@, first as int, unmarked(scene@.cells) + 1) == predecessors(start@),
            forall|i: int|
                0 <= i < preds.len() && #[trigger] preds@[i] is Some ==> start@.in_bounds(
                    preds@[i].unwrap().x as int,
                    preds@[i].unwrap().y as int,
                ),
        decreases unmarked(scene@.cells),
    {
        let ghost before = scene@;
        let ghost p0 = preds@;
        let g = scene.guard;
        match scene.advance() {
            Some(_) => {
                return preds;
            },
            None => {
                proof {
                    lemma_step(before);
                }
                let h = scene.guard;
                if h.x != g.x || h.y != g.y {
                    let k = scene.index_of(h.x, h.y);
                    if k != first && preds[k].is_none() {
                        preds.set(k, Some(g));
                    }
                }
                assert(preds@ == note(p0, before, scene@, first as int));
            },
        }
    }
}

/// How many of the first `k` cells, neither obstacles nor the start cell,
/// make the walk from `b` loop when an obstacle is put on them.
pub open spec fn exhaustive_count(b: Board, k: int) -> nat
    decreases k,
{
    if k <= 0 {
        0
    } else {
        exhaustive_count(b, k - 1) + if !b.cells[k - 1].has(OBSTACLE) && k - 1 != b.index(
            b.guard.x as int,
            b.guard.y as int,
        ) && trial(b, k - 1, b.guard).walk().0 == ExitReason::Loop {
            1nat
        } else {
            0nat
        }
    }
}

/// The place of the cell with row-major index `i`.
fn place_of(scene: &Scene, i: usize) -> (r: (i64, i64))
    requires
        scene.wf(),
        i < scene.cells.len(),
    ensures
        scene@.in_bounds(r.0 as int, r.1 as int),
        scene@.index(r.0 as int, r.1 as int) == i,
{
    let x = i % scene.width;
    let y = i / scene.width;
    proof {
        let (w, h) = (scene.width as int, scene.height as int);
        lemma_fundamental_div_mod(i as int, w);
        lemma_mod_pos_bound(i as int, w);
        assert(y < h) by (nonlinear_arith)
            requires
                w * y + x == i,
                0 <= x,
                i < w * h,
                w >= 1,
        ;
        assert(y as int * w == w * y as int) by (nonlinear_arith);
        assert((x as i64) as int == x as int && (y as i64) as int == y as int);
        assert(scene@.index(x as int, y as int) == i);
    }
    (x as i64, y as i64)
}

/// Runs one trial: the walk from `g` with an obstacle added on cell `i` of
/// `start`; whether it loops.
pub fn try_candidate(start: &Scene, i: usize, g: Guard) -> (r: bool)
    requires
        start.wf(),
        i < start.cells.len(),
        start@.in_bounds(g.x as int, g.y as int),
    ensures
        r == (trial(start@, i as int, g).walk().0 == ExitReason::Loop),
{
    let (x, y) = place_of(start, i);
    let mut t = start.duplicate();
    t.guard = g;
    search(&mut t, x, y) == ExitReason::Loop
}

/// Counts the cells of the walk from `start` on which one more obstacle
/// makes the guard loop, each tried from the guard's state just before it
/// first stepped onto the cell.
pub fn count_loop_placements(start: &Scene) -> (r: usize)
    requires
        start.wf(),
    ensures
        r == loop_count(start@, predecessors(start@), start@.cells.len() as int),
{
    let preds = candidates(start);
    let mut count: usize = 0;
    let mut i: usize = 0;
    while i < preds.len()
        invariant
            start.wf(),
            preds@ == predecessors(start@),
            preds.len() == start.cells.len(),
            forall|j: int|
                0 <= j < preds.len() && #[trigger] preds@[j] is Some ==> start@.in_bounds(
                    preds@[j].unwrap().x as int,
                    preds@[j].unwrap().y as int,
                ),
            i <= preds.len(),
            count <= i,
            count == loop_count(start@, preds@, i as int),
        decreases preds.len() - i,
    {
        if let Some(g) = preds[i] {
            assert(preds@[i as int] is Some);
            if try_candidate(start, i, g) {
                count = count + 1;
            }
        }
        i = i + 1;
    }
    count
}

/// Counts the cells, neither obstacles nor the start cell, on which one more
/// obstacle makes the walk from `start` loop, each tried from the start.
pub fn count_loop_placements_exhaustive(start: &Scene) -> (r: usize)
    requires
        start.wf(),
    ensures
        r == exhaustive_count(start@, start@.cells.len() as int),
{
    let first = start.index_of(start.guard.x, start.guard.y);
    let mut count: usize = 0;
    let mut i: usize = 0;
    while i < start.cells.len()
        invariant
            start.wf(),
            first == start@.index(start@.guard.x as int, start@.guard.y as int),
            i <= start.cells.len(),
            count <= i,
            count == exhaustive_count(start@, i as int),
        decreases start.cells.len() - i,
    {
        if !start.cells[i].contains(OBSTACLE) && i != first {
            let (x, y) = place_of(start, i);
            let mut t = start.duplicate();
            if search(&mut t, x, y) == ExitReason::Loop {
                count = count + 1;
            }
        }
        i = i + 1;
    }
    count
}

/// The number of cells on which one more obstacle makes the guard loop, in
/// decimal; or why the text is no map. Only cells the unobstructed walk
/// steps onto (the start cell excepted) are tried, each from the guard's
/// state just before it first stepped there. Where the unobstructed walk
/// leaves the grid this is the aim, the count over every empty cell;
/// where it already loops, empty cells off its path keep it looping and are
/// not counted here (`count_loop_placements_exhaustive` counts them).
pub fn process(input: &str) -> (r: Result<String, LoadError>)
    ensures
        match r {
            Ok(s) => load_spec(input.spec_bytes()) is Ok && s@ == decimal(
                loop_count(
                    load_spec(input.spec_bytes()).unwrap(),
                    predecessors(load_spec(input.spec_bytes()).unwrap()),
                    load_spec(input.spec_bytes()).unwrap().cells.len() as int,
                ),
            ),
            Err(e) => load_spec(input.spec_bytes()) == Err::<Board, LoadError>(e),
        },
{
    let start = match load_map(input) {
        Ok(s) => s,
        Err(e) => return Err(e),
    };
    Ok(usize_to_string(count_loop_placements(&start)))
}

} // verus!
