//! The guard patrol: a bounded grid of cells, a guard that walks it and turns
//! right at obstacles, and the walk's outcome (it leaves the grid or repeats).
use vstd::arithmetic::div_mod::{
    lemma_fundamental_div_mod, lemma_fundamental_div_mod_converse, lemma_mod_pos_bound,
};
use vstd::prelude::*;
use vstd::string::{StringExecFns, StringSliceAdditionalSpecFns};

verus! {

/// Flag of a cell that holds an obstacle.
pub const OBSTACLE: u8 = 16;

/// Largest width or height of a grid, so that coordinates fit an `i64` and
/// a row-major index fits a `usize`.
pub const MAX_SIDE: usize = 0x7fff_ffff;

/// A compass heading; `turn_right` goes through them clockwise.
#[derive(Clone, Copy, PartialEq, Eq, Debug, Structural)]
pub enum Direction {
    North,
    East,
    South,
    West,
}

impl Direction {
    pub open spec fn spec_turn_right(self) -> Direction {
        match self {
            Direction::North => Direction::East,
            Direction::East => Direction::South,
            Direction::South => Direction::West,
            Direction::West => Direction::North,
        }
    }

    /// The heading a quarter turn clockwise from this one.
    pub fn turn_right(self) -> (r: Direction)
        ensures
            r == self.spec_turn_right(),
    {
        match self {
            Direction::North => Direction::East,
            Direction::East => Direction::South,
            Direction::South => Direction::West,
            Direction::West => Direction::North,
        }
    }

    /// The cell flag that records a departure with this heading.
    pub open spec fn spec_mask(self) -> u8 {
        match self {
            Direction::North => 1,
            Direction::East => 2,
            Direction::South => 4,
            Direction::West => 8,
        }
    }

    pub fn mask(self) -> (r: u8)
        ensures
            r == self.spec_mask(),
    {
        match self {
            Direction::North => 1,
            Direction::East => 2,
            Direction::South => 4,
            Direction::West => 8,
        }
    }

    /// Column change of one step; columns grow eastwards.
    pub open spec fn dx(self) -> int {
        match self {
            Direction::East => 1,
            Direction::West => -1,
            _ => 0,
        }
    }

    /// Row change of one step; rows grow southwards.
    pub open spec fn dy(self) -> int {
        match self {
            Direction::North => -1,
            Direction::South => 1,
            _ => 0,
        }
    }

    pub fn delta(self) -> (r: (i64, i64))
        ensures
            r.0 as int == self.dx(),
            r.1 as int == self.dy(),
    {
        match self {
            Direction::North => (0, -1),
            Direction::East => (1, 0),
            Direction::South => (0, 1),
            Direction::West => (-1, 0),
        }
    }
}

/// One grid cell as a set of five flags in a byte: the four headings the
/// guard has left it with (North 1, East 2, South 4, West 8) and `OBSTACLE`.
#[derive(Clone, Copy, PartialEq, Eq, Debug, Structural)]
pub struct Cell {
    pub bits: u8,
}

impl Cell {
    pub open spec fn has(self, mask: u8) -> bool {
        self.bits & mask != 0
    }

    pub open spec fn spec_with(self, mask: u8) -> Cell {
        Cell { bits: self.bits | mask }
    }

    /// Every flag of `other` is also set here.
    pub open spec fn covers(self, other: Cell) -> bool {
        self.bits | other.bits == self.bits
    }

    /// The guard has passed through the cell, which is no obstacle.
    pub open spec fn is_visited(self) -> bool {
        self.bits & 15 != 0 && self.bits & OBSTACLE == 0
    }

    /// How many of the four heading flags are still clear.
    pub open spec fn unmarked(self) -> nat {
        (if self.bits & 1 == 0 { 1nat } else { 0nat }) + (if self.bits & 2 == 0 { 1nat } else { 0nat })
            + (if self.bits & 4 == 0 { 1nat } else { 0nat }) + (if self.bits & 8 == 0 { 1nat } else { 0nat })
    }

    pub fn empty() -> (r: Cell)
        ensures
            r.bits == 0,
    {
        Cell { bits: 0 }
    }

    pub fn contains(&self, mask: u8) -> (r: bool)
        ensures
            r == self.has(mask),
    {
        self.bits & mask != 0
    }

    pub fn set(&mut self, mask: u8)
        ensures
            *final(self) == old(self).spec_with(mask),
    {
        self.bits = self.bits | mask;
    }

    pub fn visited(&self) -> (r: bool)
        ensures
            r == self.is_visited(),
    {
        self.bits & 15 != 0 && self.bits & OBSTACLE == 0
    }
}

proof fn lemma_mark_bits(b: u8, m: u8)
    by (bit_vector)
    requires
        m == 1 || m == 2 || m == 4 || m == 8,
    ensures
        ((b | m) & 1 == 0) == (b & 1 == 0 && m != 1),
        ((b | m) & 2 == 0) == (b & 2 == 0 && m != 2),
        ((b | m) & 4 == 0) == (b & 4 == 0 && m != 4),
        ((b | m) & 8 == 0) == (b & 8 == 0 && m != 8),
        (b | m) & 16 == b & 16,
        (b | m) & m != 0,
        (b | m) | b == b | m,
{
}

proof fn lemma_covers_trans(a: u8, b: u8, c: u8)
    by (bit_vector)
    requires
        a | b == a,
        b | c == b,
    ensures
        a | c == a,
{
}

proof fn lemma_covers_refl(a: u8)
    by (bit_vector)
    ensures
        a | a == a,
{
}

/// Setting a clear heading flag clears one fewer flag, keeps every other
/// flag and the obstacle flag, and sets the new one.
proof fn lemma_mark_cell(c: Cell, d: Direction)
    requires
        !c.has(d.spec_mask()),
    ensures
        c.spec_with(d.spec_mask()).unmarked() + 1 == c.unmarked(),
        c.spec_with(d.spec_mask()).covers(c),
        c.spec_with(d.spec_mask()).has(d.spec_mask()),
        c.spec_with(d.spec_mask()).has(OBSTACLE) == c.has(OBSTACLE),
{
    lemma_mark_bits(c.bits, d.spec_mask());
}

/// The number of clear heading flags over a row of cells.
pub open spec fn unmarked(cells: Seq<Cell>) -> nat
    decreases cells.len(),
{
    if cells.len() == 0 {
        0
    } else {
        unmarked(cells.drop_last()) + cells.last().unmarked()
    }
}

/// The number of visited cells in a row of cells.
pub open spec fn visited_count(cells: Seq<Cell>) -> nat
    decreases cells.len(),
{
    if cells.len() == 0 {
        0
    } else {
        visited_count(cells.drop_last()) + if cells.last().is_visited() {
            1nat
        } else {
            0nat
        }
    }
}

proof fn lemma_unmarked_update(cells: Seq<Cell>, i: int, c: Cell)
    requires
        0 <= i < cells.len(),
    ensures
        unmarked(cells.update(i, c)) + cells[i].unmarked() == unmarked(cells) + c.unmarked(),
    decreases cells.len(),
{
    let u = cells.update(i, c);
    if i == cells.len() - 1 {
        assert(u.drop_last() =~= cells.drop_last());
    } else {
        assert(u.drop_last() =~= cells.drop_last().update(i, c));
        lemma_unmarked_update(cells.drop_last(), i, c);
    }
}

/// The guard: where it stands and where it faces.
#[derive(Clone, Copy, PartialEq, Eq, Debug, Structural)]
pub struct Guard {
    pub x: i64,
    pub y: i64,
    pub direction: Direction,
}

impl Guard {
    /// The flag that a departure with the guard's heading sets.
    pub fn direction_element(&self) -> (r: u8)
        ensures
            r == self.direction.spec_mask(),
    {
        self.direction.mask()
    }
}

/// Why a walk ended.
#[derive(Clone, Copy, PartialEq, Eq, Debug, Structural)]
pub enum ExitReason {
    /// The next step would leave the grid.
    LeftScene,
    /// The guard came back to a cell with a heading it had left it with before.
    Loop,
}

/// The mathematical state of a walk: cells in row-major order, the grid's
/// size, and the guard.
pub struct Board {
    pub cells: Seq<Cell>,
    pub width: int,
    pub height: int,
    pub guard: Guard,
}

impl Board {
    pub open spec fn in_bounds(self, x: int, y: int) -> bool {
        0 <= x < self.width && 0 <= y < self.height
    }

    pub open spec fn index(self, x: int, y: int) -> int {
        y * self.width + x
    }

    pub open spec fn cell(self, x: int, y: int) -> Cell {
        self.cells[self.index(x, y)]
    }

    pub open spec fn wf(self) -> bool {
        &&& 1 <= self.width <= MAX_SIDE
        &&& 1 <= self.height <= MAX_SIDE
        &&& self.cells.len() == self.width * self.height
        &&& self.in_bounds(self.guard.x as int, self.guard.y as int)
    }

    /// The guard after one move: a step ahead, or a quarter turn in place
    /// where an obstacle stands ahead. Meaningful where the cell ahead is in
    /// the grid.
    pub open spec fn next_guard(self) -> Guard {
        let g = self.guard;
        let nx = g.x + g.direction.dx();
        let ny = g.y + g.direction.dy();
        if self.cell(nx, ny).has(OBSTACLE) {
            Guard { x: g.x, y: g.y, direction: g.direction.spec_turn_right() }
        } else {
            Guard { x: nx as i64, y: ny as i64, direction: g.direction }
        }
    }

    /// One transition of the walk: the next state, or why the walk ends.
    /// A move (a step or a turn) ends the walk in a loop where the cell the
    /// guard then stands on already holds the flag of its new heading;
    /// otherwise it sets that flag.
    pub open spec fn step(self) -> Result<Board, ExitReason> {
        let g = self.guard;
        if !self.in_bounds(g.x + g.direction.dx(), g.y + g.direction.dy()) {
            Err(ExitReason::LeftScene)
        } else {
            let n = self.next_guard();
            let i = self.index(n.x as int, n.y as int);
            let m = n.direction.spec_mask();
            if self.cells[i].has(m) {
                Err(ExitReason::Loop)
            } else {
                Ok(Board { cells: self.cells.update(i, self.cells[i].spec_with(m)), guard: n, ..self })
            }
        }
    }

    /// At most `fuel` transitions from this state: the reason the walk ended
    /// and its last state, or `None` where the fuel ran out first.
    pub open spec fn run(self, fuel: nat) -> Option<(ExitReason, Board)>
        decreases fuel,
    {
        if fuel == 0 {
            None
        } else {
            match self.step() {
                Err(r) => Some((r, self)),
                Ok(b) => b.run((fuel - 1) as nat),
            }
        }
    }

    /// The whole walk from this state: why it ends and its last state.
    /// Every walk ends within `unmarked(cells) + 1` transitions.
    pub open spec fn walk(self) -> (ExitReason, Board) {
        self.run(unmarked(self.cells) + 1).unwrap()
    }

    /// Every cell covers the cell at the same place in `other`.
    pub open spec fn covers(self, other: Board) -> bool {
        &&& self.cells.len() == other.cells.len()
        &&& forall|i: int| 0 <= i < self.cells.len() ==> #[trigger] self.cells[i].covers(other.cells[i])
    }

    pub open spec fn same_grid(self, other: Board) -> bool {
        &&& self.cells.len() == other.cells.len()
        &&& self.width == other.width
        &&& self.height == other.height
    }
}

/// An obstacle cell holds the obstacle flag and nothing else.
pub open spec fn tidy_cell(c: Cell) -> bool {
    c.bits & OBSTACLE == 0 || c.bits == OBSTACLE
}

impl Board {
    /// No obstacle cell holds a heading, and the guard stands on no obstacle.
    pub open spec fn tidy(self) -> bool {
        &&& forall|k: int| 0 <= k < self.cells.len() ==> #[trigger] tidy_cell(self.cells[k])
        &&& !self.cell(self.guard.x as int, self.guard.y as int).has(OBSTACLE)
    }
}

proof fn lemma_small_bits()
    by (bit_vector)
    ensures
        0u8 & 16u8 == 0,
        1u8 & 16u8 == 0,
        2u8 & 16u8 == 0,
        4u8 & 16u8 == 0,
        8u8 & 16u8 == 0,
        16u8 & 16u8 != 0,
{
}

/// A transition of a tidy board gives a tidy board.
pub proof fn lemma_step_tidy(b: Board)
    requires
        b.wf(),
        b.tidy(),
        b.step() is Ok,
    ensures
        b.step().unwrap().tidy(),
{
    let g = b.guard;
    lemma_index_bound(b, g.x + g.direction.dx(), g.y + g.direction.dy());
    let n = b.next_guard();
    lemma_index_bound(b, n.x as int, n.y as int);
    let k = b.index(n.x as int, n.y as int);
    let c = b.cells[k];
    lemma_mark_bits(c.bits, n.direction.spec_mask());
    let b2 = b.step().unwrap();
    assert(!c.has(OBSTACLE));
    assert(forall|j: int| 0 <= j < b2.cells.len() && j != k ==> b2.cells[j] == b.cells[j]);
    assert(tidy_cell(b2.cells[k]));
    assert forall|j: int| 0 <= j < b2.cells.len() implies #[trigger] tidy_cell(b2.cells[j]) by {
        if j != k {
            assert(tidy_cell(b.cells[j]));
        }
    }
}

/// The walk from a tidy board ends on a tidy board: no obstacle cell ever
/// gets a heading flag.
pub proof fn lemma_walk_tidy(b: Board)
    requires
        b.wf(),
        b.tidy(),
    ensures
        b.walk().1.tidy(),
    decreases unmarked(b.cells),
{
    lemma_walk_ends(b);
    if b.step() is Ok {
        let b2 = b.step().unwrap();
        lemma_step(b);
        lemma_step_tidy(b);
        lemma_walk_step(b);
        lemma_walk_tidy(b2);
    }
}

/// A tidy row of cells can be drawn.
pub proof fn lemma_tidy_renders(cells: Seq<Cell>, width: int, k: int)
    requires
        0 <= k <= cells.len(),
        forall|j: int| 0 <= j < cells.len() ==> #[trigger] tidy_cell(cells[j]),
    ensures
        rendering(cells, width, k) is Some,
    decreases k,
{
    if k > 0 {
        lemma_tidy_renders(cells, width, k - 1);
        assert(tidy_cell(cells[k - 1]));
    }
}

/// A place in the grid has an index among the cells.
pub proof fn lemma_index_bound(b: Board, x: int, y: int)
    requires
        b.wf(),
        b.in_bounds(x, y),
    ensures
        0 <= b.index(x, y) < b.cells.len(),
{
    assert(y * b.width + x < b.width * b.height) by (nonlinear_arith)
        requires
            0 <= y < b.height,
            0 <= x < b.width,
    ;
    assert(0 <= y * b.width) by (nonlinear_arith)
        requires
            0 <= y,
            0 <= b.width,
    ;
}

/// A transition keeps the board well formed, clears one fewer heading flag,
/// and clears no flag.
pub proof fn lemma_step(b: Board)
    requires
        b.wf(),
        b.step() is Ok,
    ensures
        b.step().unwrap().wf(),
        b.step().unwrap().same_grid(b),
        unmarked(b.step().unwrap().cells) + 1 == unmarked(b.cells),
        b.step().unwrap().covers(b),
{
    let g = b.guard;
    lemma_index_bound(b, g.x + g.direction.dx(), g.y + g.direction.dy());
    let n = b.next_guard();
    lemma_index_bound(b, n.x as int, n.y as int);
    let i = b.index(n.x as int, n.y as int);
    let c = b.cells[i];
    let m = n.direction.spec_mask();
    lemma_mark_cell(c, n.direction);
    lemma_unmarked_update(b.cells, i, c.spec_with(m));
    let b2 = b.step().unwrap();
    assert forall|j: int| 0 <= j < b2.cells.len() implies #[trigger] b2.cells[j].covers(b.cells[j]) by {
        if j != i {
            lemma_covers_refl(b.cells[j].bits);
        }
    }
}

/// Every walk from a well-formed board ends, within `unmarked(cells) + 1`
/// transitions, in exactly one of the two exit reasons.
pub proof fn lemma_walk_ends(b: Board)
    requires
        b.wf(),
    ensures
        b.run(unmarked(b.cells) + 1) is Some,
        b.walk().0 == ExitReason::LeftScene || b.walk().0 == ExitReason::Loop,
    decreases unmarked(b.cells),
{
    if b.step() is Ok {
        let b2 = b.step().unwrap();
        lemma_step(b);
        lemma_walk_ends(b2);
        lemma_run_more_fuel(b2, unmarked(b2.cells) + 1, unmarked(b.cells));
    }
}

/// Once a walk has ended within some fuel, more fuel changes nothing.
pub proof fn lemma_run_more_fuel(b: Board, n: nat, m: nat)
    requires
        b.run(n) is Some,
        n <= m,
    ensures
        b.run(m) == b.run(n),
    decreases n,
{
    if b.step() is Ok {
        lemma_run_more_fuel(b.step().unwrap(), (n - 1) as nat, (m - 1) as nat);
    }
}

/// A transition does not change where the walk ends.
proof fn lemma_walk_step(b: Board)
    requires
        b.wf(),
        b.step() is Ok,
    ensures
        b.step().unwrap().walk() == b.walk(),
{
    let b2 = b.step().unwrap();
    lemma_step(b);
    lemma_walk_ends(b2);
    lemma_walk_ends(b);
    lemma_run_more_fuel(b2, unmarked(b2.cells) + 1, unmarked(b.cells));
}

/// The walk's last state covers its first: no flag is ever cleared.
pub proof fn lemma_walk_covers(b: Board)
    requires
        b.wf(),
    ensures
        b.walk().1.covers(b),
        b.walk().1.same_grid(b),
        b.walk().1.wf(),
        b.walk().1.step() == Err::<Board, ExitReason>(b.walk().0),
    decreases unmarked(b.cells),
{
    lemma_walk_ends(b);
    if b.step() is Ok {
        let b2 = b.step().unwrap();
        lemma_step(b);
        lemma_walk_step(b);
        lemma_walk_covers(b2);
        let e = b.walk().1;
        assert forall|i: int| 0 <= i < e.cells.len() implies #[trigger] e.cells[i].covers(b.cells[i]) by {
            assert(e.cells[i].covers(b2.cells[i]));
            assert(b2.cells[i].covers(b.cells[i]));
            lemma_covers_trans(e.cells[i].bits, b2.cells[i].bits, b.cells[i].bits);
        }
    } else {
        assert forall|i: int| 0 <= i < b.cells.len() implies #[trigger] b.cells[i].covers(b.cells[i]) by {
            lemma_covers_refl(b.cells[i].bits);
        }
    }
}

/// The grid, its size and the guard, as the walk changes them.
#[derive(Debug)]
pub struct Scene {
    pub cells: Vec<Cell>,
    pub width: usize,
    pub height: usize,
    pub guard: Guard,
}

impl View for Scene {
    type V = Board;

    open spec fn view(&self) -> Board {
        Board { cells: self.cells@, width: self.width as int, height: self.height as int, guard: self.guard }
    }
}

impl Scene {
    pub open spec fn wf(&self) -> bool {
        self@.wf()
    }

    /// Whether `(x, y)` lies in the grid.
    pub fn contains(&self, x: i64, y: i64) -> (r: bool)
        requires
            self.wf(),
        ensures
            r == self@.in_bounds(x as int, y as int),
    {
        0 <= x && x < self.width as i64 && 0 <= y && y < self.height as i64
    }

    /// The row-major index of `(x, y)`, which must lie in the grid.
    pub fn index_of(&self, x: i64, y: i64) -> (r: usize)
        requires
            self.wf(),
            self@.in_bounds(x as int, y as int),
        ensures
            r as int == self@.index(x as int, y as int),
            r < self.cells.len(),
    {
        proof {
            lemma_index_bound(self@, x as int, y as int);
        }
        let yy = y as usize;
        let xx = x as usize;
        assert(yy as int * self.width as int + xx as int == self@.index(x as int, y as int));
        assert(self@.index(x as int, y as int) < self.cells.len());
        assert(yy as int * self.width as int <= self@.index(x as int, y as int));
        yy * self.width + xx
    }

    /// The cell at `(x, y)`, which must lie in the grid.
    pub fn at(&self, x: i64, y: i64) -> (r: Cell)
        requires
            self.wf(),
            self@.in_bounds(x as int, y as int),
        ensures
            r == self@.cell(x as int, y as int),
    {
        let i = self.index_of(x, y);
        self.cells[i]
    }

    /// Sets the flags of `mask` on the cell at `(x, y)`, which must lie in
    /// the grid.
    pub fn set_at(&mut self, x: i64, y: i64, mask: u8)
        requires
            old(self).wf(),
            old(self)@.in_bounds(x as int, y as int),
        ensures
            final(self)@ == (Board {
                cells: old(self)@.cells.update(
                    old(self)@.index(x as int, y as int),
                    old(self)@.cell(x as int, y as int).spec_with(mask),
                ),
                ..old(self)@
            }),
    {
        let i = self.index_of(x, y);
        let mut c = self.cells[i];
        c.set(mask);
        self.cells.set(i, c);
    }

    /// Makes one transition of the walk; returns why the walk ends instead,
    /// leaving the scene as it is, where it does.
    pub fn advance(&mut self) -> (r: Option<ExitReason>)
        requires
            old(self).wf(),
        ensures
            match old(self)@.step() {
                Ok(b) => r is None && final(self)@ == b,
                Err(e) => r == Some(e) && final(self)@ == old(self)@,
            },
    {
        let g = self.guard;
        let (dx, dy) = g.direction.delta();
        let nx = g.x + dx;
        let ny = g.y + dy;
        if !self.contains(nx, ny) {
            return Some(ExitReason::LeftScene);
        }
        let next = if self.at(nx, ny).contains(OBSTACLE) {
            Guard { x: g.x, y: g.y, direction: g.direction.turn_right() }
        } else {
            Guard { x: nx, y: ny, ..g }
        };
        let m = next.direction_element();
        if self.at(next.x, next.y).contains(m) {
            return Some(ExitReason::Loop);
        }
        self.set_at(next.x, next.y, m);
        self.guard = next;
        None
    }

    /// A copy with cells of its own.
    pub fn duplicate(&self) -> (r: Scene)
        ensures
            r@ == self@,
    {
        let mut cells: Vec<Cell> = Vec::new();
        let mut i: usize = 0;
        while i < self.cells.len()
            invariant
                i <= self.cells.len(),
                cells@ == self.cells@.take(i as int),
            decreases self.cells.len() - i,
        {
            cells.push(self.cells[i]);
            i = i + 1;
            assert(cells@ =~= self.cells@.take(i as int));
        }
        assert(self.cells@.take(i as int) =~= self.cells@);
        Scene { cells, width: self.width, height: self.height, guard: self.guard }
    }

    /// The number of visited cells.
    pub fn visited_cells(&self) -> (r: usize)
        ensures
            r as int == visited_count(self.cells@),
    {
        let mut n: usize = 0;
        let mut i: usize = 0;
        while i < self.cells.len()
            invariant
                i <= self.cells.len(),
                n <= i,
                n as int == visited_count(self.cells@.take(i as int)),
            decreases self.cells.len() - i,
        {
            assert(self.cells@.take(i + 1).drop_last() =~= self.cells@.take(i as int));
            if self.cells[i].visited() {
                n = n + 1;
            }
            i = i + 1;
        }
        assert(self.cells@.take(i as int) =~= self.cells@);
        n
    }
}

/// Walks the guard until it leaves the grid or loops, marking on each cell
/// the headings it leaves that cell with.
pub fn search(scene: &mut Scene) -> (r: ExitReason)
    requires
        old(scene).wf(),
    ensures
        (r, final(scene)@) == old(scene)@.walk(),
        final(scene).wf(),
        final(scene)@.covers(old(scene)@),
        old(scene)@.tidy() ==> final(scene)@.tidy(),
{
    let ghost start = scene@;
    loop
        invariant
            start == old(scene)@,
            start.wf(),
            scene.wf(),
            scene@.walk() == start.walk(),
        decreases unmarked(scene@.cells),
    {
        let ghost before = scene@;
        match scene.advance() {
            Some(e) => {
                proof {
                    lemma_walk_ends(before);
                    assert(before.run(unmarked(before.cells) + 1) == Some((e, before)));
                    lemma_walk_covers(start);
                    if start.tidy() {
                        lemma_walk_tidy(start);
                    }
                }
                return e;
            },
            None => {
                proof {
                    lemma_step(before);
                    lemma_walk_step(before);
                }
            },
        }
    }
}

/// The bytes of a map's text.
pub const NEWLINE: u8 = 10;
pub const EMPTY_MARK: u8 = 46;
pub const OBSTACLE_MARK: u8 = 35;
pub const NORTH_MARK: u8 = 94;
pub const EAST_MARK: u8 = 62;
pub const SOUTH_MARK: u8 = 118;
pub const WEST_MARK: u8 = 60;

/// Why a text is no map.
#[derive(Clone, Copy, PartialEq, Eq, Debug, Structural)]
pub enum LoadError {
    /// A byte other than `.`, `#`, `^`, `>`, `v`, `<` and the line break.
    UnknownCharacter,
    /// The text is empty, has an empty line, or its lines differ in length.
    Ragged,
    /// No guard marker.
    NoGuard,
    /// More than one guard marker.
    SeveralGuards,
    /// A side of the grid is longer than `MAX_SIDE`.
    TooLarge,
}

pub open spec fn is_guard_byte(b: u8) -> bool {
    b == NORTH_MARK || b == EAST_MARK || b == SOUTH_MARK || b == WEST_MARK
}

pub open spec fn is_map_byte(b: u8) -> bool {
    b == EMPTY_MARK || b == OBSTACLE_MARK || is_guard_byte(b)
}

/// The cell that a map character stands for: a guard marker stands for a
/// cell that the guard has left with its heading.
pub open spec fn cell_of(b: u8) -> Cell {
    if b == OBSTACLE_MARK {
        Cell { bits: OBSTACLE }
    } else if is_guard_byte(b) {
        Cell { bits: heading_of(b).spec_mask() }
    } else {
        Cell { bits: 0 }
    }
}

pub open spec fn heading_of(b: u8) -> Direction {
    if b == NORTH_MARK {
        Direction::North
    } else if b == EAST_MARK {
        Direction::East
    } else if b == SOUTH_MARK {
        Direction::South
    } else {
        Direction::West
    }
}

/// The length of the first line.
pub open spec fn width_of(t: Seq<u8>) -> int
    decreases t.len(),
{
    if t.len() == 0 || t[0] == NEWLINE {
        0
    } else {
        1 + width_of(t.subrange(1, t.len() as int))
    }
}

/// Lines of `w` map characters each, every one but the last followed by a
/// line break, the last one with or without it.
pub open spec fn rectangular(t: Seq<u8>, w: int) -> bool {
    &&& w >= 1
    &&& forall|i: int| 0 <= i < t.len() ==> (#[trigger] t[i] == NEWLINE) == (i % (w + 1) == w)
    &&& (t.len() as int % (w + 1) == 0 || t.len() as int % (w + 1) == w)
}

/// The cells of the map characters of `t`, in order.
pub open spec fn cells_of(t: Seq<u8>) -> Seq<Cell>
    decreases t.len(),
{
    if t.len() == 0 {
        Seq::empty()
    } else if t.last() == NEWLINE {
        cells_of(t.drop_last())
    } else {
        cells_of(t.drop_last()).push(cell_of(t.last()))
    }
}

pub open spec fn guard_count(t: Seq<u8>) -> nat
    decreases t.len(),
{
    if t.len() == 0 {
        0
    } else {
        guard_count(t.drop_last()) + if is_guard_byte(t.last()) {
            1nat
        } else {
            0nat
        }
    }
}

/// Where the last guard marker stands, or -1.
pub open spec fn last_guard(t: Seq<u8>) -> int
    decreases t.len(),
{
    if t.len() == 0 {
        -1
    } else if is_guard_byte(t.last()) {
        t.len() - 1
    } else {
        last_guard(t.drop_last())
    }
}

/// The map that a text describes, or the first of these faults, in this
/// order: an unknown byte, lines that are no rectangle, not exactly one guard
/// marker, a side over `MAX_SIDE`.
pub open spec fn load_spec(t: Seq<u8>) -> Result<Board, LoadError> {
    let w = width_of(t);
    let h = (t.len() as int + 1) / (w + 1);
    let p = last_guard(t);
    if !(forall|i: int| 0 <= i < t.len() ==> #[trigger] t[i] == NEWLINE || is_map_byte(t[i])) {
        Err(LoadError::UnknownCharacter)
    } else if !rectangular(t, w) {
        Err(LoadError::Ragged)
    } else if guard_count(t) == 0 {
        Err(LoadError::NoGuard)
    } else if guard_count(t) > 1 {
        Err(LoadError::SeveralGuards)
    } else if w > MAX_SIDE || h > MAX_SIDE {
        Err(LoadError::TooLarge)
    } else {
        Ok(
            Board {
                cells: cells_of(t),
                width: w,
                height: h,
                guard: Guard { x: (p % (w + 1)) as i64, y: (p / (w + 1)) as i64, direction: heading_of(t[p]) },
            },
        )
    }
}

/// Loading one text twice gives the same map, and the two walks from it end
/// for the same reason in the same state.
pub proof fn lemma_load_twice(t: Seq<u8>, a: Board, b: Board)
    requires
        load_spec(t) == Ok::<Board, LoadError>(a),
        load_spec(t) == Ok::<Board, LoadError>(b),
    ensures
        a == b,
        a.walk() == b.walk(),
{
}

fn is_map_char(b: u8) -> (r: bool)
    ensures
        r == (b == NEWLINE || is_map_byte(b)),
{
    b == NEWLINE || b == EMPTY_MARK || b == OBSTACLE_MARK || b == NORTH_MARK || b == EAST_MARK || b == SOUTH_MARK || b == WEST_MARK
}

fn heading_from(b: u8) -> (r: Direction)
    ensures
        r == heading_of(b),
{
    if b == NORTH_MARK {
        Direction::North
    } else if b == EAST_MARK {
        Direction::East
    } else if b == SOUTH_MARK {
        Direction::South
    } else {
        Direction::West
    }
}

fn cell_from(b: u8) -> (r: Cell)
    requires
        is_map_byte(b),
    ensures
        r == cell_of(b),
{
    if b == OBSTACLE_MARK {
        Cell { bits: OBSTACLE }
    } else if b == NORTH_MARK || b == EAST_MARK || b == SOUTH_MARK || b == WEST_MARK {
        Cell { bits: heading_from(b).mask() }
    } else {
        Cell::empty()
    }
}

/// Reads a map: `.` an empty cell, `#` an obstacle, `^ > v <` the guard and
/// its heading, one line per row.
pub fn load_map(input: &str) -> (r: Result<Scene, LoadError>)
    ensures
        match r {
            Ok(s) => load_spec(input.spec_bytes()) == Ok::<Board, LoadError>(s@) && s.wf() && s@.tidy(),
            Err(e) => load_spec(input.spec_bytes()) == Err::<Board, LoadError>(e),
        },
{
    let t = input.as_bytes();
    let ghost ts = t@;
    let mut i: usize = 0;
    while i < t.len()
        invariant
            ts == t@,
            ts == input.spec_bytes(),
            i <= t@.len(),
            forall|j: int| 0 <= j < i ==> #[trigger] t@[j] == NEWLINE || is_map_byte(t@[j]),
        decreases t.len() - i,
    {
        if !is_map_char(t[i]) {
            assert(!(ts[i as int] == NEWLINE || is_map_byte(ts[i as int])));
            return Err(LoadError::UnknownCharacter);
        }
        i = i + 1;
    }
    let mut w: usize = 0;
    assert(ts.subrange(0, ts.len() as int) =~= ts);
    while w < t.len() && t[w] != NEWLINE
        invariant
            ts == t@,
            w <= t@.len(),
            width_of(ts) == w + width_of(ts.subrange(w as int, ts.len() as int)),
        decreases t.len() - w,
    {
        assert(ts.subrange(w as int, ts.len() as int).subrange(1, ts.len() - w) =~= ts.subrange(
            w + 1,
            ts.len() as int,
        ));
        w = w + 1;
    }
    assert(width_of(ts.subrange(w as int, ts.len() as int)) == 0);
    if w == 0 {
        return Err(LoadError::Ragged);
    }
    let mut cells: Vec<Cell> = Vec::new();
    let mut row: usize = 0;
    let mut col: usize = 0;
    let mut count: usize = 0;
    let mut gp: usize = 0;
    let ghost mut gk: int = 0;
    proof {
        lemma_small_bits();
    }
    i = 0;
    while i < t.len()
        invariant
            1 <= w <= t@.len(),
            w == width_of(ts),
            ts == t@,
            ts == input.spec_bytes(),
            forall|j: int| 0 <= j < ts.len() ==> #[trigger] ts[j] == NEWLINE || is_map_byte(ts[j]),
            i <= t@.len(),
            col <= w,
            i as int == row as int * (w as int + 1) + col as int,
            forall|j: int| 0 <= j < i ==> (#[trigger] ts[j] == NEWLINE) == (j % (w as int + 1) == w),
            cells@ == cells_of(ts.take(i as int)),
            cells.len() as int == row as int * w as int + col as int,
            count as int == guard_count(ts.take(i as int)),
            count <= i,
            count > 0 ==> gp as int == last_guard(ts.take(i as int)) && gp < i && is_guard_byte(ts[gp as int]),
            forall|k: int| 0 <= k < cells.len() ==> #[trigger] tidy_cell(cells@[k]),
            count > 0 ==> 0 <= gk < cells.len() && cells@[gk] == cell_of(ts[gp as int]) && gk == (gp as int / (w
                + 1)) * w + gp as int % (w + 1),
            0u8 & 16u8 == 0 && 1u8 & 16u8 == 0 && 2u8 & 16u8 == 0 && 4u8 & 16u8 == 0 && 8u8 & 16u8 == 0,
        decreases t.len() - i,
    {
        let b = t[i];
        proof {
            lemma_fundamental_div_mod_converse(i as int, w as int + 1, row as int, col as int);
            assert(ts.take(i + 1).drop_last() =~= ts.take(i as int));
        }
        if (b == NEWLINE) != (col == w) {
            return Err(LoadError::Ragged);
        }
        if b == NEWLINE {
            proof {
                let (r, wi) = (row as int, w as int);
                assert((r + 1) * (wi + 1) == r * (wi + 1) + wi + 1) by (nonlinear_arith);
                assert((r + 1) * wi == r * wi + wi) by (nonlinear_arith);
            }
            col = 0;
            row = row + 1;
        } else {
            let ghost at = cells.len() as int;
            let ghost before = cells@;
            cells.push(cell_from(b));
            assert(tidy_cell(cell_of(b)));
            assert(forall|k: int| 0 <= k < at ==> cells@[k] == before[k]);
            col = col + 1;
            if b == NORTH_MARK || b == EAST_MARK || b == SOUTH_MARK || b == WEST_MARK {
                count = count + 1;
                gp = i;
                proof {
                    gk = at;
                }
            }
        }
        i = i + 1;
    }
    assert(ts.take(i as int) =~= ts);
    proof {
        lemma_fundamental_div_mod_converse(ts.len() as int, w as int + 1, row as int, col as int);
    }
    if col != 0 && col != w {
        return Err(LoadError::Ragged);
    }
    if count == 0 {
        return Err(LoadError::NoGuard);
    }
    if count > 1 {
        return Err(LoadError::SeveralGuards);
    }
    proof {
        let (r, wi, c, n) = (row as int, w as int, col as int, ts.len() as int);
        assert(r + c <= n && (r + 1) * (wi + 1) == r * (wi + 1) + wi + 1) by (nonlinear_arith)
            requires
                n == r * (wi + 1) + c,
                r >= 0,
                c >= 0,
                wi >= 1,
        ;
    }
    let height = if col == 0 { row } else { row + 1 };
    proof {
        if col == 0 {
            lemma_fundamental_div_mod_converse(ts.len() as int + 1, w as int + 1, row as int, 1);
        } else {
            lemma_fundamental_div_mod_converse(ts.len() as int + 1, w as int + 1, row + 1, 0);
        }
    }
    if w > MAX_SIDE || height > MAX_SIDE {
        return Err(LoadError::TooLarge);
    }
    let gx = gp % (w + 1);
    let gy = gp / (w + 1);
    proof {
        lemma_fundamental_div_mod(gp as int, w as int + 1);
        lemma_mod_pos_bound(gp as int, w as int + 1);
        let (wi, r, c, x, y, hh) = (w as int, row as int, col as int, gx as int, gy as int, height as int);
        assert(y < hh) by (nonlinear_arith)
            requires
                (wi + 1) * y + x < r * (wi + 1) + c,
                0 <= x,
                c == 0 || c == wi,
                hh == if c == 0 { r } else { r + 1 },
                wi >= 1,
        ;
        let n = cells.len() as int;
        assert(n == wi * hh) by (nonlinear_arith)
            requires
                n == r * wi + c,
                c == 0 || c == wi,
                hh == if c == 0 { r } else { r + 1 },
        ;
    }
    let guard = Guard { x: gx as i64, y: gy as i64, direction: heading_from(t[gp]) };
    let scene = Scene { cells, width: w, height, guard };
    assert(scene@.index(gx as int, gy as int) == gk);
    assert(!scene@.cell(gx as int, gy as int).has(OBSTACLE));
    Ok(scene)
}

/// How a cell is drawn: `.` empty, `#` obstacle, `^ > v <` one heading,
/// `|` north and south, `-` east and west, `+` any other mix of headings;
/// `None` for an obstacle that also holds headings.
pub open spec fn symbol(c: Cell) -> Option<char> {
    if c.bits == 0 {
        Some('.')
    } else if c.bits == 1 {
        Some('^')
    } else if c.bits == 2 {
        Some('>')
    } else if c.bits == 4 {
        Some('v')
    } else if c.bits == 8 {
        Some('<')
    } else if c.bits == OBSTACLE {
        Some('#')
    } else if c.bits == 5 {
        Some('|')
    } else if c.bits == 10 {
        Some('-')
    } else if c.bits & OBSTACLE == 0 {
        Some('+')
    } else {
        None
    }
}

/// The drawing of the first `k` cells, a line break after every `width`
/// of them; `None` where one of them cannot be drawn.
pub open spec fn rendering(cells: Seq<Cell>, width: int, k: int) -> Option<Seq<char>>
    decreases k,
{
    if k <= 0 {
        Some(seq![])
    } else {
        match (rendering(cells, width, k - 1), symbol(cells[k - 1])) {
            (Some(s), Some(c)) => Some(
                if k % width == 0 {
                    s.push(c).push('\n')
                } else {
                    s.push(c)
                },
            ),
            _ => None,
        }
    }
}

impl Cell {
    /// The cell's drawing, as `symbol` gives it.
    pub fn symbol_text(&self) -> (r: Option<&'static str>)
        ensures
            r is Some <==> symbol(*self) is Some,
            r is Some ==> r.unwrap()@ == seq![symbol(*self).unwrap()],
    {
        proof {
            reveal_strlit(".");
            reveal_strlit("^");
            reveal_strlit(">");
            reveal_strlit("v");
            reveal_strlit("<");
            reveal_strlit("#");
            reveal_strlit("|");
            reveal_strlit("-");
            reveal_strlit("+");
        }
        let b = self.bits;
        if b == 0 {
            Some(".")
        } else if b == 1 {
            Some("^")
        } else if b == 2 {
            Some(">")
        } else if b == 4 {
            Some("v")
        } else if b == 8 {
            Some("<")
        } else if b == OBSTACLE {
            Some("#")
        } else if b == 5 {
            Some("|")
        } else if b == 10 {
            Some("-")
        } else if b & OBSTACLE == 0 {
            Some("+")
        } else {
            None
        }
    }
}

impl Scene {
    /// The grid drawn row by row, each row ended by a line break; `None`
    /// where a cell cannot be drawn.
    pub fn render(&self) -> (r: Option<String>)
        requires
            self.wf(),
        ensures
            r is Some <==> rendering(self.cells@, self.width as int, self.cells@.len() as int) is Some,
            r is Some ==> r.unwrap()@ == rendering(self.cells@, self.width as int, self.cells@.len() as int).unwrap(),
            self@.tidy() ==> r is Some,
    {
        proof {
            if self@.tidy() {
                lemma_tidy_renders(self.cells@, self.width as int, self.cells@.len() as int);
            }
        }
        let mut out = String::new();
        let mut i: usize = 0;
        while i < self.cells.len()
            invariant
                self.wf(),
                i <= self.cells.len(),
                rendering(self.cells@, self.width as int, i as int) == Some(out@),
                self@.tidy() ==> rendering(self.cells@, self.width as int, self.cells@.len() as int) is Some,
            decreases self.cells.len() - i,
        {
            let ghost before = out@;
            match self.cells[i].symbol_text() {
                Some(t) => {
                    out.append(t);
                    assert(out@ =~= before.push(symbol(self.cells@[i as int]).unwrap()));
                },
                None => {
                    proof {
                        lemma_rendering_stays_none(self.cells@, self.width as int, i as int + 1, self.cells@.len() as int);
                    }
                    return None;
                },
            }
            let ghost middle = out@;
            if (i + 1) % self.width == 0 {
                out.append("\n");
                proof {
                    reveal_strlit("\n");
                }
                assert(out@ =~= middle.push('\n'));
            }
            i = i + 1;
        }
        Some(out)
    }
}

proof fn lemma_rendering_stays_none(cells: Seq<Cell>, width: int, k: int, m: int)
    requires
        0 < k <= m,
        rendering(cells, width, k) is None,
    ensures
        rendering(cells, width, m) is None,
    decreases m - k,
{
    if k < m {
        lemma_rendering_stays_none(cells, width, k, m - 1);
    }
}

/// Some transition among the first `fuel` of the walk from `b` moves the
/// guard onto cell `i`.
pub open spec fn enters(b: Board, i: int, fuel: nat) -> bool
    decreases fuel,
{
    fuel > 0 && match b.step() {
        Ok(b2) => b.index(b2.guard.x as int, b2.guard.y as int) == i || enters(b2, i, (fuel - 1) as nat),
        Err(_) => false,
    }
}

/// `b` with an obstacle added on cell `i`.
pub open spec fn with_obstacle(b: Board, i: int) -> Board {
    Board { cells: b.cells.update(i, b.cells[i].spec_with(OBSTACLE)), ..b }
}

/// An obstacle put on an empty cell, other than the guard's, that the walk
/// never steps onto leaves the reason the walk ends unchanged.
pub proof fn lemma_obstacle_off_the_path(b: Board, i: int)
    requires
        b.wf(),
        0 <= i < b.cells.len(),
        b.cells[i].bits == 0,
        i != b.index(b.guard.x as int, b.guard.y as int),
        !enters(b, i, unmarked(b.cells) + 1),
    ensures
        with_obstacle(b, i).walk().0 == b.walk().0,
    decreases unmarked(b.cells),
{
    let o = with_obstacle(b, i);
    let g = b.guard;
    let nx = g.x + g.direction.dx();
    let ny = g.y + g.direction.dy();
    assert(o.wf());
    lemma_walk_ends(b);
    lemma_walk_ends(o);
    lemma_index_bound(b, g.x as int, g.y as int);
    if !b.in_bounds(nx, ny) {
        assert(o.step() == Err::<Board, ExitReason>(ExitReason::LeftScene));
        assert(o.run(unmarked(o.cells) + 1) == Some((ExitReason::LeftScene, o)));
    } else {
        lemma_index_bound(b, nx, ny);
        let ni = b.index(nx, ny);
        if ni == i {
            lemma_obstacle_bits(b.cells[i].bits);
            assert(b.step() is Ok);
            assert(false);
        }
        assert(o.cell(nx, ny) == b.cell(nx, ny));
        assert(o.next_guard() == b.next_guard());
        let n = b.next_guard();
        lemma_index_bound(b, n.x as int, n.y as int);
        let k = b.index(n.x as int, n.y as int);
        assert(k != i);
        assert(o.cells[k] == b.cells[k]);
        match b.step() {
            Err(e) => {
                assert(o.step() == Err::<Board, ExitReason>(e));
                assert(o.run(unmarked(o.cells) + 1) == Some((e, o)));
                assert(b.run(unmarked(b.cells) + 1) == Some((e, b)));
            },
            Ok(b2) => {
                let o2 = o.step().unwrap();
                assert(o2.cells =~= with_obstacle(b2, i).cells);
                assert(o2 == with_obstacle(b2, i));
                lemma_step(b);
                lemma_walk_step(b);
                lemma_walk_step(o);
                lemma_obstacle_off_the_path(b2, i);
            },
        }
    }
}

proof fn lemma_obstacle_bits(b: u8)
    by (bit_vector)
    requires
        b == 0,
    ensures
        b & OBSTACLE == 0,
        b & 1 == 0,
        b & 2 == 0,
        b & 4 == 0,
        b & 8 == 0,
{
}

} // verus!
