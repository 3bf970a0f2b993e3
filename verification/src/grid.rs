use vstd::prelude::*;

verus! {

/// One cell of the grid. Wall slots are indexed by direction:
/// North = 0, East = 1, South = 2, West = 3; `true` means the wall is
/// present (no passage). The `visited` flag is only meaningful while a
/// generator is running.
#[derive(Clone, Copy, Debug)]
pub struct Cell {
    pub x: usize,
    pub y: usize,
    pub visited: bool,
    pub walls: [bool; 4],
}

/// Why a maze could not be constructed.
#[derive(Clone, Copy, Debug, PartialEq, Eq, Structural)]
pub enum MazeError {
    ZeroWidth,
    ZeroHeight,
    TooLarge,
}

/// A rectangular grid of cells in row-major order (`index = y*width + x`).
#[derive(Debug)]
pub struct Maze {
    pub width: usize,
    pub height: usize,
    pub cells: Vec<Cell>,
}

/// Horizontal step of direction `d`.
pub open spec fn dx(d: int) -> int {
    if d == 1 { 1 } else if d == 3 { -1 } else { 0 }
}

/// Vertical step of direction `d`.
pub open spec fn dy(d: int) -> int {
    if d == 0 { -1 } else if d == 2 { 1 } else { 0 }
}

/// The direction opposite to `d`.
pub open spec fn opposite(d: int) -> int {
    if d < 2 { d + 2 } else { d - 2 }
}

/// 1 for a present wall, 0 for an open one.
pub open spec fn b2i(b: bool) -> int {
    if b { 1 } else { 0 }
}

/// Number of walls of a cell that are present.
pub open spec fn wall_count(c: Cell) -> int {
    b2i(c.walls[0]) + b2i(c.walls[1]) + b2i(c.walls[2]) + b2i(c.walls[3])
}

/// Number of open passages of a cell.
pub open spec fn open_count(c: Cell) -> int {
    4 - wall_count(c)
}

/// A dead end has exactly one open passage.
pub open spec fn is_dead_end(c: Cell) -> bool {
    wall_count(c) == 3
}

/// Total open-passage count over the first `k` cells.
pub open spec fn open_upto(cs: Seq<Cell>, k: int) -> int
    decreases k,
{
    if k <= 0 { 0 } else { open_upto(cs, k - 1) + open_count(cs[k - 1]) }
}

/// Dead ends among the first `k` cells.
pub open spec fn dead_upto(cs: Seq<Cell>, k: int) -> int
    decreases k,
{
    if k <= 0 { 0 } else { dead_upto(cs, k - 1) + b2i(is_dead_end(cs[k - 1])) }
}

/// Visited cells among the first `k` cells.
pub open spec fn visited_upto(cs: Seq<Cell>, k: int) -> int
    decreases k,
{
    if k <= 0 { 0 } else { visited_upto(cs, k - 1) + b2i(cs[k - 1].visited) }
}

impl Maze {
    /// Number of cells.
    pub open spec fn area(self) -> int {
        self.width * self.height
    }

    /// The coordinates lie on the grid.
    pub open spec fn valid(self, x: int, y: int) -> bool {
        0 <= x < self.width && 0 <= y < self.height
    }

    /// Row-major index of the cell at `(x, y)`.
    pub open spec fn cidx(self, x: int, y: int) -> int {
        y * self.width + x
    }

    /// Wall flag of side `d` of the cell at `(x, y)`.
    pub open spec fn wall(self, x: int, y: int, d: int) -> bool {
        self.cells[self.cidx(x, y)].walls[d]
    }

    /// Visited flag of the cell at `(x, y)`.
    pub open spec fn is_visited(self, x: int, y: int) -> bool {
        self.cells[self.cidx(x, y)].visited
    }

    /// There is an open passage from `(x, y)` in direction `d`: both cells
    /// lie on the grid and the wall between them is gone.
    pub open spec fn open_dir(self, x: int, y: int, d: int) -> bool {
        &&& 0 <= d < 4
        &&& self.valid(x, y)
        &&& self.valid(x + dx(d), y + dy(d))
        &&& !self.wall(x, y, d)
    }

    /// A wall between two adjacent cells is stored twice and the two sides
    /// always agree.
    pub open spec fn walls_agree(self) -> bool {
        forall|x: int, y: int, d: int|
            0 <= d < 4 && self.valid(x, y) && self.valid(x + dx(d), y + dy(d))
                ==> #[trigger] self.wall(x, y, d) == self.wall(x + dx(d), y + dy(d), opposite(d))
    }

    /// Every cell records the coordinates of its own slot.
    pub open spec fn cells_placed(self) -> bool {
        forall|i: int| #![trigger self.cells[i]]
            0 <= i < self.cells.len()
                ==> self.valid(self.cells[i].x as int, self.cells[i].y as int)
                    && self.cidx(self.cells[i].x as int, self.cells[i].y as int) == i
    }

    /// Well-formed grid: positive dimensions, one cell per coordinate, and
    /// agreeing wall flags on the two sides of every internal wall.
    pub open spec fn wf(self) -> bool {
        &&& self.width >= 1
        &&& self.height >= 1
        &&& self.cells.len() == self.area()
        &&& self.cells_placed()
        &&& self.walls_agree()
    }

    /// Same dimensions as `other`.
    pub open spec fn same_dims(self, other: Maze) -> bool {
        self.width == other.width && self.height == other.height
            && self.cells.len() == other.cells.len()
    }

    /// All walls are present.
    pub open spec fn all_walls_present(self) -> bool {
        forall|x: int, y: int, d: int|
            self.valid(x, y) && 0 <= d < 4 ==> #[trigger] self.wall(x, y, d)
    }

    /// No cell is marked visited.
    pub open spec fn all_unvisited(self) -> bool {
        forall|x: int, y: int| self.valid(x, y) ==> !#[trigger] self.is_visited(x, y)
    }

    /// Every cell is marked visited.
    pub open spec fn all_visited(self) -> bool {
        forall|x: int, y: int| self.valid(x, y) ==> #[trigger] self.is_visited(x, y)
    }

    /// A freshly built grid, ready for a generator.
    pub open spec fn pristine(self) -> bool {
        self.wf() && self.all_walls_present() && self.all_unvisited()
    }

    /// Total number of open passage ends; twice the number of removed walls.
    pub open spec fn open_total(self) -> int {
        open_upto(self.cells@, self.cells.len() as int)
    }

    /// `(x2, y2)` is grid-adjacent to `(x1, y1)` and both are on the grid.
    pub open spec fn adjacent(self, x1: int, y1: int, x2: int, y2: int) -> bool {
        self.valid(x1, y1) && self.valid(x2, y2) && 0 <= dir_between(x1, y1, x2, y2)
    }
}

/// Direction from `(x1, y1)` to `(x2, y2)` when they are grid-adjacent,
/// and -1 otherwise.
pub open spec fn dir_between(x1: int, y1: int, x2: int, y2: int) -> int {
    if x2 == x1 && y2 == y1 - 1 { 0 }
    else if x2 == x1 + 1 && y2 == y1 { 1 }
    else if x2 == x1 && y2 == y1 + 1 { 2 }
    else if x2 == x1 - 1 && y2 == y1 { 3 }
    else { -1 }
}

/// The row-major index of a valid coordinate lies below the area.
pub proof fn lemma_cidx_bound(m: Maze, x: int, y: int)
    requires
        m.valid(x, y),
    ensures
        0 <= m.cidx(x, y) < m.area(),
{
    assert(0 <= y * m.width + x < m.width * m.height) by (nonlinear_arith)
        requires
            0 <= x < m.width,
            0 <= y < m.height,
    ;
}

/// Row-major indexing is injective on valid coordinates.
pub proof fn lemma_cidx_inj(m: Maze, x1: int, y1: int, x2: int, y2: int)
    requires
        m.valid(x1, y1),
        m.valid(x2, y2),
        m.cidx(x1, y1) == m.cidx(x2, y2),
    ensures
        x1 == x2 && y1 == y2,
{
    assert(x1 == x2 && y1 == y2) by (nonlinear_arith)
        requires
            0 <= x1 < m.width,
            0 <= y1 < m.height,
            0 <= x2 < m.width,
            0 <= y2 < m.height,
            y1 * m.width + x1 == y2 * m.width + x2,
    ;
}

/// How a prefix sum reacts when at most one cell changed below `k`.
pub proof fn lemma_open_upto_change(a: Seq<Cell>, b: Seq<Cell>, j: int, k: int)
    requires
        a.len() == b.len(),
        forall|i: int| 0 <= i < k && i != j ==> a[i] == b[i],
    ensures
        open_upto(b, k) == open_upto(a, k)
            + if 0 <= j < k { open_count(b[j]) - open_count(a[j]) } else { 0 },
    decreases k,
{
    if k > 0 {
        lemma_open_upto_change(a, b, j, k - 1);
    }
}

pub proof fn lemma_dead_upto_change(a: Seq<Cell>, b: Seq<Cell>, j: int, k: int)
    requires
        a.len() == b.len(),
        forall|i: int| 0 <= i < k && i != j ==> a[i] == b[i],
    ensures
        dead_upto(b, k) == dead_upto(a, k)
            + if 0 <= j < k { b2i(is_dead_end(b[j])) - b2i(is_dead_end(a[j])) } else { 0 },
    decreases k,
{
    if k > 0 {
        lemma_dead_upto_change(a, b, j, k - 1);
    }
}

pub proof fn lemma_visited_upto_change(a: Seq<Cell>, b: Seq<Cell>, j: int, k: int)
    requires
        a.len() == b.len(),
        forall|i: int| 0 <= i < k && i != j ==> a[i] == b[i],
    ensures
        visited_upto(b, k) == visited_upto(a, k)
            + if 0 <= j < k { b2i(b[j].visited) - b2i(a[j].visited) } else { 0 },
    decreases k,
{
    if k > 0 {
        lemma_visited_upto_change(a, b, j, k - 1);
    }
}

/// Bounds of the prefix counters.
pub proof fn lemma_counts_bounds(cs: Seq<Cell>, k: int)
    requires
        0 <= k <= cs.len(),
    ensures
        0 <= open_upto(cs, k) <= 4 * k,
        0 <= dead_upto(cs, k) <= k,
        0 <= visited_upto(cs, k) <= k,
    decreases k,
{
    if k > 0 {
        lemma_counts_bounds(cs, k - 1);
    }
}

/// A fully visited prefix counts its own length.
pub proof fn lemma_visited_full(cs: Seq<Cell>, k: int)
    requires
        0 <= k <= cs.len(),
        forall|i: int| #![trigger cs[i]] 0 <= i < k ==> cs[i].visited,
    ensures
        visited_upto(cs, k) == k,
    decreases k,
{
    if k > 0 {
        lemma_visited_full(cs, k - 1);
    }
}

impl Maze {
    /// Build a `width` x `height` grid with every wall present and no cell
    /// visited. Zero dimensions and sizes whose cell count overflows the
    /// machine word are rejected.
    pub fn new(width: usize, height: usize) -> (r: Result<Maze, MazeError>)
        ensures
            match r {
                Ok(m) => {
                    &&& m.wf()
                    &&& m.width == width
                    &&& m.height == height
                    &&& m.pristine()
                    &&& m.open_total() == 0
                },
                Err(e) => {
                    &&& (width == 0 || height == 0 || width * height > usize::MAX)
                    &&& (e == MazeError::ZeroWidth <==> width == 0)
                    &&& (e == MazeError::ZeroHeight <==> (width > 0 && height == 0))
                },
            },
    {
        if width == 0 {
            return Err(MazeError::ZeroWidth);
        }
        if height == 0 {
            return Err(MazeError::ZeroHeight);
        }
        let n = match width.checked_mul(height) {
            Some(n) => n,
            None => {
                proof {
                    assert(width * height > usize::MAX);
                }
                return Err(MazeError::TooLarge);
            },
        };
        let mut cells: Vec<Cell> = Vec::new();
        let mut y: usize = 0;
        while y < height
            invariant
                width >= 1,
                height >= 1,
                y <= height,
                n == width * height,
                cells.len() == y * width,
                forall|i: int| #![trigger cells[i]] 0 <= i < cells.len() ==> {
                    &&& cells[i].x < width
                    &&& cells[i].y < height
                    &&& cells[i].y * width + cells[i].x == i
                    &&& !cells[i].visited
                    &&& cells[i].walls[0] && cells[i].walls[1] && cells[i].walls[2]
                        && cells[i].walls[3]
                },
            decreases height - y,
        {
            let mut x: usize = 0;
            while x < width
                invariant
                    width >= 1,
                    height >= 1,
                    x <= width,
                    y < height,
                    n == width * height,
                    cells.len() == y * width + x,
                    forall|i: int| #![trigger cells[i]] 0 <= i < cells.len() ==> {
                        &&& cells[i].x < width
                        &&& cells[i].y < height
                        &&& cells[i].y * width + cells[i].x == i
                        &&& !cells[i].visited
                        &&& cells[i].walls[0] && cells[i].walls[1] && cells[i].walls[2]
                            && cells[i].walls[3]
                    },
                decreases width - x,
            {
                proof {
                    assert(y * width + x < width * height) by (nonlinear_arith)
                        requires
                            0 <= x < width,
                            0 <= y < height,
                    ;
                }
                cells.push(Cell { x, y, visited: false, walls: [true, true, true, true] });
                x = x + 1;
            }
            proof {
                assert(y * width + width == (y + 1) * width) by (nonlinear_arith);
            }
            y = y + 1;
        }
        let m = Maze { width, height, cells };
        proof {
            assert(m.cells.len() == m.area()) by {
                assert(height * width == width * height) by (nonlinear_arith);
            }
            assert(m.cells_placed());
            assert forall|x: int, y2: int, d: int|
                m.valid(x, y2) && 0 <= d < 4 implies #[trigger] m.wall(x, y2, d) by {
                lemma_cidx_bound(m, x, y2);
                let i = m.cidx(x, y2);
                assert(m.cells[i].walls[0] && m.cells[i].walls[1] && m.cells[i].walls[2]
                    && m.cells[i].walls[3]);
            }
            assert(m.all_walls_present());
            assert forall|x: int, y2: int| m.valid(x, y2) implies !#[trigger] m.is_visited(
                x,
                y2,
            ) by {
                lemma_cidx_bound(m, x, y2);
                assert(!m.cells[m.cidx(x, y2)].visited);
            }
            assert(m.walls_agree()) by {
                assert forall|x: int, y2: int, d: int|
                    0 <= d < 4 && m.valid(x, y2) && m.valid(x + dx(d), y2 + dy(d))
                        implies #[trigger] m.wall(x, y2, d) == m.wall(
                        x + dx(d),
                        y2 + dy(d),
                        opposite(d),
                    ) by {
                    lemma_cidx_bound(m, x, y2);
                    lemma_cidx_bound(m, x + dx(d), y2 + dy(d));
                }
            }
            lemma_open_zero(m.cells@, m.cells.len() as int);
        }
        Ok(m)
    }

    /// Row-major index of `(x, y)`.
    pub fn get_index(&self, x: usize, y: usize) -> (r: usize)
        requires
            self.wf(),
            self.valid(x as int, y as int),
        ensures
            r == self.cidx(x as int, y as int),
            r < self.cells.len(),
    {
        proof {
            lemma_cidx_bound(*self, x as int, y as int);
        }
        y * self.width + x
    }

    /// Wall flag of side `d` of the cell at `(x, y)`.
    pub fn has_wall(&self, x: usize, y: usize, d: usize) -> (r: bool)
        requires
            self.wf(),
            self.valid(x as int, y as int),
            d < 4,
        ensures
            r == self.wall(x as int, y as int, d as int),
    {
        let i = self.get_index(x, y);
        self.cells[i].walls[d]
    }

    /// Visited flag of the cell at `(x, y)`.
    pub fn cell_visited(&self, x: usize, y: usize) -> (r: bool)
        requires
            self.wf(),
            self.valid(x as int, y as int),
        ensures
            r == self.is_visited(x as int, y as int),
    {
        let i = self.get_index(x, y);
        self.cells[i].visited
    }

    /// Mark the cell at `(x, y)` visited. Nothing else changes.
    pub fn set_visited(&mut self, x: usize, y: usize)
        requires
            old(self).wf(),
            old(self).valid(x as int, y as int),
        ensures
            final(self).wf(),
            final(self).same_dims(*old(self)),
            final(self).width == old(self).width,
            final(self).height == old(self).height,
            final(self).is_visited(x as int, y as int),
            forall|i: int|
                0 <= i < old(self).cells.len() && i != old(self).cidx(x as int, y as int)
                    ==> final(self).cells[i] == old(self).cells[i],
            forall|x2: int, y2: int, d: int|
                old(self).valid(x2, y2) && 0 <= d < 4 ==> #[trigger] final(self).wall(x2, y2, d)
                    == old(self).wall(x2, y2, d),
            forall|x2: int, y2: int, d: int|
                #[trigger] final(self).open_dir(x2, y2, d) == old(self).open_dir(x2, y2, d),
            forall|x2: int, y2: int|
                old(self).valid(x2, y2) && (x2 != x || y2 != y)
                    ==> #[trigger] final(self).is_visited(x2, y2) == old(self).is_visited(x2, y2),
            final(self).open_total() == old(self).open_total(),
            visited_upto(final(self).cells@, final(self).cells.len() as int) == visited_upto(
                old(self).cells@,
                old(self).cells.len() as int,
            ) + if old(self).is_visited(x as int, y as int) { 0int } else { 1int },
    {
        let i = self.get_index(x, y);
        let ghost pre = *self;
        let mut c = self.cells[i];
        c.visited = true;
        self.cells[i] = c;
        proof {
            let i = i as int;
            let now = *self;
            assert(now.cells@ == pre.cells@.update(i, c));
            assert(now.cells[i].walls == pre.cells[i].walls);
            assert forall|x2: int, y2: int, d: int|
                pre.valid(x2, y2) && 0 <= d < 4 implies #[trigger] now.wall(x2, y2, d) == pre.wall(
                x2,
                y2,
                d,
            ) by {
                lemma_cidx_bound(pre, x2, y2);
                if now.cidx(x2, y2) == i {
                    assert(now.cells[i].walls == pre.cells[i].walls);
                }
            }
            assert forall|x2: int, y2: int, d: int| #[trigger] now.open_dir(x2, y2, d)
                == pre.open_dir(x2, y2, d) by {
                if pre.valid(x2, y2) && 0 <= d < 4 {
                    assert(now.wall(x2, y2, d) == pre.wall(x2, y2, d));
                }
            }
            lemma_open_upto_change(pre.cells@, now.cells@, i, now.cells.len() as int);
            lemma_visited_upto_change(pre.cells@, now.cells@, i, now.cells.len() as int);
            lemma_cidx_bound(pre, x as int, y as int);
            assert forall|x2: int, y2: int|
                pre.valid(x2, y2) && (x2 != x || y2 != y) implies #[trigger] now.is_visited(x2, y2)
                == pre.is_visited(x2, y2) by {
                lemma_cidx_bound(pre, x2, y2);
                if now.cidx(x2, y2) == i {
                    lemma_cidx_inj(pre, x2, y2, x as int, y as int);
                }
            }
        }
    }

    /// Clear the wall between two grid-adjacent cells, on both sides
    /// atomically.
    #[verifier::rlimit(80)]
    pub fn remove_wall(&mut self, x1: usize, y1: usize, x2: usize, y2: usize)
        requires
            old(self).wf(),
            old(self).adjacent(x1 as int, y1 as int, x2 as int, y2 as int),
        ensures
            final(self).wf(),
            final(self).same_dims(*old(self)),
            final(self).width == old(self).width,
            final(self).height == old(self).height,
            ({
                let d = dir_between(x1 as int, y1 as int, x2 as int, y2 as int);
                let i1 = old(self).cidx(x1 as int, y1 as int);
                let i2 = old(self).cidx(x2 as int, y2 as int);
                &&& forall|i: int|
                    0 <= i < old(self).cells.len() && i != i1 && i != i2 ==> final(self).cells[i]
                        == old(self).cells[i]
                &&& forall|x: int, y: int|
                    old(self).valid(x, y) ==> #[trigger] final(self).is_visited(x, y)
                        == old(self).is_visited(x, y)
                &&& visited_upto(final(self).cells@, final(self).cells.len() as int)
                    == visited_upto(old(self).cells@, old(self).cells.len() as int)
                &&& !final(self).wall(x1 as int, y1 as int, d)
                &&& !final(self).wall(x2 as int, y2 as int, opposite(d))
                &&& forall|x: int, y: int, dd: int|
                    old(self).valid(x, y) && 0 <= dd < 4 && !((x == x1 && y == y1 && dd == d) || (
                    x == x2 && y == y2 && dd == opposite(d)))
                        ==> #[trigger] final(self).wall(x, y, dd) == old(self).wall(x, y, dd)
                &&& forall|x: int, y: int, dd: int|
                    old(self).open_dir(x, y, dd) ==> #[trigger] final(self).open_dir(x, y, dd)
                &&& forall|x: int, y: int, dd: int|
                    #[trigger] final(self).open_dir(x, y, dd) ==> old(self).open_dir(x, y, dd)
                        || (x == x1 && y == y1 && dd == d) || (x == x2 && y == y2 && dd
                        == opposite(d))
                &&& final(self).open_dir(x1 as int, y1 as int, d)
                &&& final(self).open_total() == old(self).open_total() + if old(self).wall(
                    x1 as int,
                    y1 as int,
                    d,
                ) { 2int } else { 0int }
            }),
    {
        let i1 = self.get_index(x1, y1);
        let i2 = self.get_index(x2, y2);
        let ghost pre = *self;
        let ghost d = dir_between(x1 as int, y1 as int, x2 as int, y2 as int);
        proof {
            lemma_cidx_inj_ne(pre, x1 as int, y1 as int, x2 as int, y2 as int);
        }
        let mut c1 = self.cells[i1];
        let mut c2 = self.cells[i2];
        if y1 < y2 {
            c1.walls[2] = false;
            c2.walls[0] = false;
        } else if y1 > y2 {
            c1.walls[0] = false;
            c2.walls[2] = false;
        } else if x1 < x2 {
            c1.walls[1] = false;
            c2.walls[3] = false;
        } else {
            c1.walls[3] = false;
            c2.walls[1] = false;
        }
        self.cells[i1] = c1;
        self.cells[i2] = c2;
        proof {
            let i1 = i1 as int;
            let i2 = i2 as int;
            let now = *self;
            let ghost mid = pre.cells@.update(i1, c1);
            assert(now.cells@ == mid.update(i2, c2));
            assert(forall|dd: int|
                0 <= dd < 4 && dd != d ==> c1.walls[dd] == pre.cells[i1].walls[dd]);
            assert(forall|dd: int|
                0 <= dd < 4 && dd != opposite(d) ==> c2.walls[dd] == pre.cells[i2].walls[dd]);
            assert(!c1.walls[d] && !c2.walls[opposite(d)]);
            assert forall|x: int, y: int, dd: int|
                pre.valid(x, y) && 0 <= dd < 4 && !((x == x1 && y == y1 && dd == d) || (x == x2
                    && y == y2 && dd == opposite(d))) implies #[trigger] now.wall(x, y, dd)
                == pre.wall(x, y, dd) by {
                lemma_cidx_bound(pre, x, y);
                if now.cidx(x, y) == i1 {
                    lemma_cidx_inj(pre, x, y, x1 as int, y1 as int);
                }
                if now.cidx(x, y) == i2 {
                    lemma_cidx_inj(pre, x, y, x2 as int, y2 as int);
                }
            }
            assert(!now.wall(x1 as int, y1 as int, d));
            assert(!now.wall(x2 as int, y2 as int, opposite(d)));
            // geometry of the two sides
            assert(x2 as int == x1 + dx(d) && y2 as int == y1 + dy(d));
            assert(x1 as int == x2 + dx(opposite(d)) && y1 as int == y2 + dy(opposite(d)));
            // wall agreement is preserved
            assert forall|x: int, y: int, dd: int|
                0 <= dd < 4 && now.valid(x, y) && now.valid(x + dx(dd), y + dy(dd))
                    implies #[trigger] now.wall(x, y, dd) == now.wall(
                    x + dx(dd),
                    y + dy(dd),
                    opposite(dd),
                ) by {
                let nx = x + dx(dd);
                let ny = y + dy(dd);
                assert(opposite(opposite(dd)) == dd);
                assert(nx + dx(opposite(dd)) == x && ny + dy(opposite(dd)) == y);
                if x == x1 && y == y1 && dd == d {
                    assert(!now.wall(x, y, dd) && !now.wall(nx, ny, opposite(dd)));
                } else if x == x2 && y == y2 && dd == opposite(d) {
                    assert(!now.wall(x, y, dd) && !now.wall(nx, ny, opposite(dd)));
                } else {
                    assert(now.wall(x, y, dd) == pre.wall(x, y, dd));
                    if nx == x1 && ny == y1 && opposite(dd) == d {
                        assert(x == x1 + dx(d) && y == y1 + dy(d));
                        assert(x == x2 && y == y2 && dd == opposite(d));
                        assert(false);
                    } else if nx == x2 && ny == y2 && opposite(dd) == opposite(d) {
                        assert(dd == d && x == x2 + dx(opposite(d)) && y == y2 + dy(opposite(d)));
                        assert(x == x1 && y == y1);
                        assert(false);
                    } else {
                        assert(now.wall(nx, ny, opposite(dd)) == pre.wall(nx, ny, opposite(dd)));
                    }
                }
            }
            assert(now.walls_agree());
            assert(now.cells_placed());
            // visited flags unchanged
            assert forall|x: int, y: int| pre.valid(x, y) implies #[trigger] now.is_visited(x, y)
                == pre.is_visited(x, y) by {
                lemma_cidx_bound(pre, x, y);
                if now.cidx(x, y) == i1 {
                    assert(now.cells[i1].visited == pre.cells[i1].visited);
                }
                if now.cidx(x, y) == i2 {
                    assert(now.cells[i2].visited == pre.cells[i2].visited);
                }
            }
            // passage monotonicity
            assert forall|x: int, y: int, dd: int|
                pre.open_dir(x, y, dd) implies #[trigger] now.open_dir(x, y, dd) by {
                if (x == x1 && y == y1 && dd == d) || (x == x2 && y == y2 && dd == opposite(d)) {
                } else {
                    assert(now.wall(x, y, dd) == pre.wall(x, y, dd));
                }
            }
            assert(now.open_dir(x1 as int, y1 as int, d));
            // counting
            let was = pre.wall(x1 as int, y1 as int, d);
            assert(pre.wall(x2 as int, y2 as int, opposite(d)) == was);
            assert(open_count(c1) == open_count(pre.cells[i1]) + if was { 1int } else { 0int });
            assert(open_count(c2) == open_count(pre.cells[i2]) + if was { 1int } else { 0int });
            let ghost midm = Maze { width: pre.width, height: pre.height, cells: pre.cells };
            lemma_open_upto_change(pre.cells@, mid, i1, pre.cells@.len() as int);
            lemma_open_upto_change(mid, now.cells@, i2, pre.cells@.len() as int);
            lemma_visited_upto_change(pre.cells@, mid, i1, pre.cells@.len() as int);
            lemma_visited_upto_change(mid, now.cells@, i2, pre.cells@.len() as int);
        }
    }
}

/// Distinct valid coordinates have distinct indices.
pub proof fn lemma_cidx_inj_ne(m: Maze, x1: int, y1: int, x2: int, y2: int)
    requires
        m.valid(x1, y1),
        m.valid(x2, y2),
        x1 != x2 || y1 != y2,
    ensures
        m.cidx(x1, y1) != m.cidx(x2, y2),
{
    if m.cidx(x1, y1) == m.cidx(x2, y2) {
        lemma_cidx_inj(m, x1, y1, x2, y2);
    }
}

/// A grid whose walls are all present has no open passage end.
pub proof fn lemma_open_zero(cs: Seq<Cell>, k: int)
    requires
        0 <= k <= cs.len(),
        forall|i: int| #![trigger cs[i]]
            0 <= i < cs.len() ==> cs[i].walls[0] && cs[i].walls[1] && cs[i].walls[2]
                && cs[i].walls[3],
    ensures
        open_upto(cs, k) == 0,
    decreases k,
{
    if k > 0 {
        lemma_open_zero(cs, k - 1);
    }
}

} // verus!

