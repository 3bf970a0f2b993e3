use vstd::prelude::*;
use crate::grid::{dx, dy, opposite, Maze};

verus! {

/// `(x2, y2)` can be reached from `(x1, y1)` through open passages in at
/// most `k` steps.
pub open spec fn reach_k(m: Maze, x1: int, y1: int, x2: int, y2: int, k: nat) -> bool
    decreases k,
{
    (x1 == x2 && y1 == y2) || (k > 0 && exists|d: int|
        #[trigger] m.open_dir(x1, y1, d) && reach_k(
            m,
            x1 + dx(d),
            y1 + dy(d),
            x2,
            y2,
            (k - 1) as nat,
        ))
}

/// `(x2, y2)` can be reached from `(x1, y1)` through open passages.
pub open spec fn reachable(m: Maze, x1: int, y1: int, x2: int, y2: int) -> bool {
    exists|k: nat| reach_k(m, x1, y1, x2, y2, k)
}

/// Every cell can be reached from every other cell through open passages.
pub open spec fn fully_connected(m: Maze) -> bool {
    forall|x1: int, y1: int, x2: int, y2: int|
        m.valid(x1, y1) && m.valid(x2, y2) ==> #[trigger] reachable(m, x1, y1, x2, y2)
}

/// The open passages form a spanning tree of the grid graph: they connect
/// every pair of cells, and exactly `area - 1` walls are gone (each one
/// counted as two open passage ends).
pub open spec fn is_perfect(m: Maze) -> bool {
    &&& m.wf()
    &&& fully_connected(m)
    &&& m.open_total() == 2 * (m.area() - 1)
}

pub proof fn lemma_reach_refl(m: Maze, x: int, y: int)
    ensures
        reachable(m, x, y, x, y),
{
    assert(reach_k(m, x, y, x, y, 0));
}

pub proof fn lemma_reach_fuel(m: Maze, x1: int, y1: int, x2: int, y2: int, k1: nat, k2: nat)
    requires
        reach_k(m, x1, y1, x2, y2, k1),
        k1 <= k2,
    ensures
        reach_k(m, x1, y1, x2, y2, k2),
    decreases k1,
{
    if !(x1 == x2 && y1 == y2) {
        let d = choose|d: int|
            #[trigger] m.open_dir(x1, y1, d) && reach_k(
                m,
                x1 + dx(d),
                y1 + dy(d),
                x2,
                y2,
                (k1 - 1) as nat,
            );
        lemma_reach_fuel(m, x1 + dx(d), y1 + dy(d), x2, y2, (k1 - 1) as nat, (k2 - 1) as nat);
        assert(m.open_dir(x1, y1, d) && reach_k(
            m,
            x1 + dx(d),
            y1 + dy(d),
            x2,
            y2,
            (k2 - 1) as nat,
        ));
    }
}

proof fn lemma_reach_k_trans(
    m: Maze,
    x1: int,
    y1: int,
    x2: int,
    y2: int,
    x3: int,
    y3: int,
    k1: nat,
    k2: nat,
)
    requires
        reach_k(m, x1, y1, x2, y2, k1),
        reach_k(m, x2, y2, x3, y3, k2),
    ensures
        reach_k(m, x1, y1, x3, y3, (k1 + k2) as nat),
    decreases k1,
{
    if x1 == x2 && y1 == y2 {
        lemma_reach_fuel(m, x2, y2, x3, y3, k2, (k1 + k2) as nat);
    } else {
        let d = choose|d: int|
            #[trigger] m.open_dir(x1, y1, d) && reach_k(
                m,
                x1 + dx(d),
                y1 + dy(d),
                x2,
                y2,
                (k1 - 1) as nat,
            );
        lemma_reach_k_trans(m, x1 + dx(d), y1 + dy(d), x2, y2, x3, y3, (k1 - 1) as nat, k2);
        assert(m.open_dir(x1, y1, d) && reach_k(
            m,
            x1 + dx(d),
            y1 + dy(d),
            x3,
            y3,
            (k1 + k2 - 1) as nat,
        ));
    }
}

pub proof fn lemma_reach_trans(m: Maze, x1: int, y1: int, x2: int, y2: int, x3: int, y3: int)
    requires
        reachable(m, x1, y1, x2, y2),
        reachable(m, x2, y2, x3, y3),
    ensures
        reachable(m, x1, y1, x3, y3),
{
    let k1 = choose|k: nat| reach_k(m, x1, y1, x2, y2, k);
    let k2 = choose|k: nat| reach_k(m, x2, y2, x3, y3, k);
    lemma_reach_k_trans(m, x1, y1, x2, y2, x3, y3, k1, k2);
}

pub proof fn lemma_reach_step(m: Maze, x: int, y: int, d: int)
    requires
        m.open_dir(x, y, d),
    ensures
        reachable(m, x, y, x + dx(d), y + dy(d)),
{
    assert(reach_k(m, x + dx(d), y + dy(d), x + dx(d), y + dy(d), 0));
    assert(reach_k(m, x, y, x + dx(d), y + dy(d), 1));
}

/// With agreeing wall flags an open passage can be walked both ways.
pub proof fn lemma_open_symm(m: Maze, x: int, y: int, d: int)
    requires
        m.wf(),
        m.open_dir(x, y, d),
    ensures
        m.open_dir(x + dx(d), y + dy(d), opposite(d)),
        x + dx(d) + dx(opposite(d)) == x,
        y + dy(d) + dy(opposite(d)) == y,
{
    assert(m.wall(x, y, d) == m.wall(x + dx(d), y + dy(d), opposite(d)));
}

proof fn lemma_reach_k_symm(m: Maze, x1: int, y1: int, x2: int, y2: int, k: nat)
    requires
        m.wf(),
        reach_k(m, x1, y1, x2, y2, k),
    ensures
        reachable(m, x2, y2, x1, y1),
    decreases k,
{
    if x1 == x2 && y1 == y2 {
        lemma_reach_refl(m, x1, y1);
    } else {
        let d = choose|d: int|
            #[trigger] m.open_dir(x1, y1, d) && reach_k(
                m,
                x1 + dx(d),
                y1 + dy(d),
                x2,
                y2,
                (k - 1) as nat,
            );
        let nx = x1 + dx(d);
        let ny = y1 + dy(d);
        lemma_reach_k_symm(m, nx, ny, x2, y2, (k - 1) as nat);
        lemma_open_symm(m, x1, y1, d);
        lemma_reach_step(m, nx, ny, opposite(d));
        lemma_reach_trans(m, x2, y2, nx, ny, x1, y1);
    }
}

pub proof fn lemma_reach_symm(m: Maze, x1: int, y1: int, x2: int, y2: int)
    requires
        m.wf(),
        reachable(m, x1, y1, x2, y2),
    ensures
        reachable(m, x2, y2, x1, y1),
{
    let k = choose|k: nat| reach_k(m, x1, y1, x2, y2, k);
    lemma_reach_k_symm(m, x1, y1, x2, y2, k);
}

proof fn lemma_reach_k_mono(a: Maze, b: Maze, x1: int, y1: int, x2: int, y2: int, k: nat)
    requires
        a.same_dims(b),
        forall|x: int, y: int, d: int|
            a.open_dir(x, y, d) ==> #[trigger] b.open_dir(x, y, d),
        reach_k(a, x1, y1, x2, y2, k),
    ensures
        reach_k(b, x1, y1, x2, y2, k),
    decreases k,
{
    if !(x1 == x2 && y1 == y2) {
        let d = choose|d: int|
            #[trigger] a.open_dir(x1, y1, d) && reach_k(
                a,
                x1 + dx(d),
                y1 + dy(d),
                x2,
                y2,
                (k - 1) as nat,
            );
        lemma_reach_k_mono(a, b, x1 + dx(d), y1 + dy(d), x2, y2, (k - 1) as nat);
        assert(b.open_dir(x1, y1, d) && reach_k(
            b,
            x1 + dx(d),
            y1 + dy(d),
            x2,
            y2,
            (k - 1) as nat,
        ));
    }
}

/// Removing walls never disconnects anything: a passage walk survives in
/// any grid of the same size whose open passages include the old ones.
pub proof fn lemma_reach_mono(a: Maze, b: Maze, x1: int, y1: int, x2: int, y2: int)
    requires
        a.same_dims(b),
        forall|x: int, y: int, d: int|
            a.open_dir(x, y, d) ==> #[trigger] b.open_dir(x, y, d),
        reachable(a, x1, y1, x2, y2),
    ensures
        reachable(b, x1, y1, x2, y2),
{
    let k = choose|k: nat| reach_k(a, x1, y1, x2, y2, k);
    lemma_reach_k_mono(a, b, x1, y1, x2, y2, k);
}

/// A set of cells (given by a flag) that contains a cell and is closed
/// under plain grid adjacency covers the whole grid: first walk any marked
/// cell down to the origin, then fill the grid from the origin.
proof fn lemma_marked_origin(m: Maze, x: int, y: int)
    requires
        m.wf(),
        m.valid(x, y),
        m.is_visited(x, y),
        forall|x2: int, y2: int, d: int|
            #![trigger m.is_visited(x2, y2), dx(d)]
            0 <= d < 4 && m.valid(x2, y2) && m.valid(x2 + dx(d), y2 + dy(d)) && m.is_visited(
                x2,
                y2,
            ) ==> m.is_visited(x2 + dx(d), y2 + dy(d)),
    ensures
        m.is_visited(0, 0),
    decreases x + y,
{
    if x > 0 {
        assert(m.valid(x - 1, y) && x + dx(3) == x - 1 && y + dy(3) == y);
        assert(m.is_visited(x - 1, y));
        lemma_marked_origin(m, x - 1, y);
    } else if y > 0 {
        assert(m.valid(x, y - 1) && x + dx(0) == x && y + dy(0) == y - 1);
        assert(m.is_visited(x, y - 1));
        lemma_marked_origin(m, x, y - 1);
    }
}

proof fn lemma_origin_fill(m: Maze, x: int, y: int)
    requires
        m.wf(),
        m.valid(x, y),
        m.is_visited(0, 0),
        forall|x2: int, y2: int, d: int|
            #![trigger m.is_visited(x2, y2), dx(d)]
            0 <= d < 4 && m.valid(x2, y2) && m.valid(x2 + dx(d), y2 + dy(d)) && m.is_visited(
                x2,
                y2,
            ) ==> m.is_visited(x2 + dx(d), y2 + dy(d)),
    ensures
        m.is_visited(x, y),
    decreases x + y,
{
    if x > 0 {
        lemma_origin_fill(m, x - 1, y);
        assert(x - 1 + dx(1) == x && y + dy(1) == y);
        assert(m.is_visited(x, y));
    } else if y > 0 {
        lemma_origin_fill(m, x, y - 1);
        assert(x + dx(2) == x && y - 1 + dy(2) == y);
        assert(m.is_visited(x, y));
    }
}

/// If the visited cells are closed under grid adjacency and one cell is
/// visited, all cells are.
pub proof fn lemma_closed_all_visited(m: Maze, sx: int, sy: int)
    requires
        m.wf(),
        m.valid(sx, sy),
        m.is_visited(sx, sy),
        forall|x2: int, y2: int, d: int|
            #![trigger m.is_visited(x2, y2), dx(d)]
            0 <= d < 4 && m.valid(x2, y2) && m.valid(x2 + dx(d), y2 + dy(d)) && m.is_visited(
                x2,
                y2,
            ) ==> m.is_visited(x2 + dx(d), y2 + dy(d)),
    ensures
        m.all_visited(),
{
    lemma_marked_origin(m, sx, sy);
    assert forall|x: int, y: int| m.valid(x, y) implies #[trigger] m.is_visited(x, y) by {
        lemma_origin_fill(m, x, y);
    }
}

/// A maze in which every cell is reachable from one start cell is fully
/// connected.
pub proof fn lemma_connected_from_start(m: Maze, sx: int, sy: int)
    requires
        m.wf(),
        m.valid(sx, sy),
        forall|x: int, y: int|
            m.valid(x, y) ==> #[trigger] reachable(m, sx, sy, x, y),
    ensures
        fully_connected(m),
{
    assert forall|x1: int, y1: int, x2: int, y2: int|
        m.valid(x1, y1) && m.valid(x2, y2) implies #[trigger] reachable(m, x1, y1, x2, y2) by {
        assert(reachable(m, sx, sy, x1, y1));
        assert(reachable(m, sx, sy, x2, y2));
        lemma_reach_symm(m, sx, sy, x1, y1);
        lemma_reach_trans(m, x1, y1, sx, sy, x2, y2);
    }
}

} // verus!
