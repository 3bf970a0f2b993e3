use vstd::prelude::*;
use crate::grid::{b2i, dir_between, dx, dy, opposite, visited_upto, Maze};
use crate::reach::{
    fully_connected, is_perfect, lemma_closed_all_visited, lemma_connected_from_start,
    lemma_reach_mono, lemma_reach_refl, lemma_reach_step, lemma_reach_trans, reachable,
};
use crate::rng::rand_below;

verus! {

/// Every wall of every unvisited cell is still present.
pub open spec fn unvisited_sealed(m: Maze) -> bool {
    forall|x: int, y: int, d: int|
        m.valid(x, y) && 0 <= d < 4 && !m.is_visited(x, y) ==> #[trigger] m.wall(x, y, d)
}

/// Every visited cell has been connected to the start cell.
pub open spec fn reach_inv(m: Maze, sx: int, sy: int) -> bool {
    forall|x: int, y: int|
        m.valid(x, y) && #[trigger] m.is_visited(x, y) ==> reachable(m, sx, sy, x, y)
}

/// `(x, y)` occurs in the worklist.
pub open spec fn in_list(s: Seq<(usize, usize)>, x: int, y: int) -> bool {
    exists|i: int| 0 <= i < s.len() && (#[trigger] s[i]).0 == x && s[i].1 == y
}

/// Worklist entries are valid visited cells.
pub open spec fn list_ok(m: Maze, s: Seq<(usize, usize)>) -> bool {
    forall|i: int|
        0 <= i < s.len() ==> m.valid((#[trigger] s[i]).0 as int, s[i].1 as int) && m.is_visited(
            s[i].0 as int,
            s[i].1 as int,
        )
}

/// Every visited cell that no longer waits in the worklist already has all
/// of its grid neighbours visited.
pub open spec fn closed_except(m: Maze, s: Seq<(usize, usize)>) -> bool {
    forall|x: int, y: int, d: int|
        #![trigger m.is_visited(x, y), dx(d)]
        0 <= d < 4 && m.valid(x, y) && m.valid(x + dx(d), y + dy(d)) && m.is_visited(x, y)
            && !in_list(s, x, y) ==> m.is_visited(x + dx(d), y + dy(d))
}

/// Visited-cell count of the whole grid.
pub open spec fn visited_count(m: Maze) -> int {
    visited_upto(m.cells@, m.cells.len() as int)
}

/// In a pristine grid nothing is open and nothing is visited.
pub(crate) proof fn lemma_pristine_counts(m: Maze)
    requires
        m.wf(),
        m.all_walls_present(),
        m.all_unvisited(),
    ensures
        m.open_total() == 0,
        visited_count(m) == 0,
{
    assert forall|i: int| #![trigger m.cells[i]] 0 <= i < m.cells.len() implies m.cells[i].walls[0]
        && m.cells[i].walls[1] && m.cells[i].walls[2] && m.cells[i].walls[3]
        && !m.cells[i].visited by {
        let cx = m.cells[i].x as int;
        let cy = m.cells[i].y as int;
        assert(m.valid(cx, cy) && m.cidx(cx, cy) == i);
        assert(m.wall(cx, cy, 0) && m.wall(cx, cy, 1) && m.wall(cx, cy, 2) && m.wall(cx, cy, 3));
        assert(!m.is_visited(cx, cy));
    }
    crate::grid::lemma_open_zero(m.cells@, m.cells.len() as int);
    lemma_unvisited_zero(m.cells@, m.cells.len() as int);
}

proof fn lemma_unvisited_zero(cs: Seq<crate::grid::Cell>, k: int)
    requires
        0 <= k <= cs.len(),
        forall|i: int| #![trigger cs[i]] 0 <= i < cs.len() ==> !cs[i].visited,
    ensures
        visited_upto(cs, k) == 0,
    decreases k,
{
    if k > 0 {
        lemma_unvisited_zero(cs, k - 1);
    }
}

/// All cells visited, stated per index.
proof fn lemma_all_visited_count(m: Maze)
    requires
        m.wf(),
        m.all_visited(),
    ensures
        visited_count(m) == m.area(),
{
    assert forall|i: int| #![trigger m.cells[i]] 0 <= i < m.cells.len()
        implies m.cells[i].visited by {
        let cx = m.cells[i].x as int;
        let cy = m.cells[i].y as int;
        assert(m.valid(cx, cy) && m.cidx(cx, cy) == i);
        assert(m.is_visited(cx, cy));
    }
    crate::grid::lemma_visited_full(m.cells@, m.cells.len() as int);
}

/// Connect the current cell `(x, y)` to its unvisited neighbour `(nx, ny)`:
/// open the shared wall and mark the neighbour visited, keeping every
/// generator invariant.
fn connect(maze: &mut Maze, x: usize, y: usize, nx: usize, ny: usize, Ghost(sx): Ghost<int>, Ghost(
    sy,
): Ghost<int>)
    requires
        old(maze).wf(),
        old(maze).adjacent(x as int, y as int, nx as int, ny as int),
        old(maze).is_visited(x as int, y as int),
        !old(maze).is_visited(nx as int, ny as int),
        unvisited_sealed(*old(maze)),
        reach_inv(*old(maze), sx, sy),
        old(maze).valid(sx, sy),
        old(maze).is_visited(sx, sy),
        old(maze).open_total() == 2 * (visited_count(*old(maze)) - 1),
    ensures
        final(maze).wf(),
        final(maze).same_dims(*old(maze)),
        final(maze).width == old(maze).width && final(maze).height == old(maze).height,
        unvisited_sealed(*final(maze)),
        reach_inv(*final(maze), sx, sy),
        final(maze).is_visited(sx, sy),
        final(maze).open_total() == 2 * (visited_count(*final(maze)) - 1),
        visited_count(*final(maze)) == visited_count(*old(maze)) + 1,
        final(maze).is_visited(nx as int, ny as int),
        forall|x2: int, y2: int|
            old(maze).valid(x2, y2) && old(maze).is_visited(x2, y2)
                ==> #[trigger] final(maze).is_visited(x2, y2),
        forall|x2: int, y2: int|
            old(maze).valid(x2, y2) && #[trigger] final(maze).is_visited(x2, y2)
                ==> old(maze).is_visited(x2, y2) || (x2 == nx && y2 == ny),
{
    let ghost m0 = *maze;
    let ghost d = dir_between(x as int, y as int, nx as int, ny as int);
    proof {
        assert(nx as int == x + dx(d) && ny as int == y + dy(d));
        // the wall to the unvisited neighbour is still present
        assert(m0.wall(nx as int, ny as int, opposite(d)));
        assert(m0.wall(x as int, y as int, d) == m0.wall(nx as int, ny as int, opposite(d)));
    }
    maze.remove_wall(x, y, nx, ny);
    let ghost m1 = *maze;
    maze.set_visited(nx, ny);
    proof {
        let m2 = *maze;
        // the two touched cells are visited, so sealing survives
        assert forall|x2: int, y2: int, dd: int|
            m2.valid(x2, y2) && 0 <= dd < 4 && !m2.is_visited(x2, y2) implies #[trigger] m2.wall(
            x2,
            y2,
            dd,
        ) by {
            assert(m1.is_visited(x2, y2) == m0.is_visited(x2, y2));
            assert(m2.is_visited(x2, y2) == m1.is_visited(x2, y2));
            if (x2 == x && y2 == y && dd == d) || (x2 == nx && y2 == ny && dd == opposite(d)) {
                assert(false);
            } else {
                assert(m1.wall(x2, y2, dd) == m0.wall(x2, y2, dd));
                assert(m2.wall(x2, y2, dd) == m1.wall(x2, y2, dd));
                assert(m0.wall(x2, y2, dd));
            }
        }
        // reachability of every visited cell
        assert(m1.open_dir(x as int, y as int, d));
        assert forall|x2: int, y2: int|
            m2.valid(x2, y2) && #[trigger] m2.is_visited(x2, y2) implies reachable(
            m2,
            sx,
            sy,
            x2,
            y2,
        ) by {
            assert(forall|x3: int, y3: int, d3: int|
                m0.open_dir(x3, y3, d3) ==> #[trigger] m2.open_dir(x3, y3, d3));
            if x2 == nx && y2 == ny {
                assert(reachable(m0, sx, sy, x as int, y as int));
                lemma_reach_mono(m0, m2, sx, sy, x as int, y as int);
                assert(m2.open_dir(x as int, y as int, d));
                lemma_reach_step(m2, x as int, y as int, d);
                lemma_reach_trans(m2, sx, sy, x as int, y as int, x2, y2);
            } else {
                assert(m2.is_visited(x2, y2) == m0.is_visited(x2, y2));
                assert(reachable(m0, sx, sy, x2, y2));
                lemma_reach_mono(m0, m2, sx, sy, x2, y2);
            }
        }
        // counting
        assert(m1.open_total() == m0.open_total() + 2);
        assert(visited_count(m2) == visited_count(m1) + 1);
    }
}

/// Carve a maze with the randomized depth-first backtracker: start at
/// `(0, 0)`, keep descending into a random unvisited neighbour of the top
/// of the stack, and backtrack when none is left. The result is a perfect
/// maze: a spanning tree of the grid graph.
#[verifier::rlimit(100)]
pub fn dfs(maze: &mut Maze, rng: &mut rand::rngs::StdRng)
    requires
        old(maze).pristine(),
    ensures
        final(maze).wf(),
        final(maze).width == old(maze).width && final(maze).height == old(maze).height,
        is_perfect(*final(maze)),
        final(maze).all_visited(),
{
    proof {
        lemma_pristine_counts(*old(maze));
    }
    maze.set_visited(0, 0);
    let mut stack: Vec<(usize, usize)> = Vec::new();
    stack.push((0usize, 0usize));
    proof {
        crate::grid::lemma_counts_bounds(maze.cells@, maze.cells.len() as int);
        lemma_reach_refl(*maze, 0, 0);
        assert forall|x: int, y: int|
            maze.valid(x, y) && #[trigger] maze.is_visited(x, y) implies reachable(
            *maze,
            0,
            0,
            x,
            y,
        ) by {
            if x != 0 || y != 0 {
                assert(!old(maze).is_visited(x, y));
                assert(false);
            }
        }
        assert(stack@[0] == (0usize, 0usize));
        assert(in_list(stack@, 0, 0));
        assert forall|x2: int, y2: int, d: int|
            #![trigger maze.is_visited(x2, y2), dx(d)]
            0 <= d < 4 && maze.valid(x2, y2) && maze.valid(x2 + dx(d), y2 + dy(d))
                && maze.is_visited(x2, y2) && !in_list(stack@, x2, y2) implies maze.is_visited(
            x2 + dx(d),
            y2 + dy(d),
        ) by {
            if x2 != 0 || y2 != 0 {
                assert(!old(maze).is_visited(x2, y2));
                assert(false);
            }
        }
    }
    while stack.len() > 0
        invariant
            maze.wf(),
            maze.width == old(maze).width && maze.height == old(maze).height,
            maze.cells.len() == old(maze).cells.len(),
            maze.valid(0, 0),
            maze.is_visited(0, 0),
            unvisited_sealed(*maze),
            reach_inv(*maze, 0, 0),
            maze.open_total() == 2 * (visited_count(*maze) - 1),
            1 <= visited_count(*maze) <= maze.area(),
            list_ok(*maze, stack@),
            closed_except(*maze, stack@),
        decreases 2 * (maze.area() - visited_count(*maze)) + stack.len(),
    {
        let top = stack[stack.len() - 1];
        let x = top.0;
        let y = top.1;
        proof {
            assert(stack@[stack@.len() - 1] == top);
            assert(maze.valid(x as int, y as int) && maze.is_visited(x as int, y as int));
        }
        let mut neighbors: Vec<(usize, usize)> = Vec::new();
        if y > 0 && !maze.cell_visited(x, y - 1) {
            neighbors.push((x, y - 1));
        }
        if x + 1 < maze.width && !maze.cell_visited(x + 1, y) {
            neighbors.push((x + 1, y));
        }
        if y + 1 < maze.height && !maze.cell_visited(x, y + 1) {
            neighbors.push((x, y + 1));
        }
        if x > 0 && !maze.cell_visited(x - 1, y) {
            neighbors.push((x - 1, y));
        }
        proof {
            assert(forall|i: int|
                0 <= i < neighbors@.len() ==> maze.valid(
                    (#[trigger] neighbors@[i]).0 as int,
                    neighbors@[i].1 as int,
                ) && !maze.is_visited(neighbors@[i].0 as int, neighbors@[i].1 as int)
                    && maze.adjacent(
                    x as int,
                    y as int,
                    neighbors@[i].0 as int,
                    neighbors@[i].1 as int,
                ));
        }
        if neighbors.len() > 0 {
            let j = rand_below(rng, neighbors.len());
            let nxt = neighbors[j];
            let nx = nxt.0;
            let ny = nxt.1;
            proof {
                assert(neighbors@[j as int] == nxt);
            }
            let ghost pre = *maze;
            let ghost pre_stack = stack@;
            connect(maze, x, y, nx, ny, Ghost(0int), Ghost(0int));
            stack.push((nx, ny));
            proof {
                assert(stack@.drop_last() =~= pre_stack);
                assert forall|i: int|
                    0 <= i < stack@.len() implies maze.valid(
                    (#[trigger] stack@[i]).0 as int,
                    stack@[i].1 as int,
                ) && maze.is_visited(stack@[i].0 as int, stack@[i].1 as int) by {
                    if i < stack@.len() - 1 {
                        assert(stack@[i] == stack@.drop_last()[i]);
                    }
                }
                assert forall|x2: int, y2: int, d: int|
                    #![trigger maze.is_visited(x2, y2), dx(d)]
                    0 <= d < 4 && maze.valid(x2, y2) && maze.valid(x2 + dx(d), y2 + dy(d))
                        && maze.is_visited(x2, y2) && !in_list(stack@, x2, y2) implies
                    maze.is_visited(x2 + dx(d), y2 + dy(d)) by {
                    assert(!in_list(pre_stack, x2, y2)) by {
                        if in_list(pre_stack, x2, y2) {
                            let i = choose|i: int|
                                0 <= i < pre_stack.len() && (#[trigger] pre_stack[i]).0 == x2
                                    && pre_stack[i].1 == y2;
                            assert(stack@[i] == pre_stack[i]);
                            assert(in_list(stack@, x2, y2));
                        }
                    }
                    if x2 == nx && y2 == ny {
                        assert(stack@[stack@.len() - 1] == (nx, ny));
                        assert(in_list(stack@, x2, y2));
                        assert(false);
                    } else {
                        assert(pre.is_visited(x2, y2));
                        assert(pre.is_visited(x2 + dx(d), y2 + dy(d)));
                        assert(maze.is_visited(x2 + dx(d), y2 + dy(d)));
                    }
                }
                crate::grid::lemma_counts_bounds(maze.cells@, maze.cells.len() as int);
            }
        } else {
            let ghost pre_stack = stack@;
            let _ = stack.pop();
            proof {
                assert(stack@ == pre_stack.drop_last());
                assert forall|x2: int, y2: int, d: int|
                    #![trigger maze.is_visited(x2, y2), dx(d)]
                    0 <= d < 4 && maze.valid(x2, y2) && maze.valid(x2 + dx(d), y2 + dy(d))
                        && maze.is_visited(x2, y2) && !in_list(stack@, x2, y2) implies
                    maze.is_visited(x2 + dx(d), y2 + dy(d)) by {
                    if x2 == x && y2 == y {
                        let nx2 = x2 + dx(d);
                        let ny2 = y2 + dy(d);
                        if d == 0 {
                            assert(y > 0 && nx2 == x && ny2 == y - 1);
                            assert(maze.is_visited(nx2, ny2));
                        } else if d == 1 {
                            assert(x + 1 < maze.width && nx2 == x + 1 && ny2 == y);
                            assert(maze.is_visited(nx2, ny2));
                        } else if d == 2 {
                            assert(y + 1 < maze.height && nx2 == x && ny2 == y + 1);
                            assert(maze.is_visited(nx2, ny2));
                        } else {
                            assert(x > 0 && nx2 == x - 1 && ny2 == y);
                            assert(maze.is_visited(nx2, ny2));
                        }
                    } else {
                        assert(!in_list(pre_stack, x2, y2)) by {
                            if in_list(pre_stack, x2, y2) {
                                let i = choose|i: int|
                                    0 <= i < pre_stack.len() && (#[trigger] pre_stack[i]).0 == x2
                                        && pre_stack[i].1 == y2;
                                if i < pre_stack.len() - 1 {
                                    assert(stack@[i] == pre_stack[i]);
                                    assert(in_list(stack@, x2, y2));
                                } else {
                                    assert(pre_stack[i] == (x, y));
                                    assert(false);
                                }
                            }
                        }
                        assert(maze.is_visited(x2 + dx(d), y2 + dy(d)));
                    }
                }
            }
        }
    }
    proof {
        finish_generator(*maze, 0, 0);
    }
}

/// Connect every still-unvisited grid neighbour of the visited cell
/// `(x, y)` to it and append those neighbours to the frontier.
#[verifier::rlimit(100)]
fn expand(
    maze: &mut Maze,
    frontier: &mut Vec<(usize, usize)>,
    x: usize,
    y: usize,
    Ghost(sx): Ghost<int>,
    Ghost(sy): Ghost<int>,
)
    requires
        old(maze).wf(),
        old(maze).valid(x as int, y as int),
        old(maze).is_visited(x as int, y as int),
        unvisited_sealed(*old(maze)),
        reach_inv(*old(maze), sx, sy),
        old(maze).valid(sx, sy),
        old(maze).is_visited(sx, sy),
        old(maze).open_total() == 2 * (visited_count(*old(maze)) - 1),
    ensures
        final(maze).wf(),
        final(maze).same_dims(*old(maze)),
        final(maze).width == old(maze).width && final(maze).height == old(maze).height,
        unvisited_sealed(*final(maze)),
        reach_inv(*final(maze), sx, sy),
        final(maze).is_visited(sx, sy),
        final(maze).open_total() == 2 * (visited_count(*final(maze)) - 1),
        visited_count(*final(maze)) - visited_count(*old(maze)) == final(frontier).len() - old(
            frontier,
        ).len(),
        final(frontier).len() >= old(frontier).len(),
        forall|i: int| 0 <= i < old(frontier).len() ==> final(frontier)@[i] == old(frontier)@[i],
        forall|i: int|
            old(frontier).len() <= i < final(frontier).len() ==> final(maze).valid(
                (#[trigger] final(frontier)@[i]).0 as int,
                final(frontier)@[i].1 as int,
            ) && final(maze).is_visited(
                final(frontier)@[i].0 as int,
                final(frontier)@[i].1 as int,
            ),
        forall|d: int|
            0 <= d < 4 && final(maze).valid(x + dx(d), y + dy(d))
                ==> #[trigger] final(maze).is_visited(x + dx(d), y + dy(d)),
        forall|x2: int, y2: int|
            old(maze).valid(x2, y2) && old(maze).is_visited(x2, y2)
                ==> #[trigger] final(maze).is_visited(x2, y2),
        forall|x2: int, y2: int|
            old(maze).valid(x2, y2) && #[trigger] final(maze).is_visited(x2, y2)
                ==> old(maze).is_visited(x2, y2) || in_list(final(frontier)@, x2, y2),
{
    let ghost m0 = *maze;
    let ghost f0 = frontier@;
    if y > 0 && !maze.cell_visited(x, y - 1) {
        connect(maze, x, y, x, y - 1, Ghost(sx), Ghost(sy));
        frontier.push((x, y - 1));
    }
    let ghost m1 = *maze;
    let ghost f1 = frontier@;
    if x + 1 < maze.width && !maze.cell_visited(x + 1, y) {
        connect(maze, x, y, x + 1, y, Ghost(sx), Ghost(sy));
        frontier.push((x + 1, y));
    }
    let ghost m2 = *maze;
    let ghost f2 = frontier@;
    if y + 1 < maze.height && !maze.cell_visited(x, y + 1) {
        connect(maze, x, y, x, y + 1, Ghost(sx), Ghost(sy));
        frontier.push((x, y + 1));
    }
    let ghost m3 = *maze;
    let ghost f3 = frontier@;
    if x > 0 && !maze.cell_visited(x - 1, y) {
        connect(maze, x, y, x - 1, y, Ghost(sx), Ghost(sy));
        frontier.push((x - 1, y));
    }
    proof {
        let m4 = *maze;
        let f4 = frontier@;
        assert(m1.is_visited(x as int, y as int) && m2.is_visited(x as int, y as int)
            && m3.is_visited(x as int, y as int) && m4.is_visited(x as int, y as int));
        assert(y > 0 ==> m4.is_visited(x as int, y - 1));
        assert(x + 1 < maze.width ==> m4.is_visited(x + 1, y as int));
        assert(y + 1 < maze.height ==> m4.is_visited(x as int, y + 1));
        assert(x > 0 ==> m4.is_visited(x - 1, y as int));
        assert forall|d: int|
            0 <= d < 4 && m4.valid(x + dx(d), y + dy(d)) implies #[trigger] m4.is_visited(
            x + dx(d),
            y + dy(d),
        ) by {
            if d == 0 {
                assert(x + dx(d) == x && y + dy(d) == y - 1);
            } else if d == 1 {
                assert(x + dx(d) == x + 1 && y + dy(d) == y);
            } else if d == 2 {
                assert(x + dx(d) == x && y + dy(d) == y + 1);
            } else {
                assert(x + dx(d) == x - 1 && y + dy(d) == y);
            }
        }
        assert forall|x2: int, y2: int|
            m0.valid(x2, y2) && #[trigger] m4.is_visited(x2, y2) implies m0.is_visited(x2, y2)
                || in_list(f4, x2, y2) by {
            if !m0.is_visited(x2, y2) {
                if m3.is_visited(x2, y2) {
                    if m2.is_visited(x2, y2) {
                        if m1.is_visited(x2, y2) {
                            assert(x2 == x && y2 == y - 1);
                            assert(f1[f1.len() - 1] == (x, (y - 1) as usize));
                            assert(f4[f1.len() - 1] == f1[f1.len() - 1]);
                        } else {
                            assert(x2 == x + 1 && y2 == y);
                            assert(f2[f2.len() - 1] == ((x + 1) as usize, y));
                            assert(f4[f2.len() - 1] == f2[f2.len() - 1]);
                        }
                    } else {
                        assert(x2 == x && y2 == y + 1);
                        assert(f3[f3.len() - 1] == (x, (y + 1) as usize));
                        assert(f4[f3.len() - 1] == f3[f3.len() - 1]);
                    }
                } else {
                    assert(x2 == x - 1 && y2 == y);
                    assert(f4[f4.len() - 1] == ((x - 1) as usize, y));
                }
                assert(in_list(f4, x2, y2));
            }
        }
    }
}

/// Carve a maze with randomized-order Prim expansion: start from a random
/// cell; repeatedly take a random cell out of the frontier and connect all
/// of its still-unvisited neighbours, adding them to the frontier. The
/// result is a perfect maze: a spanning tree of the grid graph.
#[verifier::rlimit(100)]
pub fn prim(maze: &mut Maze, rng: &mut rand::rngs::StdRng)
    requires
        old(maze).pristine(),
    ensures
        final(maze).wf(),
        final(maze).width == old(maze).width && final(maze).height == old(maze).height,
        is_perfect(*final(maze)),
        final(maze).all_visited(),
{
    proof {
        lemma_pristine_counts(*old(maze));
    }
    let sx = rand_below(rng, maze.width);
    let sy = rand_below(rng, maze.height);
    let mut frontier: Vec<(usize, usize)> = Vec::new();
    frontier.push((sx, sy));
    maze.set_visited(sx, sy);
    proof {
        crate::grid::lemma_counts_bounds(maze.cells@, maze.cells.len() as int);
        lemma_reach_refl(*maze, sx as int, sy as int);
        assert forall|x: int, y: int|
            maze.valid(x, y) && #[trigger] maze.is_visited(x, y) implies reachable(
            *maze,
            sx as int,
            sy as int,
            x,
            y,
        ) by {
            if x != sx || y != sy {
                assert(!old(maze).is_visited(x, y));
                assert(false);
            }
        }
        assert(frontier@[0] == (sx, sy));
        assert(in_list(frontier@, sx as int, sy as int));
        assert forall|x2: int, y2: int, d: int|
            #![trigger maze.is_visited(x2, y2), dx(d)]
            0 <= d < 4 && maze.valid(x2, y2) && maze.valid(x2 + dx(d), y2 + dy(d))
                && maze.is_visited(x2, y2) && !in_list(frontier@, x2, y2) implies maze.is_visited(
            x2 + dx(d),
            y2 + dy(d),
        ) by {
            if x2 != sx || y2 != sy {
                assert(!old(maze).is_visited(x2, y2));
                assert(false);
            }
        }
    }
    while frontier.len() > 0
        invariant
            maze.wf(),
            maze.width == old(maze).width && maze.height == old(maze).height,
            maze.cells.len() == old(maze).cells.len(),
            maze.valid(sx as int, sy as int),
            maze.is_visited(sx as int, sy as int),
            unvisited_sealed(*maze),
            reach_inv(*maze, sx as int, sy as int),
            maze.open_total() == 2 * (visited_count(*maze) - 1),
            1 <= visited_count(*maze) <= maze.area(),
            list_ok(*maze, frontier@),
            closed_except(*maze, frontier@),
        decreases 2 * (maze.area() - visited_count(*maze)) + frontier.len(),
    {
        let j = rand_below(rng, frontier.len());
        let ghost fpre = frontier@;
        let cur = frontier.swap_remove(j);
        let x = cur.0;
        let y = cur.1;
        let ghost fmid = frontier@;
        proof {
            assert(fpre[j as int] == cur);
            assert forall|i: int|
                0 <= i < fmid.len() implies maze.valid(
                (#[trigger] fmid[i]).0 as int,
                fmid[i].1 as int,
            ) && maze.is_visited(fmid[i].0 as int, fmid[i].1 as int) by {
                if i == j {
                    assert(fmid[i] == fpre[fpre.len() - 1]);
                } else {
                    assert(fmid[i] == fpre[i]);
                }
            }
        }
        let ghost m_in = *maze;
        expand(maze, &mut frontier, x, y, Ghost(sx as int), Ghost(sy as int));
        proof {
            let m4 = *maze;
            let f4 = frontier@;
            crate::grid::lemma_counts_bounds(maze.cells@, maze.cells.len() as int);
            assert forall|i: int|
                0 <= i < f4.len() implies maze.valid((#[trigger] f4[i]).0 as int, f4[i].1 as int)
                && maze.is_visited(f4[i].0 as int, f4[i].1 as int) by {
                if i < fmid.len() {
                    assert(f4[i] == fmid[i]);
                    assert(m_in.is_visited(f4[i].0 as int, f4[i].1 as int));
                }
            }
            assert forall|x2: int, y2: int, d: int|
                #![trigger maze.is_visited(x2, y2), dx(d)]
                0 <= d < 4 && maze.valid(x2, y2) && maze.valid(x2 + dx(d), y2 + dy(d))
                    && maze.is_visited(x2, y2) && !in_list(f4, x2, y2) implies maze.is_visited(
                x2 + dx(d),
                y2 + dy(d),
            ) by {
                assert(m_in.is_visited(x2, y2));
                if x2 == x && y2 == y {
                } else {
                    assert(!in_list(fmid, x2, y2)) by {
                        if in_list(fmid, x2, y2) {
                            let i = choose|i: int|
                                0 <= i < fmid.len() && (#[trigger] fmid[i]).0 == x2 && fmid[i].1
                                    == y2;
                            assert(f4[i] == fmid[i]);
                            assert(in_list(f4, x2, y2));
                        }
                    }
                    assert(!in_list(fpre, x2, y2)) by {
                        if in_list(fpre, x2, y2) {
                            let i = choose|i: int|
                                0 <= i < fpre.len() && (#[trigger] fpre[i]).0 == x2 && fpre[i].1
                                    == y2;
                            if i == j {
                                assert(false);
                            } else if i == fpre.len() - 1 {
                                if (j as int) < fpre.len() - 1 {
                                    assert(fmid[j as int] == fpre[fpre.len() - 1]);
                                    assert(in_list(fmid, x2, y2));
                                } else {
                                    assert(false);
                                }
                            } else {
                                assert(fmid[i] == fpre[i]);
                                assert(in_list(fmid, x2, y2));
                            }
                        }
                    }
                    assert(m_in.is_visited(x2 + dx(d), y2 + dy(d)));
                    assert(maze.is_visited(x2 + dx(d), y2 + dy(d)));
                }
            }
        }
    }
    proof {
        finish_generator(*maze, sx as int, sy as int);
    }
}

/// Shared closing argument of the generators: the worklist is empty, so the
/// visited region is closed under adjacency, hence everything is visited,
/// reachable from the start, and the wall count is that of a tree.
proof fn finish_generator(m: Maze, sx: int, sy: int)
    requires
        m.wf(),
        m.valid(sx, sy),
        m.is_visited(sx, sy),
        reach_inv(m, sx, sy),
        m.open_total() == 2 * (visited_count(m) - 1),
        forall|x2: int, y2: int, d: int|
            #![trigger m.is_visited(x2, y2), dx(d)]
            0 <= d < 4 && m.valid(x2, y2) && m.valid(x2 + dx(d), y2 + dy(d)) && m.is_visited(
                x2,
                y2,
            ) ==> m.is_visited(x2 + dx(d), y2 + dy(d)),
    ensures
        is_perfect(m),
        m.all_visited(),
{
    lemma_closed_all_visited(m, sx, sy);
    lemma_all_visited_count(m);
    assert forall|x: int, y: int| m.valid(x, y) implies #[trigger] reachable(m, sx, sy, x, y) by {
        assert(m.is_visited(x, y));
    }
    lemma_connected_from_start(m, sx, sy);
}

} // verus!
