use vstd::prelude::*;
use crate::grid::{b2i, dead_upto, dir_between, dx, dy, open_count, open_upto, wall_count, Maze};

verus! {

/// Read-only structural snapshot of a finished maze, in exact integer
/// quantities. The derived ratios (average path length, branching factor,
/// quality index) are quotients of these.
pub struct MazeQuality {
    /// Cells with exactly one open passage.
    pub dead_ends: usize,
    /// Longest simple path (in edges) found from any starting cell.
    pub longest_path: usize,
    /// Sum of the lengths of all terminal paths over all starting cells.
    pub total_path_length: usize,
    /// Number of terminal paths over all starting cells.
    pub total_paths: usize,
    /// Total open-passage count over all cells.
    pub total_branches: usize,
    /// Number of cells.
    pub size: usize,
}

/// Unvisited entries among the first `k` marks.
pub open spec fn unvis_upto(vis: Seq<bool>, k: int) -> int
    decreases k,
{
    if k <= 0 { 0 } else { unvis_upto(vis, k - 1) + b2i(!vis[k - 1]) }
}

/// Unvisited entries of the whole marking.
pub open spec fn unvis_count(vis: Seq<bool>) -> int {
    unvis_upto(vis, vis.len() as int)
}

proof fn lemma_unvis_change(a: Seq<bool>, b: Seq<bool>, j: int, k: int)
    requires
        a.len() == b.len(),
        forall|i: int| 0 <= i < k && i != j ==> a[i] == b[i],
    ensures
        unvis_upto(b, k) == unvis_upto(a, k)
            + if 0 <= j < k { b2i(!b[j]) - b2i(!a[j]) } else { 0 },
    decreases k,
{
    if k > 0 {
        lemma_unvis_change(a, b, j, k - 1);
    }
}

proof fn lemma_unvis_bounds(vis: Seq<bool>, k: int)
    requires
        0 <= k <= vis.len(),
    ensures
        0 <= unvis_upto(vis, k) <= k,
    decreases k,
{
    if k > 0 {
        lemma_unvis_bounds(vis, k - 1);
    }
}

/// Exhaustive depth-first path enumeration from `(x, y)` over open
/// passages, avoiding the cells marked in `vis`, having already walked
/// `len` edges. Yields the maximum length reached, the sum of the lengths
/// of all terminal paths, and the number of terminal paths. A cell with no
/// way forward is itself one terminal path of length `len`.
pub open spec fn path_explore(m: Maze, x: int, y: int, vis: Seq<bool>, len: int) -> (int, int, int)
    decreases unvis_count(vis), 0int,
    when m.wf() && m.valid(x, y) && vis.len() == m.cells.len() && !vis[m.cidx(x, y)] && 0 <= len
    via path_explore_dec
{
    let vis1 = vis.update(m.cidx(x, y), true);
    let r = explore_dirs(m, x, y, vis1, len, 0);
    if r.2 == 0 { (len, len, 1) } else { r }
}

/// Fold of `path_explore` over the directions `d..4` out of `(x, y)`,
/// with `(x, y)` already marked in `vis`.
pub open spec fn explore_dirs(m: Maze, x: int, y: int, vis: Seq<bool>, len: int, d: int) -> (
    int,
    int,
    int,
)
    decreases unvis_count(vis), 5int - d,
    when m.wf() && vis.len() == m.cells.len() && 0 <= len && 0 <= d <= 4
    via explore_dirs_dec
{
    if d >= 4 {
        (len, 0, 0)
    } else {
        let rest = explore_dirs(m, x, y, vis, len, d + 1);
        if m.open_dir(x, y, d) && !vis[m.cidx(x + dx(d), y + dy(d))] {
            let sub = path_explore(m, x + dx(d), y + dy(d), vis, len + 1);
            (if sub.0 > rest.0 { sub.0 } else { rest.0 }, sub.1 + rest.1, sub.2 + rest.2)
        } else {
            rest
        }
    }
}

#[via_fn]
proof fn path_explore_dec(m: Maze, x: int, y: int, vis: Seq<bool>, len: int) {
    crate::grid::lemma_cidx_bound(m, x, y);
    let vis1 = vis.update(m.cidx(x, y), true);
    lemma_unvis_change(vis, vis1, m.cidx(x, y), vis.len() as int);
    lemma_unvis_bounds(vis1, vis1.len() as int);
    lemma_unvis_bounds(vis, vis.len() as int);
}

#[via_fn]
proof fn explore_dirs_dec(m: Maze, x: int, y: int, vis: Seq<bool>, len: int, d: int) {
}

/// All three components of the enumeration are non-negative; the maximum
/// is at least the length already walked, and at least one terminal path
/// is found.
proof fn lemma_path_nonneg(m: Maze, x: int, y: int, vis: Seq<bool>, len: int)
    requires
        m.wf(),
        m.valid(x, y),
        vis.len() == m.cells.len(),
        !vis[m.cidx(x, y)],
        0 <= len,
    ensures
        path_explore(m, x, y, vis, len).0 >= len,
        path_explore(m, x, y, vis, len).1 >= 0,
        path_explore(m, x, y, vis, len).2 >= 1,
    decreases unvis_count(vis), 0int,
{
    crate::grid::lemma_cidx_bound(m, x, y);
    let vis1 = vis.update(m.cidx(x, y), true);
    lemma_unvis_change(vis, vis1, m.cidx(x, y), vis.len() as int);
    lemma_unvis_bounds(vis1, vis1.len() as int);
    lemma_unvis_bounds(vis, vis.len() as int);
    lemma_dirs_nonneg(m, x, y, vis1, len, 0);
}

proof fn lemma_dirs_nonneg(m: Maze, x: int, y: int, vis: Seq<bool>, len: int, d: int)
    requires
        m.wf(),
        vis.len() == m.cells.len(),
        0 <= len,
        0 <= d <= 4,
    ensures
        explore_dirs(m, x, y, vis, len, d).0 >= len,
        explore_dirs(m, x, y, vis, len, d).1 >= 0,
        explore_dirs(m, x, y, vis, len, d).2 >= 0,
    decreases unvis_count(vis), 5int - d,
{
    if d < 4 {
        lemma_dirs_nonneg(m, x, y, vis, len, d + 1);
        if m.open_dir(x, y, d) && !vis[m.cidx(x + dx(d), y + dy(d))] {
            lemma_path_nonneg(m, x + dx(d), y + dy(d), vis, len + 1);
        }
    }
}

/// A fold that found no terminal path skipped every direction.
proof fn lemma_dirs_zero(m: Maze, x: int, y: int, vis: Seq<bool>, len: int, d: int)
    requires
        m.wf(),
        vis.len() == m.cells.len(),
        0 <= len,
        0 <= d <= 4,
        explore_dirs(m, x, y, vis, len, d).2 == 0,
    ensures
        explore_dirs(m, x, y, vis, len, d) == (len, 0int, 0int),
    decreases unvis_count(vis), 5int - d,
{
    if d < 4 {
        if m.open_dir(x, y, d) && !vis[m.cidx(x + dx(d), y + dy(d))] {
            lemma_path_nonneg(m, x + dx(d), y + dy(d), vis, len + 1);
            lemma_dirs_nonneg(m, x, y, vis, len, d + 1);
            assert(false);
        }
        lemma_dirs_zero(m, x, y, vis, len, d + 1);
    }
}

impl Maze {
    /// Enumeration of all simple paths out of a start cell, on fresh
    /// markings.
    pub open spec fn start_explore(self, x: int, y: int) -> (int, int, int) {
        path_explore(self, x, y, Seq::new(self.cells.len() as nat, |i: int| false), 0)
    }

    /// Path statistics folded over the first `k` start cells: overall
    /// maximum length, summed terminal-path lengths, terminal-path count.
    pub open spec fn stats_upto(self, k: int) -> (int, int, int)
        decreases k,
    {
        if k <= 0 {
            (0, 0, 0)
        } else {
            let p = self.stats_upto(k - 1);
            let s = self.start_explore(
                self.cells[k - 1].x as int,
                self.cells[k - 1].y as int,
            );
            (if s.0 > p.0 { s.0 } else { p.0 }, p.1 + s.1, p.2 + s.2)
        }
    }

    /// Path statistics over every start cell.
    pub open spec fn maze_stats(self) -> (int, int, int) {
        self.stats_upto(self.cells.len() as int)
    }
}

/// Each start's contribution is bounded by the fold, and the fold counts
/// at least one terminal path per start.
proof fn lemma_stats_bounds(m: Maze, k: int)
    requires
        m.wf(),
        0 <= k <= m.cells.len(),
    ensures
        m.stats_upto(k).0 >= 0,
        m.stats_upto(k).1 >= 0,
        m.stats_upto(k).2 >= k,
        forall|i: int|
            0 <= i < k ==> {
                let s = #[trigger] m.start_explore(m.cells[i].x as int, m.cells[i].y as int);
                s.0 <= m.stats_upto(k).0 && s.1 <= m.stats_upto(k).1 && s.2 <= m.stats_upto(k).2
            },
        forall|j: int|
            0 <= j <= k ==> #[trigger] m.stats_upto(j).0 <= m.stats_upto(k).0 && m.stats_upto(
                j,
            ).1 <= m.stats_upto(k).1 && m.stats_upto(j).2 <= m.stats_upto(k).2,
    decreases k,
{
    if k > 0 {
        lemma_stats_bounds(m, k - 1);
        let cx = m.cells[k - 1].x as int;
        let cy = m.cells[k - 1].y as int;
        assert(m.valid(cx, cy) && m.cidx(cx, cy) == k - 1);
        let vis0 = Seq::new(m.cells.len() as nat, |i: int| false);
        assert(!vis0[m.cidx(cx, cy)]);
        lemma_path_nonneg(m, cx, cy, vis0, 0);
    }
}

impl Maze {
    /// Count the cells that have exactly three walls left.
    pub fn count_dead_ends(&self) -> (r: usize)
        requires
            self.wf(),
        ensures
            r == dead_upto(self.cells@, self.cells.len() as int),
            r <= self.cells.len(),
    {
        let mut count: usize = 0;
        let mut i: usize = 0;
        while i < self.cells.len()
            invariant
                self.wf(),
                i <= self.cells.len(),
                count == dead_upto(self.cells@, i as int),
                count <= i,
            decreases self.cells.len() - i,
        {
            proof {
                crate::grid::lemma_counts_bounds(self.cells@, i + 1);
            }
            let c = self.cells[i];
            let mut w: usize = 0;
            if c.walls[0] {
                w = w + 1;
            }
            if c.walls[1] {
                w = w + 1;
            }
            if c.walls[2] {
                w = w + 1;
            }
            if c.walls[3] {
                w = w + 1;
            }
            proof {
                assert(w == wall_count(self.cells@[i as int]));
            }
            if w == 3 {
                count = count + 1;
            }
            i = i + 1;
        }
        count
    }

    /// Total open-passage count over all cells; each removed wall
    /// contributes two. The mean open-passage count per cell — the
    /// branching factor — is this total divided by the cell count.
    pub fn calculate_branching_factor(&self) -> (r: usize)
        requires
            self.wf(),
            4 * self.cells.len() <= usize::MAX,
        ensures
            r == self.open_total(),
            r <= 4 * self.cells.len(),
    {
        let mut total: usize = 0;
        let mut i: usize = 0;
        while i < self.cells.len()
            invariant
                self.wf(),
                4 * self.cells.len() <= usize::MAX,
                i <= self.cells.len(),
                total == open_upto(self.cells@, i as int),
                total <= 4 * i,
            decreases self.cells.len() - i,
        {
            proof {
                crate::grid::lemma_counts_bounds(self.cells@, i + 1);
                crate::grid::lemma_counts_bounds(self.cells@, i as int);
            }
            let c = self.cells[i];
            let mut w: usize = 0;
            if c.walls[0] {
                w = w + 1;
            }
            if c.walls[1] {
                w = w + 1;
            }
            if c.walls[2] {
                w = w + 1;
            }
            if c.walls[3] {
                w = w + 1;
            }
            proof {
                assert(w == wall_count(self.cells@[i as int]));
            }
            total = total + (4 - w);
            i = i + 1;
        }
        total
    }

    /// Exhaustive depth-first enumeration of the simple paths from
    /// `(x, y)` through open passages, avoiding the marked cells. Marks
    /// are restored on return.
    fn dfs_longest_path(&self, x: usize, y: usize, visited: &mut Vec<bool>, length: usize) -> (r: (
        usize,
        usize,
        usize,
    ))
        requires
            self.wf(),
            self.valid(x as int, y as int),
            old(visited).len() == self.cells.len(),
            !old(visited)@[self.cidx(x as int, y as int)],
            0 <= length,
            path_explore(*self, x as int, y as int, old(visited)@, length as int).0 <= usize::MAX,
            path_explore(*self, x as int, y as int, old(visited)@, length as int).1 <= usize::MAX,
            path_explore(*self, x as int, y as int, old(visited)@, length as int).2 <= usize::MAX,
        ensures
            final(visited)@ == old(visited)@,
            ({
                let s = path_explore(*self, x as int, y as int, old(visited)@, length as int);
                r.0 == s.0 && r.1 == s.1 && r.2 == s.2
            }),
        decreases unvis_count(visited@),
    {
        let i = self.get_index(x, y);
        let ghost vis0 = visited@;
        let ghost s = path_explore(*self, x as int, y as int, vis0, length as int);
        visited[i] = true;
        let ghost vis1 = visited@;
        proof {
            lemma_unvis_change(vis0, vis1, i as int, vis0.len() as int);
            lemma_unvis_bounds(vis0, vis0.len() as int);
            lemma_unvis_bounds(vis1, vis1.len() as int);
            lemma_dirs_nonneg(*self, x as int, y as int, vis1, length as int, 0);
            if explore_dirs(*self, x as int, y as int, vis1, length as int, 0).2 == 0 {
                lemma_dirs_zero(*self, x as int, y as int, vis1, length as int, 0);
            }
            // the full fold is bounded by the enumeration result
            assert(explore_dirs(*self, x as int, y as int, vis1, length as int, 0).0 <= s.0);
            assert(explore_dirs(*self, x as int, y as int, vis1, length as int, 0).1 <= s.1);
            assert(explore_dirs(*self, x as int, y as int, vis1, length as int, 0).2 <= s.2);
        }
        let ghost full = explore_dirs(*self, x as int, y as int, vis1, length as int, 0);
        let mut max_length = length;
        let mut total_len: usize = 0;
        let mut count: usize = 0;
        let mut d: usize = 0;
        while d < 4
            invariant
                self.wf(),
                self.valid(x as int, y as int),
                d <= 4,
                visited@ == vis1,
                visited@.len() == self.cells.len(),
                vis1 == vis0.update(self.cidx(x as int, y as int), true),
                vis0 == old(visited)@,
                0 <= unvis_count(vis1) < unvis_count(vis0),
                full == explore_dirs(*self, x as int, y as int, vis1, length as int, 0),
                full.0 <= s.0 && full.1 <= s.1 && full.2 <= s.2,
                s.0 <= usize::MAX && s.1 <= usize::MAX && s.2 <= usize::MAX,
                0 <= length,
                length <= max_length,
                ({
                    let rest = explore_dirs(*self, x as int, y as int, vis1, length as int, d as int);
                    &&& (if rest.0 > max_length { rest.0 } else { max_length as int }) == full.0
                    &&& total_len + rest.1 == full.1
                    &&& count + rest.2 == full.2
                }),
                max_length <= full.0,
                total_len <= full.1 || (count == 0 && total_len == 0),
            decreases 4 - d,
        {
            let ghost rest = explore_dirs(*self, x as int, y as int, vis1, length as int, d as int);
            let ghost rest1 = explore_dirs(
                *self,
                x as int,
                y as int,
                vis1,
                length as int,
                d as int + 1,
            );
            proof {
                lemma_dirs_nonneg(*self, x as int, y as int, vis1, length as int, d as int + 1);
            }
            let dir_open = !self.has_wall(
                x,
                y,
                d,
            ) && {
                // the neighbour must lie on the grid
                if d == 0 {
                    y > 0
                } else if d == 1 {
                    x + 1 < self.width
                } else if d == 2 {
                    y + 1 < self.height
                } else {
                    x > 0
                }
            };
            proof {
                assert(dir_open == self.open_dir(x as int, y as int, d as int));
            }
            if dir_open {
                let nx = if d == 1 { x + 1 } else if d == 3 { x - 1 } else { x };
                let ny = if d == 0 { y - 1 } else if d == 2 { y + 1 } else { y };
                proof {
                    assert(nx as int == x + dx(d as int) && ny as int == y + dy(d as int));
                    crate::grid::lemma_cidx_bound(*self, nx as int, ny as int);
                }
                let ni = self.get_index(nx, ny);
                if !visited[ni] {
                    let ghost sub = path_explore(
                        *self,
                        nx as int,
                        ny as int,
                        vis1,
                        length as int + 1,
                    );
                    proof {
                        lemma_path_nonneg(*self, nx as int, ny as int, vis1, length as int + 1);
                        assert(rest == (
                            if sub.0 > rest1.0 { sub.0 } else { rest1.0 },
                            sub.1 + rest1.1,
                            sub.2 + rest1.2,
                        ));
                        assert(sub.0 <= rest.0 && sub.1 <= rest.1 && sub.2 <= rest.2);
                        assert(rest.0 <= full.0 && rest.1 + total_len == full.1 && rest.2 + count
                            == full.2);
                        assert(length + 1 <= sub.0 <= full.0 <= s.0 <= usize::MAX);
                    }
                    let sub_r = self.dfs_longest_path(nx, ny, visited, length + 1);
                    if sub_r.0 > max_length {
                        max_length = sub_r.0;
                    }
                    total_len = total_len + sub_r.1;
                    count = count + sub_r.2;
                }
            }
            d = d + 1;
        }
        visited[i] = false;
        proof {
            assert(visited@ =~= vis0);
            assert(explore_dirs(*self, x as int, y as int, vis1, length as int, 4) == (
                length as int,
                0int,
                0int,
            ));
        }
        if count == 0 {
            (length, length, 1)
        } else {
            (max_length, total_len, count)
        }
    }

    /// Path statistics from one start cell, on a fresh marking.
    pub fn longest_path_from(&self, start_x: usize, start_y: usize) -> (r: (usize, usize, usize))
        requires
            self.wf(),
            self.valid(start_x as int, start_y as int),
            self.start_explore(start_x as int, start_y as int).0 <= usize::MAX,
            self.start_explore(start_x as int, start_y as int).1 <= usize::MAX,
            self.start_explore(start_x as int, start_y as int).2 <= usize::MAX,
        ensures
            ({
                let s = self.start_explore(start_x as int, start_y as int);
                r.0 == s.0 && r.1 == s.1 && r.2 == s.2
            }),
    {
        let mut visited: Vec<bool> = Vec::new();
        while visited.len() < self.cells.len()
            invariant
                visited.len() <= self.cells.len(),
                forall|k: int| 0 <= k < visited.len() ==> !(#[trigger] visited@[k]),
            decreases self.cells.len() - visited.len(),
        {
            visited.push(false);
        }
        proof {
            assert(visited@ =~= Seq::new(self.cells.len() as nat, |i: int| false));
            crate::grid::lemma_cidx_bound(*self, start_x as int, start_y as int);
        }
        self.dfs_longest_path(start_x, start_y, &mut visited, 0)
    }

    /// Walk every cell as a start and fold the per-start path statistics:
    /// overall longest path, total terminal-path length, terminal-path
    /// count.
    pub fn measure_paths(&self) -> (r: (usize, usize, usize))
        requires
            self.wf(),
            self.maze_stats().0 <= usize::MAX,
            self.maze_stats().1 <= usize::MAX,
            self.maze_stats().2 <= usize::MAX,
        ensures
            r.0 == self.maze_stats().0,
            r.1 == self.maze_stats().1,
            r.2 == self.maze_stats().2,
            r.2 >= self.cells.len(),
    {
        proof {
            lemma_stats_bounds(*self, self.cells.len() as int);
        }
        let mut longest: usize = 0;
        let mut total_len: usize = 0;
        let mut count: usize = 0;
        let mut i: usize = 0;
        while i < self.cells.len()
            invariant
                self.wf(),
                i <= self.cells.len(),
                self.maze_stats().0 <= usize::MAX,
                self.maze_stats().1 <= usize::MAX,
                self.maze_stats().2 <= usize::MAX,
                longest == self.stats_upto(i as int).0,
                total_len == self.stats_upto(i as int).1,
                count == self.stats_upto(i as int).2,
            decreases self.cells.len() - i,
        {
            proof {
                lemma_stats_bounds(*self, self.cells.len() as int);
                lemma_stats_bounds(*self, i as int);
                lemma_stats_bounds(*self, i + 1);
            }
            let c = self.cells[i];
            let r = self.longest_path_from(c.x, c.y);
            if r.0 > longest {
                longest = r.0;
            }
            total_len = total_len + r.1;
            count = count + r.2;
            i = i + 1;
        }
        proof {
            lemma_stats_bounds(*self, self.cells.len() as int);
        }
        (longest, total_len, count)
    }

    /// Compute the quality snapshot of a finished maze: dead ends, path
    /// statistics and the open-passage total.
    pub fn measure_quality(&self) -> (q: MazeQuality)
        requires
            self.wf(),
            4 * self.cells.len() <= usize::MAX,
            self.maze_stats().0 <= usize::MAX,
            self.maze_stats().1 <= usize::MAX,
            self.maze_stats().2 <= usize::MAX,
        ensures
            q.dead_ends == dead_upto(self.cells@, self.cells.len() as int),
            q.longest_path == self.maze_stats().0,
            q.total_path_length == self.maze_stats().1,
            q.total_paths == self.maze_stats().2,
            q.total_paths >= 1,
            q.total_branches == self.open_total(),
            q.size == self.cells.len(),
            q.dead_ends <= q.size,
    {
        proof {
            assert(self.cells.len() >= 1) by {
                assert(self.width * self.height >= 1) by (nonlinear_arith)
                    requires
                        self.width >= 1,
                        self.height >= 1,
                ;
            }
        }
        let dead_ends = self.count_dead_ends();
        let paths = self.measure_paths();
        let total_branches = self.calculate_branching_factor();
        MazeQuality {
            dead_ends,
            longest_path: paths.0,
            total_path_length: paths.1,
            total_paths: paths.2,
            total_branches,
            size: self.cells.len(),
        }
    }
}

/// In any perfect maze the open passages form a spanning tree: `area - 1`
/// removed walls contribute two passage ends each, so the branching
/// factor is exactly `2 * (area - 1) / area`.
pub proof fn lemma_branching_of_perfect(m: Maze)
    requires
        crate::reach::is_perfect(m),
    ensures
        m.open_total() == 2 * (m.area() - 1),
{
}

/// Exact numerator of the weighted quality index over a common
/// denominator of `10000 * size * total_paths`.
pub open spec fn quality_num(q: MazeQuality) -> int {
    q.total_paths * (2500 * (q.size - q.dead_ends) + 3000 * q.longest_path + 2000
        * q.total_branches) + 2500 * q.total_path_length
}

/// Exact denominator of the weighted quality index.
pub open spec fn quality_den(q: MazeQuality) -> int {
    10000 * q.size * q.total_paths
}

/// The weighted quality index
/// `0.25*(1 - dead_ends/size) + 0.30*longest/size
///  + 0.25*(total_len/paths)/size + 0.20*branches/size`,
/// returned as an exact fraction (numerator, denominator). The value is
/// non-negative and a pure function of the measured quantities.
pub fn calculate_quality_index(q: &MazeQuality) -> (r: (u128, u128))
    requires
        q.size >= 1,
        q.total_paths >= 1,
        q.dead_ends <= q.size,
        q.size <= 0x1_0000_0000_0000,
        q.longest_path <= 0x1_0000_0000_0000,
        q.total_path_length <= 0x1_0000_0000_0000,
        q.total_paths <= 0x1_0000_0000_0000,
        q.total_branches <= 0x1_0000_0000_0000,
    ensures
        r.0 == quality_num(*q),
        r.1 == quality_den(*q),
        quality_num(*q) >= 0,
        r.1 >= 1,
{
    let size = q.size as u128;
    let tp = q.total_paths as u128;
    let inner: u128 = 2500 * (size - q.dead_ends as u128) + 3000 * (q.longest_path as u128) + 2000
        * (q.total_branches as u128);
    proof {
        assert(inner <= 0x8000_0000_0000_0000_0u128);
        assert(tp * inner <= 0x1_0000_0000_0000 * 0x8000_0000_0000_0000_0) by (nonlinear_arith)
            requires
                tp <= 0x1_0000_0000_0000,
                inner <= 0x8000_0000_0000_0000_0u128,
                tp >= 0,
                inner >= 0,
        ;
        assert(10000 * size * tp <= 10000 * 0x1_0000_0000_0000 * 0x1_0000_0000_0000) by (
        nonlinear_arith)
            requires
                size <= 0x1_0000_0000_0000,
                tp <= 0x1_0000_0000_0000,
                size >= 0,
                tp >= 0,
        ;
        assert(10000 * size * tp >= 10000) by (nonlinear_arith)
            requires
                size >= 1,
                tp >= 1,
        ;
    }
    let num: u128 = tp * inner + 2500 * (q.total_path_length as u128);
    let den: u128 = 10000 * size * tp;
    (num, den)
}

} // verus!
