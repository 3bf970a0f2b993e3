use mazegen::generate::{dfs, prim};
use mazegen::grid::{Maze, MazeError};
use mazegen::kruskal::kruskal;
use rand::rngs::StdRng;
use rand::SeedableRng;

fn fresh(width: usize, height: usize) -> Maze {
    Maze::new(width, height).unwrap()
}

fn rng(seed: u64) -> StdRng {
    StdRng::seed_from_u64(seed)
}

/// Open passage ends over the whole grid; twice the number of removed
/// walls.
fn open_ends(m: &Maze) -> usize {
    m.calculate_branching_factor()
}

/// Every cell reachable from (0, 0) through open passages, checked by a
/// plain flood fill.
fn connected(m: &Maze) -> bool {
    let n = m.width * m.height;
    let mut seen = vec![false; n];
    let mut stack = vec![(0usize, 0usize)];
    seen[0] = true;
    let mut count = 1usize;
    while let Some((x, y)) = stack.pop() {
        let push = |nx: usize, ny: usize, seen: &mut Vec<bool>, stack: &mut Vec<(usize, usize)>, count: &mut usize| {
            let i = ny * m.width + nx;
            if !seen[i] {
                seen[i] = true;
                *count += 1;
                stack.push((nx, ny));
            }
        };
        if y > 0 && !m.has_wall(x, y, 0) {
            push(x, y - 1, &mut seen, &mut stack, &mut count);
        }
        if x + 1 < m.width && !m.has_wall(x, y, 1) {
            push(x + 1, y, &mut seen, &mut stack, &mut count);
        }
        if y + 1 < m.height && !m.has_wall(x, y, 2) {
            push(x, y + 1, &mut seen, &mut stack, &mut count);
        }
        if x > 0 && !m.has_wall(x, y, 3) {
            push(x - 1, y, &mut seen, &mut stack, &mut count);
        }
    }
    count == n
}

/// The wall between two adjacent cells agrees on both sides.
fn walls_symmetric(m: &Maze) -> bool {
    for y in 0..m.height {
        for x in 0..m.width {
            if x + 1 < m.width && m.has_wall(x, y, 1) != m.has_wall(x + 1, y, 3) {
                return false;
            }
            if y + 1 < m.height && m.has_wall(x, y, 2) != m.has_wall(x, y + 1, 0) {
                return false;
            }
        }
    }
    true
}

fn walls_of(m: &Maze) -> Vec<bool> {
    let mut v = Vec::new();
    for y in 0..m.height {
        for x in 0..m.width {
            for d in 0..4 {
                v.push(m.has_wall(x, y, d));
            }
        }
    }
    v
}

#[test]
fn rejects_bad_dimensions() {
    assert_eq!(Maze::new(0, 5).unwrap_err(), MazeError::ZeroWidth);
    assert_eq!(Maze::new(7, 0).unwrap_err(), MazeError::ZeroHeight);
    assert_eq!(Maze::new(usize::MAX, 2).unwrap_err(), MazeError::TooLarge);
}

#[test]
fn fresh_grid_all_walls() {
    let m = fresh(3, 2);
    for y in 0..2 {
        for x in 0..3 {
            for d in 0..4 {
                assert!(m.has_wall(x, y, d));
            }
        }
    }
    assert_eq!(open_ends(&m), 0);
}

#[test]
fn spanning_tree_all_algorithms() {
    for seed in [1u64, 7, 42] {
        for (w, h) in [(1usize, 1usize), (2, 1), (1, 5), (4, 4), (7, 3)] {
            let n = w * h;
            let mut m = fresh(w, h);
            dfs(&mut m, &mut rng(seed));
            assert_eq!(open_ends(&m), 2 * (n - 1));
            assert!(connected(&m));
            assert!(walls_symmetric(&m));

            let mut m = fresh(w, h);
            prim(&mut m, &mut rng(seed));
            assert_eq!(open_ends(&m), 2 * (n - 1));
            assert!(connected(&m));
            assert!(walls_symmetric(&m));

            let mut m = fresh(w, h);
            kruskal(&mut m, &mut rng(seed));
            assert_eq!(open_ends(&m), 2 * (n - 1));
            assert!(connected(&m));
            assert!(walls_symmetric(&m));
        }
    }
}

#[test]
fn deterministic_with_fixed_seed() {
    for seed in [3u64, 99] {
        let mut a = fresh(6, 5);
        let mut b = fresh(6, 5);
        dfs(&mut a, &mut rng(seed));
        dfs(&mut b, &mut rng(seed));
        assert_eq!(walls_of(&a), walls_of(&b));

        let mut a = fresh(6, 5);
        let mut b = fresh(6, 5);
        prim(&mut a, &mut rng(seed));
        prim(&mut b, &mut rng(seed));
        assert_eq!(walls_of(&a), walls_of(&b));

        let mut a = fresh(6, 5);
        let mut b = fresh(6, 5);
        kruskal(&mut a, &mut rng(seed));
        kruskal(&mut b, &mut rng(seed));
        assert_eq!(walls_of(&a), walls_of(&b));
    }
}

#[test]
fn single_cell_maze() {
    let mut m = fresh(1, 1);
    dfs(&mut m, &mut rng(0));
    // the lone cell keeps all four walls: no passage, hence no dead end
    assert_eq!(m.count_dead_ends(), 0);
    assert_eq!(open_ends(&m), 0);
    let (longest, total_len, total_paths) = m.measure_paths();
    assert_eq!(longest, 0);
    assert_eq!(total_len, 0);
    assert_eq!(total_paths, 1);
}

#[test]
fn two_by_one_scenario() {
    for which in 0..3 {
        let mut m = fresh(2, 1);
        match which {
            0 => dfs(&mut m, &mut rng(5)),
            1 => prim(&mut m, &mut rng(5)),
            _ => kruskal(&mut m, &mut rng(5)),
        }
        // the single internal wall is open on both sides
        assert!(!m.has_wall(0, 0, 1));
        assert!(!m.has_wall(1, 0, 3));
        assert_eq!(m.count_dead_ends(), 2);
        assert_eq!(open_ends(&m), 2);
        let (longest, total_len, total_paths) = m.measure_paths();
        assert_eq!(longest, 1);
        assert_eq!(total_len, 2);
        assert_eq!(total_paths, 2);
    }
}

#[test]
fn three_by_three_dfs() {
    let mut m = fresh(3, 3);
    dfs(&mut m, &mut rng(11));
    for y in 0..3 {
        for x in 0..3 {
            assert!(m.cell_visited(x, y));
        }
    }
    // exactly 8 walls removed
    assert_eq!(open_ends(&m), 16);
    assert!(connected(&m));
}

#[test]
fn dead_end_bound() {
    for seed in [2u64, 13] {
        let mut m = fresh(5, 4);
        prim(&mut m, &mut rng(seed));
        assert!(m.count_dead_ends() <= 20);
    }
}

#[test]
fn quality_snapshot_consistent() {
    let mut m = fresh(4, 3);
    kruskal(&mut m, &mut rng(8));
    let q = m.measure_quality();
    assert_eq!(q.size, 12);
    assert!(q.dead_ends <= q.size);
    assert!(q.total_paths >= 1);
    assert_eq!(q.total_branches, 2 * (q.size - 1));
    assert!(q.longest_path < q.size);
}

#[test]
fn quality_index_two_by_one() {
    let mut m = fresh(2, 1);
    dfs(&mut m, &mut rng(17));
    let q = m.measure_quality();
    let (num, den) = mazegen::quality::calculate_quality_index(&q);
    // 0.25*(1 - 1) + 0.30*(1/2) + 0.25*(1/2) + 0.20*1 = 0.475
    assert_eq!(num, 19000);
    assert_eq!(den, 40000);
    let index = num as f64 / den as f64;
    assert!((index - 0.475).abs() < 1e-12);
}

#[test]
fn quality_index_deterministic_and_nonnegative() {
    let mut m = fresh(5, 5);
    prim(&mut m, &mut rng(23));
    let q = m.measure_quality();
    let a = mazegen::quality::calculate_quality_index(&q);
    let b = mazegen::quality::calculate_quality_index(&q);
    assert_eq!(a, b);
    assert!(a.1 >= 1);
    // a u128 fraction with positive denominator is non-negative
    assert!(a.0 as f64 / a.1 as f64 >= 0.0);
}
