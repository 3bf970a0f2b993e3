use vstd::prelude::*;
use crate::generate::lemma_pristine_counts;
use crate::grid::{dir_between, dx, dy, opposite, Maze};
use crate::reach::{
    is_perfect, lemma_reach_mono, lemma_reach_refl, lemma_reach_step, lemma_reach_trans, reachable,
};
use crate::rng::shuffle_edges;
use crate::union_find::{
    find, grounded, is_root, lemma_root_self, lemma_roots_all, lemma_roots_unique,
    lemma_uf_root_is_root, num_roots, reaches, uf_root, uf_wf, union,
};

verus! {

/// An edge of the candidate list: two grid-adjacent cells.
pub open spec fn edge_ok(m: Maze, e: (usize, usize, usize, usize)) -> bool {
    m.adjacent(e.0 as int, e.1 as int, e.2 as int, e.3 as int)
}

/// The list holds an edge with these endpoints.
pub open spec fn has_edge(
    ws: Seq<(usize, usize, usize, usize)>,
    x1: int,
    y1: int,
    x2: int,
    y2: int,
) -> bool {
    exists|i: int|
        0 <= i < ws.len() && (#[trigger] ws[i]).0 == x1 && ws[i].1 == y1 && ws[i].2 == x2
            && ws[i].3 == y2
}

/// The list holds the edge from `(x, y)` to its east neighbour.
pub open spec fn east_edge_at(ws: Seq<(usize, usize, usize, usize)>, x: int, y: int) -> bool {
    has_edge(ws, x, y, x + 1, y)
}

/// The list holds the edge from `(x, y)` to its south neighbour.
pub open spec fn south_edge_at(ws: Seq<(usize, usize, usize, usize)>, x: int, y: int) -> bool {
    has_edge(ws, x, y, x, y + 1)
}

/// The list names every internal edge of the grid: each cell's east and
/// south neighbour edge.
pub open spec fn edges_complete(m: Maze, ws: Seq<(usize, usize, usize, usize)>) -> bool {
    forall|x: int, y: int|
        #![trigger east_edge_at(ws, x, y)]
        #![trigger south_edge_at(ws, x, y)]
        m.valid(x, y) ==> {
            &&& (x + 1 < m.width ==> east_edge_at(ws, x, y))
            &&& (y + 1 < m.height ==> south_edge_at(ws, x, y))
        }
}

/// Two cells joined by an open passage lie in the same set.
pub open spec fn open_same_class(m: Maze, p: Seq<usize>) -> bool {
    forall|x: int, y: int, d: int|
        #[trigger] m.open_dir(x, y, d) ==> uf_root(p, m.cidx(x, y)) == uf_root(
            p,
            m.cidx(x + dx(d), y + dy(d)),
        )
}

/// Two cells in the same set are joined by open passages.
pub open spec fn classes_connected(m: Maze, p: Seq<usize>) -> bool {
    forall|x1: int, y1: int, x2: int, y2: int|
        #![trigger uf_root(p, m.cidx(x1, y1)), uf_root(p, m.cidx(x2, y2))]
        m.valid(x1, y1) && m.valid(x2, y2) && uf_root(p, m.cidx(x1, y1)) == uf_root(
            p,
            m.cidx(x2, y2),
        ) ==> reachable(m, x1, y1, x2, y2)
}

/// A permutation holds the same items.
proof fn lemma_perm_contains(
    a: Seq<(usize, usize, usize, usize)>,
    b: Seq<(usize, usize, usize, usize)>,
    e: (usize, usize, usize, usize),
)
    requires
        a.to_multiset() == b.to_multiset(),
    ensures
        a.contains(e) <==> b.contains(e),
{
    broadcast use vstd::seq_lib::group_to_multiset_ensures;

    assert(a.to_multiset().count(e) == b.to_multiset().count(e));
    if a.contains(e) {
        assert(a.to_multiset().count(e) > 0);
        assert(b.contains(e));
    }
    if b.contains(e) {
        assert(b.to_multiset().count(e) > 0);
        assert(a.contains(e));
    }
}

/// When every cell is in the same set as its east and south neighbours,
/// every cell is in the set of the origin.
proof fn lemma_class_origin(m: Maze, p: Seq<usize>, x: int, y: int)
    requires
        m.wf(),
        m.valid(x, y),
        forall|x2: int, y2: int|
            #![trigger m.cidx(x2, y2)]
            m.valid(x2, y2) ==> {
                &&& (x2 + 1 < m.width ==> uf_root(p, m.cidx(x2, y2)) == uf_root(
                    p,
                    m.cidx(x2 + 1, y2),
                ))
                &&& (y2 + 1 < m.height ==> uf_root(p, m.cidx(x2, y2)) == uf_root(
                    p,
                    m.cidx(x2, y2 + 1),
                ))
            },
    ensures
        uf_root(p, m.cidx(x, y)) == uf_root(p, m.cidx(0, 0)),
    decreases x + y,
{
    if x > 0 {
        lemma_class_origin(m, p, x - 1, y);
        assert(uf_root(p, m.cidx(x - 1, y)) == uf_root(p, m.cidx(x, y)));
    } else if y > 0 {
        lemma_class_origin(m, p, x, y - 1);
        assert(uf_root(p, m.cidx(x, y - 1)) == uf_root(p, m.cidx(x, y)));
    }
}

/// Chain two old walks through the freshly opened passage.
proof fn lemma_join_classes(
    a: Maze,
    b: Maze,
    ax: int,
    ay: int,
    bx: int,
    by: int,
    ex: int,
    ey: int,
    d: int,
)
    requires
        a.same_dims(b),
        forall|x: int, y: int, dd: int|
            a.open_dir(x, y, dd) ==> #[trigger] b.open_dir(x, y, dd),
        b.open_dir(ex, ey, d),
        reachable(a, ax, ay, ex, ey),
        reachable(a, ex + dx(d), ey + dy(d), bx, by),
    ensures
        reachable(b, ax, ay, bx, by),
{
    lemma_reach_mono(a, b, ax, ay, ex, ey);
    lemma_reach_mono(a, b, ex + dx(d), ey + dy(d), bx, by);
    lemma_reach_step(b, ex, ey, d);
    lemma_reach_trans(b, ax, ay, ex, ey, ex + dx(d), ey + dy(d));
    lemma_reach_trans(b, ax, ay, ex + dx(d), ey + dy(d), bx, by);
}

/// One Kruskal step: a wall between the sets rooted at `s1` and `s2` has
/// been opened and the two sets merged; both invariants that tie the
/// forest to the passages survive.
proof fn lemma_kruskal_step(
    m_old: Maze,
    m_new: Maze,
    p_old: Seq<usize>,
    p_new: Seq<usize>,
    e: (usize, usize, usize, usize),
    d: int,
    s1: int,
    s2: int,
)
    requires
        m_old.wf(),
        m_new.wf(),
        m_new.same_dims(m_old),
        m_new.width == m_old.width && m_new.height == m_old.height,
        edge_ok(m_old, e),
        d == dir_between(e.0 as int, e.1 as int, e.2 as int, e.3 as int),
        p_old.len() == m_old.cells.len(),
        p_new.len() == p_old.len(),
        m_old.cells.len() == m_old.area(),
        s1 == uf_root(p_old, m_old.cidx(e.0 as int, e.1 as int)),
        s2 == uf_root(p_old, m_old.cidx(e.2 as int, e.3 as int)),
        s1 != s2,
        forall|j: int|
            0 <= j < p_old.len() ==> #[trigger] uf_root(p_new, j) == (if uf_root(p_old, j) == s1 {
                s2
            } else {
                uf_root(p_old, j)
            }),
        open_same_class(m_old, p_old),
        classes_connected(m_old, p_old),
        forall|x: int, y: int, dd: int|
            m_old.open_dir(x, y, dd) ==> #[trigger] m_new.open_dir(x, y, dd),
        forall|x: int, y: int, dd: int|
            #[trigger] m_new.open_dir(x, y, dd) ==> m_old.open_dir(x, y, dd) || (x == e.0 as int
                && y == e.1 as int && dd == d) || (x == e.2 as int && y == e.3 as int && dd
                == opposite(d)),
        m_new.open_dir(e.0 as int, e.1 as int, d),
        m_new.open_dir(e.2 as int, e.3 as int, opposite(d)),
    ensures
        open_same_class(m_new, p_new),
        classes_connected(m_new, p_new),
{
    let i1 = m_old.cidx(e.0 as int, e.1 as int);
    let i2 = m_old.cidx(e.2 as int, e.3 as int);
    assert(e.2 as int == e.0 + dx(d) && e.3 as int == e.1 + dy(d));
    assert(e.0 as int == e.2 + dx(opposite(d)) && e.1 as int == e.3 + dy(opposite(d)));
    crate::grid::lemma_cidx_bound(m_old, e.0 as int, e.1 as int);
    crate::grid::lemma_cidx_bound(m_old, e.2 as int, e.3 as int);
    assert(uf_root(p_new, i1) == s2);
    assert(uf_root(p_new, i2) == s2);
    assert forall|x2: int, y2: int, d2: int| #[trigger] m_new.open_dir(x2, y2, d2) implies
        uf_root(p_new, m_new.cidx(x2, y2)) == uf_root(
        p_new,
        m_new.cidx(x2 + dx(d2), y2 + dy(d2)),
    ) by {
        crate::grid::lemma_cidx_bound(m_new, x2, y2);
        crate::grid::lemma_cidx_bound(m_new, x2 + dx(d2), y2 + dy(d2));
        if (x2 == e.0 as int && y2 == e.1 as int && d2 == d) || (x2 == e.2 as int && y2
            == e.3 as int && d2 == opposite(d)) {
        } else {
            assert(m_old.open_dir(x2, y2, d2));
            assert(uf_root(p_old, m_old.cidx(x2, y2)) == uf_root(
                p_old,
                m_old.cidx(x2 + dx(d2), y2 + dy(d2)),
            ));
        }
    }
    assert forall|x1b: int, y1b: int, x2b: int, y2b: int|
        m_new.valid(x1b, y1b) && m_new.valid(x2b, y2b) && #[trigger] uf_root(
        p_new,
        m_new.cidx(x1b, y1b),
    ) == #[trigger] uf_root(p_new, m_new.cidx(x2b, y2b)) implies reachable(
        m_new,
        x1b,
        y1b,
        x2b,
        y2b,
    ) by {
        crate::grid::lemma_cidx_bound(m_new, x1b, y1b);
        crate::grid::lemma_cidx_bound(m_new, x2b, y2b);
        let ra = uf_root(p_old, m_old.cidx(x1b, y1b));
        let rb = uf_root(p_old, m_old.cidx(x2b, y2b));
        if ra == rb {
            assert(reachable(m_old, x1b, y1b, x2b, y2b));
            lemma_reach_mono(m_old, m_new, x1b, y1b, x2b, y2b);
        } else if ra == s1 {
            assert(rb == s2);
            assert(reachable(m_old, x1b, y1b, e.0 as int, e.1 as int));
            assert(reachable(m_old, e.2 as int, e.3 as int, x2b, y2b));
            lemma_join_classes(m_old, m_new, x1b, y1b, x2b, y2b, e.0 as int, e.1 as int, d);
        } else {
            assert(rb == s1 && ra == s2);
            assert(reachable(m_old, x1b, y1b, e.2 as int, e.3 as int));
            assert(reachable(m_old, e.0 as int, e.1 as int, x2b, y2b));
            lemma_join_classes(
                m_old,
                m_new,
                x1b,
                y1b,
                x2b,
                y2b,
                e.2 as int,
                e.3 as int,
                opposite(d),
            );
        }
    }
}

/// Open the wall of edge `e`, whose endpoints lie in the distinct sets
/// rooted at `s1` and `s2`, and merge the two sets.
#[verifier::rlimit(100)]
fn kruskal_join(
    maze: &mut Maze,
    sets: &mut Vec<usize>,
    e: (usize, usize, usize, usize),
    s1: usize,
    s2: usize,
)
    requires
        old(maze).wf(),
        old(maze).cells.len() == old(maze).area(),
        edge_ok(*old(maze), e),
        uf_wf(old(sets)@),
        old(sets)@.len() == old(maze).cells.len(),
        s1 == uf_root(old(sets)@, old(maze).cidx(e.0 as int, e.1 as int)),
        s2 == uf_root(old(sets)@, old(maze).cidx(e.2 as int, e.3 as int)),
        s1 != s2,
        is_root(old(sets)@, s1 as int),
        is_root(old(sets)@, s2 as int),
        open_same_class(*old(maze), old(sets)@),
        classes_connected(*old(maze), old(sets)@),
        old(maze).open_total() == 2 * (old(maze).cells.len() - num_roots(old(sets)@)),
    ensures
        final(maze).wf(),
        final(maze).width == old(maze).width && final(maze).height == old(maze).height,
        final(maze).cells.len() == old(maze).cells.len(),
        final(sets)@.len() == old(sets)@.len(),
        uf_wf(final(sets)@),
        open_same_class(*final(maze), final(sets)@),
        classes_connected(*final(maze), final(sets)@),
        final(maze).open_total() == 2 * (final(maze).cells.len() - num_roots(final(sets)@)),
        forall|j: int|
            0 <= j < old(sets)@.len() ==> #[trigger] uf_root(final(sets)@, j) == (if uf_root(
                old(sets)@,
                j,
            ) == s1 {
                s2 as int
            } else {
                uf_root(old(sets)@, j)
            }),
{
    let ghost m_old = *maze;
    let ghost p_old = sets@;
    let ghost d = dir_between(e.0 as int, e.1 as int, e.2 as int, e.3 as int);
    proof {
        crate::grid::lemma_cidx_bound(m_old, e.0 as int, e.1 as int);
        crate::grid::lemma_cidx_bound(m_old, e.2 as int, e.3 as int);
        assert(e.2 as int == e.0 + dx(d) && e.3 as int == e.1 + dy(d));
        // an open passage here would mean the two cells share a set
        assert(m_old.wall(e.0 as int, e.1 as int, d)) by {
            if !m_old.wall(e.0 as int, e.1 as int, d) {
                assert(m_old.open_dir(e.0 as int, e.1 as int, d));
            }
        }
    }
    maze.remove_wall(e.0, e.1, e.2, e.3);
    union(sets, s1, s2);
    proof {
        let m_new = *maze;
        let p_new = sets@;
        lemma_root_self(p_old, s1 as int);
        lemma_root_self(p_old, s2 as int);
        assert(forall|j: int|
            0 <= j < p_old.len() ==> #[trigger] uf_root(p_new, j) == (if uf_root(p_old, j) == s1 {
                s2 as int
            } else {
                uf_root(p_old, j)
            }));
        assert(num_roots(p_new) == num_roots(p_old) - 1);
        assert(m_new.open_dir(e.0 as int, e.1 as int, d));
        assert(m_new.open_dir(e.2 as int, e.3 as int, opposite(d))) by {
            assert(e.0 as int == e.2 + dx(opposite(d)) && e.1 as int == e.3 + dy(opposite(d)));
        }
        lemma_kruskal_step(m_old, m_new, p_old, p_new, e, d, s1 as int, s2 as int);
    }
}

/// Carve a maze with randomized Kruskal: list every internal wall once,
/// shuffle the list, and knock down exactly those walls whose cells are
/// not yet connected, tracked by a union-find forest. The result is a
/// perfect maze: a spanning tree of the grid graph.
#[verifier::rlimit(100)]
pub fn kruskal(maze: &mut Maze, rng: &mut rand::rngs::StdRng)
    requires
        old(maze).pristine(),
    ensures
        final(maze).wf(),
        final(maze).width == old(maze).width && final(maze).height == old(maze).height,
        is_perfect(*final(maze)),
{
    proof {
        lemma_pristine_counts(*old(maze));
    }
    let n = maze.cells.len();
    let mut sets: Vec<usize> = Vec::new();
    let mut i: usize = 0;
    while i < n
        invariant
            i <= n,
            sets.len() == i,
            forall|j: int| 0 <= j < i ==> #[trigger] sets@[j] == j,
        decreases n - i,
    {
        sets.push(i);
        i = i + 1;
    }
    proof {
        assert forall|j: int| 0 <= j < sets@.len() implies (#[trigger] sets@[j]) < sets@.len()
            && grounded(sets@, j) by {
            assert(is_root(sets@, j));
            assert(reaches(sets@, j, 0));
        }
        lemma_roots_all(sets@, n as int);
        assert(num_roots(sets@) == n);
        assert forall|x: int, y: int, d: int| #[trigger] maze.open_dir(x, y, d) implies uf_root(
            sets@,
            maze.cidx(x, y),
        ) == uf_root(sets@, maze.cidx(x + dx(d), y + dy(d))) by {
            assert(maze.wall(x, y, d));
        }
        assert forall|x1: int, y1: int, x2: int, y2: int|
            maze.valid(x1, y1) && maze.valid(x2, y2) && #[trigger] uf_root(
                sets@,
                maze.cidx(x1, y1),
            ) == #[trigger] uf_root(sets@, maze.cidx(x2, y2)) implies reachable(
            *maze,
            x1,
            y1,
            x2,
            y2,
        ) by {
            crate::grid::lemma_cidx_bound(*maze, x1, y1);
            crate::grid::lemma_cidx_bound(*maze, x2, y2);
            lemma_root_self(sets@, maze.cidx(x1, y1));
            lemma_root_self(sets@, maze.cidx(x2, y2));
            crate::grid::lemma_cidx_inj(*maze, x1, y1, x2, y2);
            lemma_reach_refl(*maze, x1, y1);
        }
    }
    let mut walls: Vec<(usize, usize, usize, usize)> = Vec::new();
    let mut y: usize = 0;
    while y < maze.height
        invariant
            maze.wf(),
            y <= maze.height,
            forall|i2: int| 0 <= i2 < walls@.len() ==> edge_ok(*maze, #[trigger] walls@[i2]),
            forall|x2: int, y2: int|
                #![trigger east_edge_at(walls@, x2, y2)]
                #![trigger south_edge_at(walls@, x2, y2)]
                maze.valid(x2, y2) && y2 < y ==> {
                    &&& (x2 + 1 < maze.width ==> east_edge_at(walls@, x2, y2))
                    &&& (y2 + 1 < maze.height ==> south_edge_at(walls@, x2, y2))
                },
        decreases maze.height - y,
    {
        let mut x: usize = 0;
        while x < maze.width
            invariant
                maze.wf(),
                x <= maze.width,
                y < maze.height,
                forall|i2: int| 0 <= i2 < walls@.len() ==> edge_ok(*maze, #[trigger] walls@[i2]),
                forall|x2: int, y2: int|
                    #![trigger east_edge_at(walls@, x2, y2)]
                    #![trigger south_edge_at(walls@, x2, y2)]
                    maze.valid(x2, y2) && (y2 < y || (y2 == y && x2 < x)) ==> {
                        &&& (x2 + 1 < maze.width ==> east_edge_at(walls@, x2, y2))
                        &&& (y2 + 1 < maze.height ==> south_edge_at(walls@, x2, y2))
                    },
            decreases maze.width - x,
        {
            let ghost wpre = walls@;
            if x + 1 < maze.width {
                walls.push((x, y, x + 1, y));
            }
            if y + 1 < maze.height {
                walls.push((x, y, x, y + 1));
            }
            proof {
                assert(forall|i2: int|
                    0 <= i2 < wpre.len() ==> walls@[i2] == #[trigger] wpre[i2]);
                if x + 1 < maze.width {
                    assert(walls@[wpre.len() as int] == (x, y, (x + 1) as usize, y));
                    assert(east_edge_at(walls@, x as int, y as int));
                }
                if y + 1 < maze.height {
                    assert(walls@[walls@.len() - 1] == (x, y, x, (y + 1) as usize));
                    assert(south_edge_at(walls@, x as int, y as int));
                }
                assert forall|x2: int, y2: int|
                    #![trigger east_edge_at(walls@, x2, y2)]
                    #![trigger south_edge_at(walls@, x2, y2)]
                    maze.valid(x2, y2) && (y2 < y || (y2 == y && x2 < x + 1)) implies {
                    &&& (x2 + 1 < maze.width ==> east_edge_at(walls@, x2, y2))
                    &&& (y2 + 1 < maze.height ==> south_edge_at(walls@, x2, y2))
                } by {
                    if !(x2 == x && y2 == y) {
                        assert(east_edge_at(wpre, x2, y2) ==> east_edge_at(walls@, x2, y2)) by {
                            if east_edge_at(wpre, x2, y2) {
                                let i2 = choose|i2: int|
                                    0 <= i2 < wpre.len() && (#[trigger] wpre[i2]).0 == x2
                                        && wpre[i2].1 == y2 && wpre[i2].2 == x2 + 1
                                        && wpre[i2].3 == y2;
                                assert(walls@[i2] == wpre[i2]);
                            }
                        }
                        assert(south_edge_at(wpre, x2, y2) ==> south_edge_at(walls@, x2, y2)) by {
                            if south_edge_at(wpre, x2, y2) {
                                let i2 = choose|i2: int|
                                    0 <= i2 < wpre.len() && (#[trigger] wpre[i2]).0 == x2
                                        && wpre[i2].1 == y2 && wpre[i2].2 == x2 && wpre[i2].3
                                        == y2 + 1;
                                assert(walls@[i2] == wpre[i2]);
                            }
                        }
                    }
                }
            }
            x = x + 1;
        }
        y = y + 1;
    }
    let ghost worig = walls@;
    shuffle_edges(rng, &mut walls);
    proof {
        assert forall|i2: int|
            0 <= i2 < walls@.len() implies edge_ok(*maze, #[trigger] walls@[i2]) by {
            assert(walls@.contains(walls@[i2]));
            lemma_perm_contains(worig, walls@, walls@[i2]);
            let j = choose|j: int| 0 <= j < worig.len() && worig[j] == walls@[i2];
            assert(edge_ok(*maze, worig[j]));
        }
        assert forall|x2: int, y2: int|
            #![trigger east_edge_at(walls@, x2, y2)]
            #![trigger south_edge_at(walls@, x2, y2)]
            maze.valid(x2, y2) implies {
            &&& (x2 + 1 < maze.width ==> east_edge_at(walls@, x2, y2))
            &&& (y2 + 1 < maze.height ==> south_edge_at(walls@, x2, y2))
        } by {
            if x2 + 1 < maze.width {
                assert(east_edge_at(worig, x2, y2));
                let i2 = choose|i2: int|
                    0 <= i2 < worig.len() && (#[trigger] worig[i2]).0 == x2 && worig[i2].1 == y2
                        && worig[i2].2 == x2 + 1 && worig[i2].3 == y2;
                assert(worig.contains(worig[i2]));
                lemma_perm_contains(worig, walls@, worig[i2]);
                let j = choose|j: int| 0 <= j < walls@.len() && walls@[j] == worig[i2];
                assert((#[trigger] walls@[j]).0 == x2 && walls@[j].1 == y2 && walls@[j].2 == x2
                    + 1 && walls@[j].3 == y2);
                assert(east_edge_at(walls@, x2, y2));
            }
            if y2 + 1 < maze.height {
                assert(south_edge_at(worig, x2, y2));
                let i2 = choose|i2: int|
                    0 <= i2 < worig.len() && (#[trigger] worig[i2]).0 == x2 && worig[i2].1 == y2
                        && worig[i2].2 == x2 && worig[i2].3 == y2 + 1;
                assert(worig.contains(worig[i2]));
                lemma_perm_contains(worig, walls@, worig[i2]);
                let j = choose|j: int| 0 <= j < walls@.len() && walls@[j] == worig[i2];
                assert((#[trigger] walls@[j]).0 == x2 && walls@[j].1 == y2 && walls@[j].2 == x2
                    && walls@[j].3 == y2 + 1);
                assert(south_edge_at(walls@, x2, y2));
            }
        }
    }
    let mut k: usize = 0;
    while k < walls.len()
        invariant
            maze.wf(),
            maze.width == old(maze).width && maze.height == old(maze).height,
            maze.cells.len() == n,
            n == maze.area(),
            sets.len() == n,
            uf_wf(sets@),
            k <= walls.len(),
            open_same_class(*maze, sets@),
            classes_connected(*maze, sets@),
            maze.open_total() == 2 * (n - num_roots(sets@)),
            forall|i2: int| 0 <= i2 < walls@.len() ==> edge_ok(*maze, #[trigger] walls@[i2]),
            edges_complete(*maze, walls@),
            forall|i2: int|
                0 <= i2 < k ==> uf_root(
                    sets@,
                    maze.cidx((#[trigger] walls@[i2]).0 as int, walls@[i2].1 as int),
                ) == uf_root(sets@, maze.cidx(walls@[i2].2 as int, walls@[i2].3 as int)),
        decreases walls.len() - k,
    {
        let e = walls[k];
        proof {
            assert(edge_ok(*maze, e));
            crate::grid::lemma_cidx_bound(*maze, e.0 as int, e.1 as int);
            crate::grid::lemma_cidx_bound(*maze, e.2 as int, e.3 as int);
        }
        let i1 = maze.get_index(e.0, e.1);
        let i2 = maze.get_index(e.2, e.3);
        let ghost p0 = sets@;
        let s1 = find(&mut sets, i1);
        let s2 = find(&mut sets, i2);
        proof {
            assert(forall|j: int|
                0 <= j < p0.len() ==> #[trigger] uf_root(sets@, j) == uf_root(p0, j));
            // compression moved no cell between sets
            assert forall|x2: int, y2: int, d2: int| #[trigger] maze.open_dir(x2, y2, d2) implies
                uf_root(sets@, maze.cidx(x2, y2)) == uf_root(
                sets@,
                maze.cidx(x2 + dx(d2), y2 + dy(d2)),
            ) by {
                crate::grid::lemma_cidx_bound(*maze, x2, y2);
                crate::grid::lemma_cidx_bound(*maze, x2 + dx(d2), y2 + dy(d2));
                assert(uf_root(p0, maze.cidx(x2, y2)) == uf_root(
                    p0,
                    maze.cidx(x2 + dx(d2), y2 + dy(d2)),
                ));
            }
            assert forall|x1b: int, y1b: int, x2b: int, y2b: int|
                maze.valid(x1b, y1b) && maze.valid(x2b, y2b) && #[trigger] uf_root(
                sets@,
                maze.cidx(x1b, y1b),
            ) == #[trigger] uf_root(sets@, maze.cidx(x2b, y2b)) implies reachable(
                *maze,
                x1b,
                y1b,
                x2b,
                y2b,
            ) by {
                crate::grid::lemma_cidx_bound(*maze, x1b, y1b);
                crate::grid::lemma_cidx_bound(*maze, x2b, y2b);
                assert(uf_root(p0, maze.cidx(x1b, y1b)) == uf_root(p0, maze.cidx(x2b, y2b)));
            }
            assert forall|i3: int|
                0 <= i3 < k implies uf_root(
                sets@,
                maze.cidx((#[trigger] walls@[i3]).0 as int, walls@[i3].1 as int),
            ) == uf_root(sets@, maze.cidx(walls@[i3].2 as int, walls@[i3].3 as int)) by {
                assert(edge_ok(*maze, walls@[i3]));
                crate::grid::lemma_cidx_bound(*maze, walls@[i3].0 as int, walls@[i3].1 as int);
                crate::grid::lemma_cidx_bound(*maze, walls@[i3].2 as int, walls@[i3].3 as int);
            }
        }
        if s1 != s2 {
            proof {
                lemma_uf_root_is_root(sets@, i1 as int);
                lemma_uf_root_is_root(sets@, i2 as int);
            }
            kruskal_join(maze, &mut sets, e, s1, s2);
        }
        k = k + 1;
    }
    proof {
        let m = *maze;
        let p = sets@;
        assert forall|x2: int, y2: int|
            #![trigger m.cidx(x2, y2)]
            m.valid(x2, y2) implies {
            &&& (x2 + 1 < m.width ==> uf_root(p, m.cidx(x2, y2)) == uf_root(p, m.cidx(x2 + 1, y2)))
            &&& (y2 + 1 < m.height ==> uf_root(p, m.cidx(x2, y2)) == uf_root(
                p,
                m.cidx(x2, y2 + 1),
            ))
        } by {
            if x2 + 1 < m.width {
                assert(east_edge_at(walls@, x2, y2));
                let i2 = choose|i2: int|
                    0 <= i2 < walls@.len() && (#[trigger] walls@[i2]).0 == x2 && walls@[i2].1
                        == y2 && walls@[i2].2 == x2 + 1 && walls@[i2].3 == y2;
                assert(uf_root(p, m.cidx(walls@[i2].0 as int, walls@[i2].1 as int)) == uf_root(
                    p,
                    m.cidx(walls@[i2].2 as int, walls@[i2].3 as int),
                ));
            }
            if y2 + 1 < m.height {
                assert(south_edge_at(walls@, x2, y2));
                let i2 = choose|i2: int|
                    0 <= i2 < walls@.len() && (#[trigger] walls@[i2]).0 == x2 && walls@[i2].1
                        == y2 && walls@[i2].2 == x2 && walls@[i2].3 == y2 + 1;
                assert(uf_root(p, m.cidx(walls@[i2].0 as int, walls@[i2].1 as int)) == uf_root(
                    p,
                    m.cidx(walls@[i2].2 as int, walls@[i2].3 as int),
                ));
            }
        }
        assert(m.valid(0, 0));
        crate::grid::lemma_cidx_bound(m, 0, 0);
        let rho = uf_root(p, m.cidx(0, 0));
        lemma_uf_root_is_root(p, m.cidx(0, 0));
        assert forall|j: int| 0 <= j < p.len() implies (#[trigger] p[j] == j <==> j == rho) by {
            let cx = m.cells[j].x as int;
            let cy = m.cells[j].y as int;
            assert(m.valid(cx, cy) && m.cidx(cx, cy) == j);
            lemma_class_origin(m, p, cx, cy);
            assert(uf_root(p, j) == rho);
            if p[j] == j {
                lemma_root_self(p, j);
            }
            if j == rho {
                assert(is_root(p, rho));
            }
        }
        lemma_roots_unique(p, rho, p.len() as int);
        assert(num_roots(p) == 1);
        assert(m.open_total() == 2 * (m.area() - 1));
        assert forall|x1b: int, y1b: int, x2b: int, y2b: int|
            m.valid(x1b, y1b) && m.valid(x2b, y2b) implies #[trigger] reachable(
            m,
            x1b,
            y1b,
            x2b,
            y2b,
        ) by {
            lemma_class_origin(m, p, x1b, y1b);
            lemma_class_origin(m, p, x2b, y2b);
            assert(uf_root(p, m.cidx(x1b, y1b)) == uf_root(p, m.cidx(x2b, y2b)));
        }
    }
}

} // verus!
