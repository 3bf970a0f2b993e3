use vstd::prelude::*;
use crate::grid::b2i;

verus! {

/// `r` is its own parent: the representative of its set.
pub open spec fn is_root(p: Seq<usize>, r: int) -> bool {
    0 <= r < p.len() && p[r] == r
}

/// Walk at most `f` parent steps from `i`.
pub open spec fn root_ix(p: Seq<usize>, i: int, f: nat) -> int
    decreases f,
{
    if f == 0 || !(0 <= i < p.len()) || p[i] == i {
        i
    } else {
        root_ix(p, p[i] as int, (f - 1) as nat)
    }
}

/// Parent steps actually taken within fuel `f`.
pub open spec fn dist_ix(p: Seq<usize>, i: int, f: nat) -> nat
    decreases f,
{
    if f == 0 || !(0 <= i < p.len()) || p[i] == i {
        0
    } else {
        1 + dist_ix(p, p[i] as int, (f - 1) as nat)
    }
}

/// The walk from `i` reaches a root within `f` steps.
pub open spec fn reaches(p: Seq<usize>, i: int, f: nat) -> bool {
    is_root(p, root_ix(p, i, f))
}

/// Some amount of fuel suffices to reach a root from `i`.
pub open spec fn grounded(p: Seq<usize>, i: int) -> bool {
    exists|f: nat| reaches(p, i, f)
}

/// Representative of `i`: the root its parent chain reaches.
pub open spec fn uf_root(p: Seq<usize>, i: int) -> int {
    root_ix(p, i, choose|f: nat| reaches(p, i, f))
}

/// Length of the parent chain from `i` to its root.
pub open spec fn uf_depth(p: Seq<usize>, i: int) -> nat {
    dist_ix(p, i, choose|f: nat| reaches(p, i, f))
}

/// Parent array of a disjoint-set forest: parents in range, every chain
/// ending in a root.
pub open spec fn uf_wf(p: Seq<usize>) -> bool {
    forall|i: int| 0 <= i < p.len() ==> (#[trigger] p[i]) < p.len() && grounded(p, i)
}

/// Roots among the first `k` entries.
pub open spec fn roots_upto(p: Seq<usize>, k: int) -> int
    decreases k,
{
    if k <= 0 {
        0
    } else {
        roots_upto(p, k - 1) + b2i(p[k - 1] == k - 1)
    }
}

/// Number of sets of the forest.
pub open spec fn num_roots(p: Seq<usize>) -> int {
    roots_upto(p, p.len() as int)
}

/// A forest of singletons has one set per entry.
pub proof fn lemma_roots_all(p: Seq<usize>, k: int)
    requires
        k <= p.len(),
        forall|j: int| 0 <= j < p.len() ==> #[trigger] p[j] == j,
    ensures
        roots_upto(p, k) == if k >= 0 { k } else { 0 },
    decreases k,
{
    if k > 0 {
        lemma_roots_all(p, k - 1);
    }
}

/// A forest whose only root is `rho` has exactly one set.
pub proof fn lemma_roots_unique(p: Seq<usize>, rho: int, k: int)
    requires
        0 <= rho < p.len(),
        k <= p.len(),
        forall|j: int| 0 <= j < p.len() ==> (#[trigger] p[j] == j <==> j == rho),
    ensures
        roots_upto(p, k) == if rho < k { 1int } else { 0int },
    decreases k,
{
    if k > 0 {
        lemma_roots_unique(p, rho, k - 1);
    }
}

/// Once a walk has reached a root, more fuel changes nothing.
proof fn lemma_root_stable(p: Seq<usize>, i: int, f1: nat, f2: nat)
    requires
        reaches(p, i, f1),
        f1 <= f2,
    ensures
        root_ix(p, i, f2) == root_ix(p, i, f1),
        dist_ix(p, i, f2) == dist_ix(p, i, f1),
        reaches(p, i, f2),
    decreases f1,
{
    if f1 == 0 || !(0 <= i < p.len()) || p[i] == i {
    } else {
        lemma_root_stable(p, p[i] as int, (f1 - 1) as nat, (f2 - 1) as nat);
    }
}

/// Any reaching fuel computes the canonical root and depth.
pub proof fn lemma_root_canon(p: Seq<usize>, i: int, f: nat)
    requires
        reaches(p, i, f),
    ensures
        uf_root(p, i) == root_ix(p, i, f),
        uf_depth(p, i) == dist_ix(p, i, f),
        is_root(p, uf_root(p, i)),
        grounded(p, i),
{
    let fc = choose|f2: nat| reaches(p, i, f2);
    assert(reaches(p, i, f));
    assert(grounded(p, i));
    assert(reaches(p, i, fc));
    if fc <= f {
        lemma_root_stable(p, i, fc, f);
    } else {
        lemma_root_stable(p, i, f, fc);
    }
}

/// The representative of a well-formed entry is a root.
pub proof fn lemma_uf_root_is_root(p: Seq<usize>, i: int)
    requires
        uf_wf(p),
        0 <= i < p.len(),
    ensures
        is_root(p, uf_root(p, i)),
{
    let f = choose|f: nat| reaches(p, i, f);
    lemma_root_canon(p, i, f);
}

/// A root is its own representative.
pub proof fn lemma_root_self(p: Seq<usize>, r: int)
    requires
        is_root(p, r),
    ensures
        uf_root(p, r) == r,
        uf_depth(p, r) == 0,
{
    assert(reaches(p, r, 0));
    lemma_root_canon(p, r, 0);
}

/// One parent step keeps the representative and shortens the chain.
pub proof fn lemma_root_step(p: Seq<usize>, i: int)
    requires
        uf_wf(p),
        0 <= i < p.len(),
        p[i] != i,
    ensures
        uf_root(p, p[i] as int) == uf_root(p, i),
        uf_depth(p, p[i] as int) == uf_depth(p, i) - 1,
{
    let f = choose|f: nat| reaches(p, i, f);
    assert(reaches(p, i, f));
    assert(f != 0) by {
        if f == 0 {
            assert(root_ix(p, i, 0) == i);
        }
    }
    assert(root_ix(p, i, f) == root_ix(p, p[i] as int, (f - 1) as nat));
    assert(dist_ix(p, i, f) == 1 + dist_ix(p, p[i] as int, (f - 1) as nat));
    lemma_root_canon(p, p[i] as int, (f - 1) as nat);
    lemma_root_canon(p, i, f);
}

/// Pointing `x` directly at its root changes no representative and
/// lengthens no chain.
proof fn lemma_compress_claim(p: Seq<usize>, q: Seq<usize>, x: int, j: int, f: nat)
    requires
        uf_wf(p),
        0 <= x < p.len(),
        q == p.update(x, uf_root(p, x) as usize),
        0 <= j < p.len(),
        reaches(p, j, f),
    ensures
        root_ix(q, j, f) == root_ix(p, j, f),
        dist_ix(q, j, f) <= dist_ix(p, j, f),
        reaches(q, j, f),
    decreases f,
{
    lemma_uf_root_is_root(p, x);
    let rho = uf_root(p, x);
    if p[x] == x {
        lemma_root_self(p, x);
        assert(q =~= p);
    } else {
        assert(rho != x);
        assert(is_root(q, rho));
        if f == 0 {
            assert(root_ix(p, j, 0) == j && is_root(p, j));
            assert(q[j] == j || j == x);
            if j == x {
                assert(false);
            }
        } else if p[j] == j {
            assert(j != x);
        } else if j == x {
            lemma_root_canon(p, x, f);
            assert(uf_root(p, x) == root_ix(p, x, f));
            assert(q[x] == rho);
            assert(root_ix(q, x, f) == root_ix(q, rho, (f - 1) as nat));
            assert(root_ix(q, rho, (f - 1) as nat) == rho);
            assert(dist_ix(q, x, f) == 1 + dist_ix(q, rho, (f - 1) as nat));
            assert(dist_ix(q, rho, (f - 1) as nat) == 0);
            assert(dist_ix(p, x, f) == 1 + dist_ix(p, p[x] as int, (f - 1) as nat));
        } else {
            assert(q[j] == p[j]);
            lemma_compress_claim(p, q, x, p[j] as int, (f - 1) as nat);
        }
    }
}

/// Path compression: pointing `x` at its root preserves well-formedness,
/// every representative, and the set count, and shortens no chain.
pub proof fn lemma_compress(p: Seq<usize>, x: int)
    requires
        uf_wf(p),
        0 <= x < p.len(),
    ensures
        ({
            let q = p.update(x, uf_root(p, x) as usize);
            &&& uf_wf(q)
            &&& forall|j: int| 0 <= j < p.len() ==> #[trigger] uf_root(q, j) == uf_root(p, j)
            &&& forall|j: int|
                0 <= j < p.len() ==> #[trigger] uf_depth(q, j) <= uf_depth(p, j)
            &&& num_roots(q) == num_roots(p)
        }),
{
    let q = p.update(x, uf_root(p, x) as usize);
    lemma_uf_root_is_root(p, x);
    assert forall|j: int| 0 <= j < p.len() implies (#[trigger] q[j]) < q.len() && grounded(q, j)
        && uf_root(q, j) == uf_root(p, j) && uf_depth(q, j) <= uf_depth(p, j) by {
        let f = choose|f: nat| reaches(p, j, f);
        assert(reaches(p, j, f));
        lemma_compress_claim(p, q, x, j, f);
        lemma_root_canon(q, j, f);
        lemma_root_canon(p, j, f);
    }
    assert forall|j: int| 0 <= j < p.len() implies b2i(q[j] == j) == b2i(p[j] == j) by {
        if j == x {
            if p[x] == x {
                lemma_root_self(p, x);
            } else {
                lemma_uf_root_is_root(p, x);
                if uf_root(p, x) == x {
                    assert(p[x] == x);
                }
            }
        }
    }
    lemma_roots_same(p, q, p.len() as int);
}

proof fn lemma_roots_same(p: Seq<usize>, q: Seq<usize>, k: int)
    requires
        p.len() == q.len(),
        k <= p.len(),
        forall|j: int| 0 <= j < p.len() ==> b2i(#[trigger] q[j] == j) == b2i(p[j] == j),
    ensures
        roots_upto(q, k) == roots_upto(p, k),
    decreases k,
{
    if k > 0 {
        lemma_roots_same(p, q, k - 1);
    }
}

proof fn lemma_roots_change(p: Seq<usize>, q: Seq<usize>, x: int, k: int)
    requires
        p.len() == q.len(),
        0 <= x,
        k <= p.len(),
        forall|j: int| 0 <= j < p.len() && j != x ==> #[trigger] q[j] == p[j],
    ensures
        roots_upto(q, k) == roots_upto(p, k)
            + if 0 <= x < k { b2i(q[x] == x) - b2i(p[x] == x) } else { 0 },
    decreases k,
{
    if k > 0 {
        lemma_roots_change(p, q, x, k - 1);
        if k - 1 != x {
            assert(q[k - 1] == p[k - 1]);
        }
    }
}

/// Linking the root `rx` under the distinct root `ry` rewires exactly the
/// sets whose representative was `rx`, and melts two sets into one.
proof fn lemma_link_claim(p: Seq<usize>, q: Seq<usize>, rx: int, ry: int, j: int, f: nat)
    requires
        uf_wf(p),
        is_root(p, rx),
        is_root(p, ry),
        rx != ry,
        q == p.update(rx, ry as usize),
        0 <= j < p.len(),
        reaches(p, j, f),
    ensures
        root_ix(q, j, (f + 1) as nat) == (if root_ix(p, j, f) == rx {
            ry
        } else {
            root_ix(p, j, f)
        }),
        reaches(q, j, (f + 1) as nat),
    decreases f,
{
    assert(is_root(q, ry));
    if p[j] == j {
        if j == rx {
            assert(q[rx] == ry);
            assert(root_ix(q, rx, (f + 1) as nat) == root_ix(q, ry, f as nat));
            assert(root_ix(q, ry, f as nat) == ry);
        } else {
            assert(q[j] == j);
        }
    } else {
        assert(j != rx);
        assert(f != 0) by {
            if f == 0 {
                assert(root_ix(p, j, 0) == j && is_root(p, j));
            }
        }
        assert(q[j] == p[j]);
        lemma_link_claim(p, q, rx, ry, p[j] as int, (f - 1) as nat);
    }
}

/// Linking two distinct roots: the whole effect on representatives and on
/// the set count.
pub proof fn lemma_link(p: Seq<usize>, rx: int, ry: int)
    requires
        uf_wf(p),
        is_root(p, rx),
        is_root(p, ry),
        rx != ry,
    ensures
        ({
            let q = p.update(rx, ry as usize);
            &&& uf_wf(q)
            &&& forall|j: int|
                0 <= j < p.len() ==> #[trigger] uf_root(q, j) == (if uf_root(p, j) == rx {
                    ry
                } else {
                    uf_root(p, j)
                })
            &&& num_roots(q) == num_roots(p) - 1
        }),
{
    let q = p.update(rx, ry as usize);
    assert forall|j: int| 0 <= j < p.len() implies (#[trigger] q[j]) < q.len() && grounded(q, j)
        && uf_root(q, j) == (if uf_root(p, j) == rx {
        ry
    } else {
        uf_root(p, j)
    }) by {
        let f = choose|f: nat| reaches(p, j, f);
        assert(reaches(p, j, f));
        lemma_link_claim(p, q, rx, ry, j, f);
        lemma_root_canon(q, j, (f + 1) as nat);
        lemma_root_canon(p, j, f);
    }
    lemma_roots_change(p, q, rx, p.len() as int);
}

/// Path-compressing root lookup: returns the representative of `x` and
/// repoints every node on the walk directly at it. No representative
/// changes.
pub fn find(sets: &mut Vec<usize>, x: usize) -> (r: usize)
    requires
        uf_wf(old(sets)@),
        (x as int) < old(sets)@.len(),
    ensures
        uf_wf(final(sets)@),
        final(sets)@.len() == old(sets)@.len(),
        r == uf_root(old(sets)@, x as int),
        is_root(final(sets)@, r as int),
        forall|j: int|
            0 <= j < old(sets)@.len() ==> #[trigger] uf_root(final(sets)@, j) == uf_root(
                old(sets)@,
                j,
            ),
        num_roots(final(sets)@) == num_roots(old(sets)@),
{
    let ghost p0 = sets@;
    let mut root = x;
    loop
        invariant
            sets@ == p0,
            uf_wf(p0),
            (root as int) < p0.len(),
            uf_root(p0, root as int) == uf_root(p0, x as int),
        ensures
            sets@ == p0,
            (root as int) < p0.len(),
            is_root(p0, root as int),
            root == uf_root(p0, x as int),
        decreases uf_depth(p0, root as int),
    {
        let parent = sets[root];
        if parent == root {
            proof {
                lemma_root_self(p0, root as int);
            }
            break ;
        }
        proof {
            lemma_root_step(p0, root as int);
        }
        root = parent;
    }
    let mut cur = x;
    while cur != root
        invariant
            uf_wf(sets@),
            sets@.len() == p0.len(),
            (root as int) < p0.len(),
            (cur as int) < p0.len(),
            is_root(sets@, root as int),
            root == uf_root(p0, x as int),
            uf_root(sets@, cur as int) == root,
            forall|j: int|
                0 <= j < p0.len() ==> #[trigger] uf_root(sets@, j) == uf_root(p0, j),
            num_roots(sets@) == num_roots(p0),
        decreases uf_depth(sets@, cur as int),
    {
        let ghost p = sets@;
        let next = sets[cur];
        proof {
            assert(p[cur as int] != cur) by {
                if p[cur as int] == cur {
                    lemma_root_self(p, cur as int);
                }
            }
            lemma_root_step(p, cur as int);
            lemma_compress(p, cur as int);
        }
        sets[cur] = root;
        proof {
            assert(sets@ == p.update(cur as int, uf_root(p, cur as int) as usize));
        }
        cur = next;
    }
    root
}

/// Merge the two sets: the representative of `x`'s set is pointed at the
/// representative of `y`'s set.
pub fn union(sets: &mut Vec<usize>, x: usize, y: usize)
    requires
        uf_wf(old(sets)@),
        (x as int) < old(sets)@.len(),
        (y as int) < old(sets)@.len(),
    ensures
        uf_wf(final(sets)@),
        final(sets)@.len() == old(sets)@.len(),
        forall|j: int|
            0 <= j < old(sets)@.len() ==> #[trigger] uf_root(final(sets)@, j) == (if uf_root(
                old(sets)@,
                j,
            ) == uf_root(old(sets)@, x as int) {
                uf_root(old(sets)@, y as int)
            } else {
                uf_root(old(sets)@, j)
            }),
        uf_root(old(sets)@, x as int) != uf_root(old(sets)@, y as int) ==> num_roots(
            final(sets)@,
        ) == num_roots(old(sets)@) - 1,
        uf_root(old(sets)@, x as int) == uf_root(old(sets)@, y as int) ==> num_roots(
            final(sets)@,
        ) == num_roots(old(sets)@),
{
    let ghost p0 = sets@;
    let root_x = find(sets, x);
    let ghost p1 = sets@;
    let root_y = find(sets, y);
    let ghost p = sets@;
    proof {
        // `root_x` is still a root after the second, compressing lookup
        lemma_root_self(p1, root_x as int);
        assert(uf_root(p, root_x as int) == root_x);
        lemma_uf_root_is_root(p, root_x as int);
    }
    sets[root_x] = root_y;
    proof {
        if root_x == root_y {
            assert(sets@ =~= p);
        } else {
            lemma_link(p, root_x as int, root_y as int);
            assert(sets@ == p.update(root_x as int, root_y));
        }
    }
}

} // verus!
