use vstd::prelude::*;

use crate::maze::{dir_dx, dir_dy, step_adj, Cell, Direction, Maze};
use crate::rng::rand_below;

verus! {

// ---------------------------------------------------------------------------
// The node lattice.
//
// A grid of odd dimensions `width x height` carries a coarser lattice of
// `mw x mh` nodes, `mw = width / 2`, `mh = height / 2`; node `(i, j)` sits on
// grid cell `(2i + 1, 2j + 1)`. The generator grows a spanning tree over the
// lattice: every node except the root `(0, 0)` records the direction of its
// tree parent, and the wall cell between the two is opened.
// ---------------------------------------------------------------------------

/// One step from node `(i, j)` in direction `d` stays on the lattice.
pub(crate) open spec fn dir_ok(mw: int, mh: int, i: int, j: int, d: Direction) -> bool {
    &&& 0 <= i + dir_dx(d) < mw
    &&& 0 <= j + dir_dy(d) < mh
}

/// The grid cell between node `(i, j)` and its lattice neighbor in
/// direction `d`.
pub(crate) open spec fn link_of(i: int, j: int, d: Direction) -> (int, int) {
    (2 * i + 1 + dir_dx(d), 2 * j + 1 + dir_dy(d))
}

/// Row-major index of node `(i, j)`.
pub(crate) open spec fn nid(mw: int, i: int, j: int) -> int {
    j * mw + i
}

spec fn vat(v: Vec<Vec<bool>>, i: int, j: int) -> bool {
    v@[j]@[i]
}

spec fn pat(p: Vec<Vec<Direction>>, i: int, j: int) -> Direction {
    p@[j]@[i]
}

spec fn grid_wf<T>(v: Vec<Vec<T>>, mw: int, mh: int) -> bool {
    &&& v@.len() == mh
    &&& forall|j: int| 0 <= j < mh ==> (#[trigger] v@[j])@.len() == mw
}

/// Node `(i, j)` appears somewhere on the walk stack.
spec fn on_stack(st: Seq<(usize, usize)>, i: int, j: int) -> bool {
    exists|k: int| 0 <= k < st.len() && (#[trigger] st[k]).0 == i && st[k].1 == j
}

/// Every direction gathered so far leads from `(ci, cj)` to an unvisited
/// lattice node.
spec fn dirs_ok(mw: int, mh: int, v: Vec<Vec<bool>>, ci: int, cj: int, s: Seq<Direction>) -> bool {
    forall|k: int|
        0 <= k < s.len() ==> dir_ok(mw, mh, ci, cj, #[trigger] s[k]) && !vat(
            v,
            ci + dir_dx(s[k]),
            cj + dir_dy(s[k]),
        )
}

/// All lattice neighbors of node `(i, j)` are visited.
#[verifier::opaque]
spec fn nbrs_visited(mw: int, mh: int, v: Vec<Vec<bool>>, i: int, j: int) -> bool {
    forall|d: Direction|
        #[trigger] dir_ok(mw, mh, i, j, d) ==> vat(v, i + dir_dx(d), j + dir_dy(d))
}

/// Non-root node `(i, j)` has a recorded parent direction that stays on the
/// lattice and points to a node visited strictly earlier.
#[verifier::opaque]
spec fn parent_ok(
    mw: int,
    mh: int,
    pd: Vec<Vec<Direction>>,
    ord: Map<(int, int), nat>,
    i: int,
    j: int,
) -> bool {
    let d = pat(pd, i, j);
    &&& dir_ok(mw, mh, i, j, d)
    &&& ord.contains_key((i, j))
    &&& ord.contains_key((i + dir_dx(d), j + dir_dy(d)))
    &&& ord[(i + dir_dx(d), j + dir_dy(d))] < ord[(i, j)]
}

/// Every non-root node of the lattice has a valid parent edge.
spec fn spanning_ok(mw: int, mh: int, pd: Vec<Vec<Direction>>, ord: Map<(int, int), nat>) -> bool {
    forall|i: int, j: int|
        0 <= i < mw && 0 <= j < mh && !(i == 0 && j == 0) ==> #[trigger] parent_ok(
            mw,
            mh,
            pd,
            ord,
            i,
            j,
        )
}

// ---------------------------------------------------------------------------
// Termination measure for the walk: the number of unvisited nodes.
// ---------------------------------------------------------------------------

spec fn count_false(row: Seq<bool>) -> nat
    decreases row.len(),
{
    if row.len() == 0 {
        0
    } else {
        count_false(row.drop_last()) + (if row.last() {
            0nat
        } else {
            1nat
        })
    }
}

spec fn count_unvisited(v: Seq<Vec<bool>>) -> nat
    decreases v.len(),
{
    if v.len() == 0 {
        0
    } else {
        count_unvisited(v.drop_last()) + count_false(v.last()@)
    }
}

proof fn lemma_count_false_update(row: Seq<bool>, i: int)
    requires
        0 <= i < row.len(),
        !row[i],
    ensures
        count_false(row.update(i, true)) + 1 == count_false(row),
    decreases row.len(),
{
    let r2 = row.update(i, true);
    if i == row.len() - 1 {
        assert(r2.drop_last() =~= row.drop_last());
    } else {
        assert(r2.drop_last() =~= row.drop_last().update(i, true));
        lemma_count_false_update(row.drop_last(), i);
    }
}

proof fn lemma_count_congr(v1: Seq<Vec<bool>>, v2: Seq<Vec<bool>>)
    requires
        v1.len() == v2.len(),
        forall|b: int| 0 <= b < v1.len() ==> (#[trigger] v1[b])@ == v2[b]@,
    ensures
        count_unvisited(v1) == count_unvisited(v2),
    decreases v1.len(),
{
    if v1.len() > 0 {
        lemma_count_congr(v1.drop_last(), v2.drop_last());
    }
}

proof fn lemma_count_update(v1: Seq<Vec<bool>>, v2: Seq<Vec<bool>>, i: int, j: int)
    requires
        v1.len() == v2.len(),
        0 <= j < v1.len(),
        0 <= i < v1[j]@.len(),
        !v1[j]@[i],
        v2[j]@ == v1[j]@.update(i, true),
        forall|b: int| 0 <= b < v1.len() && b != j ==> (#[trigger] v2[b])@ == v1[b]@,
    ensures
        count_unvisited(v2) + 1 == count_unvisited(v1),
    decreases v1.len(),
{
    if j == v1.len() - 1 {
        lemma_count_congr(v1.drop_last(), v2.drop_last());
        lemma_count_false_update(v1[j]@, i);
    } else {
        lemma_count_update(v1.drop_last(), v2.drop_last(), i, j);
    }
}

// ---------------------------------------------------------------------------
// When the walk's stack has emptied, the visited region is closed under
// lattice adjacency, and therefore covers the whole lattice.
// ---------------------------------------------------------------------------

proof fn lemma_all_visited(mw: int, mh: int, v: Vec<Vec<bool>>, i: int, j: int)
    requires
        1 <= mw,
        1 <= mh,
        grid_wf(v, mw, mh),
        vat(v, 0, 0),
        forall|a: int, b: int|
            0 <= a < mw && 0 <= b < mh && #[trigger] vat(v, a, b) ==> nbrs_visited(mw, mh, v, a, b),
        0 <= i < mw,
        0 <= j < mh,
    ensures
        vat(v, i, j),
    decreases i + j,
{
    reveal(nbrs_visited);
    if i == 0 && j == 0 {
    } else if i > 0 {
        lemma_all_visited(mw, mh, v, i - 1, j);
        assert(dir_ok(mw, mh, i - 1, j, Direction::Right));
        assert(vat(v, i - 1 + dir_dx(Direction::Right), j + dir_dy(Direction::Right)));
    } else {
        lemma_all_visited(mw, mh, v, 0, j - 1);
        assert(dir_ok(mw, mh, 0, j - 1, Direction::Down));
        assert(vat(v, 0 + dir_dx(Direction::Down), j - 1 + dir_dy(Direction::Down)));
    }
}

// ---------------------------------------------------------------------------
// Row-major node indices.
// ---------------------------------------------------------------------------

proof fn lemma_nid_inj(mw: int, i1: int, j1: int, i2: int, j2: int)
    requires
        1 <= mw,
        0 <= i1 < mw,
        0 <= i2 < mw,
        nid(mw, i1, j1) == nid(mw, i2, j2),
    ensures
        i1 == i2 && j1 == j2,
{
    assert(i1 == i2 && j1 == j2) by (nonlinear_arith)
        requires
            1 <= mw,
            0 <= i1 < mw,
            0 <= i2 < mw,
            j1 * mw + i1 == j2 * mw + i2,
    ;
}

proof fn lemma_nid_bounds(mw: int, mh: int, i: int, j: int)
    requires
        0 <= i < mw,
        0 <= j < mh,
    ensures
        0 <= nid(mw, i, j) < mw * mh,
{
    assert(0 <= j * mw + i < mw * mh) by (nonlinear_arith)
        requires
            0 <= i < mw,
            0 <= j < mh,
    ;
}

proof fn lemma_nid_decomp(mw: int, mh: int, k: int)
    requires
        1 <= mw,
        1 <= mh,
        0 <= k < mw * mh,
    ensures
        0 <= k % mw < mw,
        0 <= k / mw < mh,
        nid(mw, k % mw, k / mw) == k,
{
    assert(0 <= k % mw < mw && 0 <= k / mw < mh && (k / mw) * mw + k % mw == k)
        by (nonlinear_arith)
        requires
            1 <= mw,
            1 <= mh,
            0 <= k < mw * mh,
    ;
}

/// Each direction moves by one unit along exactly one axis.
proof fn lemma_dir_unit(d: Direction)
    ensures
        ({
            ||| (dir_dx(d) == 1 && dir_dy(d) == 0)
            ||| (dir_dx(d) == -1 && dir_dy(d) == 0)
            ||| (dir_dx(d) == 0 && dir_dy(d) == 1)
            ||| (dir_dx(d) == 0 && dir_dy(d) == -1)
        }),
{
    match d {
        Direction::Up => {},
        Direction::Down => {},
        Direction::Left => {},
        Direction::Right => {},
    }
}

fn opposite(d: Direction) -> (r: Direction)
    ensures
        dir_dx(r) == -dir_dx(d),
        dir_dy(r) == -dir_dy(d),
{
    match d {
        Direction::Up => Direction::Down,
        Direction::Down => Direction::Up,
        Direction::Left => Direction::Right,
        Direction::Right => Direction::Left,
    }
}


/// The walk's invariant: both grids are rectangular, the root is visited,
/// the stack holds visited lattice nodes, `ord` numbers exactly the visited
/// nodes with values below `ctr`, every visited non-root node has a valid
/// parent edge, and every visited node off the stack has all its neighbors
/// visited.
spec fn walk_inv(
    mw: int,
    mh: int,
    visited: Vec<Vec<bool>>,
    pdir: Vec<Vec<Direction>>,
    stack: Seq<(usize, usize)>,
    ord: Map<(int, int), nat>,
    ctr: nat,
) -> bool {
    &&& grid_wf(visited, mw, mh)
    &&& grid_wf(pdir, mw, mh)
    &&& vat(visited, 0, 0)
    &&& forall|k: int|
        0 <= k < stack.len() ==> {
            let p = #[trigger] stack[k];
            &&& p.0 < mw
            &&& p.1 < mh
            &&& vat(visited, p.0 as int, p.1 as int)
        }
    &&& forall|p: (int, int)| #[trigger]
        ord.contains_key(p) ==> 0 <= p.0 < mw && 0 <= p.1 < mh && vat(visited, p.0, p.1)
    &&& forall|a: int, b: int|
        0 <= a < mw && 0 <= b < mh && #[trigger] vat(visited, a, b) ==> ord.contains_key((a, b))
            && ord[(a, b)] < ctr
    &&& forall|a: int, b: int|
        0 <= a < mw && 0 <= b < mh && !(a == 0 && b == 0) && #[trigger] vat(visited, a, b)
            ==> parent_ok(mw, mh, pdir, ord, a, b)
    &&& forall|a: int, b: int|
        0 <= a < mw && 0 <= b < mh && #[trigger] vat(visited, a, b) && !on_stack(stack, a, b)
            ==> nbrs_visited(mw, mh, visited, a, b)
}

// Backtracking off a boxed-in node keeps the invariant.
#[verifier::rlimit(100)]
proof fn lemma_pop_step(
    mw: int,
    mh: int,
    visited: Vec<Vec<bool>>,
    pdir: Vec<Vec<Direction>>,
    stack0: Seq<(usize, usize)>,
    stack1: Seq<(usize, usize)>,
    ord: Map<(int, int), nat>,
    ctr: nat,
)
    requires
        walk_inv(mw, mh, visited, pdir, stack0, ord, ctr),
        stack0.len() >= 1,
        stack1 == stack0.drop_last(),
        nbrs_visited(mw, mh, visited, stack0.last().0 as int, stack0.last().1 as int),
    ensures
        walk_inv(mw, mh, visited, pdir, stack1, ord, ctr),
{
    let ci = stack0.last().0 as int;
    let cj = stack0.last().1 as int;
    assert forall|a: int, b: int|
        0 <= a < mw && 0 <= b < mh && #[trigger] vat(visited, a, b) && !on_stack(
            stack1,
            a,
            b,
        ) implies nbrs_visited(mw, mh, visited, a, b) by {
        if a == ci && b == cj {
        } else {
            assert(!on_stack(stack0, a, b)) by {
                if on_stack(stack0, a, b) {
                    let k = choose|k: int|
                        0 <= k < stack0.len() && (#[trigger] stack0[k]).0 == a && stack0[k].1 == b;
                    if k < stack0.len() - 1 {
                        assert(stack1[k] == stack0[k]);
                        assert(on_stack(stack1, a, b));
                    }
                }
            }
        }
    }
}

// Visiting a fresh node keeps the invariant: the new node goes on the stack
// and records a parent edge back to the node it was reached from, which was
// visited strictly earlier.
#[verifier::rlimit(100)]
proof fn lemma_visit_step(
    mw: int,
    mh: int,
    vis0: Vec<Vec<bool>>,
    visited: Vec<Vec<bool>>,
    pdir0: Vec<Vec<Direction>>,
    pdir: Vec<Vec<Direction>>,
    ord0: Map<(int, int), nat>,
    ord: Map<(int, int), nat>,
    ctr0: nat,
    stack0: Seq<(usize, usize)>,
    stack1: Seq<(usize, usize)>,
    ci: int,
    cj: int,
    ni: usize,
    nj: usize,
    od: Direction,
)
    requires
        1 <= mw,
        1 <= mh,
        walk_inv(mw, mh, vis0, pdir0, stack0, ord0, ctr0),
        0 <= ci < mw,
        0 <= cj < mh,
        ni < mw,
        nj < mh,
        vat(vis0, ci, cj),
        !vat(vis0, ni as int, nj as int),
        ni + dir_dx(od) == ci,
        nj + dir_dy(od) == cj,
        visited@.len() == vis0@.len(),
        pdir@.len() == pdir0@.len(),
        visited@[nj as int]@ == vis0@[nj as int]@.update(ni as int, true),
        pdir@[nj as int]@ == pdir0@[nj as int]@.update(ni as int, od),
        forall|b: int| 0 <= b < vis0@.len() && b != nj as int ==> visited@[b] == vis0@[b],
        forall|b: int| 0 <= b < pdir0@.len() && b != nj as int ==> pdir@[b] == pdir0@[b],
        ord == ord0.insert((ni as int, nj as int), ctr0),
        stack1 == stack0.push((ni, nj)),
    ensures
        walk_inv(mw, mh, visited, pdir, stack1, ord, ctr0 + 1),
{
    reveal(parent_ok);
    reveal(nbrs_visited);
    assert(grid_wf(visited, mw, mh));
    assert(grid_wf(pdir, mw, mh));
    assert(vat(visited, ni as int, nj as int));
    assert(pat(pdir, ni as int, nj as int) == od);
    assert forall|a: int, b: int|
        0 <= a < mw && 0 <= b < mh && !(a == ni as int && b == nj as int)
            implies #[trigger] vat(visited, a, b) == vat(vis0, a, b) && pat(pdir, a, b) == pat(
            pdir0,
            a,
            b,
        ) by {
        if b == nj as int {
            assert(visited@[b]@ == vis0@[b]@.update(ni as int, true));
            assert(pdir@[b]@ == pdir0@[b]@.update(ni as int, od));
        }
    }
    assert(parent_ok(mw, mh, pdir, ord, ni as int, nj as int)) by {
        assert(ord.contains_key((ci, cj)));
        assert(ord[(ci, cj)] == ord0[(ci, cj)]);
    }
    assert forall|a: int, b: int|
        0 <= a < mw && 0 <= b < mh && !(a == 0 && b == 0) && #[trigger] vat(
            visited,
            a,
            b,
        ) implies parent_ok(mw, mh, pdir, ord, a, b) by {
        if !(a == ni as int && b == nj as int) {
            assert(vat(vis0, a, b));
            assert(parent_ok(mw, mh, pdir0, ord0, a, b));
            let pd0 = pat(pdir0, a, b);
            assert((a + dir_dx(pd0), b + dir_dy(pd0)) != (ni as int, nj as int)) by {
                assert(ord0.contains_key((a + dir_dx(pd0), b + dir_dy(pd0))));
            }
        }
    }
    assert forall|a: int, b: int|
        0 <= a < mw && 0 <= b < mh && #[trigger] vat(visited, a, b) && !on_stack(
            stack1,
            a,
            b,
        ) implies nbrs_visited(mw, mh, visited, a, b) by {
        if a == ni as int && b == nj as int {
            assert(stack1[stack1.len() - 1] == (ni, nj));
            assert(on_stack(stack1, a, b));
        } else {
            assert(vat(vis0, a, b));
            assert(!on_stack(stack0, a, b)) by {
                if on_stack(stack0, a, b) {
                    let k = choose|k: int|
                        0 <= k < stack0.len() && (#[trigger] stack0[k]).0 == a && stack0[k].1 == b;
                    assert(stack1[k] == stack0[k]);
                    assert(on_stack(stack1, a, b));
                }
            }
            assert(nbrs_visited(mw, mh, vis0, a, b));
            assert forall|dd: Direction| #[trigger] dir_ok(mw, mh, a, b, dd) implies vat(
                visited,
                a + dir_dx(dd),
                b + dir_dy(dd),
            ) by {
                assert(vat(vis0, a + dir_dx(dd), b + dir_dy(dd)));
            }
        }
    }
    assert forall|k: int| 0 <= k < stack1.len() implies {
        let p = #[trigger] stack1[k];
        &&& p.0 < mw
        &&& p.1 < mh
        &&& vat(visited, p.0 as int, p.1 as int)
    } by {
        if k < stack0.len() {
            assert(stack1[k] == stack0[k]);
            assert(vat(vis0, stack0[k].0 as int, stack0[k].1 as int));
        }
    }
}

// ---------------------------------------------------------------------------
// Phase one: a randomized depth-first walk over the lattice. Every node the
// walk first reaches records the direction back to the node it was reached
// from, so the recorded edges form a tree rooted at `(0, 0)`; the walk
// backtracks when boxed in and stops when the whole lattice is visited.
// ---------------------------------------------------------------------------

/// Backtrack: the stack's top node has no unvisited neighbor left, so it
/// comes off the stack.
#[verifier::rlimit(100)]
fn backtrack_step(
    mw: usize,
    mh: usize,
    visited: &Vec<Vec<bool>>,
    pdir: &Vec<Vec<Direction>>,
    stack: &mut Vec<(usize, usize)>,
    ord_in: Ghost<Map<(int, int), nat>>,
    ctr_in: Ghost<nat>,
    ci: usize,
    cj: usize,
)
    requires
        1 <= mw < 32768,
        1 <= mh < 32768,
        old(stack)@.len() > 0,
        old(stack)@.last() == (ci, cj),
        walk_inv(mw as int, mh as int, *visited, *pdir, old(stack)@, ord_in@, ctr_in@),
        nbrs_visited(mw as int, mh as int, *visited, ci as int, cj as int),
    ensures
        walk_inv(mw as int, mh as int, *visited, *pdir, final(stack)@, ord_in@, ctr_in@),
        final(stack)@.len() < old(stack)@.len(),
{
    let ghost stack0 = stack@;
    let _ = stack.pop();
    proof {
        lemma_pop_step(mw as int, mh as int, *visited, *pdir, stack0, stack@, ord_in@, ctr_in@);
    }
}

/// Visit the unvisited neighbor of the stack's top node in direction `d`:
/// mark it visited, record its parent direction, and push it.
#[verifier::rlimit(100)]
fn visit_neighbor(
    mw: usize,
    mh: usize,
    visited: &mut Vec<Vec<bool>>,
    pdir: &mut Vec<Vec<Direction>>,
    stack: &mut Vec<(usize, usize)>,
    ord_in: Ghost<Map<(int, int), nat>>,
    ctr_in: Ghost<nat>,
    ci: usize,
    cj: usize,
    d: Direction,
) -> (r: (Ghost<Map<(int, int), nat>>, Ghost<nat>))
    requires
        1 <= mw < 32768,
        1 <= mh < 32768,
        old(stack)@.len() > 0,
        old(stack)@.last() == (ci, cj),
        walk_inv(mw as int, mh as int, *old(visited), *old(pdir), old(stack)@, ord_in@, ctr_in@),
        dir_ok(mw as int, mh as int, ci as int, cj as int, d),
        !vat(*old(visited), ci + dir_dx(d), cj + dir_dy(d)),
    ensures
        walk_inv(mw as int, mh as int, *final(visited), *final(pdir), final(stack)@, r.0@, r.1@),
        count_unvisited(final(visited)@) < count_unvisited(old(visited)@),
{
    let (ni, nj): (usize, usize) = match d {
        Direction::Left => (ci - 1, cj),
        Direction::Up => (ci, cj - 1),
        Direction::Right => (ci + 1, cj),
        Direction::Down => (ci, cj + 1),
    };
    assert(ni as int == ci + dir_dx(d) && nj as int == cj + dir_dy(d));
    let od = opposite(d);
    let ghost pdir0 = *pdir;
    let ghost vis0 = *visited;
    pdir[nj][ni] = od;
    visited[nj][ni] = true;
    let ghost stack0 = stack@;
    stack.push((ni, nj));
    let ghost ord2 = ord_in@.insert((ni as int, nj as int), ctr_in@);
    proof {
        lemma_count_update(vis0@, visited@, ni as int, nj as int);
        lemma_visit_step(
            mw as int,
            mh as int,
            vis0,
            *visited,
            pdir0,
            *pdir,
            ord_in@,
            ord2,
            ctr_in@,
            stack0,
            stack@,
            ci as int,
            cj as int,
            ni,
            nj,
            od,
        );
    }
    (Ghost(ord2), Ghost(ctr_in@ + 1))
}

/// One step of the walk: visit a random unvisited neighbor of the stack's
/// top node, or backtrack if it has none.
#[verifier::rlimit(100)]
fn walk_step(
    mw: usize,
    mh: usize,
    visited: &mut Vec<Vec<bool>>,
    pdir: &mut Vec<Vec<Direction>>,
    stack: &mut Vec<(usize, usize)>,
    ord_in: Ghost<Map<(int, int), nat>>,
    ctr_in: Ghost<nat>,
) -> (r: (Ghost<Map<(int, int), nat>>, Ghost<nat>))
    requires
        1 <= mw < 32768,
        1 <= mh < 32768,
        old(stack)@.len() > 0,
        walk_inv(mw as int, mh as int, *old(visited), *old(pdir), old(stack)@, ord_in@, ctr_in@),
    ensures
        walk_inv(mw as int, mh as int, *final(visited), *final(pdir), final(stack)@, r.0@, r.1@),
        count_unvisited(final(visited)@) < count_unvisited(old(visited)@) || (count_unvisited(
            final(visited)@,
        ) == count_unvisited(old(visited)@) && final(stack)@.len() < old(stack)@.len()),
{
    let top = stack[stack.len() - 1];
    let ci = top.0;
    let cj = top.1;

    let mut dirs: Vec<Direction> = Vec::new();
    assert(dirs_ok(mw as int, mh as int, *visited, ci as int, cj as int, dirs@));
    if ci > 0 && !visited[cj][ci - 1] {
        dirs.push(Direction::Left);
        assert(dirs_ok(mw as int, mh as int, *visited, ci as int, cj as int, dirs@));
    }
    if cj > 0 && !visited[cj - 1][ci] {
        dirs.push(Direction::Up);
        assert(dirs_ok(mw as int, mh as int, *visited, ci as int, cj as int, dirs@));
    }
    if ci + 1 < mw && !visited[cj][ci + 1] {
        dirs.push(Direction::Right);
        assert(dirs_ok(mw as int, mh as int, *visited, ci as int, cj as int, dirs@));
    }
    if cj + 1 < mh && !visited[cj + 1][ci] {
        dirs.push(Direction::Down);
        assert(dirs_ok(mw as int, mh as int, *visited, ci as int, cj as int, dirs@));
    }

    if dirs.len() == 0 {
        proof {
            reveal(nbrs_visited);
            assert forall|dd: Direction| #[trigger]
                dir_ok(mw as int, mh as int, ci as int, cj as int, dd) implies vat(
                *visited,
                ci + dir_dx(dd),
                cj + dir_dy(dd),
            ) by {
                match dd {
                    Direction::Left => {},
                    Direction::Up => {},
                    Direction::Right => {},
                    Direction::Down => {},
                }
            }
            assert(nbrs_visited(mw as int, mh as int, *visited, ci as int, cj as int));
        }
        backtrack_step(mw, mh, visited, pdir, stack, ord_in, ctr_in, ci, cj);
        (ord_in, ctr_in)
    } else {
        let kidx = rand_below(dirs.len());
        let d = dirs[kidx];
        visit_neighbor(mw, mh, visited, pdir, stack, ord_in, ctr_in, ci, cj, d)
    }
}

#[verifier::rlimit(100)]
fn build_spanning(mw: usize, mh: usize) -> (r: (Vec<Vec<Direction>>, Ghost<Map<(int, int), nat>>))
    requires
        1 <= mw < 32768,
        1 <= mh < 32768,
    ensures
        grid_wf(r.0, mw as int, mh as int),
        spanning_ok(mw as int, mh as int, r.0, r.1@),
{
    let mut pdir: Vec<Vec<Direction>> = Vec::new();
    let mut visited: Vec<Vec<bool>> = Vec::new();
    for j in 0..mh
        invariant
            pdir@.len() == j,
            visited@.len() == j,
            forall|b: int| 0 <= b < j ==> (#[trigger] pdir@[b])@.len() == mw as int,
            forall|b: int| 0 <= b < j ==> (#[trigger] visited@[b])@.len() == mw as int,
            forall|a: int, b: int| 0 <= b < j && 0 <= a < mw ==> !(#[trigger] vat(visited, a, b)),
    {
        let mut prow: Vec<Direction> = Vec::new();
        let mut vrow: Vec<bool> = Vec::new();
        for i in 0..mw
            invariant
                prow@.len() == i,
                vrow@.len() == i,
                forall|a: int| 0 <= a < i ==> !(#[trigger] vrow@[a]),
        {
            prow.push(Direction::Up);
            vrow.push(false);
        }
        let ghost v0 = visited;
        pdir.push(prow);
        visited.push(vrow);
        proof {
            assert(visited@[j as int] == vrow);
            assert forall|a: int, b: int| 0 <= b < j && 0 <= a < mw implies #[trigger] vat(
                visited,
                a,
                b,
            ) == vat(v0, a, b) by {}
            assert(forall|a: int| 0 <= a < mw ==> !(#[trigger] vat(visited, a, j as int)));
        }
    }

    let ghost v1 = visited;
    visited[0][0] = true;
    proof {
        assert(vat(visited, 0, 0));
        assert forall|a: int, b: int|
            0 <= a < mw && 0 <= b < mh && !(a == 0 && b == 0) implies !(#[trigger] vat(
            visited,
            a,
            b,
        )) by {
            assert(!vat(v1, a, b));
        }
    }
    let mut stack: Vec<(usize, usize)> = Vec::new();
    stack.push((0, 0));
    assert(stack@[0] == (0usize, 0usize));
    assert(on_stack(stack@, 0, 0));
    let ghost mut ord: Map<(int, int), nat> = Map::empty().insert((0int, 0int), 0nat);
    let ghost mut ctr: nat = 1;

    while stack.len() > 0
        invariant
            1 <= mw < 32768,
            1 <= mh < 32768,
            walk_inv(mw as int, mh as int, visited, pdir, stack@, ord, ctr),
        decreases count_unvisited(visited@), stack@.len(),
    {
        let r = walk_step(mw, mh, &mut visited, &mut pdir, &mut stack, Ghost(ord), Ghost(ctr));
        proof {
            ord = r.0@;
            ctr = r.1@;
        }
    }

    proof {
        assert forall|a: int, b: int|
            0 <= a < mw && 0 <= b < mh && #[trigger] vat(visited, a, b) implies nbrs_visited(
            mw as int,
            mh as int,
            visited,
            a,
            b,
        ) by {
            assert(!on_stack(stack@, a, b));
        }
        assert forall|a: int, b: int| 0 <= a < mw && 0 <= b < mh implies #[trigger] vat(
            visited,
            a,
            b,
        ) by {
            lemma_all_visited(mw as int, mh as int, visited, a, b);
        }
        assert forall|a: int, b: int|
            0 <= a < mw && 0 <= b < mh && !(a == 0 && b == 0) implies #[trigger] parent_ok(
            mw as int,
            mh as int,
            pdir,
            ord,
            a,
            b,
        ) by {
            assert(vat(visited, a, b));
        }
    }
    (pdir, Ghost(ord))
}


// ---------------------------------------------------------------------------
// Phase two: carving. Walking the lattice in row-major order, each node's
// grid cell is opened, and each non-root node also opens the cell between
// itself and its parent. The characterization below pins down exactly which
// cells are open after the first `upto` nodes have been processed.
// ---------------------------------------------------------------------------

/// `(x, y)` is the grid cell of a node whose row-major index is below `upto`.
#[verifier::opaque]
spec fn expected_node(mw: int, mh: int, upto: int, x: int, y: int) -> bool {
    exists|i: int, j: int|
        0 <= i < mw && 0 <= j < mh && x == 2 * i + 1 && y == 2 * j + 1 && #[trigger] nid(mw, i, j)
            < upto
}

/// `(x, y)` is the parent-edge cell of a non-root node whose row-major
/// index is below `upto`.
#[verifier::opaque]
spec fn expected_link(mw: int, mh: int, pd: Vec<Vec<Direction>>, upto: int, x: int, y: int) -> bool {
    exists|i: int, j: int|
        0 <= i < mw && 0 <= j < mh && !(i == 0 && j == 0) && #[trigger] nid(mw, i, j) < upto && (
        x,
        y,
        ) == link_of(i, j, pat(pd, i, j))
}

/// After processing the first `upto` nodes, the open cells are exactly the
/// processed node cells and their parent-edge cells.
spec fn carved_upto(m: Maze, mw: int, mh: int, pd: Vec<Vec<Direction>>, upto: int) -> bool {
    forall|x: int, y: int|
        m.in_bounds(x, y) ==> ((#[trigger] m.cell_at(x, y)) == Cell::Path <==> expected_node(
            mw,
            mh,
            upto,
            x,
            y,
        ) || expected_link(mw, mh, pd, upto, x, y))
}

// Processing one more node extends the expected cells by exactly that
// node's cell and (for a non-root node) its parent-edge cell.
#[verifier::rlimit(100)]
proof fn lemma_expected_step(mw: int, mh: int, pd: Vec<Vec<Direction>>, i: int, j: int, x: int, y: int)
    requires
        1 <= mw,
        1 <= mh,
        0 <= i < mw,
        0 <= j < mh,
    ensures
        expected_node(mw, mh, nid(mw, i, j) + 1, x, y) <==> (expected_node(
            mw,
            mh,
            nid(mw, i, j),
            x,
            y,
        ) || (x == 2 * i + 1 && y == 2 * j + 1)),
        expected_link(mw, mh, pd, nid(mw, i, j) + 1, x, y) <==> (expected_link(
            mw,
            mh,
            pd,
            nid(mw, i, j),
            x,
            y,
        ) || (!(i == 0 && j == 0) && (x, y) == link_of(i, j, pat(pd, i, j)))),
{
    reveal(expected_node);
    reveal(expected_link);
    let k = nid(mw, i, j);
    if expected_node(mw, mh, k + 1, x, y) {
        let (a, b) = choose|a: int, b: int|
            0 <= a < mw && 0 <= b < mh && x == 2 * a + 1 && y == 2 * b + 1 && #[trigger] nid(
                mw,
                a,
                b,
            ) < k + 1;
        if nid(mw, a, b) == k {
            lemma_nid_inj(mw, a, b, i, j);
        } else {
            assert(expected_node(mw, mh, k, x, y));
        }
    }
    if expected_node(mw, mh, k, x, y) {
        let (a, b) = choose|a: int, b: int|
            0 <= a < mw && 0 <= b < mh && x == 2 * a + 1 && y == 2 * b + 1 && #[trigger] nid(
                mw,
                a,
                b,
            ) < k;
        assert(nid(mw, a, b) < k + 1);
        assert(expected_node(mw, mh, k + 1, x, y));
    }
    if x == 2 * i + 1 && y == 2 * j + 1 {
        assert(nid(mw, i, j) < k + 1);
        assert(expected_node(mw, mh, k + 1, x, y));
    }
    if expected_link(mw, mh, pd, k + 1, x, y) {
        let (a, b) = choose|a: int, b: int|
            0 <= a < mw && 0 <= b < mh && !(a == 0 && b == 0) && #[trigger] nid(mw, a, b) < k + 1
                && (x, y) == link_of(a, b, pat(pd, a, b));
        if nid(mw, a, b) == k {
            lemma_nid_inj(mw, a, b, i, j);
        } else {
            assert(expected_link(mw, mh, pd, k, x, y));
        }
    }
    if expected_link(mw, mh, pd, k, x, y) {
        let (a, b) = choose|a: int, b: int|
            0 <= a < mw && 0 <= b < mh && !(a == 0 && b == 0) && #[trigger] nid(mw, a, b) < k && (
            x,
            y,
            ) == link_of(a, b, pat(pd, a, b));
        assert(nid(mw, a, b) < k + 1);
        assert(expected_link(mw, mh, pd, k + 1, x, y));
    }
    if !(i == 0 && j == 0) && (x, y) == link_of(i, j, pat(pd, i, j)) {
        assert(nid(mw, i, j) < k + 1);
        assert(expected_link(mw, mh, pd, k + 1, x, y));
    }
}

/// Open the cell of node `(i, j)` and, unless it is the root, the cell
/// toward its recorded parent.
#[verifier::rlimit(100)]
fn carve_node(
    width: usize,
    height: usize,
    m: &mut Maze,
    pdir: &Vec<Vec<Direction>>,
    ord: Ghost<Map<(int, int), nat>>,
    i: usize,
    j: usize,
)
    requires
        3 <= width < 65536,
        3 <= height < 65536,
        width % 2 == 1,
        height % 2 == 1,
        i < width / 2,
        j < height / 2,
        old(m).wf(),
        old(m).width == width,
        old(m).height == height,
        grid_wf(*pdir, width as int / 2, height as int / 2),
        spanning_ok(width as int / 2, height as int / 2, *pdir, ord@),
        carved_upto(
            *old(m),
            width as int / 2,
            height as int / 2,
            *pdir,
            nid(width as int / 2, i as int, j as int),
        ),
    ensures
        final(m).wf(),
        final(m).width == width,
        final(m).height == height,
        carved_upto(
            *final(m),
            width as int / 2,
            height as int / 2,
            *pdir,
            nid(width as int / 2, i as int, j as int) + 1,
        ),
{
    let ghost mw = width as int / 2;
    let ghost mh = height as int / 2;
    let ghost k = nid(mw, i as int, j as int);
    let x = 2 * i + 1;
    let y = 2 * j + 1;
    let ghost m0 = *m;
    m.set_cell(x, y, Cell::Path);
    if i == 0 && j == 0 {
        proof {
            assert forall|xx: int, yy: int| m.in_bounds(xx, yy) implies ((#[trigger] m.cell_at(
                xx,
                yy,
            )) == Cell::Path <==> expected_node(mw, mh, k + 1, xx, yy) || expected_link(
                mw,
                mh,
                *pdir,
                k + 1,
                xx,
                yy,
            )) by {
                lemma_expected_step(mw, mh, *pdir, i as int, j as int, xx, yy);
                if !(xx == x && yy == y) {
                    assert(m.cell_at(xx, yy) == m0.cell_at(xx, yy));
                }
            }
        }
    } else {
        proof {
            reveal(parent_ok);
            assert(parent_ok(mw, mh, *pdir, ord@, i as int, j as int));
        }
        let d = pdir[j][i];
        assert(d == pat(*pdir, i as int, j as int));
        let (lx, ly): (usize, usize) = match d {
            Direction::Up => (x, y - 1),
            Direction::Down => (x, y + 1),
            Direction::Left => (x - 1, y),
            Direction::Right => (x + 1, y),
        };
        assert(lx as int == x + dir_dx(d) && ly as int == y + dir_dy(d));
        let ghost m1 = *m;
        m.set_cell(lx, ly, Cell::Path);
        proof {
            assert forall|xx: int, yy: int| m.in_bounds(xx, yy) implies ((#[trigger] m.cell_at(
                xx,
                yy,
            )) == Cell::Path <==> expected_node(mw, mh, k + 1, xx, yy) || expected_link(
                mw,
                mh,
                *pdir,
                k + 1,
                xx,
                yy,
            )) by {
                lemma_expected_step(mw, mh, *pdir, i as int, j as int, xx, yy);
                assert((lx as int, ly as int) == link_of(i as int, j as int, d));
                if xx == x && yy == y {
                    assert(m.cell_at(xx, yy) == Cell::Path);
                } else if xx == lx as int && yy == ly as int {
                    assert(m.cell_at(xx, yy) == Cell::Path);
                } else {
                    assert(m.cell_at(xx, yy) == m1.cell_at(xx, yy));
                    assert(m1.cell_at(xx, yy) == m0.cell_at(xx, yy));
                }
            }
        }
    }
}

/// Carve the whole grid from the spanning structure, row by row.
#[verifier::rlimit(100)]
fn carve(
    width: usize,
    height: usize,
    pdir: &Vec<Vec<Direction>>,
    ord: Ghost<Map<(int, int), nat>>,
) -> (m: Maze)
    requires
        3 <= width < 65536,
        3 <= height < 65536,
        width % 2 == 1,
        height % 2 == 1,
        grid_wf(*pdir, width as int / 2, height as int / 2),
        spanning_ok(width as int / 2, height as int / 2, *pdir, ord@),
    ensures
        m.wf(),
        m.width == width,
        m.height == height,
        carved_upto(
            m,
            width as int / 2,
            height as int / 2,
            *pdir,
            (width as int / 2) * (height as int / 2),
        ),
{
    let mw = width / 2;
    let mh = height / 2;
    let mut m = Maze::new(width, height);
    proof {
        assert forall|xx: int, yy: int| m.in_bounds(xx, yy) implies ((#[trigger] m.cell_at(
            xx,
            yy,
        )) == Cell::Path <==> expected_node(mw as int, mh as int, 0, xx, yy) || expected_link(
            mw as int,
            mh as int,
            *pdir,
            0,
            xx,
            yy,
        )) by {
            reveal(expected_node);
            reveal(expected_link);
            if expected_node(mw as int, mh as int, 0, xx, yy) {
                let (a, b) = choose|a: int, b: int|
                    0 <= a < mw as int && 0 <= b < mh as int && xx == 2 * a + 1 && yy == 2 * b + 1
                        && #[trigger] nid(mw as int, a, b) < 0;
                lemma_nid_bounds(mw as int, mh as int, a, b);
            }
            if expected_link(mw as int, mh as int, *pdir, 0, xx, yy) {
                let (a, b) = choose|a: int, b: int|
                    0 <= a < mw as int && 0 <= b < mh as int && !(a == 0 && b == 0)
                        && #[trigger] nid(mw as int, a, b) < 0 && (xx, yy) == link_of(
                        a,
                        b,
                        pat(*pdir, a, b),
                    );
                lemma_nid_bounds(mw as int, mh as int, a, b);
            }
        }
    }
    let mut j: usize = 0;
    while j < mh
        invariant
            j <= mh,
            mw == width / 2,
            mh == height / 2,
            3 <= width < 65536,
            3 <= height < 65536,
            width % 2 == 1,
            height % 2 == 1,
            m.wf(),
            m.width == width,
            m.height == height,
            grid_wf(*pdir, mw as int, mh as int),
            spanning_ok(mw as int, mh as int, *pdir, ord@),
            carved_upto(m, mw as int, mh as int, *pdir, nid(mw as int, 0, j as int)),
        decreases mh - j,
    {
        let mut i: usize = 0;
        while i < mw
            invariant
                i <= mw,
                j < mh,
                mw == width / 2,
                mh == height / 2,
                3 <= width < 65536,
                3 <= height < 65536,
                width % 2 == 1,
                height % 2 == 1,
                m.wf(),
                m.width == width,
                m.height == height,
                grid_wf(*pdir, mw as int, mh as int),
                spanning_ok(mw as int, mh as int, *pdir, ord@),
                carved_upto(m, mw as int, mh as int, *pdir, nid(mw as int, i as int, j as int)),
            decreases mw - i,
        {
            carve_node(width, height, &mut m, pdir, ord, i, j);
            i = i + 1;
        }
        proof {
            assert(nid(mw as int, 0, j as int + 1) == nid(mw as int, mw as int, j as int))
                by (nonlinear_arith);
        }
        j = j + 1;
    }
    proof {
        assert(mh as int * mw as int == mw as int * mh as int) by (nonlinear_arith);
        assert(nid(mw as int, 0, mh as int) == (width as int / 2) * (height as int / 2));
    }
    m
}


// ---------------------------------------------------------------------------
// The carved grid is a tree over the lattice: every node cell is reachable
// from the start cell (connectivity), and the number of open passages is
// exactly one less than the number of nodes (acyclicity).
// ---------------------------------------------------------------------------

/// The grid cell of any lattice node is open after carving.
#[verifier::rlimit(100)]
proof fn lemma_cell_open_node(m: Maze, mw: int, mh: int, pd: Vec<Vec<Direction>>, i: int, j: int)
    requires
        m.wf(),
        m.width == 2 * mw + 1,
        m.height == 2 * mh + 1,
        1 <= mw,
        1 <= mh,
        carved_upto(m, mw, mh, pd, mw * mh),
        0 <= i < mw,
        0 <= j < mh,
    ensures
        m.is_path(2 * i + 1, 2 * j + 1),
{
    reveal(expected_node);
    lemma_nid_bounds(mw, mh, i, j);
    assert(expected_node(mw, mh, mw * mh, 2 * i + 1, 2 * j + 1));
    assert(m.in_bounds(2 * i + 1, 2 * j + 1));
    assert(m.cell_at(2 * i + 1, 2 * j + 1) == Cell::Path);
}

/// The parent-edge cell of any non-root lattice node is open after carving.
#[verifier::rlimit(100)]
proof fn lemma_cell_open_link(
    m: Maze,
    mw: int,
    mh: int,
    pd: Vec<Vec<Direction>>,
    ord: Map<(int, int), nat>,
    i: int,
    j: int,
)
    requires
        m.wf(),
        m.width == 2 * mw + 1,
        m.height == 2 * mh + 1,
        1 <= mw,
        1 <= mh,
        spanning_ok(mw, mh, pd, ord),
        carved_upto(m, mw, mh, pd, mw * mh),
        0 <= i < mw,
        0 <= j < mh,
        !(i == 0 && j == 0),
    ensures
        m.is_path(link_of(i, j, pat(pd, i, j)).0, link_of(i, j, pat(pd, i, j)).1),
{
    reveal(expected_link);
    reveal(parent_ok);
    assert(parent_ok(mw, mh, pd, ord, i, j));
    lemma_dir_unit(pat(pd, i, j));
    lemma_nid_bounds(mw, mh, i, j);
    let lc = link_of(i, j, pat(pd, i, j));
    assert(expected_link(mw, mh, pd, mw * mh, lc.0, lc.1));
    assert(m.in_bounds(lc.0, lc.1));
    assert(m.cell_at(lc.0, lc.1) == Cell::Path);
}

/// A walk extended by two further adjacent open cells is still a walk.
#[verifier::rlimit(100)]
proof fn lemma_walk_extend(m: Maze, w0: Seq<(int, int)>, p: (int, int), q: (int, int))
    requires
        m.is_walk(w0),
        m.is_path(p.0, p.1),
        m.is_path(q.0, q.1),
        step_adj(w0.last(), p),
        step_adj(p, q),
    ensures
        m.is_walk(w0 + seq![p, q]),
        (w0 + seq![p, q]).first() == w0.first(),
        (w0 + seq![p, q]).last() == q,
{
    let w = w0 + seq![p, q];
    assert forall|k: int| 0 <= k < w.len() implies m.is_path((#[trigger] w[k]).0, w[k].1) by {
        if k < w0.len() {
            assert(w[k] == w0[k]);
        } else if k == w0.len() {
            assert(w[k] == p);
        } else {
            assert(w[k] == q);
        }
    }
    assert forall|k: int| 0 <= k < w.len() - 1 implies step_adj(#[trigger] w[k], w[k + 1]) by {
        if k < w0.len() - 1 {
            assert(w[k] == w0[k] && w[k + 1] == w0[k + 1]);
        } else if k == w0.len() - 1 {
            assert(w[k] == w0.last() && w[k + 1] == p);
        } else {
            assert(w[k] == p && w[k + 1] == q);
        }
    }
}

/// Connectivity: following recorded parent edges leads every node back to
/// the root, and each such step crosses open cells only.
#[verifier::rlimit(100)]
proof fn lemma_node_reachable(
    m: Maze,
    mw: int,
    mh: int,
    pd: Vec<Vec<Direction>>,
    ord: Map<(int, int), nat>,
    i: int,
    j: int,
)
    requires
        m.wf(),
        m.width == 2 * mw + 1,
        m.height == 2 * mh + 1,
        1 <= mw,
        1 <= mh,
        grid_wf(pd, mw, mh),
        spanning_ok(mw, mh, pd, ord),
        carved_upto(m, mw, mh, pd, mw * mh),
        0 <= i < mw,
        0 <= j < mh,
    ensures
        m.reachable(2 * i + 1, 2 * j + 1),
    decreases ord[(i, j)],
{
    let x = 2 * i + 1;
    let y = 2 * j + 1;
    lemma_cell_open_node(m, mw, mh, pd, i, j);
    if i == 0 && j == 0 {
        let w = seq![(1int, 1int)];
        assert(m.is_walk(w));
        assert(w.first() == (1int, 1int) && w.last() == (x, y));
        assert(m.reachable(x, y));
    } else {
        let d = pat(pd, i, j);
        let pi = i + dir_dx(d);
        let pj = j + dir_dy(d);
        lemma_dir_unit(d);
        assert(0 <= pi < mw && 0 <= pj < mh && ord[(pi, pj)] < ord[(i, j)]) by {
            reveal(parent_ok);
            assert(parent_ok(mw, mh, pd, ord, i, j));
        }
        lemma_node_reachable(m, mw, mh, pd, ord, pi, pj);
        let w0 = choose|w: Seq<(int, int)>|
            m.is_walk(w) && w.first() == (1int, 1int) && w.last() == (2 * pi + 1, 2 * pj + 1);
        let lc = link_of(i, j, d);
        lemma_cell_open_link(m, mw, mh, pd, ord, i, j);
        lemma_walk_extend(m, w0, lc, (x, y));
        let w = w0 + seq![lc, (x, y)];
        assert(m.is_walk(w) && w.first() == (1int, 1int) && w.last() == (x, y));
        assert(m.reachable(x, y));
    }
}

/// The parent-edge cells of two distinct non-root nodes differ: the cell
/// between two adjacent nodes determines the pair, and two adjacent nodes
/// cannot be each other's parent.
#[verifier::rlimit(100)]
proof fn lemma_link_inj(
    mw: int,
    mh: int,
    pd: Vec<Vec<Direction>>,
    ord: Map<(int, int), nat>,
    i1: int,
    j1: int,
    i2: int,
    j2: int,
)
    requires
        spanning_ok(mw, mh, pd, ord),
        0 <= i1 < mw,
        0 <= j1 < mh,
        0 <= i2 < mw,
        0 <= j2 < mh,
        !(i1 == 0 && j1 == 0),
        !(i2 == 0 && j2 == 0),
        !(i1 == i2 && j1 == j2),
    ensures
        link_of(i1, j1, pat(pd, i1, j1)) != link_of(i2, j2, pat(pd, i2, j2)),
{
    reveal(parent_ok);
    assert(parent_ok(mw, mh, pd, ord, i1, j1));
    assert(parent_ok(mw, mh, pd, ord, i2, j2));
    let d1 = pat(pd, i1, j1);
    let d2 = pat(pd, i2, j2);
    lemma_dir_unit(d1);
    lemma_dir_unit(d2);
    if link_of(i1, j1, d1) == link_of(i2, j2, d2) {
        assert(2 * i1 + 1 + dir_dx(d1) == 2 * i2 + 1 + dir_dx(d2));
        assert(2 * j1 + 1 + dir_dy(d1) == 2 * j2 + 1 + dir_dy(d2));
        assert(false);
    }
}

/// The set of parent-edge cells of the non-root nodes indexed below `upto`.
spec fn links_upto(mw: int, mh: int, pd: Vec<Vec<Direction>>, upto: int) -> Set<(int, int)> {
    Set::new(|c: (int, int)| expected_link(mw, mh, pd, upto, c.0, c.1))
}

/// Acyclicity, counted: each non-root node contributes exactly one open
/// passage, and no two nodes contribute the same cell.
#[verifier::rlimit(100)]
proof fn lemma_links_count(
    mw: int,
    mh: int,
    pd: Vec<Vec<Direction>>,
    ord: Map<(int, int), nat>,
    upto: int,
)
    requires
        1 <= mw,
        1 <= mh,
        grid_wf(pd, mw, mh),
        spanning_ok(mw, mh, pd, ord),
        1 <= upto <= mw * mh,
    ensures
        links_upto(mw, mh, pd, upto).finite(),
        links_upto(mw, mh, pd, upto).len() == upto - 1,
    decreases upto,
{
    reveal(expected_link);
    if upto == 1 {
        assert(links_upto(mw, mh, pd, 1) =~= Set::<(int, int)>::empty()) by {
            assert forall|c: (int, int)| !(#[trigger] links_upto(mw, mh, pd, 1).contains(c)) by {
                if expected_link(mw, mh, pd, 1, c.0, c.1) {
                    let (a, b) = choose|a: int, b: int|
                        0 <= a < mw && 0 <= b < mh && !(a == 0 && b == 0) && #[trigger] nid(
                            mw,
                            a,
                            b,
                        ) < 1 && c == link_of(a, b, pat(pd, a, b));
                    lemma_nid_bounds(mw, mh, a, b);
                    lemma_nid_inj(mw, a, b, 0, 0);
                }
            }
        }
    } else {
        let k = upto - 1;
        lemma_nid_decomp(mw, mh, k);
        let i = k % mw;
        let j = k / mw;
        assert(!(i == 0 && j == 0)) by {
            if i == 0 && j == 0 {
                assert(nid(mw, 0, 0) == k);
            }
        }
        lemma_links_count(mw, mh, pd, ord, k);
        let c0 = link_of(i, j, pat(pd, i, j));
        assert(!links_upto(mw, mh, pd, k).contains(c0)) by {
            if expected_link(mw, mh, pd, k, c0.0, c0.1) {
                let (a, b) = choose|a: int, b: int|
                    0 <= a < mw && 0 <= b < mh && !(a == 0 && b == 0) && #[trigger] nid(mw, a, b)
                        < k && c0 == link_of(a, b, pat(pd, a, b));
                assert(!(a == i && b == j));
                lemma_link_inj(mw, mh, pd, ord, a, b, i, j);
            }
        }
        assert(links_upto(mw, mh, pd, upto) =~= links_upto(mw, mh, pd, k).insert(c0)) by {
            assert forall|c: (int, int)| #[trigger]
                links_upto(mw, mh, pd, upto).contains(c) implies links_upto(
                mw,
                mh,
                pd,
                k,
            ).insert(c0).contains(c) by {
                let (a, b) = choose|a: int, b: int|
                    0 <= a < mw && 0 <= b < mh && !(a == 0 && b == 0) && #[trigger] nid(mw, a, b)
                        < upto && c == link_of(a, b, pat(pd, a, b));
                if nid(mw, a, b) == k {
                    lemma_nid_inj(mw, a, b, i, j);
                    assert(c == c0);
                } else {
                    assert(expected_link(mw, mh, pd, k, c.0, c.1));
                }
            }
            assert forall|c: (int, int)| #[trigger]
                links_upto(mw, mh, pd, k).insert(c0).contains(c) implies links_upto(
                mw,
                mh,
                pd,
                upto,
            ).contains(c) by {
                if c == c0 {
                    assert(nid(mw, i, j) < upto);
                    assert(expected_link(mw, mh, pd, upto, c.0, c.1));
                } else {
                    let (a, b) = choose|a: int, b: int|
                        0 <= a < mw && 0 <= b < mh && !(a == 0 && b == 0) && #[trigger] nid(
                            mw,
                            a,
                            b,
                        ) < k && c == link_of(a, b, pat(pd, a, b));
                    assert(nid(mw, a, b) < upto);
                    assert(expected_link(mw, mh, pd, upto, c.0, c.1));
                }
            }
        }
    }
}


// ---------------------------------------------------------------------------
// The generator's public face.
// ---------------------------------------------------------------------------

/// Any odd/odd in-bounds cell is the cell of a lattice node.
#[verifier::rlimit(100)]
proof fn lemma_final_node(
    m: Maze,
    mw: int,
    mh: int,
    pd: Vec<Vec<Direction>>,
    ord: Map<(int, int), nat>,
    x: int,
    y: int,
)
    requires
        m.wf(),
        m.width == 2 * mw + 1,
        m.height == 2 * mh + 1,
        1 <= mw,
        1 <= mh,
        grid_wf(pd, mw, mh),
        spanning_ok(mw, mh, pd, ord),
        carved_upto(m, mw, mh, pd, mw * mh),
        m.is_node_cell(x, y),
    ensures
        m.cell_at(x, y) == Cell::Path,
        m.reachable(x, y),
{
    let i = x / 2;
    let j = y / 2;
    assert(x == 2 * i + 1 && y == 2 * j + 1);
    assert(0 <= i < mw && 0 <= j < mh);
    lemma_cell_open_node(m, mw, mh, pd, i, j);
    lemma_node_reachable(m, mw, mh, pd, ord, i, j);
}

/// Every open cell is either a node cell or a passage cell.
#[verifier::rlimit(100)]
proof fn lemma_final_shape(
    m: Maze,
    mw: int,
    mh: int,
    pd: Vec<Vec<Direction>>,
    ord: Map<(int, int), nat>,
    x: int,
    y: int,
)
    requires
        m.wf(),
        m.width == 2 * mw + 1,
        m.height == 2 * mh + 1,
        1 <= mw,
        1 <= mh,
        grid_wf(pd, mw, mh),
        spanning_ok(mw, mh, pd, ord),
        carved_upto(m, mw, mh, pd, mw * mh),
        m.is_path(x, y),
    ensures
        m.is_node_cell(x, y) || m.is_link_pos(x, y),
{
    reveal(expected_node);
    reveal(expected_link);
    assert(m.cell_at(x, y) == Cell::Path);
    if expected_node(mw, mh, mw * mh, x, y) {
        let (a, b) = choose|a: int, b: int|
            0 <= a < mw && 0 <= b < mh && x == 2 * a + 1 && y == 2 * b + 1 && #[trigger] nid(
                mw,
                a,
                b,
            ) < mw * mh;
        assert(m.is_node_cell(x, y));
    } else {
        let (a, b) = choose|a: int, b: int|
            0 <= a < mw && 0 <= b < mh && !(a == 0 && b == 0) && #[trigger] nid(mw, a, b) < mw * mh
                && (x, y) == link_of(a, b, pat(pd, a, b));
        assert(parent_ok(mw, mh, pd, ord, a, b));
        reveal(parent_ok);
        lemma_dir_unit(pat(pd, a, b));
        assert(m.is_link_pos(x, y));
    }
}

/// The open passages of the carved grid are exactly the parent-edge cells
/// of the non-root nodes.
#[verifier::rlimit(100)]
proof fn lemma_open_links_eq(
    m: Maze,
    mw: int,
    mh: int,
    pd: Vec<Vec<Direction>>,
    ord: Map<(int, int), nat>,
)
    requires
        m.wf(),
        m.width == 2 * mw + 1,
        m.height == 2 * mh + 1,
        1 <= mw,
        1 <= mh,
        grid_wf(pd, mw, mh),
        spanning_ok(mw, mh, pd, ord),
        carved_upto(m, mw, mh, pd, mw * mh),
    ensures
        m.open_links() == links_upto(mw, mh, pd, mw * mh),
{
    reveal(expected_node);
    reveal(expected_link);
    assert forall|c: (int, int)| #[trigger]
        m.open_links().contains(c) implies links_upto(mw, mh, pd, mw * mh).contains(c) by {
        assert(m.in_bounds(c.0, c.1));
        assert(m.cell_at(c.0, c.1) == Cell::Path);
        if expected_node(mw, mh, mw * mh, c.0, c.1) {
            let (a, b) = choose|a: int, b: int|
                0 <= a < mw && 0 <= b < mh && c.0 == 2 * a + 1 && c.1 == 2 * b + 1 && #[trigger] nid(
                    mw,
                    a,
                    b,
                ) < mw * mh;
            assert(false);
        }
    }
    assert forall|c: (int, int)| #[trigger]
        links_upto(mw, mh, pd, mw * mh).contains(c) implies m.open_links().contains(c) by {
        let (a, b) = choose|a: int, b: int|
            0 <= a < mw && 0 <= b < mh && !(a == 0 && b == 0) && #[trigger] nid(mw, a, b) < mw * mh
                && c == link_of(a, b, pat(pd, a, b));
        assert(parent_ok(mw, mh, pd, ord, a, b));
        reveal(parent_ok);
        lemma_dir_unit(pat(pd, a, b));
        assert(m.is_link_pos(c.0, c.1));
        assert(m.in_bounds(c.0, c.1));
        assert(m.cell_at(c.0, c.1) == Cell::Path);
    }
    assert(m.open_links() =~= links_upto(mw, mh, pd, mw * mh));
}

impl Maze {
    /// Generate a random perfect maze of the given odd dimensions.
    ///
    /// Every odd/odd cell carries a lattice node and is open; every other
    /// open cell is a passage between two adjacent node cells; every node
    /// cell is reachable from the start cell `(1, 1)`; and the number of
    /// open passages is exactly one less than the number of nodes, so the
    /// open cells form a spanning tree of the lattice: connected and free
    /// of cycles.
    #[verifier::rlimit(100)]
    pub fn random_perfect(width: usize, height: usize) -> (m: Maze)
        requires
            3 <= width < 65536,
            3 <= height < 65536,
            width % 2 == 1,
            height % 2 == 1,
        ensures
            m.wf(),
            m.width == width,
            m.height == height,
            forall|x: int, y: int| #[trigger] m.is_node_cell(x, y) ==> m.cell_at(x, y) == Cell::Path,
            forall|x: int, y: int| #[trigger] m.is_path(x, y) ==> m.is_node_cell(x, y) || m.is_link_pos(x, y),
            forall|x: int, y: int| #[trigger] m.is_node_cell(x, y) ==> m.reachable(x, y),
            m.open_links().finite(),
            m.open_links().len() == (width as int / 2) * (height as int / 2) - 1,
    {
        let mw = width / 2;
        let mh = height / 2;
        let (pdir, ord) = build_spanning(mw, mh);
        let m = carve(width, height, &pdir, ord);
        proof {
            let mwi = mw as int;
            let mhi = mh as int;
            assert(m.width == 2 * mwi + 1 && m.height == 2 * mhi + 1);
            assert forall|x: int, y: int| #[trigger] m.is_node_cell(x, y) implies m.cell_at(x, y)
                == Cell::Path && m.reachable(x, y) by {
                lemma_final_node(m, mwi, mhi, pdir, ord@, x, y);
            }
            assert forall|x: int, y: int| #[trigger] m.is_path(x, y) implies m.is_node_cell(x, y)
                || m.is_link_pos(x, y) by {
                lemma_final_shape(m, mwi, mhi, pdir, ord@, x, y);
            }
            lemma_open_links_eq(m, mwi, mhi, pdir, ord@);
            assert(1 <= mwi * mhi) by (nonlinear_arith)
                requires
                    1 <= mwi,
                    1 <= mhi,
            ;
            lemma_links_count(mwi, mhi, pdir, ord@, mwi * mhi);
        }
        m
    }
}

/// Pick a goal cell uniformly among the node cells: both coordinates odd
/// and in bounds, so on any maze the generator returns, the goal is open
/// and reachable.
pub fn random_goal(width: usize, height: usize) -> (g: (usize, usize))
    requires
        3 <= width < 65536,
        3 <= height < 65536,
        width % 2 == 1,
        height % 2 == 1,
    ensures
        g.0 < width,
        g.1 < height,
        g.0 % 2 == 1,
        g.1 % 2 == 1,
{
    let gx = 2 * rand_below(width / 2) + 1;
    let gy = 2 * rand_below(height / 2) + 1;
    (gx, gy)
}

} // verus!
