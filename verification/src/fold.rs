//! The folding engine: candidate solid dimensions, paths across the flat
//! grid, replay of paths over the box surface, clue-geometry validation and
//! the final numeric answer.

use vstd::prelude::*;
use crate::geom::{Vec2, Vec3, BoxFaceType, dir_dx, dir_dy, dir_delta, is_dir, NORTH, EAST, SOUTH,
    WEST, DIM_MAX};
use crate::cellset::{CellSet, lemma_dim_area, lemma_count_true_le_len};
use crate::clues::{BoxNumber, in_grid};
use crate::solid::{BoxFaceCoord, BoxSolid, TraverseError};
use crate::grid::BoxGrid;

verus! {

/// x coordinate after walking the first `i` steps of `dirs` from `start`.
pub open spec fn walk_x(start: Vec2, dirs: Seq<usize>, i: int) -> int
    decreases i,
{
    if i <= 0 {
        start.x as int
    } else {
        walk_x(start, dirs, i - 1) + dir_dx(dirs[i - 1])
    }
}

/// y coordinate after walking the first `i` steps of `dirs` from `start`.
pub open spec fn walk_y(start: Vec2, dirs: Seq<usize>, i: int) -> int
    decreases i,
{
    if i <= 0 {
        start.y as int
    } else {
        walk_y(start, dirs, i - 1) + dir_dy(dirs[i - 1])
    }
}

/// `dirs` is a walk from `start` to `end` whose every step lands on a
/// known-box cell.
pub open spec fn path_ok(kg: CellSet, start: Vec2, end: Vec2, dirs: Seq<usize>) -> bool {
    &&& forall|i: int| #![trigger dirs[i]] 0 <= i < dirs.len() ==> is_dir(dirs[i])
    &&& forall|i: int|
        #![trigger walk_x(start, dirs, i)]
        1 <= i <= dirs.len() ==> kg.has(walk_x(start, dirs, i), walk_y(start, dirs, i))
    &&& walk_x(start, dirs, dirs.len() as int) == end.x as int
    &&& walk_y(start, dirs, dirs.len() as int) == end.y as int
}

/// Extending a walk does not change the cells its prefix visits.
pub proof fn lemma_walk_push(start: Vec2, dirs: Seq<usize>, d: usize, i: int)
    requires
        0 <= i <= dirs.len(),
    ensures
        walk_x(start, dirs.push(d), i) == walk_x(start, dirs, i),
        walk_y(start, dirs.push(d), i) == walk_y(start, dirs, i),
    decreases i,
{
    if i > 0 {
        lemma_walk_push(start, dirs, d, i - 1);
        assert(dirs.push(d)[i - 1] == dirs[i - 1]);
    }
}

/// A copy of a direction list.
fn copy_dirs(v: &Vec<usize>) -> (r: Vec<usize>)
    ensures
        r@ == v@,
{
    let mut r: Vec<usize> = Vec::new();
    let mut i: usize = 0;
    while i < v.len()
        invariant
            i <= v@.len(),
            r@ == v@.subrange(0, i as int),
        decreases v@.len() - i,
    {
        r.push(v[i]);
        proof {
            assert(r@ =~= v@.subrange(0, i + 1));
        }
        i = i + 1;
    }
    proof {
        assert(r@ =~= v@);
    }
    r
}

/// Surface area of a box of dimensions `x`, `y`, `z`.
pub open spec fn surface_area(x: int, y: int, z: int) -> int {
    2 * (x * y + y * z + x * z)
}

/// The direction list describes a walk whose steps are all directions and
/// whose cells after the start are all known-box cells; nothing is asked
/// of the start cell itself.
spec fn walk_in(kg: CellSet, start: Vec2, dirs: Seq<usize>) -> bool {
    &&& forall|i: int| #![trigger dirs[i]] 0 <= i < dirs.len() ==> is_dir(dirs[i])
    &&& forall|i: int|
        #![trigger walk_x(start, dirs, i)]
        1 <= i <= dirs.len() ==> kg.has(walk_x(start, dirs, i), walk_y(start, dirs, i))
}

/// Some nonempty direction list is a valid box-cell walk from `start`
/// to `end`.
pub open spec fn has_box_walk(kg: CellSet, start: Vec2, end: Vec2) -> bool {
    exists|dirs: Seq<usize>| dirs.len() >= 1 && path_ok(kg, start, end, dirs)
}

/// Every box-cell walk from `start` shorter than `bound` ends on a cell
/// of `v`.
spec fn short_walks_visited(kg: CellSet, start: Vec2, v: CellSet, bound: int) -> bool {
    forall|dirs: Seq<usize>|
        #![trigger walk_in(kg, start, dirs)]
        walk_in(kg, start, dirs) && dirs.len() < bound ==> v.has(
            walk_x(start, dirs, dirs.len() as int),
            walk_y(start, dirs, dirs.len() as int),
        )
}

/// No box-cell walk from `start` to `c` is shorter than `plen`.
spec fn entry_minimal(kg: CellSet, start: Vec2, c: Vec2, plen: int) -> bool {
    forall|dirs: Seq<usize>|
        #![trigger walk_in(kg, start, dirs)]
        walk_in(kg, start, dirs) && walk_x(start, dirs, dirs.len() as int) == c.x as int
            && walk_y(start, dirs, dirs.len() as int) == c.y as int ==> plen <= dirs.len()
}

/// A prefix of a direction list walks through the same cells.
proof fn lemma_walk_prefix(start: Vec2, dirs: Seq<usize>, k: int, i: int)
    requires
        0 <= i <= k <= dirs.len(),
    ensures
        walk_x(start, dirs.take(k), i) == walk_x(start, dirs, i),
        walk_y(start, dirs.take(k), i) == walk_y(start, dirs, i),
    decreases i,
{
    if i > 0 {
        lemma_walk_prefix(start, dirs, k, i - 1);
        assert(dirs.take(k)[i - 1] == dirs[i - 1]);
    }
}

/// Any set of cells containing the start of a box-cell walk and closed
/// under stepping to adjacent box cells contains every cell of the walk.
proof fn lemma_walk_closed(kg: CellSet, v: CellSet, start: Vec2, dirs: Seq<usize>, i: int)
    requires
        0 <= i <= dirs.len(),
        walk_in(kg, start, dirs),
        v.has(start.x as int, start.y as int),
        forall|a: int, b: int, c: int, d: int|
            #![trigger v.has(a, b), crate::reach::adjacent(a, b, c, d)]
            v.has(a, b) && crate::reach::adjacent(a, b, c, d) && kg.has(c, d) ==> v.has(c, d),
    ensures
        v.has(walk_x(start, dirs, i), walk_y(start, dirs, i)),
    decreases i,
{
    if i > 0 {
        lemma_walk_closed(kg, v, start, dirs, i - 1);
        let d = dirs[i - 1];
        assert(is_dir(d));
        assert(crate::reach::adjacent(walk_x(start, dirs, i - 1), walk_y(start, dirs, i - 1),
            walk_x(start, dirs, i), walk_y(start, dirs, i)));
        assert(kg.has(walk_x(start, dirs, i), walk_y(start, dirs, i)));
    }
}

impl BoxGrid {
    /// Find a path within the box-cell set on the grid between
    /// `start_coord` and `end_coord` and return the path as a sequence of
    /// directions, found breadth-first. A nonempty result is a valid
    /// box-cell walk from start to end and no valid walk is shorter; the
    /// result is empty exactly when the two coincide or no box-cell walk
    /// connects them.
    #[verifier::rlimit(100)]
    pub fn grid_traverse(known_good: &CellSet, start_coord: Vec2, end_coord: Vec2) -> (r: Vec<
        usize>)
        requires
            known_good.wf(),
            start_coord.spec_in_bounds(known_good.dim),
        ensures
            r@.len() > 0 ==> path_ok(*known_good, start_coord, end_coord, r@),
            r@.len() > 0 ==> forall|dirs: Seq<usize>|
                path_ok(*known_good, start_coord, end_coord, dirs) ==> r@.len() <= dirs.len(),
            r@.len() == 0 <==> (start_coord.x == end_coord.x && start_coord.y == end_coord.y)
                || !has_box_walk(*known_good, start_coord, end_coord),
    {
        let dim = known_good.dim;
        if start_coord.x == end_coord.x && start_coord.y == end_coord.y {
            return Vec::new();
        }
        let mut visited = CellSet::new(dim);
        let mut processed = CellSet::new(dim);
        let mut queue: Vec<(Vec2, Vec<usize>)> = Vec::new();
        visited.insert(start_coord.x as usize, start_coord.y as usize);
        queue.push((start_coord, Vec::new()));
        let mut qi: usize = 0;
        proof {
            assert forall|x: int, y: int|
                #![trigger visited.has(x, y)]
                visited.has(x, y) implies processed.has(x, y) || exists|j: int|
                qi <= j < queue@.len() && queue@[j].0.x == x && queue@[j].0.y == y by {
                assert(qi <= 0 < queue@.len() && queue@[0].0.x == x && queue@[0].0.y == y);
            }
        }
        while qi < queue.len()
            invariant
                known_good.wf(),
                known_good.dim == dim,
                visited.wf(),
                visited.dim == dim,
                processed.wf(),
                processed.dim == dim,
                start_coord.spec_in_bounds(dim),
                !(start_coord.x == end_coord.x && start_coord.y == end_coord.y),
                qi <= queue@.len(),
                visited.count == processed.count + (queue@.len() - qi),
                visited.count <= dim * dim,
                !visited.has(end_coord.x as int, end_coord.y as int),
                visited.has(start_coord.x as int, start_coord.y as int),
                forall|j: int|
                    #![trigger queue@[j]]
                    0 <= j < queue@.len() ==> queue@[j].0.spec_in_bounds(dim) && visited.has(
                        queue@[j].0.x as int,
                        queue@[j].0.y as int,
                    ) && path_ok(*known_good, start_coord, queue@[j].0, queue@[j].1@),
                forall|j: int|
                    #![trigger queue@[j]]
                    qi <= j < queue@.len() ==> !processed.has(queue@[j].0.x as int,
                    queue@[j].0.y as int),
                forall|j1: int, j2: int|
                    0 <= j1 < j2 < queue@.len() ==> !(queue@[j1].0.x == queue@[j2].0.x
                        && queue@[j1].0.y == queue@[j2].0.y),
                forall|x: int, y: int|
                    #![trigger processed.has(x, y)]
                    processed.has(x, y) ==> visited.has(x, y),
                forall|a: int, b: int, c: int, d: int|
                    #![trigger processed.has(a, b), crate::reach::adjacent(a, b, c, d)]
                    processed.has(a, b) && crate::reach::adjacent(a, b, c, d) && known_good.has(
                        c,
                        d,
                    ) ==> visited.has(c, d),
                forall|j1: int, j2: int|
                    #![trigger queue@[j1], queue@[j2]]
                    0 <= j1 <= j2 < queue@.len() ==> queue@[j1].1@.len() <= queue@[j2].1@.len(),
                forall|j1: int, j2: int|
                    #![trigger queue@[j1], queue@[j2]]
                    qi <= j1 < queue@.len() && qi <= j2 < queue@.len() ==> queue@[j2].1@.len()
                        <= queue@[j1].1@.len() + 1,
                qi < queue@.len() ==> short_walks_visited(*known_good, start_coord, visited,
                    queue@[qi as int].1@.len() as int),
                forall|j: int|
                    #![trigger queue@[j]]
                    0 <= j < queue@.len() ==> entry_minimal(*known_good, start_coord,
                        queue@[j].0, queue@[j].1@.len() as int),
                forall|x: int, y: int|
                    #![trigger visited.has(x, y)]
                    visited.has(x, y) ==> processed.has(x, y) || exists|j: int|
                        qi <= j < queue@.len() && queue@[j].0.x == x && queue@[j].0.y == y,
            decreases dim * dim - processed.count,
        {
            let ghost queue0 = queue@;
            let ghost visited0 = visited;
            let ghost processed0 = processed;
            let c = queue[qi].0;
            let ghost dq = queue@[qi as int].1@.len() as int;
            proof {
                crate::cellset::lemma_count_true_le_len(processed.cells@);
                lemma_dim_area(dim as int);
            }
            processed.insert(c.x as usize, c.y as usize);
            let mut di: usize = 0;
            let dirs4 = crate::geom::dir_list();
            while di < 4
                invariant
                    known_good.wf(),
                    known_good.dim == dim,
                    visited.wf(),
                    visited.dim == dim,
                    processed.wf(),
                    processed.dim == dim,
                    start_coord.spec_in_bounds(dim),
                    !(start_coord.x == end_coord.x && start_coord.y == end_coord.y),
                    di <= 4,
                    dirs4@.len() == 4,
                    dirs4@[0] == NORTH && dirs4@[1] == EAST && dirs4@[2] == SOUTH && dirs4@[3]
                        == WEST,
                    qi < queue@.len(),
                    forall|x: int, y: int|
                        #![trigger processed.has(x, y)]
                        processed.has(x, y) == (processed0.has(x, y) || (x == c.x && y == c.y)),
                    processed.count == processed0.count + 1,
                    visited.count - visited0.count == queue@.len() - queue0.len(),
                    visited.count >= visited0.count,
                    visited.count <= dim * dim,
                    !visited.has(end_coord.x as int, end_coord.y as int),
                    visited.has(start_coord.x as int, start_coord.y as int),
                    c == queue@[qi as int].0,
                    c.spec_in_bounds(dim),
                    path_ok(*known_good, start_coord, c, queue@[qi as int].1@),
                    forall|x: int, y: int|
                        #![trigger visited0.has(x, y)]
                        visited0.has(x, y) ==> visited.has(x, y),
                    forall|j: int|
                        #![trigger queue@[j]]
                        0 <= j < queue0.len() ==> queue@[j] == queue0[j],
                    queue@.len() >= queue0.len(),
                    forall|j: int|
                        #![trigger queue@[j]]
                        0 <= j < queue@.len() ==> queue@[j].0.spec_in_bounds(dim) && visited.has(
                            queue@[j].0.x as int,
                            queue@[j].0.y as int,
                        ) && path_ok(*known_good, start_coord, queue@[j].0, queue@[j].1@),
                    forall|j: int|
                        #![trigger queue@[j]]
                        qi + 1 <= j < queue@.len() ==> !processed.has(queue@[j].0.x as int,
                        queue@[j].0.y as int),
                    forall|j1: int, j2: int|
                        0 <= j1 < j2 < queue@.len() ==> !(queue@[j1].0.x == queue@[j2].0.x
                            && queue@[j1].0.y == queue@[j2].0.y),
                    forall|x: int, y: int|
                        #![trigger processed.has(x, y)]
                        processed.has(x, y) ==> visited.has(x, y),
                    forall|a: int, b: int, cc: int, dd: int|
                        #![trigger processed0.has(a, b), crate::reach::adjacent(a, b, cc, dd)]
                        processed0.has(a, b) && crate::reach::adjacent(a, b, cc, dd)
                            && known_good.has(cc, dd) ==> visited0.has(cc, dd),
                    forall|k2: int|
                        #![trigger dirs4@[k2]]
                        0 <= k2 < di ==> {
                            let nx = c.x + crate::geom::dir_dx(dirs4@[k2]);
                            let ny = c.y + crate::geom::dir_dy(dirs4@[k2]);
                            known_good.has(nx, ny) ==> visited.has(nx, ny)
                        },
                    dq == queue@[qi as int].1@.len(),
                    forall|j1: int, j2: int|
                        #![trigger queue@[j1], queue@[j2]]
                        0 <= j1 <= j2 < queue@.len() ==> queue@[j1].1@.len()
                            <= queue@[j2].1@.len(),
                    forall|j1: int, j2: int|
                        #![trigger queue@[j1], queue@[j2]]
                        qi <= j1 < queue@.len() && qi <= j2 < queue@.len() ==> queue@[j2].1@.len()
                            <= queue@[j1].1@.len() + 1,
                    short_walks_visited(*known_good, start_coord, visited, dq),
                    forall|j: int|
                        #![trigger queue@[j]]
                        0 <= j < queue@.len() ==> entry_minimal(*known_good, start_coord,
                            queue@[j].0, queue@[j].1@.len() as int),
                    forall|x: int, y: int|
                        #![trigger visited.has(x, y)]
                        visited.has(x, y) ==> processed.has(x, y) || exists|j: int|
                            qi <= j < queue@.len() && queue@[j].0.x == x && queue@[j].0.y == y,
                decreases 4 - di,
            {
                let d = dirs4[di];
                let nc = c.plus(dir_delta(d));
                if nc.in_bounds(dim) && known_good.contains_v2(nc) && !visited.contains(
                    nc.x as usize,
                    nc.y as usize,
                ) {
                    let mut np = copy_dirs(&queue[qi].1);
                    np.push(d);
                    proof {
                        let ghost qp = queue@[qi as int].1@;
                        assert(np@ == qp.push(d));
                        assert forall|i: int|
                            #![trigger walk_x(start_coord, np@, i)]
                            1 <= i <= np@.len() implies known_good.has(walk_x(start_coord, np@,
                        i), walk_y(start_coord, np@, i)) by {
                            if i <= qp.len() {
                                lemma_walk_push(start_coord, qp, d, i);
                            } else {
                                lemma_walk_push(start_coord, qp, d, i - 1);
                                assert(np@[i - 1] == d);
                                assert(walk_x(start_coord, np@, i) == walk_x(start_coord, qp,
                                    i - 1) + crate::geom::dir_dx(d));
                                assert(walk_x(start_coord, qp, qp.len() as int) == c.x as int);
                                assert(nc.x == c.x + crate::geom::dir_dx(d) && nc.y == c.y
                                    + crate::geom::dir_dy(d));
                            }
                        }
                        assert forall|i: int| #![trigger np@[i]] 0 <= i < np@.len()
                            implies is_dir(np@[i]) by {
                            if i < qp.len() {
                                assert(np@[i] == qp[i]);
                            }
                        }
                        lemma_walk_push(start_coord, qp, d, qp.len() as int);
                        assert(walk_x(start_coord, np@, np@.len() as int) == nc.x as int);
                        assert(walk_y(start_coord, np@, np@.len() as int) == nc.y as int);
                        assert(path_ok(*known_good, start_coord, nc, np@));
                        // No box-cell walk reaches the new cell in `dq`
                        // steps or fewer: a shorter walk would end on a
                        // visited cell, and a walk of exactly `dq` steps
                        // would pass next-to-last through a cell whose
                        // recorded path is at most `dq - 1` steps, though
                        // every unprocessed cell's path has at least `dq`.
                        assert forall|dirs: Seq<usize>|
                            #![trigger walk_in(*known_good, start_coord, dirs)]
                            walk_in(*known_good, start_coord, dirs) && walk_x(start_coord, dirs,
                                dirs.len() as int) == nc.x as int && walk_y(start_coord, dirs,
                                dirs.len() as int) == nc.y as int implies np@.len()
                            <= dirs.len() by {
                            if (dirs.len() as int) < dq {
                                assert(visited.has(nc.x as int, nc.y as int));
                                assert(false);
                            } else if dirs.len() as int == dq {
                                if dq == 0 {
                                    assert(visited.has(nc.x as int, nc.y as int));
                                    assert(false);
                                } else {
                                    let pre = dirs.take(dq - 1);
                                    assert forall|i: int|
                                        #![trigger walk_x(start_coord, pre, i)]
                                        1 <= i <= pre.len() implies known_good.has(walk_x(
                                        start_coord, pre, i), walk_y(start_coord, pre, i)) by {
                                        lemma_walk_prefix(start_coord, dirs, dq - 1, i);
                                    }
                                    assert forall|i: int| #![trigger pre[i]] 0 <= i < pre.len()
                                        implies is_dir(pre[i]) by {
                                        assert(pre[i] == dirs[i]);
                                    }
                                    assert(walk_in(*known_good, start_coord, pre));
                                    lemma_walk_prefix(start_coord, dirs, dq - 1, dq - 1);
                                    let zx = walk_x(start_coord, dirs, dq - 1);
                                    let zy = walk_y(start_coord, dirs, dq - 1);
                                    assert(visited.has(zx, zy));
                                    if processed.has(zx, zy) {
                                        if zx == c.x as int && zy == c.y as int {
                                            assert(entry_minimal(*known_good, start_coord,
                                                queue@[qi as int].0, dq));
                                            assert(dq <= pre.len());
                                            assert(false);
                                        } else {
                                            assert(processed0.has(zx, zy));
                                            let d2 = dirs[dq - 1];
                                            assert(is_dir(d2));
                                            assert(crate::reach::adjacent(zx, zy, nc.x as int,
                                                nc.y as int));
                                            assert(visited0.has(nc.x as int, nc.y as int));
                                            assert(false);
                                        }
                                    } else {
                                        let j = choose|j: int|
                                            qi <= j < queue@.len() && queue@[j].0.x == zx
                                                && queue@[j].0.y == zy;
                                        assert(entry_minimal(*known_good, start_coord,
                                            queue@[j].0, queue@[j].1@.len() as int));
                                        assert(queue@[j].1@.len() <= pre.len());
                                        assert(queue@[qi as int].1@.len()
                                            <= queue@[j].1@.len());
                                        assert(false);
                                    }
                                }
                            }
                        }
                        assert(entry_minimal(*known_good, start_coord, nc, np@.len() as int));
                    }
                    if nc.x == end_coord.x && nc.y == end_coord.y {
                        proof {
                            assert forall|dirs: Seq<usize>|
                                path_ok(*known_good, start_coord, end_coord, dirs) implies np@.len()
                                <= dirs.len() by {
                                assert(walk_in(*known_good, start_coord, dirs));
                            }
                            assert(np@.len() >= 1 && path_ok(*known_good, start_coord, end_coord,
                                np@));
                            assert(has_box_walk(*known_good, start_coord, end_coord));
                        }
                        return np;
                    }
                    proof {
                        crate::cellset::lemma_count_true_le_len(visited.cells@);
                        lemma_dim_area(dim as int);
                    }
                    let ghost visited1 = visited;
                    visited.insert(nc.x as usize, nc.y as usize);
                    proof {
                        crate::cellset::lemma_count_true_le_len(visited.cells@);
                    }
                    let ghost queue1 = queue@;
                    queue.push((nc, np));
                    proof {
                        assert forall|j: int|
                            #![trigger queue@[j]]
                            0 <= j < queue@.len() implies queue@[j].0.spec_in_bounds(dim)
                            && visited.has(queue@[j].0.x as int, queue@[j].0.y as int) && path_ok(
                            *known_good,
                            start_coord,
                            queue@[j].0,
                            queue@[j].1@,
                        ) by {
                            if j < queue@.len() - 1 {
                                assert(queue@[j] == queue1[j]);
                            } else {
                                assert(queue@[j] == (nc, np));
                            }
                        }
                        assert forall|j1: int, j2: int|
                            0 <= j1 < j2 < queue@.len() implies !(queue@[j1].0.x
                            == queue@[j2].0.x && queue@[j1].0.y == queue@[j2].0.y) by {
                            if j2 < queue@.len() - 1 {
                                assert(queue@[j1] == queue1[j1] && queue@[j2] == queue1[j2]);
                            } else {
                                assert(queue@[j1] == queue1[j1]);
                                assert(visited0.has(queue1[j1].0.x as int, queue1[j1].0.y as int)
                                    || visited.has(queue1[j1].0.x as int,
                                    queue1[j1].0.y as int));
                            }
                        }
                        assert forall|dirs: Seq<usize>|
                            #![trigger walk_in(*known_good, start_coord, dirs)]
                            walk_in(*known_good, start_coord, dirs) && dirs.len() < dq
                            implies visited.has(walk_x(start_coord, dirs, dirs.len() as int),
                        walk_y(start_coord, dirs, dirs.len() as int)) by {
                            assert(visited1.has(walk_x(start_coord, dirs, dirs.len() as int),
                                walk_y(start_coord, dirs, dirs.len() as int)));
                        }
                        assert forall|j: int| #![trigger queue@[j]] 0 <= j < queue@.len()
                            implies entry_minimal(*known_good, start_coord, queue@[j].0,
                        queue@[j].1@.len() as int) by {
                            if j < queue@.len() - 1 {
                                assert(queue@[j] == queue1[j]);
                            } else {
                                assert(queue@[j] == (nc, np));
                            }
                        }
                        assert forall|j1: int, j2: int|
                            #![trigger queue@[j1], queue@[j2]]
                            0 <= j1 <= j2 < queue@.len() implies queue@[j1].1@.len()
                            <= queue@[j2].1@.len() by {
                            if j2 < queue@.len() - 1 {
                                assert(queue@[j1] == queue1[j1] && queue@[j2] == queue1[j2]);
                            } else if j1 < queue@.len() - 1 {
                                assert(queue@[j1] == queue1[j1]);
                                assert(queue@[j2] == (nc, np));
                                if qi <= j1 {
                                    assert(queue1[j1].1@.len() <= queue1[qi as int].1@.len()
                                        + 1);
                                } else {
                                    assert(queue1[j1].1@.len() <= queue1[qi as int].1@.len());
                                }
                            }
                        }
                        assert forall|j1: int, j2: int|
                            #![trigger queue@[j1], queue@[j2]]
                            qi <= j1 < queue@.len() && qi <= j2 < queue@.len()
                            implies queue@[j2].1@.len() <= queue@[j1].1@.len() + 1 by {
                            if j1 < queue@.len() - 1 && j2 < queue@.len() - 1 {
                                assert(queue@[j1] == queue1[j1] && queue@[j2] == queue1[j2]);
                            } else if j2 == queue@.len() - 1 && j1 < queue@.len() - 1 {
                                assert(queue@[j1] == queue1[j1]);
                                assert(queue@[j2] == (nc, np));
                                assert(queue1[qi as int].1@.len() <= queue1[j1].1@.len());
                            } else {
                                assert(queue@[j1] == (nc, np));
                                if j2 < queue@.len() - 1 {
                                    assert(queue@[j2] == queue1[j2]);
                                    assert(queue1[j2].1@.len() <= queue1[qi as int].1@.len()
                                        + 1);
                                }
                            }
                        }
                        assert forall|x: int, y: int|
                            #![trigger visited.has(x, y)]
                            visited.has(x, y) implies processed.has(x, y) || exists|j: int|
                            qi <= j < queue@.len() && queue@[j].0.x == x && queue@[j].0.y
                                == y by {
                            if x == nc.x as int && y == nc.y as int {
                                let jw = queue@.len() - 1;
                                assert(qi <= jw < queue@.len() && queue@[jw].0.x == x
                                    && queue@[jw].0.y == y);
                            } else {
                                assert(visited1.has(x, y));
                                if !processed.has(x, y) {
                                    let j = choose|j: int|
                                        qi <= j < queue1.len() && queue1[j].0.x == x
                                            && queue1[j].0.y == y;
                                    assert(queue@[j] == queue1[j]);
                                    assert(qi <= j < queue@.len() && queue@[j].0.x == x
                                        && queue@[j].0.y == y);
                                }
                            }
                        }
                    }
                }
                di = di + 1;
            }
            proof {
                assert forall|a: int, b: int, cc: int, dd: int|
                    #![trigger processed.has(a, b), crate::reach::adjacent(a, b, cc, dd)]
                    processed.has(a, b) && crate::reach::adjacent(a, b, cc, dd)
                        && known_good.has(cc, dd) implies visited.has(cc, dd) by {
                    if a == c.x as int && b == c.y as int {
                        assert(crate::geom::dir_dx(NORTH) == 0 && crate::geom::dir_dy(NORTH)
                            == -1);
                        if cc == c.x as int && dd == c.y - 1 {
                            assert(dirs4@[0] == NORTH);
                        } else if cc == c.x + 1 && dd == c.y as int {
                            assert(dirs4@[1] == EAST);
                        } else if cc == c.x as int && dd == c.y + 1 {
                            assert(dirs4@[2] == SOUTH);
                        } else {
                            assert(cc == c.x - 1 && dd == c.y as int);
                            assert(dirs4@[3] == WEST);
                        }
                    } else {
                        assert(processed0.has(a, b));
                        assert(visited0.has(cc, dd));
                    }
                }
                // The next queue entry's path is at most one step longer,
                // and every walk shorter than it ends on a visited cell:
                // a walk of exactly `dq` steps passes next-to-last through
                // a visited cell, which is processed (a queued cell's path
                // would be shorter than the layer allows), and processed
                // cells have all box-cell neighbours visited.
                let qip = qi as int + 1;
                if qip < queue@.len() {
                    let dq2 = queue@[qip].1@.len() as int;
                    assert(dq <= dq2 <= dq + 1);
                    assert forall|dirs: Seq<usize>|
                        #![trigger walk_in(*known_good, start_coord, dirs)]
                        walk_in(*known_good, start_coord, dirs) && dirs.len() < dq2
                        implies visited.has(walk_x(start_coord, dirs, dirs.len() as int),
                    walk_y(start_coord, dirs, dirs.len() as int)) by {
                        if (dirs.len() as int) < dq {
                        } else {
                            assert(dirs.len() as int == dq);
                            if dq == 0 {
                                assert(visited.has(start_coord.x as int, start_coord.y as int));
                            } else {
                                let pre = dirs.take(dq - 1);
                                assert forall|i: int|
                                    #![trigger walk_x(start_coord, pre, i)]
                                    1 <= i <= pre.len() implies known_good.has(walk_x(
                                    start_coord, pre, i), walk_y(start_coord, pre, i)) by {
                                    lemma_walk_prefix(start_coord, dirs, dq - 1, i);
                                }
                                assert forall|i: int| #![trigger pre[i]] 0 <= i < pre.len()
                                    implies is_dir(pre[i]) by {
                                    assert(pre[i] == dirs[i]);
                                }
                                assert(walk_in(*known_good, start_coord, pre));
                                lemma_walk_prefix(start_coord, dirs, dq - 1, dq - 1);
                                let zx = walk_x(start_coord, dirs, dq - 1);
                                let zy = walk_y(start_coord, dirs, dq - 1);
                                assert(visited.has(zx, zy));
                                let ex = walk_x(start_coord, dirs, dq);
                                let ey = walk_y(start_coord, dirs, dq);
                                let d2 = dirs[dq - 1];
                                assert(is_dir(d2));
                                assert(crate::reach::adjacent(zx, zy, ex, ey));
                                assert(known_good.has(ex, ey));
                                if processed.has(zx, zy) {
                                    assert(visited.has(ex, ey));
                                } else {
                                    let j = choose|j: int|
                                        qi <= j < queue@.len() && queue@[j].0.x == zx
                                            && queue@[j].0.y == zy;
                                    assert(entry_minimal(*known_good, start_coord, queue@[j].0,
                                        queue@[j].1@.len() as int));
                                    assert(queue@[j].1@.len() <= pre.len());
                                    assert(queue@[qi as int].1@.len() <= queue@[j].1@.len());
                                    assert(false);
                                }
                            }
                        }
                    }
                }
                assert forall|x: int, y: int|
                    #![trigger visited.has(x, y)]
                    visited.has(x, y) implies processed.has(x, y) || exists|j: int|
                    qip <= j < queue@.len() && queue@[j].0.x == x && queue@[j].0.y == y by {
                    if !processed.has(x, y) {
                        let j = choose|j: int|
                            qi <= j < queue@.len() && queue@[j].0.x == x && queue@[j].0.y == y;
                        if j == qi {
                            assert(queue@[qi as int].0 == c);
                            assert(processed.has(x, y));
                            assert(false);
                        } else {
                            assert(qip <= j < queue@.len() && queue@[j].0.x == x
                                && queue@[j].0.y == y);
                        }
                    }
                }
            }
            qi = qi + 1;
        }
        proof {
            assert(queue@.len() - qi == 0);
            processed.lemma_subset_counts(&visited);
            assert forall|x: int, y: int| #![trigger visited.has(x, y)] visited.has(x, y)
                implies processed.has(x, y) by {}
            if has_box_walk(*known_good, start_coord, end_coord) {
                assert forall|a: int, b: int, c: int, d: int|
                    #![trigger visited.has(a, b), crate::reach::adjacent(a, b, c, d)]
                    visited.has(a, b) && crate::reach::adjacent(a, b, c, d) && known_good.has(c,
                d) implies visited.has(c, d) by {
                    assert(processed.has(a, b));
                }
                let dirs = choose|dirs: Seq<usize>|
                    dirs.len() >= 1 && path_ok(*known_good, start_coord, end_coord, dirs);
                assert(walk_in(*known_good, start_coord, dirs));
                lemma_walk_closed(*known_good, visited, start_coord, dirs, dirs.len() as int);
                assert(visited.has(end_coord.x as int, end_coord.y as int));
                assert(false);
            }
        }
        Vec::new()
    }

    /// Candidate solid dimensions: every proposed triple has all
    /// coordinates at least one and surface area exactly the known-box
    /// cell count, and every such triple with coordinates up to the grid
    /// dimension is proposed.
    pub fn candidate_dimensions(&self, count: usize) -> (r: Vec<Vec3>)
        requires
            self.wf(),
        ensures
            forall|i: int|
                #![trigger r@[i]]
                0 <= i < r@.len() ==> 1 <= r@[i].x <= self.dim && 1 <= r@[i].y <= self.dim && 1
                    <= r@[i].z <= self.dim && 2 * (r@[i].x * r@[i].y + r@[i].y * r@[i].z
                    + r@[i].x * r@[i].z) == count,
            forall|a: int, b: int, c: int|
                #![trigger surface_area(a, b, c)]
                1 <= a <= self.dim && 1 <= b <= self.dim && 1 <= c <= self.dim && surface_area(
                    a,
                    b,
                    c,
                ) == count ==> exists|i: int|
                    #![trigger r@[i]]
                    0 <= i < r@.len() && r@[i].x == a && r@[i].y == b && r@[i].z == c,
    {
        let dim = self.dim;
        let mut r: Vec<Vec3> = Vec::new();
        let mut x: usize = 1;
        while x <= dim
            invariant
                1 <= dim <= DIM_MAX,
                1 <= x <= dim + 1,
                forall|i: int|
                    #![trigger r@[i]]
                    0 <= i < r@.len() ==> 1 <= r@[i].x <= dim && 1 <= r@[i].y <= dim && 1
                        <= r@[i].z <= dim && 2 * (r@[i].x * r@[i].y + r@[i].y * r@[i].z + r@[i].x
                        * r@[i].z) == count,
                forall|a: int, b: int, c: int|
                    #![trigger surface_area(a, b, c)]
                    1 <= a < x && 1 <= b <= dim && 1 <= c <= dim && surface_area(a, b, c)
                        == count ==> exists|i: int|
                        #![trigger r@[i]]
                        0 <= i < r@.len() && r@[i].x == a && r@[i].y == b && r@[i].z == c,
            decreases dim + 1 - x,
        {
            let mut y: usize = 1;
            while y <= dim
                invariant
                    1 <= dim <= DIM_MAX,
                    1 <= x <= dim,
                    1 <= y <= dim + 1,
                    forall|i: int|
                        #![trigger r@[i]]
                        0 <= i < r@.len() ==> 1 <= r@[i].x <= dim && 1 <= r@[i].y <= dim && 1
                            <= r@[i].z <= dim && 2 * (r@[i].x * r@[i].y + r@[i].y * r@[i].z
                            + r@[i].x * r@[i].z) == count,
                    forall|a: int, b: int, c: int|
                        #![trigger surface_area(a, b, c)]
                        1 <= a <= dim && 1 <= b <= dim && 1 <= c <= dim && surface_area(a, b, c)
                            == count && (a < x || (a == x && b < y)) ==> exists|i: int|
                            #![trigger r@[i]]
                            0 <= i < r@.len() && r@[i].x == a && r@[i].y == b && r@[i].z == c,
                decreases dim + 1 - y,
            {
                let mut z: usize = 1;
                while z <= dim
                    invariant
                        1 <= dim <= DIM_MAX,
                        1 <= x <= dim,
                        1 <= y <= dim,
                        1 <= z <= dim + 1,
                        forall|i: int|
                            #![trigger r@[i]]
                            0 <= i < r@.len() ==> 1 <= r@[i].x <= dim && 1 <= r@[i].y <= dim && 1
                                <= r@[i].z <= dim && 2 * (r@[i].x * r@[i].y + r@[i].y * r@[i].z
                                + r@[i].x * r@[i].z) == count,
                        forall|a: int, b: int, c: int|
                            #![trigger surface_area(a, b, c)]
                            1 <= a <= dim && 1 <= b <= dim && 1 <= c <= dim && surface_area(a, b,
                                c) == count && (a < x || (a == x && b < y) || (a == x && b == y
                                && c < z)) ==> exists|i: int|
                                #![trigger r@[i]]
                                0 <= i < r@.len() && r@[i].x == a && r@[i].y == b && r@[i].z == c,
                    decreases dim + 1 - z,
                {
                    proof {
                        assert(x * y <= DIM_MAX * DIM_MAX && y * z <= DIM_MAX * DIM_MAX && x * z
                            <= DIM_MAX * DIM_MAX && x * y >= 0 && y * z >= 0 && x * z >= 0)
                            by (nonlinear_arith)
                            requires
                                1 <= x <= DIM_MAX,
                                1 <= y <= DIM_MAX,
                                1 <= z <= DIM_MAX,
                        ;
                    }
                    let surface: usize = 2 * (x * y + y * z + x * z);
                    let ghost r0 = r@;
                    if surface == count {
                        r.push(Vec3 { x: x as isize, y: y as isize, z: z as isize });
                    }
                    proof {
                        assert forall|a: int, b: int, c: int|
                            #![trigger surface_area(a, b, c)]
                            1 <= a <= dim && 1 <= b <= dim && 1 <= c <= dim && surface_area(a, b,
                                c) == count && (a < x || (a == x && b < y) || (a == x && b == y
                                && c < z + 1)) implies exists|i: int|
                                #![trigger r@[i]]
                                0 <= i < r@.len() && r@[i].x == a && r@[i].y == b && r@[i].z
                                == c by {
                            if a == x && b == y && c == z {
                                assert(surface_area(x as int, y as int, z as int) == 2 * (x * y
                                    + y * z + x * z));
                                assert(r@[r@.len() - 1].x == a && r@[r@.len() - 1].y == b
                                    && r@[r@.len() - 1].z == c);
                            } else {
                                let i0 = choose|i: int|
                                    0 <= i < r0.len() && r0[i].x == a && r0[i].y == b && r0[i].z
                                        == c;
                                assert(r@[i0].x == a && r@[i0].y == b && r@[i0].z == c);
                            }
                        }
                    }
                    z = z + 1;
                }
                y = y + 1;
            }
            x = x + 1;
        }
        r
    }
}

/// The value of the number clue sitting on `(x, y)`, starting the scan at
/// index `i`; zero when none does.
pub open spec fn num_val_from(numbers: Seq<BoxNumber>, i: int, x: int, y: int) -> int
    decreases numbers.len() - i,
{
    if i < 0 || i >= numbers.len() {
        0
    } else if numbers[i].pos.x == x && numbers[i].pos.y == y {
        numbers[i].val as int
    } else {
        num_val_from(numbers, i + 1, x, y)
    }
}

/// The value of the number clue sitting on `(x, y)`; zero when none does.
pub open spec fn num_val_at(numbers: Seq<BoxNumber>, x: int, y: int) -> int {
    num_val_from(numbers, 0, x, y)
}

/// Whether a circle-marked number clue sits on `(x, y)`, scanning from `i`.
pub open spec fn circle_from(numbers: Seq<BoxNumber>, i: int, x: int, y: int) -> bool
    decreases numbers.len() - i,
{
    if i < 0 || i >= numbers.len() {
        false
    } else if numbers[i].pos.x == x && numbers[i].pos.y == y {
        numbers[i].is_circle
    } else {
        circle_from(numbers, i + 1, x, y)
    }
}

/// Whether a circle-marked number clue sits on `(x, y)`.
pub open spec fn circle_at(numbers: Seq<BoxNumber>, x: int, y: int) -> bool {
    circle_from(numbers, 0, x, y)
}

/// No two mapping entries share a grid cell.
pub open spec fn map_cells_distinct(m: Seq<(Vec2, BoxFaceCoord)>) -> bool {
    forall|i: int, j: int|
        0 <= i < j < m.len() ==> !(m[i].0.x == m[j].0.x && m[i].0.y == m[j].0.y)
}

/// No two mapping entries share a face coordinate.
pub open spec fn map_coords_distinct(m: Seq<(Vec2, BoxFaceCoord)>) -> bool {
    forall|i: int, j: int| 0 <= i < j < m.len() ==> m[i].1 != m[j].1
}

/// The mapping is a bijection between the known-box cells and its images:
/// every entry is a box cell and every box cell has an entry.
pub open spec fn map_covers(m: Seq<(Vec2, BoxFaceCoord)>, kg: CellSet) -> bool {
    &&& forall|i: int| #![trigger m[i]] 0 <= i < m.len() ==> kg.has(m[i].0.x as int, m[i].0.y as int)
    &&& forall|x: int, y: int|
        #![trigger kg.has(x, y)]
        kg.has(x, y) ==> exists|i: int| #![trigger m[i]] 0 <= i < m.len() && m[i].0.x == x && m[i].0.y == y
}

/// The face coordinate lying directly opposite `c` on the solid.
pub open spec fn opposite_coord(c: BoxFaceCoord, sx: int, sy: int, sz: int) -> BoxFaceCoord {
    match c.face {
        BoxFaceType::A => BoxFaceCoord {
            coord: Vec3 { x: c.coord.x, y: c.coord.y, z: (sz - 1) as isize },
            face: BoxFaceType::F,
        },
        BoxFaceType::B => BoxFaceCoord {
            coord: Vec3 { x: c.coord.x, y: 0, z: c.coord.z },
            face: BoxFaceType::D,
        },
        BoxFaceType::C => BoxFaceCoord {
            coord: Vec3 { x: (sx - 1) as isize, y: c.coord.y, z: c.coord.z },
            face: BoxFaceType::E,
        },
        BoxFaceType::D => BoxFaceCoord {
            coord: Vec3 { x: c.coord.x, y: (sy - 1) as isize, z: c.coord.z },
            face: BoxFaceType::B,
        },
        BoxFaceType::E => BoxFaceCoord {
            coord: Vec3 { x: 0, y: c.coord.y, z: c.coord.z },
            face: BoxFaceType::C,
        },
        BoxFaceType::F => BoxFaceCoord {
            coord: Vec3 { x: c.coord.x, y: c.coord.y, z: 0 },
            face: BoxFaceType::A,
        },
    }
}

/// Manhattan distance between two positions on the solid.
pub open spec fn manhattan(a: Vec3, b: Vec3) -> int {
    (if a.x >= b.x {
        a.x - b.x
    } else {
        b.x - a.x
    }) + (if a.y >= b.y {
        a.y - b.y
    } else {
        b.y - a.y
    }) + (if a.z >= b.z {
        a.z - b.z
    } else {
        b.z - a.z
    })
}

/// Every circle-marked clue's image lies exactly opposite the image of
/// another circle-marked clue.
pub open spec fn circles_ok(
    m: Seq<(Vec2, BoxFaceCoord)>,
    numbers: Seq<BoxNumber>,
    sx: int,
    sy: int,
    sz: int,
) -> bool {
    forall|k: int|
        #![trigger numbers[k]]
        0 <= k < numbers.len() && numbers[k].is_circle ==> exists|i: int, j: int|
            #![trigger m[i], m[j]]
            {
                &&& 0 <= i < m.len()
                &&& m[i].0.x == numbers[k].pos.x
                &&& m[i].0.y == numbers[k].pos.y
                &&& 0 <= j < m.len()
                &&& m[j].1 == opposite_coord(m[i].1, sx, sy, sz)
                &&& circle_at(numbers, m[j].0.x as int, m[j].0.y as int)
            }
}

/// Every square-marked clue's image lies at Manhattan distance exactly one
/// from the image of some other square-marked clue.
pub open spec fn squares_ok(m: Seq<(Vec2, BoxFaceCoord)>, numbers: Seq<BoxNumber>) -> bool {
    forall|k: int|
        #![trigger numbers[k]]
        0 <= k < numbers.len() && numbers[k].is_square ==> exists|i: int, l: int, j: int|
            #![trigger m[i], numbers[l], m[j]]
            {
                &&& 0 <= i < m.len()
                &&& m[i].0.x == numbers[k].pos.x
                &&& m[i].0.y == numbers[k].pos.y
                &&& 0 <= l < numbers.len()
                &&& l != k
                &&& numbers[l].is_square
                &&& 0 <= j < m.len()
                &&& m[j].0.x == numbers[l].pos.x
                &&& m[j].0.y == numbers[l].pos.y
                &&& manhattan(m[i].1.coord, m[j].1.coord) == 1
            }
}

/// Sum over the first `n` mapping entries lying on face `f` of the values
/// of the number clues on their grid cells.
pub open spec fn face_sum_pre(
    m: Seq<(Vec2, BoxFaceCoord)>,
    numbers: Seq<BoxNumber>,
    f: BoxFaceType,
    n: int,
) -> int
    decreases n,
{
    if n <= 0 {
        0
    } else {
        face_sum_pre(m, numbers, f, n - 1) + (if m[n - 1].1.face == f {
            num_val_at(numbers, m[n - 1].0.x as int, m[n - 1].0.y as int)
        } else {
            0int
        })
    }
}

/// Sum of the number-clue values whose images lie on face `f`.
pub open spec fn face_sum(m: Seq<(Vec2, BoxFaceCoord)>, numbers: Seq<BoxNumber>, f: BoxFaceType) -> int {
    face_sum_pre(m, numbers, f, m.len() as int)
}

/// Product of the six face sums.
pub open spec fn spec_face_product(m: Seq<(Vec2, BoxFaceCoord)>, numbers: Seq<BoxNumber>) -> int {
    face_sum(m, numbers, BoxFaceType::A) * face_sum(m, numbers, BoxFaceType::B) * face_sum(
        m,
        numbers,
        BoxFaceType::C,
    ) * face_sum(m, numbers, BoxFaceType::D) * face_sum(m, numbers, BoxFaceType::E) * face_sum(
        m,
        numbers,
        BoxFaceType::F,
    )
}

/// A successful folding witness: dimensions of the right surface area and
/// an injective mapping of the box cells onto the surface satisfying the
/// circle and square geometry.
pub open spec fn good_mapping(g: BoxGrid, kg: CellSet, m: Seq<(Vec2, BoxFaceCoord)>, d3: Vec3) -> bool {
    &&& 1 <= d3.x <= g.dim
    &&& 1 <= d3.y <= g.dim
    &&& 1 <= d3.z <= g.dim
    &&& 2 * (d3.x * d3.y + d3.y * d3.z + d3.x * d3.z) == kg.count
    &&& map_cells_distinct(m)
    &&& map_coords_distinct(m)
    &&& map_covers(m, kg)
    &&& forall|i: int|
        #![trigger m[i]]
        0 <= i < m.len() ==> 0 <= m[i].1.coord.x < d3.x && 0 <= m[i].1.coord.y < d3.y && 0
            <= m[i].1.coord.z < d3.z
    &&& circles_ok(m, g.numbers@, d3.x as int, d3.y as int, d3.z as int)
    &&& squares_ok(m, g.numbers@)
}

/// Structural and trial failures of the folding engine, distinct from "no
/// mapping found".
#[derive(Debug, Copy, Clone, PartialEq, Eq, Structural)]
pub enum FoldError {
    /// The two sets do not cover the grid.
    Incomplete,
    /// The two sets overlap.
    Overlap,
    /// A box cell could not be reached from the root on the flat grid.
    PathNotFound,
    /// The final product exceeds the machine integer range.
    Overflow,
}


/// Index of the mapping entry for grid cell `(x, y)`, if any.
fn lookup_cell(m: &Vec<(Vec2, BoxFaceCoord)>, x: isize, y: isize) -> (r: Option<usize>)
    ensures
        r matches Some(i) ==> i < m@.len() && m@[i as int].0.x == x && m@[i as int].0.y == y,
        r is None ==> forall|i: int|
            #![trigger m@[i]]
            0 <= i < m@.len() ==> !(m@[i].0.x == x && m@[i].0.y == y),
{
    let mut i: usize = 0;
    while i < m.len()
        invariant
            i <= m@.len(),
            forall|j: int| #![trigger m@[j]] 0 <= j < i ==> !(m@[j].0.x == x && m@[j].0.y == y),
        decreases m@.len() - i,
    {
        if m[i].0.x == x && m[i].0.y == y {
            return Some(i);
        }
        i = i + 1;
    }
    None
}

/// Index of the mapping entry with face coordinate `c`, if any.
fn lookup_coord(m: &Vec<(Vec2, BoxFaceCoord)>, c: BoxFaceCoord) -> (r: Option<usize>)
    ensures
        r matches Some(i) ==> i < m@.len() && m@[i as int].1 == c,
        r is None ==> forall|i: int| #![trigger m@[i]] 0 <= i < m@.len() ==> m@[i].1 != c,
{
    let mut i: usize = 0;
    while i < m.len()
        invariant
            i <= m@.len(),
            forall|j: int| #![trigger m@[j]] 0 <= j < i ==> m@[j].1 != c,
        decreases m@.len() - i,
    {
        if m[i].1 == c {
            return Some(i);
        }
        i = i + 1;
    }
    None
}

/// Whether a circle-marked number clue sits on `(x, y)`.
fn circle_at_exec(numbers: &Vec<BoxNumber>, x: isize, y: isize) -> (r: bool)
    ensures
        r == circle_at(numbers@, x as int, y as int),
{
    let mut i: usize = 0;
    while i < numbers.len()
        invariant
            i <= numbers@.len(),
            circle_at(numbers@, x as int, y as int) == circle_from(numbers@, i as int, x as int,
                y as int),
        decreases numbers@.len() - i,
    {
        if numbers[i].pos.x == x && numbers[i].pos.y == y {
            return numbers[i].is_circle;
        }
        i = i + 1;
    }
    false
}

/// The value of the number clue sitting on `(x, y)`, zero when none does.
fn num_val_at_exec(numbers: &Vec<BoxNumber>, x: isize, y: isize) -> (r: usize)
    requires
        forall|i: int| #![trigger numbers@[i]] 0 <= i < numbers@.len() ==> numbers@[i].val <= 9,
    ensures
        r == num_val_at(numbers@, x as int, y as int),
        r <= 9,
{
    let mut i: usize = 0;
    while i < numbers.len()
        invariant
            i <= numbers@.len(),
            forall|j: int|
                #![trigger numbers@[j]]
                0 <= j < numbers@.len() ==> numbers@[j].val <= 9,
            num_val_at(numbers@, x as int, y as int) == num_val_from(numbers@, i as int,
                x as int, y as int),
        decreases numbers@.len() - i,
    {
        if numbers[i].pos.x == x && numbers[i].pos.y == y {
            return numbers[i].val;
        }
        i = i + 1;
    }
    0
}

/// The clue value on a cell lies between zero and nine.
pub proof fn lemma_num_val_bounds(numbers: Seq<BoxNumber>, i: int, x: int, y: int)
    requires
        forall|j: int| #![trigger numbers[j]] 0 <= j < numbers.len() ==> numbers[j].val <= 9,
    ensures
        0 <= num_val_from(numbers, i, x, y) <= 9,
    decreases numbers.len() - i,
{
    if 0 <= i < numbers.len() && !(numbers[i].pos.x == x && numbers[i].pos.y == y) {
        lemma_num_val_bounds(numbers, i + 1, x, y);
    }
}

/// A face sum over `n` entries is at most nine per entry.
pub proof fn lemma_face_sum_bounds(
    m: Seq<(Vec2, BoxFaceCoord)>,
    numbers: Seq<BoxNumber>,
    f: BoxFaceType,
    n: int,
)
    requires
        forall|j: int| #![trigger numbers[j]] 0 <= j < numbers.len() ==> numbers[j].val <= 9,
        n <= m.len(),
    ensures
        0 <= face_sum_pre(m, numbers, f, n) <= 9 * (if n >= 0 {
            n
        } else {
            0
        }),
    decreases n,
{
    if n > 0 {
        lemma_face_sum_bounds(m, numbers, f, n - 1);
        lemma_num_val_bounds(numbers, 0, m[n - 1].0.x as int, m[n - 1].0.y as int);
    }
}

/// The sum of the number-clue values whose images lie on face `f`.
fn face_sum_exec(m: &Vec<(Vec2, BoxFaceCoord)>, numbers: &Vec<BoxNumber>, f: BoxFaceType) -> (r:
    usize)
    requires
        forall|i: int| #![trigger numbers@[i]] 0 <= i < numbers@.len() ==> numbers@[i].val <= 9,
        m@.len() <= 0x10_0001,
    ensures
        r == face_sum(m@, numbers@, f),
        r <= 9 * m@.len(),
{
    let mut acc: usize = 0;
    let mut i: usize = 0;
    while i < m.len()
        invariant
            forall|j: int|
                #![trigger numbers@[j]]
                0 <= j < numbers@.len() ==> numbers@[j].val <= 9,
            m@.len() <= 0x10_0001,
            i <= m@.len(),
            acc == face_sum_pre(m@, numbers@, f, i as int),
            acc <= 9 * i,
        decreases m@.len() - i,
    {
        let entry_face = m[i].1.face;
        if entry_face == f {
            let v = num_val_at_exec(numbers, m[i].0.x, m[i].0.y);
            acc = acc + v;
        }
        i = i + 1;
    }
    acc
}

/// The face coordinate lying directly opposite `c` on the solid.
fn opposite_exec(c: BoxFaceCoord, sx: usize, sy: usize, sz: usize) -> (r: BoxFaceCoord)
    requires
        1 <= sx <= DIM_MAX,
        1 <= sy <= DIM_MAX,
        1 <= sz <= DIM_MAX,
    ensures
        r == opposite_coord(c, sx as int, sy as int, sz as int),
{
    match c.face {
        BoxFaceType::A => BoxFaceCoord {
            coord: Vec3 { x: c.coord.x, y: c.coord.y, z: (sz - 1) as isize },
            face: BoxFaceType::F,
        },
        BoxFaceType::B => BoxFaceCoord {
            coord: Vec3 { x: c.coord.x, y: 0, z: c.coord.z },
            face: BoxFaceType::D,
        },
        BoxFaceType::C => BoxFaceCoord {
            coord: Vec3 { x: (sx - 1) as isize, y: c.coord.y, z: c.coord.z },
            face: BoxFaceType::E,
        },
        BoxFaceType::D => BoxFaceCoord {
            coord: Vec3 { x: c.coord.x, y: (sy - 1) as isize, z: c.coord.z },
            face: BoxFaceType::B,
        },
        BoxFaceType::E => BoxFaceCoord {
            coord: Vec3 { x: 0, y: c.coord.y, z: c.coord.z },
            face: BoxFaceType::C,
        },
        BoxFaceType::F => BoxFaceCoord {
            coord: Vec3 { x: c.coord.x, y: c.coord.y, z: 0 },
            face: BoxFaceType::A,
        },
    }
}

/// Manhattan distance between two positions within the machine range.
fn manhattan_exec(a: Vec3, b: Vec3) -> (r: usize)
    requires
        -0x10_0000 <= a.x <= 0x10_0000,
        -0x10_0000 <= a.y <= 0x10_0000,
        -0x10_0000 <= a.z <= 0x10_0000,
        -0x10_0000 <= b.x <= 0x10_0000,
        -0x10_0000 <= b.y <= 0x10_0000,
        -0x10_0000 <= b.z <= 0x10_0000,
    ensures
        r == manhattan(a, b),
{
    let dx: usize = if a.x >= b.x {
        (a.x - b.x) as usize
    } else {
        (b.x - a.x) as usize
    };
    let dy: usize = if a.y >= b.y {
        (a.y - b.y) as usize
    } else {
        (b.y - a.y) as usize
    };
    let dz: usize = if a.z >= b.z {
        (a.z - b.z) as usize
    } else {
        (b.z - a.z) as usize
    };
    dx + dy + dz
}

/// `a` comes strictly before `(cx, cy)` in row-major scan order.
pub open spec fn scan_lt(a: Vec2, cx: int, cy: int) -> bool {
    a.y < cy || (a.y == cy && a.x < cx)
}


impl BoxGrid {
    /// One folding trial: fix the solid and the face cell the root lands
    /// on, map every known-box cell by replaying its grid path over the
    /// surface, and validate the clue geometry. `Ok(None)` reports a failed
    /// trial (an edge crossing without a matching rotation or face, a
    /// collision, or failed clue geometry); only a missing path or an
    /// oversized product aborts the search.
    #[verifier::rlimit(100)]
    fn fold_trial(&self, known_good: &CellSet, solid: &BoxSolid, root: (usize, usize), ax: usize,
        ay: usize) -> (r: Result<Option<(Vec<(Vec2, BoxFaceCoord)>, usize)>, FoldError>)
        requires
            self.wf(),
            known_good.wf(),
            known_good.dim == self.dim,
            solid.wf(),
            ax < solid.x,
            ay < solid.y,
            root.0 < self.dim,
            root.1 < self.dim,
            known_good.has(root.0 as int, root.1 as int),
        ensures
            r matches Err(e) ==> e == FoldError::PathNotFound || e == FoldError::Overflow,
            r matches Ok(Some(t)) ==> {
                &&& map_cells_distinct(t.0@)
                &&& map_coords_distinct(t.0@)
                &&& map_covers(t.0@, *known_good)
                &&& forall|i: int|
                    #![trigger t.0@[i]]
                    0 <= i < t.0@.len() ==> 0 <= t.0@[i].1.coord.x < solid.x && 0
                        <= t.0@[i].1.coord.y < solid.y && 0 <= t.0@[i].1.coord.z < solid.z
                &&& circles_ok(t.0@, self.numbers@, solid.x as int, solid.y as int,
                    solid.z as int)
                &&& squares_ok(t.0@, self.numbers@)
                &&& t.1 == spec_face_product(t.0@, self.numbers@)
            },
    {
        let dim = self.dim;
        let rootv = Vec2 { x: root.0 as isize, y: root.1 as isize };
        let rootc = BoxFaceCoord {
            coord: Vec3 { x: ax as isize, y: ay as isize, z: 0 },
            face: BoxFaceType::A,
        };
        let mut m: Vec<(Vec2, BoxFaceCoord)> = Vec::new();
        m.push((rootv, rootc));
        proof {
            lemma_dim_area(dim as int);
            assert(m@[0] == (rootv, rootc));
            assert forall|a: int, b: int|
                #![trigger known_good.has(a, b)]
                known_good.has(a, b) && (b < 0 || (a == rootv.x as int && b == rootv.y as int))
                implies exists|i: int|
                    #![trigger m@[i]]
                    0 <= i < m@.len() && m@[i].0.x == a && m@[i].0.y == b by {
                assert(m@[0].0.x == a && m@[0].0.y == b);
            }
        }
        let mut y: usize = 0;
        while y < dim
            invariant
                self.wf(),
                known_good.wf(),
                known_good.dim == dim,
                dim == self.dim,
                solid.wf(),
                ax < solid.x,
                ay < solid.y,
                root.0 < dim,
                root.1 < dim,
                rootv.x == root.0 && rootv.y == root.1,
                rootc.coord.x == ax && rootc.coord.y == ay && rootc.coord.z == 0 && rootc.face
                    == BoxFaceType::A,
                known_good.has(rootv.x as int, rootv.y as int),
                y <= dim,
                m@.len() >= 1,
                m@.len() <= 1 + y * dim,
                m@[0].0 == rootv,
                forall|i: int|
                    #![trigger m@[i]]
                    1 <= i < m@.len() ==> scan_lt(m@[i].0, 0, y as int) && !(m@[i].0.x == rootv.x
                        && m@[i].0.y == rootv.y),
                forall|i: int, j: int|
                    1 <= i < j < m@.len() ==> scan_lt(m@[i].0, m@[j].0.x as int,
                    m@[j].0.y as int),
                forall|i: int|
                    #![trigger m@[i]]
                    0 <= i < m@.len() ==> known_good.has(m@[i].0.x as int, m@[i].0.y as int)
                        && 0 <= m@[i].1.coord.x < solid.x && 0 <= m@[i].1.coord.y < solid.y && 0
                        <= m@[i].1.coord.z < solid.z,
                map_coords_distinct(m@),
                forall|a: int, b: int|
                    #![trigger known_good.has(a, b)]
                    known_good.has(a, b) && (b < y || (a == rootv.x as int && b
                        == rootv.y as int)) ==> exists|i: int|
                        #![trigger m@[i]]
                        0 <= i < m@.len() && m@[i].0.x == a && m@[i].0.y == b,
            decreases dim - y,
        {
            let mut x: usize = 0;
            while x < dim
                invariant
                    self.wf(),
                    known_good.wf(),
                    known_good.dim == dim,
                    dim == self.dim,
                    solid.wf(),
                    ax < solid.x,
                    ay < solid.y,
                    root.0 < dim,
                    root.1 < dim,
                    rootv.x == root.0 && rootv.y == root.1,
                    rootc.coord.x == ax && rootc.coord.y == ay && rootc.coord.z == 0
                        && rootc.face == BoxFaceType::A,
                    known_good.has(rootv.x as int, rootv.y as int),
                    y < dim,
                    x <= dim,
                    m@.len() >= 1,
                    m@.len() <= 1 + y * dim + x,
                    m@[0].0 == rootv,
                    forall|i: int|
                        #![trigger m@[i]]
                        1 <= i < m@.len() ==> scan_lt(m@[i].0, x as int, y as int) && !(
                        m@[i].0.x == rootv.x && m@[i].0.y == rootv.y),
                    forall|i: int, j: int|
                        1 <= i < j < m@.len() ==> scan_lt(m@[i].0, m@[j].0.x as int,
                        m@[j].0.y as int),
                    forall|i: int|
                        #![trigger m@[i]]
                        0 <= i < m@.len() ==> known_good.has(m@[i].0.x as int, m@[i].0.y as int)
                            && 0 <= m@[i].1.coord.x < solid.x && 0 <= m@[i].1.coord.y < solid.y
                            && 0 <= m@[i].1.coord.z < solid.z,
                    map_coords_distinct(m@),
                    forall|a: int, b: int|
                        #![trigger known_good.has(a, b)]
                        known_good.has(a, b) && (b < y || (b == y && a < x) || (a
                            == rootv.x as int && b == rootv.y as int)) ==> exists|i: int|
                            #![trigger m@[i]]
                            0 <= i < m@.len() && m@[i].0.x == a && m@[i].0.y == b,
                decreases dim - x,
            {
                if known_good.contains(x, y) && !(x == root.0 && y == root.1) {
                    let cellv = Vec2 { x: x as isize, y: y as isize };
                    let path = BoxGrid::grid_traverse(known_good, rootv, cellv);
                    if path.len() == 0 {
                        return Err(FoldError::PathNotFound);
                    }
                    proof {
                        assert(path_ok(*known_good, rootv, cellv, path@));
                    }
                    let mut pc = rootc;
                    let mut va = Vec3 { x: 1, y: 0, z: 0 };
                    let mut vb = Vec3 { x: 0, y: 1, z: 0 };
                    let mut si: usize = 0;
                    while si < path.len()
                        invariant
                            solid.wf(),
                            si <= path@.len(),
                            forall|i: int|
                                #![trigger path@[i]]
                                0 <= i < path@.len() ==> is_dir(path@[i]),
                            pc.coord.spec_in_bounds(solid.x, solid.y, solid.z),
                            -1 <= va.x <= 1 && -1 <= va.y <= 1 && -1 <= va.z <= 1,
                            -1 <= vb.x <= 1 && -1 <= vb.y <= 1 && -1 <= vb.z <= 1,
                        decreases path@.len() - si,
                    {
                        let step = path[si];
                        let tr = solid.traverse(step, pc, va, vb);
                        match tr {
                            Ok(t) => {
                                pc = t.0;
                                va = t.1;
                                vb = t.2;
                            },
                            Err(TraverseError::NoRotation) => {
                                return Ok(None);
                            },
                            Err(TraverseError::NoFace) => {
                                return Ok(None);
                            },
                        }
                        si = si + 1;
                    }
                    let coll = lookup_coord(&m, pc);
                    match coll {
                        Some(_) => {
                            return Ok(None);
                        },
                        None => {},
                    }
                    let ghost m0 = m@;
                    m.push((cellv, pc));
                    proof {
                        assert forall|i: int|
                            #![trigger m@[i]]
                            1 <= i < m@.len() implies scan_lt(m@[i].0, x + 1, y as int) && !(
                        m@[i].0.x == rootv.x && m@[i].0.y == rootv.y) by {
                            if i < m@.len() - 1 {
                                assert(m@[i] == m0[i]);
                            } else {
                                assert(m@[i] == (cellv, pc));
                            }
                        }
                        assert forall|i: int, j: int|
                            1 <= i < j < m@.len() implies scan_lt(m@[i].0, m@[j].0.x as int,
                        m@[j].0.y as int) by {
                            if j < m@.len() - 1 {
                                assert(m@[i] == m0[i] && m@[j] == m0[j]);
                            } else {
                                assert(m@[j] == (cellv, pc));
                                assert(m@[i] == m0[i]);
                                assert(scan_lt(m0[i].0, x as int, y as int));
                            }
                        }
                        assert forall|i: int|
                            #![trigger m@[i]]
                            0 <= i < m@.len() implies known_good.has(m@[i].0.x as int,
                        m@[i].0.y as int) && 0 <= m@[i].1.coord.x < solid.x && 0
                            <= m@[i].1.coord.y < solid.y && 0 <= m@[i].1.coord.z < solid.z by {
                            if i < m@.len() - 1 {
                                assert(m@[i] == m0[i]);
                            } else {
                                assert(m@[i] == (cellv, pc));
                            }
                        }
                        assert forall|i: int, j: int|
                            0 <= i < j < m@.len() implies m@[i].1 != m@[j].1 by {
                            if j < m@.len() - 1 {
                                assert(m@[i] == m0[i] && m@[j] == m0[j]);
                            } else {
                                assert(m@[i] == m0[i]);
                                assert(m@[j].1 == pc);
                            }
                        }
                        assert forall|a: int, b: int|
                            #![trigger known_good.has(a, b)]
                            known_good.has(a, b) && (b < y || (b == y && a < x + 1) || (a
                                == rootv.x as int && b == rootv.y as int)) implies exists|i: int|
                                #![trigger m@[i]]
                                0 <= i < m@.len() && m@[i].0.x == a && m@[i].0.y == b by {
                            if a == x as int && b == y as int && !(a == rootv.x as int && b
                                == rootv.y as int) {
                                assert(m@[m@.len() - 1].0.x == a && m@[m@.len() - 1].0.y == b);
                            } else {
                                let i0 = choose|i: int|
                                    0 <= i < m0.len() && m0[i].0.x == a && m0[i].0.y == b;
                                assert(m@[i0] == m0[i0]);
                            }
                        }
                    }
                } else {
                    proof {
                        assert forall|a: int, b: int|
                            #![trigger known_good.has(a, b)]
                            known_good.has(a, b) && (b < y || (b == y && a < x + 1) || (a
                                == rootv.x as int && b == rootv.y as int)) implies exists|i: int|
                                #![trigger m@[i]]
                                0 <= i < m@.len() && m@[i].0.x == a && m@[i].0.y == b by {
                            if a == x as int && b == y as int {
                                if a == rootv.x as int && b == rootv.y as int {
                                    assert(m@[0].0.x == a && m@[0].0.y == b);
                                } else {
                                    assert(!known_good.has(a, b));
                                }
                            }
                        }
                    }
                }
                x = x + 1;
            }
            proof {
                assert(m@.len() <= 1 + y * dim + dim);
                assert((y + 1) * dim == y * dim + dim) by (nonlinear_arith);
            }
            y = y + 1;
        }
        proof {
            assert(m@.len() <= 1 + dim * dim) by (nonlinear_arith)
                requires
                    m@.len() <= 1 + y * dim,
                    y == dim,
            ;
        }
        // Clue geometry: circles must face circles, squares must touch
        // squares.
        let mut k: usize = 0;
        while k < self.numbers.len()
            invariant
                self.wf(),
                solid.wf(),
                dim == self.dim,
                k <= self.numbers@.len(),
                forall|i: int|
                    #![trigger m@[i]]
                    0 <= i < m@.len() ==> 0 <= m@[i].1.coord.x < solid.x && 0 <= m@[i].1.coord.y
                        < solid.y && 0 <= m@[i].1.coord.z < solid.z,
                forall|k2: int|
                    #![trigger self.numbers@[k2]]
                    0 <= k2 < k && self.numbers@[k2].is_circle ==> exists|i: int, j: int|
                        #![trigger m@[i], m@[j]]
                        {
                            &&& 0 <= i < m@.len()
                            &&& m@[i].0.x == self.numbers@[k2].pos.x
                            &&& m@[i].0.y == self.numbers@[k2].pos.y
                            &&& 0 <= j < m@.len()
                            &&& m@[j].1 == opposite_coord(m@[i].1, solid.x as int,
                                solid.y as int, solid.z as int)
                            &&& circle_at(self.numbers@, m@[j].0.x as int, m@[j].0.y as int)
                        },
            decreases self.numbers@.len() - k,
        {
            let nb = self.numbers[k];
            if nb.is_circle {
                let oi = lookup_cell(&m, nb.pos.x, nb.pos.y);
                match oi {
                    None => {
                        return Ok(None);
                    },
                    Some(i) => {
                        let opp = opposite_exec(m[i].1, solid.x, solid.y, solid.z);
                        let oj = lookup_coord(&m, opp);
                        match oj {
                            None => {
                                return Ok(None);
                            },
                            Some(j) => {
                                if !circle_at_exec(&self.numbers, m[j].0.x, m[j].0.y) {
                                    return Ok(None);
                                }
                            },
                        }
                    },
                }
            }
            k = k + 1;
        }
        let mut k: usize = 0;
        while k < self.numbers.len()
            invariant
                self.wf(),
                solid.wf(),
                dim == self.dim,
                k <= self.numbers@.len(),
                forall|i: int|
                    #![trigger m@[i]]
                    0 <= i < m@.len() ==> 0 <= m@[i].1.coord.x < solid.x && 0 <= m@[i].1.coord.y
                        < solid.y && 0 <= m@[i].1.coord.z < solid.z,
                forall|k2: int|
                    #![trigger self.numbers@[k2]]
                    0 <= k2 < self.numbers@.len() && self.numbers@[k2].is_circle ==> exists|
                        i: int,
                        j: int,
                    |
                        #![trigger m@[i], m@[j]]
                        {
                            &&& 0 <= i < m@.len()
                            &&& m@[i].0.x == self.numbers@[k2].pos.x
                            &&& m@[i].0.y == self.numbers@[k2].pos.y
                            &&& 0 <= j < m@.len()
                            &&& m@[j].1 == opposite_coord(m@[i].1, solid.x as int,
                                solid.y as int, solid.z as int)
                            &&& circle_at(self.numbers@, m@[j].0.x as int, m@[j].0.y as int)
                        },
                forall|k2: int|
                    #![trigger self.numbers@[k2]]
                    0 <= k2 < k && self.numbers@[k2].is_square ==> exists|i: int, l: int, j: int|
                        #![trigger m@[i], self.numbers@[l], m@[j]]
                        {
                            &&& 0 <= i < m@.len()
                            &&& m@[i].0.x == self.numbers@[k2].pos.x
                            &&& m@[i].0.y == self.numbers@[k2].pos.y
                            &&& 0 <= l < self.numbers@.len()
                            &&& l != k2
                            &&& self.numbers@[l].is_square
                            &&& 0 <= j < m@.len()
                            &&& m@[j].0.x == self.numbers@[l].pos.x
                            &&& m@[j].0.y == self.numbers@[l].pos.y
                            &&& manhattan(m@[i].1.coord, m@[j].1.coord) == 1
                        },
            decreases self.numbers@.len() - k,
        {
            let nb = self.numbers[k];
            if nb.is_square {
                let oi = lookup_cell(&m, nb.pos.x, nb.pos.y);
                match oi {
                    None => {
                        return Ok(None);
                    },
                    Some(i) => {
                        let mut found = false;
                        let mut l: usize = 0;
                        while l < self.numbers.len()
                            invariant
                                self.wf(),
                                solid.wf(),
                                k < self.numbers@.len(),
                                l <= self.numbers@.len(),
                                i < m@.len(),
                                m@[i as int].0.x == self.numbers@[k as int].pos.x,
                                m@[i as int].0.y == self.numbers@[k as int].pos.y,
                                forall|q: int|
                                    #![trigger m@[q]]
                                    0 <= q < m@.len() ==> 0 <= m@[q].1.coord.x < solid.x && 0
                                        <= m@[q].1.coord.y < solid.y && 0 <= m@[q].1.coord.z
                                        < solid.z,
                                found ==> exists|l0: int, j: int|
                                    #![trigger self.numbers@[l0], m@[j]]
                                    {
                                        &&& 0 <= l0 < self.numbers@.len()
                                        &&& l0 != k
                                        &&& self.numbers@[l0].is_square
                                        &&& 0 <= j < m@.len()
                                        &&& m@[j].0.x == self.numbers@[l0].pos.x
                                        &&& m@[j].0.y == self.numbers@[l0].pos.y
                                        &&& manhattan(m@[i as int].1.coord, m@[j].1.coord) == 1
                                    },
                            decreases self.numbers@.len() - l,
                        {
                            if !found && l != k {
                                let ob = self.numbers[l];
                                if ob.is_square {
                                    let oj = lookup_cell(&m, ob.pos.x, ob.pos.y);
                                    match oj {
                                        Some(j) => {
                                            if manhattan_exec(m[i].1.coord, m[j].1.coord) == 1 {
                                                found = true;
                                            }
                                        },
                                        None => {},
                                    }
                                }
                            }
                            l = l + 1;
                        }
                        if !found {
                            return Ok(None);
                        }
                    },
                }
            }
            k = k + 1;
        }
        // The answer: the product of the six face sums.
        proof {
            lemma_dim_area(dim as int);
        }
        let sa = face_sum_exec(&m, &self.numbers, BoxFaceType::A);
        let sb = face_sum_exec(&m, &self.numbers, BoxFaceType::B);
        let sc = face_sum_exec(&m, &self.numbers, BoxFaceType::C);
        let sd = face_sum_exec(&m, &self.numbers, BoxFaceType::D);
        let se = face_sum_exec(&m, &self.numbers, BoxFaceType::E);
        let sf = face_sum_exec(&m, &self.numbers, BoxFaceType::F);
        let p1 = sa;
        let p2 = match p1.checked_mul(sb) {
            Some(v) => v,
            None => {
                return Err(FoldError::Overflow);
            },
        };
        let p3 = match p2.checked_mul(sc) {
            Some(v) => v,
            None => {
                return Err(FoldError::Overflow);
            },
        };
        let p4 = match p3.checked_mul(sd) {
            Some(v) => v,
            None => {
                return Err(FoldError::Overflow);
            },
        };
        let p5 = match p4.checked_mul(se) {
            Some(v) => v,
            None => {
                return Err(FoldError::Overflow);
            },
        };
        let p6 = match p5.checked_mul(sf) {
            Some(v) => v,
            None => {
                return Err(FoldError::Overflow);
            },
        };
        proof {
            assert(map_cells_distinct(m@)) by {
                assert forall|i: int, j: int|
                    0 <= i < j < m@.len() implies !(m@[i].0.x == m@[j].0.x && m@[i].0.y
                    == m@[j].0.y) by {
                    if i == 0 {
                        assert(!(m@[j].0.x == rootv.x && m@[j].0.y == rootv.y));
                    } else {
                        assert(scan_lt(m@[i].0, m@[j].0.x as int, m@[j].0.y as int));
                    }
                }
            }
            assert(map_covers(m@, *known_good)) by {
                assert forall|a: int, b: int|
                    #![trigger known_good.has(a, b)]
                    known_good.has(a, b) implies exists|i: int|
                        #![trigger m@[i]]
                        0 <= i < m@.len() && m@[i].0.x == a && m@[i].0.y == b by {
                    assert(b < dim);
                }
            }
        }
        Ok(Some((m, p6)))
    }

    /// Search for a mapping of box cells onto a rectangular solid that
    /// satisfies the puzzle constraints given a full assignment of cells:
    /// report a structural error when the partition does not cover the grid
    /// exactly once, try every candidate dimension and root placement, and
    /// return the first successful trial's answer, or none when no
    /// combination succeeds. Edge crossings without a matching rotation or
    /// face fail only their own trial; a box cell unreachable from the root
    /// or an oversized product aborts the search.
    pub fn solidify(&self, known_good: &CellSet, ruled_out: &CellSet) -> (r: Result<
        Option<usize>,
        FoldError,
    >)
        requires
            self.wf(),
            known_good.wf(),
            ruled_out.wf(),
            known_good.dim == self.dim,
            ruled_out.dim == self.dim,
        ensures
            (r == Err::<Option<usize>, FoldError>(FoldError::Incomplete)) <==> known_good.count
                + ruled_out.count != self.dim * self.dim,
            (r == Err::<Option<usize>, FoldError>(FoldError::Overlap)) <==> (known_good.count
                + ruled_out.count == self.dim * self.dim && !known_good.disjoint_with(ruled_out)),
            r matches Ok(p) ==> p matches Some(prod) ==> exists|mm: Seq<(Vec2, BoxFaceCoord)>,
                dd: Vec3|
                #![trigger good_mapping(*self, *known_good, mm, dd)]
                good_mapping(*self, *known_good, mm, dd) && prod == spec_face_product(mm,
                self.numbers@),
    {
        let dim = self.dim;
        proof {
            lemma_dim_area(dim as int);
            lemma_count_true_le_len(known_good.cells@);
            lemma_count_true_le_len(ruled_out.cells@);
        }
        let area: usize = dim * dim;
        if known_good.len() + ruled_out.len() != area {
            return Err(FoldError::Incomplete);
        }
        if known_good.intersects(ruled_out) {
            return Err(FoldError::Overlap);
        }
        let cands = self.candidate_dimensions(known_good.len());
        let root = match known_good.first_member() {
            Some(c) => c,
            None => {
                return Ok(None);
            },
        };
        let mut ci: usize = 0;
        while ci < cands.len()
            invariant
                self.wf(),
                known_good.wf(),
                ruled_out.wf(),
                known_good.dim == dim,
                ruled_out.dim == dim,
                dim == self.dim,
                root.0 < dim && root.1 < dim,
                known_good.has(root.0 as int, root.1 as int),
                ci <= cands@.len(),
                known_good.count + ruled_out.count == dim * dim,
                known_good.disjoint_with(ruled_out),
                forall|i: int|
                    #![trigger cands@[i]]
                    0 <= i < cands@.len() ==> 1 <= cands@[i].x <= dim && 1 <= cands@[i].y <= dim
                        && 1 <= cands@[i].z <= dim && 2 * (cands@[i].x * cands@[i].y
                        + cands@[i].y * cands@[i].z + cands@[i].x * cands@[i].z)
                        == known_good.count,
            decreases cands@.len() - ci,
        {
            let d3 = cands[ci];
            let solid = BoxSolid::new(d3.x as usize, d3.y as usize, d3.z as usize);
            let mut axi: usize = 0;
            while axi < solid.x
                invariant
                    self.wf(),
                    known_good.wf(),
                    ruled_out.wf(),
                    known_good.dim == dim,
                    ruled_out.dim == dim,
                    dim == self.dim,
                    root.0 < dim && root.1 < dim,
                    known_good.has(root.0 as int, root.1 as int),
                    solid.wf(),
                    axi <= solid.x,
                    known_good.count + ruled_out.count == dim * dim,
                    known_good.disjoint_with(ruled_out),
                    solid.x == d3.x && solid.y == d3.y && solid.z == d3.z,
                    1 <= d3.x <= dim && 1 <= d3.y <= dim && 1 <= d3.z <= dim,
                    2 * (d3.x * d3.y + d3.y * d3.z + d3.x * d3.z) == known_good.count,
                decreases solid.x - axi,
            {
                let mut ayi: usize = 0;
                while ayi < solid.y
                    invariant
                        self.wf(),
                        known_good.wf(),
                        ruled_out.wf(),
                        known_good.dim == dim,
                        ruled_out.dim == dim,
                        dim == self.dim,
                        root.0 < dim && root.1 < dim,
                        known_good.has(root.0 as int, root.1 as int),
                        solid.wf(),
                        axi < solid.x,
                        ayi <= solid.y,
                        known_good.count + ruled_out.count == dim * dim,
                        known_good.disjoint_with(ruled_out),
                        solid.x == d3.x && solid.y == d3.y && solid.z == d3.z,
                        1 <= d3.x <= dim && 1 <= d3.y <= dim && 1 <= d3.z <= dim,
                        2 * (d3.x * d3.y + d3.y * d3.z + d3.x * d3.z) == known_good.count,
                    decreases solid.y - ayi,
                {
                    let tr = self.fold_trial(known_good, &solid, root, axi, ayi);
                    match tr {
                        Err(e) => {
                            return Err(e);
                        },
                        Ok(Some(t)) => {
                            proof {
                                assert(good_mapping(*self, *known_good, t.0@, d3));
                            }
                            return Ok(Some(t.1));
                        },
                        Ok(None) => {},
                    }
                    ayi = ayi + 1;
                }
                axi = axi + 1;
            }
            ci = ci + 1;
        }
        Ok(None)
    }
}

} // verus!
