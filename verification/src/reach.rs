//! Reachability of grid cells through 4-neighbor adjacency, restricted to
//! chosen assignment kinds (box, non-box, unassigned), and a verified flood
//! fill computing exactly the reachable set.

use vstd::prelude::*;
use crate::geom::Vec2;
use crate::cellset::{CellSet, lemma_count_true_le_len};
use crate::clues::in_grid;

verus! {

/// The two cells share an edge.
pub open spec fn adjacent(x1: int, y1: int, x2: int, y2: int) -> bool {
    ||| (x1 == x2 && (y2 == y1 + 1 || y2 == y1 - 1))
    ||| (y1 == y2 && (x2 == x1 + 1 || x2 == x1 - 1))
}

/// The cell `(x, y)` may be stepped on: it lies on the grid and its current
/// assignment kind is one of the included ones (`ikg`: known box, `iro`:
/// known non-box, `iun`: unassigned).
pub open spec fn passable(
    kg: CellSet,
    ro: CellSet,
    ikg: bool,
    iro: bool,
    iun: bool,
    x: int,
    y: int,
) -> bool {
    &&& in_grid(kg.dim as int, x, y)
    &&& if kg.has(x, y) {
        ikg
    } else if ro.has(x, y) {
        iro
    } else {
        iun
    }
}

/// A walk over passable cells: nonempty, every cell passable, consecutive
/// cells adjacent.
pub open spec fn is_path(
    kg: CellSet,
    ro: CellSet,
    ikg: bool,
    iro: bool,
    iun: bool,
    p: Seq<(int, int)>,
) -> bool {
    &&& p.len() >= 1
    &&& forall|i: int|
        #![trigger p[i]]
        0 <= i < p.len() ==> passable(kg, ro, ikg, iro, iun, p[i].0, p[i].1)
    &&& forall|i: int|
        #![trigger p[i]]
        0 <= i < p.len() - 1 ==> adjacent(p[i].0, p[i].1, p[i + 1].0, p[i + 1].1)
}

/// `(x, y)` can be reached from `(sx, sy)` by a walk over passable cells.
pub open spec fn reaches(
    kg: CellSet,
    ro: CellSet,
    ikg: bool,
    iro: bool,
    iun: bool,
    sx: int,
    sy: int,
    x: int,
    y: int,
) -> bool {
    exists|p: Seq<(int, int)>|
        is_path(kg, ro, ikg, iro, iun, p) && p.first() == (sx, sy) && p.last() == (x, y)
}

/// A passable cell reaches itself.
pub proof fn lemma_reaches_self(
    kg: CellSet,
    ro: CellSet,
    ikg: bool,
    iro: bool,
    iun: bool,
    sx: int,
    sy: int,
)
    requires
        passable(kg, ro, ikg, iro, iun, sx, sy),
    ensures
        reaches(kg, ro, ikg, iro, iun, sx, sy, sx, sy),
{
    let p: Seq<(int, int)> = seq![(sx, sy)];
    assert(is_path(kg, ro, ikg, iro, iun, p));
    assert(p.first() == (sx, sy) && p.last() == (sx, sy));
}

/// Reachability extends across one step to an adjacent passable cell.
pub proof fn lemma_reaches_step(
    kg: CellSet,
    ro: CellSet,
    ikg: bool,
    iro: bool,
    iun: bool,
    sx: int,
    sy: int,
    bx: int,
    by: int,
    cx: int,
    cy: int,
)
    requires
        reaches(kg, ro, ikg, iro, iun, sx, sy, bx, by),
        adjacent(bx, by, cx, cy),
        passable(kg, ro, ikg, iro, iun, cx, cy),
    ensures
        reaches(kg, ro, ikg, iro, iun, sx, sy, cx, cy),
{
    let p = choose|p: Seq<(int, int)>|
        is_path(kg, ro, ikg, iro, iun, p) && p.first() == (sx, sy) && p.last() == (bx, by);
    let q = p.push((cx, cy));
    assert forall|i: int| #![trigger q[i]] 0 <= i < q.len() implies passable(
        kg,
        ro,
        ikg,
        iro,
        iun,
        q[i].0,
        q[i].1,
    ) by {
        if i < p.len() {
            assert(q[i] == p[i]);
        }
    }
    assert forall|i: int| #![trigger q[i]] 0 <= i < q.len() - 1 implies adjacent(
        q[i].0,
        q[i].1,
        q[i + 1].0,
        q[i + 1].1,
    ) by {
        if i < p.len() - 1 {
            assert(q[i] == p[i] && q[i + 1] == p[i + 1]);
        } else {
            assert(q[i] == p.last() && q[i + 1] == (cx, cy));
        }
    }
    assert(is_path(kg, ro, ikg, iro, iun, q));
    assert(q.first() == (sx, sy) && q.last() == (cx, cy));
}

/// From a reachable cell, each passable 4-neighbor is reachable.
pub proof fn lemma_neighbors_reachable(
    kg: CellSet,
    ro: CellSet,
    ikg: bool,
    iro: bool,
    iun: bool,
    sx: int,
    sy: int,
    cx: int,
    cy: int,
)
    requires
        reaches(kg, ro, ikg, iro, iun, sx, sy, cx, cy),
    ensures
        passable(kg, ro, ikg, iro, iun, cx - 1, cy) ==> reaches(kg, ro, ikg, iro, iun, sx, sy, cx - 1, cy),
        passable(kg, ro, ikg, iro, iun, cx + 1, cy) ==> reaches(kg, ro, ikg, iro, iun, sx, sy, cx + 1, cy),
        passable(kg, ro, ikg, iro, iun, cx, cy - 1) ==> reaches(kg, ro, ikg, iro, iun, sx, sy, cx, cy - 1),
        passable(kg, ro, ikg, iro, iun, cx, cy + 1) ==> reaches(kg, ro, ikg, iro, iun, sx, sy, cx, cy + 1),
{
    if passable(kg, ro, ikg, iro, iun, cx - 1, cy) {
        lemma_reaches_step(kg, ro, ikg, iro, iun, sx, sy, cx, cy, cx - 1, cy);
    }
    if passable(kg, ro, ikg, iro, iun, cx + 1, cy) {
        lemma_reaches_step(kg, ro, ikg, iro, iun, sx, sy, cx, cy, cx + 1, cy);
    }
    if passable(kg, ro, ikg, iro, iun, cx, cy - 1) {
        lemma_reaches_step(kg, ro, ikg, iro, iun, sx, sy, cx, cy, cx, cy - 1);
    }
    if passable(kg, ro, ikg, iro, iun, cx, cy + 1) {
        lemma_reaches_step(kg, ro, ikg, iro, iun, sx, sy, cx, cy, cx, cy + 1);
    }
}

/// Reachability is symmetric: walks reverse.
pub proof fn lemma_reaches_sym(
    kg: CellSet,
    ro: CellSet,
    ikg: bool,
    iro: bool,
    iun: bool,
    sx: int,
    sy: int,
    x: int,
    y: int,
)
    requires
        reaches(kg, ro, ikg, iro, iun, sx, sy, x, y),
    ensures
        reaches(kg, ro, ikg, iro, iun, x, y, sx, sy),
{
    let p = choose|p: Seq<(int, int)>|
        is_path(kg, ro, ikg, iro, iun, p) && p.first() == (sx, sy) && p.last() == (x, y);
    let n = p.len() as int;
    let q = Seq::new(p.len(), |i: int| p[n - 1 - i]);
    assert forall|i: int| #![trigger q[i]] 0 <= i < q.len() - 1 implies adjacent(
        q[i].0,
        q[i].1,
        q[i + 1].0,
        q[i + 1].1,
    ) by {
        assert(q[i] == p[n - 1 - i] && q[i + 1] == p[n - 2 - i]);
        assert(adjacent(p[n - 2 - i].0, p[n - 2 - i].1, p[n - 1 - i].0, p[n - 1 - i].1));
    }
    assert(is_path(kg, ro, ikg, iro, iun, q));
    assert(q.first() == (x, y) && q.last() == (sx, sy));
}

/// Reachability is transitive: walks concatenate.
pub proof fn lemma_reaches_trans(
    kg: CellSet,
    ro: CellSet,
    ikg: bool,
    iro: bool,
    iun: bool,
    ax: int,
    ay: int,
    bx: int,
    by: int,
    cx: int,
    cy: int,
)
    requires
        reaches(kg, ro, ikg, iro, iun, ax, ay, bx, by),
        reaches(kg, ro, ikg, iro, iun, bx, by, cx, cy),
    ensures
        reaches(kg, ro, ikg, iro, iun, ax, ay, cx, cy),
{
    let p = choose|p: Seq<(int, int)>|
        is_path(kg, ro, ikg, iro, iun, p) && p.first() == (ax, ay) && p.last() == (bx, by);
    let q = choose|q: Seq<(int, int)>|
        is_path(kg, ro, ikg, iro, iun, q) && q.first() == (bx, by) && q.last() == (cx, cy);
    let m = p.len() as int;
    let r = p + q.subrange(1, q.len() as int);
    assert(r.len() == m + q.len() - 1);
    assert forall|i: int| #![trigger r[i]] 0 <= i < r.len() implies passable(
        kg,
        ro,
        ikg,
        iro,
        iun,
        r[i].0,
        r[i].1,
    ) by {
        if i < m {
            assert(r[i] == p[i]);
        } else {
            assert(r[i] == q[i - m + 1]);
        }
    }
    assert forall|i: int| #![trigger r[i]] 0 <= i < r.len() - 1 implies adjacent(
        r[i].0,
        r[i].1,
        r[i + 1].0,
        r[i + 1].1,
    ) by {
        if i < m - 1 {
            assert(r[i] == p[i] && r[i + 1] == p[i + 1]);
        } else if i == m - 1 {
            assert(r[i] == p.last() && p.last() == q[0]);
            assert(r[i + 1] == q[1]);
            assert(adjacent(q[0].0, q[0].1, q[1].0, q[1].1));
        } else {
            assert(r[i] == q[i - m + 1] && r[i + 1] == q[i - m + 2]);
        }
    }
    assert(is_path(kg, ro, ikg, iro, iun, r));
    assert(r.first() == (ax, ay));
    assert(r.last() == (cx, cy));
}

/// Any set of cells containing the start of a walk and closed under stepping
/// to adjacent passable cells contains the walk's end.
proof fn lemma_path_closed(
    kg: CellSet,
    ro: CellSet,
    ikg: bool,
    iro: bool,
    iun: bool,
    v: CellSet,
    p: Seq<(int, int)>,
)
    requires
        is_path(kg, ro, ikg, iro, iun, p),
        v.has(p.first().0, p.first().1),
        forall|a: int, b: int, c: int, d: int|
            #![trigger v.has(a, b), adjacent(a, b, c, d)]
            v.has(a, b) && adjacent(a, b, c, d) && passable(kg, ro, ikg, iro, iun, c, d)
                ==> v.has(c, d),
    ensures
        v.has(p.last().0, p.last().1),
    decreases p.len(),
{
    if p.len() > 1 {
        assert(adjacent(p[0].0, p[0].1, p[1].0, p[1].1));
        assert(passable(kg, ro, ikg, iro, iun, p[1].0, p[1].1));
        assert(v.has(p[1].0, p[1].1));
        let q = p.subrange(1, p.len() as int);
        assert forall|i: int| #![trigger q[i]] 0 <= i < q.len() implies passable(
            kg,
            ro,
            ikg,
            iro,
            iun,
            q[i].0,
            q[i].1,
        ) by {
            assert(q[i] == p[i + 1]);
        }
        assert forall|i: int| #![trigger q[i]] 0 <= i < q.len() - 1 implies adjacent(
            q[i].0,
            q[i].1,
            q[i + 1].0,
            q[i + 1].1,
        ) by {
            assert(q[i] == p[i + 1] && q[i + 1] == p[i + 2]);
        }
        assert(is_path(kg, ro, ikg, iro, iun, q));
        lemma_path_closed(kg, ro, ikg, iro, iun, v, q);
        assert(q.last() == p.last());
    }
}

/// Every cell reachable from a member of a closed set is itself a member.
pub proof fn lemma_reaches_closed(
    kg: CellSet,
    ro: CellSet,
    ikg: bool,
    iro: bool,
    iun: bool,
    v: CellSet,
    sx: int,
    sy: int,
    x: int,
    y: int,
)
    requires
        reaches(kg, ro, ikg, iro, iun, sx, sy, x, y),
        v.has(sx, sy),
        forall|a: int, b: int, c: int, d: int|
            #![trigger v.has(a, b), adjacent(a, b, c, d)]
            v.has(a, b) && adjacent(a, b, c, d) && passable(kg, ro, ikg, iro, iun, c, d)
                ==> v.has(c, d),
    ensures
        v.has(x, y),
{
    let p = choose|p: Seq<(int, int)>|
        is_path(kg, ro, ikg, iro, iun, p) && p.first() == (sx, sy) && p.last() == (x, y);
    lemma_path_closed(kg, ro, ikg, iro, iun, v, p);
}

/// Passability test for an in-bounds cell.
fn passable_at(kg: &CellSet, ro: &CellSet, ikg: bool, iro: bool, iun: bool, x: usize, y: usize) -> (r: bool)
    requires
        kg.wf(),
        ro.wf(),
        kg.dim == ro.dim,
        x < kg.dim,
        y < kg.dim,
    ensures
        r == passable(*kg, *ro, ikg, iro, iun, x as int, y as int),
{
    if kg.contains(x, y) {
        ikg
    } else if ro.contains(x, y) {
        iro
    } else {
        iun
    }
}

/// Mark one neighbor cell as visited and enqueue it, if it lies on the
/// grid, is passable and is not yet visited; maintains the flood-fill
/// worklist invariants.
#[verifier::rlimit(60)]
fn visit_neighbor(
    kg: &CellSet,
    ro: &CellSet,
    ikg: bool,
    iro: bool,
    iun: bool,
    visited: &mut CellSet,
    processed: &CellSet,
    stack: &mut Vec<(usize, usize)>,
    tx: isize,
    ty: isize,
    sx: Ghost<int>,
    sy: Ghost<int>,
)
    requires
        kg.wf(),
        ro.wf(),
        kg.dim == ro.dim,
        old(visited).wf(),
        old(visited).dim == kg.dim,
        processed.wf(),
        processed.dim == kg.dim,
        -0x8000 <= tx <= 0x8000,
        -0x8000 <= ty <= 0x8000,
        forall|i: int|
            #![trigger old(stack)@[i]]
            0 <= i < old(stack)@.len() ==> old(stack)@[i].0 < kg.dim && old(stack)@[i].1 < kg.dim
                && old(visited).has(old(stack)@[i].0 as int, old(stack)@[i].1 as int)
                && !processed.has(old(stack)@[i].0 as int, old(stack)@[i].1 as int),
        forall|i: int, j: int|
            0 <= i < j < old(stack)@.len() ==> !(old(stack)@[i].0 == old(stack)@[j].0
                && old(stack)@[i].1 == old(stack)@[j].1),
        forall|x: int, y: int|
            #![trigger old(visited).has(x, y)]
            old(visited).has(x, y) ==> reaches(*kg, *ro, ikg, iro, iun, sx@, sy@, x, y),
        forall|x: int, y: int|
            #![trigger processed.has(x, y)]
            processed.has(x, y) ==> old(visited).has(x, y),
        passable(*kg, *ro, ikg, iro, iun, tx as int, ty as int) ==> reaches(
            *kg,
            *ro,
            ikg,
            iro,
            iun,
            sx@,
            sy@,
            tx as int,
            ty as int,
        ),
    ensures
        final(visited).wf(),
        final(visited).dim == kg.dim,
        forall|x: int, y: int|
            #![trigger final(visited).has(x, y)]
            final(visited).has(x, y) <==> (old(visited).has(x, y) || (x == tx && y == ty
                && passable(*kg, *ro, ikg, iro, iun, tx as int, ty as int))),
        passable(*kg, *ro, ikg, iro, iun, tx as int, ty as int) ==> final(visited).has(
            tx as int,
            ty as int,
        ),
        forall|i: int|
            #![trigger final(stack)@[i]]
            0 <= i < final(stack)@.len() ==> final(stack)@[i].0 < kg.dim && final(stack)@[i].1
                < kg.dim && final(visited).has(final(stack)@[i].0 as int, final(stack)@[i].1 as int)
                && !processed.has(final(stack)@[i].0 as int, final(stack)@[i].1 as int),
        forall|i: int, j: int|
            0 <= i < j < final(stack)@.len() ==> !(final(stack)@[i].0 == final(stack)@[j].0
                && final(stack)@[i].1 == final(stack)@[j].1),
        forall|x: int, y: int|
            #![trigger final(visited).has(x, y)]
            final(visited).has(x, y) ==> reaches(*kg, *ro, ikg, iro, iun, sx@, sy@, x, y),
        forall|x: int, y: int|
            #![trigger processed.has(x, y)]
            processed.has(x, y) ==> final(visited).has(x, y),
        final(stack)@.len() >= old(stack)@.len(),
        final(visited).count == old(visited).count + final(stack)@.len() - old(stack)@.len(),
{
    if tx < 0 || ty < 0 {
        proof {
            assert(*visited == *old(visited));
        }
        return;
    }
    let nx = tx as usize;
    let ny = ty as usize;
    if nx >= kg.dim || ny >= kg.dim {
        proof {
            assert(*visited == *old(visited));
        }
        return;
    }
    if passable_at(kg, ro, ikg, iro, iun, nx, ny) && !visited.contains(nx, ny) {
        visited.insert(nx, ny);
        stack.push((nx, ny));
        proof {
            assert(stack@.last() == (nx, ny));
            assert forall|i: int|
                #![trigger stack@[i]]
                0 <= i < stack@.len() implies stack@[i].0 < kg.dim && stack@[i].1 < kg.dim
                && visited.has(stack@[i].0 as int, stack@[i].1 as int) && !processed.has(
                stack@[i].0 as int,
                stack@[i].1 as int,
            ) by {
                if i < stack@.len() - 1 {
                    assert(stack@[i] == old(stack)@[i]);
                }
            }
            assert forall|i: int, j: int|
                0 <= i < j < stack@.len() implies !(stack@[i].0 == stack@[j].0 && stack@[i].1
                == stack@[j].1) by {
                if j < stack@.len() - 1 {
                    assert(stack@[i] == old(stack)@[i] && stack@[j] == old(stack)@[j]);
                } else {
                    assert(stack@[i] == old(stack)@[i]);
                    assert(old(visited).has(old(stack)@[i].0 as int, old(stack)@[i].1 as int));
                }
            }
        }
    } else {
        proof {
            assert(*visited == *old(visited));
        }
    }
}

/// Flood fill: the set of cells reachable from `start` over cells of the
/// included assignment kinds. Returns exactly the reachable set (empty when
/// `start` itself is not of an included kind).
#[verifier::rlimit(100)]
#[verifier::spinoff_prover]
pub fn flood_from(
    kg: &CellSet,
    ro: &CellSet,
    ikg: bool,
    iro: bool,
    iun: bool,
    start: Vec2,
) -> (r: CellSet)
    requires
        kg.wf(),
        ro.wf(),
        kg.dim == ro.dim,
        start.spec_in_bounds(kg.dim),
    ensures
        r.wf(),
        r.dim == kg.dim,
        forall|x: int, y: int|
            #![trigger r.has(x, y)]
            r.has(x, y) <==> reaches(*kg, *ro, ikg, iro, iun, start.x as int, start.y as int, x, y),
{
    let dim = kg.dim;
    let sx = start.x as usize;
    let sy = start.y as usize;
    let mut visited = CellSet::new(dim);
    let mut processed = CellSet::new(dim);
    let mut stack: Vec<(usize, usize)> = Vec::new();
    if !passable_at(kg, ro, ikg, iro, iun, sx, sy) {
        proof {
            assert forall|x: int, y: int|
                #![trigger visited.has(x, y)]
                visited.has(x, y) <==> reaches(
                    *kg,
                    *ro,
                    ikg,
                    iro,
                    iun,
                    sx as int,
                    sy as int,
                    x,
                    y,
                ) by {
                if reaches(*kg, *ro, ikg, iro, iun, sx as int, sy as int, x, y) {
                    let p = choose|p: Seq<(int, int)>|
                        is_path(*kg, *ro, ikg, iro, iun, p) && p.first() == (sx as int, sy as int)
                            && p.last() == (x, y);
                    assert(p[0] == (sx as int, sy as int));
                    assert(false);
                }
            }
        }
        return visited;
    }
    visited.insert(sx, sy);
    stack.push((sx, sy));
    proof {
        lemma_reaches_self(*kg, *ro, ikg, iro, iun, sx as int, sy as int);
    }
    while stack.len() > 0
        invariant
            kg.wf(),
            ro.wf(),
            kg.dim == ro.dim,
            kg.dim == dim,
            visited.wf(),
            visited.dim == dim,
            processed.wf(),
            processed.dim == dim,
            sx == start.x && sy == start.y,
            sx < dim && sy < dim,
            visited.has(sx as int, sy as int),
            forall|i: int|
                #![trigger stack@[i]]
                0 <= i < stack@.len() ==> stack@[i].0 < dim && stack@[i].1 < dim && visited.has(
                    stack@[i].0 as int,
                    stack@[i].1 as int,
                ) && !processed.has(stack@[i].0 as int, stack@[i].1 as int),
            forall|i: int, j: int|
                0 <= i < j < stack@.len() ==> !(stack@[i].0 == stack@[j].0 && stack@[i].1
                    == stack@[j].1),
            forall|x: int, y: int|
                #![trigger visited.has(x, y)]
                visited.has(x, y) ==> reaches(
                    *kg,
                    *ro,
                    ikg,
                    iro,
                    iun,
                    sx as int,
                    sy as int,
                    x,
                    y,
                ),
            forall|x: int, y: int|
                #![trigger processed.has(x, y)]
                processed.has(x, y) ==> visited.has(x, y),
            forall|a: int, b: int, c: int, d: int|
                #![trigger processed.has(a, b), adjacent(a, b, c, d)]
                processed.has(a, b) && adjacent(a, b, c, d) && passable(
                    *kg,
                    *ro,
                    ikg,
                    iro,
                    iun,
                    c,
                    d,
                ) ==> visited.has(c, d),
            visited.count == processed.count + stack@.len(),
            processed.count <= dim * dim,
        decreases dim * dim - processed.count,
    {
        let ghost visited0 = visited;
        let ghost processed0 = processed;
        let top = stack.pop();
        let (cx, cy) = match top {
            Some(c) => c,
            None => {
                proof {
                    assert(false);
                }
                (0, 0)
            },
        };
        proof {
            assert(visited.has(cx as int, cy as int) && !processed.has(cx as int, cy as int));
        }
        processed.insert(cx, cy);
        let icx = cx as isize;
        let icy = cy as isize;
        proof {
            lemma_count_true_le_len(processed.cells@);
            lemma_neighbors_reachable(*kg, *ro, ikg, iro, iun, sx as int, sy as int, cx as int,
                cy as int);
        }
        visit_neighbor(kg, ro, ikg, iro, iun, &mut visited, &processed, &mut stack, icx - 1, icy,
            Ghost(sx as int), Ghost(sy as int));
        visit_neighbor(kg, ro, ikg, iro, iun, &mut visited, &processed, &mut stack, icx + 1, icy,
            Ghost(sx as int), Ghost(sy as int));
        visit_neighbor(kg, ro, ikg, iro, iun, &mut visited, &processed, &mut stack, icx, icy - 1,
            Ghost(sx as int), Ghost(sy as int));
        visit_neighbor(kg, ro, ikg, iro, iun, &mut visited, &processed, &mut stack, icx, icy + 1,
            Ghost(sx as int), Ghost(sy as int));
        proof {
            assert forall|a: int, b: int, c: int, d: int|
                #![trigger processed.has(a, b), adjacent(a, b, c, d)]
                processed.has(a, b) && adjacent(a, b, c, d) && passable(
                    *kg,
                    *ro,
                    ikg,
                    iro,
                    iun,
                    c,
                    d,
                ) implies visited.has(c, d) by {
                if a == cx as int && b == cy as int {
                    assert(c == icx - 1 && d == icy || c == icx + 1 && d == icy || c == icx && d
                        == icy - 1 || c == icx && d == icy + 1);
                    assert(visited.has(c, d));
                } else {
                    assert(processed0.has(a, b));
                    assert(visited0.has(c, d));
                    assert(visited.has(c, d));
                }
            }
        }
    }
    proof {
        // With the worklist drained, the processed and visited sets agree,
        // so the visited set is closed under stepping.
        processed.lemma_subset_counts(&visited);
        assert forall|x: int, y: int|
            #![trigger visited.has(x, y)]
            visited.has(x, y) <==> reaches(
                *kg,
                *ro,
                ikg,
                iro,
                iun,
                sx as int,
                sy as int,
                x,
                y,
            ) by {
            if reaches(*kg, *ro, ikg, iro, iun, sx as int, sy as int, x, y) {
                assert forall|a: int, b: int, c: int, d: int|
                    #![trigger visited.has(a, b), adjacent(a, b, c, d)]
                    visited.has(a, b) && adjacent(a, b, c, d) && passable(
                        *kg,
                        *ro,
                        ikg,
                        iro,
                        iun,
                        c,
                        d,
                    ) implies visited.has(c, d) by {
                    assert(processed.has(a, b));
                }
                lemma_reaches_closed(*kg, *ro, ikg, iro, iun, visited, sx as int, sy as int, x, y);
            }
        }
    }
    visited
}

} // verus!
