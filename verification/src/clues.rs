//! Arrow and number clues, their feasibility semantics over a partial
//! partition, and the single-clue deduction rules.
//!
//! An arrow clue asserts: there is a single distance `d >= 1` such that in
//! every pointed direction the cell at distance `d` is a box cell with only
//! non-box cells strictly before it, while in every non-pointed direction no
//! box cell lies within distance `d` inclusive.
//!
//! A number clue asserts: exactly `val` of the up-to-nine cells in its 3x3
//! neighborhood (clipped at the border) are box cells.

use vstd::prelude::*;
use crate::geom::{Vec2, dir_dx, dir_dy, dir_delta, num_dx, num_dy, num_delta, is_dir, NORTH, EAST,
    SOUTH, WEST, DIM_MAX};
use crate::cellset::CellSet;

verus! {

/// True when `(x, y)` lies within a grid of dimension `dim`.
pub open spec fn in_grid(dim: int, x: int, y: int) -> bool {
    0 <= x < dim && 0 <= y < dim
}

/// Structure for storing arrow cell information on the grid.
#[derive(Debug, Copy, Clone, Hash, PartialEq, Eq, Structural)]
pub struct BoxArrow {
    /// Cell holding the clue.
    pub pos: Vec2,
    /// Direction bitmask over north, east, south and west.
    pub val: usize,
    /// Distance to the pointed-to box cells, once solved; informational only.
    pub dist: usize,
    /// Whether the arrow's distance has been fixed by deduction.
    pub solved: bool,
}

/// Structure for storing number cell information on the grid.
#[derive(Debug, Copy, Clone, Hash, PartialEq, Eq, Structural)]
pub struct BoxNumber {
    /// Cell holding the clue.
    pub pos: Vec2,
    /// Required count of box cells in the 3x3 neighborhood.
    pub val: usize,
    /// Whether the clue carries a circle mark.
    pub is_circle: bool,
    /// Whether the clue carries a square mark.
    pub is_square: bool,
    /// Whether the clue's neighborhood has been fully decided.
    pub solved: bool,
}

/// Scaling a component of a unit direction vector stays within the scale.
pub proof fn lemma_unit_scale_bound(c: int, k: int)
    requires
        -1 <= c <= 1,
        0 <= k,
    ensures
        -k <= c * k <= k,
{
    assert(-k <= c * k <= k) by (nonlinear_arith)
        requires
            -1 <= c <= 1,
            0 <= k,
    ;
}

/// Scaling by a unit factor is negation, identity or zero.
pub proof fn lemma_unit_scale_exact(c: int, k: int)
    ensures
        c == 1 ==> c * k == k,
        c == -1 ==> c * k == -k,
        c == 0 ==> c * k == 0,
{
    assert(c == 1 ==> c * k == k) by (nonlinear_arith);
    assert(c == -1 ==> c * k == -k) by (nonlinear_arith);
    assert(c == 0 ==> c * k == 0) by (nonlinear_arith);
}

/// x coordinate of the cell at distance `k` along `dir` from a clue cell
/// whose x coordinate is `px`.
pub open spec fn ray_x(px: int, dir: usize, k: int) -> int {
    px + dir_dx(dir) * k
}

/// y coordinate of the cell at distance `k` along `dir` from a clue cell
/// whose y coordinate is `py`.
pub open spec fn ray_y(py: int, dir: usize, k: int) -> int {
    py + dir_dy(dir) * k
}

impl BoxArrow {
    /// Structural invariant: the clue sits on the grid and points somewhere.
    pub open spec fn wf(&self, dim: int) -> bool {
        &&& in_grid(dim, self.pos.x as int, self.pos.y as int)
        &&& 1 <= self.val <= 15
    }

    /// True when the arrow points in direction `dir`.
    pub open spec fn spec_has_dir(&self, dir: usize) -> bool {
        self.val & dir != 0
    }

    /// Returns true if the arrow points in the given direction.
    #[verifier::when_used_as_spec(spec_has_dir)]
    pub fn has_dir(&self, dir: usize) -> (r: bool)
        ensures
            r == self.spec_has_dir(dir),
    {
        self.val & dir != 0
    }
}

/// Distance `d` does not contradict the known assignments when looking from
/// arrow `a` along the single direction `dir`: in a pointed direction the
/// target cell must be on the grid, possibly a box cell, and no known box
/// cell may lie strictly before it; in a non-pointed direction no known box
/// cell may lie within distance `d`.
pub open spec fn dir_feasible(a: BoxArrow, dim: int, kg: CellSet, ro: CellSet, dir: usize, d: int) -> bool {
    if a.val & dir != 0 {
        &&& in_grid(dim, ray_x(a.pos.x as int, dir, d), ray_y(a.pos.y as int, dir, d))
        &&& forall|k: int| 1 <= k < d ==> !kg.has(ray_x(a.pos.x as int, dir, k), ray_y(a.pos.y as int, dir, k))
        &&& (kg.has(ray_x(a.pos.x as int, dir, d), ray_y(a.pos.y as int, dir, d)) || !ro.has(
            ray_x(a.pos.x as int, dir, d),
            ray_y(a.pos.y as int, dir, d),
        ))
    } else {
        forall|k: int| 1 <= k <= d ==> !kg.has(ray_x(a.pos.x as int, dir, k), ray_y(a.pos.y as int, dir, k))
    }
}

/// Distance `d` is feasible for arrow `a` at the given state: it does not
/// contradict the known assignments in any of the four directions.
pub open spec fn feasible(a: BoxArrow, dim: int, kg: CellSet, ro: CellSet, d: int) -> bool {
    &&& 1 <= d < dim
    &&& dir_feasible(a, dim, kg, ro, NORTH, d)
    &&& dir_feasible(a, dim, kg, ro, EAST, d)
    &&& dir_feasible(a, dim, kg, ro, SOUTH, d)
    &&& dir_feasible(a, dim, kg, ro, WEST, d)
}

/// Some distance is feasible for the arrow at this state.
pub open spec fn some_feasible(a: BoxArrow, dim: int, kg: CellSet, ro: CellSet) -> bool {
    exists|d: int| feasible(a, dim, kg, ro, d)
}

/// `d` is the only feasible distance for the arrow at this state.
pub open spec fn unique_feasible(a: BoxArrow, dim: int, kg: CellSet, ro: CellSet, d: int) -> bool {
    &&& feasible(a, dim, kg, ro, d)
    &&& forall|d2: int| feasible(a, dim, kg, ro, d2) ==> d2 == d
}

/// `(x, y)` is the cell at distance `d` from the arrow along the pointed
/// direction `dir`; solving the arrow at distance `d` forces it to be a box
/// cell.
pub open spec fn forced_box_in_dir(a: BoxArrow, dim: int, d: int, dir: usize, x: int, y: int) -> bool {
    &&& a.val & dir != 0
    &&& x == ray_x(a.pos.x as int, dir, d)
    &&& y == ray_y(a.pos.y as int, dir, d)
    &&& in_grid(dim, x, y)
}

/// Solving arrow `a` at distance `d` forces `(x, y)` to be a box cell.
pub open spec fn arrow_forced_box(a: BoxArrow, dim: int, d: int, x: int, y: int) -> bool {
    ||| forced_box_in_dir(a, dim, d, NORTH, x, y)
    ||| forced_box_in_dir(a, dim, d, EAST, x, y)
    ||| forced_box_in_dir(a, dim, d, SOUTH, x, y)
    ||| forced_box_in_dir(a, dim, d, WEST, x, y)
}

/// `(x, y)` lies on the ray from the arrow along `dir` at a distance in
/// `1 .. m`.
pub open spec fn on_ray_below(a: BoxArrow, dim: int, dir: usize, m: int, x: int, y: int) -> bool {
    exists|k: int|
        #![trigger ray_x(a.pos.x as int, dir, k), ray_y(a.pos.y as int, dir, k)]
        1 <= k < m && x == ray_x(a.pos.x as int, dir, k) && y == ray_y(a.pos.y as int, dir, k) && in_grid(dim, x, y)
}

/// A distance feasible under larger disjoint assignment sets is feasible
/// under any smaller pair they extend.
pub proof fn lemma_dir_feasible_anti(
    a: BoxArrow,
    dim: int,
    kg0: CellSet,
    ro0: CellSet,
    kg1: CellSet,
    ro1: CellSet,
    dir: usize,
    d: int,
)
    requires
        dir_feasible(a, dim, kg1, ro1, dir, d),
        forall|x: int, y: int| kg0.has(x, y) ==> kg1.has(x, y),
        forall|x: int, y: int| ro0.has(x, y) ==> ro1.has(x, y),
        forall|x: int, y: int| !(kg1.has(x, y) && ro1.has(x, y)),
    ensures
        dir_feasible(a, dim, kg0, ro0, dir, d),
{
    let px = a.pos.x as int;
    let py = a.pos.y as int;
    if a.val & dir != 0 {
        assert forall|k: int| 1 <= k < d implies !kg0.has(ray_x(px, dir, k), ray_y(py, dir,
            k)) by {
            assert(!kg1.has(ray_x(px, dir, k), ray_y(py, dir, k)));
        }
        let tx = ray_x(px, dir, d);
        let ty = ray_y(py, dir, d);
        assert(!ro1.has(tx, ty));
        assert(!ro0.has(tx, ty));
    } else {
        assert forall|k: int| 1 <= k <= d implies !kg0.has(ray_x(px, dir, k), ray_y(py, dir,
            k)) by {
            assert(!kg1.has(ray_x(px, dir, k), ray_y(py, dir, k)));
        }
    }
}

/// A distance feasible under larger disjoint assignment sets is feasible
/// under any smaller pair they extend.
pub proof fn lemma_feasible_anti(
    a: BoxArrow,
    dim: int,
    kg0: CellSet,
    ro0: CellSet,
    kg1: CellSet,
    ro1: CellSet,
    d: int,
)
    requires
        feasible(a, dim, kg1, ro1, d),
        forall|x: int, y: int| kg0.has(x, y) ==> kg1.has(x, y),
        forall|x: int, y: int| ro0.has(x, y) ==> ro1.has(x, y),
        forall|x: int, y: int| !(kg1.has(x, y) && ro1.has(x, y)),
    ensures
        feasible(a, dim, kg0, ro0, d),
{
    lemma_dir_feasible_anti(a, dim, kg0, ro0, kg1, ro1, NORTH, d);
    lemma_dir_feasible_anti(a, dim, kg0, ro0, kg1, ro1, EAST, d);
    lemma_dir_feasible_anti(a, dim, kg0, ro0, kg1, ro1, SOUTH, d);
    lemma_dir_feasible_anti(a, dim, kg0, ro0, kg1, ro1, WEST, d);
}

/// Extract the distance at which a cell of the ray lies.
pub proof fn lemma_on_ray_below_elim(
    a: BoxArrow,
    dim: int,
    dir: usize,
    m: int,
    x: int,
    y: int,
) -> (k: int)
    requires
        on_ray_below(a, dim, dir, m, x, y),
    ensures
        1 <= k < m,
        x == ray_x(a.pos.x as int, dir, k),
        y == ray_y(a.pos.y as int, dir, k),
        in_grid(dim, x, y),
{
    choose|k: int|
        #![trigger ray_x(a.pos.x as int, dir, k), ray_y(a.pos.y as int, dir, k)]
        1 <= k < m && x == ray_x(a.pos.x as int, dir, k) && y == ray_y(a.pos.y as int, dir, k)
            && in_grid(dim, x, y)
}

/// Solving arrow `a` at distance `d` forces `(x, y)` to be a non-box cell
/// through direction `dir`: strictly before the target in a pointed
/// direction, and up to distance `d` inclusive in a non-pointed one.
pub open spec fn forced_nonbox_in_dir(a: BoxArrow, dim: int, d: int, dir: usize, x: int, y: int) -> bool {
    on_ray_below(a, dim, dir, if a.val & dir != 0 {
        d
    } else {
        d + 1
    }, x, y)
}

/// Solving arrow `a` at distance `d` forces `(x, y)` to be a non-box cell.
pub open spec fn arrow_forced_nonbox(a: BoxArrow, dim: int, d: int, x: int, y: int) -> bool {
    ||| forced_nonbox_in_dir(a, dim, d, NORTH, x, y)
    ||| forced_nonbox_in_dir(a, dim, d, EAST, x, y)
    ||| forced_nonbox_in_dir(a, dim, d, SOUTH, x, y)
    ||| forced_nonbox_in_dir(a, dim, d, WEST, x, y)
}

/// Walk one direction of a freshly solved arrow, collecting the cells it
/// forces that are not already assigned that way.
pub(crate) fn mark_dir(
    a: BoxArrow,
    dim: usize,
    d: usize,
    dir: usize,
    kg: &CellSet,
    ro: &CellSet,
    newly_kg: &mut CellSet,
    newly_ro: &mut CellSet,
)
    requires
        a.wf(dim as int),
        kg.wf(),
        ro.wf(),
        kg.dim == dim,
        ro.dim == dim,
        old(newly_kg).wf(),
        old(newly_ro).wf(),
        old(newly_kg).dim == dim,
        old(newly_ro).dim == dim,
        is_dir(dir),
        1 <= d < dim,
    ensures
        final(newly_kg).wf(),
        final(newly_ro).wf(),
        final(newly_kg).dim == dim,
        final(newly_ro).dim == dim,
        forall|x: int, y: int|
            #![trigger final(newly_kg).has(x, y)]
            final(newly_kg).has(x, y) <==> (old(newly_kg).has(x, y) || (forced_box_in_dir(
                a,
                dim as int,
                d as int,
                dir,
                x,
                y,
            ) && !kg.has(x, y))),
        forall|x: int, y: int|
            #![trigger final(newly_ro).has(x, y)]
            final(newly_ro).has(x, y) <==> (old(newly_ro).has(x, y) || (forced_nonbox_in_dir(
                a,
                dim as int,
                d as int,
                dir,
                x,
                y,
            ) && !ro.has(x, y))),
{
    let ghost nkg0 = *old(newly_kg);
    let ghost nro0 = *old(newly_ro);
    let delta = dir_delta(dir);
    let pointed = a.has_dir(dir);
    let hi: usize = if pointed {
        d
    } else {
        d + 1
    };
    let mut k: usize = 1;
    while k < hi
        invariant
            a.wf(dim as int),
            ro.wf(),
            ro.dim == dim,
            newly_ro.wf(),
            newly_ro.dim == dim,
            newly_kg.wf(),
            newly_kg.dim == dim,
            *newly_kg == nkg0,
            is_dir(dir),
            1 <= d < dim <= DIM_MAX,
            delta.x == dir_dx(dir),
            delta.y == dir_dy(dir),
            pointed == a.spec_has_dir(dir),
            hi == if pointed {
                d as int
            } else {
                d + 1
            },
            1 <= k <= hi,
            forall|x: int, y: int|
                #![trigger newly_ro.has(x, y)]
                newly_ro.has(x, y) <==> (nro0.has(x, y) || (on_ray_below(
                    a,
                    dim as int,
                    dir,
                    k as int,
                    x,
                    y,
                ) && !ro.has(x, y))),
        decreases hi - k,
    {
        let step = delta.scaled(k as isize);
        proof {
            lemma_unit_scale_bound(delta.x as int, k as int);
            lemma_unit_scale_bound(delta.y as int, k as int);
        }
        let coord = a.pos.plus(step);
        let ghost pre = *newly_ro;
        if coord.in_bounds(dim) && !ro.contains_v2(coord) {
            newly_ro.insert(coord.x as usize, coord.y as usize);
        }
        proof {
            assert(coord.x == ray_x(a.pos.x as int, dir, k as int));
            assert(coord.y == ray_y(a.pos.y as int, dir, k as int));
            assert forall|x: int, y: int|
                #![trigger newly_ro.has(x, y)]
                newly_ro.has(x, y) <==> (nro0.has(x, y) || (on_ray_below(
                    a,
                    dim as int,
                    dir,
                    k + 1int,
                    x,
                    y,
                ) && !ro.has(x, y))) by {
                assert(pre.has(x, y) <==> (nro0.has(x, y) || (on_ray_below(
                    a,
                    dim as int,
                    dir,
                    k as int,
                    x,
                    y,
                ) && !ro.has(x, y))));
                if newly_ro.has(x, y) {
                    if pre.has(x, y) {
                        if !nro0.has(x, y) {
                            let k0 = choose|k0: int|
                                #![trigger ray_x(a.pos.x as int, dir, k0), ray_y(a.pos.y as int, dir, k0)]
                                1 <= k0 < k && x == ray_x(a.pos.x as int, dir, k0) && y == ray_y(a.pos.y as int, dir, k0)
                                    && in_grid(dim as int, x, y);
                            assert(1 <= k0 < k + 1 && x == ray_x(a.pos.x as int, dir, k0) && y == ray_y(a.pos.y as int, dir, k0) && in_grid(dim as int, x, y));
                        }
                    } else {
                        assert(x == coord.x && y == coord.y);
                        assert(1 <= (k as int) < k + 1 && x == ray_x(a.pos.x as int, dir, k as int) && y == ray_y(a.pos.y as int, dir, k as int) && in_grid(dim as int, x, y));
                    }
                }
                if on_ray_below(a, dim as int, dir, k + 1int, x, y) && !ro.has(x, y) {
                    let k0 = choose|k0: int|
                        #![trigger ray_x(a.pos.x as int, dir, k0), ray_y(a.pos.y as int, dir, k0)]
                        1 <= k0 < k + 1 && x == ray_x(a.pos.x as int, dir, k0) && y == ray_y(a.pos.y as int, dir, k0)
                            && in_grid(dim as int, x, y);
                    if k0 < k {
                        assert(1 <= k0 < k && x == ray_x(a.pos.x as int, dir, k0) && y == ray_y(a.pos.y as int, dir, k0)
                            && in_grid(dim as int, x, y));
                        assert(on_ray_below(a, dim as int, dir, k as int, x, y));
                        assert(pre.has(x, y));
                    } else {
                        assert(k0 == k as int);
                        assert(x == coord.x && y == coord.y);
                        assert(newly_ro.has(x, y));
                    }
                }
            }
        }
        k = k + 1;
    }
    proof {
        assert(k as int == if a.val & dir != 0 {
            d as int
        } else {
            d + 1
        });
        assert forall|x: int, y: int|
            #![trigger newly_ro.has(x, y)]
            newly_ro.has(x, y) <==> (nro0.has(x, y) || (forced_nonbox_in_dir(
                a,
                dim as int,
                d as int,
                dir,
                x,
                y,
            ) && !ro.has(x, y))) by {
            assert(forced_nonbox_in_dir(a, dim as int, d as int, dir, x, y) == on_ray_below(
                a,
                dim as int,
                dir,
                k as int,
                x,
                y,
            ));
        }
    }
    if pointed {
        let step = delta.scaled(d as isize);
        proof {
            lemma_unit_scale_bound(delta.x as int, d as int);
            lemma_unit_scale_bound(delta.y as int, d as int);
        }
        let target = a.pos.plus(step);
        proof {
            assert(target.x == ray_x(a.pos.x as int, dir, d as int));
            assert(target.y == ray_y(a.pos.y as int, dir, d as int));
        }
        let ghost prekg = *newly_kg;
        if target.in_bounds(dim) && !kg.contains_v2(target) {
            newly_kg.insert(target.x as usize, target.y as usize);
        }
        proof {
            assert forall|x: int, y: int|
                #![trigger newly_kg.has(x, y)]
                newly_kg.has(x, y) <==> (nkg0.has(x, y) || (forced_box_in_dir(
                    a,
                    dim as int,
                    d as int,
                    dir,
                    x,
                    y,
                ) && !kg.has(x, y))) by {
                if newly_kg.has(x, y) && !prekg.has(x, y) {
                    assert(x == target.x && y == target.y);
                }
            }
        }
    } else {
        proof {
            assert forall|x: int, y: int|
                #![trigger newly_kg.has(x, y)]
                newly_kg.has(x, y) <==> (nkg0.has(x, y) || (forced_box_in_dir(
                    a,
                    dim as int,
                    d as int,
                    dir,
                    x,
                    y,
                ) && !kg.has(x, y))) by {}
        }
    }
}

impl BoxArrow {
    /// Feasibility of distance `d` along one direction, computed by walking
    /// the ray.
    fn dir_feasible_at(&self, dim: usize, kg: &CellSet, ro: &CellSet, dir: usize, d: usize) -> (r:
        bool)
        requires
            self.wf(dim as int),
            kg.wf(),
            ro.wf(),
            kg.dim == dim,
            ro.dim == dim,
            is_dir(dir),
            1 <= d < dim,
        ensures
            r == dir_feasible(*self, dim as int, *kg, *ro, dir, d as int),
    {
        let delta = dir_delta(dir);
        let pointed = self.has_dir(dir);
        let mut k: usize = 1;
        let hi: usize = if pointed {
            d
        } else {
            d + 1
        };
        while k < hi
            invariant
                self.wf(dim as int),
                kg.wf(),
                ro.wf(),
                kg.dim == dim,
                ro.dim == dim,
                is_dir(dir),
                1 <= d < dim <= DIM_MAX,
                delta.x == dir_dx(dir),
                delta.y == dir_dy(dir),
                pointed == self.spec_has_dir(dir),
                hi == if pointed {
                    d as int
                } else {
                    d + 1
                },
                1 <= k <= hi,
                forall|j: int| 1 <= j < k ==> !kg.has(ray_x(self.pos.x as int, dir, j), ray_y(self.pos.y as int, dir, j)),
            decreases hi - k,
        {
            let step = delta.scaled(k as isize);
            proof {
                lemma_unit_scale_bound(delta.x as int, k as int);
                lemma_unit_scale_bound(delta.y as int, k as int);
            }
            let coord = self.pos.plus(step);
            proof {
                assert(coord.x == ray_x(self.pos.x as int, dir, k as int));
                assert(coord.y == ray_y(self.pos.y as int, dir, k as int));
            }
            if kg.contains_v2(coord) {
                return false;
            }
            k = k + 1;
        }
        if pointed {
            let step = delta.scaled(d as isize);
            proof {
                lemma_unit_scale_bound(delta.x as int, d as int);
                lemma_unit_scale_bound(delta.y as int, d as int);
            }
            let target = self.pos.plus(step);
            proof {
                assert(target.x == ray_x(self.pos.x as int, dir, d as int));
                assert(target.y == ray_y(self.pos.y as int, dir, d as int));
            }
            if !target.in_bounds(dim) {
                return false;
            }
            kg.contains_v2(target) || !ro.contains_v2(target)
        } else {
            true
        }
    }

    /// Returns all possible distances between the arrow cell and the nearest
    /// box cells in the pointed-to directions that don't contradict already
    /// known assignments of cells on the grid. The result is strictly
    /// increasing and holds exactly the feasible distances.
    pub fn possible_distances(&self, dim: usize, kg: &CellSet, ro: &CellSet) -> (r: Vec<usize>)
        requires
            self.wf(dim as int),
            kg.wf(),
            ro.wf(),
            kg.dim == dim,
            ro.dim == dim,
        ensures
            forall|i: int, j: int| 0 <= i < j < r@.len() ==> r@[i] < r@[j],
            forall|i: int|
                0 <= i < r@.len() ==> feasible(*self, dim as int, *kg, *ro, r@[i] as int),
            forall|d: int|
                feasible(*self, dim as int, *kg, *ro, d) ==> exists|i: int|
                    0 <= i < r@.len() && r@[i] == d,
    {
        let mut r: Vec<usize> = Vec::new();
        let mut d: usize = 1;
        while d < dim
            invariant
                self.wf(dim as int),
                kg.wf(),
                ro.wf(),
                kg.dim == dim,
                ro.dim == dim,
                1 <= d <= dim,
                forall|i: int, j: int| 0 <= i < j < r@.len() ==> r@[i] < r@[j],
                forall|i: int| 0 <= i < r@.len() ==> r@[i] < d,
                forall|i: int|
                    0 <= i < r@.len() ==> feasible(*self, dim as int, *kg, *ro, r@[i] as int),
                forall|e: int|
                    1 <= e < d && feasible(*self, dim as int, *kg, *ro, e) ==> exists|i: int|
                        0 <= i < r@.len() && r@[i] == e,
            decreases dim - d,
        {
            let ok = self.dir_feasible_at(dim, kg, ro, NORTH, d)
                && self.dir_feasible_at(dim, kg, ro, EAST, d)
                && self.dir_feasible_at(dim, kg, ro, SOUTH, d)
                && self.dir_feasible_at(dim, kg, ro, WEST, d);
            let ghost r0 = r@;
            if ok {
                r.push(d);
            }
            proof {
                assert forall|e: int|
                    1 <= e < d + 1 && feasible(*self, dim as int, *kg, *ro, e) implies exists|i: int|
                    0 <= i < r@.len() && r@[i] == e by {
                    if e == d {
                        assert(ok);
                        assert(r@[r@.len() - 1] == e);
                    } else {
                        let i = choose|i: int| 0 <= i < r0.len() && r0[i] == e;
                        assert(r@[i] == e);
                    }
                }
            }
            d = d + 1;
        }
        r
    }

    /// Test if the current cell assignments violate the constraints of
    /// this arrow: they do exactly when no feasible distance remains.
    pub fn cell_assignment_validate(&self, dim: usize, known_good: &CellSet, ruled_out: &CellSet) -> (r: bool)
        requires
            self.wf(dim as int),
            known_good.wf(),
            ruled_out.wf(),
            known_good.dim == dim,
            ruled_out.dim == dim,
        ensures
            r == some_feasible(*self, dim as int, *known_good, *ruled_out),
    {
        let dists = self.possible_distances(dim, known_good, ruled_out);
        if dists.len() == 0 {
            proof {
                if some_feasible(*self, dim as int, *known_good, *ruled_out) {
                    let d = choose|d: int| feasible(*self, dim as int, *known_good, *ruled_out,
                        d);
                    let k = choose|k: int| 0 <= k < dists@.len() && dists@[k] == d;
                    assert(false);
                }
            }
            return false;
        }
        proof {
            assert(feasible(*self, dim as int, *known_good, *ruled_out, dists@[0] as int));
        }
        true
    }

    /// If a single feasible distance is left for an unsolved arrow, the
    /// arrow is solved: cells strictly before the target in pointed
    /// directions and cells up to the distance in non-pointed directions are
    /// forced non-box, the targets are forced box. Returns whether the rule
    /// fired together with the newly forced box and non-box cells (those not
    /// already assigned that way). Applying the rule to a solved arrow
    /// changes nothing, so the rule is idempotent.
    pub fn try_solve(&mut self, dim: usize, kg: &CellSet, ro: &CellSet) -> (r: (bool, CellSet, CellSet, Ghost<int>))
        requires
            old(self).wf(dim as int),
            kg.wf(),
            ro.wf(),
            kg.dim == dim,
            ro.dim == dim,
        ensures
            final(self).pos == old(self).pos,
            final(self).val == old(self).val,
            final(self).dist == old(self).dist,
            final(self).solved == (old(self).solved || r.0),
            old(self).solved ==> *final(self) == *old(self) && !r.0,
            r.1.wf() && r.1.dim == dim && r.2.wf() && r.2.dim == dim,
            !r.0 ==> *final(self) == *old(self) && (forall|x: int, y: int| !r.1.has(x, y))
                && (forall|x: int, y: int| !r.2.has(x, y)),
            r.0 == (!old(self).solved && exists|d: int|
                unique_feasible(*old(self), dim as int, *kg, *ro, d)),
            r.0 ==> unique_feasible(*old(self), dim as int, *kg, *ro, r.3@),
            r.0 ==> forall|x: int, y: int|
                #![trigger r.1.has(x, y)]
                r.1.has(x, y) <==> (arrow_forced_box(*old(self), dim as int, r.3@, x, y)
                    && !kg.has(x, y)),
            r.0 ==> forall|x: int, y: int|
                #![trigger r.2.has(x, y)]
                r.2.has(x, y) <==> (arrow_forced_nonbox(*old(self), dim as int, r.3@, x, y)
                    && !ro.has(x, y)),
    {
        let mut newly_kg = CellSet::new(dim);
        let mut newly_ro = CellSet::new(dim);
        if self.solved {
            return (false, newly_kg, newly_ro, Ghost(0));
        }
        let a = *self;
        let dists = a.possible_distances(dim, kg, ro);
        if dists.len() == 1 {
            let d = dists[0];
            proof {
                assert(feasible(a, dim as int, *kg, *ro, d as int));
                assert forall|d2: int| feasible(a, dim as int, *kg, *ro, d2) implies d2 == d by {
                    let i = choose|i: int| 0 <= i < dists@.len() && dists@[i] == d2;
                    assert(i == 0);
                }
                assert(unique_feasible(a, dim as int, *kg, *ro, d as int));
            }
            self.solved = true;
            let ghost k0 = newly_kg;
            let ghost o0 = newly_ro;
            mark_dir(a, dim, d, NORTH, kg, ro, &mut newly_kg, &mut newly_ro);
            let ghost k1 = newly_kg;
            let ghost o1 = newly_ro;
            mark_dir(a, dim, d, EAST, kg, ro, &mut newly_kg, &mut newly_ro);
            let ghost k2 = newly_kg;
            let ghost o2 = newly_ro;
            mark_dir(a, dim, d, SOUTH, kg, ro, &mut newly_kg, &mut newly_ro);
            let ghost k3 = newly_kg;
            let ghost o3 = newly_ro;
            mark_dir(a, dim, d, WEST, kg, ro, &mut newly_kg, &mut newly_ro);
            proof {
                let dd = dim as int;
                let di = d as int;
                assert forall|x: int, y: int|
                    newly_kg.has(x, y) <==> (arrow_forced_box(a, dd, di, x, y) && !kg.has(x, y)) by {
                    assert(k1.has(x, y) <==> (k0.has(x, y) || (forced_box_in_dir(a, dd, di, NORTH, x, y)
                        && !kg.has(x, y))));
                    assert(k2.has(x, y) <==> (k1.has(x, y) || (forced_box_in_dir(a, dd, di, EAST, x, y)
                        && !kg.has(x, y))));
                    assert(k3.has(x, y) <==> (k2.has(x, y) || (forced_box_in_dir(a, dd, di, SOUTH, x, y)
                        && !kg.has(x, y))));
                    assert(newly_kg.has(x, y) <==> (k3.has(x, y) || (forced_box_in_dir(a, dd, di, WEST, x, y)
                        && !kg.has(x, y))));
                    assert(!k0.has(x, y));
                }
                assert forall|x: int, y: int|
                    newly_ro.has(x, y) <==> (arrow_forced_nonbox(a, dd, di, x, y) && !ro.has(x, y)) by {
                    assert(o1.has(x, y) <==> (o0.has(x, y) || (forced_nonbox_in_dir(a, dd, di, NORTH, x, y)
                        && !ro.has(x, y))));
                    assert(o2.has(x, y) <==> (o1.has(x, y) || (forced_nonbox_in_dir(a, dd, di, EAST, x, y)
                        && !ro.has(x, y))));
                    assert(o3.has(x, y) <==> (o2.has(x, y) || (forced_nonbox_in_dir(a, dd, di, SOUTH, x, y)
                        && !ro.has(x, y))));
                    assert(newly_ro.has(x, y) <==> (o3.has(x, y) || (forced_nonbox_in_dir(a, dd, di, WEST, x, y)
                        && !ro.has(x, y))));
                    assert(!o0.has(x, y));
                }
            }
            return (true, newly_kg, newly_ro, Ghost(d as int));
        }
        proof {
            if exists|d0: int| unique_feasible(a, dim as int, *kg, *ro, d0) {
                let d0 = choose|d0: int| unique_feasible(a, dim as int, *kg, *ro, d0);
                let i0 = choose|i: int| 0 <= i < dists@.len() && dists@[i] == d0;
                if dists@.len() >= 2 {
                    assert(feasible(a, dim as int, *kg, *ro, dists@[0] as int));
                    assert(feasible(a, dim as int, *kg, *ro, dists@[1] as int));
                    assert(dists@[0] as int == d0 && dists@[1] as int == d0);
                    assert(dists@[0] < dists@[1]);
                    assert(false);
                } else {
                    assert(dists@.len() == 0);
                    assert(0 <= i0 < 0);
                    assert(false);
                }
            }
        }
        (false, newly_kg, newly_ro, Ghost(0))
    }
}

/// x coordinate of neighborhood slot `i` of a number clue at x coordinate
/// `px`.
pub open spec fn nb_x(px: int, i: int) -> int {
    px + num_dx(i)
}

/// y coordinate of neighborhood slot `i` of a number clue at y coordinate
/// `py`.
pub open spec fn nb_y(py: int, i: int) -> int {
    py + num_dy(i)
}

/// Number of in-grid cells among the first `i` neighborhood slots of a
/// number clue at `(px, py)`.
pub open spec fn nbhd_total_upto(px: int, py: int, dim: int, i: int) -> int
    decreases i,
{
    if i <= 0 {
        0
    } else {
        nbhd_total_upto(px, py, dim, i - 1) + if in_grid(dim, nb_x(px, i - 1), nb_y(py, i - 1)) {
            1int
        } else {
            0int
        }
    }
}

/// Size of the clipped 3x3 neighborhood of `n`.
pub open spec fn nbhd_total(n: BoxNumber, dim: int) -> int {
    nbhd_total_upto(n.pos.x as int, n.pos.y as int, dim, 9)
}

/// Number of cells of `s` among the first `i` neighborhood slots.
pub open spec fn nbhd_in_upto(px: int, py: int, s: CellSet, i: int) -> int
    decreases i,
{
    if i <= 0 {
        0
    } else {
        nbhd_in_upto(px, py, s, i - 1) + if s.has(nb_x(px, i - 1), nb_y(py, i - 1)) {
            1int
        } else {
            0int
        }
    }
}

/// Known-box count within the neighborhood of `n`.
pub open spec fn nbhd_box(n: BoxNumber, kg: CellSet) -> int {
    nbhd_in_upto(n.pos.x as int, n.pos.y as int, kg, 9)
}

/// Number of assigned (box or non-box) cells among the first `i` slots.
pub open spec fn nbhd_assigned_upto(px: int, py: int, kg: CellSet, ro: CellSet, i: int) -> int
    decreases i,
{
    if i <= 0 {
        0
    } else {
        nbhd_assigned_upto(px, py, kg, ro, i - 1) + if kg.has(nb_x(px, i - 1), nb_y(py, i - 1))
            || ro.has(nb_x(px, i - 1), nb_y(py, i - 1)) {
            1int
        } else {
            0int
        }
    }
}

/// Number of assigned cells within the neighborhood of `n`.
pub open spec fn nbhd_assigned(n: BoxNumber, kg: CellSet, ro: CellSet) -> int {
    nbhd_assigned_upto(n.pos.x as int, n.pos.y as int, kg, ro, 9)
}

/// Number of known-non-box (and not known-box) cells among the first `i`
/// slots.
pub open spec fn nbhd_ro_upto(px: int, py: int, kg: CellSet, ro: CellSet, i: int) -> int
    decreases i,
{
    if i <= 0 {
        0
    } else {
        nbhd_ro_upto(px, py, kg, ro, i - 1) + if !kg.has(nb_x(px, i - 1), nb_y(py, i - 1))
            && ro.has(nb_x(px, i - 1), nb_y(py, i - 1)) {
            1int
        } else {
            0int
        }
    }
}

/// Known-non-box count within the neighborhood of `n`.
pub open spec fn nbhd_ro(n: BoxNumber, kg: CellSet, ro: CellSet) -> int {
    nbhd_ro_upto(n.pos.x as int, n.pos.y as int, kg, ro, 9)
}

/// The current assignments do not contradict number clue `n`: the known-box
/// count never exceeds the clue's value, and once the whole neighborhood is
/// assigned the count matches it exactly.
pub open spec fn number_ok(n: BoxNumber, dim: int, kg: CellSet, ro: CellSet) -> bool {
    &&& nbhd_box(n, kg) <= n.val
    &&& (nbhd_assigned(n, kg, ro) == nbhd_total(n, dim) ==> nbhd_box(n, kg) == n.val)
}

/// `(x, y)` is an in-grid, still unassigned cell of the neighborhood of `n`.
pub open spec fn nbhd_unassigned(n: BoxNumber, dim: int, kg: CellSet, ro: CellSet, x: int, y: int) -> bool {
    &&& n.pos.x - 1 <= x <= n.pos.x + 1
    &&& n.pos.y - 1 <= y <= n.pos.y + 1
    &&& in_grid(dim, x, y)
    &&& !kg.has(x, y)
    &&& !ro.has(x, y)
}

/// Row-major slot index of `(x, y)` within the neighborhood of `n`.
pub open spec fn slot_of(n: BoxNumber, x: int, y: int) -> int {
    (y - n.pos.y + 1) * 3 + (x - n.pos.x + 1)
}

impl BoxNumber {
    /// Structural invariant: the clue sits on the grid with a value a 3x3
    /// neighborhood can meet.
    pub open spec fn wf(&self, dim: int) -> bool {
        &&& in_grid(dim, self.pos.x as int, self.pos.y as int)
        &&& self.val <= 9
    }

    /// Count the neighborhood: `(total, box, assigned, non-box)`.
    fn count_nbhd(&self, dim: usize, kg: &CellSet, ro: &CellSet) -> (r: (usize, usize, usize,
        usize))
        requires
            self.wf(dim as int),
            kg.wf(),
            ro.wf(),
            kg.dim == dim,
            ro.dim == dim,
        ensures
            r.0 == nbhd_total(*self, dim as int),
            r.1 == nbhd_box(*self, *kg),
            r.2 == nbhd_assigned(*self, *kg, *ro),
            r.3 == nbhd_ro(*self, *kg, *ro),
    {
        let mut total: usize = 0;
        let mut boxc: usize = 0;
        let mut asg: usize = 0;
        let mut roc: usize = 0;
        let mut i: usize = 0;
        while i < 9
            invariant
                self.wf(dim as int),
                kg.wf(),
                ro.wf(),
                kg.dim == dim,
                ro.dim == dim,
                i <= 9,
                total == nbhd_total_upto(self.pos.x as int, self.pos.y as int, dim as int, i as int),
                boxc == nbhd_in_upto(self.pos.x as int, self.pos.y as int, *kg, i as int),
                asg == nbhd_assigned_upto(self.pos.x as int, self.pos.y as int, *kg, *ro, i as int),
                roc == nbhd_ro_upto(self.pos.x as int, self.pos.y as int, *kg, *ro, i as int),
                total <= i && boxc <= i && asg <= i && roc <= i,
            decreases 9 - i,
        {
            let delta = num_delta(i);
            let coord = self.pos.plus(delta);
            proof {
                assert(coord.x == nb_x(self.pos.x as int, i as int));
                assert(coord.y == nb_y(self.pos.y as int, i as int));
            }
            if coord.in_bounds(dim) {
                total = total + 1;
            }
            let in_kg = kg.contains_v2(coord);
            let in_ro = ro.contains_v2(coord);
            if in_kg {
                boxc = boxc + 1;
                asg = asg + 1;
            } else if in_ro {
                roc = roc + 1;
                asg = asg + 1;
            }
            i = i + 1;
        }
        (total, boxc, asg, roc)
    }

    /// Test if the current cell assignments violate the constraints of this
    /// number.
    pub fn cell_assignment_validate(&self, dim: usize, kg: &CellSet, ro: &CellSet) -> (r: bool)
        requires
            self.wf(dim as int),
            kg.wf(),
            ro.wf(),
            kg.dim == dim,
            ro.dim == dim,
        ensures
            r == number_ok(*self, dim as int, *kg, *ro),
    {
        let (total, boxc, asg, _roc) = self.count_nbhd(dim, kg, ro);
        if boxc > self.val {
            return false;
        }
        if asg == total && boxc != self.val {
            return false;
        }
        true
    }
}

/// The still unassigned cells of the neighborhood of `n`, as a set.
fn collect_unassigned(n: BoxNumber, dim: usize, kg: &CellSet, ro: &CellSet) -> (r: CellSet)
    requires
        n.wf(dim as int),
        kg.wf(),
        ro.wf(),
        kg.dim == dim,
        ro.dim == dim,
    ensures
        r.wf(),
        r.dim == dim,
        forall|x: int, y: int|
            #![trigger r.has(x, y)]
            r.has(x, y) <==> nbhd_unassigned(n, dim as int, *kg, *ro, x, y),
{
    let mut r = CellSet::new(dim);
    let mut i: usize = 0;
    while i < 9
        invariant
            n.wf(dim as int),
            kg.wf(),
            ro.wf(),
            kg.dim == dim,
            ro.dim == dim,
            r.wf(),
            r.dim == dim,
            i <= 9,
            forall|x: int, y: int|
                #![trigger r.has(x, y)]
                r.has(x, y) <==> (nbhd_unassigned(n, dim as int, *kg, *ro, x, y) && slot_of(
                    n,
                    x,
                    y,
                ) < i),
        decreases 9 - i,
    {
        let delta = num_delta(i);
        let coord = n.pos.plus(delta);
        proof {
            assert(coord.x == nb_x(n.pos.x as int, i as int));
            assert(coord.y == nb_y(n.pos.y as int, i as int));
            assert(slot_of(n, coord.x as int, coord.y as int) == i);
        }
        let ghost pre = r;
        if coord.in_bounds(dim) && !kg.contains_v2(coord) && !ro.contains_v2(coord) {
            r.insert(coord.x as usize, coord.y as usize);
        }
        proof {
            assert forall|x: int, y: int|
                #![trigger r.has(x, y)]
                r.has(x, y) <==> (nbhd_unassigned(n, dim as int, *kg, *ro, x, y) && slot_of(
                    n,
                    x,
                    y,
                ) < i + 1) by {
                if nbhd_unassigned(n, dim as int, *kg, *ro, x, y) && slot_of(n, x, y) == i {
                    assert(x == coord.x && y == coord.y) by {
                        let dx = x - n.pos.x + 1;
                        let dy = y - n.pos.y + 1;
                        assert(0 <= dx <= 2 && 0 <= dy <= 2 && dy * 3 + dx == i);
                        if dy == 0 {
                            assert(x == nb_x(n.pos.x as int, i as int) && y == nb_y(n.pos.y as int, i as int));
                        } else if dy == 1 {
                            assert(x == nb_x(n.pos.x as int, i as int) && y == nb_y(n.pos.y as int, i as int));
                        } else {
                            assert(x == nb_x(n.pos.x as int, i as int) && y == nb_y(n.pos.y as int, i as int));
                        }
                    }
                }
            }
        }
        i = i + 1;
    }
    proof {
        assert forall|x: int, y: int|
            #![trigger r.has(x, y)]
            r.has(x, y) <==> nbhd_unassigned(n, dim as int, *kg, *ro, x, y) by {
            if nbhd_unassigned(n, dim as int, *kg, *ro, x, y) {
                assert(0 <= slot_of(n, x, y) < 9);
            }
        }
    }
    r
}

impl BoxNumber {
    /// The number clue is solved when the remaining neighborhood cells can be
    /// assigned in only one way: if all neighbors are already assigned it is
    /// marked solved with nothing forced; if the known-box count already
    /// meets the value, the remaining unassigned neighbors are forced
    /// non-box; if the known-non-box count leaves exactly the value's worth
    /// of cells, the remaining unassigned neighbors are forced box. Returns
    /// whether cells were forced, together with the newly forced box and
    /// non-box cells.
    pub fn try_solve(&mut self, dim: usize, kg: &CellSet, ro: &CellSet) -> (r: (bool, CellSet, CellSet))
        requires
            old(self).wf(dim as int),
            kg.wf(),
            ro.wf(),
            kg.dim == dim,
            ro.dim == dim,
        ensures
            final(self).pos == old(self).pos,
            final(self).val == old(self).val,
            final(self).is_circle == old(self).is_circle,
            final(self).is_square == old(self).is_square,
            r.1.wf() && r.1.dim == dim && r.2.wf() && r.2.dim == dim,
            old(self).solved ==> *final(self) == *old(self) && !r.0,
            !r.0 ==> (forall|x: int, y: int| !r.1.has(x, y)) && (forall|x: int, y: int|
                !r.2.has(x, y)),
            !old(self).solved && nbhd_assigned(*old(self), *kg, *ro) == nbhd_total(
                *old(self),
                dim as int,
            ) ==> !r.0 && final(self).solved,
            !old(self).solved && nbhd_assigned(*old(self), *kg, *ro) != nbhd_total(
                *old(self),
                dim as int,
            ) && nbhd_box(*old(self), *kg) == old(self).val ==> r.0 && final(self).solved && (
            forall|x: int, y: int|
                #![trigger r.2.has(x, y)]
                r.2.has(x, y) <==> nbhd_unassigned(*old(self), dim as int, *kg, *ro, x, y)) && (
            forall|x: int, y: int| !r.1.has(x, y)),
            !old(self).solved && nbhd_assigned(*old(self), *kg, *ro) != nbhd_total(
                *old(self),
                dim as int,
            ) && nbhd_box(*old(self), *kg) != old(self).val && nbhd_ro(*old(self), *kg, *ro)
                == nbhd_total(*old(self), dim as int) - old(self).val ==> r.0 && final(self).solved
                && (forall|x: int, y: int|
                #![trigger r.1.has(x, y)]
                r.1.has(x, y) <==> nbhd_unassigned(*old(self), dim as int, *kg, *ro, x, y)) && (
            forall|x: int, y: int| !r.2.has(x, y)),
            !old(self).solved && nbhd_assigned(*old(self), *kg, *ro) != nbhd_total(
                *old(self),
                dim as int,
            ) && nbhd_box(*old(self), *kg) != old(self).val && nbhd_ro(*old(self), *kg, *ro)
                != nbhd_total(*old(self), dim as int) - old(self).val ==> !r.0 && *final(self)
                == *old(self),
            final(self).solved == (old(self).solved || nbhd_assigned(*old(self), *kg, *ro)
                == nbhd_total(*old(self), dim as int) || r.0),
    {
        let newly_kg = CellSet::new(dim);
        let newly_ro = CellSet::new(dim);
        if self.solved {
            return (false, newly_kg, newly_ro);
        }
        let n = *self;
        let (total, boxc, asg, roc) = n.count_nbhd(dim, kg, ro);
        if asg == total {
            self.solved = true;
            return (false, newly_kg, newly_ro);
        }
        if boxc == self.val {
            self.solved = true;
            let forced = collect_unassigned(n, dim, kg, ro);
            return (true, newly_kg, forced);
        }
        if total >= self.val && roc == total - self.val {
            self.solved = true;
            let forced = collect_unassigned(n, dim, kg, ro);
            return (true, forced, newly_ro);
        }
        proof {
            if nbhd_ro(n, *kg, *ro) == nbhd_total(n, dim as int) - n.val {
                assert(nbhd_total(n, dim as int) >= n.val) by {
                    lemma_nbhd_counts(n.pos.x as int, n.pos.y as int, dim as int, *kg, *ro, 9);
                }
            }
        }
        (false, newly_kg, newly_ro)
    }
}

/// A neighborhood with fewer assigned than in-grid slots has a witness
/// slot that is in grid and unassigned.
pub proof fn lemma_nbhd_unassigned_witness(
    px: int,
    py: int,
    dim: int,
    kg: CellSet,
    ro: CellSet,
    i: int,
) -> (w: int)
    requires
        kg.dim == dim,
        ro.dim == dim,
        nbhd_assigned_upto(px, py, kg, ro, i) < nbhd_total_upto(px, py, dim, i),
    ensures
        0 <= w < i,
        in_grid(dim, nb_x(px, w), nb_y(py, w)),
        !kg.has(nb_x(px, w), nb_y(py, w)),
        !ro.has(nb_x(px, w), nb_y(py, w)),
    decreases i,
{
    if in_grid(dim, nb_x(px, i - 1), nb_y(py, i - 1)) && !kg.has(nb_x(px, i - 1), nb_y(py, i - 1))
        && !ro.has(nb_x(px, i - 1), nb_y(py, i - 1)) {
        i - 1
    } else {
        lemma_nbhd_unassigned_witness(px, py, dim, kg, ro, i - 1)
    }
}

/// The per-slot counters are consistent: non-box plus box counts never
/// exceed the assigned count, which never exceeds the slot total.
pub proof fn lemma_nbhd_counts(px: int, py: int, dim: int, kg: CellSet, ro: CellSet, i: int)
    requires
        kg.dim == dim,
        ro.dim == dim,
    ensures
        0 <= nbhd_ro_upto(px, py, kg, ro, i),
        0 <= nbhd_in_upto(px, py, kg, i),
        nbhd_ro_upto(px, py, kg, ro, i) + nbhd_in_upto(px, py, kg, i) == nbhd_assigned_upto(
            px,
            py,
            kg,
            ro,
            i,
        ),
        nbhd_assigned_upto(px, py, kg, ro, i) <= nbhd_total_upto(px, py, dim, i),
    decreases i,
{
    if i > 0 {
        lemma_nbhd_counts(px, py, dim, kg, ro, i - 1);
    }
}

} // verus!
