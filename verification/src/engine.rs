//! The constraint-propagation engine: seeding of clue cells, the local
//! deduction rules, and the fixpoint loop that applies them until no rule
//! adds a cell or a violation is found.
//!
//! Calling the fixpoint on an already-inconsistent state does not signal
//! invalidity through a return value; callers must re-check consistency
//! after every call.

use vstd::prelude::*;
use crate::geom::{Vec2, dir_delta, is_dir, NORTH, EAST, SOUTH, WEST};
use crate::cellset::CellSet;
use crate::clues::{BoxArrow, BoxNumber, in_grid, ray_x, ray_y, feasible, unique_feasible,
    arrow_forced_box, arrow_forced_nonbox, forced_box_in_dir, forced_nonbox_in_dir, nbhd_total,
    nbhd_box, nbhd_assigned, nbhd_ro, nbhd_unassigned};
use crate::grid::{BoxGrid, spec_valid};
use crate::reach::reaches;

verus! {

/// The cell is assigned to one of the two sets.
pub open spec fn assigned(kg: CellSet, ro: CellSet, x: int, y: int) -> bool {
    kg.has(x, y) || ro.has(x, y)
}

/// The cell lies on the grid and is assigned to neither set.
pub open spec fn unassigned(kg: CellSet, ro: CellSet, dim: int, x: int, y: int) -> bool {
    in_grid(dim, x, y) && !kg.has(x, y) && !ro.has(x, y)
}

/// The seeding pass has nothing left to do for this arrow: its own cell is
/// assigned, and so is the adjacent in-bounds cell in every direction the
/// arrow does not point to (such a cell can never be the arrow's target).
pub open spec fn arrow_seed_ok(a: BoxArrow, dim: int, kg: CellSet, ro: CellSet) -> bool {
    let px = a.pos.x as int;
    let py = a.pos.y as int;
    &&& assigned(kg, ro, px, py)
    &&& (a.val & NORTH == 0 && in_grid(dim, px, py - 1) ==> assigned(kg, ro, px, py - 1))
    &&& (a.val & EAST == 0 && in_grid(dim, px + 1, py) ==> assigned(kg, ro, px + 1, py))
    &&& (a.val & SOUTH == 0 && in_grid(dim, px, py + 1) ==> assigned(kg, ro, px, py + 1))
    &&& (a.val & WEST == 0 && in_grid(dim, px - 1, py) ==> assigned(kg, ro, px - 1, py))
}

/// The seeding pass has nothing left to do: every number-clue cell and
/// every arrow-clue cell is assigned, and so are the cells ruled out by the
/// directions an arrow does not point to.
pub open spec fn seeded(g: BoxGrid, kg: CellSet, ro: CellSet) -> bool {
    &&& forall|i: int|
        #![trigger g.numbers@[i]]
        0 <= i < g.numbers@.len() ==> assigned(
            kg,
            ro,
            g.numbers@[i].pos.x as int,
            g.numbers@[i].pos.y as int,
        )
    &&& forall|i: int|
        #![trigger g.arrows@[i]]
        0 <= i < g.arrows@.len() ==> arrow_seed_ok(g.arrows@[i], g.dim as int, kg, ro)
}

/// Some number clue sits on `(x, y)`.
pub open spec fn has_number_at(g: BoxGrid, x: int, y: int) -> bool {
    exists|i: int|
        #![trigger g.numbers@[i]]
        0 <= i < g.numbers@.len() && g.numbers@[i].pos.x == x && g.numbers@[i].pos.y == y
}

/// The polarity the seeding pass gives one arrow, relative to the sets at
/// the call: the arrow's own cell joins known-non-box, and so does the
/// adjacent in-bounds cell in every direction it does not point, except
/// for cells already known box at the call or carrying a number clue.
pub open spec fn arrow_seed_polarity(
    g: BoxGrid,
    a: BoxArrow,
    dim: int,
    kg0: CellSet,
    ro: CellSet,
) -> bool {
    let px = a.pos.x as int;
    let py = a.pos.y as int;
    &&& ro.has(px, py) || kg0.has(px, py) || has_number_at(g, px, py)
    &&& (a.val & NORTH == 0 && in_grid(dim, px, py - 1) ==> ro.has(px, py - 1) || kg0.has(
        px,
        py - 1,
    ) || has_number_at(g, px, py - 1))
    &&& (a.val & EAST == 0 && in_grid(dim, px + 1, py) ==> ro.has(px + 1, py) || kg0.has(
        px + 1,
        py,
    ) || has_number_at(g, px + 1, py))
    &&& (a.val & SOUTH == 0 && in_grid(dim, px, py + 1) ==> ro.has(px, py + 1) || kg0.has(
        px,
        py + 1,
    ) || has_number_at(g, px, py + 1))
    &&& (a.val & WEST == 0 && in_grid(dim, px - 1, py) ==> ro.has(px - 1, py) || kg0.has(
        px - 1,
        py,
    ) || has_number_at(g, px - 1, py))
}

/// The polarity of the seeding pass, relative to the sets at the call:
/// every number-clue cell not already known non-box joins the known-box
/// set; every arrow cell, and every adjacent in-bounds cell in a direction
/// its arrow does not point, joins the known-non-box set unless it was
/// already known box or carries a number clue.
pub open spec fn seed_polarity(
    g: BoxGrid,
    kg0: CellSet,
    ro0: CellSet,
    kg: CellSet,
    ro: CellSet,
) -> bool {
    &&& forall|i: int|
        #![trigger g.numbers@[i]]
        0 <= i < g.numbers@.len() ==> kg.has(g.numbers@[i].pos.x as int,
            g.numbers@[i].pos.y as int) || ro0.has(g.numbers@[i].pos.x as int,
            g.numbers@[i].pos.y as int)
    &&& forall|i: int|
        #![trigger g.arrows@[i]]
        0 <= i < g.arrows@.len() ==> arrow_seed_polarity(g, g.arrows@[i], g.dim as int, kg0, ro)
}

/// Seed polarity only concerns clue data and is preserved when the
/// assignment sets grow and clues only become more solved.
pub proof fn lemma_seed_polarity_monotone(
    g1: BoxGrid,
    g2: BoxGrid,
    kg0: CellSet,
    ro0: CellSet,
    kg1: CellSet,
    ro1: CellSet,
    kg2: CellSet,
    ro2: CellSet,
)
    requires
        seed_polarity(g1, kg0, ro0, kg1, ro1),
        g2.same_clues(&g1),
        forall|x: int, y: int| kg1.has(x, y) ==> kg2.has(x, y),
        forall|x: int, y: int| ro1.has(x, y) ==> ro2.has(x, y),
    ensures
        seed_polarity(g2, kg0, ro0, kg2, ro2),
{
    assert forall|i: int|
        #![trigger g1.numbers@[i]]
        0 <= i < g1.numbers@.len() implies has_number_at(g2, g1.numbers@[i].pos.x as int,
    g1.numbers@[i].pos.y as int) by {
        assert(g2.numbers@[i].pos == g1.numbers@[i].pos);
    }
    assert forall|i: int|
        #![trigger g2.numbers@[i]]
        0 <= i < g2.numbers@.len() implies kg2.has(g2.numbers@[i].pos.x as int,
    g2.numbers@[i].pos.y as int) || ro0.has(g2.numbers@[i].pos.x as int,
    g2.numbers@[i].pos.y as int) by {
        assert(g2.numbers@[i].pos == g1.numbers@[i].pos);
        assert(kg1.has(g1.numbers@[i].pos.x as int, g1.numbers@[i].pos.y as int) || ro0.has(
            g1.numbers@[i].pos.x as int, g1.numbers@[i].pos.y as int));
    }
    assert forall|i: int|
        #![trigger g2.arrows@[i]]
        0 <= i < g2.arrows@.len() implies arrow_seed_polarity(g2, g2.arrows@[i], g2.dim as int,
    kg0, ro2) by {
        assert(g2.arrows@[i].pos == g1.arrows@[i].pos && g2.arrows@[i].val
            == g1.arrows@[i].val);
        assert(arrow_seed_polarity(g1, g1.arrows@[i], g1.dim as int, kg0, ro1));
        let px = g1.arrows@[i].pos.x as int;
        let py = g1.arrows@[i].pos.y as int;
        assert forall|x: int, y: int|
            #![trigger has_number_at(g1, x, y)]
            has_number_at(g1, x, y) implies has_number_at(g2, x, y) by {
            let j = choose|j: int|
                #![trigger g1.numbers@[j]]
                0 <= j < g1.numbers@.len() && g1.numbers@[j].pos.x == x && g1.numbers@[j].pos.y
                    == y;
            assert(g2.numbers@[j].pos == g1.numbers@[j].pos);
        }
    }
}

/// Seeding is preserved when the assignment sets only grow.
pub proof fn lemma_seeded_monotone(
    g: BoxGrid,
    kg1: CellSet,
    ro1: CellSet,
    kg2: CellSet,
    ro2: CellSet,
)
    requires
        seeded(g, kg1, ro1),
        forall|x: int, y: int| kg1.has(x, y) ==> kg2.has(x, y),
        forall|x: int, y: int| ro1.has(x, y) ==> ro2.has(x, y),
    ensures
        seeded(g, kg2, ro2),
{
    assert forall|i: int|
        #![trigger g.numbers@[i]]
        0 <= i < g.numbers@.len() implies assigned(kg2, ro2, g.numbers@[i].pos.x as int,
    g.numbers@[i].pos.y as int) by {
        assert(assigned(kg1, ro1, g.numbers@[i].pos.x as int, g.numbers@[i].pos.y as int));
    }
    assert forall|i: int|
        #![trigger g.arrows@[i]]
        0 <= i < g.arrows@.len() implies arrow_seed_ok(g.arrows@[i], g.dim as int, kg2, ro2) by {
        assert(arrow_seed_ok(g.arrows@[i], g.dim as int, kg1, ro1));
    }
}

/// Clue polarity of an emitted partition. The propagation pass leaves its
/// sets polarized against its inputs, and every partition the search
/// emits extends the pass's sets cell-for-cell, so it is polarized
/// against the same inputs: each number-clue cell is known box unless the
/// input already ruled it out, and each arrow cell, with every in-bounds
/// neighbour in a direction the arrow does not point, is known non-box
/// unless the input already forced it box or a number clue shares the
/// cell.
pub proof fn lemma_emitted_clue_polarity(
    g: BoxGrid,
    kg0: CellSet,
    ro0: CellSet,
    kg1: CellSet,
    ro1: CellSet,
    kg2: CellSet,
    ro2: CellSet,
)
    requires
        seed_polarity(g, kg0, ro0, kg1, ro1),
        forall|x: int, y: int| kg1.has(x, y) ==> kg2.has(x, y),
        forall|x: int, y: int| ro1.has(x, y) ==> ro2.has(x, y),
    ensures
        seed_polarity(g, kg0, ro0, kg2, ro2),
        forall|i: int|
            #![trigger g.numbers@[i]]
            0 <= i < g.numbers@.len() ==> kg2.has(g.numbers@[i].pos.x as int,
                g.numbers@[i].pos.y as int) || ro0.has(g.numbers@[i].pos.x as int,
                g.numbers@[i].pos.y as int),
        forall|i: int|
            #![trigger g.arrows@[i]]
            0 <= i < g.arrows@.len() ==> ro2.has(g.arrows@[i].pos.x as int,
                g.arrows@[i].pos.y as int) || kg0.has(g.arrows@[i].pos.x as int,
                g.arrows@[i].pos.y as int) || has_number_at(g, g.arrows@[i].pos.x as int,
                g.arrows@[i].pos.y as int),
{
    assert(g.same_clues(&g));
    lemma_seed_polarity_monotone(g, g, kg0, ro0, kg1, ro1, kg2, ro2);
    assert forall|i: int|
        #![trigger g.arrows@[i]]
        0 <= i < g.arrows@.len() implies ro2.has(g.arrows@[i].pos.x as int,
    g.arrows@[i].pos.y as int) || kg0.has(g.arrows@[i].pos.x as int, g.arrows@[i].pos.y as int)
        || has_number_at(g, g.arrows@[i].pos.x as int, g.arrows@[i].pos.y as int) by {
        assert(arrow_seed_polarity(g, g.arrows@[i], g.dim as int, kg0, ro2));
    }
}

/// The arrow-solving rule adds no cell: every unsolved arrow with exactly
/// one feasible distance already has all the cells it would force assigned
/// the forced way.
pub open spec fn arrow_rule_stable(g: BoxGrid, kg: CellSet, ro: CellSet) -> bool {
    forall|i: int, d: int|
        #![trigger unique_feasible(g.arrows@[i], g.dim as int, kg, ro, d)]
        0 <= i < g.arrows@.len() && !g.arrows@[i].solved && unique_feasible(
            g.arrows@[i],
            g.dim as int,
            kg,
            ro,
            d,
        ) ==> (forall|x: int, y: int|
            arrow_forced_box(g.arrows@[i], g.dim as int, d, x, y) ==> kg.has(x, y)) && (forall|
            x: int,
            y: int,
        |
            arrow_forced_nonbox(g.arrows@[i], g.dim as int, d, x, y) ==> ro.has(x, y))
}

/// The number-solving rule adds no cell: every unsolved number clue either
/// has its whole neighborhood assigned already, or neither of its two
/// forcing conditions is met.
pub open spec fn number_rule_stable(g: BoxGrid, kg: CellSet, ro: CellSet) -> bool {
    forall|i: int|
        #![trigger g.numbers@[i]]
        0 <= i < g.numbers@.len() && !g.numbers@[i].solved ==> {
            let n = g.numbers@[i];
            ||| nbhd_assigned(n, kg, ro) == nbhd_total(n, g.dim as int)
            ||| (nbhd_box(n, kg) != n.val && nbhd_ro(n, kg, ro) != nbhd_total(n, g.dim as int)
                - n.val)
        }
}

/// Some arrow of the grid could force `(x, y)` to be a box cell at this
/// state: a distance feasible here places its target there.
pub open spec fn arrow_justified_box(g: BoxGrid, kg: CellSet, ro: CellSet, x: int, y: int) -> bool {
    exists|i: int, d: int|
        #![trigger arrow_forced_box(g.arrows@[i], g.dim as int, d, x, y)]
        0 <= i < g.arrows@.len() && feasible(g.arrows@[i], g.dim as int, kg, ro, d)
            && arrow_forced_box(g.arrows@[i], g.dim as int, d, x, y)
}

/// Some arrow of the grid could force `(x, y)` to be a non-box cell at
/// this state: a distance feasible here passes over it.
pub open spec fn arrow_justified_nonbox(
    g: BoxGrid,
    kg: CellSet,
    ro: CellSet,
    x: int,
    y: int,
) -> bool {
    exists|i: int, d: int|
        #![trigger arrow_forced_nonbox(g.arrows@[i], g.dim as int, d, x, y)]
        0 <= i < g.arrows@.len() && feasible(g.arrows@[i], g.dim as int, kg, ro, d)
            && arrow_forced_nonbox(g.arrows@[i], g.dim as int, d, x, y)
}

/// `(x, y)` is an unassigned neighborhood cell of some number clue not yet
/// marked solved at this state.
pub open spec fn number_justified(g: BoxGrid, kg: CellSet, ro: CellSet, x: int, y: int) -> bool {
    exists|j: int|
        #![trigger g.numbers@[j]]
        0 <= j < g.numbers@.len() && !g.numbers@[j].solved && nbhd_unassigned(g.numbers@[j],
            g.dim as int, kg, ro, x, y)
}

/// Some arrow sits on `(x, y)` and points back along `dir`.
pub open spec fn facing_arrow_at_cell(g: BoxGrid, dir: usize, x: int, y: int) -> bool {
    exists|j: int|
        #![trigger g.arrows@[j]]
        0 <= j < g.arrows@.len() && g.arrows@[j].pos.x == x && g.arrows@[j].pos.y == y
            && g.arrows@[j].val & crate::geom::spec_inverse_dir(dir) != 0
}

/// Number of unassigned cells at distances `1 .. k` along the ray.
pub open spec fn ray_unknown_count(
    kg: CellSet,
    ro: CellSet,
    dim: int,
    px: int,
    py: int,
    dir: usize,
    k: int,
) -> nat
    decreases k,
{
    if k <= 1 {
        0
    } else {
        ray_unknown_count(kg, ro, dim, px, py, dir, k - 1) + (if unassigned(kg, ro, dim, ray_x(
            px,
            dir,
            k - 1,
        ), ray_y(py, dir, k - 1)) {
            1nat
        } else {
            0nat
        })
    }
}

/// A ray prefix of assigned cells has unknown count zero.
pub proof fn lemma_ray_unknown_count_zero(
    kg: CellSet,
    ro: CellSet,
    dim: int,
    px: int,
    py: int,
    dir: usize,
    m: int,
)
    requires
        forall|k2: int|
            #![trigger ray_x(px, dir, k2)]
            1 <= k2 < m ==> ro.has(ray_x(px, dir, k2), ray_y(py, dir, k2)),
    ensures
        ray_unknown_count(kg, ro, dim, px, py, dir, m) == 0,
    decreases m,
{
    if m > 1 {
        lemma_ray_unknown_count_zero(kg, ro, dim, px, py, dir, m - 1);
        assert(ro.has(ray_x(px, dir, m - 1), ray_y(py, dir, m - 1)));
    }
}

/// A ray prefix whose only unassigned cell is at distance `k0`, every other
/// cell being known non-box, has unknown count exactly one.
pub proof fn lemma_ray_unknown_count_one(
    kg: CellSet,
    ro: CellSet,
    dim: int,
    px: int,
    py: int,
    dir: usize,
    k: int,
    k0: int,
)
    requires
        1 <= k0 < k,
        unassigned(kg, ro, dim, ray_x(px, dir, k0), ray_y(py, dir, k0)),
        forall|k2: int|
            #![trigger ray_x(px, dir, k2)]
            1 <= k2 < k && k2 != k0 ==> ro.has(ray_x(px, dir, k2), ray_y(py, dir, k2)),
    ensures
        ray_unknown_count(kg, ro, dim, px, py, dir, k) == 1,
    decreases k,
{
    if k - 1 == k0 {
        assert forall|k2: int|
            #![trigger ray_x(px, dir, k2)]
            1 <= k2 < k0 implies ro.has(ray_x(px, dir, k2), ray_y(py, dir, k2)) by {}
        lemma_ray_unknown_count_zero(kg, ro, dim, px, py, dir, k0);
    } else {
        lemma_ray_unknown_count_one(kg, ro, dim, px, py, dir, k - 1, k0);
        assert(ro.has(ray_x(px, dir, k - 1), ray_y(py, dir, k - 1)));
    }
}

/// Once a ray leaves the grid it does not return.
pub proof fn lemma_ray_stays_out(px: int, py: int, dim: int, dir: usize, k1: int, k2: int)
    requires
        is_dir(dir),
        1 <= k1 <= k2,
        !in_grid(dim, ray_x(px, dir, k1), ray_y(py, dir, k1)),
        in_grid(dim, px, py),
    ensures
        !in_grid(dim, ray_x(px, dir, k2), ray_y(py, dir, k2)),
{
    crate::clues::lemma_unit_scale_exact(crate::geom::dir_dx(dir), k1);
    crate::clues::lemma_unit_scale_exact(crate::geom::dir_dy(dir), k1);
    crate::clues::lemma_unit_scale_exact(crate::geom::dir_dx(dir), k2);
    crate::clues::lemma_unit_scale_exact(crate::geom::dir_dy(dir), k2);
}

/// Two unsolved arrows at indices `i` and `j` point at each other along one
/// line, with exactly one unassigned cell (at distance `k0` from the first),
/// no known-box cell and no other facing arrow between them; the rule would
/// force that cell.
pub open spec fn opposing_pair(
    g: BoxGrid,
    kg: CellSet,
    ro: CellSet,
    i: int,
    j: int,
    dir: usize,
    k: int,
    k0: int,
) -> bool {
    let px = g.arrows@[i].pos.x as int;
    let py = g.arrows@[i].pos.y as int;
    &&& 0 <= i < g.arrows@.len()
    &&& 0 <= j < g.arrows@.len()
    &&& is_dir(dir)
    &&& !g.arrows@[i].solved
    &&& !g.arrows@[j].solved
    &&& g.arrows@[i].val & dir != 0
    &&& g.arrows@[j].val & crate::geom::spec_inverse_dir(dir) != 0
    &&& 1 <= k
    &&& g.arrows@[j].pos.x as int == ray_x(px, dir, k)
    &&& g.arrows@[j].pos.y as int == ray_y(py, dir, k)
    &&& 1 <= k0 < k
    &&& unassigned(kg, ro, g.dim as int, ray_x(px, dir, k0), ray_y(py, dir, k0))
    &&& forall|k2: int|
        #![trigger ray_x(px, dir, k2)]
        1 <= k2 < k && k2 != k0 ==> ro.has(ray_x(px, dir, k2), ray_y(py, dir, k2))
    &&& forall|k2: int|
        #![trigger ray_x(px, dir, k2)]
        1 <= k2 < k ==> !kg.has(ray_x(px, dir, k2), ray_y(py, dir, k2))
    &&& forall|k2: int|
        #![trigger ray_x(px, dir, k2)]
        1 <= k2 < k ==> !facing_arrow_at_cell(g, dir, ray_x(px, dir, k2), ray_y(py, dir, k2))
}

/// Some opposing pair of arrows is ready to force its single unknown cell.
pub open spec fn opposing_firable(g: BoxGrid, kg: CellSet, ro: CellSet) -> bool {
    exists|i: int, j: int, dir: usize, k: int, k0: int| opposing_pair(g, kg, ro, i, j, dir, k, k0)
}

/// `(x, y)` is the single unknown cell of some opposing pair at this state.
pub open spec fn opposing_justified(g: BoxGrid, kg: CellSet, ro: CellSet, x: int, y: int) -> bool {
    exists|i: int, j: int, dir: usize, k: int, k0: int|
        #![trigger opposing_pair(g, kg, ro, i, j, dir, k, k0)]
        opposing_pair(g, kg, ro, i, j, dir, k, k0) && x == ray_x(g.arrows@[i].pos.x as int, dir,
            k0) && y == ray_y(g.arrows@[i].pos.y as int, dir, k0)
}

/// An opposing pair stays one when known-box cells are removed: all its
/// conditions on the known-box set are negative.
proof fn lemma_opposing_pair_anti(
    g: BoxGrid,
    kg0: CellSet,
    kg1: CellSet,
    ro: CellSet,
    i: int,
    j: int,
    dir: usize,
    k: int,
    k0: int,
)
    requires
        opposing_pair(g, kg1, ro, i, j, dir, k, k0),
        forall|x: int, y: int| kg0.has(x, y) ==> kg1.has(x, y),
    ensures
        opposing_pair(g, kg0, ro, i, j, dir, k, k0),
{
    let px = g.arrows@[i].pos.x as int;
    let py = g.arrows@[i].pos.y as int;
    assert forall|k2: int|
        #![trigger ray_x(px, dir, k2)]
        1 <= k2 < k implies !kg0.has(ray_x(px, dir, k2), ray_y(py, dir, k2)) by {
        assert(!kg1.has(ray_x(px, dir, k2), ray_y(py, dir, k2)));
    }
}

/// The single unknown cell of an opposing pair keeps its witness when
/// known-box cells are removed.
proof fn lemma_opposing_justified_anti(
    g: BoxGrid,
    kg0: CellSet,
    kg1: CellSet,
    ro: CellSet,
    x: int,
    y: int,
)
    requires
        opposing_justified(g, kg1, ro, x, y),
        forall|a: int, b: int| kg0.has(a, b) ==> kg1.has(a, b),
    ensures
        opposing_justified(g, kg0, ro, x, y),
{
    let (i, j, dir, k, k0) = choose|i: int, j: int, dir: usize, k: int, k0: int|
        #![trigger opposing_pair(g, kg1, ro, i, j, dir, k, k0)]
        opposing_pair(g, kg1, ro, i, j, dir, k, k0) && x == ray_x(g.arrows@[i].pos.x as int,
            dir, k0) && y == ray_y(g.arrows@[i].pos.y as int, dir, k0);
    lemma_opposing_pair_anti(g, kg0, kg1, ro, i, j, dir, k, k0);
    assert(opposing_pair(g, kg0, ro, i, j, dir, k, k0));
}

/// `(x, y)` can reach a known-box cell walking over unassigned and
/// known-box cells.
pub open spec fn reaches_some_box(kg: CellSet, ro: CellSet, x: int, y: int) -> bool {
    exists|bx: int, by: int|
        #![trigger reaches(kg, ro, true, false, true, x, y, bx, by)]
        kg.has(bx, by) && reaches(kg, ro, true, false, true, x, y, bx, by)
}

/// The isolated-unknown-region rule adds no cell: every unassigned cell can
/// still reach some known-box cell.
pub open spec fn region_nonbox_stable(kg: CellSet, ro: CellSet, dim: int) -> bool {
    forall|x: int, y: int|
        #![trigger kg.has(x, y)]
        #![trigger ro.has(x, y)]
        unassigned(kg, ro, dim, x, y) ==> reaches_some_box(kg, ro, x, y)
}

/// A flood group of unassigned cells with no known-box contact starts no
/// box-reaching walk at the pass entry: the first pass-marked cell on such
/// a walk was itself marked for not reaching a box, and the rest of the
/// walk would show that it does.
proof fn lemma_blocked_group_no_box(
    kg: CellSet,
    ro_old: CellSet,
    ro_mid: CellSet,
    grp: CellSet,
    p: Seq<(int, int)>,
)
    requires
        crate::reach::is_path(kg, ro_old, true, false, true, p),
        grp.has(p.first().0, p.first().1),
        grp.disjoint_with(&kg),
        forall|a: int, b: int, c: int, d: int|
            #![trigger grp.has(a, b), crate::reach::adjacent(a, b, c, d)]
            grp.has(a, b) && crate::reach::adjacent(a, b, c, d) && crate::reach::passable(kg,
                ro_mid, true, false, true, c, d) ==> grp.has(c, d),
        forall|a: int, b: int|
            #![trigger ro_mid.has(a, b)]
            ro_mid.has(a, b) ==> ro_old.has(a, b) || !reaches_some_box(kg, ro_old, a, b),
        kg.has(p.last().0, p.last().1),
    ensures
        grp.has(p.last().0, p.last().1),
    decreases p.len(),
{
    let u = p.first();
    assert(!kg.has(u.0, u.1));
    if p.len() == 1 {
    } else {
        let v = p[1];
        assert(crate::reach::adjacent(u.0, u.1, v.0, v.1));
        assert(crate::reach::passable(kg, ro_old, true, false, true, v.0, v.1));
        let q = p.subrange(1, p.len() as int);
        assert forall|i: int| #![trigger q[i]] 0 <= i < q.len() implies crate::reach::passable(
            kg, ro_old, true, false, true, q[i].0, q[i].1) by {
            assert(q[i] == p[i + 1]);
        }
        assert forall|i: int|
            #![trigger q[i]]
            0 <= i < q.len() - 1 implies crate::reach::adjacent(q[i].0, q[i].1, q[i + 1].0,
        q[i + 1].1) by {
            assert(q[i] == p[i + 1] && q[i + 1] == p[i + 2]);
        }
        assert(crate::reach::is_path(kg, ro_old, true, false, true, q));
        assert(q.first() == v && q.last() == p.last());
        if kg.has(v.0, v.1) {
            assert(crate::reach::passable(kg, ro_mid, true, false, true, v.0, v.1));
            assert(grp.has(v.0, v.1));
        } else if ro_mid.has(v.0, v.1) {
            assert(!ro_old.has(v.0, v.1));
            assert(crate::reach::reaches(kg, ro_old, true, false, true, v.0, v.1, p.last().0,
                p.last().1));
            assert(reaches_some_box(kg, ro_old, v.0, v.1));
        } else {
            assert(crate::reach::passable(kg, ro_mid, true, false, true, v.0, v.1));
            assert(grp.has(v.0, v.1));
            lemma_blocked_group_no_box(kg, ro_old, ro_mid, grp, q);
        }
    }
}

/// `(x, y)` can reach a known-non-box cell or the grid border walking over
/// unassigned and known-non-box cells.
pub open spec fn reaches_escape(kg: CellSet, ro: CellSet, x: int, y: int) -> bool {
    exists|bx: int, by: int|
        #![trigger reaches(kg, ro, false, true, true, x, y, bx, by)]
        (ro.has(bx, by) || crate::geom::on_border(kg.dim as int, bx, by)) && reaches(
            kg,
            ro,
            false,
            true,
            true,
            x,
            y,
            bx,
            by,
        )
}

/// A flood group of unassigned cells with no known-non-box contact and no
/// border contact starts no escaping walk at the pass entry: the first
/// pass-marked cell on such a walk was itself marked for not escaping, and
/// the rest of the walk would show that it does.
proof fn lemma_blocked_group_no_escape(
    kg_old: CellSet,
    kg_mid: CellSet,
    ro: CellSet,
    grp: CellSet,
    p: Seq<(int, int)>,
)
    requires
        kg_mid.dim == kg_old.dim,
        crate::reach::is_path(kg_old, ro, false, true, true, p),
        grp.has(p.first().0, p.first().1),
        grp.disjoint_with(&ro),
        forall|a: int, b: int|
            #![trigger grp.has(a, b)]
            grp.has(a, b) ==> !crate::geom::on_border(kg_old.dim as int, a, b),
        forall|a: int, b: int, c: int, d: int|
            #![trigger grp.has(a, b), crate::reach::adjacent(a, b, c, d)]
            grp.has(a, b) && crate::reach::adjacent(a, b, c, d) && crate::reach::passable(
                kg_mid, ro, false, true, true, c, d) ==> grp.has(c, d),
        forall|a: int, b: int|
            #![trigger kg_mid.has(a, b)]
            kg_mid.has(a, b) ==> kg_old.has(a, b) || !reaches_escape(kg_old, ro, a, b),
        ro.has(p.last().0, p.last().1) || crate::geom::on_border(kg_old.dim as int, p.last().0,
            p.last().1),
    ensures
        grp.has(p.last().0, p.last().1),
    decreases p.len(),
{
    let u = p.first();
    if p.len() == 1 {
    } else {
        let v = p[1];
        assert(crate::reach::adjacent(u.0, u.1, v.0, v.1));
        assert(crate::reach::passable(kg_old, ro, false, true, true, v.0, v.1));
        let q = p.subrange(1, p.len() as int);
        assert forall|i: int| #![trigger q[i]] 0 <= i < q.len() implies crate::reach::passable(
            kg_old, ro, false, true, true, q[i].0, q[i].1) by {
            assert(q[i] == p[i + 1]);
        }
        assert forall|i: int|
            #![trigger q[i]]
            0 <= i < q.len() - 1 implies crate::reach::adjacent(q[i].0, q[i].1, q[i + 1].0,
        q[i + 1].1) by {
            assert(q[i] == p[i + 1] && q[i + 1] == p[i + 2]);
        }
        assert(crate::reach::is_path(kg_old, ro, false, true, true, q));
        assert(q.first() == v && q.last() == p.last());
        if kg_mid.has(v.0, v.1) {
            assert(!kg_old.has(v.0, v.1));
            assert(crate::reach::reaches(kg_old, ro, false, true, true, v.0, v.1, p.last().0,
                p.last().1));
            assert(reaches_escape(kg_old, ro, v.0, v.1));
        } else {
            assert(crate::reach::passable(kg_mid, ro, false, true, true, v.0, v.1));
            assert(grp.has(v.0, v.1));
            lemma_blocked_group_no_escape(kg_old, kg_mid, ro, grp, q);
        }
    }
}

/// The enclosed-hole rule adds no cell: every unassigned cell can still
/// reach a known-non-box cell or the border.
pub open spec fn region_box_stable(kg: CellSet, ro: CellSet, dim: int) -> bool {
    forall|x: int, y: int|
        #![trigger kg.has(x, y)]
        #![trigger ro.has(x, y)]
        unassigned(kg, ro, dim, x, y) ==> reaches_escape(kg, ro, x, y)
}

/// The whole propagation pass is at a fixpoint: neither seeding nor any of
/// the five deduction rules would assign a new cell.
pub open spec fn fixpoint_stable(g: BoxGrid, kg: CellSet, ro: CellSet) -> bool {
    &&& seeded(g, kg, ro)
    &&& arrow_rule_stable(g, kg, ro)
    &&& number_rule_stable(g, kg, ro)
    &&& !opposing_firable(g, kg, ro)
    &&& region_nonbox_stable(kg, ro, g.dim as int)
    &&& region_box_stable(kg, ro, g.dim as int)
}

/// Arrow-clue semantics ignore the solved flag: two arrows on the same cell
/// with the same direction mask have the same feasible distances and force
/// the same cells.
pub proof fn lemma_arrow_semantics_same_clue(
    a1: BoxArrow,
    a2: BoxArrow,
    dim: int,
    kg: CellSet,
    ro: CellSet,
)
    requires
        a1.pos == a2.pos,
        a1.val == a2.val,
    ensures
        forall|d: int| feasible(a1, dim, kg, ro, d) == feasible(a2, dim, kg, ro, d),
        forall|d: int| unique_feasible(a1, dim, kg, ro, d) == unique_feasible(a2, dim, kg, ro, d),
        forall|d: int, x: int, y: int|
            arrow_forced_box(a1, dim, d, x, y) == arrow_forced_box(a2, dim, d, x, y),
        forall|d: int, x: int, y: int|
            arrow_forced_nonbox(a1, dim, d, x, y) == arrow_forced_nonbox(a2, dim, d, x, y),
{
    assert forall|d: int| feasible(a1, dim, kg, ro, d) == feasible(a2, dim, kg, ro, d) by {
        assert(a1.pos.x as int == a2.pos.x as int && a1.pos.y as int == a2.pos.y as int);
    }
    assert forall|d: int|
        unique_feasible(a1, dim, kg, ro, d) == unique_feasible(a2, dim, kg, ro, d) by {
        if unique_feasible(a1, dim, kg, ro, d) {
            assert forall|d2: int| feasible(a2, dim, kg, ro, d2) implies d2 == d by {
                assert(feasible(a1, dim, kg, ro, d2));
            }
        }
        if unique_feasible(a2, dim, kg, ro, d) {
            assert forall|d2: int| feasible(a1, dim, kg, ro, d2) implies d2 == d by {
                assert(feasible(a2, dim, kg, ro, d2));
            }
        }
    }
    assert forall|d: int, x: int, y: int|
        arrow_forced_box(a1, dim, d, x, y) == arrow_forced_box(a2, dim, d, x, y) by {
        assert(a1.pos.x as int == a2.pos.x as int && a1.pos.y as int == a2.pos.y as int);
    }
    assert forall|d: int, x: int, y: int|
        arrow_forced_nonbox(a1, dim, d, x, y) == arrow_forced_nonbox(a2, dim, d, x, y) by {
        assert(a1.pos.x as int == a2.pos.x as int && a1.pos.y as int == a2.pos.y as int);
    }
}

/// Two cells on rays from the same origin differ unless direction and
/// distance agree: the target cell at distance `d` along one direction
/// never coincides with a cell at distance `k` along another direction, nor
/// with a strictly closer cell along the same direction.
pub proof fn lemma_ray_no_collision(px: int, py: int, d: int, k: int, dirb: usize, dirn: usize)
    requires
        1 <= d,
        1 <= k,
        is_dir(dirb),
        is_dir(dirn),
        dirb == dirn ==> k < d,
    ensures
        ray_x(px, dirb, d) != ray_x(px, dirn, k) || ray_y(py, dirb, d) != ray_y(py, dirn, k),
{
    if dirb == NORTH {
        assert(ray_x(px, dirb, d) == px && ray_y(py, dirb, d) == py - d);
    } else if dirb == EAST {
        assert(ray_x(px, dirb, d) == px + d && ray_y(py, dirb, d) == py);
    } else if dirb == SOUTH {
        assert(ray_x(px, dirb, d) == px && ray_y(py, dirb, d) == py + d);
    } else {
        assert(ray_x(px, dirb, d) == px - d && ray_y(py, dirb, d) == py);
    }
    if dirn == NORTH {
        assert(ray_x(px, dirn, k) == px && ray_y(py, dirn, k) == py - k);
    } else if dirn == EAST {
        assert(ray_x(px, dirn, k) == px + k && ray_y(py, dirn, k) == py);
    } else if dirn == SOUTH {
        assert(ray_x(px, dirn, k) == px && ray_y(py, dirn, k) == py + k);
    } else {
        assert(ray_x(px, dirn, k) == px - k && ray_y(py, dirn, k) == py);
    }
}

/// An arrow solved at distance `d` never forces the same cell both ways:
/// the forced box cells lie at distance exactly `d` along pointed
/// directions, the forced non-box cells strictly closer or along other
/// directions.
pub proof fn lemma_arrow_forced_disjoint(a: BoxArrow, dim: int, d: int)
    requires
        1 <= d,
    ensures
        forall|x: int, y: int|
            !(arrow_forced_box(a, dim, d, x, y) && arrow_forced_nonbox(a, dim, d, x, y)),
{
    let px = a.pos.x as int;
    let py = a.pos.y as int;
    assert forall|x: int, y: int|
        !(arrow_forced_box(a, dim, d, x, y) && arrow_forced_nonbox(a, dim, d, x, y)) by {
        if arrow_forced_box(a, dim, d, x, y) && arrow_forced_nonbox(a, dim, d, x, y) {
            let dirn: usize = if forced_nonbox_in_dir(a, dim, d, NORTH, x, y) {
                NORTH
            } else if forced_nonbox_in_dir(a, dim, d, EAST, x, y) {
                EAST
            } else if forced_nonbox_in_dir(a, dim, d, SOUTH, x, y) {
                SOUTH
            } else {
                WEST
            };
            assert(forced_nonbox_in_dir(a, dim, d, dirn, x, y));
            let m: int = if a.val & dirn != 0 {
                d
            } else {
                d + 1
            };
            let k = crate::clues::lemma_on_ray_below_elim(a, dim, dirn, m, x, y);
            let dirb: usize = if forced_box_in_dir(a, dim, d, NORTH, x, y) {
                NORTH
            } else if forced_box_in_dir(a, dim, d, EAST, x, y) {
                EAST
            } else if forced_box_in_dir(a, dim, d, SOUTH, x, y) {
                SOUTH
            } else {
                WEST
            };
            assert(forced_box_in_dir(a, dim, d, dirb, x, y));
            assert(a.val & dirb != 0);
            assert(x == ray_x(px, dirb, d) && y == ray_y(py, dirb, d));
            if dirb == dirn {
                assert(m == d);
            }
            lemma_ray_no_collision(px, py, d, k, dirb, dirn);
            assert(false);
        }
    }
}

/// Stability of every deduction rule is preserved when clues only become
/// more solved: a state that is at a fixpoint stays at a fixpoint while the
/// engine marks further clues solved, since each rule fires only on
/// unsolved clues and the clue semantics ignore the solved flags.
pub proof fn lemma_stability_preserved_by_solving(
    g1: BoxGrid,
    g2: BoxGrid,
    kg: CellSet,
    ro: CellSet,
)
    requires
        g2.same_clues(&g1),
        g2.solved_geq(&g1),
    ensures
        seeded(g1, kg, ro) ==> seeded(g2, kg, ro),
        arrow_rule_stable(g1, kg, ro) ==> arrow_rule_stable(g2, kg, ro),
        number_rule_stable(g1, kg, ro) ==> number_rule_stable(g2, kg, ro),
        !opposing_firable(g1, kg, ro) ==> !opposing_firable(g2, kg, ro),
        fixpoint_stable(g1, kg, ro) ==> fixpoint_stable(g2, kg, ro),
{
    let dim = g1.dim as int;
    if seeded(g1, kg, ro) {
        assert forall|i: int|
            #![trigger g2.numbers@[i]]
            0 <= i < g2.numbers@.len() implies assigned(
            kg,
            ro,
            g2.numbers@[i].pos.x as int,
            g2.numbers@[i].pos.y as int,
        ) by {
            assert(g1.numbers@[i].pos == g2.numbers@[i].pos);
            assert(assigned(kg, ro, g1.numbers@[i].pos.x as int, g1.numbers@[i].pos.y as int));
        }
        assert forall|i: int|
            #![trigger g2.arrows@[i]]
            0 <= i < g2.arrows@.len() implies arrow_seed_ok(g2.arrows@[i], g2.dim as int, kg,
        ro) by {
            assert(g1.arrows@[i].pos == g2.arrows@[i].pos && g1.arrows@[i].val
                == g2.arrows@[i].val);
            assert(arrow_seed_ok(g1.arrows@[i], dim, kg, ro));
        }
    }
    if arrow_rule_stable(g1, kg, ro) {
        assert forall|i: int, d: int|
            #![trigger unique_feasible(g2.arrows@[i], g2.dim as int, kg, ro, d)]
            0 <= i < g2.arrows@.len() && !g2.arrows@[i].solved && unique_feasible(
                g2.arrows@[i],
                g2.dim as int,
                kg,
                ro,
                d,
            ) implies (forall|x: int, y: int|
            arrow_forced_box(g2.arrows@[i], g2.dim as int, d, x, y) ==> kg.has(x, y)) && (forall|
            x: int,
            y: int,
        |
            arrow_forced_nonbox(g2.arrows@[i], g2.dim as int, d, x, y) ==> ro.has(x, y)) by {
            lemma_arrow_semantics_same_clue(g1.arrows@[i], g2.arrows@[i], dim, kg, ro);
            assert(!g1.arrows@[i].solved);
            assert(unique_feasible(g1.arrows@[i], dim, kg, ro, d));
        }
    }
    if number_rule_stable(g1, kg, ro) {
        assert forall|i: int|
            #![trigger g2.numbers@[i]]
            0 <= i < g2.numbers@.len() && !g2.numbers@[i].solved implies {
            let n = g2.numbers@[i];
            ||| nbhd_assigned(n, kg, ro) == nbhd_total(n, g2.dim as int)
            ||| (nbhd_box(n, kg) != n.val && nbhd_ro(n, kg, ro) != nbhd_total(n, g2.dim as int)
                - n.val)
        } by {
            let n1 = g1.numbers@[i];
            let n2 = g2.numbers@[i];
            assert(n1.pos == n2.pos && n1.val == n2.val);
            assert(!n1.solved);
            assert(n1.pos.x as int == n2.pos.x as int && n1.pos.y as int == n2.pos.y as int);
        }
    }
    if !opposing_firable(g1, kg, ro) {
        if opposing_firable(g2, kg, ro) {
            let (i, j, dir, k, k0) = choose|i: int, j: int, dir: usize, k: int, k0: int|
                opposing_pair(g2, kg, ro, i, j, dir, k, k0);
            assert(g1.arrows@[i].pos == g2.arrows@[i].pos && g1.arrows@[i].val
                == g2.arrows@[i].val);
            assert(g1.arrows@[j].pos == g2.arrows@[j].pos && g1.arrows@[j].val
                == g2.arrows@[j].val);
            let px = g2.arrows@[i].pos.x as int;
            let py = g2.arrows@[i].pos.y as int;
            assert forall|k2: int|
                #![trigger ray_x(px, dir, k2)]
                1 <= k2 < k implies !facing_arrow_at_cell(g1, dir, ray_x(px, dir, k2), ray_y(py,
            dir, k2)) by {
                if facing_arrow_at_cell(g1, dir, ray_x(px, dir, k2), ray_y(py, dir, k2)) {
                    let jj = choose|jj: int|
                        #![trigger g1.arrows@[jj]]
                        0 <= jj < g1.arrows@.len() && g1.arrows@[jj].pos.x == ray_x(px, dir, k2)
                            && g1.arrows@[jj].pos.y == ray_y(py, dir, k2) && g1.arrows@[jj].val
                            & crate::geom::spec_inverse_dir(dir) != 0;
                    assert(g2.arrows@[jj].pos == g1.arrows@[jj].pos && g2.arrows@[jj].val
                        == g1.arrows@[jj].val);
                    assert(facing_arrow_at_cell(g2, dir, ray_x(px, dir, k2), ray_y(py, dir,
                        k2)));
                }
            }
            assert(opposing_pair(g1, kg, ro, i, j, dir, k, k0));
            assert(false);
        }
    }
}

impl BoxGrid {
    /// Seeding: force every number-clue cell into known-box and every
    /// arrow-clue cell into known-non-box; for each arrow, for every
    /// direction it does not point, force the adjacent in-bounds cell into
    /// known-non-box. A cell already assigned either way is left alone.
    fn seed(&self, kg: &mut CellSet, ro: &mut CellSet)
        requires
            self.wf(),
            old(kg).wf(),
            old(ro).wf(),
            old(kg).dim == self.dim,
            old(ro).dim == self.dim,
        ensures
            final(kg).wf(),
            final(ro).wf(),
            final(kg).dim == self.dim,
            final(ro).dim == self.dim,
            forall|x: int, y: int| old(kg).has(x, y) ==> final(kg).has(x, y),
            forall|x: int, y: int| old(ro).has(x, y) ==> final(ro).has(x, y),
            final(kg).count >= old(kg).count,
            final(ro).count >= old(ro).count,
            old(kg).disjoint_with(old(ro)) ==> final(kg).disjoint_with(final(ro)),
            seeded(*self, *final(kg), *final(ro)),
            seed_polarity(*self, *old(kg), *old(ro), *final(kg), *final(ro)),
            seeded(*self, *old(kg), *old(ro)) ==> *final(kg) == *old(kg) && *final(ro) == *old(
                ro,
            ),
    {
        let ghost kg0 = *kg;
        let ghost ro0 = *ro;
        let mut i: usize = 0;
        while i < self.numbers.len()
            invariant
                self.wf(),
                kg.wf(),
                ro.wf(),
                kg.dim == self.dim,
                ro.dim == self.dim,
                i <= self.numbers@.len(),
                forall|x: int, y: int| kg0.has(x, y) ==> kg.has(x, y),
                *ro == ro0,
                kg.count >= kg0.count,
                kg0.disjoint_with(&ro0) ==> kg.disjoint_with(ro),
                forall|k: int|
                    #![trigger self.numbers@[k]]
                    0 <= k < i ==> assigned(
                        *kg,
                        *ro,
                        self.numbers@[k].pos.x as int,
                        self.numbers@[k].pos.y as int,
                    ),
                forall|k: int|
                    #![trigger self.numbers@[k]]
                    0 <= k < i ==> kg.has(self.numbers@[k].pos.x as int,
                        self.numbers@[k].pos.y as int) || ro0.has(
                        self.numbers@[k].pos.x as int,
                        self.numbers@[k].pos.y as int,
                    ),
                forall|x: int, y: int|
                    #![trigger kg.has(x, y)]
                    kg.has(x, y) ==> kg0.has(x, y) || has_number_at(*self, x, y),
                seeded(*self, kg0, ro0) ==> *kg == kg0,
            decreases self.numbers@.len() - i,
        {
            let p = self.numbers[i].pos;
            if !kg.contains_v2(p) && !ro.contains_v2(p) {
                kg.insert(p.x as usize, p.y as usize);
                proof {
                    assert(has_number_at(*self, p.x as int, p.y as int)) by {
                        assert(self.numbers@[i as int].pos == p);
                    }
                }
            }
            i = i + 1;
        }
        let ghost kg1 = *kg;
        let mut i: usize = 0;
        while i < self.arrows.len()
            invariant
                self.wf(),
                kg.wf(),
                ro.wf(),
                kg.dim == self.dim,
                ro.dim == self.dim,
                i <= self.arrows@.len(),
                *kg == kg1,
                forall|x: int, y: int| kg0.has(x, y) ==> kg.has(x, y),
                forall|x: int, y: int| ro0.has(x, y) ==> ro.has(x, y),
                kg.count >= kg0.count,
                ro.count >= ro0.count,
                kg0.disjoint_with(&ro0) ==> kg.disjoint_with(ro),
                forall|k: int|
                    #![trigger self.numbers@[k]]
                    0 <= k < self.numbers@.len() ==> assigned(
                        *kg,
                        *ro,
                        self.numbers@[k].pos.x as int,
                        self.numbers@[k].pos.y as int,
                    ),
                forall|k: int|
                    #![trigger self.numbers@[k]]
                    0 <= k < self.numbers@.len() ==> kg.has(self.numbers@[k].pos.x as int,
                        self.numbers@[k].pos.y as int) || ro0.has(
                        self.numbers@[k].pos.x as int,
                        self.numbers@[k].pos.y as int,
                    ),
                forall|x: int, y: int|
                    #![trigger kg.has(x, y)]
                    kg.has(x, y) ==> kg0.has(x, y) || has_number_at(*self, x, y),
                forall|k: int|
                    #![trigger self.arrows@[k]]
                    0 <= k < i ==> arrow_seed_ok(self.arrows@[k], self.dim as int, *kg, *ro),
                forall|k: int|
                    #![trigger self.arrows@[k]]
                    0 <= k < i ==> arrow_seed_polarity(*self, self.arrows@[k], self.dim as int,
                        kg0, *ro),
                seeded(*self, kg0, ro0) ==> *kg == kg0 && *ro == ro0,
            decreases self.arrows@.len() - i,
        {
            let a = self.arrows[i];
            let p = a.pos;
            if !kg.contains_v2(p) && !ro.contains_v2(p) {
                ro.insert(p.x as usize, p.y as usize);
            }
            if !a.has_dir(NORTH) {
                let c = p.plus(dir_delta(NORTH));
                if c.in_bounds(self.dim) && !kg.contains_v2(c) && !ro.contains_v2(c) {
                    ro.insert(c.x as usize, c.y as usize);
                }
            }
            if !a.has_dir(EAST) {
                let c = p.plus(dir_delta(EAST));
                if c.in_bounds(self.dim) && !kg.contains_v2(c) && !ro.contains_v2(c) {
                    ro.insert(c.x as usize, c.y as usize);
                }
            }
            if !a.has_dir(SOUTH) {
                let c = p.plus(dir_delta(SOUTH));
                if c.in_bounds(self.dim) && !kg.contains_v2(c) && !ro.contains_v2(c) {
                    ro.insert(c.x as usize, c.y as usize);
                }
            }
            if !a.has_dir(WEST) {
                let c = p.plus(dir_delta(WEST));
                if c.in_bounds(self.dim) && !kg.contains_v2(c) && !ro.contains_v2(c) {
                    ro.insert(c.x as usize, c.y as usize);
                }
            }
            proof {
                if seeded(*self, kg0, ro0) {
                    assert(arrow_seed_ok(self.arrows@[i as int], self.dim as int, kg0, ro0));
                }
                assert(arrow_seed_ok(self.arrows@[i as int], self.dim as int, *kg, *ro));
                assert(arrow_seed_polarity(*self, self.arrows@[i as int], self.dim as int, kg0,
                    *ro));
            }
            i = i + 1;
        }
    }

    /// One pass of the arrow-solving rule over every arrow: a freshly
    /// solvable arrow is marked solved and the cells it forces are merged
    /// into the two sets, unless they conflict with the current assignments.
    fn apply_arrow_rule(&mut self, kg: &mut CellSet, ro: &mut CellSet)
        requires
            old(self).wf(),
            old(kg).wf(),
            old(ro).wf(),
            old(kg).dim == old(self).dim,
            old(ro).dim == old(self).dim,
        ensures
            final(self).wf(),
            final(self).same_clues(old(self)),
            final(self).solved_geq(old(self)),
            final(self).dim == old(self).dim,
            final(self).numbers@ == old(self).numbers@,
            final(kg).wf(),
            final(ro).wf(),
            final(kg).dim == old(self).dim,
            final(ro).dim == old(self).dim,
            forall|x: int, y: int| old(kg).has(x, y) ==> final(kg).has(x, y),
            forall|x: int, y: int| old(ro).has(x, y) ==> final(ro).has(x, y),
            final(kg).count >= old(kg).count,
            final(ro).count >= old(ro).count,
            old(kg).disjoint_with(old(ro)) ==> final(kg).disjoint_with(final(ro)),
            arrow_rule_stable(*old(self), *old(kg), *old(ro)) ==> *final(kg) == *old(kg)
                && *final(ro) == *old(ro),
            final(kg).count == old(kg).count && final(ro).count == old(ro).count ==> *final(kg)
                == *old(kg) && *final(ro) == *old(ro) && arrow_rule_stable(*old(self), *old(kg),
                *old(ro)),
            old(kg).disjoint_with(old(ro)) ==> forall|x: int, y: int|
                #![trigger final(kg).has(x, y)]
                final(kg).has(x, y) ==> old(kg).has(x, y) || arrow_justified_box(*old(self),
                    *old(kg), *old(ro), x, y),
            old(kg).disjoint_with(old(ro)) ==> forall|x: int, y: int|
                #![trigger final(ro).has(x, y)]
                final(ro).has(x, y) ==> old(ro).has(x, y) || arrow_justified_nonbox(*old(self),
                    *old(kg), *old(ro), x, y),
    {
        let ghost g0 = *self;
        let ghost kg0 = *kg;
        let ghost ro0 = *ro;
        let mut i: usize = 0;
        while i < self.arrows.len()
            invariant
                self.wf(),
                kg.wf(),
                ro.wf(),
                kg.dim == self.dim,
                ro.dim == self.dim,
                self.dim == g0.dim,
                i <= self.arrows@.len(),
                self.same_clues(&g0),
                self.solved_geq(&g0),
                self.numbers@ == g0.numbers@,
                forall|k: int|
                    #![trigger self.arrows@[k]]
                    i <= k < self.arrows@.len() ==> self.arrows@[k] == g0.arrows@[k],
                forall|x: int, y: int| kg0.has(x, y) ==> kg.has(x, y),
                forall|x: int, y: int| ro0.has(x, y) ==> ro.has(x, y),
                kg.count >= kg0.count,
                ro.count >= ro0.count,
                kg0.disjoint_with(&ro0) ==> kg.disjoint_with(ro),
                kg0.disjoint_with(&ro0) ==> forall|x: int, y: int|
                    #![trigger kg.has(x, y)]
                    kg.has(x, y) ==> kg0.has(x, y) || arrow_justified_box(g0, kg0, ro0, x, y),
                kg0.disjoint_with(&ro0) ==> forall|x: int, y: int|
                    #![trigger ro.has(x, y)]
                    ro.has(x, y) ==> ro0.has(x, y) || arrow_justified_nonbox(g0, kg0, ro0, x, y),
                arrow_rule_stable(g0, kg0, ro0) ==> *kg == kg0 && *ro == ro0,
                kg.count == kg0.count && ro.count == ro0.count ==> *kg == kg0 && *ro == ro0 && (
                forall|ii: int, d: int|
                    #![trigger unique_feasible(g0.arrows@[ii], g0.dim as int, kg0, ro0, d)]
                    0 <= ii < i && !g0.arrows@[ii].solved && unique_feasible(g0.arrows@[ii],
                        g0.dim as int, kg0, ro0, d) ==> (forall|x: int, y: int|
                        arrow_forced_box(g0.arrows@[ii], g0.dim as int, d, x, y) ==> kg0.has(x,
                        y)) && (forall|x: int, y: int|
                        arrow_forced_nonbox(g0.arrows@[ii], g0.dim as int, d, x, y) ==> ro0.has(
                            x,
                            y,
                        ))),
            decreases self.arrows@.len() - i,
        {
            let mut a = self.arrows[i];
            let ghost a_pre = a;
            let ghost kg_pre = *kg;
            let ghost ro_pre = *ro;
            let (fired, nkg, nro, gd) = a.try_solve(self.dim, kg, ro);
            self.arrows.set(i, a);
            proof {
                assert forall|k: int|
                    #![trigger self.arrows@[k]]
                    0 <= k < self.arrows@.len() implies self.arrows@[k].pos == g0.arrows@[k].pos
                    && self.arrows@[k].val == g0.arrows@[k].val && self.arrows@[k].dist
                    == g0.arrows@[k].dist && (g0.arrows@[k].solved
                    ==> self.arrows@[k].solved) by {}
            }
            if fired {
                proof {
                    let dd = self.dim as int;
                    assert forall|x: int, y: int| !(nkg.has(x, y) && ro.has(x, y)) by {
                        if nkg.has(x, y) && ro.has(x, y) {
                            assert(arrow_forced_box(a_pre, dd, gd@, x, y) && !kg_pre.has(x, y));
                            assert(feasible(a_pre, dd, kg_pre, ro_pre, gd@));
                            if forced_box_in_dir(a_pre, dd, gd@, NORTH, x, y) {
                                assert(crate::clues::dir_feasible(a_pre, dd, kg_pre, ro_pre,
                                    NORTH, gd@));
                            } else if forced_box_in_dir(a_pre, dd, gd@, EAST, x, y) {
                                assert(crate::clues::dir_feasible(a_pre, dd, kg_pre, ro_pre,
                                    EAST, gd@));
                            } else if forced_box_in_dir(a_pre, dd, gd@, SOUTH, x, y) {
                                assert(crate::clues::dir_feasible(a_pre, dd, kg_pre, ro_pre,
                                    SOUTH, gd@));
                            } else {
                                assert(forced_box_in_dir(a_pre, dd, gd@, WEST, x, y));
                                assert(crate::clues::dir_feasible(a_pre, dd, kg_pre, ro_pre,
                                    WEST, gd@));
                            }
                            assert(false);
                        }
                    }
                    assert forall|x: int, y: int| !(nro.has(x, y) && kg.has(x, y)) by {
                        if nro.has(x, y) && kg.has(x, y) {
                            assert(arrow_forced_nonbox(a_pre, dd, gd@, x, y) && !ro_pre.has(x,
                                y));
                            assert(feasible(a_pre, dd, kg_pre, ro_pre, gd@));
                            if crate::clues::forced_nonbox_in_dir(a_pre, dd, gd@, NORTH, x, y) {
                                let k = crate::clues::lemma_on_ray_below_elim(a_pre, dd, NORTH,
                                    if a_pre.val & NORTH != 0 {
                                        gd@
                                    } else {
                                        gd@ + 1
                                    }, x, y);
                                assert(crate::clues::dir_feasible(a_pre, dd, kg_pre, ro_pre,
                                    NORTH, gd@));
                            } else if crate::clues::forced_nonbox_in_dir(a_pre, dd, gd@, EAST, x,
                            y) {
                                let k = crate::clues::lemma_on_ray_below_elim(a_pre, dd, EAST,
                                    if a_pre.val & EAST != 0 {
                                        gd@
                                    } else {
                                        gd@ + 1
                                    }, x, y);
                                assert(crate::clues::dir_feasible(a_pre, dd, kg_pre, ro_pre,
                                    EAST, gd@));
                            } else if crate::clues::forced_nonbox_in_dir(a_pre, dd, gd@, SOUTH,
                            x, y) {
                                let k = crate::clues::lemma_on_ray_below_elim(a_pre, dd, SOUTH,
                                    if a_pre.val & SOUTH != 0 {
                                        gd@
                                    } else {
                                        gd@ + 1
                                    }, x, y);
                                assert(crate::clues::dir_feasible(a_pre, dd, kg_pre, ro_pre,
                                    SOUTH, gd@));
                            } else {
                                assert(crate::clues::forced_nonbox_in_dir(a_pre, dd, gd@, WEST,
                                    x, y));
                                let k = crate::clues::lemma_on_ray_below_elim(a_pre, dd, WEST,
                                    if a_pre.val & WEST != 0 {
                                        gd@
                                    } else {
                                        gd@ + 1
                                    }, x, y);
                                assert(crate::clues::dir_feasible(a_pre, dd, kg_pre, ro_pre,
                                    WEST, gd@));
                            }
                            assert(false);
                        }
                    }
                }
                let ok = !nkg.intersects(ro) && !nro.intersects(kg);
                proof {
                    assert(ok);
                }
                if ok {
                    proof {
                        lemma_arrow_forced_disjoint(a_pre, self.dim as int, gd@);
                        if arrow_rule_stable(g0, kg0, ro0) && *kg == kg0 && *ro == ro0 {
                            assert(a_pre == g0.arrows@[i as int]);
                            assert(unique_feasible(g0.arrows@[i as int], g0.dim as int, kg0, ro0,
                                gd@));
                            assert(forall|x: int, y: int|
                                arrow_forced_box(g0.arrows@[i as int], g0.dim as int, gd@, x, y)
                                    ==> kg0.has(x, y));
                            assert(forall|x: int, y: int|
                                arrow_forced_nonbox(g0.arrows@[i as int], g0.dim as int, gd@, x,
                                y) ==> ro0.has(x, y));
                            assert(forall|x: int, y: int| !nkg.has(x, y));
                            assert(forall|x: int, y: int| !nro.has(x, y));
                        }
                    }
                    kg.union_with(&nkg);
                    ro.union_with(&nro);
                    proof {
                        if kg0.disjoint_with(&ro0) {
                            assert forall|x: int, y: int| !(kg.has(x, y) && ro.has(x, y)) by {
                                if kg.has(x, y) && ro.has(x, y) {
                                    assert(kg_pre.has(x, y) || nkg.has(x, y));
                                    assert(ro_pre.has(x, y) || nro.has(x, y));
                                }
                            }
                            let dd = g0.dim as int;
                            assert(a_pre == g0.arrows@[i as int]);
                            assert(feasible(a_pre, dd, kg_pre, ro_pre, gd@));
                            crate::clues::lemma_feasible_anti(a_pre, dd, kg0, ro0, kg_pre,
                                ro_pre, gd@);
                            assert forall|x: int, y: int|
                                #![trigger kg.has(x, y)]
                                kg.has(x, y) implies kg0.has(x, y) || arrow_justified_box(g0,
                            kg0, ro0, x, y) by {
                                if !kg_pre.has(x, y) && kg.has(x, y) {
                                    assert(nkg.has(x, y));
                                    assert(arrow_forced_box(g0.arrows@[i as int], dd, gd@, x,
                                        y));
                                }
                            }
                            assert forall|x: int, y: int|
                                #![trigger ro.has(x, y)]
                                ro.has(x, y) implies ro0.has(x, y) || arrow_justified_nonbox(g0,
                            kg0, ro0, x, y) by {
                                if !ro_pre.has(x, y) && ro.has(x, y) {
                                    assert(nro.has(x, y));
                                    assert(arrow_forced_nonbox(g0.arrows@[i as int], dd, gd@, x,
                                        y));
                                }
                            }
                        }
                    }
                }
            }
            proof {
                if kg.count == kg0.count && ro.count == ro0.count {
                    assert(kg_pre.count == kg0.count && ro_pre.count == ro0.count);
                    assert(kg_pre == kg0 && ro_pre == ro0);
                    assert(*kg == kg_pre && *ro == ro_pre);
                    let dd = g0.dim as int;
                    assert forall|ii: int, d: int|
                        #![trigger unique_feasible(g0.arrows@[ii], g0.dim as int, kg0, ro0, d)]
                        0 <= ii < i + 1 && !g0.arrows@[ii].solved && unique_feasible(
                            g0.arrows@[ii], g0.dim as int, kg0, ro0, d) implies (forall|
                        x: int,
                        y: int,
                    |
                        arrow_forced_box(g0.arrows@[ii], g0.dim as int, d, x, y) ==> kg0.has(x,
                        y)) && (forall|x: int, y: int|
                        arrow_forced_nonbox(g0.arrows@[ii], g0.dim as int, d, x, y) ==> ro0.has(
                            x,
                            y,
                        )) by {
                        if ii == i as int {
                            assert(a_pre == g0.arrows@[ii]);
                            assert(fired);
                            assert(d == gd@) by {
                                assert(feasible(a_pre, dd, kg0, ro0, gd@));
                            }
                            assert forall|x: int, y: int|
                                arrow_forced_box(g0.arrows@[ii], g0.dim as int, d, x, y)
                                implies kg0.has(x, y) by {
                                if !kg0.has(x, y) {
                                    assert(nkg.has(x, y));
                                }
                            }
                            assert forall|x: int, y: int|
                                arrow_forced_nonbox(g0.arrows@[ii], g0.dim as int, d, x, y)
                                implies ro0.has(x, y) by {
                                if !ro0.has(x, y) {
                                    assert(nro.has(x, y));
                                }
                            }
                        }
                    }
                }
            }
            i = i + 1;
        }
    }

    /// One pass of the number-solving rule over every number clue: a
    /// freshly decidable clue is marked solved and the remaining unassigned
    /// neighbors are merged into the forced set, unless they conflict with
    /// the current assignments.
    fn apply_number_rule(&mut self, kg: &mut CellSet, ro: &mut CellSet)
        requires
            old(self).wf(),
            old(kg).wf(),
            old(ro).wf(),
            old(kg).dim == old(self).dim,
            old(ro).dim == old(self).dim,
        ensures
            final(self).wf(),
            final(self).same_clues(old(self)),
            final(self).solved_geq(old(self)),
            final(self).dim == old(self).dim,
            final(self).arrows@ == old(self).arrows@,
            final(kg).wf(),
            final(ro).wf(),
            final(kg).dim == old(self).dim,
            final(ro).dim == old(self).dim,
            forall|x: int, y: int| old(kg).has(x, y) ==> final(kg).has(x, y),
            forall|x: int, y: int| old(ro).has(x, y) ==> final(ro).has(x, y),
            final(kg).count >= old(kg).count,
            final(ro).count >= old(ro).count,
            old(kg).disjoint_with(old(ro)) ==> final(kg).disjoint_with(final(ro)),
            number_rule_stable(*old(self), *old(kg), *old(ro)) ==> *final(kg) == *old(kg)
                && *final(ro) == *old(ro),
            final(kg).count == old(kg).count && final(ro).count == old(ro).count ==> *final(kg)
                == *old(kg) && *final(ro) == *old(ro) && number_rule_stable(*old(self), *old(kg),
                *old(ro)),
            forall|x: int, y: int|
                #![trigger final(kg).has(x, y)]
                final(kg).has(x, y) ==> old(kg).has(x, y) || number_justified(*old(self),
                    *old(kg), *old(ro), x, y),
            forall|x: int, y: int|
                #![trigger final(ro).has(x, y)]
                final(ro).has(x, y) ==> old(ro).has(x, y) || number_justified(*old(self),
                    *old(kg), *old(ro), x, y),
    {
        let ghost g0 = *self;
        let ghost kg0 = *kg;
        let ghost ro0 = *ro;
        let mut i: usize = 0;
        while i < self.numbers.len()
            invariant
                self.wf(),
                kg.wf(),
                ro.wf(),
                kg.dim == self.dim,
                ro.dim == self.dim,
                self.dim == g0.dim,
                i <= self.numbers@.len(),
                self.same_clues(&g0),
                self.solved_geq(&g0),
                self.arrows@ == g0.arrows@,
                forall|k: int|
                    #![trigger self.numbers@[k]]
                    i <= k < self.numbers@.len() ==> self.numbers@[k] == g0.numbers@[k],
                forall|x: int, y: int| kg0.has(x, y) ==> kg.has(x, y),
                forall|x: int, y: int| ro0.has(x, y) ==> ro.has(x, y),
                kg.count >= kg0.count,
                ro.count >= ro0.count,
                kg0.disjoint_with(&ro0) ==> kg.disjoint_with(ro),
                forall|x: int, y: int|
                    #![trigger kg.has(x, y)]
                    kg.has(x, y) ==> kg0.has(x, y) || number_justified(g0, kg0, ro0, x, y),
                forall|x: int, y: int|
                    #![trigger ro.has(x, y)]
                    ro.has(x, y) ==> ro0.has(x, y) || number_justified(g0, kg0, ro0, x, y),
                number_rule_stable(g0, kg0, ro0) ==> *kg == kg0 && *ro == ro0,
                kg.count == kg0.count && ro.count == ro0.count ==> *kg == kg0 && *ro == ro0 && (
                forall|ii: int|
                    #![trigger g0.numbers@[ii]]
                    0 <= ii < i && !g0.numbers@[ii].solved ==> {
                        let n = g0.numbers@[ii];
                        ||| nbhd_assigned(n, kg0, ro0) == nbhd_total(n, g0.dim as int)
                        ||| (nbhd_box(n, kg0) != n.val && nbhd_ro(n, kg0, ro0) != nbhd_total(n,
                            g0.dim as int) - n.val)
                    }),
            decreases self.numbers@.len() - i,
        {
            let mut n = self.numbers[i];
            let ghost n_pre = n;
            let ghost kg_pre = *kg;
            let ghost ro_pre = *ro;
            let (fired, nkg, nro) = n.try_solve(self.dim, kg, ro);
            self.numbers.set(i, n);
            proof {
                assert forall|k: int|
                    #![trigger self.numbers@[k]]
                    0 <= k < self.numbers@.len() implies self.numbers@[k].pos
                    == g0.numbers@[k].pos && self.numbers@[k].val == g0.numbers@[k].val
                    && self.numbers@[k].is_circle == g0.numbers@[k].is_circle
                    && self.numbers@[k].is_square == g0.numbers@[k].is_square && (
                g0.numbers@[k].solved ==> self.numbers@[k].solved) by {}
            }
            if fired {
                let ghost dimi = self.dim as int;
                proof {
                    assert(!n_pre.solved);
                    assert(nbhd_assigned(n_pre, kg_pre, ro_pre) != nbhd_total(n_pre, dimi));
                    if nbhd_box(n_pre, kg_pre) == n_pre.val {
                        assert(forall|x: int, y: int|
                            #![trigger nro.has(x, y)]
                            nro.has(x, y) <==> nbhd_unassigned(n_pre, dimi, kg_pre, ro_pre, x,
                            y));
                        assert(forall|x: int, y: int| !nkg.has(x, y));
                    } else {
                        assert(nbhd_ro(n_pre, kg_pre, ro_pre) == nbhd_total(n_pre, dimi)
                            - n_pre.val);
                        assert(forall|x: int, y: int|
                            #![trigger nkg.has(x, y)]
                            nkg.has(x, y) <==> nbhd_unassigned(n_pre, dimi, kg_pre, ro_pre, x,
                            y));
                        assert(forall|x: int, y: int| !nro.has(x, y));
                    }
                    if number_rule_stable(g0, kg0, ro0) && *kg == kg0 && *ro == ro0 {
                        assert(n_pre == g0.numbers@[i as int]);
                        assert(false);
                    }
                }
                proof {
                    assert forall|x: int, y: int| !(nkg.has(x, y) && ro.has(x, y)) by {
                        if nkg.has(x, y) {
                            assert(nbhd_unassigned(n_pre, dimi, kg_pre, ro_pre, x, y));
                        }
                    }
                    assert forall|x: int, y: int| !(nro.has(x, y) && kg.has(x, y)) by {
                        if nro.has(x, y) {
                            assert(nbhd_unassigned(n_pre, dimi, kg_pre, ro_pre, x, y));
                        }
                    }
                }
                let ok = !nkg.intersects(ro) && !nro.intersects(kg);
                proof {
                    assert(ok);
                }
                if ok {
                    kg.union_with(&nkg);
                    ro.union_with(&nro);
                    proof {
                        if kg0.disjoint_with(&ro0) {
                            assert forall|x: int, y: int| !(kg.has(x, y) && ro.has(x, y)) by {
                                if kg.has(x, y) && ro.has(x, y) {
                                    assert(kg_pre.has(x, y) || nkg.has(x, y));
                                    assert(ro_pre.has(x, y) || nro.has(x, y));
                                    if nkg.has(x, y) {
                                        assert(nbhd_unassigned(n_pre, dimi, kg_pre, ro_pre, x,
                                            y));
                                    }
                                    if nro.has(x, y) {
                                        assert(nbhd_unassigned(n_pre, dimi, kg_pre, ro_pre, x,
                                            y));
                                    }
                                }
                            }
                        }
                        assert(n_pre == g0.numbers@[i as int]);
                        assert(!g0.numbers@[i as int].solved);
                        assert forall|x: int, y: int|
                            #![trigger kg.has(x, y)]
                            kg.has(x, y) implies kg0.has(x, y) || number_justified(g0, kg0, ro0,
                        x, y) by {
                            if !kg_pre.has(x, y) && kg.has(x, y) {
                                assert(nkg.has(x, y));
                                assert(nbhd_unassigned(g0.numbers@[i as int], g0.dim as int,
                                    kg0, ro0, x, y));
                            }
                        }
                        assert forall|x: int, y: int|
                            #![trigger ro.has(x, y)]
                            ro.has(x, y) implies ro0.has(x, y) || number_justified(g0, kg0, ro0,
                        x, y) by {
                            if !ro_pre.has(x, y) && ro.has(x, y) {
                                assert(nro.has(x, y));
                                assert(nbhd_unassigned(g0.numbers@[i as int], g0.dim as int,
                                    kg0, ro0, x, y));
                            }
                        }
                    }
                }
            }
            proof {
                if kg.count == kg0.count && ro.count == ro0.count {
                    assert(kg_pre.count == kg0.count && ro_pre.count == ro0.count);
                    assert(kg_pre == kg0 && ro_pre == ro0);
                    assert(*kg == kg_pre && *ro == ro_pre);
                    let dd = g0.dim as int;
                    assert forall|ii: int|
                        #![trigger g0.numbers@[ii]]
                        0 <= ii < i + 1 && !g0.numbers@[ii].solved implies {
                        let n = g0.numbers@[ii];
                        ||| nbhd_assigned(n, kg0, ro0) == nbhd_total(n, dd)
                        ||| (nbhd_box(n, kg0) != n.val && nbhd_ro(n, kg0, ro0) != nbhd_total(n,
                            dd) - n.val)
                    } by {
                        if ii == i as int {
                            assert(n_pre == g0.numbers@[ii]);
                            if fired {
                                assert(nbhd_assigned(n_pre, kg0, ro0) != nbhd_total(n_pre, dd));
                                crate::clues::lemma_nbhd_counts(n_pre.pos.x as int,
                                    n_pre.pos.y as int, dd, kg0, ro0, 9);
                                let w = crate::clues::lemma_nbhd_unassigned_witness(
                                    n_pre.pos.x as int, n_pre.pos.y as int, dd, kg0, ro0, 9);
                                let wx = crate::clues::nb_x(n_pre.pos.x as int, w);
                                let wy = crate::clues::nb_y(n_pre.pos.y as int, w);
                                assert(nbhd_unassigned(n_pre, dd, kg0, ro0, wx, wy));
                                if nbhd_box(n_pre, kg0) == n_pre.val {
                                    assert(nro.has(wx, wy));
                                    assert(kg_pre.has(wx, wy) || ro_pre.has(wx, wy));
                                    assert(false);
                                } else {
                                    assert(nkg.has(wx, wy));
                                    assert(kg_pre.has(wx, wy) || ro_pre.has(wx, wy));
                                    assert(false);
                                }
                            }
                        }
                    }
                }
            }
            i = i + 1;
        }
    }
}


impl BoxGrid {
    /// Index of an arrow sitting on `(x, y)` whose mask includes `want`,
    /// if any.
    fn facing_arrow_at(&self, x: isize, y: isize, want: usize) -> (r: Option<usize>)
        requires
            self.wf(),
        ensures
            r matches Some(j) ==> j < self.arrows@.len() && self.arrows@[j as int].pos.x == x
                && self.arrows@[j as int].pos.y == y && self.arrows@[j as int].val & want != 0,
            r is None ==> forall|j: int|
                #![trigger self.arrows@[j]]
                0 <= j < self.arrows@.len() ==> !(self.arrows@[j].pos.x == x
                    && self.arrows@[j].pos.y == y && self.arrows@[j].val & want != 0),
    {
        let mut j: usize = 0;
        while j < self.arrows.len()
            invariant
                self.wf(),
                j <= self.arrows@.len(),
                forall|k: int|
                    #![trigger self.arrows@[k]]
                    0 <= k < j ==> !(self.arrows@[k].pos.x == x && self.arrows@[k].pos.y == y
                        && self.arrows@[k].val & want != 0),
            decreases self.arrows@.len() - j,
        {
            let a = self.arrows[j];
            if a.pos.x == x && a.pos.y == y && a.val & want != 0 {
                return Some(j);
            }
            j = j + 1;
        }
        None
    }

    /// Walk one pointed direction of the unsolved arrow at index `i` looking
    /// for an unsolved arrow pointing back; with exactly one unassigned cell
    /// and no known-box cell between them, that cell is forced box.
    fn opposing_walk(&self, i: usize, dir: usize, kg: &mut CellSet, ro: &CellSet)
        requires
            self.wf(),
            old(kg).wf(),
            ro.wf(),
            old(kg).dim == self.dim,
            ro.dim == self.dim,
            i < self.arrows@.len(),
            !self.arrows@[i as int].solved,
            is_dir(dir),
            self.arrows@[i as int].val & dir != 0,
        ensures
            final(kg).wf(),
            final(kg).dim == self.dim,
            forall|x: int, y: int| old(kg).has(x, y) ==> final(kg).has(x, y),
            final(kg).count >= old(kg).count,
            old(kg).disjoint_with(ro) ==> final(kg).disjoint_with(ro),
            !opposing_firable(*self, *old(kg), *ro) ==> *final(kg) == *old(kg),
            forall|x: int, y: int|
                #![trigger final(kg).has(x, y)]
                final(kg).has(x, y) ==> old(kg).has(x, y) || opposing_justified(*self, *old(kg),
                    *ro, x, y),
            final(kg).count == old(kg).count ==> *final(kg) == *old(kg) && (forall|
                j: int,
                k: int,
                k0: int,
            |
                !opposing_pair(*self, *old(kg), *ro, i as int, j, dir, k, k0)),
    {
        let dim = self.dim;
        let a = self.arrows[i];
        let ghost px = a.pos.x as int;
        let ghost py = a.pos.y as int;
        let delta = dir_delta(dir);
        let want = crate::geom::inverse_dir(dir);
        let mut k: usize = 1;
        let mut ucount: usize = 0;
        let mut k0: usize = 0;
        let mut saw_box = false;
        let ghost mut box_at: int = 0;
        while k <= dim
            invariant
                self.wf(),
                kg.wf(),
                ro.wf(),
                kg.dim == dim,
                ro.dim == dim,
                self.dim == dim,
                *kg == *old(kg),
                i < self.arrows@.len(),
                !self.arrows@[i as int].solved,
                is_dir(dir),
                self.arrows@[i as int].val & dir != 0,
                a == self.arrows@[i as int],
                px == a.pos.x as int,
                py == a.pos.y as int,
                delta.x == crate::geom::dir_dx(dir),
                delta.y == crate::geom::dir_dy(dir),
                want == crate::geom::spec_inverse_dir(dir),
                1 <= k <= dim + 1,
                ucount <= k,
                forall|k2: int|
                    #![trigger ray_x(px, dir, k2)]
                    1 <= k2 < k ==> in_grid(dim as int, ray_x(px, dir, k2), ray_y(py, dir, k2)),
                !saw_box ==> forall|k2: int|
                    #![trigger ray_x(px, dir, k2)]
                    1 <= k2 < k ==> !kg.has(ray_x(px, dir, k2), ray_y(py, dir, k2)),
                ucount == 0 ==> forall|k2: int|
                    #![trigger ray_x(px, dir, k2)]
                    1 <= k2 < k ==> assigned(*kg, *ro, ray_x(px, dir, k2), ray_y(py, dir, k2)),
                ucount == 1 ==> 1 <= k0 < k && !kg.has(ray_x(px, dir, k0 as int), ray_y(py, dir,
                    k0 as int)) && !ro.has(ray_x(px, dir, k0 as int), ray_y(py, dir, k0 as int))
                    && (forall|k2: int|
                    #![trigger ray_x(px, dir, k2)]
                    1 <= k2 < k && k2 != k0 ==> assigned(*kg, *ro, ray_x(px, dir, k2), ray_y(py,
                    dir, k2))),
                forall|k2: int|
                    #![trigger ray_x(px, dir, k2)]
                    1 <= k2 < k ==> !facing_arrow_at_cell(*self, dir, ray_x(px, dir, k2), ray_y(
                        py,
                        dir,
                        k2,
                    )),
                ucount == ray_unknown_count(*kg, *ro, dim as int, px, py, dir, k as int),
                saw_box ==> 1 <= box_at < k && kg.has(ray_x(px, dir, box_at), ray_y(py, dir,
                    box_at)),
            decreases dim + 1 - k,
        {
            let step = delta.scaled(k as isize);
            proof {
                crate::clues::lemma_unit_scale_bound(delta.x as int, k as int);
                crate::clues::lemma_unit_scale_bound(delta.y as int, k as int);
            }
            let coord = a.pos.plus(step);
            proof {
                assert(coord.x == ray_x(px, dir, k as int));
                assert(coord.y == ray_y(py, dir, k as int));
            }
            if !coord.in_bounds(dim) {
                proof {
                    assert forall|j: int, kk: int, kk0: int|
                        !opposing_pair(*self, *kg, *ro, i as int, j, dir, kk, kk0) by {
                        if opposing_pair(*self, *kg, *ro, i as int, j, dir, kk, kk0) {
                            assert(self.arrows@[j].wf(dim as int));
                            assert(in_grid(dim as int, ray_x(px, dir, kk), ray_y(py, dir, kk)));
                            if kk >= k as int {
                                lemma_ray_stays_out(px, py, dim as int, dir, k as int, kk);
                            } else {
                                assert(facing_arrow_at_cell(*self, dir, ray_x(px, dir, kk),
                                    ray_y(py, dir, kk)));
                            }
                            assert(false);
                        }
                    }
                }
                return;
            }
            let facing = self.facing_arrow_at(coord.x, coord.y, want);
            proof {
                if facing is None {
                    if facing_arrow_at_cell(*self, dir, coord.x as int, coord.y as int) {
                        let jj = choose|jj: int|
                            #![trigger self.arrows@[jj]]
                            0 <= jj < self.arrows@.len() && self.arrows@[jj].pos.x
                                == coord.x as int && self.arrows@[jj].pos.y == coord.y as int
                                && self.arrows@[jj].val & crate::geom::spec_inverse_dir(dir)
                                != 0;
                        assert(false);
                    }
                }
            }
            match facing {
                Some(j) => {
                    proof {
                        assert forall|jj: int, kk: int, kk0: int|
                            kk != k as int implies !opposing_pair(*self, *kg, *ro, i as int, jj,
                        dir, kk, kk0) by {
                            if opposing_pair(*self, *kg, *ro, i as int, jj, dir, kk, kk0) {
                                if kk < k as int {
                                    assert(facing_arrow_at_cell(*self, dir, ray_x(px, dir, kk),
                                        ray_y(py, dir, kk)));
                                } else {
                                    assert(self.arrows@[j as int].pos.x == ray_x(px, dir,
                                        k as int) && self.arrows@[j as int].pos.y == ray_y(py,
                                        dir, k as int));
                                    assert(facing_arrow_at_cell(*self, dir, ray_x(px, dir,
                                        k as int), ray_y(py, dir, k as int)));
                                }
                                assert(false);
                            }
                        }
                    }
                    if !self.arrows[j].solved && ucount == 1 && !saw_box {
                        let tstep = delta.scaled(k0 as isize);
                        proof {
                            crate::clues::lemma_unit_scale_bound(delta.x as int, k0 as int);
                            crate::clues::lemma_unit_scale_bound(delta.y as int, k0 as int);
                        }
                        let target = a.pos.plus(tstep);
                        proof {
                            assert(target.x == ray_x(px, dir, k0 as int));
                            assert(target.y == ray_y(py, dir, k0 as int));
                            assert forall|k2: int|
                                #![trigger ray_x(px, dir, k2)]
                                1 <= k2 < k && k2 != k0 implies ro.has(ray_x(px, dir, k2), ray_y(
                                py, dir, k2)) by {
                                assert(assigned(*kg, *ro, ray_x(px, dir, k2), ray_y(py, dir,
                                    k2)));
                                assert(!kg.has(ray_x(px, dir, k2), ray_y(py, dir, k2)));
                            }
                            assert(opposing_pair(*self, *kg, *ro, i as int, j as int, dir,
                                k as int, k0 as int));
                            assert(opposing_firable(*self, *kg, *ro));
                        }
                        kg.insert(target.x as usize, target.y as usize);
                        proof {
                            assert(kg.count == old(kg).count + 1);
                            assert(opposing_justified(*self, *old(kg), *ro, target.x as int,
                                target.y as int));
                        }
                    } else {
                        proof {
                            assert forall|jj: int, kk: int, kk0: int|
                                !opposing_pair(*self, *kg, *ro, i as int, jj, dir, kk, kk0) by {
                                if opposing_pair(*self, *kg, *ro, i as int, jj, dir, kk, kk0) {
                                    if kk == k as int {
                                        assert(self.arrows@[jj].pos.x == ray_x(px, dir, kk)
                                            && self.arrows@[jj].pos.y == ray_y(py, dir, kk));
                                        assert(self.arrows@[j as int].pos.x == coord.x
                                            && self.arrows@[j as int].pos.y == coord.y);
                                        assert(jj == j as int) by {
                                            if jj != j as int {
                                                assert(!(self.arrows@[jj].pos.x
                                                    == self.arrows@[j as int].pos.x
                                                    && self.arrows@[jj].pos.y
                                                    == self.arrows@[j as int].pos.y));
                                            }
                                        }
                                        if self.arrows@[j as int].solved {
                                        } else if ucount != 1 {
                                            lemma_ray_unknown_count_one(*kg, *ro, dim as int,
                                                px, py, dir, kk, kk0);
                                        } else {
                                            assert(saw_box);
                                            assert(kg.has(ray_x(px, dir, box_at), ray_y(py,
                                                dir, box_at)));
                                        }
                                        assert(false);
                                    }
                                }
                            }
                        }
                    }
                    return;
                },
                None => {},
            }
            if kg.contains_v2(coord) {
                saw_box = true;
                proof {
                    box_at = k as int;
                }
            } else if !ro.contains_v2(coord) {
                ucount = ucount + 1;
                k0 = k;
            }
            k = k + 1;
        }
        proof {
            assert forall|jj: int, kk: int, kk0: int|
                !opposing_pair(*self, *kg, *ro, i as int, jj, dir, kk, kk0) by {
                if opposing_pair(*self, *kg, *ro, i as int, jj, dir, kk, kk0) {
                    assert(self.arrows@[jj].wf(dim as int));
                    assert(in_grid(dim as int, ray_x(px, dir, kk), ray_y(py, dir, kk)));
                    crate::clues::lemma_unit_scale_exact(crate::geom::dir_dx(dir), kk);
                    crate::clues::lemma_unit_scale_exact(crate::geom::dir_dy(dir), kk);
                    assert(kk < k as int);
                    assert(facing_arrow_at_cell(*self, dir, ray_x(px, dir, kk), ray_y(py, dir,
                        kk)));
                    assert(false);
                }
            }
        }
    }

    /// One pass of the opposing-arrows rule over every pointed direction of
    /// every unsolved arrow.
    fn apply_opposing_rule(&self, kg: &mut CellSet, ro: &CellSet)
        requires
            self.wf(),
            old(kg).wf(),
            ro.wf(),
            old(kg).dim == self.dim,
            ro.dim == self.dim,
        ensures
            final(kg).wf(),
            final(kg).dim == self.dim,
            forall|x: int, y: int| old(kg).has(x, y) ==> final(kg).has(x, y),
            final(kg).count >= old(kg).count,
            old(kg).disjoint_with(ro) ==> final(kg).disjoint_with(ro),
            !opposing_firable(*self, *old(kg), *ro) ==> *final(kg) == *old(kg),
            forall|x: int, y: int|
                #![trigger final(kg).has(x, y)]
                final(kg).has(x, y) ==> old(kg).has(x, y) || opposing_justified(*self, *old(kg),
                    *ro, x, y),
            final(kg).count == old(kg).count ==> *final(kg) == *old(kg) && !opposing_firable(
                *self,
                *old(kg),
                *ro,
            ),
    {
        let mut i: usize = 0;
        while i < self.arrows.len()
            invariant
                self.wf(),
                kg.wf(),
                ro.wf(),
                kg.dim == self.dim,
                ro.dim == self.dim,
                i <= self.arrows@.len(),
                forall|x: int, y: int| old(kg).has(x, y) ==> kg.has(x, y),
                kg.count >= old(kg).count,
                old(kg).disjoint_with(ro) ==> kg.disjoint_with(ro),
                !opposing_firable(*self, *old(kg), *ro) ==> *kg == *old(kg),
                forall|x: int, y: int|
                    #![trigger kg.has(x, y)]
                    kg.has(x, y) ==> old(kg).has(x, y) || opposing_justified(*self, *old(kg),
                        *ro, x, y),
                kg.count == old(kg).count ==> *kg == *old(kg) && (forall|
                    ii: int,
                    j: int,
                    dirv: usize,
                    k: int,
                    k0: int,
                |
                    0 <= ii < i ==> !opposing_pair(*self, *old(kg), *ro, ii, j, dirv, k, k0)),
            decreases self.arrows@.len() - i,
        {
            let a = self.arrows[i];
            let ghost kg_i = *kg;
            if !a.solved {
                if a.has_dir(NORTH) {
                    self.opposing_walk(i, NORTH, kg, ro);
                }
                let ghost kg_n = *kg;
                if a.has_dir(EAST) {
                    self.opposing_walk(i, EAST, kg, ro);
                }
                let ghost kg_e = *kg;
                if a.has_dir(SOUTH) {
                    self.opposing_walk(i, SOUTH, kg, ro);
                }
                let ghost kg_s = *kg;
                if a.has_dir(WEST) {
                    self.opposing_walk(i, WEST, kg, ro);
                }
                proof {
                    assert forall|x: int, y: int|
                        #![trigger kg.has(x, y)]
                        kg.has(x, y) implies old(kg).has(x, y) || opposing_justified(*self,
                    *old(kg), *ro, x, y) by {
                        if !old(kg).has(x, y) {
                            if kg_i.has(x, y) {
                            } else if kg_n.has(x, y) {
                                lemma_opposing_justified_anti(*self, *old(kg), kg_i, *ro, x, y);
                            } else if kg_e.has(x, y) {
                                lemma_opposing_justified_anti(*self, *old(kg), kg_n, *ro, x, y);
                            } else if kg_s.has(x, y) {
                                lemma_opposing_justified_anti(*self, *old(kg), kg_e, *ro, x, y);
                            } else {
                                lemma_opposing_justified_anti(*self, *old(kg), kg_s, *ro, x, y);
                            }
                        }
                    }
                }
                proof {
                    if kg.count == old(kg).count {
                        assert(kg_s.count == old(kg).count && kg_e.count == old(kg).count
                            && kg_n.count == old(kg).count && kg_i.count == old(kg).count);
                        assert(kg_i == *old(kg) && kg_n == *old(kg) && kg_e == *old(kg) && kg_s
                            == *old(kg) && *kg == *old(kg));
                        assert forall|ii: int, j: int, dirv: usize, k: int, k0: int|
                            0 <= ii < i + 1 implies !opposing_pair(*self, *old(kg), *ro, ii, j,
                        dirv, k, k0) by {
                            if opposing_pair(*self, *old(kg), *ro, ii, j, dirv, k, k0) && ii
                                == i as int {
                                assert(!self.arrows@[ii].solved && self.arrows@[ii].val & dirv
                                    != 0 && is_dir(dirv));
                                assert(a == self.arrows@[ii]);
                                if dirv == NORTH {
                                } else if dirv == EAST {
                                } else if dirv == SOUTH {
                                } else {
                                    assert(dirv == WEST);
                                }
                                assert(false);
                            }
                        }
                    }
                }
            } else {
                proof {
                    if kg.count == old(kg).count {
                        assert forall|ii: int, j: int, dirv: usize, k: int, k0: int|
                            0 <= ii < i + 1 implies !opposing_pair(*self, *old(kg), *ro, ii, j,
                        dirv, k, k0) by {
                            if opposing_pair(*self, *old(kg), *ro, ii, j, dirv, k, k0) && ii
                                == i as int {
                                assert(!self.arrows@[ii].solved);
                            }
                        }
                    }
                }
            }
            i = i + 1;
        }
        proof {
            if kg.count == old(kg).count {
                if opposing_firable(*self, *old(kg), *ro) {
                    let (ii, j, dirv, k, k0) = choose|
                        ii: int,
                        j: int,
                        dirv: usize,
                        k: int,
                        k0: int,
                    | opposing_pair(*self, *old(kg), *ro, ii, j, dirv, k, k0);
                    assert(false);
                }
            }
        }
    }
}


/// One pass of the isolated-unknown-region rule: a maximal region of
/// unassigned cells (traversing unassigned and known-box cells) that
/// contains no known-box cell is forced entirely non-box, because all box
/// cells must form one connected group.
fn apply_region_nonbox(kg: &CellSet, ro: &mut CellSet)
    requires
        kg.wf(),
        old(ro).wf(),
        kg.dim == old(ro).dim,
    ensures
        final(ro).wf(),
        final(ro).dim == kg.dim,
        forall|x: int, y: int| old(ro).has(x, y) ==> final(ro).has(x, y),
        final(ro).count >= old(ro).count,
        kg.disjoint_with(old(ro)) ==> kg.disjoint_with(final(ro)),
        region_nonbox_stable(*kg, *old(ro), kg.dim as int) ==> *final(ro) == *old(ro),
        forall|x: int, y: int|
            #![trigger final(ro).has(x, y)]
            final(ro).has(x, y) ==> old(ro).has(x, y) || !reaches_some_box(*kg, *old(ro), x, y),
        final(ro).count == old(ro).count ==> *final(ro) == *old(ro) && region_nonbox_stable(
            *kg,
            *old(ro),
            kg.dim as int,
        ),
{
    let dim = kg.dim;
    let mut y: usize = 0;
    while y < dim
        invariant
            kg.wf(),
            ro.wf(),
            kg.dim == ro.dim,
            kg.dim == dim,
            y <= dim,
            forall|x: int, y: int| old(ro).has(x, y) ==> ro.has(x, y),
            ro.count >= old(ro).count,
            kg.disjoint_with(old(ro)) ==> kg.disjoint_with(ro),
            region_nonbox_stable(*kg, *old(ro), dim as int) ==> *ro == *old(ro),
            forall|a: int, b: int|
                #![trigger ro.has(a, b)]
                ro.has(a, b) ==> old(ro).has(a, b) || !reaches_some_box(*kg, *old(ro), a, b),
            ro.count == old(ro).count ==> *ro == *old(ro) && (forall|a: int, b: int|
                #![trigger kg.has(a, b)]
                #![trigger old(ro).has(a, b)]
                0 <= b < y && unassigned(*kg, *old(ro), dim as int, a, b) ==> reaches_some_box(
                    *kg,
                    *old(ro),
                    a,
                    b,
                )),
        decreases dim - y,
    {
        let mut x: usize = 0;
        while x < dim
            invariant
                kg.wf(),
                ro.wf(),
                kg.dim == ro.dim,
                kg.dim == dim,
                y < dim,
                x <= dim,
                forall|x: int, y: int| old(ro).has(x, y) ==> ro.has(x, y),
                ro.count >= old(ro).count,
                kg.disjoint_with(old(ro)) ==> kg.disjoint_with(ro),
                region_nonbox_stable(*kg, *old(ro), dim as int) ==> *ro == *old(ro),
                forall|a: int, b: int|
                    #![trigger ro.has(a, b)]
                    ro.has(a, b) ==> old(ro).has(a, b) || !reaches_some_box(*kg, *old(ro), a,
                        b),
                ro.count == old(ro).count ==> *ro == *old(ro) && (forall|a: int, b: int|
                    #![trigger kg.has(a, b)]
                    #![trigger old(ro).has(a, b)]
                    (0 <= b < y || (b == y && 0 <= a < x)) && unassigned(*kg, *old(ro),
                        dim as int, a, b) ==> reaches_some_box(*kg, *old(ro), a, b)),
            decreases dim - x,
        {
            proof {
                if ro.count == old(ro).count {
                    assert(*ro == *old(ro));
                }
            }
            let ghost ro_it = *ro;
            if !kg.contains(x, y) && !ro.contains(x, y) {
                let grp = crate::reach::flood_from(kg, ro, true, false, true, Vec2 {
                    x: x as isize,
                    y: y as isize,
                });
                proof {
                    assert(crate::reach::passable(*kg, *ro, true, false, true, x as int,
                        y as int));
                    crate::reach::lemma_reaches_self(*kg, *ro, true, false, true, x as int,
                        y as int);
                    assert(grp.has(x as int, y as int));
                }
                if !grp.intersects(kg) {
                    proof {
                        if region_nonbox_stable(*kg, *old(ro), dim as int) && *ro == *old(ro) {
                            assert(unassigned(*kg, *ro, dim as int, x as int, y as int));
                            assert(reaches_some_box(*kg, *ro, x as int, y as int));
                            let (bx, by) = choose|bx: int, by: int|
                                #![trigger reaches(*kg, *ro, true, false, true, x as int, y as int, bx, by)]
                                kg.has(bx, by) && reaches(*kg, *ro, true, false, true, x as int,
                                y as int, bx, by);
                            assert(grp.has(bx, by));
                            assert(false);
                        }
                        assert(!region_nonbox_stable(*kg, *old(ro), dim as int));
                        assert forall|a: int, b: int| #![trigger grp.has(a, b)] grp.has(a, b)
                            implies !reaches_some_box(*kg, *old(ro), a, b) by {
                            if reaches_some_box(*kg, *old(ro), a, b) {
                                let (bx, by) = choose|bx: int, by: int|
                                    #![trigger reaches(*kg, *old(ro), true, false, true, a, b, bx, by)]
                                    kg.has(bx, by) && reaches(*kg, *old(ro), true, false, true,
                                        a, b, bx, by);
                                let pw = choose|pw: Seq<(int, int)>|
                                    crate::reach::is_path(*kg, *old(ro), true, false, true, pw)
                                        && pw.first() == (a, b) && pw.last() == (bx, by);
                                assert forall|a2: int, b2: int, c2: int, d2: int|
                                    #![trigger grp.has(a2, b2), crate::reach::adjacent(a2, b2, c2, d2)]
                                    grp.has(a2, b2) && crate::reach::adjacent(a2, b2, c2, d2)
                                        && crate::reach::passable(*kg, ro_it, true, false, true,
                                    c2, d2) implies grp.has(c2, d2) by {
                                    crate::reach::lemma_reaches_step(*kg, ro_it, true, false,
                                        true, x as int, y as int, a2, b2, c2, d2);
                                }
                                lemma_blocked_group_no_box(*kg, *old(ro), ro_it, grp, pw);
                                assert(grp.has(bx, by) && kg.has(bx, by));
                                assert(false);
                            }
                        }
                    }
                    let mut my: usize = 0;
                    while my < dim
                        invariant
                            kg.wf(),
                            ro.wf(),
                            kg.dim == ro.dim,
                            kg.dim == dim,
                            grp.wf(),
                            grp.dim == dim,
                            my <= dim,
                            grp.disjoint_with(kg),
                            x < dim && y < dim,
                            grp.has(x as int, y as int),
                            forall|x: int, y: int| old(ro).has(x, y) ==> ro.has(x, y),
                            ro.count >= old(ro).count,
                            ro.count >= ro_it.count,
                            kg.disjoint_with(old(ro)) ==> kg.disjoint_with(ro),
                            !region_nonbox_stable(*kg, *old(ro), dim as int),
                            forall|a: int, b: int|
                                #![trigger grp.has(a, b)]
                                grp.has(a, b) ==> !reaches_some_box(*kg, *old(ro), a, b),
                            forall|a: int, b: int|
                                #![trigger ro.has(a, b)]
                                ro.has(a, b) ==> old(ro).has(a, b) || !reaches_some_box(*kg,
                                    *old(ro), a, b),
                            forall|a: int, b: int|
                                #![trigger grp.has(a, b)]
                                0 <= b < my && grp.has(a, b) ==> ro.has(a, b),
                        decreases dim - my,
                    {
                        let mut mx: usize = 0;
                        while mx < dim
                            invariant
                                kg.wf(),
                                ro.wf(),
                                kg.dim == ro.dim,
                                kg.dim == dim,
                                grp.wf(),
                                grp.dim == dim,
                                my < dim,
                                mx <= dim,
                                grp.disjoint_with(kg),
                                x < dim && y < dim,
                                grp.has(x as int, y as int),
                                forall|x: int, y: int| old(ro).has(x, y) ==> ro.has(x, y),
                                ro.count >= old(ro).count,
                                ro.count >= ro_it.count,
                                kg.disjoint_with(old(ro)) ==> kg.disjoint_with(ro),
                                !region_nonbox_stable(*kg, *old(ro), dim as int),
                                forall|a: int, b: int|
                                    #![trigger grp.has(a, b)]
                                    grp.has(a, b) ==> !reaches_some_box(*kg, *old(ro), a, b),
                                forall|a: int, b: int|
                                    #![trigger ro.has(a, b)]
                                    ro.has(a, b) ==> old(ro).has(a, b) || !reaches_some_box(
                                        *kg, *old(ro), a, b),
                                forall|a: int, b: int|
                                    #![trigger grp.has(a, b)]
                                    0 <= b < my && grp.has(a, b) ==> ro.has(a, b),
                                forall|a: int|
                                    #![trigger grp.has(a, my as int)]
                                    0 <= a < mx && grp.has(a, my as int) ==> ro.has(a, my as int),
                            decreases dim - mx,
                        {
                            if grp.contains(mx, my) {
                                proof {
                                    assert(!kg.has(mx as int, my as int));
                                }
                                ro.insert(mx, my);
                            }
                            mx = mx + 1;
                        }
                        my = my + 1;
                    }
                    proof {
                        assert(ro.has(x as int, y as int));
                        if ro.count == old(ro).count {
                            assert(ro_it.count == old(ro).count);
                            assert(ro_it == *old(ro));
                            assert(!old(ro).has(x as int, y as int));
                            old(ro).lemma_subset_counts(&ro);
                            assert(false);
                        }
                    }
                } else {
                    proof {
                        if ro.count == old(ro).count {
                            assert(ro_it.count == old(ro).count);
                            assert(ro_it == *old(ro));
                            assert(*ro == ro_it);
                            assert(!grp.disjoint_with(kg));
                            let (bx, by) = choose|bx: int, by: int|
                                grp.has(bx, by) && kg.has(bx, by);
                            assert(reaches(*kg, *old(ro), true, false, true, x as int, y as int,
                                bx, by));
                            assert(reaches_some_box(*kg, *old(ro), x as int, y as int));
                        }
                    }
                }
            }
            proof {
                if ro.count == old(ro).count {
                    assert forall|a: int, b: int|
                        #![trigger kg.has(a, b)]
                        #![trigger old(ro).has(a, b)]
                        (0 <= b < y || (b == y && 0 <= a < x + 1)) && unassigned(*kg, *old(ro),
                            dim as int, a, b) implies reaches_some_box(*kg, *old(ro), a, b) by {
                        if a == x as int && b == y as int {
                            assert(ro_it.count == old(ro).count);
                            assert(ro_it == *old(ro));
                            assert(unassigned(*kg, ro_it, dim as int, a, b));
                        }
                    }
                }
            }
            x = x + 1;
        }
        y = y + 1;
    }
    proof {
        if ro.count == old(ro).count {
            assert forall|a: int, b: int|
                #![trigger kg.has(a, b)]
                #![trigger old(ro).has(a, b)]
                unassigned(*kg, *old(ro), dim as int, a, b) implies reaches_some_box(*kg, *old(
                ro), a, b) by {
                assert(0 <= b < dim);
            }
        }
    }
}

/// One pass of the enclosed-hole rule: a maximal region of unassigned cells
/// (traversing unassigned and known-non-box cells) that contains no
/// known-non-box cell and touches no border cell is forced entirely box,
/// because the box cells cannot enclose a hole.
#[verifier::rlimit(100)]
fn apply_region_box(kg: &mut CellSet, ro: &CellSet)
    requires
        old(kg).wf(),
        ro.wf(),
        old(kg).dim == ro.dim,
    ensures
        final(kg).wf(),
        final(kg).dim == ro.dim,
        forall|x: int, y: int| old(kg).has(x, y) ==> final(kg).has(x, y),
        final(kg).count >= old(kg).count,
        old(kg).disjoint_with(ro) ==> final(kg).disjoint_with(ro),
        region_box_stable(*old(kg), *ro, ro.dim as int) ==> *final(kg) == *old(kg),
        forall|x: int, y: int|
            #![trigger final(kg).has(x, y)]
            final(kg).has(x, y) ==> old(kg).has(x, y) || !reaches_escape(*old(kg), *ro, x, y),
        final(kg).count == old(kg).count ==> *final(kg) == *old(kg) && region_box_stable(
            *old(kg),
            *ro,
            ro.dim as int,
        ),
{
    let dim = ro.dim;
    let mut y: usize = 0;
    while y < dim
        invariant
            kg.wf(),
            ro.wf(),
            kg.dim == ro.dim,
            ro.dim == dim,
            old(kg).dim == dim,
            y <= dim,
            forall|x: int, y: int| old(kg).has(x, y) ==> kg.has(x, y),
            kg.count >= old(kg).count,
            old(kg).disjoint_with(ro) ==> kg.disjoint_with(ro),
            region_box_stable(*old(kg), *ro, dim as int) ==> *kg == *old(kg),
            forall|a: int, b: int|
                #![trigger kg.has(a, b)]
                kg.has(a, b) ==> old(kg).has(a, b) || !reaches_escape(*old(kg), *ro, a, b),
            kg.count == old(kg).count ==> *kg == *old(kg) && (forall|a: int, b: int|
                #![trigger old(kg).has(a, b)]
                #![trigger ro.has(a, b)]
                0 <= b < y && unassigned(*old(kg), *ro, dim as int, a, b) ==> reaches_escape(
                    *old(kg),
                    *ro,
                    a,
                    b,
                )),
        decreases dim - y,
    {
        let mut x: usize = 0;
        while x < dim
            invariant
                kg.wf(),
                ro.wf(),
                kg.dim == ro.dim,
                ro.dim == dim,
                old(kg).dim == dim,
                y < dim,
                x <= dim,
                forall|x: int, y: int| old(kg).has(x, y) ==> kg.has(x, y),
                kg.count >= old(kg).count,
                old(kg).disjoint_with(ro) ==> kg.disjoint_with(ro),
                region_box_stable(*old(kg), *ro, dim as int) ==> *kg == *old(kg),
                forall|a: int, b: int|
                    #![trigger kg.has(a, b)]
                    kg.has(a, b) ==> old(kg).has(a, b) || !reaches_escape(*old(kg), *ro, a, b),
                kg.count == old(kg).count ==> *kg == *old(kg) && (forall|a: int, b: int|
                    #![trigger old(kg).has(a, b)]
                    #![trigger ro.has(a, b)]
                    (0 <= b < y || (b == y && 0 <= a < x)) && unassigned(*old(kg), *ro,
                        dim as int, a, b) ==> reaches_escape(*old(kg), *ro, a, b)),
            decreases dim - x,
        {
            proof {
                if kg.count == old(kg).count {
                    assert(*kg == *old(kg));
                }
            }
            let ghost kg_it = *kg;
            if !kg.contains(x, y) && !ro.contains(x, y) {
                let grp = crate::reach::flood_from(kg, ro, false, true, true, Vec2 {
                    x: x as isize,
                    y: y as isize,
                });
                proof {
                    assert(crate::reach::passable(*kg, *ro, false, true, true, x as int,
                        y as int));
                    crate::reach::lemma_reaches_self(*kg, *ro, false, true, true, x as int,
                        y as int);
                    assert(grp.has(x as int, y as int));
                }
                let no_ro = !grp.intersects(ro);
                let border = grp.first_border_member();
                if no_ro && border.is_none() {
                    proof {
                        if region_box_stable(*old(kg), *ro, dim as int) && *kg == *old(kg) {
                            assert(unassigned(*kg, *ro, dim as int, x as int, y as int));
                            assert(reaches_escape(*kg, *ro, x as int, y as int));
                            let (bx, by) = choose|bx: int, by: int|
                                #![trigger reaches(*kg, *ro, false, true, true, x as int, y as int, bx, by)]
                                (ro.has(bx, by) || crate::geom::on_border(kg.dim as int, bx, by))
                                    && reaches(*kg, *ro, false, true, true, x as int, y as int,
                                bx, by);
                            assert(grp.has(bx, by));
                            assert(false);
                        }
                        assert(!region_box_stable(*old(kg), *ro, dim as int));
                        assert forall|a: int, b: int| #![trigger grp.has(a, b)] grp.has(a, b)
                            implies !reaches_escape(*old(kg), *ro, a, b) by {
                            if reaches_escape(*old(kg), *ro, a, b) {
                                let (bx, by) = choose|bx: int, by: int|
                                    #![trigger reaches(*old(kg), *ro, false, true, true, a, b, bx, by)]
                                    (ro.has(bx, by) || crate::geom::on_border(
                                        old(kg).dim as int, bx, by)) && reaches(*old(kg), *ro,
                                        false, true, true, a, b, bx, by);
                                let pw = choose|pw: Seq<(int, int)>|
                                    crate::reach::is_path(*old(kg), *ro, false, true, true, pw)
                                        && pw.first() == (a, b) && pw.last() == (bx, by);
                                assert forall|a2: int, b2: int, c2: int, d2: int|
                                    #![trigger grp.has(a2, b2), crate::reach::adjacent(a2, b2, c2, d2)]
                                    grp.has(a2, b2) && crate::reach::adjacent(a2, b2, c2, d2)
                                        && crate::reach::passable(kg_it, *ro, false, true, true,
                                    c2, d2) implies grp.has(c2, d2) by {
                                    crate::reach::lemma_reaches_step(kg_it, *ro, false, true,
                                        true, x as int, y as int, a2, b2, c2, d2);
                                }
                                assert forall|a2: int, b2: int|
                                    #![trigger grp.has(a2, b2)]
                                    grp.has(a2, b2) implies !crate::geom::on_border(
                                old(kg).dim as int, a2, b2) by {
                                    assert(!crate::geom::on_border(grp.dim as int, a2, b2));
                                    assert(grp.dim == old(kg).dim);
                                }
                                lemma_blocked_group_no_escape(*old(kg), kg_it, *ro, grp, pw);
                                assert(grp.has(bx, by));
                                assert(false);
                            }
                        }
                    }
                    let mut my: usize = 0;
                    while my < dim
                        invariant
                            kg.wf(),
                            ro.wf(),
                            kg.dim == ro.dim,
                            ro.dim == dim,
                            grp.wf(),
                            grp.dim == dim,
                            my <= dim,
                            grp.disjoint_with(ro),
                            x < dim && y < dim,
                            grp.has(x as int, y as int),
                            forall|x: int, y: int| old(kg).has(x, y) ==> kg.has(x, y),
                            kg.count >= old(kg).count,
                            kg.count >= kg_it.count,
                            old(kg).disjoint_with(ro) ==> kg.disjoint_with(ro),
                            !region_box_stable(*old(kg), *ro, dim as int),
                            forall|a: int, b: int|
                                #![trigger grp.has(a, b)]
                                grp.has(a, b) ==> !reaches_escape(*old(kg), *ro, a, b),
                            forall|a: int, b: int|
                                #![trigger kg.has(a, b)]
                                kg.has(a, b) ==> old(kg).has(a, b) || !reaches_escape(*old(kg),
                                    *ro, a, b),
                            forall|a: int, b: int|
                                #![trigger grp.has(a, b)]
                                0 <= b < my && grp.has(a, b) ==> kg.has(a, b),
                        decreases dim - my,
                    {
                        let mut mx: usize = 0;
                        while mx < dim
                            invariant
                                kg.wf(),
                                ro.wf(),
                                kg.dim == ro.dim,
                                ro.dim == dim,
                                grp.wf(),
                                grp.dim == dim,
                                my < dim,
                                mx <= dim,
                                grp.disjoint_with(ro),
                                x < dim && y < dim,
                                grp.has(x as int, y as int),
                                forall|x: int, y: int| old(kg).has(x, y) ==> kg.has(x, y),
                                kg.count >= old(kg).count,
                                kg.count >= kg_it.count,
                                old(kg).disjoint_with(ro) ==> kg.disjoint_with(ro),
                                !region_box_stable(*old(kg), *ro, dim as int),
                                forall|a: int, b: int|
                                    #![trigger grp.has(a, b)]
                                    grp.has(a, b) ==> !reaches_escape(*old(kg), *ro, a, b),
                                forall|a: int, b: int|
                                    #![trigger kg.has(a, b)]
                                    kg.has(a, b) ==> old(kg).has(a, b) || !reaches_escape(
                                        *old(kg), *ro, a, b),
                                forall|a: int, b: int|
                                    #![trigger grp.has(a, b)]
                                    0 <= b < my && grp.has(a, b) ==> kg.has(a, b),
                                forall|a: int|
                                    #![trigger grp.has(a, my as int)]
                                    0 <= a < mx && grp.has(a, my as int) ==> kg.has(a, my as int),
                            decreases dim - mx,
                        {
                            if grp.contains(mx, my) {
                                proof {
                                    assert(!ro.has(mx as int, my as int));
                                }
                                kg.insert(mx, my);
                            }
                            mx = mx + 1;
                        }
                        my = my + 1;
                    }
                    proof {
                        assert(kg.has(x as int, y as int));
                        if kg.count == old(kg).count {
                            assert(kg_it.count == old(kg).count);
                            assert(kg_it == *old(kg));
                            assert(!old(kg).has(x as int, y as int));
                            old(kg).lemma_subset_counts(&kg);
                            assert(false);
                        }
                    }
                } else {
                    proof {
                        if kg.count == old(kg).count {
                            assert(kg_it.count == old(kg).count);
                            assert(kg_it == *old(kg));
                            assert(*kg == kg_it);
                            if !no_ro {
                                assert(!grp.disjoint_with(ro));
                                let (bx, by) = choose|bx: int, by: int|
                                    grp.has(bx, by) && ro.has(bx, by);
                                assert(reaches(*old(kg), *ro, false, true, true, x as int,
                                    y as int, bx, by));
                                assert(reaches_escape(*old(kg), *ro, x as int, y as int));
                            } else {
                                let b = border.unwrap();
                                assert(grp.has(b.0 as int, b.1 as int));
                                assert(crate::geom::on_border(dim as int, b.0 as int,
                                    b.1 as int));
                                assert(reaches(*old(kg), *ro, false, true, true, x as int,
                                    y as int, b.0 as int, b.1 as int));
                                assert(reaches_escape(*old(kg), *ro, x as int, y as int));
                            }
                        }
                    }
                }
            }
            proof {
                if kg.count == old(kg).count {
                    assert forall|a: int, b: int|
                        #![trigger old(kg).has(a, b)]
                        #![trigger ro.has(a, b)]
                        (0 <= b < y || (b == y && 0 <= a < x + 1)) && unassigned(*old(kg), *ro,
                            dim as int, a, b) implies reaches_escape(*old(kg), *ro, a, b) by {
                        if a == x as int && b == y as int {
                            assert(kg_it.count == old(kg).count);
                            assert(kg_it == *old(kg));
                            assert(unassigned(kg_it, *ro, dim as int, a, b));
                        }
                    }
                }
            }
            x = x + 1;
        }
        y = y + 1;
    }
    proof {
        if kg.count == old(kg).count {
            assert forall|a: int, b: int|
                #![trigger old(kg).has(a, b)]
                #![trigger ro.has(a, b)]
                unassigned(*old(kg), *ro, dim as int, a, b) implies reaches_escape(*old(kg),
            *ro, a, b) by {
                assert(0 <= b < dim);
            }
        }
    }
}

impl BoxGrid {
    /// Infer assignments to box-cell and non-box-cell groups for as many
    /// unassigned cells on the board as possible: seed the clue cells, then
    /// repeatedly apply the arrow, number, opposing-arrows and region rules
    /// until no rule adds a cell or the consistency predicate fails. The
    /// engine does not signal failure: the caller must re-validate the state
    /// after every call. On return the clue cells are seeded, and a state
    /// that still passes the consistency predicate is at a fixpoint of all
    /// the rules; a state that already was at a fixpoint is left exactly as
    /// it was.
    pub fn inference(&mut self, known_good: &mut CellSet, ruled_out: &mut CellSet)
        requires
            old(self).wf(),
            old(known_good).wf(),
            old(ruled_out).wf(),
            old(known_good).dim == old(self).dim,
            old(ruled_out).dim == old(self).dim,
        ensures
            final(self).wf(),
            final(self).same_clues(old(self)),
            final(self).solved_geq(old(self)),
            final(known_good).wf(),
            final(ruled_out).wf(),
            final(known_good).dim == old(self).dim,
            final(ruled_out).dim == old(self).dim,
            forall|x: int, y: int| old(known_good).has(x, y) ==> final(known_good).has(x, y),
            forall|x: int, y: int| old(ruled_out).has(x, y) ==> final(ruled_out).has(x, y),
            old(known_good).disjoint_with(old(ruled_out)) ==> final(known_good).disjoint_with(
                final(ruled_out)),
            fixpoint_stable(*old(self), *old(known_good), *old(ruled_out)) ==> *final(known_good)
                == *old(known_good) && *final(ruled_out) == *old(ruled_out),
            seeded(*final(self), *final(known_good), *final(ruled_out)),
            seed_polarity(*final(self), *old(known_good), *old(ruled_out), *final(known_good),
                *final(ruled_out)),
            spec_valid(*final(self), *final(known_good), *final(ruled_out)) ==> fixpoint_stable(
                *final(self),
                *final(known_good),
                *final(ruled_out),
            ),
    {
        let ghost g0 = *self;
        let ghost kg0 = *known_good;
        let ghost ro0 = *ruled_out;
        self.seed(known_good, ruled_out);
        if !self.cell_assignment_validate(known_good, ruled_out) {
            proof {
                assert(!spec_valid(*self, *known_good, *ruled_out));
            }
            return;
        }
        proof {
            crate::cellset::lemma_count_true_le_len(known_good.cells@);
            crate::cellset::lemma_count_true_le_len(ruled_out.cells@);
            crate::cellset::lemma_dim_area(self.dim as int);
        }
        let mut progress = true;
        while progress
            invariant
                g0 == *old(self),
                kg0 == *old(known_good),
                ro0 == *old(ruled_out),
                1 <= g0.dim <= crate::geom::DIM_MAX,
                self.wf(),
                known_good.wf(),
                ruled_out.wf(),
                known_good.dim == self.dim,
                ruled_out.dim == self.dim,
                self.dim == g0.dim,
                self.same_clues(&g0),
                self.solved_geq(&g0),
                forall|x: int, y: int| kg0.has(x, y) ==> known_good.has(x, y),
                forall|x: int, y: int| ro0.has(x, y) ==> ruled_out.has(x, y),
                kg0.disjoint_with(&ro0) ==> known_good.disjoint_with(ruled_out),
                fixpoint_stable(g0, kg0, ro0) ==> *known_good == kg0 && *ruled_out == ro0,
                known_good.count <= g0.dim * g0.dim,
                ruled_out.count <= g0.dim * g0.dim,
                seeded(g0, *known_good, *ruled_out),
                seed_polarity(g0, kg0, ro0, *known_good, *ruled_out),
                !progress ==> fixpoint_stable(*self, *known_good, *ruled_out),
            decreases 2 * (g0.dim * g0.dim) - known_good.count - ruled_out.count, (if progress {
                1int
            } else {
                0int
            }),
        {
            proof {
                crate::cellset::lemma_dim_area(g0.dim as int);
            }
            let before = known_good.len() + ruled_out.len();
            let ghost kg_a = *known_good;
            let ghost ro_a = *ruled_out;
            let ghost g_pre1 = *self;
            proof {
                if fixpoint_stable(g0, kg0, ro0) {
                    lemma_stability_preserved_by_solving(g0, g_pre1, kg0, ro0);
                }
            }
            self.apply_arrow_rule(known_good, ruled_out);
            let ghost g_pre2 = *self;
            proof {
                if fixpoint_stable(g0, kg0, ro0) {
                    lemma_stability_preserved_by_solving(g0, g_pre2, kg0, ro0);
                }
            }
            self.apply_number_rule(known_good, ruled_out);
            let ghost g_pre3 = *self;
            proof {
                if fixpoint_stable(g0, kg0, ro0) {
                    lemma_stability_preserved_by_solving(g0, g_pre3, kg0, ro0);
                }
            }
            let ghost kg_b = *known_good;
            let ghost ro_b = *ruled_out;
            self.apply_opposing_rule(known_good, ruled_out);
            let ghost kg_c = *known_good;
            apply_region_nonbox(known_good, ruled_out);
            let ghost ro_c = *ruled_out;
            apply_region_box(known_good, ruled_out);
            proof {
                lemma_seeded_monotone(g0, kg_a, ro_a, *known_good, *ruled_out);
                lemma_seed_polarity_monotone(g0, g0, kg0, ro0, kg_a, ro_a, *known_good,
                    *ruled_out);
            }
            if !self.cell_assignment_validate(known_good, ruled_out) {
                proof {
                    assert(!spec_valid(*self, *known_good, *ruled_out));
                    lemma_stability_preserved_by_solving(g0, *self, *known_good, *ruled_out);
                    lemma_seed_polarity_monotone(g0, *self, kg0, ro0, kg_a, ro_a, *known_good,
                        *ruled_out);
                }
                return;
            }
            proof {
                crate::cellset::lemma_count_true_le_len(known_good.cells@);
                crate::cellset::lemma_count_true_le_len(ruled_out.cells@);
                crate::cellset::lemma_dim_area(self.dim as int);
            }
            let after = known_good.len() + ruled_out.len();
            proof {
                if after == before {
                    // Every rule pass left the sets untouched, so each rule
                    // is stable at the final state; clue flags only grew,
                    // which preserves stability.
                    assert(*known_good == kg_a && *ruled_out == ro_a);
                    assert(kg_b == kg_a && ro_b == ro_a && kg_c == kg_a && ro_c == ro_a);
                    assert(arrow_rule_stable(g_pre1, kg_a, ro_a));
                    assert(number_rule_stable(g_pre2, kg_a, ro_a));
                    assert(!opposing_firable(g_pre3, kg_a, ro_a));
                    assert(region_nonbox_stable(*known_good, ro_a, g0.dim as int));
                    assert(region_box_stable(kg_a, *ruled_out, g0.dim as int));
                    assert(g_pre3 == *self);
                    crate::search::lemma_same_clues_trans(g_pre1, g_pre2, g_pre3);
                    crate::grid::lemma_solved_geq_trans(g_pre1, g_pre2, g_pre3);
                    lemma_stability_preserved_by_solving(g_pre1, *self, kg_a, ro_a);
                    lemma_stability_preserved_by_solving(g_pre2, *self, kg_a, ro_a);
                    lemma_stability_preserved_by_solving(g0, *self, kg_a, ro_a);
                    assert(seeded(*self, *known_good, *ruled_out));
                    assert(fixpoint_stable(*self, *known_good, *ruled_out));
                }
            }
            progress = after > before;
        }
        proof {
            lemma_stability_preserved_by_solving(g0, *self, *known_good, *ruled_out);
            lemma_seed_polarity_monotone(g0, *self, kg0, ro0, *known_good, *ruled_out,
                *known_good, *ruled_out);
        }
    }
}

} // verus!
