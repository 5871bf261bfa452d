//! The grid model: clue positions and values over an N x N grid, and the
//! pure global-consistency predicate over a partition state.

use vstd::prelude::*;
use crate::geom::{Vec2, DIM_MAX, on_border};
use crate::cellset::{CellSet, lemma_count_true_le_len, lemma_dim_area};
use crate::clues::{BoxArrow, BoxNumber, in_grid, number_ok, feasible, some_feasible};
use crate::reach::{reaches, passable, flood_from, lemma_reaches_sym, lemma_reaches_trans};

verus! {

/// `(x, y)` can reach some border cell walking over known-non-box cells.
pub open spec fn reaches_border(kg: CellSet, ro: CellSet, x: int, y: int) -> bool {
    exists|bx: int, by: int|
        #![trigger reaches(kg, ro, false, true, false, x, y, bx, by)]
        on_border(kg.dim as int, bx, by) && reaches(kg, ro, false, true, false, x, y, bx, by)
}

/// Every grid cell is assigned to one of the two sets.
pub open spec fn complete(kg: CellSet, ro: CellSet, dim: int) -> bool {
    forall|x: int, y: int|
        #![trigger kg.has(x, y)]
        #![trigger ro.has(x, y)]
        in_grid(dim, x, y) ==> kg.has(x, y) || ro.has(x, y)
}

/// The arrow clues are in bounds, point somewhere, and sit on distinct
/// cells.
fn arrow_list_ok(dim: usize, arrows: &Vec<BoxArrow>) -> (r: bool)
    requires
        1 <= dim <= DIM_MAX,
    ensures
        r == ({
            &&& forall|i: int|
                #![trigger arrows@[i]]
                0 <= i < arrows@.len() ==> arrows@[i].wf(dim as int)
            &&& forall|i: int, j: int|
                0 <= i < j < arrows@.len() ==> !(arrows@[i].pos.x == arrows@[j].pos.x
                    && arrows@[i].pos.y == arrows@[j].pos.y)
        }),
{
    let mut i: usize = 0;
    while i < arrows.len()
        invariant
            1 <= dim <= DIM_MAX,
            i <= arrows@.len(),
            forall|k: int| #![trigger arrows@[k]] 0 <= k < i ==> arrows@[k].wf(dim as int),
            forall|k: int, j: int|
                0 <= k < j < i ==> !(arrows@[k].pos.x == arrows@[j].pos.x && arrows@[k].pos.y
                    == arrows@[j].pos.y),
        decreases arrows@.len() - i,
    {
        let a = arrows[i];
        if !(a.pos.in_bounds(dim) && 1 <= a.val && a.val <= 15) {
            proof {
                assert(!arrows@[i as int].wf(dim as int));
            }
            return false;
        }
        let mut j: usize = 0;
        while j < i
            invariant
                i < arrows@.len(),
                j <= i,
                forall|k: int|
                    0 <= k < j ==> !(arrows@[k].pos.x == arrows@[i as int].pos.x
                        && arrows@[k].pos.y == arrows@[i as int].pos.y),
            decreases i - j,
        {
            if arrows[j].pos.x == arrows[i].pos.x && arrows[j].pos.y == arrows[i].pos.y {
                return false;
            }
            j = j + 1;
        }
        i = i + 1;
    }
    true
}

/// The number clues are in bounds with values at most nine, and sit on
/// distinct cells.
fn number_list_ok(dim: usize, numbers: &Vec<BoxNumber>) -> (r: bool)
    requires
        1 <= dim <= DIM_MAX,
    ensures
        r == ({
            &&& forall|i: int|
                #![trigger numbers@[i]]
                0 <= i < numbers@.len() ==> numbers@[i].wf(dim as int)
            &&& forall|i: int, j: int|
                0 <= i < j < numbers@.len() ==> !(numbers@[i].pos.x == numbers@[j].pos.x
                    && numbers@[i].pos.y == numbers@[j].pos.y)
        }),
{
    let mut i: usize = 0;
    while i < numbers.len()
        invariant
            1 <= dim <= DIM_MAX,
            i <= numbers@.len(),
            forall|k: int| #![trigger numbers@[k]] 0 <= k < i ==> numbers@[k].wf(dim as int),
            forall|k: int, j: int|
                0 <= k < j < i ==> !(numbers@[k].pos.x == numbers@[j].pos.x && numbers@[k].pos.y
                    == numbers@[j].pos.y),
        decreases numbers@.len() - i,
    {
        let n = numbers[i];
        if !(n.pos.in_bounds(dim) && n.val <= 9) {
            proof {
                assert(!numbers@[i as int].wf(dim as int));
            }
            return false;
        }
        let mut j: usize = 0;
        while j < i
            invariant
                i < numbers@.len(),
                j <= i,
                forall|k: int|
                    0 <= k < j ==> !(numbers@[k].pos.x == numbers@[i as int].pos.x
                        && numbers@[k].pos.y == numbers@[i as int].pos.y),
            decreases i - j,
        {
            if numbers[j].pos.x == numbers[i].pos.x && numbers[j].pos.y == numbers[i].pos.y {
                return false;
            }
            j = j + 1;
        }
        i = i + 1;
    }
    true
}

/// Structure for storing grid clue information.
pub struct BoxGrid {
    /// Grid dimension N.
    pub dim: usize,
    /// The arrow clues, with distinct in-bounds positions.
    pub arrows: Vec<BoxArrow>,
    /// The number clues, with distinct in-bounds positions.
    pub numbers: Vec<BoxNumber>,
}

impl BoxGrid {
    /// Structural invariant of the clue lists.
    pub open spec fn wf(&self) -> bool {
        &&& 1 <= self.dim <= DIM_MAX
        &&& forall|i: int|
            #![trigger self.arrows@[i]]
            0 <= i < self.arrows@.len() ==> self.arrows@[i].wf(self.dim as int)
        &&& forall|i: int, j: int|
            0 <= i < j < self.arrows@.len() ==> !(self.arrows@[i].pos.x == self.arrows@[j].pos.x
                && self.arrows@[i].pos.y == self.arrows@[j].pos.y)
        &&& forall|i: int|
            #![trigger self.numbers@[i]]
            0 <= i < self.numbers@.len() ==> self.numbers@[i].wf(self.dim as int)
        &&& forall|i: int, j: int|
            0 <= i < j < self.numbers@.len() ==> !(self.numbers@[i].pos.x
                == self.numbers@[j].pos.x && self.numbers@[i].pos.y == self.numbers@[j].pos.y)
    }

    /// The two grids describe the same puzzle: equal clue data, with only the
    /// solved flags possibly differing.
    pub open spec fn same_clues(&self, other: &BoxGrid) -> bool {
        &&& self.dim == other.dim
        &&& self.arrows@.len() == other.arrows@.len()
        &&& forall|i: int|
            #![trigger self.arrows@[i]]
            0 <= i < self.arrows@.len() ==> self.arrows@[i].pos == other.arrows@[i].pos
                && self.arrows@[i].val == other.arrows@[i].val && self.arrows@[i].dist
                == other.arrows@[i].dist
        &&& self.numbers@.len() == other.numbers@.len()
        &&& forall|i: int|
            #![trigger self.numbers@[i]]
            0 <= i < self.numbers@.len() ==> self.numbers@[i].pos == other.numbers@[i].pos
                && self.numbers@[i].val == other.numbers@[i].val && self.numbers@[i].is_circle
                == other.numbers@[i].is_circle && self.numbers@[i].is_square
                == other.numbers@[i].is_square
    }

    /// Every clue solved in `other` is still solved in `self`.
    pub open spec fn solved_geq(&self, other: &BoxGrid) -> bool {
        &&& self.arrows@.len() == other.arrows@.len()
        &&& forall|i: int|
            #![trigger self.arrows@[i]]
            0 <= i < self.arrows@.len() ==> (other.arrows@[i].solved ==> self.arrows@[i].solved)
        &&& self.numbers@.len() == other.numbers@.len()
        &&& forall|i: int|
            #![trigger self.numbers@[i]]
            0 <= i < self.numbers@.len() ==> (other.numbers@[i].solved
                ==> self.numbers@[i].solved)
    }

    /// Build a grid model from externally supplied clue lists, validating
    /// the structural invariant: returns the model exactly when the
    /// dimension is in range, every clue is in bounds with a value its kind
    /// allows, and no two clues of a kind share a cell.
    pub fn new(dim: usize, arrows: Vec<BoxArrow>, numbers: Vec<BoxNumber>) -> (r: Option<BoxGrid>)
        ensures
            r matches Some(g) ==> g.wf() && g.dim == dim && g.arrows@ == arrows@ && g.numbers@
                == numbers@,
            r is Some <==> (BoxGrid { dim, arrows, numbers }).wf(),
    {
        if dim < 1 || dim > DIM_MAX {
            return None;
        }
        if !arrow_list_ok(dim, &arrows) {
            proof {
                let g = BoxGrid { dim, arrows, numbers };
                if !(forall|i: int|
                    #![trigger arrows@[i]]
                    0 <= i < arrows@.len() ==> arrows@[i].wf(dim as int)) {
                    let i = choose|i: int|
                        0 <= i < arrows@.len() && !arrows@[i].wf(dim as int);
                    assert(g.arrows@[i] == arrows@[i]);
                    assert(!g.wf());
                } else {
                    let (i, j) = choose|i: int, j: int|
                        0 <= i < j < arrows@.len() && arrows@[i].pos.x == arrows@[j].pos.x
                            && arrows@[i].pos.y == arrows@[j].pos.y;
                    assert(g.arrows@[i] == arrows@[i] && g.arrows@[j] == arrows@[j]);
                    assert(!g.wf());
                }
            }
            return None;
        }
        if !number_list_ok(dim, &numbers) {
            proof {
                let g = BoxGrid { dim, arrows, numbers };
                if !(forall|i: int|
                    #![trigger numbers@[i]]
                    0 <= i < numbers@.len() ==> numbers@[i].wf(dim as int)) {
                    let i = choose|i: int|
                        0 <= i < numbers@.len() && !numbers@[i].wf(dim as int);
                    assert(g.numbers@[i] == numbers@[i]);
                    assert(!g.wf());
                } else {
                    let (i, j) = choose|i: int, j: int|
                        0 <= i < j < numbers@.len() && numbers@[i].pos.x == numbers@[j].pos.x
                            && numbers@[i].pos.y == numbers@[j].pos.y;
                    assert(g.numbers@[i] == numbers@[i] && g.numbers@[j] == numbers@[j]);
                    assert(!g.wf());
                }
            }
            return None;
        }
        Some(BoxGrid { dim, arrows, numbers })
    }

    /// Flood fill to find all cells of the specified kinds orthogonally
    /// connected to `coord`.
    pub fn flood_fill(
        &self,
        coord: Vec2,
        known_good: &CellSet,
        ruled_out: &CellSet,
        include_known_good: bool,
        include_ruled_out: bool,
        include_unassigned: bool,
    ) -> (r: CellSet)
        requires
            self.wf(),
            known_good.wf(),
            ruled_out.wf(),
            known_good.dim == self.dim,
            ruled_out.dim == self.dim,
            coord.spec_in_bounds(self.dim),
        ensures
            r.wf(),
            r.dim == self.dim,
            forall|x: int, y: int|
                #![trigger r.has(x, y)]
                r.has(x, y) <==> reaches(
                    *known_good,
                    *ruled_out,
                    include_known_good,
                    include_ruled_out,
                    include_unassigned,
                    coord.x as int,
                    coord.y as int,
                    x,
                    y,
                ),
    {
        flood_from(known_good, ruled_out, include_known_good, include_ruled_out,
            include_unassigned, coord)
    }
}

/// The global consistency predicate over a partition state: the sets are
/// disjoint; no number clue is contradicted; every arrow clue keeps at least
/// one feasible distance; the known-box cells form at most one component
/// when unknown cells may serve as connectors; and on a complete partition
/// the box set is non-empty of even size and strictly connected while every
/// known-non-box component touches the grid border.
pub open spec fn spec_valid(g: BoxGrid, kg: CellSet, ro: CellSet) -> bool {
    let dim = g.dim as int;
    &&& kg.disjoint_with(&ro)
    &&& forall|i: int|
        #![trigger g.numbers@[i]]
        0 <= i < g.numbers@.len() ==> number_ok(g.numbers@[i], dim, kg, ro)
    &&& forall|i: int|
        #![trigger g.arrows@[i]]
        0 <= i < g.arrows@.len() ==> some_feasible(g.arrows@[i], dim, kg, ro)
    &&& forall|x1: int, y1: int, x2: int, y2: int|
        #![trigger kg.has(x1, y1), kg.has(x2, y2)]
        kg.has(x1, y1) && kg.has(x2, y2) ==> reaches(kg, ro, true, false, true, x1, y1, x2, y2)
    &&& (complete(kg, ro, dim) ==> {
        &&& kg.count > 0
        &&& kg.count % 2 == 0
        &&& forall|x1: int, y1: int, x2: int, y2: int|
            #![trigger kg.has(x1, y1), kg.has(x2, y2)]
            kg.has(x1, y1) && kg.has(x2, y2) ==> reaches(kg, ro, true, false, false, x1, y1, x2, y2)
        &&& forall|x: int, y: int|
            #![trigger ro.has(x, y)]
            ro.has(x, y) ==> reaches_border(kg, ro, x, y)
    })
}

/// Solved flags accumulate transitively.
pub proof fn lemma_solved_geq_trans(g1: BoxGrid, g2: BoxGrid, g3: BoxGrid)
    requires
        g2.solved_geq(&g1),
        g3.solved_geq(&g2),
    ensures
        g3.solved_geq(&g1),
{
    assert forall|i: int|
        #![trigger g3.arrows@[i]]
        0 <= i < g3.arrows@.len() implies (g1.arrows@[i].solved ==> g3.arrows@[i].solved) by {
        assert(g1.arrows@[i].solved ==> g2.arrows@[i].solved);
    }
    assert forall|i: int|
        #![trigger g3.numbers@[i]]
        0 <= i < g3.numbers@.len() implies (g1.numbers@[i].solved ==> g3.numbers@[i].solved) by {
        assert(g1.numbers@[i].solved ==> g2.numbers@[i].solved);
    }
}

/// At any state satisfying the consistency predicate, the known-box count
/// within a number clue's neighborhood never exceeds the clue's value.
pub proof fn lemma_valid_number_bound(g: BoxGrid, kg: CellSet, ro: CellSet, i: int)
    requires
        spec_valid(g, kg, ro),
        0 <= i < g.numbers@.len(),
    ensures
        crate::clues::nbhd_box(g.numbers@[i], kg) <= g.numbers@[i].val,
{
    assert(number_ok(g.numbers@[i], g.dim as int, kg, ro));
}

/// A complete disjoint partition is determined by its known-box set: two
/// such partitions over the same grid dimension with equal box sets assign
/// every cell identically, so distinct full partitions differ in their
/// known-box sets.
pub proof fn lemma_complete_partition_determined(
    kg1: CellSet,
    ro1: CellSet,
    kg2: CellSet,
    ro2: CellSet,
    dim: int,
)
    requires
        kg1.dim == dim && ro1.dim == dim && kg2.dim == dim && ro2.dim == dim,
        kg1.disjoint_with(&ro1),
        kg2.disjoint_with(&ro2),
        complete(kg1, ro1, dim),
        complete(kg2, ro2, dim),
        forall|x: int, y: int| kg1.has(x, y) == kg2.has(x, y),
    ensures
        forall|x: int, y: int| ro1.has(x, y) == ro2.has(x, y),
{
    assert forall|x: int, y: int| ro1.has(x, y) == ro2.has(x, y) by {
        if ro1.has(x, y) {
            assert(in_grid(dim, x, y));
            assert(!kg1.has(x, y));
            assert(!kg2.has(x, y));
            assert(kg2.has(x, y) || ro2.has(x, y));
        }
        if ro2.has(x, y) {
            assert(in_grid(dim, x, y));
            assert(!kg2.has(x, y));
            assert(!kg1.has(x, y));
            assert(kg1.has(x, y) || ro1.has(x, y));
        }
    }
}

/// Runtime check that the two assignment sets are disjoint.
fn sets_disjoint_check(kg: &CellSet, ro: &CellSet) -> (r: bool)
    requires
        kg.wf(),
        ro.wf(),
        kg.dim == ro.dim,
    ensures
        r == kg.disjoint_with(ro),
{
    let dim = kg.dim;
    let mut y: usize = 0;
    while y < dim
        invariant
            kg.wf(),
            ro.wf(),
            kg.dim == ro.dim,
            kg.dim == dim,
            y <= dim,
            forall|a: int, b: int| 0 <= b < y ==> !(kg.has(a, b) && ro.has(a, b)),
        decreases dim - y,
    {
        let mut x: usize = 0;
        while x < dim
            invariant
                kg.wf(),
                ro.wf(),
                kg.dim == ro.dim,
                kg.dim == dim,
                y < dim,
                x <= dim,
                forall|a: int, b: int| 0 <= b < y ==> !(kg.has(a, b) && ro.has(a, b)),
                forall|a: int| 0 <= a < x ==> !(kg.has(a, y as int) && ro.has(a, y as int)),
            decreases dim - x,
        {
            if kg.contains(x, y) && ro.contains(x, y) {
                return false;
            }
            x = x + 1;
        }
        y = y + 1;
    }
    proof {
        assert forall|a: int, b: int| !(kg.has(a, b) && ro.has(a, b)) by {
            if 0 <= b < dim {
            }
        }
    }
    true
}

impl BoxGrid {
    /// Runtime check of every number clue.
    fn numbers_ok(&self, kg: &CellSet, ro: &CellSet) -> (r: bool)
        requires
            self.wf(),
            kg.wf(),
            ro.wf(),
            kg.dim == self.dim,
            ro.dim == self.dim,
        ensures
            r == (forall|i: int|
                #![trigger self.numbers@[i]]
                0 <= i < self.numbers@.len() ==> number_ok(self.numbers@[i], self.dim as int, *kg,
                *ro)),
    {
        let mut i: usize = 0;
        while i < self.numbers.len()
            invariant
                self.wf(),
                kg.wf(),
                ro.wf(),
                kg.dim == self.dim,
                ro.dim == self.dim,
                i <= self.numbers@.len(),
                forall|k: int|
                    #![trigger self.numbers@[k]]
                    0 <= k < i ==> number_ok(self.numbers@[k], self.dim as int, *kg, *ro),
            decreases self.numbers@.len() - i,
        {
            let n = self.numbers[i];
            if !n.cell_assignment_validate(self.dim, kg, ro) {
                return false;
            }
            i = i + 1;
        }
        true
    }

    /// Runtime check that every arrow clue keeps a feasible distance.
    fn arrows_ok(&self, kg: &CellSet, ro: &CellSet) -> (r: bool)
        requires
            self.wf(),
            kg.wf(),
            ro.wf(),
            kg.dim == self.dim,
            ro.dim == self.dim,
        ensures
            r == (forall|i: int|
                #![trigger self.arrows@[i]]
                0 <= i < self.arrows@.len() ==> some_feasible(self.arrows@[i], self.dim as int,
                *kg, *ro)),
    {
        let mut i: usize = 0;
        while i < self.arrows.len()
            invariant
                self.wf(),
                kg.wf(),
                ro.wf(),
                kg.dim == self.dim,
                ro.dim == self.dim,
                i <= self.arrows@.len(),
                forall|k: int|
                    #![trigger self.arrows@[k]]
                    0 <= k < i ==> some_feasible(self.arrows@[k], self.dim as int, *kg, *ro),
            decreases self.arrows@.len() - i,
        {
            let a = self.arrows[i];
            let dists = a.possible_distances(self.dim, kg, ro);
            if dists.len() == 0 {
                proof {
                    if some_feasible(a, self.dim as int, *kg, *ro) {
                        let d = choose|d: int| feasible(a, self.dim as int, *kg, *ro, d);
                        let k = choose|k: int| 0 <= k < dists@.len() && dists@[k] == d;
                        assert(false);
                    }
                    assert(!some_feasible(self.arrows@[i as int], self.dim as int, *kg, *ro));
                }
                return false;
            }
            proof {
                assert(some_feasible(self.arrows@[i as int], self.dim as int, *kg, *ro)) by {
                    assert(feasible(self.arrows@[i as int], self.dim as int, *kg, *ro,
                        dists@[0] as int));
                }
            }
            i = i + 1;
        }
        true
    }
}

/// Runtime check that all cells of `kg` lie in one component of the cells
/// passable under the given flags (box cells always included).
fn all_in_component(kg: &CellSet, ro: &CellSet, iun: bool) -> (r: bool)
    requires
        kg.wf(),
        ro.wf(),
        kg.dim == ro.dim,
    ensures
        r == (forall|x1: int, y1: int, x2: int, y2: int|
            #![trigger kg.has(x1, y1), kg.has(x2, y2)]
            kg.has(x1, y1) && kg.has(x2, y2) ==> reaches(*kg, *ro, true, false, iun, x1, y1, x2,
            y2)),
{
    let dim = kg.dim;
    let first = kg.first_member();
    let (fx, fy) = match first {
        Some(c) => c,
        None => {
            return true;
        },
    };
    let grp = flood_from(kg, ro, true, false, iun, Vec2 { x: fx as isize, y: fy as isize });
    let mut y: usize = 0;
    while y < dim
        invariant
            kg.wf(),
            ro.wf(),
            kg.dim == ro.dim,
            kg.dim == dim,
            grp.wf(),
            grp.dim == dim,
            fx < dim && fy < dim,
            kg.has(fx as int, fy as int),
            forall|x: int, y: int|
                #![trigger grp.has(x, y)]
                grp.has(x, y) <==> reaches(*kg, *ro, true, false, iun, fx as int, fy as int, x, y),
            y <= dim,
            forall|a: int, b: int| 0 <= b < y && kg.has(a, b) ==> grp.has(a, b),
        decreases dim - y,
    {
        let mut x: usize = 0;
        while x < dim
            invariant
                kg.wf(),
                ro.wf(),
                kg.dim == ro.dim,
                kg.dim == dim,
                grp.wf(),
                grp.dim == dim,
                fx < dim && fy < dim,
                kg.has(fx as int, fy as int),
                forall|x: int, y: int|
                    #![trigger grp.has(x, y)]
                    grp.has(x, y) <==> reaches(*kg, *ro, true, false, iun, fx as int, fy as int, x,
                    y),
                y < dim,
                x <= dim,
                forall|a: int, b: int| 0 <= b < y && kg.has(a, b) ==> grp.has(a, b),
                forall|a: int| 0 <= a < x && kg.has(a, y as int) ==> grp.has(a, y as int),
            decreases dim - x,
        {
            if kg.contains(x, y) && !grp.contains(x, y) {
                proof {
                    assert(!reaches(*kg, *ro, true, false, iun, fx as int, fy as int, x as int,
                        y as int));
                }
                return false;
            }
            x = x + 1;
        }
        y = y + 1;
    }
    proof {
        assert forall|x1: int, y1: int, x2: int, y2: int|
            #![trigger kg.has(x1, y1), kg.has(x2, y2)]
            kg.has(x1, y1) && kg.has(x2, y2) implies reaches(*kg, *ro, true, false, iun, x1, y1,
        x2, y2) by {
            assert(grp.has(x1, y1) && grp.has(x2, y2));
            lemma_reaches_sym(*kg, *ro, true, false, iun, fx as int, fy as int, x1, y1);
            lemma_reaches_trans(*kg, *ro, true, false, iun, x1, y1, fx as int, fy as int, x2, y2);
        }
    }
    true
}

/// Runtime check that every known-non-box cell can reach a border cell
/// through known-non-box cells alone.
#[verifier::rlimit(60)]
fn nonbox_border_ok(kg: &CellSet, ro: &CellSet) -> (r: bool)
    requires
        kg.wf(),
        ro.wf(),
        kg.dim == ro.dim,
        kg.disjoint_with(ro),
    ensures
        r == (forall|x: int, y: int|
            #![trigger ro.has(x, y)]
            ro.has(x, y) ==> reaches_border(*kg, *ro, x, y)),
{
    let dim = kg.dim;
    let mut checked = CellSet::new(dim);
    let mut y: usize = 0;
    while y < dim
        invariant
            kg.wf(),
            ro.wf(),
            kg.dim == ro.dim,
            kg.dim == dim,
            kg.disjoint_with(ro),
            checked.wf(),
            checked.dim == dim,
            y <= dim,
            forall|a: int, b: int|
                #![trigger checked.has(a, b)]
                checked.has(a, b) ==> ro.has(a, b) && reaches_border(*kg, *ro, a, b),
            forall|a: int, b: int| 0 <= b < y && ro.has(a, b) ==> checked.has(a, b),
        decreases dim - y,
    {
        let mut x: usize = 0;
        while x < dim
            invariant
                kg.wf(),
                ro.wf(),
                kg.dim == ro.dim,
                kg.dim == dim,
                kg.disjoint_with(ro),
                checked.wf(),
                checked.dim == dim,
                y < dim,
                x <= dim,
                forall|a: int, b: int|
                    #![trigger checked.has(a, b)]
                    checked.has(a, b) ==> ro.has(a, b) && reaches_border(*kg, *ro, a, b),
                forall|a: int, b: int| 0 <= b < y && ro.has(a, b) ==> checked.has(a, b),
                forall|a: int| 0 <= a < x && ro.has(a, y as int) ==> checked.has(a, y as int),
            decreases dim - x,
        {
            if ro.contains(x, y) && !checked.contains(x, y) {
                let grp = flood_from(kg, ro, false, true, false, Vec2 { x: x as isize, y: y as isize });
                let border = grp.first_border_member();
                let (bx, by) = match border {
                    Some(c) => c,
                    None => {
                        proof {
                            assert(passable(*kg, *ro, false, true, false, x as int, y as int));
                            if reaches_border(*kg, *ro, x as int, y as int) {
                                let (bx, by) = choose|bx: int, by: int|
                                    #![trigger reaches(*kg, *ro, false, true, false, x as int, y as int, bx, by)]
                                    on_border(dim as int, bx, by) && reaches(*kg, *ro, false,
                                    true, false, x as int, y as int, bx, by);
                                assert(grp.has(bx, by));
                                assert(false);
                            }
                            assert(!reaches_border(*kg, *ro, x as int, y as int));
                        }
                        return false;
                    },
                };
                // Mark every member of the group as checked: each reaches the
                // border cell through the group's start.
                let mut my: usize = 0;
                while my < dim
                    invariant
                        kg.wf(),
                        ro.wf(),
                        kg.dim == ro.dim,
                        kg.dim == dim,
                        kg.disjoint_with(ro),
                        checked.wf(),
                        checked.dim == dim,
                        grp.wf(),
                        grp.dim == dim,
                        x < dim && y < dim,
                        ro.has(x as int, y as int),
                        my <= dim,
                        bx < dim && by < dim,
                        grp.has(bx as int, by as int),
                        on_border(dim as int, bx as int, by as int),
                        forall|a: int, b: int|
                            #![trigger grp.has(a, b)]
                            grp.has(a, b) <==> reaches(*kg, *ro, false, true, false, x as int,
                            y as int, a, b),
                        forall|a: int, b: int|
                            #![trigger checked.has(a, b)]
                            checked.has(a, b) ==> ro.has(a, b) && reaches_border(*kg, *ro, a, b),
                        forall|a: int, b: int| 0 <= b < y && ro.has(a, b) ==> checked.has(a, b),
                        forall|a: int| 0 <= a < x && ro.has(a, y as int) ==> checked.has(a, y as int),
                        forall|a: int, b: int| 0 <= b < my && grp.has(a, b) ==> checked.has(a, b),
                    decreases dim - my,
                {
                    let mut mx: usize = 0;
                    while mx < dim
                        invariant
                            kg.wf(),
                            ro.wf(),
                            kg.dim == ro.dim,
                            kg.dim == dim,
                            kg.disjoint_with(ro),
                            checked.wf(),
                            checked.dim == dim,
                            grp.wf(),
                            grp.dim == dim,
                            x < dim && y < dim,
                            ro.has(x as int, y as int),
                            my < dim,
                            mx <= dim,
                            bx < dim && by < dim,
                            grp.has(bx as int, by as int),
                            on_border(dim as int, bx as int, by as int),
                            forall|a: int, b: int|
                                #![trigger grp.has(a, b)]
                                grp.has(a, b) <==> reaches(*kg, *ro, false, true, false, x as int,
                                y as int, a, b),
                            forall|a: int, b: int|
                                #![trigger checked.has(a, b)]
                                checked.has(a, b) ==> ro.has(a, b) && reaches_border(*kg, *ro, a, b),
                            forall|a: int, b: int| 0 <= b < y && ro.has(a, b) ==> checked.has(a, b),
                            forall|a: int| 0 <= a < x && ro.has(a, y as int) ==> checked.has(a, y as int),
                            forall|a: int, b: int| 0 <= b < my && grp.has(a, b) ==> checked.has(a, b),
                            forall|a: int| 0 <= a < mx && grp.has(a, my as int) ==> checked.has(a, my as int),
                        decreases dim - mx,
                    {
                        if grp.contains(mx, my) {
                            proof {
                                lemma_reaches_sym(*kg, *ro, false, true, false, x as int, y as int,
                                    mx as int, my as int);
                                lemma_reaches_trans(*kg, *ro, false, true, false, mx as int,
                                    my as int, x as int, y as int, bx as int, by as int);
                                assert(passable(*kg, *ro, false, true, false, mx as int, my as int));
                                assert(reaches_border(*kg, *ro, mx as int, my as int)) by {
                                    assert(on_border(kg.dim as int, bx as int, by as int)
                                        && reaches(*kg, *ro, false, true, false, mx as int,
                                        my as int, bx as int, by as int));
                                }
                            }
                            checked.insert(mx, my);
                        }
                        mx = mx + 1;
                    }
                    my = my + 1;
                }
                proof {
                    assert(grp.has(x as int, y as int)) by {
                        assert(passable(*kg, *ro, false, true, false, x as int, y as int));
                        crate::reach::lemma_reaches_self(*kg, *ro, false, true, false, x as int,
                            y as int);
                    }
                    assert(checked.has(x as int, y as int));
                }
            }
            x = x + 1;
        }
        y = y + 1;
    }
    proof {
        assert forall|x: int, y: int| #![trigger ro.has(x, y)] ro.has(x, y)
            implies reaches_border(*kg, *ro, x, y) by {
            assert(checked.has(x, y));
        }
    }
    true
}

impl BoxGrid {
    /// Returns true if the current assignments of cells on the grid don't
    /// violate the constraints for any number or arrow cells on the grid.
    /// If all cells have been assigned, verify that the box cell group is
    /// fully connected, that all non-box cell groups are connected to the
    /// grid border, and that the number of box cells is even since an odd
    /// number of cells could not form the faces of a rectangular solid.
    pub fn cell_assignment_validate(&self, known_good: &CellSet, ruled_out: &CellSet) -> (r: bool)
        requires
            self.wf(),
            known_good.wf(),
            ruled_out.wf(),
            known_good.dim == self.dim,
            ruled_out.dim == self.dim,
        ensures
            r == spec_valid(*self, *known_good, *ruled_out),
    {
        if !sets_disjoint_check(known_good, ruled_out) {
            return false;
        }
        if !self.numbers_ok(known_good, ruled_out) {
            return false;
        }
        if !self.arrows_ok(known_good, ruled_out) {
            return false;
        }
        if !all_in_component(known_good, ruled_out, true) {
            return false;
        }
        proof {
            lemma_count_true_le_len(known_good.cells@);
            lemma_count_true_le_len(ruled_out.cells@);
            lemma_dim_area(self.dim as int);
            known_good.lemma_partition_counts(ruled_out);
        }
        let area: usize = self.dim * self.dim;
        if known_good.len() + ruled_out.len() == area {
            if known_good.len() == 0 {
                return false;
            }
            if known_good.len() % 2 != 0 {
                return false;
            }
            if !all_in_component(known_good, ruled_out, false) {
                return false;
            }
            if !nonbox_border_ok(known_good, ruled_out) {
                return false;
            }
        } else {
            proof {
                assert(!complete(*known_good, *ruled_out, self.dim as int));
            }
        }
        true
    }
}

} // verus!
