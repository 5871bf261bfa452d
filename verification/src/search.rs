//! The backtracking search: enumerate assignments for the remaining
//! unsolved clues and unconstrained cells, running the propagation engine
//! after every branch decision, and return every globally consistent full
//! partition.

use vstd::prelude::*;
use vstd::arithmetic::div_mod::lemma_div_denominator;
use crate::geom::Vec2;
use crate::cellset::CellSet;
use crate::clues::{BoxArrow, BoxNumber, in_grid, feasible, some_feasible};
use crate::grid::{BoxGrid, spec_valid, complete};
use crate::engine::{seeded, seed_polarity, arrow_seed_ok, arrow_seed_polarity,
    lemma_seed_polarity_monotone};

verus! {

/// Partitions that extend a seeded pair cell-for-cell keep the seeding
/// polarity relative to that pair.
proof fn lemma_results_polarity(
    g: BoxGrid,
    kg: CellSet,
    ro: CellSet,
    results: Seq<(CellSet, CellSet)>,
)
    requires
        seeded(g, kg, ro),
        forall|t: int, x: int, y: int|
            #![trigger results[t].0.has(x, y)]
            0 <= t < results.len() && kg.has(x, y) ==> results[t].0.has(x, y),
        forall|t: int, x: int, y: int|
            #![trigger results[t].1.has(x, y)]
            0 <= t < results.len() && ro.has(x, y) ==> results[t].1.has(x, y),
    ensures
        forall|t: int|
            #![trigger results[t]]
            0 <= t < results.len() ==> seed_polarity(g, kg, ro, results[t].0, results[t].1),
{
    assert forall|i: int|
        #![trigger g.arrows@[i]]
        0 <= i < g.arrows@.len() implies arrow_seed_polarity(g, g.arrows@[i], g.dim as int, kg,
    ro) by {
        assert(arrow_seed_ok(g.arrows@[i], g.dim as int, kg, ro));
    }
    assert(seed_polarity(g, kg, ro, kg, ro));
    assert(g.same_clues(&g));
    assert forall|t: int|
        #![trigger results[t]]
        0 <= t < results.len() implies seed_polarity(g, kg, ro, results[t].0,
    results[t].1) by {
        lemma_seed_polarity_monotone(g, g, kg, ro, kg, ro, results[t].0, results[t].1);
    }
}

/// Number of unsolved arrows in the list.
pub open spec fn count_unsolved_arrows(s: Seq<BoxArrow>) -> nat
    decreases s.len(),
{
    if s.len() == 0 {
        0
    } else {
        count_unsolved_arrows(s.drop_last()) + (if s.last().solved {
            0nat
        } else {
            1nat
        })
    }
}

/// Number of unsolved number clues in the list.
pub open spec fn count_unsolved_numbers(s: Seq<BoxNumber>) -> nat
    decreases s.len(),
{
    if s.len() == 0 {
        0
    } else {
        count_unsolved_numbers(s.drop_last()) + (if s.last().solved {
            0nat
        } else {
            1nat
        })
    }
}

/// Number of unsolved clues of either kind on the grid.
pub open spec fn unsolved_clues(g: BoxGrid) -> nat {
    count_unsolved_arrows(g.arrows@) + count_unsolved_numbers(g.numbers@)
}

/// Marking clues solved never increases the unsolved-arrow count, and
/// marking a fresh one strictly decreases it.
pub proof fn lemma_count_unsolved_arrows_mono(s1: Seq<BoxArrow>, s2: Seq<BoxArrow>)
    requires
        s1.len() == s2.len(),
        forall|i: int| 0 <= i < s1.len() ==> (s1[i].solved ==> s2[i].solved),
    ensures
        count_unsolved_arrows(s2) <= count_unsolved_arrows(s1),
        (exists|i: int| 0 <= i < s1.len() && !s1[i].solved && s2[i].solved)
            ==> count_unsolved_arrows(s2) < count_unsolved_arrows(s1),
    decreases s1.len(),
{
    if s1.len() > 0 {
        assert(forall|i: int|
            0 <= i < s1.len() - 1 ==> s1.drop_last()[i] == s1[i] && s2.drop_last()[i] == s2[i]);
        lemma_count_unsolved_arrows_mono(s1.drop_last(), s2.drop_last());
        if exists|i: int| 0 <= i < s1.len() && !s1[i].solved && s2[i].solved {
            let i = choose|i: int| 0 <= i < s1.len() && !s1[i].solved && s2[i].solved;
            if i < s1.len() - 1 {
                assert(!s1.drop_last()[i].solved && s2.drop_last()[i].solved);
            }
        }
    }
}

/// Marking clues solved never increases the unsolved-number count, and
/// marking a fresh one strictly decreases it.
pub proof fn lemma_count_unsolved_numbers_mono(s1: Seq<BoxNumber>, s2: Seq<BoxNumber>)
    requires
        s1.len() == s2.len(),
        forall|i: int| 0 <= i < s1.len() ==> (s1[i].solved ==> s2[i].solved),
    ensures
        count_unsolved_numbers(s2) <= count_unsolved_numbers(s1),
        (exists|i: int| 0 <= i < s1.len() && !s1[i].solved && s2[i].solved)
            ==> count_unsolved_numbers(s2) < count_unsolved_numbers(s1),
    decreases s1.len(),
{
    if s1.len() > 0 {
        assert(forall|i: int|
            0 <= i < s1.len() - 1 ==> s1.drop_last()[i] == s1[i] && s2.drop_last()[i] == s2[i]);
        lemma_count_unsolved_numbers_mono(s1.drop_last(), s2.drop_last());
        if exists|i: int| 0 <= i < s1.len() && !s1[i].solved && s2[i].solved {
            let i = choose|i: int| 0 <= i < s1.len() && !s1[i].solved && s2[i].solved;
            if i < s1.len() - 1 {
                assert(!s1.drop_last()[i].solved && s2.drop_last()[i].solved);
            }
        }
    }
}

/// A list of all-solved arrows has no unsolved ones.
pub proof fn lemma_count_unsolved_arrows_zero(s: Seq<BoxArrow>)
    requires
        forall|i: int| #![trigger s[i]] 0 <= i < s.len() ==> s[i].solved,
    ensures
        count_unsolved_arrows(s) == 0,
    decreases s.len(),
{
    if s.len() > 0 {
        assert(forall|i: int| 0 <= i < s.len() - 1 ==> s.drop_last()[i] == s[i]);
        lemma_count_unsolved_arrows_zero(s.drop_last());
        assert(s.last().solved);
    }
}

/// A list of all-solved number clues has no unsolved ones.
pub proof fn lemma_count_unsolved_numbers_zero(s: Seq<BoxNumber>)
    requires
        forall|i: int| #![trigger s[i]] 0 <= i < s.len() ==> s[i].solved,
    ensures
        count_unsolved_numbers(s) == 0,
    decreases s.len(),
{
    if s.len() > 0 {
        assert(forall|i: int| 0 <= i < s.len() - 1 ==> s.drop_last()[i] == s[i]);
        lemma_count_unsolved_numbers_zero(s.drop_last());
        assert(s.last().solved);
    }
}

/// Sameness of clue data is transitive.
pub proof fn lemma_same_clues_trans(g1: BoxGrid, g2: BoxGrid, g3: BoxGrid)
    requires
        g2.same_clues(&g1),
        g3.same_clues(&g2),
    ensures
        g3.same_clues(&g1),
{
    assert forall|i: int|
        #![trigger g3.arrows@[i]]
        0 <= i < g3.arrows@.len() implies g3.arrows@[i].pos == g1.arrows@[i].pos
        && g3.arrows@[i].val == g1.arrows@[i].val && g3.arrows@[i].dist == g1.arrows@[i].dist by {
        assert(g2.arrows@[i].pos == g1.arrows@[i].pos && g2.arrows@[i].val == g1.arrows@[i].val
            && g2.arrows@[i].dist == g1.arrows@[i].dist);
    }
    assert forall|i: int|
        #![trigger g3.numbers@[i]]
        0 <= i < g3.numbers@.len() implies g3.numbers@[i].pos == g1.numbers@[i].pos
        && g3.numbers@[i].val == g1.numbers@[i].val && g3.numbers@[i].is_circle
        == g1.numbers@[i].is_circle && g3.numbers@[i].is_square == g1.numbers@[i].is_square by {
        assert(g2.numbers@[i].pos == g1.numbers@[i].pos && g2.numbers@[i].val
            == g1.numbers@[i].val && g2.numbers@[i].is_circle == g1.numbers@[i].is_circle
            && g2.numbers@[i].is_square == g1.numbers@[i].is_square);
    }
}

/// The consistency predicate only reads clue data, never the solved flags:
/// two grids describing the same puzzle validate the same states.
#[verifier::rlimit(60)]
pub proof fn lemma_spec_valid_same_clues(g1: BoxGrid, g2: BoxGrid, kg: CellSet, ro: CellSet)
    requires
        g2.same_clues(&g1),
    ensures
        spec_valid(g1, kg, ro) == spec_valid(g2, kg, ro),
{
    let dim = g1.dim as int;
    assert(g2.dim as int == dim);
    assert forall|i: int|
        #![trigger g2.numbers@[i]]
        0 <= i < g2.numbers@.len() implies crate::clues::number_ok(g2.numbers@[i], dim, kg, ro)
        == crate::clues::number_ok(g1.numbers@[i], dim, kg, ro) by {
        assert(g2.numbers@[i].pos == g1.numbers@[i].pos && g2.numbers@[i].val
            == g1.numbers@[i].val);
        assert(g2.numbers@[i].pos.x as int == g1.numbers@[i].pos.x as int);
        assert(g2.numbers@[i].pos.y as int == g1.numbers@[i].pos.y as int);
    }
    assert forall|i: int|
        #![trigger g2.arrows@[i]]
        0 <= i < g2.arrows@.len() implies some_feasible(g2.arrows@[i], dim, kg, ro)
        == some_feasible(g1.arrows@[i], dim, kg, ro) by {
        crate::engine::lemma_arrow_semantics_same_clue(g1.arrows@[i], g2.arrows@[i], dim, kg, ro);
        if some_feasible(g1.arrows@[i], dim, kg, ro) {
            let d = choose|d: int| feasible(g1.arrows@[i], dim, kg, ro, d);
            assert(feasible(g2.arrows@[i], dim, kg, ro, d));
        }
        if some_feasible(g2.arrows@[i], dim, kg, ro) {
            let d = choose|d: int| feasible(g2.arrows@[i], dim, kg, ro, d);
            assert(feasible(g1.arrows@[i], dim, kg, ro, d));
        }
    }
    assert forall|i: int|
        #![trigger g1.numbers@[i]]
        0 <= i < g1.numbers@.len() implies crate::clues::number_ok(g1.numbers@[i], dim, kg, ro)
        == crate::clues::number_ok(g2.numbers@[i], dim, kg, ro) by {
        assert(g2.numbers@[i].pos.x as int == g1.numbers@[i].pos.x as int);
        assert(g2.numbers@[i].pos.y as int == g1.numbers@[i].pos.y as int);
        assert(g2.numbers@[i].val == g1.numbers@[i].val);
    }
    assert forall|i: int|
        #![trigger g1.arrows@[i]]
        0 <= i < g1.arrows@.len() implies some_feasible(g1.arrows@[i], dim, kg, ro)
        == some_feasible(g2.arrows@[i], dim, kg, ro) by {
        assert(some_feasible(g2.arrows@[i], dim, kg, ro) == some_feasible(g1.arrows@[i], dim, kg,
            ro));
    }
    if spec_valid(g1, kg, ro) {
        assert(spec_valid(g2, kg, ro));
    }
    if spec_valid(g2, kg, ro) {
        assert(spec_valid(g1, kg, ro));
    }
}

/// Powers of two.
pub open spec fn two_pow(n: nat) -> nat
    decreases n,
{
    if n == 0 {
        1
    } else {
        2 * two_pow((n - 1) as nat)
    }
}

/// Bit `j` of the pattern index `b`.
pub open spec fn bit_of(b: int, j: nat) -> int {
    (b / two_pow(j) as int) % 2
}

/// Powers of two are monotone in the exponent.
pub proof fn lemma_two_pow_mono(m: nat, n: nat)
    requires
        m <= n,
    ensures
        two_pow(m) <= two_pow(n),
    decreases n,
{
    lemma_two_pow_small(m);
    if m < n {
        lemma_two_pow_mono(m, (n - 1) as nat);
    }
}

pub proof fn lemma_two_pow_bounds(n: nat)
    requires
        n <= 9,
    ensures
        1 <= two_pow(n) <= 512,
{
    lemma_two_pow_small(n);
    lemma_two_pow_mono(n, 9);
    reveal_with_fuel(two_pow, 11);
    assert(two_pow(9) == 512);
}

/// Extract bit `j` of `b`.
fn bit_at(b: usize, j: usize) -> (r: bool)
    requires
        b < 0x1000,
        j < 16,
    ensures
        r == (bit_of(b as int, j as nat) == 1),
{
    let mut acc: usize = b;
    let mut i: usize = 0;
    proof {
        assert(two_pow(0) == 1);
        assert(b as int / 1int == b as int) by (nonlinear_arith);
    }
    while i < j
        invariant
            i <= j,
            acc == b as int / two_pow(i as nat) as int,
            acc <= b,
            b < 0x1000,
        decreases j - i,
    {
        proof {
            assert(two_pow(i as nat) >= 1) by {
                lemma_two_pow_small(i as nat);
            }
            lemma_div_denominator(b as int, two_pow(i as nat) as int, 2);
            assert(two_pow(i as nat) as int * 2 == two_pow((i + 1) as nat) as int);
        }
        acc = acc / 2;
        i = i + 1;
    }
    proof {
        assert(acc == b as int / two_pow(j as nat) as int);
    }
    acc % 2 == 1
}

pub proof fn lemma_two_pow_small(n: nat)
    ensures
        two_pow(n) >= 1,
    decreases n,
{
    if n > 0 {
        lemma_two_pow_small((n - 1) as nat);
    }
}

impl BoxGrid {
    /// An independent copy of the grid model.
    pub fn duplicate(&self) -> (r: BoxGrid)
        ensures
            r.dim == self.dim,
            r.arrows@ == self.arrows@,
            r.numbers@ == self.numbers@,
    {
        let mut arrows: Vec<BoxArrow> = Vec::new();
        let mut i: usize = 0;
        while i < self.arrows.len()
            invariant
                i <= self.arrows@.len(),
                arrows@ == self.arrows@.subrange(0, i as int),
            decreases self.arrows@.len() - i,
        {
            arrows.push(self.arrows[i]);
            proof {
                assert(arrows@ =~= self.arrows@.subrange(0, i + 1));
            }
            i = i + 1;
        }
        let mut numbers: Vec<BoxNumber> = Vec::new();
        let mut i: usize = 0;
        while i < self.numbers.len()
            invariant
                i <= self.numbers@.len(),
                numbers@ == self.numbers@.subrange(0, i as int),
            decreases self.numbers@.len() - i,
        {
            numbers.push(self.numbers[i]);
            proof {
                assert(numbers@ =~= self.numbers@.subrange(0, i + 1));
            }
            i = i + 1;
        }
        proof {
            assert(arrows@ =~= self.arrows@);
            assert(numbers@ =~= self.numbers@);
        }
        BoxGrid { dim: self.dim, arrows, numbers }
    }

    /// Index of the first unsolved number clue, if any.
    fn first_unsolved_number(&self) -> (r: Option<usize>)
        ensures
            r matches Some(i) ==> i < self.numbers@.len() && !self.numbers@[i as int].solved,
            r is None ==> forall|i: int|
                #![trigger self.numbers@[i]]
                0 <= i < self.numbers@.len() ==> self.numbers@[i].solved,
    {
        let mut i: usize = 0;
        while i < self.numbers.len()
            invariant
                i <= self.numbers@.len(),
                forall|k: int| #![trigger self.numbers@[k]] 0 <= k < i ==> self.numbers@[k].solved,
            decreases self.numbers@.len() - i,
        {
            if !self.numbers[i].solved {
                return Some(i);
            }
            i = i + 1;
        }
        None
    }

    /// Index of the first unsolved arrow clue, if any.
    fn first_unsolved_arrow(&self) -> (r: Option<usize>)
        ensures
            r matches Some(i) ==> i < self.arrows@.len() && !self.arrows@[i as int].solved,
            r is None ==> forall|i: int|
                #![trigger self.arrows@[i]]
                0 <= i < self.arrows@.len() ==> self.arrows@[i].solved,
    {
        let mut i: usize = 0;
        while i < self.arrows.len()
            invariant
                i <= self.arrows@.len(),
                forall|k: int| #![trigger self.arrows@[k]] 0 <= k < i ==> self.arrows@[k].solved,
            decreases self.arrows@.len() - i,
        {
            if !self.arrows[i].solved {
                return Some(i);
            }
            i = i + 1;
        }
        None
    }
}

/// First cell in scan order that is assigned to neither set, if any.
fn first_unassigned(kg: &CellSet, ro: &CellSet) -> (r: Option<(usize, usize)>)
    requires
        kg.wf(),
        ro.wf(),
        kg.dim == ro.dim,
    ensures
        r matches Some(c) ==> c.0 < kg.dim && c.1 < kg.dim && !kg.has(c.0 as int, c.1 as int)
            && !ro.has(c.0 as int, c.1 as int),
        r is None ==> forall|x: int, y: int|
            #![trigger kg.has(x, y)]
            #![trigger ro.has(x, y)]
            in_grid(kg.dim as int, x, y) ==> kg.has(x, y) || ro.has(x, y),
{
    let dim = kg.dim;
    let mut y: usize = 0;
    while y < dim
        invariant
            kg.wf(),
            ro.wf(),
            kg.dim == ro.dim,
            kg.dim == dim,
            y <= dim,
            forall|a: int, b: int| 0 <= b < y && 0 <= a < dim ==> kg.has(a, b) || ro.has(a, b),
        decreases dim - y,
    {
        let mut x: usize = 0;
        while x < dim
            invariant
                kg.wf(),
                ro.wf(),
                kg.dim == ro.dim,
                kg.dim == dim,
                y < dim,
                x <= dim,
                forall|a: int, b: int| 0 <= b < y && 0 <= a < dim ==> kg.has(a, b) || ro.has(a, b),
                forall|a: int| 0 <= a < x ==> kg.has(a, y as int) || ro.has(a, y as int),
            decreases dim - x,
        {
            if !kg.contains(x, y) && !ro.contains(x, y) {
                return Some((x, y));
            }
            x = x + 1;
        }
        y = y + 1;
    }
    None
}


/// The in-bounds cells of the 3x3 neighborhood of a number clue, in slot
/// order, with distinct coordinates.
fn nbhd_slots(n: BoxNumber, dim: usize) -> (r: Vec<Vec2>)
    requires
        n.wf(dim as int),
        dim <= crate::geom::DIM_MAX,
    ensures
        1 <= r@.len() <= 9,
        forall|j: int|
            #![trigger r@[j]]
            0 <= j < r@.len() ==> r@[j].spec_in_bounds(dim) && n.pos.x - 1 <= r@[j].x <= n.pos.x
                + 1 && n.pos.y - 1 <= r@[j].y <= n.pos.y + 1,
        forall|j1: int, j2: int|
            0 <= j1 < j2 < r@.len() ==> !(r@[j1].x == r@[j2].x && r@[j1].y == r@[j2].y),
{
    let mut r: Vec<Vec2> = Vec::new();
    let ghost mut idxs: Seq<int> = Seq::empty();
    let mut i: usize = 0;
    while i < 9
        invariant
            n.wf(dim as int),
            dim <= crate::geom::DIM_MAX,
            i <= 9,
            r@.len() == idxs.len(),
            r@.len() <= i,
            forall|j: int| #![trigger idxs[j]] 0 <= j < idxs.len() ==> 0 <= idxs[j] < i,
            forall|j: int|
                #![trigger r@[j]]
                0 <= j < r@.len() ==> r@[j].x as int == crate::clues::nb_x(
                    n.pos.x as int,
                    idxs[j],
                ) && r@[j].y as int == crate::clues::nb_y(n.pos.y as int, idxs[j])
                    && r@[j].spec_in_bounds(dim),
            forall|j1: int, j2: int| 0 <= j1 < j2 < idxs.len() ==> idxs[j1] < idxs[j2],
            i >= 5 ==> r@.len() >= 1,
        decreases 9 - i,
    {
        let delta = crate::geom::num_delta(i);
        let coord = n.pos.plus(delta);
        let ghost r0 = r@;
        let ghost idxs0 = idxs;
        if coord.in_bounds(dim) {
            r.push(coord);
            proof {
                idxs = idxs.push(i as int);
                assert(r@ == r0.push(coord));
                assert(coord.x as int == crate::clues::nb_x(n.pos.x as int, i as int));
                assert(coord.y as int == crate::clues::nb_y(n.pos.y as int, i as int));
                assert forall|j: int|
                    #![trigger idxs[j]]
                    0 <= j < idxs.len() implies 0 <= idxs[j] < i + 1 by {
                    if j < idxs.len() - 1 {
                        assert(idxs[j] == idxs0[j]);
                    } else {
                        assert(idxs[j] == i as int);
                    }
                }
                assert forall|j: int|
                    #![trigger r@[j]]
                    0 <= j < r@.len() implies r@[j].x as int == crate::clues::nb_x(
                    n.pos.x as int,
                    idxs[j],
                ) && r@[j].y as int == crate::clues::nb_y(n.pos.y as int, idxs[j])
                    && r@[j].spec_in_bounds(dim) by {
                    if j < r@.len() - 1 {
                        assert(r@[j] == r0[j] && idxs[j] == idxs0[j]);
                    } else {
                        assert(r@[j] == coord && idxs[j] == i as int);
                    }
                }
                assert forall|j1: int, j2: int|
                    0 <= j1 < j2 < idxs.len() implies idxs[j1] < idxs[j2] by {
                    if j2 < idxs.len() - 1 {
                        assert(idxs[j1] == idxs0[j1] && idxs[j2] == idxs0[j2]);
                    } else {
                        assert(idxs[j2] == i as int);
                        assert(0 <= idxs0[j1] < i as int);
                        assert(idxs[j1] == idxs0[j1]);
                    }
                }
            }
        }
        proof {
            if i == 4 {
                assert(crate::clues::nb_x(n.pos.x as int, 4) == n.pos.x as int);
                assert(crate::clues::nb_y(n.pos.y as int, 4) == n.pos.y as int);
                assert(coord.spec_in_bounds(dim));
                assert(r@.len() >= 1);
            }
        }
        i = i + 1;
    }
    proof {
        assert forall|j1: int, j2: int|
            0 <= j1 < j2 < r@.len() implies !(r@[j1].x == r@[j2].x && r@[j1].y == r@[j2].y) by {
            let i1 = idxs[j1];
            let i2 = idxs[j2];
            assert(i1 < i2);
            assert(r@[j1].x as int == crate::clues::nb_x(n.pos.x as int, i1));
            assert(r@[j2].x as int == crate::clues::nb_x(n.pos.x as int, i2));
        }
        assert forall|j: int|
            #![trigger r@[j]]
            0 <= j < r@.len() implies n.pos.x - 1 <= r@[j].x <= n.pos.x + 1 && n.pos.y - 1
            <= r@[j].y <= n.pos.y + 1 by {
            assert(r@[j].x as int == crate::clues::nb_x(n.pos.x as int, idxs[j]));
        }
    }
    r
}


/// Cells strictly between a clue and an in-grid cell on its ray are in
/// grid.
pub proof fn lemma_ray_prefix_in_grid(px: int, py: int, dim: int, dir: usize, d: int, k: int)
    requires
        crate::geom::is_dir(dir),
        in_grid(dim, px, py),
        in_grid(dim, crate::clues::ray_x(px, dir, d), crate::clues::ray_y(py, dir, d)),
        1 <= k <= d,
    ensures
        in_grid(dim, crate::clues::ray_x(px, dir, k), crate::clues::ray_y(py, dir, k)),
{
    crate::clues::lemma_unit_scale_exact(crate::geom::dir_dx(dir), k);
    crate::clues::lemma_unit_scale_exact(crate::geom::dir_dy(dir), k);
    crate::clues::lemma_unit_scale_exact(crate::geom::dir_dx(dir), d);
    crate::clues::lemma_unit_scale_exact(crate::geom::dir_dy(dir), d);
    if dir == crate::geom::NORTH {
        assert(crate::clues::ray_y(py, dir, k) == py - k && crate::clues::ray_x(px, dir, k) == px);
        assert(crate::clues::ray_y(py, dir, d) == py - d);
    } else if dir == crate::geom::EAST {
        assert(crate::clues::ray_x(px, dir, k) == px + k && crate::clues::ray_y(py, dir, k) == py);
        assert(crate::clues::ray_x(px, dir, d) == px + d);
    } else if dir == crate::geom::SOUTH {
        assert(crate::clues::ray_y(py, dir, k) == py + k && crate::clues::ray_x(px, dir, k) == px);
        assert(crate::clues::ray_y(py, dir, d) == py + d);
    } else {
        assert(crate::clues::ray_x(px, dir, k) == px - k && crate::clues::ray_y(py, dir, k) == py);
        assert(crate::clues::ray_x(px, dir, d) == px - d);
    }
}

impl BoxGrid {
    /// Pure recursive depth-first search over the remaining ambiguity: if a
    /// number clue is unsolved, enumerate the assignments of its in-bounds
    /// neighborhood slots; else if an arrow is unsolved, enumerate its
    /// currently feasible distances; else branch on the first unassigned
    /// cell. Every branch is validated by the consistency predicate and
    /// propagated by the engine before recursing; invalid branches are
    /// pruned, and an inconsistent input yields no results at all. Each
    /// returned pair is complete, satisfies the consistency predicate, and
    /// extends the given assignments; an input that is already a complete
    /// consistent partition with no unsolved clue is returned as the single
    /// result, unchanged. When the input pair is already seeded, every
    /// returned pair keeps the seeding polarity relative to it.
    #[verifier::rlimit(100)]
    pub fn speculation(&self, known_good: CellSet, ruled_out: CellSet) -> (results: Vec<(CellSet,
        CellSet)>)
        requires
            self.wf(),
            known_good.wf(),
            ruled_out.wf(),
            known_good.dim == self.dim,
            ruled_out.dim == self.dim,
        ensures
            forall|t: int|
                #![trigger results@[t]]
                0 <= t < results@.len() ==> results@[t].0.wf() && results@[t].1.wf()
                    && results@[t].0.dim == self.dim && results@[t].1.dim == self.dim
                    && spec_valid(*self, results@[t].0, results@[t].1) && complete(
                    results@[t].0,
                    results@[t].1,
                    self.dim as int,
                ),
            forall|t: int, x: int, y: int|
                #![trigger results@[t].0.has(x, y)]
                0 <= t < results@.len() && known_good.has(x, y) ==> results@[t].0.has(x, y),
            forall|t: int, x: int, y: int|
                #![trigger results@[t].1.has(x, y)]
                0 <= t < results@.len() && ruled_out.has(x, y) ==> results@[t].1.has(x, y),
            !spec_valid(*self, known_good, ruled_out) ==> results@.len() == 0,
            spec_valid(*self, known_good, ruled_out) && complete(known_good, ruled_out,
                self.dim as int) && (forall|i: int|
                #![trigger self.arrows@[i]]
                0 <= i < self.arrows@.len() ==> self.arrows@[i].solved) && (forall|i: int|
                #![trigger self.numbers@[i]]
                0 <= i < self.numbers@.len() ==> self.numbers@[i].solved) ==> results@.len() == 1
                && results@[0].0 == known_good && results@[0].1 == ruled_out,
            seeded(*self, known_good, ruled_out) ==> forall|t: int|
                #![trigger results@[t]]
                0 <= t < results@.len() ==> seed_polarity(*self, known_good, ruled_out,
                    results@[t].0, results@[t].1),
        decreases unsolved_clues(*self), self.dim * self.dim - known_good.count - ruled_out.count,
    {
        let dim = self.dim;
        let mut results: Vec<(CellSet, CellSet)> = Vec::new();
        if !self.cell_assignment_validate(&known_good, &ruled_out) {
            return results;
        }
        proof {
            known_good.lemma_partition_counts(&ruled_out);
            crate::cellset::lemma_dim_area(dim as int);
        }
        let un = self.first_unsolved_number();
        match un {
            Some(ni) => {
                let n = self.numbers[ni];
                let slots = nbhd_slots(n, dim);
                let ns = slots.len();
                proof {
                    lemma_two_pow_bounds(ns as nat);
                }
                let mut total: usize = 1;
                let mut e: usize = 0;
                while e < ns
                    invariant
                        e <= ns <= 9,
                        total == two_pow(e as nat),
                        total <= 512,
                    decreases ns - e,
                {
                    proof {
                        lemma_two_pow_mono((e + 1) as nat, 9);
                        lemma_two_pow_bounds(9);
                    }
                    total = total * 2;
                    e = e + 1;
                }
                let mut bits: usize = 0;
                while bits < total
                    invariant
                        self.wf(),
                        known_good.wf(),
                        ruled_out.wf(),
                        known_good.dim == dim,
                        ruled_out.dim == dim,
                        dim == self.dim,
                        spec_valid(*self, known_good, ruled_out),
                        ni < self.numbers@.len(),
                        !self.numbers@[ni as int].solved,
                        n == self.numbers@[ni as int],
                        1 <= slots@.len() <= 9,
                        ns == slots@.len(),
                        forall|j: int|
                            #![trigger slots@[j]]
                            0 <= j < slots@.len() ==> slots@[j].spec_in_bounds(dim),
                        total <= 512,
                        bits <= total,
                        forall|t: int|
                            #![trigger results@[t]]
                            0 <= t < results@.len() ==> results@[t].0.wf() && results@[t].1.wf()
                                && results@[t].0.dim == dim && results@[t].1.dim == dim
                                && spec_valid(*self, results@[t].0, results@[t].1) && complete(
                                results@[t].0,
                                results@[t].1,
                                dim as int,
                            ),
                        forall|t: int, x: int, y: int|
                            #![trigger results@[t].0.has(x, y)]
                            0 <= t < results@.len() && known_good.has(x, y) ==> results@[t].0.has(
                                x,
                                y,
                            ),
                        forall|t: int, x: int, y: int|
                            #![trigger results@[t].1.has(x, y)]
                            0 <= t < results@.len() && ruled_out.has(x, y) ==> results@[t].1.has(
                                x,
                                y,
                            ),
                    decreases total - bits,
                {
                    let mut bkg = known_good.duplicate();
                    let mut bro = ruled_out.duplicate();
                    proof {
                        assert forall|x: int, y: int| #![trigger bkg.has(x, y)] bkg.has(x, y)
                            == known_good.has(x, y) by {}
                        assert forall|x: int, y: int| #![trigger bro.has(x, y)] bro.has(x, y)
                            == ruled_out.has(x, y) by {}
                    }
                    let mut contradiction = false;
                    let mut j: usize = 0;
                    while j < ns
                        invariant
                            known_good.wf(),
                            ruled_out.wf(),
                            known_good.dim == dim,
                            ruled_out.dim == dim,
                            bkg.wf(),
                            bro.wf(),
                            bkg.dim == dim,
                            bro.dim == dim,
                            j <= ns,
                            ns == slots@.len() <= 9,
                            bits < total <= 512,
                            forall|jj: int|
                                #![trigger slots@[jj]]
                                0 <= jj < slots@.len() ==> slots@[jj].spec_in_bounds(dim),
                            forall|x: int, y: int|
                                #![trigger bkg.has(x, y)]
                                known_good.has(x, y) ==> bkg.has(x, y),
                            forall|x: int, y: int|
                                #![trigger bro.has(x, y)]
                                ruled_out.has(x, y) ==> bro.has(x, y),
                        decreases ns - j,
                    {
                        if !contradiction {
                            let c = slots[j];
                            let b1 = bit_at(bits, j);
                            if b1 {
                                if bro.contains_v2(c) {
                                    contradiction = true;
                                } else {
                                    bkg.insert(c.x as usize, c.y as usize);
                                }
                            } else {
                                if bkg.contains_v2(c) {
                                    contradiction = true;
                                } else {
                                    bro.insert(c.x as usize, c.y as usize);
                                }
                            }
                        }
                        j = j + 1;
                    }
                    if !contradiction {
                        if self.cell_assignment_validate(&bkg, &bro) {
                            let mut bg = self.duplicate();
                            let mut nn = bg.numbers[ni];
                            nn.solved = true;
                            bg.numbers.set(ni, nn);
                            proof {
                                assert(bg.numbers@ == self.numbers@.update(ni as int, nn));
                                assert forall|k: int|
                                    #![trigger bg.numbers@[k]]
                                    0 <= k < bg.numbers@.len() implies bg.numbers@[k].pos
                                    == self.numbers@[k].pos && bg.numbers@[k].val
                                    == self.numbers@[k].val && bg.numbers@[k].is_circle
                                    == self.numbers@[k].is_circle && bg.numbers@[k].is_square
                                    == self.numbers@[k].is_square && (self.numbers@[k].solved
                                    ==> bg.numbers@[k].solved) by {
                                    if k != ni {
                                        assert(bg.numbers@[k] == self.numbers@[k]);
                                    }
                                }
                                assert(bg.same_clues(self));
                                assert(bg.wf()) by {
                                    assert forall|k: int|
                                        #![trigger bg.numbers@[k]]
                                        0 <= k < bg.numbers@.len() implies bg.numbers@[k].wf(
                                        bg.dim as int) by {
                                        assert(self.numbers@[k].wf(self.dim as int));
                                    }
                                    assert forall|k: int, l: int|
                                        0 <= k < l < bg.numbers@.len() implies !(
                                    bg.numbers@[k].pos.x == bg.numbers@[l].pos.x
                                        && bg.numbers@[k].pos.y == bg.numbers@[l].pos.y) by {
                                        assert(bg.numbers@[k].pos == self.numbers@[k].pos);
                                        assert(bg.numbers@[l].pos == self.numbers@[l].pos);
                                    }
                                }
                                lemma_count_unsolved_numbers_mono(self.numbers@, bg.numbers@);
                                assert(count_unsolved_numbers(bg.numbers@) < count_unsolved_numbers(
                                    self.numbers@)) by {
                                    assert(!self.numbers@[ni as int].solved
                                        && bg.numbers@[ni as int].solved);
                                }
                            }
                            let ghost bg_mid = bg;
                            bg.inference(&mut bkg, &mut bro);
                            proof {
                                lemma_same_clues_trans(*self, bg_mid, bg);
                                lemma_count_unsolved_numbers_mono(bg_mid.numbers@, bg.numbers@);
                                lemma_count_unsolved_arrows_mono(bg_mid.arrows@, bg.arrows@);
                                assert(unsolved_clues(bg) < unsolved_clues(*self));
                            }
                            let ghost bkg_in = bkg;
                            let ghost bro_in = bro;
                            let ghost bg_in = bg;
                            let mut sub = bg.speculation(bkg, bro);
                            proof {
                                assert forall|t: int|
                                    #![trigger sub@[t]]
                                    0 <= t < sub@.len() implies spec_valid(*self, sub@[t].0,
                                sub@[t].1) by {
                                    lemma_spec_valid_same_clues(*self, bg_in, sub@[t].0,
                                        sub@[t].1);
                                }
                            }
                            let ghost results0 = results@;
                            let ghost sub_in = sub@;
                            results.append(&mut sub);
                            proof {
                                assert(results@ == results0 + sub_in);
                                assert forall|t: int|
                                    #![trigger results@[t]]
                                    0 <= t < results@.len() implies results@[t].0.wf()
                                    && results@[t].1.wf() && results@[t].0.dim == dim
                                    && results@[t].1.dim == dim && spec_valid(*self,
                                    results@[t].0, results@[t].1) && complete(results@[t].0,
                                    results@[t].1, dim as int) by {
                                    if t < results0.len() {
                                        assert(results@[t] == (results0 + sub_in)[t]);
                                        assert(results@[t] == results0[t]);
                                    } else {
                                        assert(results@[t] == (results0 + sub_in)[t]);
                                        assert(results@[t] == sub_in[t - results0.len()]);
                                    }
                                }
                                assert forall|t: int, x: int, y: int|
                                    #![trigger results@[t].0.has(x, y)]
                                    0 <= t < results@.len() && known_good.has(x, y)
                                    implies results@[t].0.has(x, y) by {
                                    if t < results0.len() {
                                        assert(results@[t] == (results0 + sub_in)[t]);
                                        assert(results@[t] == results0[t]);
                                    } else {
                                        assert(results@[t] == (results0 + sub_in)[t]);
                                        assert(results@[t] == sub_in[t - results0.len()]);
                                        assert(bkg_in.has(x, y));
                                    }
                                }
                                assert forall|t: int, x: int, y: int|
                                    #![trigger results@[t].1.has(x, y)]
                                    0 <= t < results@.len() && ruled_out.has(x, y)
                                    implies results@[t].1.has(x, y) by {
                                    if t < results0.len() {
                                        assert(results@[t] == (results0 + sub_in)[t]);
                                        assert(results@[t] == results0[t]);
                                    } else {
                                        assert(results@[t] == (results0 + sub_in)[t]);
                                        assert(results@[t] == sub_in[t - results0.len()]);
                                        assert(bro_in.has(x, y));
                                    }
                                }
                            }
                        }
                    }
                    bits = bits + 1;
                }
                proof {
                    if seeded(*self, known_good, ruled_out) {
                        lemma_results_polarity(*self, known_good, ruled_out, results@);
                    }
                }
                return results;
            },
            None => {},
        }
        let ua = self.first_unsolved_arrow();
        match ua {
            Some(ai) => {
                let a = self.arrows[ai];
                let dists = a.possible_distances(dim, &known_good, &ruled_out);
                let mut t: usize = 0;
                while t < dists.len()
                    invariant
                        self.wf(),
                        known_good.wf(),
                        ruled_out.wf(),
                        known_good.dim == dim,
                        ruled_out.dim == dim,
                        dim == self.dim,
                        spec_valid(*self, known_good, ruled_out),
                        ai < self.arrows@.len(),
                        !self.arrows@[ai as int].solved,
                        a == self.arrows@[ai as int],
                        t <= dists@.len(),
                        forall|i: int|
                            0 <= i < dists@.len() ==> feasible(a, dim as int, known_good,
                            ruled_out, dists@[i] as int),
                        forall|i: int|
                            #![trigger self.numbers@[i]]
                            0 <= i < self.numbers@.len() ==> self.numbers@[i].solved,
                        forall|tt: int|
                            #![trigger results@[tt]]
                            0 <= tt < results@.len() ==> results@[tt].0.wf()
                                && results@[tt].1.wf() && results@[tt].0.dim == dim
                                && results@[tt].1.dim == dim && spec_valid(*self, results@[tt].0,
                                results@[tt].1) && complete(results@[tt].0, results@[tt].1,
                                dim as int),
                        forall|tt: int, x: int, y: int|
                            #![trigger results@[tt].0.has(x, y)]
                            0 <= tt < results@.len() && known_good.has(x, y)
                                ==> results@[tt].0.has(x, y),
                        forall|tt: int, x: int, y: int|
                            #![trigger results@[tt].1.has(x, y)]
                            0 <= tt < results@.len() && ruled_out.has(x, y)
                                ==> results@[tt].1.has(x, y),
                    decreases dists@.len() - t,
                {
                    let d = dists[t];
                    proof {
                        assert(feasible(a, dim as int, known_good, ruled_out, d as int));
                    }
                    let mut nkg = CellSet::new(dim);
                    let mut nro = CellSet::new(dim);
                    crate::clues::mark_dir(a, dim, d, crate::geom::NORTH, &known_good,
                        &ruled_out, &mut nkg, &mut nro);
                    crate::clues::mark_dir(a, dim, d, crate::geom::EAST, &known_good, &ruled_out,
                        &mut nkg, &mut nro);
                    crate::clues::mark_dir(a, dim, d, crate::geom::SOUTH, &known_good,
                        &ruled_out, &mut nkg, &mut nro);
                    crate::clues::mark_dir(a, dim, d, crate::geom::WEST, &known_good, &ruled_out,
                        &mut nkg, &mut nro);
                    let mut bkg = known_good.duplicate();
                    bkg.union_with(&nkg);
                    let mut bro = ruled_out.duplicate();
                    bro.union_with(&nro);
                    proof {
                        assert forall|x: int, y: int| #![trigger bkg.has(x, y)]
                            known_good.has(x, y) implies bkg.has(x, y) by {}
                        assert forall|x: int, y: int| #![trigger bro.has(x, y)]
                            ruled_out.has(x, y) implies bro.has(x, y) by {}
                    }
                    if self.cell_assignment_validate(&bkg, &bro) {
                        let mut bg = self.duplicate();
                        let mut na = bg.arrows[ai];
                        na.solved = true;
                        bg.arrows.set(ai, na);
                        proof {
                            assert(bg.arrows@ == self.arrows@.update(ai as int, na));
                            assert forall|k: int|
                                #![trigger bg.arrows@[k]]
                                0 <= k < bg.arrows@.len() implies bg.arrows@[k].pos
                                == self.arrows@[k].pos && bg.arrows@[k].val
                                == self.arrows@[k].val && bg.arrows@[k].dist
                                == self.arrows@[k].dist && (self.arrows@[k].solved
                                ==> bg.arrows@[k].solved) by {
                                if k != ai {
                                    assert(bg.arrows@[k] == self.arrows@[k]);
                                }
                            }
                            assert(bg.same_clues(self));
                            assert(bg.wf()) by {
                                assert forall|k: int|
                                    #![trigger bg.arrows@[k]]
                                    0 <= k < bg.arrows@.len() implies bg.arrows@[k].wf(
                                    bg.dim as int) by {
                                    assert(self.arrows@[k].wf(self.dim as int));
                                }
                                assert forall|k: int, l: int|
                                    0 <= k < l < bg.arrows@.len() implies !(bg.arrows@[k].pos.x
                                    == bg.arrows@[l].pos.x && bg.arrows@[k].pos.y
                                    == bg.arrows@[l].pos.y) by {
                                    assert(bg.arrows@[k].pos == self.arrows@[k].pos);
                                    assert(bg.arrows@[l].pos == self.arrows@[l].pos);
                                }
                            }
                            lemma_count_unsolved_arrows_mono(self.arrows@, bg.arrows@);
                            assert(count_unsolved_arrows(bg.arrows@) < count_unsolved_arrows(
                                self.arrows@)) by {
                                assert(!self.arrows@[ai as int].solved
                                    && bg.arrows@[ai as int].solved);
                            }
                        }
                        let ghost bg_mid = bg;
                        bg.inference(&mut bkg, &mut bro);
                        proof {
                            lemma_same_clues_trans(*self, bg_mid, bg);
                            lemma_count_unsolved_numbers_mono(bg_mid.numbers@, bg.numbers@);
                            lemma_count_unsolved_arrows_mono(bg_mid.arrows@, bg.arrows@);
                            assert(unsolved_clues(bg) < unsolved_clues(*self));
                        }
                        let ghost bkg_in = bkg;
                        let ghost bro_in = bro;
                        let ghost bg_in = bg;
                        let mut sub = bg.speculation(bkg, bro);
                        proof {
                            assert forall|tt: int|
                                #![trigger sub@[tt]]
                                0 <= tt < sub@.len() implies spec_valid(*self, sub@[tt].0,
                            sub@[tt].1) by {
                                lemma_spec_valid_same_clues(*self, bg_in, sub@[tt].0, sub@[tt].1);
                            }
                        }
                        let ghost results0 = results@;
                        let ghost sub_in = sub@;
                        results.append(&mut sub);
                        proof {
                            assert(results@ == results0 + sub_in);
                            assert forall|tt: int|
                                #![trigger results@[tt]]
                                0 <= tt < results@.len() implies results@[tt].0.wf()
                                && results@[tt].1.wf() && results@[tt].0.dim == dim
                                && results@[tt].1.dim == dim && spec_valid(*self,
                                results@[tt].0, results@[tt].1) && complete(results@[tt].0,
                                results@[tt].1, dim as int) by {
                                if tt < results0.len() {
                                    assert(results@[tt] == (results0 + sub_in)[tt]);
                                    assert(results@[tt] == results0[tt]);
                                } else {
                                    assert(results@[tt] == (results0 + sub_in)[tt]);
                                    assert(results@[tt] == sub_in[tt - results0.len()]);
                                }
                            }
                            assert forall|tt: int, x: int, y: int|
                                #![trigger results@[tt].0.has(x, y)]
                                0 <= tt < results@.len() && known_good.has(x, y)
                                implies results@[tt].0.has(x, y) by {
                                if tt < results0.len() {
                                    assert(results@[tt] == (results0 + sub_in)[tt]);
                                    assert(results@[tt] == results0[tt]);
                                } else {
                                    assert(results@[tt] == (results0 + sub_in)[tt]);
                                    assert(results@[tt] == sub_in[tt - results0.len()]);
                                    assert(bkg_in.has(x, y));
                                }
                            }
                            assert forall|tt: int, x: int, y: int|
                                #![trigger results@[tt].1.has(x, y)]
                                0 <= tt < results@.len() && ruled_out.has(x, y)
                                implies results@[tt].1.has(x, y) by {
                                if tt < results0.len() {
                                    assert(results@[tt] == (results0 + sub_in)[tt]);
                                    assert(results@[tt] == results0[tt]);
                                } else {
                                    assert(results@[tt] == (results0 + sub_in)[tt]);
                                    assert(results@[tt] == sub_in[tt - results0.len()]);
                                    assert(bro_in.has(x, y));
                                }
                            }
                        }
                    }
                    t = t + 1;
                }
                proof {
                    if seeded(*self, known_good, ruled_out) {
                        lemma_results_polarity(*self, known_good, ruled_out, results@);
                    }
                }
                return results;
            },
            None => {},
        }
        proof {
            lemma_count_unsolved_numbers_zero(self.numbers@);
            lemma_count_unsolved_arrows_zero(self.arrows@);
        }
        let uc = first_unassigned(&known_good, &ruled_out);
        match uc {
            Some((cx, cy)) => {
                let ghost results0 = results@;
                let mut bkg = known_good.duplicate();
                let mut bro = ruled_out.duplicate();
                bkg.insert(cx, cy);
                proof {
                    assert forall|x: int, y: int| #![trigger bkg.has(x, y)]
                        known_good.has(x, y) implies bkg.has(x, y) by {}
                    assert forall|x: int, y: int| #![trigger bro.has(x, y)]
                        ruled_out.has(x, y) implies bro.has(x, y) by {}
                }
                if self.cell_assignment_validate(&bkg, &bro) {
                    let mut bg = self.duplicate();
                    proof {
                        assert(bg.same_clues(self));
                        assert(bg.wf()) by {
                            assert forall|k: int|
                                #![trigger bg.arrows@[k]]
                                0 <= k < bg.arrows@.len() implies bg.arrows@[k].wf(
                                bg.dim as int) by {
                                assert(self.arrows@[k].wf(self.dim as int));
                            }
                            assert forall|k: int|
                                #![trigger bg.numbers@[k]]
                                0 <= k < bg.numbers@.len() implies bg.numbers@[k].wf(
                                bg.dim as int) by {
                                assert(self.numbers@[k].wf(self.dim as int));
                            }
                        }
                        assert(bkg.count == known_good.count + 1);
                    }
                    let ghost bg_mid = bg;
                    let ghost bkg_pre = bkg;
                    let ghost bro_pre = bro;
                    bg.inference(&mut bkg, &mut bro);
                    proof {
                        lemma_same_clues_trans(*self, bg_mid, bg);
                        lemma_count_unsolved_numbers_mono(bg_mid.numbers@, bg.numbers@);
                        lemma_count_unsolved_arrows_mono(bg_mid.arrows@, bg.arrows@);
                        assert(unsolved_clues(bg) == 0);
                        bkg.lemma_partition_counts(&bro);
                        bkg_pre.lemma_subset_counts(&bkg);
                        bro_pre.lemma_subset_counts(&bro);
                        assert(bkg.count + bro.count > known_good.count + ruled_out.count);
                    }
                    let ghost bkg_in = bkg;
                    let ghost bro_in = bro;
                    let ghost bg_in = bg;
                    let mut sub = bg.speculation(bkg, bro);
                    proof {
                        assert forall|tt: int|
                            #![trigger sub@[tt]]
                            0 <= tt < sub@.len() implies spec_valid(*self, sub@[tt].0,
                        sub@[tt].1) by {
                            lemma_spec_valid_same_clues(*self, bg_in, sub@[tt].0, sub@[tt].1);
                        }
                    }
                    let ghost sub_in = sub@;
                    let ghost resultsp = results@;
                    results.append(&mut sub);
                    proof {
                        assert(results@ == resultsp + sub_in);
                        assert forall|tt: int|
                            #![trigger results@[tt]]
                            0 <= tt < results@.len() implies results@[tt].0.wf()
                            && results@[tt].1.wf() && results@[tt].0.dim == dim
                            && results@[tt].1.dim == dim && spec_valid(*self, results@[tt].0,
                            results@[tt].1) && complete(results@[tt].0, results@[tt].1,
                            dim as int) && (forall|x: int, y: int|
                            known_good.has(x, y) ==> results@[tt].0.has(x, y)) && (forall|
                            x: int,
                            y: int,
                        |
                            ruled_out.has(x, y) ==> results@[tt].1.has(x, y)) by {
                            assert(results@[tt] == (resultsp + sub_in)[tt]);
                            assert(results@[tt] == sub_in[tt]);
                        }
                    }
                }
                let mut bkg2 = known_good.duplicate();
                let mut bro2 = ruled_out.duplicate();
                bro2.insert(cx, cy);
                proof {
                    assert forall|x: int, y: int| #![trigger bkg2.has(x, y)]
                        known_good.has(x, y) implies bkg2.has(x, y) by {}
                    assert forall|x: int, y: int| #![trigger bro2.has(x, y)]
                        ruled_out.has(x, y) implies bro2.has(x, y) by {}
                }
                if self.cell_assignment_validate(&bkg2, &bro2) {
                    let mut bg = self.duplicate();
                    proof {
                        assert(bg.same_clues(self));
                        assert(bg.wf()) by {
                            assert forall|k: int|
                                #![trigger bg.arrows@[k]]
                                0 <= k < bg.arrows@.len() implies bg.arrows@[k].wf(
                                bg.dim as int) by {
                                assert(self.arrows@[k].wf(self.dim as int));
                            }
                            assert forall|k: int|
                                #![trigger bg.numbers@[k]]
                                0 <= k < bg.numbers@.len() implies bg.numbers@[k].wf(
                                bg.dim as int) by {
                                assert(self.numbers@[k].wf(self.dim as int));
                            }
                        }
                        assert(bro2.count == ruled_out.count + 1);
                    }
                    let ghost bg_mid = bg;
                    let ghost bkg_pre = bkg2;
                    let ghost bro_pre = bro2;
                    bg.inference(&mut bkg2, &mut bro2);
                    proof {
                        lemma_same_clues_trans(*self, bg_mid, bg);
                        lemma_count_unsolved_numbers_mono(bg_mid.numbers@, bg.numbers@);
                        lemma_count_unsolved_arrows_mono(bg_mid.arrows@, bg.arrows@);
                        assert(unsolved_clues(bg) == 0);
                        bkg2.lemma_partition_counts(&bro2);
                        bkg_pre.lemma_subset_counts(&bkg2);
                        bro_pre.lemma_subset_counts(&bro2);
                        assert(bkg2.count + bro2.count > known_good.count + ruled_out.count);
                    }
                    let ghost bg_in = bg;
                    let ghost bkg_in = bkg2;
                    let ghost bro_in = bro2;
                    let mut sub = bg.speculation(bkg2, bro2);
                    proof {
                        assert forall|tt: int|
                            #![trigger sub@[tt]]
                            0 <= tt < sub@.len() implies spec_valid(*self, sub@[tt].0,
                        sub@[tt].1) by {
                            lemma_spec_valid_same_clues(*self, bg_in, sub@[tt].0, sub@[tt].1);
                        }
                    }
                    let ghost sub_in = sub@;
                    let ghost resultsp = results@;
                    results.append(&mut sub);
                    proof {
                        assert(results@ == resultsp + sub_in);
                        assert forall|tt: int|
                            #![trigger results@[tt]]
                            0 <= tt < results@.len() implies results@[tt].0.wf()
                            && results@[tt].1.wf() && results@[tt].0.dim == dim
                            && results@[tt].1.dim == dim && spec_valid(*self, results@[tt].0,
                            results@[tt].1) && complete(results@[tt].0, results@[tt].1,
                            dim as int) && (forall|x: int, y: int|
                            known_good.has(x, y) ==> results@[tt].0.has(x, y)) && (forall|
                            x: int,
                            y: int,
                        |
                            ruled_out.has(x, y) ==> results@[tt].1.has(x, y)) by {
                            assert(results@[tt] == (resultsp + sub_in)[tt]);
                            if tt < resultsp.len() {
                                assert(results@[tt] == resultsp[tt]);
                            } else {
                                assert(results@[tt] == sub_in[tt - resultsp.len()]);
                            }
                        }
                    }
                }
                proof {
                    if seeded(*self, known_good, ruled_out) {
                        lemma_results_polarity(*self, known_good, ruled_out, results@);
                    }
                }
                results
            },
            None => {
                proof {
                    assert(complete(known_good, ruled_out, dim as int));
                    assert(results@.len() == 0);
                }
                results.push((known_good, ruled_out));
                proof {
                    assert(results@.len() == 1);
                    assert(results@[0].0 == known_good && results@[0].1 == ruled_out);
                    if seeded(*self, known_good, ruled_out) {
                        lemma_results_polarity(*self, known_good, ruled_out, results@);
                    }
                }
                results
            },
        }
    }
}

} // verus!
