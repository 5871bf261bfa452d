//! A set of cells of an N x N grid, stored as a row-major vector of booleans
//! together with a cached cardinality. The known-box and known-non-box halves
//! of a partition state are each one `CellSet`.

use vstd::prelude::*;
use crate::geom::{Vec2, DIM_MAX, on_border};

verus! {

/// Number of `true` entries of a boolean sequence.
pub open spec fn count_true(s: Seq<bool>) -> nat
    decreases s.len(),
{
    if s.len() == 0 {
        0
    } else {
        count_true(s.drop_last()) + (if s.last() {
            1nat
        } else {
            0nat
        })
    }
}

pub proof fn lemma_count_true_le_len(s: Seq<bool>)
    ensures
        count_true(s) <= s.len(),
    decreases s.len(),
{
    if s.len() > 0 {
        lemma_count_true_le_len(s.drop_last());
    }
}

pub proof fn lemma_count_true_push(s: Seq<bool>, v: bool)
    ensures
        count_true(s.push(v)) == count_true(s) + (if v {
            1nat
        } else {
            0nat
        }),
{
    assert(s.push(v).drop_last() =~= s);
    assert(s.push(v).last() == v);
}

pub proof fn lemma_count_true_update(s: Seq<bool>, i: int, v: bool)
    requires
        0 <= i < s.len(),
    ensures
        count_true(s.update(i, v)) == count_true(s) - (if s[i] {
            1int
        } else {
            0int
        }) + (if v {
            1int
        } else {
            0int
        }),
    decreases s.len(),
{
    if i == s.len() - 1 {
        assert(s.update(i, v).drop_last() =~= s.drop_last());
        assert(s.update(i, v).last() == v);
        assert(s[i] == s.last());
    } else {
        lemma_count_true_update(s.drop_last(), i, v);
        assert(s.update(i, v).drop_last() =~= s.drop_last().update(i, v));
        assert(s.update(i, v).last() == s.last());
        assert(s.drop_last()[i] == s[i]);
    }
}

/// A cell with a `false` bit witnesses that the count is strictly below the
/// length.
pub proof fn lemma_count_true_below(s: Seq<bool>, i: int)
    requires
        0 <= i < s.len(),
        !s[i],
    ensures
        count_true(s) < s.len(),
    decreases s.len(),
{
    if i == s.len() - 1 {
        lemma_count_true_le_len(s.drop_last());
    } else {
        lemma_count_true_below(s.drop_last(), i);
    }
}

/// Two pointwise-disjoint boolean sequences together cover at most every
/// index once.
pub proof fn lemma_count_true_disjoint(a: Seq<bool>, b: Seq<bool>)
    requires
        a.len() == b.len(),
        forall|i: int| 0 <= i < a.len() ==> !(a[i] && b[i]),
    ensures
        count_true(a) + count_true(b) <= a.len(),
    decreases a.len(),
{
    if a.len() > 0 {
        assert(forall|i: int|
            0 <= i < a.len() - 1 ==> a.drop_last()[i] == a[i] && b.drop_last()[i] == b[i]);
        lemma_count_true_disjoint(a.drop_last(), b.drop_last());
        assert(!(a.last() && b.last()));
    }
}

/// Two pointwise-disjoint boolean sequences whose counts sum to the length
/// cover every index, and conversely.
pub proof fn lemma_count_true_partition(a: Seq<bool>, b: Seq<bool>)
    requires
        a.len() == b.len(),
        forall|i: int| 0 <= i < a.len() ==> !(a[i] && b[i]),
    ensures
        (count_true(a) + count_true(b) == a.len()) <==> (forall|i: int|
            0 <= i < a.len() ==> a[i] || b[i]),
    decreases a.len(),
{
    if a.len() > 0 {
        assert(forall|i: int|
            0 <= i < a.len() - 1 ==> a.drop_last()[i] == a[i] && b.drop_last()[i] == b[i]);
        lemma_count_true_partition(a.drop_last(), b.drop_last());
        lemma_count_true_disjoint(a.drop_last(), b.drop_last());
        if count_true(a) + count_true(b) == a.len() {
            assert(a.last() || b.last());
            assert forall|i: int| 0 <= i < a.len() implies a[i] || b[i] by {
                if i < a.len() - 1 {
                    assert(a.drop_last()[i] || b.drop_last()[i]);
                }
            }
        }
        if forall|i: int| 0 <= i < a.len() ==> a[i] || b[i] {
            assert(forall|i: int|
                0 <= i < a.len() - 1 ==> a.drop_last()[i] || b.drop_last()[i]);
        }
    }
}

/// A pointwise-smaller boolean sequence has no larger a count, and an equal
/// count forces pointwise equality.
pub proof fn lemma_count_true_subset(a: Seq<bool>, b: Seq<bool>)
    requires
        a.len() == b.len(),
        forall|i: int| 0 <= i < a.len() ==> (a[i] ==> b[i]),
    ensures
        count_true(a) <= count_true(b),
        count_true(a) == count_true(b) ==> forall|i: int| 0 <= i < a.len() ==> a[i] == b[i],
    decreases a.len(),
{
    if a.len() > 0 {
        assert(forall|i: int|
            0 <= i < a.len() - 1 ==> a.drop_last()[i] == a[i] && b.drop_last()[i] == b[i]);
        lemma_count_true_subset(a.drop_last(), b.drop_last());
        if count_true(a) == count_true(b) {
            assert(a.last() == b.last());
            assert forall|i: int| 0 <= i < a.len() implies a[i] == b[i] by {
                if i < a.len() - 1 {
                    assert(a.drop_last()[i] == b.drop_last()[i]);
                }
            }
        }
    }
}

/// The area of a grid of dimension at most `DIM_MAX` stays far within the
/// machine integer range.
pub proof fn lemma_dim_area(dim: int)
    requires
        0 <= dim <= DIM_MAX,
    ensures
        0 <= dim * dim <= 0x10_0000,
{
    assert(0 <= dim * dim <= 0x10_0000) by (nonlinear_arith)
        requires
            0 <= dim <= DIM_MAX,
    ;
}

/// Row-major index of cell `(x, y)` within a grid of dimension `dim`.
pub proof fn lemma_index_bound(x: int, y: int, dim: int)
    requires
        0 <= x < dim,
        0 <= y < dim,
    ensures
        0 <= y * dim + x < dim * dim,
{
    assert(y * dim + x < dim * dim && y * dim + x >= 0) by (nonlinear_arith)
        requires
            0 <= x < dim,
            0 <= y < dim,
    ;
}

/// Row-major cell indexing is injective.
pub proof fn lemma_index_inj(x1: int, y1: int, x2: int, y2: int, dim: int)
    requires
        0 <= x1 < dim,
        0 <= y1 < dim,
        0 <= x2 < dim,
        0 <= y2 < dim,
        y1 * dim + x1 == y2 * dim + x2,
    ensures
        x1 == x2,
        y1 == y2,
{
    assert(y1 == y2 && x1 == x2) by (nonlinear_arith)
        requires
            0 <= x1 < dim,
            0 <= y1 < dim,
            0 <= x2 < dim,
            0 <= y2 < dim,
            y1 * dim + x1 == y2 * dim + x2,
    ;
}

/// A set of grid cells over an N x N grid.
pub struct CellSet {
    /// Grid dimension N.
    pub dim: usize,
    /// Row-major membership bits, one per grid cell.
    pub cells: Vec<bool>,
    /// Cached number of member cells.
    pub count: usize,
}

impl CellSet {
    /// Structural invariant: the bit vector covers the grid exactly and the
    /// cached count matches it.
    pub open spec fn wf(&self) -> bool {
        &&& self.dim <= DIM_MAX
        &&& self.cells@.len() == self.dim * self.dim
        &&& self.count == count_true(self.cells@)
    }

    /// Membership of cell `(x, y)`; cells outside the grid are never members.
    pub open spec fn has(&self, x: int, y: int) -> bool {
        &&& 0 <= x < self.dim
        &&& 0 <= y < self.dim
        &&& self.cells@[y * self.dim + x]
    }

    /// The empty set of cells over a grid of dimension `dim`.
    pub fn new(dim: usize) -> (r: CellSet)
        requires
            dim <= DIM_MAX,
        ensures
            r.wf(),
            r.dim == dim,
            r.count == 0,
            forall|x: int, y: int| !r.has(x, y),
    {
        proof {
            assert(dim * dim <= DIM_MAX * DIM_MAX) by (nonlinear_arith)
                requires
                    dim <= DIM_MAX,
            ;
        }
        let area: usize = dim * dim;
        let mut cells: Vec<bool> = Vec::new();
        let mut i: usize = 0;
        while i < area
            invariant
                i <= area,
                cells@.len() == i,
                count_true(cells@) == 0,
                forall|j: int| 0 <= j < i ==> !cells@[j],
            decreases area - i,
        {
            proof {
                lemma_count_true_push(cells@, false);
            }
            cells.push(false);
            i = i + 1;
        }
        let r = CellSet { dim, cells, count: 0 };
        proof {
            assert(forall|x: int, y: int| !r.has(x, y)) by {
                assert forall|x: int, y: int| !r.has(x, y) by {
                    if 0 <= x < dim && 0 <= y < dim {
                        lemma_index_bound(x, y, dim as int);
                    }
                }
            }
        }
        r
    }

    /// Number of member cells.
    pub fn len(&self) -> (r: usize)
        requires
            self.wf(),
        ensures
            r == self.count,
            r == count_true(self.cells@),
    {
        self.count
    }

    /// Membership test for an in-bounds cell given by its coordinates.
    pub fn contains(&self, x: usize, y: usize) -> (r: bool)
        requires
            self.wf(),
            x < self.dim,
            y < self.dim,
        ensures
            r == self.has(x as int, y as int),
    {
        proof {
            lemma_dim_area(self.dim as int);
            lemma_index_bound(x as int, y as int, self.dim as int);
        }
        self.cells[y * self.dim + x]
    }

    /// Membership test for an arbitrary coordinate; out-of-bounds coordinates
    /// are never members.
    pub fn contains_v2(&self, v: Vec2) -> (r: bool)
        requires
            self.wf(),
        ensures
            r == self.has(v.x as int, v.y as int),
    {
        if v.x >= 0 && (v.x as usize) < self.dim && v.y >= 0 && (v.y as usize) < self.dim {
            self.contains(v.x as usize, v.y as usize)
        } else {
            false
        }
    }

    /// Add the in-bounds cell `(x, y)` to the set.
    pub fn insert(&mut self, x: usize, y: usize)
        requires
            old(self).wf(),
            x < old(self).dim,
            y < old(self).dim,
        ensures
            final(self).wf(),
            final(self).dim == old(self).dim,
            final(self).cells@ == old(self).cells@.update(y * old(self).dim + x, true),
            forall|a: int, b: int|
                final(self).has(a, b) == (old(self).has(a, b) || (a == x && b == y)),
            final(self).count == old(self).count + (if old(self).has(x as int, y as int) {
                0int
            } else {
                1int
            }),
            old(self).has(x as int, y as int) ==> final(self).cells@ == old(self).cells@,
    {
        proof {
            lemma_dim_area(self.dim as int);
            lemma_index_bound(x as int, y as int, self.dim as int);
        }
        let idx: usize = y * self.dim + x;
        let was: bool = self.cells[idx];
        proof {
            lemma_count_true_update(self.cells@, idx as int, true);
            if was {
                lemma_count_true_le_len(self.cells@);
            } else {
                lemma_count_true_below(self.cells@, idx as int);
            }
        }
        self.cells.set(idx, true);
        if !was {
            self.count = self.count + 1;
        }
        proof {
            let ghost d = self.dim as int;
            assert forall|a: int, b: int|
                self.has(a, b) == (old(self).has(a, b) || (a == x && b == y)) by {
                if 0 <= a < d && 0 <= b < d {
                    lemma_index_bound(a, b, d);
                    if b * d + a == idx as int {
                        lemma_index_inj(a, b, x as int, y as int, d);
                    }
                }
            }
            if was {
                assert(self.cells@ =~= old(self).cells@);
            }
        }
    }

    /// An independent copy of the set.
    pub fn duplicate(&self) -> (r: CellSet)
        ensures
            r.dim == self.dim,
            r.count == self.count,
            r.cells@ == self.cells@,
    {
        let cells2 = self.cells.clone();
        proof {
            assert(cells2@ =~= self.cells@);
        }
        CellSet { dim: self.dim, cells: cells2, count: self.count }
    }

    /// A subset has no larger a count; with equal counts the sets agree.
    pub proof fn lemma_subset_counts(&self, other: &CellSet)
        requires
            self.wf(),
            other.wf(),
            self.dim == other.dim,
            forall|x: int, y: int| self.has(x, y) ==> other.has(x, y),
        ensures
            self.count <= other.count,
            self.count == other.count ==> forall|x: int, y: int|
                self.has(x, y) == other.has(x, y),
    {
        let a = self.cells@;
        let b = other.cells@;
        let d = self.dim as int;
        assert(d > 0 || a.len() == 0) by {
            if d == 0 {
                assert(d * d == 0) by (nonlinear_arith)
                    requires
                        d == 0,
                ;
            }
        }
        assert forall|i: int| 0 <= i < a.len() && a[i] implies b[i] by {
            let y = i / d;
            let x = i % d;
            assert(0 <= x < d && 0 <= y < d && y * d + x == i) by (nonlinear_arith)
                requires
                    0 <= i < d * d,
                    d > 0,
                    x == i % d,
                    y == i / d,
            ;
            assert(self.has(x, y) ==> other.has(x, y));
        }
        lemma_count_true_subset(a, b);
        if self.count == other.count {
            assert forall|x: int, y: int| self.has(x, y) == other.has(x, y) by {
                if 0 <= x < d && 0 <= y < d {
                    lemma_index_bound(x, y, d);
                    assert(a[y * d + x] == b[y * d + x]);
                }
            }
        }
    }


    /// First member in row-major scan order, if any.
    pub fn first_member(&self) -> (r: Option<(usize, usize)>)
        requires
            self.wf(),
        ensures
            r matches Some(c) ==> c.0 < self.dim && c.1 < self.dim && self.has(
                c.0 as int,
                c.1 as int,
            ),
            r is None ==> forall|x: int, y: int| !self.has(x, y),
    {
        let dim = self.dim;
        let mut y: usize = 0;
        while y < dim
            invariant
                self.wf(),
                self.dim == dim,
                y <= dim,
                forall|a: int, b: int| 0 <= b < y ==> !self.has(a, b),
            decreases dim - y,
        {
            let mut x: usize = 0;
            while x < dim
                invariant
                    self.wf(),
                    self.dim == dim,
                    y < dim,
                    x <= dim,
                    forall|a: int, b: int| 0 <= b < y ==> !self.has(a, b),
                    forall|a: int| 0 <= a < x ==> !self.has(a, y as int),
                decreases dim - x,
            {
                if self.contains(x, y) {
                    return Some((x, y));
                }
                x = x + 1;
            }
            y = y + 1;
        }
        proof {
            assert forall|x: int, y: int| !self.has(x, y) by {
                if 0 <= y < dim {
                }
            }
        }
        None
    }

    /// A member lying on the grid border, if any.
    pub fn first_border_member(&self) -> (r: Option<(usize, usize)>)
        requires
            self.wf(),
        ensures
            r matches Some(c) ==> c.0 < self.dim && c.1 < self.dim && self.has(
                c.0 as int,
                c.1 as int,
            ) && on_border(self.dim as int, c.0 as int, c.1 as int),
            r is None ==> forall|x: int, y: int|
                #![trigger self.has(x, y)]
                self.has(x, y) ==> !on_border(self.dim as int, x, y),
    {
        let dim = self.dim;
        let mut y: usize = 0;
        while y < dim
            invariant
                self.wf(),
                self.dim == dim,
                y <= dim,
                forall|a: int, b: int|
                    #![trigger self.has(a, b)]
                    0 <= b < y && self.has(a, b) ==> !on_border(dim as int, a, b),
            decreases dim - y,
        {
            let mut x: usize = 0;
            while x < dim
                invariant
                    self.wf(),
                    self.dim == dim,
                    y < dim,
                    x <= dim,
                    forall|a: int, b: int|
                        #![trigger self.has(a, b)]
                        0 <= b < y && self.has(a, b) ==> !on_border(dim as int, a, b),
                    forall|a: int|
                        #![trigger self.has(a, y as int)]
                        0 <= a < x && self.has(a, y as int) ==> !on_border(dim as int, a, y as int),
                decreases dim - x,
            {
                if (x == 0 || y == 0 || x == dim - 1 || y == dim - 1) && self.contains(x, y) {
                    return Some((x, y));
                }
                x = x + 1;
            }
            y = y + 1;
        }
        None
    }


    /// True when the two sets share a member.
    pub fn intersects(&self, other: &CellSet) -> (r: bool)
        requires
            self.wf(),
            other.wf(),
            self.dim == other.dim,
        ensures
            r == !self.disjoint_with(other),
    {
        let dim = self.dim;
        let mut y: usize = 0;
        while y < dim
            invariant
                self.wf(),
                other.wf(),
                self.dim == other.dim,
                self.dim == dim,
                y <= dim,
                forall|a: int, b: int| 0 <= b < y ==> !(self.has(a, b) && other.has(a, b)),
            decreases dim - y,
        {
            let mut x: usize = 0;
            while x < dim
                invariant
                    self.wf(),
                    other.wf(),
                    self.dim == other.dim,
                    self.dim == dim,
                    y < dim,
                    x <= dim,
                    forall|a: int, b: int| 0 <= b < y ==> !(self.has(a, b) && other.has(a, b)),
                    forall|a: int| 0 <= a < x ==> !(self.has(a, y as int) && other.has(a, y as int)),
                decreases dim - x,
            {
                if self.contains(x, y) && other.contains(x, y) {
                    return true;
                }
                x = x + 1;
            }
            y = y + 1;
        }
        proof {
            assert forall|a: int, b: int| !(self.has(a, b) && other.has(a, b)) by {
                if 0 <= b < dim {
                }
            }
        }
        false
    }

    /// Add every member of `other` to this set.
    pub fn union_with(&mut self, other: &CellSet)
        requires
            old(self).wf(),
            other.wf(),
            old(self).dim == other.dim,
        ensures
            final(self).wf(),
            final(self).dim == old(self).dim,
            forall|x: int, y: int|
                #![trigger final(self).has(x, y)]
                final(self).has(x, y) == (old(self).has(x, y) || other.has(x, y)),
            final(self).count >= old(self).count,
            (forall|x: int, y: int| !other.has(x, y)) ==> *final(self) == *old(self),
            final(self).count == old(self).count ==> *final(self) == *old(self) && (forall|
                x: int,
                y: int,
            |
                #![trigger other.has(x, y)]
                other.has(x, y) ==> old(self).has(x, y)),
    {
        let ghost self0 = *self;
        let dim = self.dim;
        let mut y: usize = 0;
        while y < dim
            invariant
                self.wf(),
                other.wf(),
                self.dim == other.dim,
                self.dim == dim,
                y <= dim,
                self.count >= self0.count,
                forall|a: int, b: int|
                    #![trigger self.has(a, b)]
                    self.has(a, b) == (self0.has(a, b) || (other.has(a, b) && b < y)),
                (forall|x: int, y: int| !other.has(x, y)) ==> *self == self0,
                self.count == self0.count ==> *self == self0 && (forall|a: int, b: int|
                    #![trigger other.has(a, b)]
                    0 <= b < y && other.has(a, b) ==> self0.has(a, b)),
            decreases dim - y,
        {
            let mut x: usize = 0;
            while x < dim
                invariant
                    self.wf(),
                    other.wf(),
                    self.dim == other.dim,
                    self.dim == dim,
                    y < dim,
                    x <= dim,
                    self.count >= self0.count,
                    forall|a: int, b: int|
                        #![trigger self.has(a, b)]
                        self.has(a, b) == (self0.has(a, b) || (other.has(a, b) && (b < y || (b
                            == y && a < x)))),
                    (forall|x: int, y: int| !other.has(x, y)) ==> *self == self0,
                    self.count == self0.count ==> *self == self0 && (forall|a: int, b: int|
                        #![trigger other.has(a, b)]
                        ((0 <= b < y) || (b == y && 0 <= a < x)) && other.has(a, b)
                            ==> self0.has(a, b)),
                decreases dim - x,
            {
                if other.contains(x, y) && !self.contains(x, y) {
                    self.insert(x, y);
                }
                x = x + 1;
            }
            y = y + 1;
        }
        proof {
            if self.count == self0.count {
                assert forall|a: int, b: int|
                    #![trigger other.has(a, b)]
                    other.has(a, b) implies self0.has(a, b) by {
                    assert(0 <= b < dim);
                }
            }
        }
    }

    /// The two sets assign no cell twice.
    pub open spec fn disjoint_with(&self, other: &CellSet) -> bool {
        forall|x: int, y: int| !(self.has(x, y) && other.has(x, y))
    }

    /// Together with a disjoint partner of the same dimension, every grid
    /// cell is covered exactly once when the counts sum to the full area.
    pub proof fn lemma_partition_counts(&self, other: &CellSet)
        requires
            self.wf(),
            other.wf(),
            self.dim == other.dim,
            self.disjoint_with(other),
        ensures
            self.count + other.count <= self.dim * self.dim,
            (self.count + other.count == self.dim * self.dim) <==> (forall|x: int, y: int|
                0 <= x < self.dim && 0 <= y < self.dim ==> self.has(x, y) || other.has(x, y)),
    {
        let a = self.cells@;
        let b = other.cells@;
        let d = self.dim as int;
        assert forall|i: int| 0 <= i < a.len() implies !(a[i] && b[i]) by {
            let y = i / d;
            let x = i % d;
            assert(d > 0) by {
                assert(a.len() == d * d);
                if d == 0 {
                    assert(d * d == 0) by (nonlinear_arith)
                        requires
                            d == 0,
                    ;
                }
            }
            assert(0 <= x < d && 0 <= y < d && y * d + x == i) by (nonlinear_arith)
                requires
                    0 <= i < d * d,
                    d > 0,
                    x == i % d,
                    y == i / d,
            ;
            assert(!(self.has(x, y) && other.has(x, y)));
        }
        lemma_count_true_disjoint(a, b);
        lemma_count_true_partition(a, b);
        if count_true(a) + count_true(b) == a.len() {
            assert forall|x: int, y: int|
                0 <= x < d && 0 <= y < d implies self.has(x, y) || other.has(x, y) by {
                lemma_index_bound(x, y, d);
                assert(a[y * d + x] || b[y * d + x]);
            }
        }
        if forall|x: int, y: int|
            0 <= x < d && 0 <= y < d ==> self.has(x, y) || other.has(x, y) {
            assert forall|i: int| 0 <= i < a.len() implies a[i] || b[i] by {
                let y = i / d;
                let x = i % d;
                assert(0 <= x < d && 0 <= y < d && y * d + x == i) by (nonlinear_arith)
                    requires
                        0 <= i < d * d,
                        d > 0,
                        x == i % d,
                        y == i / d,
                ;
                assert(self.has(x, y) || other.has(x, y));
            }
        }
    }
}

} // verus!
