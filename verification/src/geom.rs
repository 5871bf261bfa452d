//! Plane and space geometry: grid coordinates, 3D coordinates, 90-degree
//! rotations about the principal axes, the six faces of a box and the
//! face-pairing (opposite) table.

use vstd::prelude::*;

verus! {

/// Direction bit for north (towards smaller y).
pub const NORTH: usize = 1;
/// Direction bit for east (towards larger x).
pub const EAST: usize = 2;
/// Direction bit for south (towards larger y).
pub const SOUTH: usize = 4;
/// Direction bit for west (towards smaller x).
pub const WEST: usize = 8;

/// Largest grid dimension the solver accepts; keeps all index and coordinate
/// arithmetic comfortably inside machine integer ranges.
pub const DIM_MAX: usize = 1024;

/// The six faces of a box, laid out as an unfolded cross:
/// ```text
///   |A|
/// |C|B|E|D|
///   |F|
/// ```
#[derive(Debug, Copy, Clone, Hash, PartialEq, Eq, Structural)]
pub enum BoxFaceType {
    A,
    B,
    C,
    D,
    E,
    F,
}

/// Axes of rotation for rotating vectors in 3D.
#[derive(Debug, Copy, Clone, PartialEq, Eq, Structural)]
pub enum RotationAxis {
    AboutX,
    AboutY,
    AboutZ,
}

/// Directions of rotation for rotating vectors in 3D.
#[derive(Debug, Copy, Clone, PartialEq, Eq, Structural)]
pub enum RotationDirection {
    Positive,
    Negative,
}

/// 2D vector for representing grid cell positions and directions.
#[derive(Debug, Copy, Clone, Hash, PartialEq, Eq, Structural)]
pub struct Vec2 {
    pub x: isize,
    pub y: isize,
}

/// 3D vector for representing box cell positions and directions.
#[derive(Debug, Copy, Clone, Hash, PartialEq, Eq, Structural)]
pub struct Vec3 {
    pub x: isize,
    pub y: isize,
    pub z: isize,
}

/// The face lying opposite the given face on the box.
pub open spec fn spec_opposite(f: BoxFaceType) -> BoxFaceType {
    match f {
        BoxFaceType::A => BoxFaceType::F,
        BoxFaceType::B => BoxFaceType::D,
        BoxFaceType::C => BoxFaceType::E,
        BoxFaceType::D => BoxFaceType::B,
        BoxFaceType::E => BoxFaceType::C,
        BoxFaceType::F => BoxFaceType::A,
    }
}

/// The face lying opposite the given face on the box.
#[verifier::when_used_as_spec(spec_opposite)]
pub fn opposite(f: BoxFaceType) -> (r: BoxFaceType)
    ensures
        r == spec_opposite(f),
{
    match f {
        BoxFaceType::A => BoxFaceType::F,
        BoxFaceType::B => BoxFaceType::D,
        BoxFaceType::C => BoxFaceType::E,
        BoxFaceType::D => BoxFaceType::B,
        BoxFaceType::E => BoxFaceType::C,
        BoxFaceType::F => BoxFaceType::A,
    }
}

/// The face-pairing table is an involution: taking the opposite of an
/// opposite face returns the original face, for all six faces.
pub proof fn lemma_opposite_involution(f: BoxFaceType)
    ensures
        spec_opposite(spec_opposite(f)) == f,
{
}

/// `(x, y)` lies on the outermost ring of a grid of dimension `dim`.
pub open spec fn on_border(dim: int, x: int, y: int) -> bool {
    x == 0 || y == 0 || x == dim - 1 || y == dim - 1
}

/// True when `dir` is one of the four direction bits.
pub open spec fn is_dir(dir: usize) -> bool {
    dir == NORTH || dir == EAST || dir == SOUTH || dir == WEST
}

/// Horizontal component of a unit step in direction `dir`.
pub open spec fn dir_dx(dir: usize) -> int {
    if dir == EAST {
        1
    } else if dir == WEST {
        -1
    } else {
        0
    }
}

/// Vertical component of a unit step in direction `dir`.
pub open spec fn dir_dy(dir: usize) -> int {
    if dir == NORTH {
        -1
    } else if dir == SOUTH {
        1
    } else {
        0
    }
}

/// Unit step vector for the direction bit `dir`.
pub fn dir_delta(dir: usize) -> (r: Vec2)
    requires
        is_dir(dir),
    ensures
        r.x == dir_dx(dir),
        r.y == dir_dy(dir),
{
    if dir == NORTH {
        Vec2 { x: 0, y: -1 }
    } else if dir == EAST {
        Vec2 { x: 1, y: 0 }
    } else if dir == SOUTH {
        Vec2 { x: 0, y: 1 }
    } else {
        Vec2 { x: -1, y: 0 }
    }
}

/// The four direction bits in scan order.
pub fn dir_list() -> (r: Vec<usize>)
    ensures
        r@.len() == 4,
        r@[0] == NORTH,
        r@[1] == EAST,
        r@[2] == SOUTH,
        r@[3] == WEST,
{
    let mut v: Vec<usize> = Vec::new();
    v.push(NORTH);
    v.push(EAST);
    v.push(SOUTH);
    v.push(WEST);
    v
}

/// Direction bit pointing back along `dir`.
pub open spec fn spec_inverse_dir(dir: usize) -> usize {
    if dir == NORTH {
        SOUTH
    } else if dir == SOUTH {
        NORTH
    } else if dir == EAST {
        WEST
    } else {
        EAST
    }
}

/// Direction bit pointing back along `dir`.
#[verifier::when_used_as_spec(spec_inverse_dir)]
pub fn inverse_dir(dir: usize) -> (r: usize)
    requires
        is_dir(dir),
    ensures
        r == spec_inverse_dir(dir),
{
    if dir == NORTH {
        SOUTH
    } else if dir == SOUTH {
        NORTH
    } else if dir == EAST {
        WEST
    } else {
        EAST
    }
}

/// Horizontal offset of neighborhood slot `i` (row-major over the 3x3 block
/// centered on a number clue).
pub open spec fn num_dx(i: int) -> int {
    if i == 0 || i == 3 || i == 6 {
        -1
    } else if i == 1 || i == 4 || i == 7 {
        0
    } else {
        1
    }
}

/// Vertical offset of neighborhood slot `i`.
pub open spec fn num_dy(i: int) -> int {
    if 0 <= i < 3 {
        -1
    } else if 3 <= i < 6 {
        0
    } else {
        1
    }
}

/// Offset of neighborhood slot `i` about a number cell, in row-major order.
pub fn num_delta(i: usize) -> (r: Vec2)
    requires
        i < 9,
    ensures
        r.x == num_dx(i as int),
        r.y == num_dy(i as int),
{
    let dx: isize = if i == 0 || i == 3 || i == 6 {
        -1
    } else if i == 1 || i == 4 || i == 7 {
        0
    } else {
        1
    };
    let dy: isize = if i < 3 {
        -1
    } else if i < 6 {
        0
    } else {
        1
    };
    Vec2 { x: dx, y: dy }
}

impl Vec2 {
    pub fn new(x: isize, y: isize) -> (r: Vec2)
        ensures
            r.x == x,
            r.y == y,
    {
        Vec2 { x, y }
    }

    pub fn newu(x: usize, y: usize) -> (r: Vec2)
        requires
            x <= 0x4000_0000,
            y <= 0x4000_0000,
        ensures
            r.x == x,
            r.y == y,
    {
        Vec2 { x: x as isize, y: y as isize }
    }

    /// True when the coordinate lies within a grid of the given `dim`.
    pub open spec fn spec_in_bounds(self, dim: usize) -> bool {
        0 <= self.x < dim && 0 <= self.y < dim
    }

    /// Returns true if the coordinate is within a grid of the given `dim`.
    #[verifier::when_used_as_spec(spec_in_bounds)]
    pub fn in_bounds(self, dim: usize) -> (r: bool)
        requires
            dim <= DIM_MAX,
        ensures
            r == self.spec_in_bounds(dim),
    {
        self.x >= 0 && (self.x as usize) < dim && self.y >= 0 && (self.y as usize) < dim
    }

    /// Componentwise sum.
    pub fn plus(self, rhs: Vec2) -> (r: Vec2)
        requires
            -0x4000_0000 <= self.x + rhs.x <= 0x4000_0000,
            -0x4000_0000 <= self.y + rhs.y <= 0x4000_0000,
        ensures
            r.x == self.x + rhs.x,
            r.y == self.y + rhs.y,
    {
        Vec2 { x: self.x + rhs.x, y: self.y + rhs.y }
    }

    /// The vector scaled by `k`; meant for unit direction vectors.
    pub fn scaled(self, k: isize) -> (r: Vec2)
        requires
            -1 <= self.x <= 1,
            -1 <= self.y <= 1,
            -0x4000_0000 <= k <= 0x4000_0000,
        ensures
            r.x == self.x * k,
            r.y == self.y * k,
    {
        proof {
            assert(self.x * k == if self.x == 1 {
                k as int
            } else if self.x == -1 {
                -(k as int)
            } else {
                0int
            }) by (nonlinear_arith)
                requires
                    -1 <= self.x <= 1,
            ;
            assert(self.y * k == if self.y == 1 {
                k as int
            } else if self.y == -1 {
                -(k as int)
            } else {
                0int
            }) by (nonlinear_arith)
                requires
                    -1 <= self.y <= 1,
            ;
        }
        Vec2 { x: self.x * k, y: self.y * k }
    }
}

impl Vec3 {
    pub fn new(x: isize, y: isize, z: isize) -> (r: Vec3)
        ensures
            r.x == x,
            r.y == y,
            r.z == z,
    {
        Vec3 { x, y, z }
    }

    pub fn newu(x: usize, y: usize, z: usize) -> (r: Vec3)
        requires
            x <= 0x4000_0000,
            y <= 0x4000_0000,
            z <= 0x4000_0000,
        ensures
            r.x == x,
            r.y == y,
            r.z == z,
    {
        Vec3 { x: x as isize, y: y as isize, z: z as isize }
    }

    /// True when the coordinate lies within a box of the given dimensions.
    pub open spec fn spec_in_bounds(&self, dim_x: usize, dim_y: usize, dim_z: usize) -> bool {
        0 <= self.x < dim_x && 0 <= self.y < dim_y && 0 <= self.z < dim_z
    }

    /// Returns true if the coordinate is within a box of the given dimensions.
    #[verifier::when_used_as_spec(spec_in_bounds)]
    pub fn in_bounds(&self, dim_x: usize, dim_y: usize, dim_z: usize) -> (r: bool)
        requires
            dim_x <= DIM_MAX,
            dim_y <= DIM_MAX,
            dim_z <= DIM_MAX,
        ensures
            r == self.spec_in_bounds(dim_x, dim_y, dim_z),
    {
        self.x >= 0 && (self.x as usize) < dim_x && self.y >= 0 && (self.y as usize) < dim_y
            && self.z >= 0 && (self.z as usize) < dim_z
    }

    /// Componentwise sum.
    pub fn plus(self, rhs: Vec3) -> (r: Vec3)
        requires
            -0x4000_0000 <= self.x + rhs.x <= 0x4000_0000,
            -0x4000_0000 <= self.y + rhs.y <= 0x4000_0000,
            -0x4000_0000 <= self.z + rhs.z <= 0x4000_0000,
        ensures
            r.x == self.x + rhs.x,
            r.y == self.y + rhs.y,
            r.z == self.z + rhs.z,
    {
        Vec3 { x: self.x + rhs.x, y: self.y + rhs.y, z: self.z + rhs.z }
    }

    /// The vector scaled by `k`; meant for unit basis vectors.
    pub fn scaled(self, k: isize) -> (r: Vec3)
        requires
            -1 <= self.x <= 1,
            -1 <= self.y <= 1,
            -1 <= self.z <= 1,
            -0x4000_0000 <= k <= 0x4000_0000,
        ensures
            r.x == self.x * k,
            r.y == self.y * k,
            r.z == self.z * k,
    {
        proof {
            assert(self.x * k == if self.x == 1 {
                k as int
            } else if self.x == -1 {
                -(k as int)
            } else {
                0int
            }) by (nonlinear_arith)
                requires
                    -1 <= self.x <= 1,
            ;
            assert(self.y * k == if self.y == 1 {
                k as int
            } else if self.y == -1 {
                -(k as int)
            } else {
                0int
            }) by (nonlinear_arith)
                requires
                    -1 <= self.y <= 1,
            ;
            assert(self.z * k == if self.z == 1 {
                k as int
            } else if self.z == -1 {
                -(k as int)
            } else {
                0int
            }) by (nonlinear_arith)
                requires
                    -1 <= self.z <= 1,
            ;
        }
        Vec3 { x: self.x * k, y: self.y * k, z: self.z * k }
    }
}

/// Rotation of `v` by 90 degrees about the given `axis` in the given
/// `direction`; the sine of the angle is +1 or -1 and the cosine is 0.
pub open spec fn spec_rot(v: Vec3, axis: RotationAxis, direction: RotationDirection) -> Vec3 {
    let pos = direction == RotationDirection::Positive;
    match axis {
        RotationAxis::AboutX => Vec3 {
            x: v.x,
            y: if pos { (-v.z) as isize } else { v.z },
            z: if pos { v.y } else { (-v.y) as isize },
        },
        RotationAxis::AboutY => Vec3 {
            x: if pos { v.z } else { (-v.z) as isize },
            y: v.y,
            z: if pos { (-v.x) as isize } else { v.x },
        },
        RotationAxis::AboutZ => Vec3 {
            x: if pos { (-v.y) as isize } else { v.y },
            y: if pos { v.x } else { (-v.x) as isize },
            z: v.z,
        },
    }
}

impl Vec3 {
    /// Return a rotation of `self` about the given `axis` and in the given
    /// `direction`.
    pub fn rot(&self, axis: RotationAxis, direction: RotationDirection) -> (r: Vec3)
        requires
            -0x4000_0000 <= self.x <= 0x4000_0000,
            -0x4000_0000 <= self.y <= 0x4000_0000,
            -0x4000_0000 <= self.z <= 0x4000_0000,
        ensures
            r == spec_rot(*self, axis, direction),
    {
        match axis {
            RotationAxis::AboutX => self.rot_x(direction),
            RotationAxis::AboutY => self.rot_y(direction),
            RotationAxis::AboutZ => self.rot_z(direction),
        }
    }

    /// Rotation of `self` by 90 degrees positive or negative about the x axis.
    fn rot_x(&self, rotation: RotationDirection) -> (r: Vec3)
        requires
            -0x4000_0000 <= self.y <= 0x4000_0000,
            -0x4000_0000 <= self.z <= 0x4000_0000,
        ensures
            r == spec_rot(*self, RotationAxis::AboutX, rotation),
    {
        let sin: isize = match rotation {
            RotationDirection::Positive => 1,
            RotationDirection::Negative => -1,
        };
        Vec3 { x: self.x, y: if sin == 1 { -self.z } else { self.z }, z: if sin == 1 { self.y } else { -self.y } }
    }

    /// Rotation of `self` by 90 degrees positive or negative about the y axis.
    fn rot_y(&self, rotation: RotationDirection) -> (r: Vec3)
        requires
            -0x4000_0000 <= self.x <= 0x4000_0000,
            -0x4000_0000 <= self.z <= 0x4000_0000,
        ensures
            r == spec_rot(*self, RotationAxis::AboutY, rotation),
    {
        let sin: isize = match rotation {
            RotationDirection::Positive => 1,
            RotationDirection::Negative => -1,
        };
        Vec3 { x: if sin == 1 { self.z } else { -self.z }, y: self.y, z: if sin == 1 { -self.x } else { self.x } }
    }

    /// Rotation of `self` by 90 degrees positive or negative about the z axis.
    fn rot_z(&self, rotation: RotationDirection) -> (r: Vec3)
        requires
            -0x4000_0000 <= self.x <= 0x4000_0000,
            -0x4000_0000 <= self.y <= 0x4000_0000,
        ensures
            r == spec_rot(*self, RotationAxis::AboutZ, rotation),
    {
        let sin: isize = match rotation {
            RotationDirection::Positive => 1,
            RotationDirection::Negative => -1,
        };
        Vec3 { x: if sin == 1 { -self.y } else { self.y }, y: if sin == 1 { self.x } else { -self.x }, z: self.z }
    }
}

/// The single-axis rotation taking `v` to `dest`, searched in the fixed order
/// x, y, z and positive before negative, or `None` when no single 90-degree
/// principal rotation matches.
pub open spec fn spec_rotation_to(v: Vec3, dest: Vec3) -> Option<(RotationAxis, RotationDirection)> {
    if spec_rot(v, RotationAxis::AboutX, RotationDirection::Positive) == dest {
        Some((RotationAxis::AboutX, RotationDirection::Positive))
    } else if spec_rot(v, RotationAxis::AboutX, RotationDirection::Negative) == dest {
        Some((RotationAxis::AboutX, RotationDirection::Negative))
    } else if spec_rot(v, RotationAxis::AboutY, RotationDirection::Positive) == dest {
        Some((RotationAxis::AboutY, RotationDirection::Positive))
    } else if spec_rot(v, RotationAxis::AboutY, RotationDirection::Negative) == dest {
        Some((RotationAxis::AboutY, RotationDirection::Negative))
    } else if spec_rot(v, RotationAxis::AboutZ, RotationDirection::Positive) == dest {
        Some((RotationAxis::AboutZ, RotationDirection::Positive))
    } else if spec_rot(v, RotationAxis::AboutZ, RotationDirection::Negative) == dest {
        Some((RotationAxis::AboutZ, RotationDirection::Negative))
    } else {
        None
    }
}

impl Vec3 {
    /// Determine the axis and direction of a single rotation by 90 degrees
    /// about one primary axis such that `self` would match `dest` if possible.
    pub fn rotation_to(&self, dest: Vec3) -> (r: Option<(RotationAxis, RotationDirection)>)
        requires
            -0x4000_0000 <= self.x <= 0x4000_0000,
            -0x4000_0000 <= self.y <= 0x4000_0000,
            -0x4000_0000 <= self.z <= 0x4000_0000,
        ensures
            r == spec_rotation_to(*self, dest),
            r matches Some((axis, direction)) ==> spec_rot(*self, axis, direction) == dest,
            r is None ==> forall|a: RotationAxis, d: RotationDirection| spec_rot(*self, a, d) != dest,
    {
        let r1 = self.rot(RotationAxis::AboutX, RotationDirection::Positive);
        if r1.x == dest.x && r1.y == dest.y && r1.z == dest.z {
            return Some((RotationAxis::AboutX, RotationDirection::Positive));
        }
        let r2 = self.rot(RotationAxis::AboutX, RotationDirection::Negative);
        if r2.x == dest.x && r2.y == dest.y && r2.z == dest.z {
            return Some((RotationAxis::AboutX, RotationDirection::Negative));
        }
        let r3 = self.rot(RotationAxis::AboutY, RotationDirection::Positive);
        if r3.x == dest.x && r3.y == dest.y && r3.z == dest.z {
            return Some((RotationAxis::AboutY, RotationDirection::Positive));
        }
        let r4 = self.rot(RotationAxis::AboutY, RotationDirection::Negative);
        if r4.x == dest.x && r4.y == dest.y && r4.z == dest.z {
            return Some((RotationAxis::AboutY, RotationDirection::Negative));
        }
        let r5 = self.rot(RotationAxis::AboutZ, RotationDirection::Positive);
        if r5.x == dest.x && r5.y == dest.y && r5.z == dest.z {
            return Some((RotationAxis::AboutZ, RotationDirection::Positive));
        }
        let r6 = self.rot(RotationAxis::AboutZ, RotationDirection::Negative);
        if r6.x == dest.x && r6.y == dest.y && r6.z == dest.z {
            return Some((RotationAxis::AboutZ, RotationDirection::Negative));
        }
        proof {
            assert forall|a: RotationAxis, d: RotationDirection| spec_rot(*self, a, d) != dest by {
                match (a, d) {
                    (RotationAxis::AboutX, RotationDirection::Positive) => assert(spec_rot(*self, a, d) != dest),
                    (RotationAxis::AboutX, RotationDirection::Negative) => assert(spec_rot(*self, a, d) != dest),
                    (RotationAxis::AboutY, RotationDirection::Positive) => assert(spec_rot(*self, a, d) != dest),
                    (RotationAxis::AboutY, RotationDirection::Negative) => assert(spec_rot(*self, a, d) != dest),
                    (RotationAxis::AboutZ, RotationDirection::Positive) => assert(spec_rot(*self, a, d) != dest),
                    (RotationAxis::AboutZ, RotationDirection::Negative) => assert(spec_rot(*self, a, d) != dest),
                }
            }
        }
        None
    }
}

} // verus!
