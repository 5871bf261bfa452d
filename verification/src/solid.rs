//! The box solid: six named faces with their local bases and outward
//! normals, and the traversal of one grid step across the solid's surface,
//! rotating the local frame when an edge is crossed.

use vstd::prelude::*;
use crate::geom::{Vec3, BoxFaceType, RotationAxis, RotationDirection, spec_rot, spec_rotation_to,
    dir_dx, dir_dy, dir_delta, is_dir, DIM_MAX};

verus! {

/// Structure for storing a 3D position and box face representing a cell on
/// the surface of a box.
#[derive(Debug, Copy, Clone, Hash, PartialEq, Eq, Structural)]
pub struct BoxFaceCoord {
    /// Position, clamped to the face's plane.
    pub coord: Vec3,
    /// The face the cell lies on.
    pub face: BoxFaceType,
}

/// Structure for storing spatial information about a face of a box.
#[derive(Debug, Copy, Clone, PartialEq, Eq, Structural)]
pub struct BoxFace {
    /// Which of the six faces this is.
    pub face: BoxFaceType,
    /// First basis vector of the face's local plane.
    pub vec_a: Vec3,
    /// Second basis vector of the face's local plane.
    pub vec_b: Vec3,
    /// Outward normal of the face.
    pub vec_normal: Vec3,
}

/// Outward normal of each face.
pub open spec fn face_normal(f: BoxFaceType) -> Vec3 {
    match f {
        BoxFaceType::A => Vec3 { x: 0, y: 0, z: -1 as isize },
        BoxFaceType::B => Vec3 { x: 0, y: 1, z: 0 },
        BoxFaceType::C => Vec3 { x: -1 as isize, y: 0, z: 0 },
        BoxFaceType::D => Vec3 { x: 0, y: -1 as isize, z: 0 },
        BoxFaceType::E => Vec3 { x: 1, y: 0, z: 0 },
        BoxFaceType::F => Vec3 { x: 0, y: 0, z: 1 },
    }
}

/// The fixed spatial data of each face: local basis and outward normal.
pub open spec fn canonical_face(f: BoxFaceType) -> BoxFace {
    match f {
        BoxFaceType::A => BoxFace {
            face: f,
            vec_a: Vec3 { x: 1, y: 0, z: 0 },
            vec_b: Vec3 { x: 0, y: 1, z: 0 },
            vec_normal: face_normal(f),
        },
        BoxFaceType::B => BoxFace {
            face: f,
            vec_a: Vec3 { x: 1, y: 0, z: 0 },
            vec_b: Vec3 { x: 0, y: 0, z: 1 },
            vec_normal: face_normal(f),
        },
        BoxFaceType::C => BoxFace {
            face: f,
            vec_a: Vec3 { x: 0, y: 1, z: 0 },
            vec_b: Vec3 { x: 0, y: 0, z: 1 },
            vec_normal: face_normal(f),
        },
        BoxFaceType::D => BoxFace {
            face: f,
            vec_a: Vec3 { x: 1, y: 0, z: 0 },
            vec_b: Vec3 { x: 0, y: 0, z: 1 },
            vec_normal: face_normal(f),
        },
        BoxFaceType::E => BoxFace {
            face: f,
            vec_a: Vec3 { x: 0, y: 1, z: 0 },
            vec_b: Vec3 { x: 0, y: 0, z: 1 },
            vec_normal: face_normal(f),
        },
        BoxFaceType::F => BoxFace {
            face: f,
            vec_a: Vec3 { x: 1, y: 0, z: 0 },
            vec_b: Vec3 { x: 0, y: 1, z: 0 },
            vec_normal: face_normal(f),
        },
    }
}

/// Index of each face in the solid's face list.
pub open spec fn face_index(f: BoxFaceType) -> int {
    match f {
        BoxFaceType::A => 0,
        BoxFaceType::B => 1,
        BoxFaceType::C => 2,
        BoxFaceType::D => 3,
        BoxFaceType::E => 4,
        BoxFaceType::F => 5,
    }
}

/// Ways a single step across the surface can fail to resolve.
#[derive(Debug, Copy, Clone, PartialEq, Eq, Structural)]
pub enum TraverseError {
    /// No single 90-degree principal rotation maps the old face's normal to
    /// the new one.
    NoRotation,
    /// The step leaves the face in a way that matches no adjacent face.
    NoFace,
}

/// Structure for storing a box of given dimensions.
pub struct BoxSolid {
    /// Extent along the x axis.
    pub x: usize,
    /// Extent along the y axis.
    pub y: usize,
    /// Extent along the z axis.
    pub z: usize,
    /// The six faces in the fixed order of `face_index`.
    pub faces: Vec<BoxFace>,
}

/// The new position after moving one grid step from `start` with the local
/// basis `(va, vb)`: either the same face, or the adjacent face reached by
/// rotating the basis 90 degrees about the single axis that maps the old
/// outward normal to the new one.
pub open spec fn spec_traverse(
    sx: int,
    sy: int,
    sz: int,
    dir: usize,
    start: BoxFaceCoord,
    va: Vec3,
    vb: Vec3,
) -> Result<(BoxFaceCoord, Vec3, Vec3), TraverseError> {
    let nx = start.coord.x + va.x * dir_dx(dir) + vb.x * dir_dy(dir);
    let ny = start.coord.y + va.y * dir_dx(dir) + vb.y * dir_dy(dir);
    let nz = start.coord.z + va.z * dir_dx(dir) + vb.z * dir_dy(dir);
    if 0 <= nx < sx && 0 <= ny < sy && 0 <= nz < sz {
        Ok(
            (
                BoxFaceCoord {
                    coord: Vec3 { x: nx as isize, y: ny as isize, z: nz as isize },
                    face: start.face,
                },
                va,
                vb,
            ),
        )
    } else {
        let nn = Vec3 {
            x: if nx < 0 {
                -1 as isize
            } else if nx >= sx {
                1 as isize
            } else {
                0 as isize
            },
            y: if ny < 0 {
                -1 as isize
            } else if ny >= sy {
                1 as isize
            } else {
                0 as isize
            },
            z: if nz < 0 {
                -1 as isize
            } else if nz >= sz {
                1 as isize
            } else {
                0 as isize
            },
        };
        match spec_rotation_to(face_normal(start.face), nn) {
            Some((axis, rd)) => {
                let nface = if nx < 0 {
                    Some(BoxFaceType::C)
                } else if nx >= sx {
                    Some(BoxFaceType::E)
                } else if ny < 0 {
                    Some(BoxFaceType::D)
                } else if ny >= sy {
                    Some(BoxFaceType::B)
                } else if nz < 0 {
                    Some(BoxFaceType::A)
                } else if nz >= sz {
                    Some(BoxFaceType::F)
                } else {
                    None
                };
                match nface {
                    Some(f) => Ok(
                        (
                            BoxFaceCoord { coord: start.coord, face: f },
                            spec_rot(va, axis, rd),
                            spec_rot(vb, axis, rd),
                        ),
                    ),
                    None => Err(TraverseError::NoFace),
                }
            },
            None => Err(TraverseError::NoRotation),
        }
    }
}

impl BoxSolid {
    /// Structural invariant: positive dimensions within the machine limit,
    /// and the six canonical faces in order.
    pub open spec fn wf(&self) -> bool {
        &&& 1 <= self.x <= DIM_MAX
        &&& 1 <= self.y <= DIM_MAX
        &&& 1 <= self.z <= DIM_MAX
        &&& self.faces@.len() == 6
        &&& forall|f: BoxFaceType| #![trigger face_index(f)] self.faces@[face_index(f)]
            == canonical_face(f)
    }

    /// A box of the given dimensions with its six faces.
    pub fn new(x: usize, y: usize, z: usize) -> (r: BoxSolid)
        requires
            1 <= x <= DIM_MAX,
            1 <= y <= DIM_MAX,
            1 <= z <= DIM_MAX,
        ensures
            r.wf(),
            r.x == x,
            r.y == y,
            r.z == z,
    {
        let mut faces: Vec<BoxFace> = Vec::new();
        faces.push(
            BoxFace {
                face: BoxFaceType::A,
                vec_a: Vec3 { x: 1, y: 0, z: 0 },
                vec_b: Vec3 { x: 0, y: 1, z: 0 },
                vec_normal: Vec3 { x: 0, y: 0, z: -1 },
            },
        );
        faces.push(
            BoxFace {
                face: BoxFaceType::B,
                vec_a: Vec3 { x: 1, y: 0, z: 0 },
                vec_b: Vec3 { x: 0, y: 0, z: 1 },
                vec_normal: Vec3 { x: 0, y: 1, z: 0 },
            },
        );
        faces.push(
            BoxFace {
                face: BoxFaceType::C,
                vec_a: Vec3 { x: 0, y: 1, z: 0 },
                vec_b: Vec3 { x: 0, y: 0, z: 1 },
                vec_normal: Vec3 { x: -1, y: 0, z: 0 },
            },
        );
        faces.push(
            BoxFace {
                face: BoxFaceType::D,
                vec_a: Vec3 { x: 1, y: 0, z: 0 },
                vec_b: Vec3 { x: 0, y: 0, z: 1 },
                vec_normal: Vec3 { x: 0, y: -1, z: 0 },
            },
        );
        faces.push(
            BoxFace {
                face: BoxFaceType::E,
                vec_a: Vec3 { x: 0, y: 1, z: 0 },
                vec_b: Vec3 { x: 0, y: 0, z: 1 },
                vec_normal: Vec3 { x: 1, y: 0, z: 0 },
            },
        );
        faces.push(
            BoxFace {
                face: BoxFaceType::F,
                vec_a: Vec3 { x: 1, y: 0, z: 0 },
                vec_b: Vec3 { x: 0, y: 1, z: 0 },
                vec_normal: Vec3 { x: 0, y: 0, z: 1 },
            },
        );
        let r = BoxSolid { x, y, z, faces };
        proof {
            assert forall|f: BoxFaceType| #![trigger face_index(f)] r.faces@[face_index(f)]
                == canonical_face(f) by {
                match f {
                    BoxFaceType::A => assert(r.faces@[0] == canonical_face(BoxFaceType::A)),
                    BoxFaceType::B => assert(r.faces@[1] == canonical_face(BoxFaceType::B)),
                    BoxFaceType::C => assert(r.faces@[2] == canonical_face(BoxFaceType::C)),
                    BoxFaceType::D => assert(r.faces@[3] == canonical_face(BoxFaceType::D)),
                    BoxFaceType::E => assert(r.faces@[4] == canonical_face(BoxFaceType::E)),
                    BoxFaceType::F => assert(r.faces@[5] == canonical_face(BoxFaceType::F)),
                }
            }
        }
        r
    }

    /// Index of the face record for `f`.
    fn face_at(&self, f: BoxFaceType) -> (r: BoxFace)
        requires
            self.wf(),
        ensures
            r == canonical_face(f),
    {
        let i: usize = match f {
            BoxFaceType::A => 0,
            BoxFaceType::B => 1,
            BoxFaceType::C => 2,
            BoxFaceType::D => 3,
            BoxFaceType::E => 4,
            BoxFaceType::F => 5,
        };
        proof {
            assert(self.faces@[face_index(f)] == canonical_face(f));
        }
        self.faces[i]
    }

    /// Given a move on the grid from a previously mapped position on the
    /// face of the box, return the new position on the box and the
    /// potential rotation of the mapping of the grid coordinate system to
    /// box space.
    pub fn traverse(&self, dir: usize, start_face_coord: BoxFaceCoord, start_face_vec_a: Vec3,
        start_face_vec_b: Vec3) -> (r: Result<(BoxFaceCoord, Vec3, Vec3), TraverseError>)
        requires
            self.wf(),
            is_dir(dir),
            start_face_coord.coord.spec_in_bounds(self.x, self.y, self.z),
            -1 <= start_face_vec_a.x <= 1,
            -1 <= start_face_vec_a.y <= 1,
            -1 <= start_face_vec_a.z <= 1,
            -1 <= start_face_vec_b.x <= 1,
            -1 <= start_face_vec_b.y <= 1,
            -1 <= start_face_vec_b.z <= 1,
        ensures
            r == spec_traverse(self.x as int, self.y as int, self.z as int, dir,
                start_face_coord, start_face_vec_a, start_face_vec_b),
            r matches Ok(t) ==> t.0.coord.spec_in_bounds(self.x, self.y, self.z) && -1 <= t.1.x
                <= 1 && -1 <= t.1.y <= 1 && -1 <= t.1.z <= 1 && -1 <= t.2.x <= 1 && -1 <= t.2.y
                <= 1 && -1 <= t.2.z <= 1,
    {
        let delta = dir_delta(dir);
        let sa = start_face_vec_a.scaled(delta.x);
        let sb = start_face_vec_b.scaled(delta.y);
        proof {
            crate::clues::lemma_unit_scale_exact(start_face_vec_a.x as int, delta.x as int);
            crate::clues::lemma_unit_scale_exact(start_face_vec_a.y as int, delta.x as int);
            crate::clues::lemma_unit_scale_exact(start_face_vec_a.z as int, delta.x as int);
            crate::clues::lemma_unit_scale_exact(start_face_vec_b.x as int, delta.y as int);
            crate::clues::lemma_unit_scale_exact(start_face_vec_b.y as int, delta.y as int);
            crate::clues::lemma_unit_scale_exact(start_face_vec_b.z as int, delta.y as int);
            assert(-1 <= sa.x <= 1 && -1 <= sa.y <= 1 && -1 <= sa.z <= 1) by {
                assert(sa.x == start_face_vec_a.x * delta.x);
                assert(sa.y == start_face_vec_a.y * delta.x);
                assert(sa.z == start_face_vec_a.z * delta.x);
            }
            assert(-1 <= sb.x <= 1 && -1 <= sb.y <= 1 && -1 <= sb.z <= 1) by {
                assert(sb.x == start_face_vec_b.x * delta.y);
                assert(sb.y == start_face_vec_b.y * delta.y);
                assert(sb.z == start_face_vec_b.z * delta.y);
            }
        }
        let next = start_face_coord.coord.plus(sa).plus(sb);
        proof {
            assert(next.x == start_face_coord.coord.x + start_face_vec_a.x * dir_dx(dir)
                + start_face_vec_b.x * dir_dy(dir));
            assert(next.y == start_face_coord.coord.y + start_face_vec_a.y * dir_dx(dir)
                + start_face_vec_b.y * dir_dy(dir));
            assert(next.z == start_face_coord.coord.z + start_face_vec_a.z * dir_dx(dir)
                + start_face_vec_b.z * dir_dy(dir));
        }
        if next.in_bounds(self.x, self.y, self.z) {
            return Ok(
                (BoxFaceCoord { coord: next, face: start_face_coord.face }, start_face_vec_a,
                start_face_vec_b),
            );
        }
        let nn = Vec3 {
            x: if next.x < 0 {
                -1
            } else if next.x >= self.x as isize {
                1
            } else {
                0
            },
            y: if next.y < 0 {
                -1
            } else if next.y >= self.y as isize {
                1
            } else {
                0
            },
            z: if next.z < 0 {
                -1
            } else if next.z >= self.z as isize {
                1
            } else {
                0
            },
        };
        let fc = self.face_at(start_face_coord.face);
        proof {
            assert(fc.vec_normal == face_normal(start_face_coord.face));
        }
        let rot = fc.vec_normal.rotation_to(nn);
        match rot {
            Some((axis, rd)) => {
                let nva = start_face_vec_a.rot(axis, rd);
                let nvb = start_face_vec_b.rot(axis, rd);
                let next_face: Option<BoxFaceType> = if next.x < 0 {
                    Some(BoxFaceType::C)
                } else if next.x >= self.x as isize {
                    Some(BoxFaceType::E)
                } else if next.y < 0 {
                    Some(BoxFaceType::D)
                } else if next.y >= self.y as isize {
                    Some(BoxFaceType::B)
                } else if next.z < 0 {
                    Some(BoxFaceType::A)
                } else if next.z >= self.z as isize {
                    Some(BoxFaceType::F)
                } else {
                    None
                };
                match next_face {
                    Some(f) => Ok(
                        (BoxFaceCoord { coord: start_face_coord.coord, face: f }, nva, nvb),
                    ),
                    None => Err(TraverseError::NoFace),
                }
            },
            None => Err(TraverseError::NoRotation),
        }
    }
}

} // verus!
