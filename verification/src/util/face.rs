//! The six axis-aligned faces of a cube and the unit directions attached to them.
//! Faces are numbered +x, +y, +z, -x, -y, -z; the opposite of face `i` is `(i + 3) % 6`.

use crate::util::vector::IVec3;
use vstd::prelude::*;

verus! {

/// Index of one of the six faces of a block or chunk.
#[derive(Clone, Copy, Debug, PartialEq, Eq, Hash, Structural)]
pub struct FaceIndex(pub usize);

/// Number of faces of a cube.
pub const FACE_COUNT: usize = 6;

/// Unit normal of face `i`.
pub open spec fn face_normal_spec(i: int) -> IVec3 {
    if i == 0 {
        IVec3 { x: 1, y: 0, z: 0 }
    } else if i == 1 {
        IVec3 { x: 0, y: 1, z: 0 }
    } else if i == 2 {
        IVec3 { x: 0, y: 0, z: 1 }
    } else if i == 3 {
        IVec3 { x: -1i32, y: 0, z: 0 }
    } else if i == 4 {
        IVec3 { x: 0, y: -1i32, z: 0 }
    } else {
        IVec3 { x: 0, y: 0, z: -1i32 }
    }
}

/// Direction of the first texture coordinate on face `i`.
pub open spec fn face_tangent_spec(i: int) -> IVec3 {
    if i == 0 {
        IVec3 { x: 0, y: 0, z: 1 }
    } else if i == 1 {
        IVec3 { x: 0, y: 0, z: 1 }
    } else if i == 2 {
        IVec3 { x: 1, y: 0, z: 0 }
    } else if i == 3 {
        IVec3 { x: 0, y: 0, z: -1i32 }
    } else if i == 4 {
        IVec3 { x: 0, y: 0, z: -1i32 }
    } else {
        IVec3 { x: -1i32, y: 0, z: 0 }
    }
}

/// Direction of the second texture coordinate on face `i`.
pub open spec fn face_bitangent_spec(i: int) -> IVec3 {
    if i == 0 {
        IVec3 { x: 0, y: 1, z: 0 }
    } else if i == 1 {
        IVec3 { x: 1, y: 0, z: 0 }
    } else if i == 2 {
        IVec3 { x: 0, y: 1, z: 0 }
    } else if i == 3 {
        IVec3 { x: 0, y: -1i32, z: 0 }
    } else if i == 4 {
        IVec3 { x: -1i32, y: 0, z: 0 }
    } else {
        IVec3 { x: 0, y: -1i32, z: 0 }
    }
}

/// Unit normal of face `i` (`FACE_NORMALS[i]`).
pub fn face_normal(i: usize) -> (r: IVec3)
    requires
        i < 6,
    ensures
        r == face_normal_spec(i as int),
{
    if i == 0 {
        IVec3 { x: 1, y: 0, z: 0 }
    } else if i == 1 {
        IVec3 { x: 0, y: 1, z: 0 }
    } else if i == 2 {
        IVec3 { x: 0, y: 0, z: 1 }
    } else if i == 3 {
        IVec3 { x: -1, y: 0, z: 0 }
    } else if i == 4 {
        IVec3 { x: 0, y: -1, z: 0 }
    } else {
        IVec3 { x: 0, y: 0, z: -1 }
    }
}

/// Direction of the first texture coordinate on face `i` (`FACE_TANGENTS[i]`).
pub fn face_tangent(i: usize) -> (r: IVec3)
    requires
        i < 6,
    ensures
        r == face_tangent_spec(i as int),
{
    if i == 0 || i == 1 {
        IVec3 { x: 0, y: 0, z: 1 }
    } else if i == 2 {
        IVec3 { x: 1, y: 0, z: 0 }
    } else if i == 3 || i == 4 {
        IVec3 { x: 0, y: 0, z: -1 }
    } else {
        IVec3 { x: -1, y: 0, z: 0 }
    }
}

/// Direction of the second texture coordinate on face `i` (`FACE_BITANGENTS[i]`).
pub fn face_bitangent(i: usize) -> (r: IVec3)
    requires
        i < 6,
    ensures
        r == face_bitangent_spec(i as int),
{
    if i == 0 || i == 2 {
        IVec3 { x: 0, y: 1, z: 0 }
    } else if i == 1 {
        IVec3 { x: 1, y: 0, z: 0 }
    } else if i == 3 || i == 5 {
        IVec3 { x: 0, y: -1, z: 0 }
    } else {
        IVec3 { x: -1, y: 0, z: 0 }
    }
}

impl FaceIndex {
    /// The +x face (`FaceIndex::POS_X`).
    pub fn pos_x() -> (r: FaceIndex)
        ensures
            r.0 == 0,
    {
        FaceIndex(0)
    }

    /// The +y face (`FaceIndex::POS_Y`).
    pub fn pos_y() -> (r: FaceIndex)
        ensures
            r.0 == 1,
    {
        FaceIndex(1)
    }

    /// The +z face (`FaceIndex::POS_Z`).
    pub fn pos_z() -> (r: FaceIndex)
        ensures
            r.0 == 2,
    {
        FaceIndex(2)
    }

    /// The -x face (`FaceIndex::NEG_X`).
    pub fn neg_x() -> (r: FaceIndex)
        ensures
            r.0 == 3,
    {
        FaceIndex(3)
    }

    /// The -y face (`FaceIndex::NEG_Y`).
    pub fn neg_y() -> (r: FaceIndex)
        ensures
            r.0 == 4,
    {
        FaceIndex(4)
    }

    /// The -z face (`FaceIndex::NEG_Z`).
    pub fn neg_z() -> (r: FaceIndex)
        ensures
            r.0 == 5,
    {
        FaceIndex(5)
    }


    /// True if this names one of the six faces.
    pub open spec fn is_valid(self) -> bool {
        self.0 < 6
    }

    /// The face pointing the other way.
    pub open spec fn opposite_spec(self) -> FaceIndex {
        FaceIndex(((self.0 + 3) % 6) as usize)
    }

    /// The face pointing the other way.
    pub fn opposite(self) -> (r: FaceIndex)
        requires
            self.is_valid(),
        ensures
            r == self.opposite_spec(),
            r.is_valid(),
    {
        if self.0 < 3 {
            FaceIndex(self.0 + 3)
        } else {
            FaceIndex(self.0 - 3)
        }
    }

    /// The face number as an array index.
    pub fn as_usize(self) -> (r: usize)
        ensures
            r == self.0,
    {
        self.0
    }

    /// The face whose normal is `dir`, if `dir` is one of the six unit directions.
    pub fn from_dir(dir: IVec3) -> (r: Option<FaceIndex>)
        ensures
            match r {
                Some(f) => f.is_valid() && face_normal_spec(f.0 as int) == dir,
                None => forall|i: int| 0 <= i < 6 ==> face_normal_spec(i) != dir,
            },
    {
        let mut i: usize = 0;
        while i < 6
            invariant
                i <= 6,
                forall|j: int| 0 <= j < i ==> face_normal_spec(j) != dir,
            decreases 6 - i,
        {
            let n = face_normal(i);
            if n.x == dir.x && n.y == dir.y && n.z == dir.z {
                return Some(FaceIndex(i));
            }
            i = i + 1;
        }
        None
    }
}

/// Opposite faces are each other's opposite.
pub proof fn lemma_opposite_involution(f: FaceIndex)
    requires
        f.is_valid(),
    ensures
        f.opposite_spec().opposite_spec() == f,
        face_normal_spec(f.opposite_spec().0 as int).x == -face_normal_spec(f.0 as int).x,
        face_normal_spec(f.opposite_spec().0 as int).y == -face_normal_spec(f.0 as int).y,
        face_normal_spec(f.opposite_spec().0 as int).z == -face_normal_spec(f.0 as int).z,
{
}

} // verus!
