use vstd::prelude::*;

use crate::world::position::IVec3;

verus! {

/// The voxel a ray hit, and the normal of the face it entered through.
pub struct RaycastResult {
    pub position: IVec3,
    pub normal: IVec3,
}

} // verus!
