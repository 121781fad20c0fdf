use vstd::prelude::*;

verus! {

/// Why an octree operation was refused.
#[derive(Clone, Copy, Debug, PartialEq, Eq, Structural)]
pub enum OctreeError {
    OutOfBounds,
    InvalidSize,
    SaveFailed,
    LoadFailed,
}

} // verus!
