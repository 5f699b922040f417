//! Shared scene configuration: window and viewport sizes, the focal
//! distance, and the fixed world offset that keeps the scene in front of the
//! camera.

use vstd::prelude::*;
use crate::geometry::Vec3;

verus! {

/// Logical size of the OS window (the shell scales the canvas into it).
pub const WINDOW_SIZE: u32 = 720;

/// Size of the abstract projection viewport, in world units.
pub const VIEWPORT_SIZE: u32 = 1;

/// Focal distance of the projection, in raw units (one world unit).
pub const FOCAL_DIST: i64 = 65536;

/// x of the fixed world offset (-2 units).
pub const DEFAULT_TRANSL_X: i64 = -131072;

/// y of the fixed world offset.
pub const DEFAULT_TRANSL_Y: i64 = 0;

/// z of the fixed world offset (7 units, into the screen).
pub const DEFAULT_TRANSL_Z: i64 = 458752;

/// The fixed world offset as a vector.
pub fn default_transl() -> (r: Vec3)
    ensures
        r.x == DEFAULT_TRANSL_X,
        r.y == DEFAULT_TRANSL_Y,
        r.z == DEFAULT_TRANSL_Z,
{
    Vec3 { x: DEFAULT_TRANSL_X, y: DEFAULT_TRANSL_Y, z: DEFAULT_TRANSL_Z }
}

} // verus!
