//! Voxel editing core in the MagicaVoxel model: a dense voxel grid, palette,
//! brushes, a scene graph of transforms/groups/shapes, world layers, an
//! undoable project document, and the `.vox` binary format.

use vstd::prelude::*;

pub mod grid;
pub mod model;
pub mod palette;
pub mod brush;
pub mod text;
pub mod layer;
pub mod material;
pub mod scene;
pub mod vox;
pub mod dict;
pub mod writer;
pub mod reader;
pub mod roundtrip;
pub mod project;
pub mod tools;
pub mod export;
pub mod params;
pub mod mesh;
pub mod glb;

pub use model::{IVec3, VoxelModel};
pub use palette::{ColorRgba, Palette};

verus! {

/// Palette index of a voxel: 0 is empty, 1..=255 pick a palette color.
pub type ColorIndex = u8;

/// Errors of the core editing operations.
#[derive(Debug, Clone, Copy, PartialEq, Eq, Structural)]
pub enum CoreError {
    /// A coordinate outside the model volume.
    OutOfBounds { x: i32, y: i32, z: i32, sx: u32, sy: u32, sz: u32 },
    /// A palette index that cannot be written (index 0 is the empty slot).
    InvalidColor(u8),
    /// A model size outside 1..=256 on some axis.
    InvalidSize(u32, u32, u32),
}

} // verus!
