//! The arguments of the editing tools, one struct per tool.

use vstd::prelude::*;
use crate::brush::MirrorAxes;

verus! {

#[derive(Debug)]
pub struct Vec3Params {
    pub x: i32,
    pub y: i32,
    pub z: i32,
}

#[derive(Debug)]
pub struct SetVoxelParams {
    pub x: i32,
    pub y: i32,
    pub z: i32,
    /// Palette index 1..=255 (0 erases).
    pub color: u8,
}

#[derive(Debug)]
pub struct FillBoxParams {
    pub min_x: i32,
    pub min_y: i32,
    pub min_z: i32,
    pub max_x: i32,
    pub max_y: i32,
    pub max_z: i32,
    pub color: u8,
}

#[derive(Debug)]
pub struct FillSphereParams {
    pub x: i32,
    pub y: i32,
    pub z: i32,
    pub radius: u32,
    pub color: u8,
}

#[derive(Debug)]
pub struct FillLineParams {
    pub x0: i32,
    pub y0: i32,
    pub z0: i32,
    pub x1: i32,
    pub y1: i32,
    pub z1: i32,
    pub color: u8,
}

#[derive(Debug)]
pub struct FillCircleParams {
    pub x: i32,
    pub y: i32,
    pub z: i32,
    pub radius: u32,
    /// Plane normal: x | y | z
    pub axis: String,
    pub color: u8,
}

#[derive(Debug)]
pub struct FillPlaneParams {
    pub x0: i32,
    pub y0: i32,
    pub z0: i32,
    pub x1: i32,
    pub y1: i32,
    pub z1: i32,
    /// Plane normal: x | y | z
    pub axis: String,
    pub color: u8,
}

#[derive(Debug)]
pub struct FloodFillParams {
    pub x: i32,
    pub y: i32,
    pub z: i32,
    pub color: u8,
}

#[derive(Debug)]
pub struct PaletteColorParams {
    /// Palette index 1..=255
    pub index: u8,
    pub r: u8,
    pub g: u8,
    pub b: u8,
    pub a: u8,
}

#[derive(Debug)]
pub struct ActiveColorParams {
    pub index: u8,
}

#[derive(Debug)]
pub struct BrushParams {
    /// voxel | box | sphere | erase | flood_fill | line | plane | circle
    pub kind: String,
    pub radius: u32,
    pub mirror_x: bool,
    pub mirror_y: bool,
    pub mirror_z: bool,
}

#[derive(Debug)]
pub struct ResizeParams {
    pub size_x: u32,
    pub size_y: u32,
    pub size_z: u32,
}

#[derive(Debug)]
pub struct MirrorParams {
    /// x | y | z
    pub axis: String,
}

#[derive(Debug)]
pub struct PathParams {
    pub path: String,
}

#[derive(Debug)]
pub struct ApplyBrushParams {
    pub x: i32,
    pub y: i32,
    pub z: i32,
}

#[derive(Debug)]
pub struct NodeIdParams {
    pub node_id: i32,
}

#[derive(Debug)]
pub struct ModelIdParams {
    pub model_id: u32,
}

#[derive(Debug)]
pub struct EditModeParams {
    /// model | world
    pub mode: String,
}

#[derive(Debug)]
pub struct ObjectTranslationParams {
    pub node_id: i32,
    pub x: i32,
    pub y: i32,
    pub z: i32,
}

#[derive(Debug)]
pub struct AddObjectParams {
    pub name: String,
    pub x: i32,
    pub y: i32,
    pub z: i32,
    pub size: u32,
}

#[derive(Debug)]
pub struct ExportGodotParams {
    /// Output .glb path, or a directory (writes voxel_model.glb + .tscn).
    pub path: String,
    /// world (all objects, default) | model (active model only)
    pub scope: String,
}

#[derive(Debug)]
pub struct LayerUpdateParams {
    pub layer_id: i32,
    pub name: Option<String>,
    pub hidden: Option<bool>,
}

#[derive(Debug)]
pub struct ObjectLayerParams {
    pub node_id: i32,
    pub layer_id: i32,
}

impl BrushParams {
    /// The mirror axes the brush is asked for.
    pub fn mirror(&self) -> (m: MirrorAxes)
        ensures
            m == (MirrorAxes { x: self.mirror_x, y: self.mirror_y, z: self.mirror_z }),
    {
        MirrorAxes { x: self.mirror_x, y: self.mirror_y, z: self.mirror_z }
    }
}

} // verus!
