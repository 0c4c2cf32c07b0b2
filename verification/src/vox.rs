//! The MagicaVoxel `.vox` format: errors and the chunk kinds that can be malformed.

use vstd::prelude::*;
use crate::CoreError;
use crate::model::VoxelModel;
use crate::palette::Palette;
use crate::scene::{Scene, single_model_graph};
use crate::reader::{
    read_vox_scene, parse_vox, ReadFailure, first_model_error, model_count, built_from,
};
use crate::writer::{write_vox_scene, ascending_keys, enc_vox};
use crate::layer::is_standard_eight;
use crate::material::default_slots;

verus! {

/// The part of a `.vox` file found malformed.
#[derive(Debug, Clone, Copy, PartialEq, Eq, Structural)]
pub enum ChunkKind {
    Header,
    Content,
    Main,
    Size,
    Xyzi,
    Rgba,
    Transform,
    Group,
    Shape,
    Matl,
    Matt,
    Layer,
    Str,
    Dict,
}

impl ChunkKind {
    /// The name the format gives this part (`"nTRN"`, `"STRING"`, ...).
    pub fn tag(self) -> (s: &'static str)
        ensures
            s@ == match self {
                ChunkKind::Header => "header"@,
                ChunkKind::Content => "content"@,
                ChunkKind::Main => "MAIN"@,
                ChunkKind::Size => "SIZE"@,
                ChunkKind::Xyzi => "XYZI"@,
                ChunkKind::Rgba => "RGBA"@,
                ChunkKind::Transform => "nTRN"@,
                ChunkKind::Group => "nGRP"@,
                ChunkKind::Shape => "nSHP"@,
                ChunkKind::Matl => "MATL"@,
                ChunkKind::Matt => "MATT"@,
                ChunkKind::Layer => "LAYR"@,
                ChunkKind::Str => "STRING"@,
                ChunkKind::Dict => "DICT"@,
            },
    {
        match self {
            ChunkKind::Header => "header",
            ChunkKind::Content => "content",
            ChunkKind::Main => "MAIN",
            ChunkKind::Size => "SIZE",
            ChunkKind::Xyzi => "XYZI",
            ChunkKind::Rgba => "RGBA",
            ChunkKind::Transform => "nTRN",
            ChunkKind::Group => "nGRP",
            ChunkKind::Shape => "nSHP",
            ChunkKind::Matl => "MATL",
            ChunkKind::Matt => "MATT",
            ChunkKind::Layer => "LAYR",
            ChunkKind::Str => "STRING",
            ChunkKind::Dict => "DICT",
        }
    }
}

/// Errors of reading and writing `.vox` data.
#[derive(Debug)]
pub enum VoxError {
    /// The data does not start with `VOX `.
    BadMagic,
    /// A version other than 150 or 200.
    BadVersion(u32),
    /// A malformed chunk or field.
    BadChunk(ChunkKind),
    /// A model that the core refuses (size, voxel position).
    Core(CoreError),
    /// Anything else, described in words.
    Msg(String),
}

/// Read the first model of a `.vox` file and its palette.
pub fn read_vox(data: &[u8]) -> (r: Result<(VoxelModel, Palette), VoxError>)
    ensures
        match parse_vox(data@) {
            Err(ReadFailure::Magic) => r matches Err(VoxError::BadMagic),
            Err(ReadFailure::Version(v)) => r matches Err(VoxError::BadVersion(vv)) && vv == v,
            Err(ReadFailure::Chunk(k)) => r matches Err(VoxError::BadChunk(kk)) && kk == k,
            Ok(st) => if st.sizes.len() == 0 || st.xyzi.len() == 0 {
                r matches Err(VoxError::Msg(m)) && m@ == "no SIZE/XYZI model in file"@
            } else {
                match first_model_error(st, model_count(st)) {
                    Some(e) => r matches Err(VoxError::Core(ee)) && ee == e,
                    None => if st.nodes.is_empty() && model_count(st) > 53_687_092 {
                        r matches Err(VoxError::Msg(m)) && m@ == "too many models"@
                    } else {
                        r matches Ok((m, pal)) && built_from(m, st.sizes[0], st.xyzi[0]) && pal.wf()
                            && pal.colors() == st.palette
                    },
                }
            },
        },
{
    broadcast use vstd::string::to_string_from_display_ensures_for_str;

    let (scene, palette) = read_vox_scene(data)?;
    let Scene { models, .. } = scene;
    let mut models = models;
    if models.len() == 0 {
        return Err(VoxError::Msg("empty scene".to_string()));
    }
    let m = models.swap_remove(0);
    Ok((m, palette))
}

/// `b` is the file of a scene holding `model` alone (as `Scene::from_single_model`
/// builds it) and `palette`.
pub open spec fn single_model_file(model: VoxelModel, palette: Palette, b: Seq<u8>) -> bool {
    exists|s: Scene, ks: Seq<i32>|
        {
            &&& s.wf()
            &&& s.grids() == seq![model.grid()]
            &&& s.models@.len() == 1
            &&& s.models@[0].same_as(&model)
            &&& s.graph() == single_model_graph()
            &&& is_standard_eight(s.layers.layers@)
            &&& s.materials.slots() == default_slots()
            &&& ascending_keys(ks, s.nodes@.dom())
            &&& b == enc_vox(s, palette.colors(), ks)
        }
}

/// Write one model and a palette as a `.vox` file, the model alone in a
/// single-model scene.
pub fn write_vox(model: &VoxelModel, palette: &Palette) -> (r: Result<Vec<u8>, VoxError>)
    requires
        model.wf(),
        palette.wf(),
    ensures
        r matches Ok(b) && single_model_file(*model, *palette, b@),
{
    let copy = model.copy();
    let scene = Scene::from_single_model(copy);
    let r = write_vox_scene(&scene, palette);
    proof {
        let b = r->Ok_0;
        let ks = choose|ks: Seq<i32>|
            ascending_keys(ks, scene.nodes@.dom()) && b@ == enc_vox(scene, palette.colors(), ks);
        assert(scene.grids() == seq![model.grid()]) by {
            assert(scene.grids() =~= seq![copy.grid()]);
            assert(copy.grid() == model.grid());
        }
    }
    r
}

} // verus!
