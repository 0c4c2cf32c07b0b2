//! Reading MagicaVoxel `.vox` data into a scene and a palette.

use vstd::prelude::*;
use crate::dict::{
    le_u32, le_i32, read_u32, read_i32, read_dict_pairs, parse_dict, dict_get, dict_lookup,
    dict_get_i32, dict_get_ivec3, pairs_view, parse_ivec3,
};
use crate::text::{chars_of, parse_int_chars, parse_i32, parse_u8, split_words, words, same_text};
use crate::scene::{NodeView, TransformNode, GroupNode, ShapeNode, SceneNode, MvRotation};
use crate::layer::{Layer, default_layer_color, layer_color, LayerView, layer_view, layer_views};
use crate::model::IVec3;
use crate::writer::{
    key_name, key_hidden, key_t, key_r, key_color, tag_vox, tag_main, tag_size, tag_xyzi,
    tag_rgba, tag_trn, tag_grp, tag_shp, tag_matl, tag_matt, tag_layr,
};
use crate::vox::{ChunkKind, VoxError};
use crate::palette::{ColorRgba, Palette, default_color};
use crate::scene::{node_id_of, NodeId, Scene, SceneGraph, single_model_graph};
use crate::model::{VoxelModel, sparse_error, sparse_value};
use crate::layer::{LayerTable, is_standard_eight, stable_sorted_by_id};
use crate::text::{decimal, decimal_string, string_of};
use crate::writer::sorted_node_ids;
use crate::dict::slice_of;
use crate::CoreError;
use crate::material::{MaterialTable, default_slots};
use std::collections::HashMap;

verus! {

/// The `_name` of an attribute dictionary; empty when absent.
pub open spec fn attr_name(attrs: Seq<(Seq<char>, Seq<char>)>) -> Seq<char> {
    match dict_get(attrs, key_name()) {
        Some(n) => n,
        None => Seq::empty(),
    }
}

/// The `_hidden` flag of an attribute dictionary: set unless absent or `0`.
pub open spec fn attr_hidden(attrs: Seq<(Seq<char>, Seq<char>)>) -> bool {
    match dict_get(attrs, key_hidden()) {
        Some(v) => v != seq!['0'],
        None => false,
    }
}

/// Reading `n` transform frames at `off`: a later frame's `_t` and `_r` win.
pub open spec fn parse_frames(c: Seq<u8>, off: int, n: int, t: IVec3, r: u8) -> Result<
    (IVec3, u8, int),
    ChunkKind,
>
    decreases n,
{
    if n <= 0 {
        Ok((t, r, off))
    } else {
        match parse_frames(c, off, n - 1, t, r) {
            Err(k) => Err(k),
            Ok((t1, r1, o1)) => match parse_dict(c, o1) {
                Err(k) => Err(k),
                Ok((f, o2)) => {
                    let t2 = match dict_get(f, key_t()) {
                        Some(v) => match parse_ivec3(v) {
                            Some((x, y, z)) => IVec3 { x, y, z },
                            None => t1,
                        },
                        None => t1,
                    };
                    let r2 = match dict_get(f, key_r()) {
                        Some(v) => match parse_i32(v) {
                            Some(x) => (x as i32) as u8,
                            None => r1,
                        },
                        None => r1,
                    };
                    Ok((t2, r2, o2))
                },
            },
        }
    }
}

/// An `nTRN` chunk's content.
pub open spec fn parse_trn(c: Seq<u8>) -> Result<NodeView, ChunkKind> {
    if c.len() < 4 {
        Err(ChunkKind::Transform)
    } else {
        match parse_dict(c, 4) {
            Err(k) => Err(k),
            Ok((attrs, o)) => if o + 16 > c.len() {
                Err(ChunkKind::Transform)
            } else {
                match parse_frames(
                    c,
                    o + 16,
                    le_i32(c, o + 12),
                    IVec3 { x: 0, y: 0, z: 0 },
                    0,
                ) {
                    Err(k) => Err(k),
                    Ok((t, r, _o)) => Ok(
                        NodeView::Transform {
                            id: le_i32(c, 0) as i32,
                            name: attr_name(attrs),
                            hidden: attr_hidden(attrs),
                            child: le_i32(c, o) as i32,
                            translation: t,
                            rotation: r,
                            layer_id: le_i32(c, o + 8) as i32,
                        },
                    ),
                }
            },
        }
    }
}

/// `n` little-endian `i32`s at `off`; a negative count never ends before
/// the data does.
pub open spec fn parse_ids(c: Seq<u8>, off: int, n: int, kind: ChunkKind) -> Result<Seq<i32>, ChunkKind>
    decreases if n > 0 { n } else { 0 },
{
    if n < 0 {
        Err(kind)
    } else if n == 0 {
        Ok(Seq::empty())
    } else {
        match parse_ids(c, off, n - 1, kind) {
            Err(k) => Err(k),
            Ok(ids) => if off + 4 * (n - 1) + 4 > c.len() {
                Err(kind)
            } else {
                Ok(ids.push(le_i32(c, off + 4 * (n - 1)) as i32))
            },
        }
    }
}

/// An `nGRP` chunk's content.
pub open spec fn parse_grp(c: Seq<u8>) -> Result<NodeView, ChunkKind> {
    if c.len() < 4 {
        Err(ChunkKind::Group)
    } else {
        match parse_dict(c, 4) {
            Err(k) => Err(k),
            Ok((attrs, o)) => if o + 4 > c.len() {
                Err(ChunkKind::Group)
            } else {
                match parse_ids(c, o + 4, le_i32(c, o), ChunkKind::Group) {
                    Err(k) => Err(k),
                    Ok(children) => Ok(
                        NodeView::Group { id: le_i32(c, 0) as i32, name: attr_name(attrs), children },
                    ),
                }
            },
        }
    }
}

/// `n` model references (an `i32` and a `DICT` each) at `off`.
pub open spec fn parse_model_refs(c: Seq<u8>, off: int, n: int) -> Result<(Seq<usize>, int), ChunkKind>
    decreases if n > 0 { n } else { 0 },
{
    if n < 0 {
        Err(ChunkKind::Shape)
    } else if n == 0 {
        Ok((Seq::empty(), off))
    } else {
        match parse_model_refs(c, off, n - 1) {
            Err(k) => Err(k),
            Ok((ids, o)) => if o + 4 > c.len() {
                Err(ChunkKind::Shape)
            } else {
                match parse_dict(c, o + 4) {
                    Err(k) => Err(k),
                    Ok((_attrs, o2)) => Ok((ids.push((le_i32(c, o) as i32) as usize), o2)),
                }
            },
        }
    }
}

/// An `nSHP` chunk's content.
pub open spec fn parse_shp(c: Seq<u8>) -> Result<NodeView, ChunkKind> {
    if c.len() < 4 {
        Err(ChunkKind::Shape)
    } else {
        match parse_dict(c, 4) {
            Err(k) => Err(k),
            Ok((_attrs, o)) => if o + 4 > c.len() {
                Err(ChunkKind::Shape)
            } else {
                match parse_model_refs(c, o + 4, le_i32(c, o)) {
                    Err(k) => Err(k),
                    Ok((model_ids, _o2)) => Ok(NodeView::Shape { id: le_i32(c, 0) as i32, model_ids }),
                }
            },
        }
    }
}

/// A `MATL` chunk's content: the palette index and the property dictionary.
pub open spec fn parse_matl(c: Seq<u8>) -> Result<(i32, Seq<(Seq<char>, Seq<char>)>), ChunkKind> {
    if c.len() < 4 {
        Err(ChunkKind::Matl)
    } else {
        match parse_dict(c, 4) {
            Err(k) => Err(k),
            Ok((p, _o)) => Ok((le_i32(c, 0) as i32, p)),
        }
    }
}

/// Three whitespace-separated bytes (`r g b`; more words are ignored).
pub open spec fn parse_rgb(v: Seq<char>) -> Option<[u8; 3]> {
    let w = words(v);
    if w.len() < 3 {
        None
    } else {
        match (parse_u8(w[0]), parse_u8(w[1]), parse_u8(w[2])) {
            (Some(a), Some(b), Some(c)) => Some([a as u8, b as u8, c as u8]),
            _ => None,
        }
    }
}

/// A `LAYR` chunk's content.
pub open spec fn parse_layr(c: Seq<u8>) -> Result<LayerView, ChunkKind> {
    if c.len() < 4 {
        Err(ChunkKind::Layer)
    } else {
        match parse_dict(c, 4) {
            Err(k) => Err(k),
            Ok((attrs, _o)) => {
                let id = le_i32(c, 0) as i32;
                Ok(
                    LayerView {
                        id,
                        name: attr_name(attrs),
                        hidden: attr_hidden(attrs),
                        color: match dict_get(attrs, key_color()) {
                            Some(v) => match parse_rgb(v) {
                                Some(rgb) => rgb,
                                None => default_layer_color(id as int),
                            },
                            None => default_layer_color(id as int),
                        },
                    },
                )
            },
        }
    }
}

fn attrs_name(attrs: &Vec<(String, String)>) -> (s: String)
    ensures
        s@ == attr_name(pairs_view(attrs@)),
{
    proof {
        reveal_strlit("_name");
        assert("_name"@ =~= key_name());
    }
    match dict_lookup(attrs, "_name") {
        Some(n) => n.clone(),
        None => String::new(),
    }
}

fn attrs_hidden(attrs: &Vec<(String, String)>) -> (b: bool)
    ensures
        b == attr_hidden(pairs_view(attrs@)),
{
    proof {
        reveal_strlit("_hidden");
        reveal_strlit("0");
        assert("_hidden"@ =~= key_hidden());
        assert("0"@ =~= seq!['0']);
    }
    match dict_lookup(attrs, "_hidden") {
        Some(v) => !same_text(v.as_str(), "0"),
        None => false,
    }
}

fn bad(k: ChunkKind) -> (r: VoxError)
    ensures
        r matches VoxError::BadChunk(kk) && kk == k,
{
    VoxError::BadChunk(k)
}

fn read_frames(c: &[u8], offset: &mut usize, n: i32) -> (r: Result<(IVec3, MvRotation), VoxError>)
    ensures
        match parse_frames(c@, *old(offset) as int, n as int, IVec3 { x: 0, y: 0, z: 0 }, 0) {
            Ok((t, rot, o)) => r matches Ok((tt, rr)) && tt == t && rr.0 == rot && *final(offset)
                == o,
            Err(k) => r matches Err(VoxError::BadChunk(kk)) && kk == k,
        },
{
    proof {
        reveal_strlit("_t");
        reveal_strlit("_r");
        assert("_t"@ =~= key_t());
        assert("_r"@ =~= key_r());
    }
    let ghost off0 = *offset as int;
    let mut translation = IVec3::new(0, 0, 0);
    let mut rotation = MvRotation::identity();
    let mut i: i32 = 0;
    while i < n
        invariant
            0 <= i,
            n < 0 ==> i == 0,
            n >= 0 ==> i <= n,
            off0 == *old(offset),
            "_t"@ == key_t(),
            "_r"@ == key_r(),
            parse_frames(c@, off0, i as int, IVec3 { x: 0, y: 0, z: 0 }, 0) == Ok::<
                (IVec3, u8, int),
                ChunkKind,
            >((translation, rotation.0, *offset as int)),
        decreases n - i,
    {
        let frame = match read_dict_pairs(c, offset) {
            Ok(f) => f,
            Err(e) => {
                proof {
                    assert(parse_frames(c@, off0, i + 1, IVec3 { x: 0, y: 0, z: 0 }, 0) is Err);
                    lemma_frames_err(c@, off0, i + 1, n as int);
                }
                return Err(e);
            },
        };
        match dict_get_ivec3(&frame, "_t") {
            Some((x, y, z)) => {
                translation = IVec3::new(x, y, z);
            },
            None => {},
        }
        match dict_get_i32(&frame, "_r") {
            Some(v) => {
                rotation = MvRotation(v as u8);
            },
            None => {},
        }
        i = i + 1;
    }
    assert(n <= 0 ==> parse_frames(c@, off0, n as int, IVec3 { x: 0, y: 0, z: 0 }, 0)
        == parse_frames(c@, off0, 0, IVec3 { x: 0, y: 0, z: 0 }, 0));
    Ok((translation, rotation))
}

proof fn lemma_frames_err(c: Seq<u8>, off: int, i: int, n: int)
    requires
        0 <= i <= n,
        parse_frames(c, off, i, IVec3 { x: 0, y: 0, z: 0 }, 0) is Err,
    ensures
        parse_frames(c, off, n, IVec3 { x: 0, y: 0, z: 0 }, 0) == parse_frames(
            c,
            off,
            i,
            IVec3 { x: 0, y: 0, z: 0 },
            0,
        ),
    decreases n - i,
{
    if i < n {
        lemma_frames_err(c, off, i, n - 1);
    }
}

/// Parse an `nTRN` chunk's content.
pub fn parse_ntrn(c: &[u8]) -> (r: Result<TransformNode, VoxError>)
    ensures
        match parse_trn(c@) {
            Ok(n) => r matches Ok(t) && SceneNode::Transform(t)@ == n,
            Err(k) => r matches Err(VoxError::BadChunk(kk)) && kk == k,
        },
{
    if c.len() < 4 {
        return Err(bad(ChunkKind::Transform));
    }
    let id = read_i32(c, 0);
    let mut o: usize = 4;
    let attrs = read_dict_pairs(c, &mut o)?;
    let name = attrs_name(&attrs);
    let hidden = attrs_hidden(&attrs);
    if o > c.len() || c.len() - o < 16 {
        return Err(bad(ChunkKind::Transform));
    }
    let child = read_i32(c, o);
    let layer_id = read_i32(c, o + 8);
    let n_frames = read_i32(c, o + 12);
    o = o + 16;
    let (translation, rotation) = read_frames(c, &mut o, n_frames)?;
    Ok(TransformNode { id, name, hidden, child, translation, rotation, layer_id })
}

proof fn lemma_ids_err(c: Seq<u8>, off: int, i: int, n: int, kind: ChunkKind)
    requires
        0 <= i <= n,
        parse_ids(c, off, i, kind) is Err,
    ensures
        parse_ids(c, off, n, kind) == parse_ids(c, off, i, kind),
    decreases n - i,
{
    if i < n {
        lemma_ids_err(c, off, i, n - 1, kind);
    }
}

/// Parse an `nGRP` chunk's content. A negative child count is malformed.
pub fn parse_ngrp(c: &[u8]) -> (r: Result<GroupNode, VoxError>)
    ensures
        match parse_grp(c@) {
            Ok(n) => r matches Ok(g) && SceneNode::Group(g)@ == n,
            Err(k) => r matches Err(VoxError::BadChunk(kk)) && kk == k,
        },
{
    if c.len() < 4 {
        return Err(bad(ChunkKind::Group));
    }
    let id = read_i32(c, 0);
    let mut o: usize = 4;
    let attrs = read_dict_pairs(c, &mut o)?;
    let name = attrs_name(&attrs);
    if o > c.len() || c.len() - o < 4 {
        return Err(bad(ChunkKind::Group));
    }
    let n = read_i32(c, o);
    o = o + 4;
    if n < 0 {
        return Err(bad(ChunkKind::Group));
    }
    let ghost start = o as int;
    let mut children: Vec<i32> = Vec::new();
    let mut i: i32 = 0;
    assert(parse_grp(c@) == match parse_ids(c@, start, n as int, ChunkKind::Group) {
        Err(k) => Err(k),
        Ok(ch) => Ok(NodeView::Group { id, name: name@, children: ch }),
    });
    while i < n
        invariant
            0 <= i <= n,
            o as int == start + 4 * i,
            parse_grp(c@) == match parse_ids(c@, start, n as int, ChunkKind::Group) {
                Err(k) => Err(k),
                Ok(ch) => Ok(NodeView::Group { id, name: name@, children: ch }),
            },
            parse_ids(c@, start, i as int, ChunkKind::Group) == Ok::<Seq<i32>, ChunkKind>(children@),
        decreases n - i,
    {
        if o > c.len() || c.len() - o < 4 {
            proof {
                assert(parse_ids(c@, start, i + 1, ChunkKind::Group) is Err);
                lemma_ids_err(c@, start, i + 1, n as int, ChunkKind::Group);
            }
            return Err(bad(ChunkKind::Group));
        }
        children.push(read_i32(c, o));
        o = o + 4;
        i = i + 1;
    }
    Ok(GroupNode { id, name, children })
}

proof fn lemma_refs_err(c: Seq<u8>, off: int, i: int, n: int)
    requires
        0 <= i <= n,
        parse_model_refs(c, off, i) is Err,
    ensures
        parse_model_refs(c, off, n) == parse_model_refs(c, off, i),
    decreases n - i,
{
    if i < n {
        lemma_refs_err(c, off, i, n - 1);
    }
}

/// Parse an `nSHP` chunk's content. A negative model count is malformed.
pub fn parse_nshp(c: &[u8]) -> (r: Result<ShapeNode, VoxError>)
    ensures
        match parse_shp(c@) {
            Ok(n) => r matches Ok(s) && SceneNode::Shape(s)@ == n,
            Err(k) => r matches Err(VoxError::BadChunk(kk)) && kk == k,
        },
{
    if c.len() < 4 {
        return Err(bad(ChunkKind::Shape));
    }
    let id = read_i32(c, 0);
    let mut o: usize = 4;
    let _attrs = read_dict_pairs(c, &mut o)?;
    if o > c.len() || c.len() - o < 4 {
        return Err(bad(ChunkKind::Shape));
    }
    let n = read_i32(c, o);
    o = o + 4;
    if n < 0 {
        return Err(bad(ChunkKind::Shape));
    }
    let ghost start = o as int;
    let mut model_ids: Vec<usize> = Vec::new();
    let mut i: i32 = 0;
    assert(parse_shp(c@) == match parse_model_refs(c@, start, n as int) {
        Err(k) => Err(k),
        Ok((ids, _o2)) => Ok(NodeView::Shape { id, model_ids: ids }),
    });
    while i < n
        invariant
            0 <= i <= n,
            parse_shp(c@) == match parse_model_refs(c@, start, n as int) {
                Err(k) => Err(k),
                Ok((ids, _o2)) => Ok(NodeView::Shape { id, model_ids: ids }),
            },
            parse_model_refs(c@, start, i as int) == Ok::<(Seq<usize>, int), ChunkKind>(
                (model_ids@, o as int),
            ),
        decreases n - i,
    {
        if o > c.len() || c.len() - o < 4 {
            proof {
                assert(parse_model_refs(c@, start, i + 1) is Err);
                lemma_refs_err(c@, start, i + 1, n as int);
            }
            return Err(bad(ChunkKind::Shape));
        }
        let mid = read_i32(c, o);
        o = o + 4;
        match read_dict_pairs(c, &mut o) {
            Ok(_) => {},
            Err(e) => {
                proof {
                    assert(parse_model_refs(c@, start, i + 1) is Err);
                    lemma_refs_err(c@, start, i + 1, n as int);
                }
                return Err(e);
            },
        }
        model_ids.push(mid as usize);
        i = i + 1;
    }
    Ok(ShapeNode { id, model_ids })
}

/// Parse a `MATL` chunk's content.
pub fn parse_matl_chunk(c: &[u8]) -> (r: Result<(i32, Vec<(String, String)>), VoxError>)
    ensures
        match parse_matl(c@) {
            Ok((id, p)) => r matches Ok((i, v)) && i == id && pairs_view(v@) == p,
            Err(k) => r matches Err(VoxError::BadChunk(kk)) && kk == k,
        },
{
    if c.len() < 4 {
        return Err(bad(ChunkKind::Matl));
    }
    let id = read_i32(c, 0);
    let mut o: usize = 4;
    let props = read_dict_pairs(c, &mut o)?;
    Ok((id, props))
}

fn rgb_of(v: &String) -> (r: Option<[u8; 3]>)
    ensures
        r == parse_rgb(v@),
{
    let cs = chars_of(v.as_str());
    let parts = split_words(cs.as_slice());
    if parts.len() < 3 {
        return None;
    }
    let a = parse_int_chars(parts[0].as_slice(), 0, 255)?;
    let b = parse_int_chars(parts[1].as_slice(), 0, 255)?;
    let c = parse_int_chars(parts[2].as_slice(), 0, 255)?;
    Some([a as u8, b as u8, c as u8])
}

/// Parse a `LAYR` chunk's content.
pub fn parse_layr_chunk(c: &[u8]) -> (r: Result<Layer, VoxError>)
    ensures
        match parse_layr(c@) {
            Ok(l) => r matches Ok(layer) && layer_view(layer) == l,
            Err(k) => r matches Err(VoxError::BadChunk(kk)) && kk == k,
        },
{
    proof {
        reveal_strlit("_color");
        assert("_color"@ =~= key_color());
    }
    if c.len() < 4 {
        return Err(bad(ChunkKind::Layer));
    }
    let id = read_i32(c, 0);
    let mut o: usize = 4;
    let attrs = read_dict_pairs(c, &mut o)?;
    let name = attrs_name(&attrs);
    let hidden = attrs_hidden(&attrs);
    let color = match dict_lookup(&attrs, "_color") {
        Some(v) => match rgb_of(v) {
            Some(rgb) => rgb,
            None => layer_color(id),
        },
        None => layer_color(id),
    };
    Ok(Layer { id, name, hidden, color })
}

/// What reading the chunks of `MAIN` has gathered so far.
pub struct ScanState {
    pub sizes: Seq<(u32, u32, u32)>,
    pub xyzi: Seq<Seq<(u8, u8, u8, u8)>>,
    pub palette: Seq<ColorRgba>,
    pub nodes: Map<i32, NodeView>,
    pub max_id: i32,
    pub materials: Seq<Seq<(Seq<char>, Seq<char>)>>,
    pub legacy: Seq<(u8, Seq<u8>)>,
    pub layers: Seq<LayerView>,
}

/// Nothing read yet: the default palette, default materials, no node.
pub open spec fn initial_scan() -> ScanState {
    ScanState {
        sizes: Seq::empty(),
        xyzi: Seq::empty(),
        palette: Seq::new(256, |i: int| default_color(i)),
        nodes: Map::empty(),
        max_id: -1i32,
        materials: default_slots(),
        legacy: Seq::empty(),
        layers: Seq::empty(),
    }
}

/// The `n` voxel records of an `XYZI` content.
pub open spec fn xyzi_records(c: Seq<u8>, n: int) -> Seq<(u8, u8, u8, u8)> {
    Seq::new(n as nat, |i: int| (c[4 + 4 * i], c[5 + 4 * i], c[6 + 4 * i], c[7 + 4 * i]))
}

/// The palette an `RGBA` content gives: entry 0 stays the default; entry
/// `i` takes the bytes at `4 * (i - 1)`.
pub open spec fn rgba_colors(c: Seq<u8>) -> Seq<ColorRgba> {
    Seq::new(
        256,
        |i: int|
            if i == 0 {
                default_color(0)
            } else {
                ColorRgba {
                    r: c[4 * (i - 1)],
                    g: c[4 * (i - 1) + 1],
                    b: c[4 * (i - 1) + 2],
                    a: c[4 * (i - 1) + 3],
                }
            },
    )
}

pub open spec fn add_node(st: ScanState, n: NodeView) -> ScanState {
    ScanState {
        nodes: st.nodes.insert(node_id_of(n), n),
        max_id: if node_id_of(n) > st.max_id {
            node_id_of(n)
        } else {
            st.max_id
        },
        ..st
    }
}

/// One chunk of `MAIN`. Malformed `MATL`, `MATT` and `LAYR` chunks are
/// skipped; unknown chunks are ignored.
#[verifier::opaque]
pub open spec fn scan_step(st: ScanState, id: Seq<u8>, c: Seq<u8>) -> Result<ScanState, ChunkKind> {
    if id == tag_size() {
        if c.len() < 12 {
            Err(ChunkKind::Size)
        } else {
            Ok(
                ScanState {
                    sizes: st.sizes.push(
                        (le_u32(c, 0) as u32, le_u32(c, 4) as u32, le_u32(c, 8) as u32),
                    ),
                    ..st
                },
            )
        }
    } else if id == tag_xyzi() {
        if c.len() < 4 || c.len() < 4 + 4 * le_u32(c, 0) {
            Err(ChunkKind::Xyzi)
        } else {
            Ok(ScanState { xyzi: st.xyzi.push(xyzi_records(c, le_u32(c, 0))), ..st })
        }
    } else if id == tag_rgba() {
        if c.len() < 1024 {
            Err(ChunkKind::Rgba)
        } else {
            Ok(ScanState { palette: rgba_colors(c), ..st })
        }
    } else if id == tag_trn() {
        match parse_trn(c) {
            Err(k) => Err(k),
            Ok(n) => Ok(add_node(st, n)),
        }
    } else if id == tag_grp() {
        match parse_grp(c) {
            Err(k) => Err(k),
            Ok(n) => Ok(add_node(st, n)),
        }
    } else if id == tag_shp() {
        match parse_shp(c) {
            Err(k) => Err(k),
            Ok(n) => Ok(add_node(st, n)),
        }
    } else if id == tag_matl() {
        match parse_matl(c) {
            Ok((i, p)) => Ok(
                if 1 <= i <= 255 {
                    ScanState { materials: st.materials.update(i as int, p), ..st }
                } else {
                    st
                },
            ),
            Err(_) => Ok(st),
        }
    } else if id == tag_matt() {
        if c.len() >= 16 && 1 <= le_i32(c, 0) <= 255 {
            Ok(ScanState { legacy: st.legacy.push((le_i32(c, 0) as u8, c)), ..st })
        } else {
            Ok(st)
        }
    } else if id == tag_layr() {
        match parse_layr(c) {
            Ok(l) => Ok(ScanState { layers: st.layers.push(l), ..st }),
            Err(_) => Ok(st),
        }
    } else {
        Ok(st)
    }
}

/// Reading the chunks from `off` up to `end`: each has a 12-byte header
/// (id, content size, children size), its content, then its children, which
/// are skipped.
pub open spec fn scan(data: Seq<u8>, off: int, end: int, st: ScanState) -> Result<ScanState, ChunkKind>
    decreases (if end > off { end - off } else { 0 }),
{
    if off >= end {
        Ok(st)
    } else if off < 0 || off + 12 > data.len() {
        Err(ChunkKind::Header)
    } else {
        let cs = le_u32(data, off + 4);
        let chs = le_u32(data, off + 8);
        if off + 12 + cs > data.len() {
            Err(ChunkKind::Content)
        } else {
            match scan_step(
                st,
                data.subrange(off, off + 4),
                data.subrange(off + 12, off + 12 + cs),
            ) {
                Err(k) => Err(k),
                Ok(st2) => scan(data, off + 12 + cs + chs, end, st2),
            }
        }
    }
}

/// Why a file cannot be read, before its models are built.
pub enum ReadFailure {
    Magic,
    Version(u32),
    Chunk(ChunkKind),
}

/// The magic `VOX `, a version (150 or 200), the `MAIN` header, then the
/// chunks inside `MAIN`.
pub open spec fn parse_vox(data: Seq<u8>) -> Result<ScanState, ReadFailure> {
    if data.len() < 8 || data.subrange(0, 4) != tag_vox() {
        Err(ReadFailure::Magic)
    } else if le_u32(data, 4) != 150 && le_u32(data, 4) != 200 {
        Err(ReadFailure::Version(le_u32(data, 4) as u32))
    } else if 20 > data.len() {
        Err(ReadFailure::Chunk(ChunkKind::Header))
    } else if 20 + le_u32(data, 12) > data.len() {
        Err(ReadFailure::Chunk(ChunkKind::Content))
    } else if data.subrange(8, 12) != tag_main() {
        Err(ReadFailure::Chunk(ChunkKind::Main))
    } else if 20 + le_u32(data, 16) > data.len() {
        Err(ReadFailure::Chunk(ChunkKind::Main))
    } else {
        match scan(data, 20, 20 + le_u32(data, 16), initial_scan()) {
            Err(k) => Err(ReadFailure::Chunk(k)),
            Ok(st) => Ok(st),
        }
    }
}

/// The palette of an `RGBA` chunk's content: the MagicaVoxel default, with
/// entries 1..=255 taken from the first 1020 bytes.
pub fn default_palette_from_bytes(rgba_chunk: &[u8]) -> (r: Result<Palette, VoxError>)
    ensures
        rgba_chunk@.len() < 1024 ==> (r matches Err(VoxError::BadChunk(k)) && k == ChunkKind::Rgba),
        rgba_chunk@.len() >= 1024 ==> (r matches Ok(p) && p.wf() && p.colors() == rgba_colors(
            rgba_chunk@,
        )),
{
    if rgba_chunk.len() < 1024 {
        return Err(bad(ChunkKind::Rgba));
    }
    let mut palette = Palette::magicavoxel_default();
    proof {
        assert forall|j: int| 0 <= j < 256 implies #[trigger] palette.colors()[j] == default_color(j) by {
            assert(palette.color(j) == default_color(j));
        }
    }
    let mut i: usize = 0;
    while i < 255
        invariant
            i <= 255,
            rgba_chunk@.len() >= 1024,
            palette.wf(),
            palette.colors()[0] == default_color(0),
            forall|j: int| 1 <= j <= i ==> #[trigger] palette.colors()[j] == rgba_colors(rgba_chunk@)[j],
            forall|j: int| i < j < 256 ==> #[trigger] palette.colors()[j] == default_color(j),
        decreases 255 - i,
    {
        let o = i * 4;
        let color = ColorRgba::new(rgba_chunk[o], rgba_chunk[o + 1], rgba_chunk[o + 2], rgba_chunk[o + 3]);
        let _ = palette.set((i + 1) as u8, color);
        i = i + 1;
    }
    assert(palette.colors() =~= rgba_colors(rgba_chunk@));
    Ok(palette)
}

/// Whether node `n` names `id` as its child.
pub open spec fn refers(n: NodeView, id: i32) -> bool {
    match n {
        NodeView::Transform { child, .. } => child == id,
        NodeView::Group { children, .. } => children.contains(id),
        NodeView::Shape { .. } => false,
    }
}

/// A node that no transform or group names as its child.
pub open spec fn unreferenced(nodes: Map<i32, NodeView>, id: i32) -> bool {
    &&& nodes.contains_key(id)
    &&& forall|k: i32| nodes.contains_key(k) ==> !refers(#[trigger] nodes[k], id)
}

/// The root a reader picks: the smallest unreferenced node, or 0 when every
/// node is referenced.
pub open spec fn is_root_of(nodes: Map<i32, NodeView>, root: i32) -> bool {
    if exists|k: i32| unreferenced(nodes, k) {
        unreferenced(nodes, root) && forall|k: i32| unreferenced(nodes, k) ==> root <= k
    } else {
        root == 0
    }
}

fn node_refers(n: &SceneNode, id: NodeId) -> (b: bool)
    ensures
        b == refers(n@, id),
{
    match n {
        SceneNode::Transform(t) => t.child == id,
        SceneNode::Group(g) => {
            let mut i: usize = 0;
            while i < g.children.len()
                invariant
                    i <= g.children.len(),
                    refers(n@, id) == g.children@.contains(id),
                    forall|j: int| 0 <= j < i ==> g.children@[j] != id,
                decreases g.children.len() - i,
            {
                if g.children[i] == id {
                    assert(g.children@[i as int] == id);
                    assert(g.children@.contains(id));
                    return true;
                }
                i = i + 1;
            }
            false
        },
        SceneNode::Shape(_) => false,
    }
}

/// The smallest node id that no node names as a child.
fn find_root(nodes: &HashMap<NodeId, SceneNode>) -> (r: Option<NodeId>)
    ensures
        ({
            let m = nodes@.map_values(|n: SceneNode| n@);
            match r {
                Some(k) => unreferenced(m, k) && forall|j: i32| unreferenced(m, j) ==> k <= j,
                None => forall|j: i32| !unreferenced(m, j),
            }
        }),
{
    let ghost m = nodes@.map_values(|n: SceneNode| n@);
    let ids = sorted_node_ids(nodes);
    let mut c: usize = 0;
    while c < ids.len()
        invariant
            c <= ids.len(),
            m == nodes@.map_values(|n: SceneNode| n@),
            crate::writer::ascending_keys(ids@, nodes@.dom()),
            forall|a: int| 0 <= a < c ==> !unreferenced(m, #[trigger] ids@[a]),
        decreases ids.len() - c,
    {
        let k = ids[c];
        let mut q: usize = 0;
        let mut found = false;
        while q < ids.len()
            invariant
                q <= ids.len(),
                m == nodes@.map_values(|n: SceneNode| n@),
                crate::writer::ascending_keys(ids@, nodes@.dom()),
                !found ==> forall|b: int| 0 <= b < q ==> !refers(m[#[trigger] ids@[b]], k),
                found ==> !unreferenced(m, k),
            decreases ids.len() - q,
        {
            if !found {
                let j = ids[q];
                assert(ids@.contains(j));
                match nodes.get(&j) {
                    Some(n) => {
                        if node_refers(n, k) {
                            proof {
                                assert(m.contains_key(j));
                                assert(m[j] == n@);
                                assert(refers(m[j], k));
                            }
                            found = true;
                        }
                    },
                    None => {},
                }
            }
            q = q + 1;
        }
        if !found {
            proof {
                assert forall|kk: i32| m.contains_key(kk) implies !refers(#[trigger] m[kk], k) by {
                    assert(nodes@.dom().contains(kk));
                    assert(ids@.contains(kk));
                    let b = choose|b: int| 0 <= b < ids@.len() && ids@[b] == kk;
                    assert(!refers(m[ids@[b]], k));
                }
                assert(ids@.contains(k));
                assert(m.contains_key(k));
                assert forall|j: i32| unreferenced(m, j) implies k <= j by {
                    assert(ids@.contains(j));
                    let b = choose|b: int| 0 <= b < ids@.len() && ids@[b] == j;
                    if b < c {
                        assert(!unreferenced(m, ids@[b]));
                    } else if b > c {
                        assert(ids@[c as int] < ids@[b]);
                    }
                }
            }
            return Some(k);
        }
        c = c + 1;
    }
    proof {
        assert forall|j: i32| !unreferenced(m, j) by {
            if unreferenced(m, j) {
                assert(ids@.contains(j));
                let b = choose|b: int| 0 <= b < ids@.len() && ids@[b] == j;
                assert(!unreferenced(m, ids@[b]));
            }
        }
    }
    None
}

/// What the reader has gathered, as values the library holds.
struct ReadAcc {
    sizes: Vec<(u32, u32, u32)>,
    xyzi: Vec<Vec<(u8, u8, u8, u8)>>,
    palette: Palette,
    nodes: HashMap<NodeId, SceneNode>,
    max_id: i32,
    materials: MaterialTable,
    layers: Vec<Layer>,
}

impl ReadAcc {
    spec fn view(&self) -> ScanState {
        ScanState {
            sizes: self.sizes@,
            xyzi: self.xyzi@.map_values(|v: Vec<(u8, u8, u8, u8)>| v@),
            palette: self.palette.colors(),
            nodes: self.nodes@.map_values(|n: SceneNode| n@),
            max_id: self.max_id,
            materials: self.materials.slots(),
            legacy: self.materials.legacy(),
            layers: layer_views(self.layers@),
        }
    }

    spec fn wf(&self) -> bool {
        self.palette.wf() && self.materials.wf()
    }

    fn new() -> (a: Self)
        ensures
            a.wf(),
            a.view() == initial_scan(),
    {
        let a = ReadAcc {
            sizes: Vec::new(),
            xyzi: Vec::new(),
            palette: Palette::magicavoxel_default(),
            nodes: HashMap::new(),
            max_id: -1,
            materials: MaterialTable::new(),
            layers: Vec::new(),
        };
        proof {
            assert(a.view().xyzi =~= Seq::<Seq<(u8, u8, u8, u8)>>::empty());
            assert(a.view().nodes =~= Map::<i32, NodeView>::empty());
            assert(a.view().layers =~= Seq::<LayerView>::empty());
            assert(a.view().materials =~= initial_scan().materials);
            assert(a.view().legacy =~= Seq::<(u8, Seq<u8>)>::empty());
            assert forall|j: int| 0 <= j < 256 implies #[trigger] a.palette.colors()[j]
                == default_color(j) by {
                assert(a.palette.color(j) == default_color(j));
            }
            assert(a.view().palette =~= initial_scan().palette);
        }
        a
    }

    fn add_node(&mut self, node: SceneNode)
        ensures
            final(self).wf() == old(self).wf(),
            final(self).view() == add_node(old(self).view(), node@),
    {
        let id = node.id();
        self.nodes.insert(id, node);
        if id > self.max_id {
            self.max_id = id;
        }
        assert(self.view().nodes =~= add_node(old(self).view(), node@).nodes);
    }
}

fn is_tag(id: [u8; 4], a: u8, b: u8, c: u8, d: u8) -> (r: bool)
    ensures
        r == (id@ == seq![a, b, c, d]),
{
    let r = id[0] == a && id[1] == b && id[2] == c && id[3] == d;
    proof {
        if r {
            assert(id@ =~= seq![a, b, c, d]);
        } else if id@ == seq![a, b, c, d] {
            assert(id@[0] == a && id@[1] == b && id@[2] == c && id@[3] == d);
        }
    }
    r
}

fn read_xyzi(c: &[u8]) -> (r: Result<Vec<(u8, u8, u8, u8)>, VoxError>)
    ensures
        (c@.len() < 4 || c@.len() < 4 + 4 * le_u32(c@, 0)) ==> (r matches Err(VoxError::BadChunk(k))
            && k == ChunkKind::Xyzi),
        !(c@.len() < 4 || c@.len() < 4 + 4 * le_u32(c@, 0)) ==> (r matches Ok(v) && v@
            == xyzi_records(c@, le_u32(c@, 0))),
{
    if c.len() < 4 {
        return Err(bad(ChunkKind::Xyzi));
    }
    let n = read_u32(c, 0);
    if (c.len() as u64) < 4 + 4 * (n as u64) {
        return Err(bad(ChunkKind::Xyzi));
    }
    let mut voxels: Vec<(u8, u8, u8, u8)> = Vec::new();
    let mut i: usize = 0;
    let nu: usize = n as usize;
    let clen: usize = c.len();
    assert(nu == n);
    while i < nu
        invariant
            nu == n,
            clen == c@.len(),
            i <= n,
            n == le_u32(c@, 0),
            4 + 4 * n <= c@.len(),
            voxels@ == xyzi_records(c@, i as int),
        decreases n - i,
    {
        let o = 4 + 4 * i;
        voxels.push((c[o], c[o + 1], c[o + 2], c[o + 3]));
        assert(voxels@ =~= xyzi_records(c@, i + 1));
        i = i + 1;
    }
    Ok(voxels)
}

/// Apply one chunk of `MAIN` (id and content) to what has been read.
#[verifier::rlimit(60)]
#[verifier::spinoff_prover]
fn apply_chunk(acc: &mut ReadAcc, id: [u8; 4], c: &[u8]) -> (r: Result<(), VoxError>)
    requires
        old(acc).wf(),
    ensures
        match scan_step(old(acc).view(), id@, c@) {
            Ok(st) => r is Ok && final(acc).wf() && final(acc).view() == st,
            Err(k) => r matches Err(VoxError::BadChunk(kk)) && kk == k,
        },
{
    proof {
        reveal(scan_step);
    }
    if is_tag(id, 83, 73, 90, 69) {
        if c.len() < 12 {
            return Err(bad(ChunkKind::Size));
        }
        acc.sizes.push((read_u32(c, 0), read_u32(c, 4), read_u32(c, 8)));
        return Ok(());
    }
    if is_tag(id, 88, 89, 90, 73) {
        let v = read_xyzi(c)?;
        let ghost before = acc.xyzi@;
        acc.xyzi.push(v);
        assert(acc.view().xyzi =~= old(acc).view().xyzi.push(v@));
        return Ok(());
    }
    if is_tag(id, 82, 71, 66, 65) {
        let p = default_palette_from_bytes(c)?;
        acc.palette = p;
        return Ok(());
    }
    if is_tag(id, 110, 84, 82, 78) {
        let t = parse_ntrn(c)?;
        acc.add_node(SceneNode::Transform(t));
        return Ok(());
    }
    if is_tag(id, 110, 71, 82, 80) {
        let g = parse_ngrp(c)?;
        acc.add_node(SceneNode::Group(g));
        return Ok(());
    }
    if is_tag(id, 110, 83, 72, 80) {
        let sh = parse_nshp(c)?;
        acc.add_node(SceneNode::Shape(sh));
        return Ok(());
    }
    if is_tag(id, 77, 65, 84, 76) {
        match parse_matl_chunk(c) {
            Ok((mid, props)) => {
                acc.materials.insert_id(mid, props);
            },
            Err(_) => {},
        }
        return Ok(());
    }
    if is_tag(id, 77, 65, 84, 84) {
        if c.len() >= 16 {
            let mid = read_i32(c, 0);
            if 1 <= mid && mid <= 255 {
                let content = slice_of(c, 0, c.len());
                assert(c@.subrange(0, c@.len() as int) =~= c@);
                acc.materials.add_legacy(mid as u8, content);
            }
        }
        return Ok(());
    }
    if is_tag(id, 76, 65, 89, 82) {
        match parse_layr_chunk(c) {
            Ok(layer) => {
                let ghost before = acc.layers@;
                acc.layers.push(layer);
                assert(layer_views(acc.layers@) =~= layer_views(before).push(layer_view(layer)));
            },
            Err(_) => {},
        }
        return Ok(());
    }
    Ok(())
}

/// Why a listed model cannot be built: its size, or its first voxel
/// outside the volume.
pub open spec fn model_error(size: (u32, u32, u32), v: Seq<(u8, u8, u8, u8)>) -> Option<CoreError> {
    let (sx, sy, sz) = size;
    if !(1 <= sx <= 256 && 1 <= sy <= 256 && 1 <= sz <= 256) {
        Some(CoreError::InvalidSize(sx, sy, sz))
    } else {
        match sparse_error(sx as int, sy as int, sz as int, v) {
            Some((x, y, z)) => Some(
                CoreError::OutOfBounds { x: x as i32, y: y as i32, z: z as i32, sx, sy, sz },
            ),
            None => None,
        }
    }
}

/// The number of models: pairs of `SIZE` and `XYZI` chunks.
pub open spec fn model_count(st: ScanState) -> int {
    if st.sizes.len() < st.xyzi.len() {
        st.sizes.len() as int
    } else {
        st.xyzi.len() as int
    }
}

/// The error of the first of the first `n` models that cannot be built.
pub open spec fn first_model_error(st: ScanState, n: int) -> Option<CoreError>
    decreases n,
{
    if n <= 0 {
        None
    } else {
        match first_model_error(st, n - 1) {
            Some(e) => Some(e),
            None => model_error(st.sizes[n - 1], st.xyzi[n - 1]),
        }
    }
}

/// A model of the given size holding the listed voxels (a later entry at a
/// position wins, color 0 is empty).
pub open spec fn built_from(m: VoxelModel, size: (u32, u32, u32), v: Seq<(u8, u8, u8, u8)>) -> bool {
    &&& m.wf()
    &&& m.sx() == size.0
    &&& m.sy() == size.1
    &&& m.sz() == size.2
    &&& forall|x: int, y: int, z: int| #[trigger]
        m.voxel(x, y, z) == if m.contains(x, y, z) {
            sparse_value(v, x, y, z)
        } else {
            0
        }
}

/// Node `k` of the scene built for `n` models of a file without a scene
/// graph: root transform 0 over group 1 (`root`), which holds, per model
/// `i`, transform `3 + 2i` (`model_<i>`, 40 units apart along x) over shape `2 + 2i`.
pub open spec fn default_node(n: int, k: i32) -> NodeView {
    if k == 0 {
        NodeView::Transform {
            id: 0,
            name: Seq::empty(),
            hidden: false,
            child: 1,
            translation: IVec3 { x: 0, y: 0, z: 0 },
            rotation: 0,
            layer_id: -1i32,
        }
    } else if k == 1 {
        NodeView::Group {
            id: 1,
            name: seq!['r', 'o', 'o', 't'],
            children: Seq::new(n as nat, |i: int| (3 + 2 * i) as i32),
        }
    } else if k % 2 == 0 {
        NodeView::Shape { id: k, model_ids: seq![((k - 2) / 2) as usize] }
    } else {
        let mid = (k - 3) / 2;
        NodeView::Transform {
            id: k,
            name: seq!['m', 'o', 'd', 'e', 'l', '_'] + decimal(mid),
            hidden: false,
            child: (k - 1) as i32,
            translation: IVec3 { x: (mid * 40) as i32, y: 0, z: 0 },
            rotation: 0,
            layer_id: 0,
        }
    }
}

/// The scene graph built for `n` models of a file without one.
pub open spec fn default_graph(n: int) -> SceneGraph {
    if n == 1 {
        single_model_graph()
    } else {
        SceneGraph {
            nodes: Map::new(|k: i32| 0 <= k <= 1 + 2 * n, |k: i32| default_node(n, k)),
            root: 0,
            next_id: (2 + 2 * n) as i32,
        }
    }
}

/// What a successful read gives, from the gathered chunks.
pub open spec fn read_scene_ok(scene: Scene, pal: Palette, st: ScanState) -> bool {
    let n = model_count(st);
    &&& scene.wf()
    &&& pal.wf()
    &&& pal.colors() == st.palette
    &&& scene.models@.len() == n
    &&& forall|i: int| 0 <= i < n ==> built_from(#[trigger] scene.models@[i], st.sizes[i], st.xyzi[i])
    &&& st.nodes.is_empty() ==> scene.graph() == default_graph(n)
    &&& !st.nodes.is_empty() ==> {
        &&& scene.graph().nodes == st.nodes
        &&& is_root_of(st.nodes, scene.root)
        &&& scene.next_id == st.max_id.wrapping_add(1)
    }
    &&& scene.materials.slots() == st.materials
    &&& scene.materials.legacy() == st.legacy
    &&& st.layers.len() == 0 ==> is_standard_eight(scene.layers.layers@)
    &&& st.layers.len() > 0 ==> exists|input: Seq<Layer>|
        layer_views(input) == st.layers && stable_sorted_by_id(scene.layers.layers@, input)
}

fn model_label(mid: usize) -> (s: String)
    requires
        mid <= 0x7fff_ffff,
    ensures
        s@ == seq!['m', 'o', 'd', 'e', 'l', '_'] + decimal(mid as int),
{
    let mut cs: Vec<char> = Vec::new();
    cs.push('m');
    cs.push('o');
    cs.push('d');
    cs.push('e');
    cs.push('l');
    cs.push('_');
    let ds = chars_of(decimal_string(mid as i64).as_str());
    let mut i: usize = 0;
    while i < ds.len()
        invariant
            i <= ds.len(),
            ds@ == decimal(mid as int),
            cs@ == seq!['m', 'o', 'd', 'e', 'l', '_'] + ds@.subrange(0, i as int),
        decreases ds.len() - i,
    {
        cs.push(ds[i]);
        assert(ds@.subrange(0, i + 1) == ds@.subrange(0, i as int).push(ds@[i as int]));
        i = i + 1;
    }
    assert(ds@.subrange(0, ds.len() as int) == ds@);
    string_of(cs.as_slice())
}

proof fn lemma_view_insert(m: Map<i32, SceneNode>, k: i32, v: SceneNode)
    ensures
        m.insert(k, v).map_values(|x: SceneNode| x@) == m.map_values(|x: SceneNode| x@).insert(k, v@),
{
    assert(m.insert(k, v).map_values(|x: SceneNode| x@) =~= m.map_values(|x: SceneNode| x@).insert(
        k,
        v@,
    ));
}

/// The scene of a file without a scene graph, for two or more models.
fn build_default_scene(models: Vec<VoxelModel>) -> (s: Scene)
    requires
        2 <= models@.len() <= 53_687_092,
        forall|i: int| 0 <= i < models@.len() ==> (#[trigger] models@[i]).wf(),
    ensures
        s.wf(),
        s.models@ == models@,
        s.graph() == default_graph(models@.len() as int),
        s.materials.slots() == default_slots(),
        s.materials.legacy().len() == 0,
        is_standard_eight(s.layers.layers@),
{
    let n = models.len();
    let ghost nn = n as int;
    let mut nodes: HashMap<NodeId, SceneNode> = HashMap::new();
    let mut children: Vec<NodeId> = Vec::new();
    let mut mid: usize = 0;
    assert(nodes@.map_values(|x: SceneNode| x@) =~= Map::new(
        |k: i32| 2 <= k < 2 + 2 * 0,
        |k: i32| default_node(nn, k),
    ));
    while mid < n
        invariant
            mid <= n,
            n == nn,
            n <= 53_687_092,
            nodes@.map_values(|x: SceneNode| x@) == Map::new(
                |k: i32| 2 <= k < 2 + 2 * mid,
                |k: i32| default_node(nn, k),
            ),
            children@ == Seq::new(mid as nat, |i: int| (3 + 2 * i) as i32),
        decreases n - mid,
    {
        let shape_id: i32 = (2 + 2 * mid) as i32;
        let trn_id: i32 = shape_id + 1;
        let mut model_ids: Vec<usize> = Vec::new();
        model_ids.push(mid);
        let shape = SceneNode::Shape(ShapeNode { id: shape_id, model_ids });
        proof {
            assert(shape_id % 2 == 0);
            assert(((shape_id - 2) / 2) as int == mid as int);
            assert(shape@ =~~= default_node(nn, shape_id));
        }
        let ghost before = nodes@;
        proof {
            lemma_view_insert(before, shape_id, shape);
        }
        nodes.insert(shape_id, shape);
        let ghost mid_map = nodes@;
        let name = model_label(mid);
        let trn = SceneNode::Transform(
            TransformNode {
                id: trn_id,
                name,
                hidden: false,
                child: shape_id,
                translation: IVec3::new((mid as i32) * 40, 0, 0),
                rotation: MvRotation::identity(),
                layer_id: 0,
            },
        );
        proof {
            assert(trn_id % 2 == 1);
            assert(((trn_id - 3) / 2) as int == mid as int);
            assert(trn@ =~~= default_node(nn, trn_id));
        }
        proof {
            lemma_view_insert(mid_map, trn_id, trn);
        }
        nodes.insert(trn_id, trn);
        children.push(trn_id);
        proof {
            assert(nodes@.map_values(|x: SceneNode| x@) =~= Map::new(
                |k: i32| 2 <= k < 2 + 2 * (mid + 1),
                |k: i32| default_node(nn, k),
            ));
            assert(children@ =~= Seq::new((mid + 1) as nat, |i: int| (3 + 2 * i) as i32));
        }
        mid = mid + 1;
    }
    let gname = string_of(&['r', 'o', 'o', 't']);
    let group = SceneNode::Group(GroupNode { id: 1, name: gname, children });
    proof {
        assert(group@ =~~= default_node(nn, 1));
    }
    proof {
        lemma_view_insert(nodes@, 1, group);
    }
    nodes.insert(1, group);
    let root = SceneNode::Transform(
        TransformNode {
            id: 0,
            name: String::new(),
            hidden: false,
            child: 1,
            translation: IVec3::new(0, 0, 0),
            rotation: MvRotation::identity(),
            layer_id: -1,
        },
    );
    proof {
        assert(root@ =~~= default_node(nn, 0));
    }
    proof {
        lemma_view_insert(nodes@, 0, root);
    }
    nodes.insert(0, root);
    let s = Scene {
        models,
        nodes,
        root: 0,
        next_id: (2 + 2 * n) as i32,
        layers: LayerTable::standard_eight(),
        materials: MaterialTable::new(),
    };
    assert(s.graph().nodes =~= default_graph(nn).nodes);
    s
}

/// Read the chunk at `offset` into `acc`; the offset after its children
/// (at most the data's length).
fn read_chunk(data: &[u8], offset: usize, end: usize, acc: &mut ReadAcc) -> (r: Result<usize, VoxError>)
    requires
        old(acc).wf(),
        offset < end <= data@.len(),
    ensures
        r matches Err(e) ==> (e matches VoxError::BadChunk(k) && scan(
            data@,
            offset as int,
            end as int,
            old(acc).view(),
        ) == Err::<ScanState, ChunkKind>(k)),
        r matches Ok(next) ==> final(acc).wf() && offset < next <= data@.len() && scan(
            data@,
            offset as int,
            end as int,
            old(acc).view(),
        ) == scan(data@, next as int, end as int, final(acc).view()),
{
    if data.len() - offset < 12 {
        return Err(bad(ChunkKind::Header));
    }
    let cs = read_u32(data, offset + 4);
    let chs = read_u32(data, offset + 8);
    let cstart = offset + 12;
    if cs as usize > data.len() - cstart {
        return Err(bad(ChunkKind::Content));
    }
    let cend = cstart + cs as usize;
    let id = [data[offset], data[offset + 1], data[offset + 2], data[offset + 3]];
    proof {
        assert(id@ =~= data@.subrange(offset as int, offset + 4));
    }
    let content = slice_of(data, cstart, cend);
    let ghost before = acc.view();
    proof {
        assert(scan(data@, offset as int, end as int, before) == match scan_step(
            before,
            id@,
            content@,
        ) {
            Err(k) => Err(k),
            Ok(st2) => scan(data@, offset + 12 + cs + chs, end as int, st2),
        });
    }
    apply_chunk(acc, id, content.as_slice())?;
    let next = if chs as usize > data.len() - cend {
        data.len()
    } else {
        cend + chs as usize
    };
    proof {
        let after_end: int = offset + 12 + cs + chs;
        assert(before == old(acc).view());
        assert(scan_step(before, id@, content@) == Ok::<ScanState, ChunkKind>(acc.view()));
        assert(scan(data@, offset as int, end as int, before) == scan(data@, after_end, end as int, acc.view()));
        if next != after_end {
            assert(after_end > data@.len());
            assert(scan(data@, after_end, end as int, acc.view()) == Ok::<ScanState, ChunkKind>(
                acc.view(),
            ));
            assert(scan(data@, next as int, end as int, acc.view()) == Ok::<ScanState, ChunkKind>(
                acc.view(),
            ));
        }
    }
    Ok(next)
}

proof fn lemma_first_error_prefix(st: ScanState, i: int, n: int)
    requires
        0 <= i <= n,
        first_model_error(st, i) is Some,
    ensures
        first_model_error(st, n) == first_model_error(st, i),
    decreases n - i,
{
    if i < n {
        lemma_first_error_prefix(st, i, n - 1);
    }
}

/// Read a `.vox` file: the models of its `SIZE`/`XYZI` pairs, its palette,
/// its scene graph (or, without one, a default layout of the models), its
/// materials and its layers.
pub fn read_vox_scene(data: &[u8]) -> (r: Result<(Scene, Palette), VoxError>)
    ensures
        match parse_vox(data@) {
            Err(ReadFailure::Magic) => r matches Err(VoxError::BadMagic),
            Err(ReadFailure::Version(v)) => r matches Err(VoxError::BadVersion(vv)) && vv == v,
            Err(ReadFailure::Chunk(k)) => r matches Err(VoxError::BadChunk(kk)) && kk == k,
            Ok(st) => if st.sizes.len() == 0 || st.xyzi.len() == 0 {
                r matches Err(VoxError::Msg(m)) && m@ == "no SIZE/XYZI model in file"@
            } else {
                match first_model_error(st, model_count(st)) {
                    Some(e) => r matches Err(VoxError::Core(ee)) && ee == e,
                    None => if st.nodes.is_empty() && model_count(st) > 53_687_092 {
                        r matches Err(VoxError::Msg(m)) && m@ == "too many models"@
                    } else {
                        r matches Ok((scene, pal)) && read_scene_ok(scene, pal, st)
                    },
                }
            },
        },
{
    broadcast use vstd::string::to_string_from_display_ensures_for_str;

    if data.len() < 8 {
        return Err(VoxError::BadMagic);
    }
    if !is_tag([data[0], data[1], data[2], data[3]], 86, 79, 88, 32) {
        proof {
            assert([data[0], data[1], data[2], data[3]]@ =~= data@.subrange(0, 4));
        }
        return Err(VoxError::BadMagic);
    }
    proof {
        assert([data[0], data[1], data[2], data[3]]@ =~= data@.subrange(0, 4));
    }
    let version = read_u32(data, 4);
    if version != 150 && version != 200 {
        return Err(VoxError::BadVersion(version));
    }
    if data.len() < 20 {
        return Err(bad(ChunkKind::Header));
    }
    let main_content = read_u32(data, 12);
    let main_children = read_u32(data, 16);
    if main_content as usize > data.len() - 20 {
        return Err(bad(ChunkKind::Content));
    }
    let main_id = [data[8], data[9], data[10], data[11]];
    proof {
        assert(main_id@ =~= data@.subrange(8, 12));
    }
    if !is_tag(main_id, 77, 65, 73, 78) {
        return Err(bad(ChunkKind::Main));
    }
    if main_children as usize > data.len() - 20 {
        return Err(bad(ChunkKind::Main));
    }
    let end: usize = 20 + main_children as usize;
    let mut offset: usize = 20;
    let mut acc = ReadAcc::new();
    let ghost total = scan(data@, 20, end as int, initial_scan());
    assert(parse_vox(data@) == match total {
        Err(k) => Err(ReadFailure::Chunk(k)),
        Ok(st) => Ok(st),
    });
    while offset < end
        invariant
            parse_vox(data@) == match total {
                Err(k) => Err(ReadFailure::Chunk(k)),
                Ok(st) => Ok(st),
            },
            acc.wf(),
            end <= data@.len(),
            offset <= data@.len(),
            total == scan(data@, 20, end as int, initial_scan()),
            total == scan(data@, offset as int, end as int, acc.view()),
        decreases data@.len() - offset,
    {
        offset = read_chunk(data, offset, end, &mut acc)?;
    }
    let ghost st = acc.view();
    assert(parse_vox(data@) == Ok::<ScanState, ReadFailure>(st));
    if acc.sizes.len() == 0 || acc.xyzi.len() == 0 {
        return Err(VoxError::Msg("no SIZE/XYZI model in file".to_string()));
    }
    let count = if acc.sizes.len() < acc.xyzi.len() {
        acc.sizes.len()
    } else {
        acc.xyzi.len()
    };
    let mut models: Vec<VoxelModel> = Vec::new();
    let mut i: usize = 0;
    while i < count
        invariant
            i <= count,
            parse_vox(data@) == Ok::<ScanState, ReadFailure>(st),
            st.sizes.len() > 0 && st.xyzi.len() > 0,
            count == model_count(st),
            st == acc.view(),
            first_model_error(st, i as int) is None,
            models@.len() == i,
            forall|j: int| 0 <= j < i ==> built_from(#[trigger] models@[j], st.sizes[j], st.xyzi[j]),
        decreases count - i,
    {
        let (sx, sy, sz) = acc.sizes[i];
        match VoxelModel::from_sparse(sx, sy, sz, acc.xyzi[i].as_slice()) {
            Ok(m) => {
                assert(acc.xyzi@[i as int]@ == st.xyzi[i as int]);
                models.push(m);
            },
            Err(e) => {
                proof {
                    assert(acc.xyzi@[i as int]@ == st.xyzi[i as int]);
                    assert(first_model_error(st, i + 1) == Some(e));
                    lemma_first_error_prefix(st, i + 1, count as int);
                }
                return Err(VoxError::Core(e));
            },
        }
        i = i + 1;
    }
    let ghost layer_views_in = layer_views(acc.layers@);
    let ghost layers_in = acc.layers@;
    let layers = LayerTable::from_layers(acc.layers);
    let ReadAcc { sizes: _, xyzi: _, palette, nodes, max_id, materials, layers: _ } = acc;
    if nodes.is_empty() {
        assert(st.nodes.is_empty()) by {
            assert(st.nodes.dom() =~= nodes@.dom());
        }
        if count > 53_687_092 {
            return Err(VoxError::Msg("too many models".to_string()));
        }
        let mut scene = if count == 1 {
            let m = models.pop().unwrap();
            Scene::from_single_model(m)
        } else {
            build_default_scene(models)
        };
        scene.layers = layers;
        scene.materials = materials;
        return Ok((scene, palette));
    }
    assert(!st.nodes.is_empty()) by {
        assert(st.nodes.dom() =~= nodes@.dom());
    }
    let root = match find_root(&nodes) {
        Some(k) => k,
        None => 0,
    };
    let scene = Scene {
        models,
        nodes,
        root,
        next_id: max_id.wrapping_add(1),
        layers,
        materials,
    };
    Ok((scene, palette))
}

} // verus!
