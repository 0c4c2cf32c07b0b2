//! What reading gives back of what writing wrote: the chunk structure of a
//! written file, and each chunk read back.

use vstd::prelude::*;
use vstd::utf8::encode_utf8;
use crate::dict::{
    u32_bytes, le_u32, le_i32, lemma_u32_bytes, enc_dict, parse_dict, lemma_dict_roundtrip,
    fits_pairs, fits_string, dict_get, parse_ivec3, dict_has_negative_string,
    lemma_negative_string_refused,
};
use crate::reader::{scan, scan_step, ScanState, xyzi_records, rgba_colors, parse_vox, initial_scan, ReadFailure};
use crate::layer::{LayerView, layer_view, layer_views};
use crate::material::{non_default_upto, default_slots};
use crate::scene::Scene;
use crate::writer::{
    enc_nodes, enc_matls, enc_layers, vox_children, enc_vox, tag_vox, tag_main, ascending_keys,
    tag_trn, tag_grp, tag_shp, tag_matl, tag_matt, tag_layr,
    enc_chunk, enc_voxels, enc_model, enc_models, tag_size, tag_xyzi, tag_rgba, rgba_payload,
    channel,
};
use crate::scene::{NodeView, node_id_of};
use crate::reader::{parse_trn, parse_grp, parse_shp, parse_ids, parse_model_refs, parse_frames, attr_name, attr_hidden, parse_rgb, parse_layr, parse_matl, add_node};
use crate::writer::{enc_node, enc_ids, enc_shape_models, trn_attrs, trn_frame, ivec3_text, key_name, key_hidden, key_t, key_r, key_color, layer_attrs, enc_layer, enc_matl};
use crate::text::{decimal, lemma_words3, lemma_parse_decimal, lemma_decimal_no_ws, parse_i32, parse_u8, lemma_decimal_digits, decimal_digits, is_digit};
use crate::model::IVec3;
use crate::layer::Layer;
use vstd::utf8::is_ascii_chars;
use crate::model::{VoxelModel, occupied_upto, sparse_error, sparse_value};
use crate::grid::{in_volume, cell_index, cell_x, cell_y, cell_z, volume, lemma_decode_index, lemma_index_decodes, lemma_index_injective};
use crate::reader::{built_from, model_error, first_model_error, model_count, read_scene_ok, default_graph};
use crate::palette::{ColorRgba, Palette, default_color};
use crate::layer::{stable_sorted_by_id, is_standard_eight};
use crate::vox::{ChunkKind, single_model_file};
use crate::scene::single_model_graph;

verus! {

/// Chunks without children, one after another.
pub open spec fn enc_chunks(cs: Seq<(Seq<u8>, Seq<u8>)>) -> Seq<u8>
    decreases cs.len(),
{
    if cs.len() == 0 {
        Seq::empty()
    } else {
        enc_chunks(cs.drop_last()) + enc_chunk(cs.last().0, cs.last().1, Seq::empty())
    }
}

/// Reading chunks one after another.
pub open spec fn fold_steps(st: ScanState, cs: Seq<(Seq<u8>, Seq<u8>)>) -> Result<ScanState, ChunkKind>
    decreases cs.len(),
{
    if cs.len() == 0 {
        Ok(st)
    } else {
        match fold_steps(st, cs.drop_last()) {
            Err(k) => Err(k),
            Ok(s1) => scan_step(s1, cs.last().0, cs.last().1),
        }
    }
}

pub proof fn lemma_enc_chunks_concat(a: Seq<(Seq<u8>, Seq<u8>)>, b: Seq<(Seq<u8>, Seq<u8>)>)
    ensures
        enc_chunks(a + b) == enc_chunks(a) + enc_chunks(b),
    decreases b.len(),
{
    if b.len() == 0 {
        assert(a + b =~= a);
        assert(enc_chunks(a) + enc_chunks(b) =~= enc_chunks(a));
    } else {
        lemma_enc_chunks_concat(a, b.drop_last());
        assert((a + b).drop_last() =~= a + b.drop_last());
        assert((a + b).last() == b.last());
    }
}

pub proof fn lemma_fold_concat(st: ScanState, a: Seq<(Seq<u8>, Seq<u8>)>, b: Seq<(Seq<u8>, Seq<u8>)>)
    ensures
        fold_steps(st, a + b) == match fold_steps(st, a) {
            Err(k) => Err(k),
            Ok(s1) => fold_steps(s1, b),
        },
    decreases b.len(),
{
    if b.len() == 0 {
        assert(a + b =~= a);
    } else {
        lemma_fold_concat(st, a, b.drop_last());
        assert((a + b).drop_last() =~= a + b.drop_last());
        assert((a + b).last() == b.last());
    }
}

/// A chunk written at `off` is read as one step.
pub proof fn lemma_chunk_scan(
    data: Seq<u8>,
    off: int,
    end: int,
    st: ScanState,
    id: Seq<u8>,
    c: Seq<u8>,
)
    requires
        0 <= off,
        id.len() == 4,
        c.len() < 0x1_0000_0000,
        off + 12 + c.len() <= end <= data.len(),
        data.subrange(off, off + 12 + c.len()) == enc_chunk(id, c, Seq::empty()),
    ensures
        scan(data, off, end, st) == match scan_step(st, id, c) {
            Err(k) => Err(k),
            Ok(st2) => scan(data, off + 12 + c.len(), end, st2),
        },
{
    let e = enc_chunk(id, c, Seq::empty());
    assert(data.subrange(off + 4, off + 8) == e.subrange(4, 8));
    assert(e.subrange(4, 8) == u32_bytes(c.len() as int));
    lemma_u32_bytes(data, off + 4, c.len() as int);
    assert(data.subrange(off + 8, off + 12) == e.subrange(8, 12));
    assert(e.subrange(8, 12) == u32_bytes(0));
    lemma_u32_bytes(data, off + 8, 0);
    assert(data.subrange(off, off + 4) == e.subrange(0, 4));
    assert(e.subrange(0, 4) == id);
    assert(data.subrange(off + 12, off + 12 + c.len()) == e.subrange(12, 12 + c.len() as int));
    assert(e.subrange(12, 12 + c.len() as int) == c);
}

/// Chunks written at `off` are read one after another.
pub proof fn lemma_chunks_scan(
    data: Seq<u8>,
    off: int,
    end: int,
    st: ScanState,
    cs: Seq<(Seq<u8>, Seq<u8>)>,
)
    requires
        0 <= off,
        off + enc_chunks(cs).len() <= end <= data.len(),
        data.subrange(off, off + enc_chunks(cs).len()) == enc_chunks(cs),
        forall|i: int| 0 <= i < cs.len() ==> (#[trigger] cs[i]).0.len() == 4,
        end < 0x1_0000_0000,
    ensures
        scan(data, off, end, st) == match fold_steps(st, cs) {
            Err(k) => Err(k),
            Ok(st2) => scan(data, off + enc_chunks(cs).len(), end, st2),
        },
    decreases cs.len(),
{
    if cs.len() > 0 {
        let p = cs.drop_last();
        let (id, c) = cs.last();
        let ep = enc_chunks(p);
        let el = enc_chunk(id, c, Seq::empty());
        assert(enc_chunks(cs) == ep + el);
        assert(data.subrange(off, off + ep.len()) == enc_chunks(cs).subrange(0, ep.len() as int));
        assert(enc_chunks(cs).subrange(0, ep.len() as int) == ep);
        assert forall|i: int| 0 <= i < p.len() implies (#[trigger] p[i]).0.len() == 4 by {
            assert(p[i] == cs[i]);
        }
        lemma_chunks_scan(data, off, end, st, p);
        assert(cs[cs.len() - 1].0.len() == 4);
        let o: int = off + ep.len() as int;
        assert(data.subrange(o, o + el.len()) == enc_chunks(cs).subrange(
            ep.len() as int,
            enc_chunks(cs).len() as int,
        ));
        assert(enc_chunks(cs).subrange(ep.len() as int, enc_chunks(cs).len() as int) == el);
        match fold_steps(st, p) {
            Err(k) => {},
            Ok(s1) => {
                lemma_chunk_scan(data, o, end, s1, id, c);
            },
        }
    }
}

pub open spec fn size_content(m: VoxelModel) -> Seq<u8> {
    u32_bytes(m.sx() as int) + u32_bytes(m.sy() as int) + u32_bytes(m.sz() as int)
}

pub open spec fn xyzi_content(m: VoxelModel) -> Seq<u8> {
    u32_bytes(m.occupied().len() as int) + enc_voxels(m.occupied())
}

/// The `SIZE` and `XYZI` chunks of the models.
pub open spec fn model_chunks(ms: Seq<VoxelModel>) -> Seq<(Seq<u8>, Seq<u8>)>
    decreases ms.len(),
{
    if ms.len() == 0 {
        Seq::empty()
    } else {
        model_chunks(ms.drop_last()) + seq![
            (tag_size(), size_content(ms.last())),
            (tag_xyzi(), xyzi_content(ms.last())),
        ]
    }
}

pub open spec fn model_sizes(ms: Seq<VoxelModel>) -> Seq<(u32, u32, u32)> {
    ms.map_values(|m: VoxelModel| (m.sx(), m.sy(), m.sz()))
}

pub open spec fn model_voxels(ms: Seq<VoxelModel>) -> Seq<Seq<(u8, u8, u8, u8)>> {
    ms.map_values(|m: VoxelModel| m.occupied())
}

proof fn lemma_enc_chunks_two(a: (Seq<u8>, Seq<u8>), b: (Seq<u8>, Seq<u8>))
    ensures
        enc_chunks(seq![a, b]) == enc_chunk(a.0, a.1, Seq::empty()) + enc_chunk(
            b.0,
            b.1,
            Seq::empty(),
        ),
{
    assert(seq![a, b].drop_last() =~= seq![a]);
    assert(seq![a].drop_last() =~= Seq::<(Seq<u8>, Seq<u8>)>::empty());
    assert(enc_chunks(Seq::<(Seq<u8>, Seq<u8>)>::empty()) == Seq::<u8>::empty());
    assert(enc_chunks(seq![a]) =~= enc_chunk(a.0, a.1, Seq::empty()));
}

pub proof fn lemma_model_chunks_enc(ms: Seq<VoxelModel>)
    ensures
        enc_models(ms) == enc_chunks(model_chunks(ms)),
        forall|i: int| 0 <= i < model_chunks(ms).len() ==> (#[trigger] model_chunks(ms)[i]).0.len() == 4,
    decreases ms.len(),
{
    if ms.len() > 0 {
        let m = ms.last();
        lemma_model_chunks_enc(ms.drop_last());
        let a = (tag_size(), size_content(m));
        let b = (tag_xyzi(), xyzi_content(m));
        lemma_enc_chunks_concat(model_chunks(ms.drop_last()), seq![a, b]);
        lemma_enc_chunks_two(a, b);
        let mc = model_chunks(ms);
        assert forall|i: int| 0 <= i < mc.len() implies (#[trigger] mc[i]).0.len() == 4 by {
            if i < model_chunks(ms.drop_last()).len() {
                assert(mc[i] == model_chunks(ms.drop_last())[i]);
            }
        }
    }
}

/// `XYZI` records: four bytes per voxel.
pub proof fn lemma_enc_voxels(v: Seq<(u8, u8, u8, u8)>)
    ensures
        enc_voxels(v).len() == 4 * v.len(),
        forall|i: int|
            0 <= i < v.len() ==> {
                &&& #[trigger] enc_voxels(v)[4 * i] == v[i].0
                &&& enc_voxels(v)[4 * i + 1] == v[i].1
                &&& enc_voxels(v)[4 * i + 2] == v[i].2
                &&& enc_voxels(v)[4 * i + 3] == v[i].3
            },
    decreases v.len(),
{
    if v.len() > 0 {
        lemma_enc_voxels(v.drop_last());
        let p = enc_voxels(v.drop_last());
        assert forall|i: int| 0 <= i < v.len() implies {
            &&& #[trigger] enc_voxels(v)[4 * i] == v[i].0
            &&& enc_voxels(v)[4 * i + 1] == v[i].1
            &&& enc_voxels(v)[4 * i + 2] == v[i].2
            &&& enc_voxels(v)[4 * i + 3] == v[i].3
        } by {
            if i < v.len() - 1 {
                assert(v.drop_last()[i] == v[i]);
                assert(enc_voxels(v.drop_last())[4 * i] == v[i].0);
            }
        }
    }
}

/// The occupied cells are at most the cells.
proof fn lemma_occupied_len(sx: int, sy: int, cells: Seq<u8>, n: int)
    ensures
        occupied_upto(sx, sy, cells, n).len() <= if n > 0 { n } else { 0 },
    decreases n,
{
    if n > 0 {
        lemma_occupied_len(sx, sy, cells, n - 1);
    }
}

proof fn lemma_tags_differ()
    ensures
        tag_size() != tag_xyzi(),
        tag_size() != tag_rgba(),
        tag_xyzi() != tag_rgba(),
        tag_size() != tag_trn(),
        tag_xyzi() != tag_trn(),
        tag_rgba() != tag_trn(),
        tag_size() != tag_grp(),
        tag_xyzi() != tag_grp(),
        tag_rgba() != tag_grp(),
        tag_trn() != tag_grp(),
        tag_size() != tag_shp(),
        tag_xyzi() != tag_shp(),
        tag_rgba() != tag_shp(),
        tag_trn() != tag_shp(),
        tag_grp() != tag_shp(),
        tag_size() != tag_matl(),
        tag_xyzi() != tag_matl(),
        tag_rgba() != tag_matl(),
        tag_trn() != tag_matl(),
        tag_grp() != tag_matl(),
        tag_shp() != tag_matl(),
        tag_size() != tag_layr(),
        tag_xyzi() != tag_layr(),
        tag_rgba() != tag_layr(),
        tag_trn() != tag_layr(),
        tag_grp() != tag_layr(),
        tag_shp() != tag_layr(),
        tag_matl() != tag_layr(),
        tag_matt() != tag_layr(),
{
    assert(tag_size()[0] != tag_xyzi()[0]);
    assert(tag_size()[0] != tag_rgba()[0]);
    assert(tag_xyzi()[0] != tag_rgba()[0]);
    assert(tag_size()[0] != tag_trn()[0]);
    assert(tag_xyzi()[0] != tag_trn()[0]);
    assert(tag_rgba()[0] != tag_trn()[0]);
    assert(tag_size()[0] != tag_grp()[0]);
    assert(tag_xyzi()[0] != tag_grp()[0]);
    assert(tag_rgba()[0] != tag_grp()[0]);
    assert(tag_trn()[1] != tag_grp()[1]);
    assert(tag_size()[0] != tag_shp()[0]);
    assert(tag_xyzi()[0] != tag_shp()[0]);
    assert(tag_rgba()[0] != tag_shp()[0]);
    assert(tag_trn()[1] != tag_shp()[1]);
    assert(tag_grp()[1] != tag_shp()[1]);
    assert(tag_size()[0] != tag_matl()[0]);
    assert(tag_xyzi()[0] != tag_matl()[0]);
    assert(tag_rgba()[0] != tag_matl()[0]);
    assert(tag_trn()[0] != tag_matl()[0]);
    assert(tag_grp()[0] != tag_matl()[0]);
    assert(tag_shp()[0] != tag_matl()[0]);
    assert(tag_size()[0] != tag_layr()[0]);
    assert(tag_xyzi()[0] != tag_layr()[0]);
    assert(tag_rgba()[0] != tag_layr()[0]);
    assert(tag_trn()[0] != tag_layr()[0]);
    assert(tag_grp()[0] != tag_layr()[0]);
    assert(tag_shp()[0] != tag_layr()[0]);
    assert(tag_matl()[0] != tag_layr()[0]);
    assert(tag_matt()[0] != tag_layr()[0]);
}

proof fn lemma_step_size(st: ScanState, c: Seq<u8>)
    ensures
        scan_step(st, tag_size(), c) == if c.len() < 12 {
            Err(ChunkKind::Size)
        } else {
            Ok(
                ScanState {
                    sizes: st.sizes.push(
                        (le_u32(c, 0) as u32, le_u32(c, 4) as u32, le_u32(c, 8) as u32),
                    ),
                    ..st
                },
            )
        },
{
    reveal(scan_step);
}

proof fn lemma_step_xyzi(st: ScanState, c: Seq<u8>)
    ensures
        scan_step(st, tag_xyzi(), c) == if c.len() < 4 || c.len() < 4 + 4 * le_u32(c, 0) {
            Err(ChunkKind::Xyzi)
        } else {
            Ok(ScanState { xyzi: st.xyzi.push(xyzi_records(c, le_u32(c, 0))), ..st })
        },
{
    reveal(scan_step);
    lemma_tags_differ();
}

proof fn lemma_step_rgba(st: ScanState, c: Seq<u8>)
    ensures
        scan_step(st, tag_rgba(), c) == if c.len() < 1024 {
            Err(ChunkKind::Rgba)
        } else {
            Ok(ScanState { palette: rgba_colors(c), ..st })
        },
{
    reveal(scan_step);
    lemma_tags_differ();
}

proof fn lemma_size_step(st: ScanState, m: VoxelModel)
    requires
        m.wf(),
    ensures
        scan_step(st, tag_size(), size_content(m)) == Ok::<ScanState, ChunkKind>(
            ScanState { sizes: st.sizes.push((m.sx(), m.sy(), m.sz())), ..st },
        ),
{
    lemma_step_size(st, size_content(m));
    let c = size_content(m);
    assert(c.subrange(0, 4) == u32_bytes(m.sx() as int));
    assert(c.subrange(4, 8) == u32_bytes(m.sy() as int));
    assert(c.subrange(8, 12) == u32_bytes(m.sz() as int));
    lemma_u32_bytes(c, 0, m.sx() as int);
    lemma_u32_bytes(c, 4, m.sy() as int);
    lemma_u32_bytes(c, 8, m.sz() as int);
}

proof fn lemma_xyzi_step(st: ScanState, m: VoxelModel)
    requires
        m.wf(),
    ensures
        scan_step(st, tag_xyzi(), xyzi_content(m)) == Ok::<ScanState, ChunkKind>(
            ScanState { xyzi: st.xyzi.push(m.occupied()), ..st },
        ),
{
    lemma_step_xyzi(st, xyzi_content(m));
    let v = m.occupied();
    let c = xyzi_content(m);
    crate::grid::lemma_volume_bound(m.sx() as int, m.sy() as int, m.sz() as int);
    lemma_occupied_len(m.sx() as int, m.sy() as int, m.cells(), m.cells().len() as int);
    lemma_enc_voxels(v);
    assert(c.subrange(0, 4) == u32_bytes(v.len() as int));
    lemma_u32_bytes(c, 0, v.len() as int);
    assert(tag_xyzi()[0] != tag_size()[0]);
    assert forall|i: int| 0 <= i < v.len() implies #[trigger] xyzi_records(c, v.len() as int)[i] == v[i] by {
        assert(c[4 + 4 * i] == enc_voxels(v)[4 * i]);
        assert(c[5 + 4 * i] == enc_voxels(v)[4 * i + 1]);
        assert(c[6 + 4 * i] == enc_voxels(v)[4 * i + 2]);
        assert(c[7 + 4 * i] == enc_voxels(v)[4 * i + 3]);
    }
    assert(xyzi_records(c, v.len() as int) =~= v);
}

/// Reading the model chunks appends each model's size and voxels.
pub proof fn lemma_model_steps(st: ScanState, ms: Seq<VoxelModel>)
    requires
        forall|i: int| 0 <= i < ms.len() ==> (#[trigger] ms[i]).wf(),
    ensures
        fold_steps(st, model_chunks(ms)) == Ok::<ScanState, ChunkKind>(
            ScanState {
                sizes: st.sizes + model_sizes(ms),
                xyzi: st.xyzi + model_voxels(ms),
                ..st
            },
        ),
    decreases ms.len(),
{
    if ms.len() == 0 {
        assert(st.sizes + model_sizes(ms) =~= st.sizes);
        assert(st.xyzi + model_voxels(ms) =~= st.xyzi);
    } else {
        let p = ms.drop_last();
        let m = ms.last();
        assert forall|i: int| 0 <= i < p.len() implies (#[trigger] p[i]).wf() by {
            assert(p[i] == ms[i]);
        }
        lemma_model_steps(st, p);
        let s1 = ScanState { sizes: st.sizes + model_sizes(p), xyzi: st.xyzi + model_voxels(p), ..st };
        let a = (tag_size(), size_content(m));
        let b = (tag_xyzi(), xyzi_content(m));
        lemma_fold_concat(st, model_chunks(p), seq![a, b]);
        assert(ms[ms.len() - 1].wf());
        lemma_size_step(s1, m);
        let s2 = ScanState { sizes: s1.sizes.push((m.sx(), m.sy(), m.sz())), ..s1 };
        lemma_xyzi_step(s2, m);
        assert(seq![a, b].drop_last() =~= seq![a]);
        assert(seq![a].drop_last() =~= Seq::<(Seq<u8>, Seq<u8>)>::empty());
        assert(fold_steps(s1, Seq::<(Seq<u8>, Seq<u8>)>::empty()) == Ok::<ScanState, ChunkKind>(s1));
        assert(fold_steps(s1, seq![a]) == Ok::<ScanState, ChunkKind>(s2));
        assert(fold_steps(s1, seq![a, b]) == Ok::<ScanState, ChunkKind>(
            ScanState { xyzi: s2.xyzi.push(m.occupied()), ..s2 },
        ));
        assert(st.sizes + model_sizes(ms) =~= s1.sizes.push((m.sx(), m.sy(), m.sz())));
        assert(st.xyzi + model_voxels(ms) =~= s1.xyzi.push(m.occupied()));
    }
}

/// The chunk id of a node.
pub open spec fn node_tag(n: NodeView) -> Seq<u8> {
    match n {
        NodeView::Transform { .. } => tag_trn(),
        NodeView::Group { .. } => tag_grp(),
        NodeView::Shape { .. } => tag_shp(),
    }
}

/// The chunk content of a node.
pub open spec fn node_content(n: NodeView) -> Seq<u8> {
    match n {
        NodeView::Transform { id, name, hidden, child, translation, rotation, layer_id } => u32_bytes(
            id as int,
        ) + enc_dict(trn_attrs(name, hidden)) + u32_bytes(child as int) + u32_bytes(-1) + u32_bytes(
            layer_id as int,
        ) + u32_bytes(1) + enc_dict(trn_frame(translation, rotation)),
        NodeView::Group { id, name, children } => u32_bytes(id as int) + enc_dict(grp_attrs(name))
            + u32_bytes(children.len() as int) + enc_ids(children),
        NodeView::Shape { id, model_ids } => u32_bytes(id as int) + enc_dict(Seq::empty()) + u32_bytes(
            model_ids.len() as int,
        ) + enc_shape_models(model_ids),
    }
}

pub proof fn lemma_enc_node(n: NodeView)
    ensures
        enc_node(n) == enc_chunk(node_tag(n), node_content(n), Seq::empty()),
{
}

/// A node that survives writing: stored under its own id, with names and
/// counts that fit their 32-bit fields and model ids below 2^31.
pub open spec fn node_fits(k: i32, n: NodeView) -> bool {
    &&& node_id_of(n) == k
    &&& match n {
        NodeView::Transform { name, .. } => fits_string(name),
        NodeView::Group { name, children, .. } => fits_string(name) && children.len() < 0x8000_0000,
        NodeView::Shape { model_ids, .. } => model_ids.len() < 0x8000_0000 && forall|i: int|
            0 <= i < model_ids.len() ==> #[trigger] model_ids[i] < 0x8000_0000,
    }
}

proof fn lemma_ascii_fits(s: Seq<char>)
    requires
        is_ascii_chars(s),
        s.len() < 0x8000_0000,
    ensures
        fits_string(s),
{
    vstd::utf8::is_ascii_chars_encode_utf8(s);
}

proof fn lemma_decimal_fits(v: int)
    requires
        -0x8000_0000 <= v < 0x1_0000_0000,
    ensures
        is_ascii_chars(decimal(v)),
        fits_string(decimal(v)),
{
    let n: nat = if v < 0 { (-v) as nat } else { v as nat };
    lemma_decimal_digits(n);
    lemma_decimal_len(n);
    let d = decimal_digits(n);
    assert forall|k: int| 0 <= k < decimal(v).len() implies '\0' <= #[trigger] decimal(v)[k] <= '\u{7f}' by {
        if v < 0 {
            if k > 0 {
                assert(decimal(v)[k] == d[k - 1]);
                assert(is_digit(d[k - 1]));
            }
        } else {
            assert(is_digit(d[k]));
        }
    }
    lemma_ascii_fits(decimal(v));
}

proof fn lemma_decimal_len(n: nat)
    ensures
        decimal_digits(n).len() <= n / 10 + 1,
    decreases n,
{
    if n >= 10 {
        lemma_decimal_len(n / 10);
        assert(n / 10 / 10 + 1 <= n / 10);
    }
}

proof fn lemma_keys()
    ensures
        key_name() != key_hidden(),
        key_t() != key_r(),
        key_color() != key_hidden(),
        key_color() != key_name(),
        is_ascii_chars(key_name()),
        is_ascii_chars(key_hidden()),
        is_ascii_chars(key_t()),
        is_ascii_chars(key_r()),
        is_ascii_chars(key_color()),
        is_ascii_chars(seq!['1']),
        is_ascii_chars(seq!['0']),
        fits_string(key_name()),
        fits_string(key_hidden()),
        fits_string(key_t()),
        fits_string(key_r()),
        fits_string(key_color()),
        fits_string(seq!['1']),
        fits_string(seq!['0']),
{
    assert(key_name()[1] != key_hidden()[1]);
    assert(key_t()[1] != key_r()[1]);
    assert(key_color()[1] != key_hidden()[1]);
    assert(key_color()[1] != key_name()[1]);
    lemma_ascii_fits(key_name());
    lemma_ascii_fits(key_hidden());
    lemma_ascii_fits(key_t());
    lemma_ascii_fits(key_r());
    lemma_ascii_fits(key_color());
    lemma_ascii_fits(seq!['1']);
    lemma_ascii_fits(seq!['0']);
}

proof fn lemma_concat_ascii(a: Seq<char>, b: Seq<char>)
    requires
        is_ascii_chars(a),
        is_ascii_chars(b),
    ensures
        is_ascii_chars(a + b),
{
    assert forall|i: int| 0 <= i < (a + b).len() implies '\0' <= #[trigger] (a + b)[i] <= '\u{7f}' by {
        if i < a.len() {
            assert((a + b)[i] == a[i]);
        } else {
            assert((a + b)[i] == b[i - a.len()]);
        }
    }
}

proof fn lemma_text3_fits(a: int, b: int, c: int)
    requires
        -0x8000_0000 <= a < 0x1_0000_0000,
        -0x8000_0000 <= b < 0x1_0000_0000,
        -0x8000_0000 <= c < 0x1_0000_0000,
    ensures
        fits_string(decimal(a) + seq![' '] + decimal(b) + seq![' '] + decimal(c)),
{
    lemma_decimal_fits(a);
    lemma_decimal_fits(b);
    lemma_decimal_fits(c);
    let na: nat = if a < 0 { (-a) as nat } else { a as nat };
    let nb: nat = if b < 0 { (-b) as nat } else { b as nat };
    let nc: nat = if c < 0 { (-c) as nat } else { c as nat };
    lemma_decimal_len(na);
    lemma_decimal_len(nb);
    lemma_decimal_len(nc);
    let sp = seq![' '];
    assert(is_ascii_chars(sp));
    lemma_concat_ascii(decimal(a), sp);
    lemma_concat_ascii(decimal(a) + sp, decimal(b));
    lemma_concat_ascii(decimal(a) + sp + decimal(b), sp);
    lemma_concat_ascii(decimal(a) + sp + decimal(b) + sp, decimal(c));
    lemma_ascii_fits(decimal(a) + sp + decimal(b) + sp + decimal(c));
}

proof fn lemma_parse_text3(a: i32, b: i32, c: i32)
    ensures
        parse_ivec3(decimal(a as int) + seq![' '] + decimal(b as int) + seq![' '] + decimal(c as int))
            == Some((a, b, c)),
{
    lemma_words3(a as int, b as int, c as int);
    lemma_parse_decimal(a as int, i32::MIN as int, i32::MAX as int);
    lemma_parse_decimal(b as int, i32::MIN as int, i32::MAX as int);
    lemma_parse_decimal(c as int, i32::MIN as int, i32::MAX as int);
}

/// A transform's attributes read back as its name and hidden flag.
proof fn lemma_trn_attrs(name: Seq<char>, hidden: bool)
    requires
        fits_string(name),
    ensures
        fits_pairs(trn_attrs(name, hidden)),
        attr_name(trn_attrs(name, hidden)) == name,
        attr_hidden(trn_attrs(name, hidden)) == hidden,
{
    lemma_keys();
    let attrs = trn_attrs(name, hidden);
    let n0: Seq<(Seq<char>, Seq<char>)> = if name.len() > 0 {
        seq![(key_name(), name)]
    } else {
        Seq::empty()
    };
    if name.len() > 0 {
        assert(n0.drop_last() =~= Seq::<(Seq<char>, Seq<char>)>::empty());
    }
    assert(dict_get(n0, key_name()) == if name.len() > 0 {
        Some(name)
    } else {
        None::<Seq<char>>
    });
    assert(dict_get(Seq::<(Seq<char>, Seq<char>)>::empty(), key_hidden()) == None::<Seq<char>>);
    assert(dict_get(n0, key_hidden()) == None::<Seq<char>>);
    if hidden {
        assert(attrs =~= n0.push((key_hidden(), seq!['1'])));
        assert(attrs.drop_last() =~= n0);
        assert(seq!['1'] != seq!['0']) by {
            assert(seq!['1'][0] != seq!['0'][0]);
        }
    } else {
        assert(attrs =~= n0);
    }
    assert(attr_name(attrs) =~= name);
    assert forall|i: int| 0 <= i < attrs.len() implies fits_string(#[trigger] attrs[i].0) && fits_string(
        attrs[i].1,
    ) by {
    }
}

/// A transform's single frame reads back as its translation and rotation.
proof fn lemma_trn_frame(c: Seq<u8>, off: int, t: IVec3, r: u8)
    requires
        0 <= off,
        off + enc_dict(trn_frame(t, r)).len() <= c.len(),
        c.subrange(off, off + enc_dict(trn_frame(t, r)).len()) == enc_dict(trn_frame(t, r)),
    ensures
        parse_frames(c, off, 1, IVec3 { x: 0, y: 0, z: 0 }, 0) == Ok::<(IVec3, u8, int), ChunkKind>(
            (t, r, off + enc_dict(trn_frame(t, r)).len()),
        ),
{
    lemma_keys();
    let frame = trn_frame(t, r);
    lemma_text3_fits(t.x as int, t.y as int, t.z as int);
    lemma_decimal_fits(r as int);
    assert forall|i: int| 0 <= i < frame.len() implies fits_string(#[trigger] frame[i].0) && fits_string(
        frame[i].1,
    ) by {
    }
    lemma_dict_roundtrip(c, off, frame);
    lemma_parse_text3(t.x, t.y, t.z);
    let t0 = seq![(key_t(), ivec3_text(t))];
    assert(t0.drop_last() =~= Seq::<(Seq<char>, Seq<char>)>::empty());
    assert(dict_get(t0, key_t()) == Some(ivec3_text(t)));
    assert(dict_get(Seq::<(Seq<char>, Seq<char>)>::empty(), key_r()) == None::<Seq<char>>);
    assert(dict_get(t0, key_r()) == None::<Seq<char>>);
    if r != 0 {
        lemma_parse_decimal(r as int, i32::MIN as int, i32::MAX as int);
        assert(frame =~= t0.push((key_r(), decimal(r as int))));
        assert(frame.drop_last() =~= t0);
        assert(dict_get(frame, key_t()) == Some(ivec3_text(t)));
        assert(dict_get(frame, key_r()) == Some(decimal(r as int)));
    } else {
        assert(frame =~= t0);
    }
    assert(parse_frames(c, off, 0, IVec3 { x: 0, y: 0, z: 0 }, 0) == Ok::<(IVec3, u8, int), ChunkKind>(
        (IVec3 { x: 0, y: 0, z: 0 }, 0u8, off),
    ));
}

/// Where the fields of a transform's chunk content lie.
#[verifier::rlimit(100)]
#[verifier::spinoff_prover]
proof fn lemma_trn_layout(n: NodeView)
    requires
        n is Transform,
        node_fits(node_id_of(n), n),
    ensures
        ({
            let c = node_content(n);
            match n {
                NodeView::Transform { id, name, hidden, child, translation, rotation, layer_id } => {
                    let attrs = trn_attrs(name, hidden);
                    let f = enc_dict(trn_frame(translation, rotation));
                    let o: int = 4 + enc_dict(attrs).len() as int;
                    &&& c.len() >= 4
                    &&& le_i32(c, 0) == id
                    &&& parse_dict(c, 4) == Ok::<(Seq<(Seq<char>, Seq<char>)>, int), ChunkKind>(
                        (attrs, o),
                    )
                    &&& o + 16 + f.len() == c.len()
                    &&& le_i32(c, o) == child
                    &&& le_i32(c, o + 8) == layer_id
                    &&& le_i32(c, o + 12) == 1
                    &&& c.subrange(o + 16, o + 16 + f.len()) == f
                },
                _ => true,
            }
        }),
{
    match n {
        NodeView::Transform { id, name, hidden, child, translation, rotation, layer_id } => {
            let attrs = trn_attrs(name, hidden);
            let frame = trn_frame(translation, rotation);
            let a = enc_dict(attrs);
            let f = enc_dict(frame);
            let c = node_content(n);
            let o: int = 4 + a.len() as int;
            assert(c.len() == o + 16 + f.len());
            assert(c.subrange(0, 4) =~= u32_bytes(id as int));
            lemma_u32_bytes(c, 0, id as int);
            assert(c.subrange(4, o) =~= a);
            lemma_trn_attrs(name, hidden);
            lemma_dict_roundtrip(c, 4, attrs);
            assert(c.subrange(o, o + 4) =~= u32_bytes(child as int));
            lemma_u32_bytes(c, o, child as int);
            assert(c.subrange(o + 8, o + 12) =~= u32_bytes(layer_id as int));
            lemma_u32_bytes(c, o + 8, layer_id as int);
            assert(c.subrange(o + 12, o + 16) =~= u32_bytes(1));
            lemma_u32_bytes(c, o + 12, 1);
            assert(c.subrange(o + 16, o + 16 + f.len()) =~= f);
        },
        _ => {},
    }
}

/// A transform's chunk content reads back as the transform.
pub proof fn lemma_trn_roundtrip(n: NodeView)
    requires
        n is Transform,
        node_fits(node_id_of(n), n),
    ensures
        parse_trn(node_content(n)) == Ok::<NodeView, ChunkKind>(n),
{
    match n {
        NodeView::Transform { id, name, hidden, child, translation, rotation, layer_id } => {
            lemma_trn_layout(n);
            lemma_trn_attrs(name, hidden);
            let c = node_content(n);
            let o: int = 4 + enc_dict(trn_attrs(name, hidden)).len() as int;
            lemma_trn_frame(c, o + 16, translation, rotation);
        },
        _ => {},
    }
}

proof fn lemma_ids_parse(c: Seq<u8>, off: int, ids: Seq<i32>, kind: ChunkKind)
    requires
        0 <= off,
        off + enc_ids(ids).len() <= c.len(),
        c.subrange(off, off + enc_ids(ids).len()) == enc_ids(ids),
    ensures
        enc_ids(ids).len() == 4 * ids.len(),
        parse_ids(c, off, ids.len() as int, kind) == Ok::<Seq<i32>, ChunkKind>(ids),
    decreases ids.len(),
{
    if ids.len() > 0 {
        let p = ids.drop_last();
        let ep = enc_ids(p);
        assert(enc_ids(ids) == ep + u32_bytes(ids.last() as int));
        assert(c.subrange(off, off + ep.len()) =~= enc_ids(ids).subrange(0, ep.len() as int));
        assert(enc_ids(ids).subrange(0, ep.len() as int) =~= ep);
        lemma_ids_parse(c, off, p, kind);
        let o: int = off + ep.len() as int;
        assert(c.subrange(o, o + 4) =~= enc_ids(ids).subrange(ep.len() as int, ep.len() as int + 4));
        assert(enc_ids(ids).subrange(ep.len() as int, ep.len() as int + 4) =~= u32_bytes(ids.last() as int));
        lemma_u32_bytes(c, o, ids.last() as int);
        assert(o == off + 4 * (ids.len() - 1));
        assert(le_i32(c, o) as i32 == ids.last());
        assert(p.push(ids.last()) =~= ids);
        assert(parse_ids(c, off, p.len() as int, kind) == Ok::<Seq<i32>, ChunkKind>(p));
        assert(parse_ids(c, off, ids.len() as int, kind) == Ok::<Seq<i32>, ChunkKind>(
            p.push(le_i32(c, off + 4 * (ids.len() - 1)) as i32),
        ));
    } else {
        assert(ids =~= Seq::<i32>::empty());
    }
}

proof fn lemma_empty_dict()
    ensures
        enc_dict(Seq::<(Seq<char>, Seq<char>)>::empty()) == u32_bytes(0),
        fits_pairs(Seq::<(Seq<char>, Seq<char>)>::empty()),
{
    assert(crate::dict::enc_pairs(Seq::<(Seq<char>, Seq<char>)>::empty()) == Seq::<u8>::empty());
    assert(enc_dict(Seq::<(Seq<char>, Seq<char>)>::empty()) =~= u32_bytes(0));
}

proof fn lemma_refs_parse(c: Seq<u8>, off: int, ids: Seq<usize>)
    requires
        0 <= off,
        off + enc_shape_models(ids).len() <= c.len(),
        c.subrange(off, off + enc_shape_models(ids).len()) == enc_shape_models(ids),
        forall|i: int| 0 <= i < ids.len() ==> #[trigger] ids[i] < 0x8000_0000,
    ensures
        enc_shape_models(ids).len() == 8 * ids.len(),
        parse_model_refs(c, off, ids.len() as int) == Ok::<(Seq<usize>, int), ChunkKind>(
            (ids, off + 8 * ids.len()),
        ),
    decreases ids.len(),
{
    lemma_empty_dict();
    if ids.len() > 0 {
        let p = ids.drop_last();
        let m = ids.last();
        let ep = enc_shape_models(p);
        assert(enc_shape_models(ids) == ep + u32_bytes(m as int) + u32_bytes(0));
        assert(c.subrange(off, off + ep.len()) =~= enc_shape_models(ids).subrange(0, ep.len() as int));
        assert(enc_shape_models(ids).subrange(0, ep.len() as int) =~= ep);
        assert forall|i: int| 0 <= i < p.len() implies #[trigger] p[i] < 0x8000_0000 by {
            assert(p[i] == ids[i]);
        }
        lemma_refs_parse(c, off, p);
        let o: int = off + ep.len() as int;
        assert(c.subrange(o, o + 4) =~= enc_shape_models(ids).subrange(ep.len() as int, ep.len() as int + 4));
        assert(enc_shape_models(ids).subrange(ep.len() as int, ep.len() as int + 4) =~= u32_bytes(m as int));
        assert(m == ids[ids.len() - 1]);
        lemma_u32_bytes(c, o, m as int);
        assert(c.subrange(o + 4, o + 8) =~= enc_shape_models(ids).subrange(ep.len() as int + 4, ep.len() as int + 8));
        assert(enc_shape_models(ids).subrange(ep.len() as int + 4, ep.len() as int + 8) =~= u32_bytes(0));
        lemma_dict_roundtrip(c, o + 4, Seq::<(Seq<char>, Seq<char>)>::empty());
        assert((le_i32(c, o) as i32) as usize == m);
        assert(p.push(m) =~= ids);
        assert(parse_model_refs(c, off, p.len() as int) == Ok::<(Seq<usize>, int), ChunkKind>(
            (p, o),
        ));
        assert(parse_model_refs(c, off, ids.len() as int) == Ok::<(Seq<usize>, int), ChunkKind>(
            (p.push((le_i32(c, o) as i32) as usize), o + 8),
        ));
    } else {
        assert(ids =~= Seq::<usize>::empty());
    }
}

pub open spec fn grp_attrs(name: Seq<char>) -> Seq<(Seq<char>, Seq<char>)> {
    if name.len() == 0 {
        Seq::empty()
    } else {
        seq![(key_name(), name)]
    }
}

proof fn lemma_grp_attrs(name: Seq<char>)
    requires
        fits_string(name),
    ensures
        fits_pairs(grp_attrs(name)),
        attr_name(grp_attrs(name)) == name,
{
    lemma_keys();
    let attrs = grp_attrs(name);
    if name.len() > 0 {
        assert(attrs.drop_last() =~= Seq::<(Seq<char>, Seq<char>)>::empty());
    }
    assert(attr_name(attrs) =~= name);
    assert forall|i: int| 0 <= i < attrs.len() implies fits_string(#[trigger] attrs[i].0) && fits_string(
        attrs[i].1,
    ) by {
    }
}

/// A group's chunk content reads back as the group.
#[verifier::rlimit(60)]
#[verifier::spinoff_prover]
pub proof fn lemma_grp_roundtrip(n: NodeView)
    requires
        n is Group,
        node_fits(node_id_of(n), n),
    ensures
        parse_grp(node_content(n)) == Ok::<NodeView, ChunkKind>(n),
{
    match n {
        NodeView::Group { id, name, children } => {
            let attrs = grp_attrs(name);
            lemma_grp_attrs(name);
            let a = enc_dict(attrs);
            let ei = enc_ids(children);
            let c = node_content(n);
            let o: int = 4 + a.len() as int;
            assert(c == u32_bytes(id as int) + a + u32_bytes(children.len() as int) + ei);
            assert(c.subrange(0, 4) =~= u32_bytes(id as int));
            lemma_u32_bytes(c, 0, id as int);
            assert(c.subrange(4, o) =~= a);
            lemma_dict_roundtrip(c, 4, attrs);
            assert(c.subrange(o, o + 4) =~= u32_bytes(children.len() as int));
            lemma_u32_bytes(c, o, children.len() as int);
            assert(c.subrange(o + 4, o + 4 + ei.len()) =~= ei);
            lemma_ids_parse(c, o + 4, children, ChunkKind::Group);
        },
        _ => {},
    }
}

/// A shape's chunk content reads back as the shape.
#[verifier::rlimit(40)]
#[verifier::spinoff_prover]
pub proof fn lemma_shp_roundtrip(n: NodeView)
    requires
        n is Shape,
        node_fits(node_id_of(n), n),
    ensures
        parse_shp(node_content(n)) == Ok::<NodeView, ChunkKind>(n),
{
    match n {
        NodeView::Shape { id, model_ids } => {
            lemma_empty_dict();
            let e = Seq::<(Seq<char>, Seq<char>)>::empty();
            let em = enc_shape_models(model_ids);
            let c = node_content(n);
            assert(c == u32_bytes(id as int) + u32_bytes(0) + u32_bytes(model_ids.len() as int) + em);
            assert(c.subrange(0, 4) =~= u32_bytes(id as int));
            lemma_u32_bytes(c, 0, id as int);
            assert(c.subrange(4, 8) =~= enc_dict(e));
            lemma_dict_roundtrip(c, 4, e);
            assert(c.subrange(8, 12) =~= u32_bytes(model_ids.len() as int));
            lemma_u32_bytes(c, 8, model_ids.len() as int);
            assert(c.subrange(12, 12 + em.len() as int) =~= em);
            lemma_refs_parse(c, 12, model_ids);
        },
        _ => {},
    }
}

proof fn lemma_step_trn(st: ScanState, c: Seq<u8>)
    ensures
        scan_step(st, tag_trn(), c) == match parse_trn(c) {
            Err(k) => Err(k),
            Ok(n) => Ok(add_node(st, n)),
        },
{
    reveal(scan_step);
    lemma_tags_differ();
}

proof fn lemma_step_grp(st: ScanState, c: Seq<u8>)
    ensures
        scan_step(st, tag_grp(), c) == match parse_grp(c) {
            Err(k) => Err(k),
            Ok(n) => Ok(add_node(st, n)),
        },
{
    reveal(scan_step);
    lemma_tags_differ();
}

proof fn lemma_step_shp(st: ScanState, c: Seq<u8>)
    ensures
        scan_step(st, tag_shp(), c) == match parse_shp(c) {
            Err(k) => Err(k),
            Ok(n) => Ok(add_node(st, n)),
        },
{
    reveal(scan_step);
    lemma_tags_differ();
}

proof fn lemma_step_matl(st: ScanState, c: Seq<u8>)
    ensures
        scan_step(st, tag_matl(), c) == match parse_matl(c) {
            Ok((i, p)) => Ok::<ScanState, ChunkKind>(
                if 1 <= i <= 255 {
                    ScanState { materials: st.materials.update(i as int, p), ..st }
                } else {
                    st
                },
            ),
            Err(_) => Ok(st),
        },
{
    reveal(scan_step);
    lemma_tags_differ();
}

proof fn lemma_step_layr(st: ScanState, c: Seq<u8>)
    ensures
        scan_step(st, tag_layr(), c) == match parse_layr(c) {
            Ok(l) => Ok::<ScanState, ChunkKind>(ScanState { layers: st.layers.push(l), ..st }),
            Err(_) => Ok(st),
        },
{
    reveal(scan_step);
    lemma_tags_differ();
}

/// Reading a node's chunk adds the node.
pub proof fn lemma_node_step(st: ScanState, n: NodeView)
    requires
        node_fits(node_id_of(n), n),
    ensures
        scan_step(st, node_tag(n), node_content(n)) == Ok::<ScanState, ChunkKind>(add_node(st, n)),
{
    match n {
        NodeView::Transform { .. } => {
            lemma_trn_roundtrip(n);
            lemma_step_trn(st, node_content(n));
        },
        NodeView::Group { .. } => {
            lemma_grp_roundtrip(n);
            lemma_step_grp(st, node_content(n));
        },
        NodeView::Shape { .. } => {
            lemma_shp_roundtrip(n);
            lemma_step_shp(st, node_content(n));
        },
    }
}

/// Reading an `RGBA` chunk of a palette whose entry 0 is the default gives the palette.
pub proof fn lemma_rgba_step(st: ScanState, colors: Seq<ColorRgba>)
    requires
        colors.len() == 256,
        colors[0] == default_color(0),
    ensures
        scan_step(st, tag_rgba(), rgba_payload(colors)) == Ok::<ScanState, ChunkKind>(
            ScanState { palette: colors, ..st },
        ),
{
    lemma_step_rgba(st, rgba_payload(colors));
    let c = rgba_payload(colors);
    assert forall|i: int| 0 <= i < 256 implies #[trigger] rgba_colors(c)[i] == colors[i] by {
        if i > 0 {
            let b = 4 * (i - 1);
            assert(b / 4 + 1 == i && b % 4 == 0);
            assert((b + 1) / 4 + 1 == i && (b + 1) % 4 == 1);
            assert((b + 2) / 4 + 1 == i && (b + 2) % 4 == 2);
            assert((b + 3) / 4 + 1 == i && (b + 3) % 4 == 3);
        }
    }
    assert(rgba_colors(c) =~= colors);
}

pub open spec fn layer_content(l: Layer) -> Seq<u8> {
    u32_bytes(l.id as int) + enc_dict(layer_attrs(l)) + u32_bytes(-1)
}

proof fn lemma_layer_attrs(l: Layer)
    requires
        fits_string(l.name@),
    ensures
        fits_pairs(layer_attrs(l)),
        attr_name(layer_attrs(l)) == l.name@,
        attr_hidden(layer_attrs(l)) == l.hidden,
        dict_get(layer_attrs(l), key_color()) == Some(
            decimal(l.color[0] as int) + seq![' '] + decimal(l.color[1] as int) + seq![' ']
                + decimal(l.color[2] as int),
        ),
{
    lemma_keys();
    let attrs = layer_attrs(l);
    let ct = decimal(l.color[0] as int) + seq![' '] + decimal(l.color[1] as int) + seq![' ']
        + decimal(l.color[2] as int);
    let hv: Seq<char> = if l.hidden { seq!['1'] } else { seq!['0'] };
    let n0: Seq<(Seq<char>, Seq<char>)> = if l.name@.len() > 0 {
        seq![(key_name(), l.name@)]
    } else {
        Seq::empty()
    };
    assert(attrs =~= n0.push((key_hidden(), hv)).push((key_color(), ct)));
    assert(attrs.drop_last() =~= n0.push((key_hidden(), hv)));
    assert(attrs.drop_last().drop_last() =~= n0);
    if l.name@.len() > 0 {
        assert(n0.drop_last() =~= Seq::<(Seq<char>, Seq<char>)>::empty());
    }
    assert(dict_get(Seq::<(Seq<char>, Seq<char>)>::empty(), key_name()) == None::<Seq<char>>);
    assert(dict_get(n0, key_name()) == if l.name@.len() > 0 {
        Some(l.name@)
    } else {
        None::<Seq<char>>
    });
    assert(seq!['1'] != seq!['0']) by {
        assert(seq!['1'][0] != seq!['0'][0]);
    }
    let a1 = attrs.drop_last();
    let a2 = a1.drop_last();
    assert(dict_get(attrs, key_name()) == dict_get(a1, key_name()));
    assert(dict_get(a1, key_name()) == dict_get(a2, key_name()));
    assert(dict_get(attrs, key_hidden()) == dict_get(a1, key_hidden()));
    assert(dict_get(a1, key_hidden()) == Some(hv));
    assert(attr_name(attrs) =~= l.name@);
    assert(attr_hidden(attrs) == l.hidden);
    lemma_text3_fits(l.color[0] as int, l.color[1] as int, l.color[2] as int);
    assert forall|i: int| 0 <= i < attrs.len() implies fits_string(#[trigger] attrs[i].0) && fits_string(
        attrs[i].1,
    ) by {
    }
}

proof fn lemma_parse_rgb_text(a: u8, b: u8, c: u8)
    ensures
        parse_rgb(decimal(a as int) + seq![' '] + decimal(b as int) + seq![' '] + decimal(c as int))
            == Some([a, b, c]),
{
    lemma_words3(a as int, b as int, c as int);
    lemma_parse_decimal(a as int, 0, 255);
    lemma_parse_decimal(b as int, 0, 255);
    lemma_parse_decimal(c as int, 0, 255);
}

/// The text of a layer's swatch, `r g b`.
pub open spec fn color_text(c: [u8; 3]) -> Seq<char> {
    decimal(c[0] as int) + seq![' '] + decimal(c[1] as int) + seq![' '] + decimal(c[2] as int)
}

proof fn lemma_layr_parts(c: Seq<u8>, attrs: Seq<(Seq<char>, Seq<char>)>, o: int, l: Layer)
    requires
        c.len() >= 4,
        parse_dict(c, 4) == Ok::<(Seq<(Seq<char>, Seq<char>)>, int), ChunkKind>((attrs, o)),
        le_i32(c, 0) == l.id,
        attr_name(attrs) == l.name@,
        attr_hidden(attrs) == l.hidden,
        dict_get(attrs, key_color()) == Some(color_text(l.color)),
        parse_rgb(color_text(l.color)) == Some(l.color),
    ensures
        parse_layr(c) == Ok::<LayerView, ChunkKind>(layer_view(l)),
{
}

/// A layer's chunk content reads back as the layer.
#[verifier::rlimit(60)]
#[verifier::spinoff_prover]
pub proof fn lemma_layr_roundtrip(l: Layer)
    requires
        fits_string(l.name@),
    ensures
        parse_layr(layer_content(l)) == Ok::<LayerView, ChunkKind>(layer_view(l)),
{
    let attrs = layer_attrs(l);
    lemma_layer_attrs(l);
    let a = enc_dict(attrs);
    let c = layer_content(l);
    assert(c.subrange(0, 4) =~= u32_bytes(l.id as int));
    lemma_u32_bytes(c, 0, l.id as int);
    assert(c.subrange(4, 4 + a.len() as int) =~= a);
    lemma_dict_roundtrip(c, 4, attrs);
    lemma_parse_rgb_text(l.color[0], l.color[1], l.color[2]);
    assert([l.color[0], l.color[1], l.color[2]] =~= l.color);
    assert(dict_get(attrs, key_color()) == Some(color_text(l.color)));
    lemma_layr_parts(c, attrs, 4 + a.len() as int, l);
}

pub open spec fn matl_content(id: u8, props: Seq<(Seq<char>, Seq<char>)>) -> Seq<u8> {
    u32_bytes(id as int) + enc_dict(props)
}

/// A material's chunk content reads back as its index and dictionary.
pub proof fn lemma_matl_roundtrip(id: u8, props: Seq<(Seq<char>, Seq<char>)>)
    requires
        fits_pairs(props),
    ensures
        parse_matl(matl_content(id, props)) == Ok::<(i32, Seq<(Seq<char>, Seq<char>)>), ChunkKind>(
            (id as i32, props),
        ),
{
    let c = matl_content(id, props);
    assert(c.subrange(0, 4) =~= u32_bytes(id as int));
    lemma_u32_bytes(c, 0, id as int);
    assert(c.subrange(4, c.len() as int) =~= enc_dict(props));
    lemma_dict_roundtrip(c, 4, props);
}

/// The node chunks for `keys`, in that order.
pub open spec fn node_chunks(nodes: Map<i32, NodeView>, keys: Seq<i32>) -> Seq<(Seq<u8>, Seq<u8>)>
    decreases keys.len(),
{
    if keys.len() == 0 {
        Seq::empty()
    } else {
        node_chunks(nodes, keys.drop_last()) + if nodes.contains_key(keys.last()) {
            seq![(node_tag(nodes[keys.last()]), node_content(nodes[keys.last()]))]
        } else {
            Seq::empty()
        }
    }
}

/// The largest of `m` and `keys`, taken in order.
pub open spec fn max_of(m: i32, keys: Seq<i32>) -> i32
    decreases keys.len(),
{
    if keys.len() == 0 {
        m
    } else {
        let p = max_of(m, keys.drop_last());
        if keys.last() > p {
            keys.last()
        } else {
            p
        }
    }
}

/// `base` with the nodes of `keys` put in, in order.
pub open spec fn with_nodes(base: Map<i32, NodeView>, nodes: Map<i32, NodeView>, keys: Seq<i32>) -> Map<
    i32,
    NodeView,
>
    decreases keys.len(),
{
    if keys.len() == 0 {
        base
    } else {
        with_nodes(base, nodes, keys.drop_last()).insert(keys.last(), nodes[keys.last()])
    }
}

proof fn lemma_one_chunk(a: (Seq<u8>, Seq<u8>))
    ensures
        enc_chunks(seq![a]) == enc_chunk(a.0, a.1, Seq::empty()),
{
    assert(seq![a].drop_last() =~= Seq::<(Seq<u8>, Seq<u8>)>::empty());
    assert(enc_chunks(Seq::<(Seq<u8>, Seq<u8>)>::empty()) == Seq::<u8>::empty());
    assert(enc_chunks(seq![a]) =~= enc_chunk(a.0, a.1, Seq::empty()));
}

proof fn lemma_one_step(st: ScanState, a: (Seq<u8>, Seq<u8>))
    ensures
        fold_steps(st, seq![a]) == scan_step(st, a.0, a.1),
{
    assert(seq![a].drop_last() =~= Seq::<(Seq<u8>, Seq<u8>)>::empty());
    assert(fold_steps(st, Seq::<(Seq<u8>, Seq<u8>)>::empty()) == Ok::<ScanState, ChunkKind>(st));
}

pub proof fn lemma_node_chunks_enc(nodes: Map<i32, NodeView>, keys: Seq<i32>)
    ensures
        enc_nodes(nodes, keys) == enc_chunks(node_chunks(nodes, keys)),
        forall|i: int| 0 <= i < node_chunks(nodes, keys).len() ==> (#[trigger] node_chunks(
            nodes,
            keys,
        )[i]).0.len() == 4,
    decreases keys.len(),
{
    if keys.len() > 0 {
        let p = keys.drop_last();
        let k = keys.last();
        lemma_node_chunks_enc(nodes, p);
        if nodes.contains_key(k) {
            let n = nodes[k];
            let a = (node_tag(n), node_content(n));
            lemma_enc_node(n);
            lemma_one_chunk(a);
            lemma_enc_chunks_concat(node_chunks(nodes, p), seq![a]);
            let nc = node_chunks(nodes, keys);
            assert forall|i: int| 0 <= i < nc.len() implies (#[trigger] nc[i]).0.len() == 4 by {
                if i < node_chunks(nodes, p).len() {
                    assert(nc[i] == node_chunks(nodes, p)[i]);
                }
            }
        } else {
            assert(node_chunks(nodes, keys) =~= node_chunks(nodes, p));
            assert(enc_nodes(nodes, keys) =~= enc_nodes(nodes, p));
        }
    }
}

#[verifier::rlimit(40)]
#[verifier::spinoff_prover]
pub proof fn lemma_node_chunks(nodes: Map<i32, NodeView>, keys: Seq<i32>, st: ScanState)
    requires
        forall|i: int| 0 <= i < keys.len() ==> nodes.contains_key(#[trigger] keys[i]) && node_fits(
            keys[i],
            nodes[keys[i]],
        ),
    ensures
        fold_steps(st, node_chunks(nodes, keys)) == Ok::<ScanState, ChunkKind>(
            ScanState {
                nodes: with_nodes(st.nodes, nodes, keys),
                max_id: max_of(st.max_id, keys),
                ..st
            },
        ),
    decreases keys.len(),
{
    if keys.len() > 0 {
        let p = keys.drop_last();
        let k = keys.last();
        assert forall|i: int| 0 <= i < p.len() implies nodes.contains_key(#[trigger] p[i]) && node_fits(
            p[i],
            nodes[p[i]],
        ) by {
            assert(p[i] == keys[i]);
        }
        lemma_node_chunks(nodes, p, st);
        assert(keys[keys.len() - 1] == k);
        let n = nodes[k];
        let a = (node_tag(n), node_content(n));
        assert(node_chunks(nodes, keys) == node_chunks(nodes, p) + seq![a]);
        lemma_fold_concat(st, node_chunks(nodes, p), seq![a]);
        let s1 = ScanState {
            nodes: with_nodes(st.nodes, nodes, p),
            max_id: max_of(st.max_id, p),
            ..st
        };
        lemma_one_step(s1, a);
        lemma_node_step(s1, n);
    }
}

/// The material chunks for `ids`, in that order.
pub open spec fn matl_chunks(slots: Seq<Seq<(Seq<char>, Seq<char>)>>, ids: Seq<u8>) -> Seq<
    (Seq<u8>, Seq<u8>),
>
    decreases ids.len(),
{
    if ids.len() == 0 {
        Seq::empty()
    } else {
        matl_chunks(slots, ids.drop_last()) + seq![
            (tag_matl(), matl_content(ids.last(), slots[ids.last() as int])),
        ]
    }
}

/// `base` with the slots of `ids` taken from `slots`, in order.
pub open spec fn with_slots(
    base: Seq<Seq<(Seq<char>, Seq<char>)>>,
    slots: Seq<Seq<(Seq<char>, Seq<char>)>>,
    ids: Seq<u8>,
) -> Seq<Seq<(Seq<char>, Seq<char>)>>
    decreases ids.len(),
{
    if ids.len() == 0 {
        base
    } else {
        with_slots(base, slots, ids.drop_last()).update(ids.last() as int, slots[ids.last() as int])
    }
}

pub proof fn lemma_matl_chunks(
    slots: Seq<Seq<(Seq<char>, Seq<char>)>>,
    ids: Seq<u8>,
    st: ScanState,
)
    requires
        forall|i: int| 0 <= i < ids.len() ==> 1 <= #[trigger] ids[i] && fits_pairs(slots[ids[i] as int]),
    ensures
        enc_matls(slots, ids) == enc_chunks(matl_chunks(slots, ids)),
        forall|i: int| 0 <= i < matl_chunks(slots, ids).len() ==> (#[trigger] matl_chunks(
            slots,
            ids,
        )[i]).0.len() == 4,
        fold_steps(st, matl_chunks(slots, ids)) == Ok::<ScanState, ChunkKind>(
            ScanState { materials: with_slots(st.materials, slots, ids), ..st },
        ),
    decreases ids.len(),
{
    if ids.len() > 0 {
        let p = ids.drop_last();
        let id = ids.last();
        assert forall|i: int| 0 <= i < p.len() implies 1 <= #[trigger] p[i] && fits_pairs(
            slots[p[i] as int],
        ) by {
            assert(p[i] == ids[i]);
        }
        lemma_matl_chunks(slots, p, st);
        assert(ids[ids.len() - 1] == id);
        let a = (tag_matl(), matl_content(id, slots[id as int]));
        lemma_one_chunk(a);
        lemma_enc_chunks_concat(matl_chunks(slots, p), seq![a]);
        let mc = matl_chunks(slots, ids);
        assert forall|i: int| 0 <= i < mc.len() implies (#[trigger] mc[i]).0.len() == 4 by {
            if i < matl_chunks(slots, p).len() {
                assert(mc[i] == matl_chunks(slots, p)[i]);
            }
        }
        lemma_fold_concat(st, matl_chunks(slots, p), seq![a]);
        let s1 = ScanState { materials: with_slots(st.materials, slots, p), ..st };
        lemma_one_step(s1, a);
        lemma_matl_roundtrip(id, slots[id as int]);
        lemma_step_matl(s1, matl_content(id, slots[id as int]));
    }
}

/// The layer chunks, in order.
pub open spec fn layer_chunks(ls: Seq<Layer>) -> Seq<(Seq<u8>, Seq<u8>)>
    decreases ls.len(),
{
    if ls.len() == 0 {
        Seq::empty()
    } else {
        layer_chunks(ls.drop_last()) + seq![(tag_layr(), layer_content(ls.last()))]
    }
}

#[verifier::rlimit(40)]
#[verifier::spinoff_prover]
pub proof fn lemma_layer_chunks(ls: Seq<Layer>, st: ScanState)
    requires
        forall|i: int| 0 <= i < ls.len() ==> fits_string((#[trigger] ls[i]).name@),
    ensures
        enc_layers(ls) == enc_chunks(layer_chunks(ls)),
        forall|i: int| 0 <= i < layer_chunks(ls).len() ==> (#[trigger] layer_chunks(ls)[i]).0.len() == 4,
        fold_steps(st, layer_chunks(ls)) == Ok::<ScanState, ChunkKind>(
            ScanState { layers: st.layers + layer_views(ls), ..st },
        ),
    decreases ls.len(),
{
    if ls.len() == 0 {
        assert(st.layers + layer_views(ls) =~= st.layers);
    } else {
        let p = ls.drop_last();
        let l = ls.last();
        assert forall|i: int| 0 <= i < p.len() implies fits_string((#[trigger] p[i]).name@) by {
            assert(p[i] == ls[i]);
        }
        lemma_layer_chunks(p, st);
        assert(ls[ls.len() - 1] == l);
        let a = (tag_layr(), layer_content(l));
        lemma_one_chunk(a);
        lemma_enc_chunks_concat(layer_chunks(p), seq![a]);
        let lc = layer_chunks(ls);
        assert forall|i: int| 0 <= i < lc.len() implies (#[trigger] lc[i]).0.len() == 4 by {
            if i < layer_chunks(p).len() {
                assert(lc[i] == layer_chunks(p)[i]);
            }
        }
        lemma_fold_concat(st, layer_chunks(p), seq![a]);
        let s1 = ScanState { layers: st.layers + layer_views(p), ..st };
        lemma_one_step(s1, a);
        lemma_layr_roundtrip(l);
        lemma_step_layr(s1, layer_content(l));
        assert(s1.layers.push(layer_view(l)) =~= st.layers + layer_views(ls));
    }
}

/// The listed occupied cells of a volume are inside it, and give back each cell.
pub proof fn lemma_occupied_sparse(sx: int, sy: int, sz: int, cells: Seq<u8>, n: int)
    requires
        1 <= sx <= 256,
        1 <= sy <= 256,
        1 <= sz <= 256,
        cells.len() == volume(sx, sy, sz),
        0 <= n <= cells.len(),
    ensures
        sparse_error(sx, sy, sz, occupied_upto(sx, sy, cells, n)) is None,
        forall|x: int, y: int, z: int|
            in_volume(sx, sy, sz, x, y, z) ==> #[trigger] sparse_value(
                occupied_upto(sx, sy, cells, n),
                x,
                y,
                z,
            ) == if cell_index(sx, sy, x, y, z) < n {
                cells[cell_index(sx, sy, x, y, z)]
            } else {
                0
            },
    decreases n,
{
    if n > 0 {
        let i = n - 1;
        lemma_occupied_sparse(sx, sy, sz, cells, i);
        let prev = occupied_upto(sx, sy, cells, i);
        let cur = occupied_upto(sx, sy, cells, n);
        lemma_decode_index(sx, sy, sz, i);
        let cx = cell_x(sx, sy, i);
        let cy = cell_y(sx, sy, i);
        let cz = cell_z(sx, sy, i);
        if cells[i] != 0 {
            let e = (cx as u8, cy as u8, cz as u8, cells[i]);
            assert(cur == prev.push(e));
            assert(cur.drop_last() =~= prev);
            assert(in_volume(sx, sy, sz, cx, cy, cz));
            assert(cx as u8 == cx && cy as u8 == cy && cz as u8 == cz);
            assert forall|x: int, y: int, z: int| in_volume(sx, sy, sz, x, y, z) implies #[trigger] sparse_value(
                cur,
                x,
                y,
                z,
            ) == if cell_index(sx, sy, x, y, z) < n {
                cells[cell_index(sx, sy, x, y, z)]
            } else {
                0
            } by {
                lemma_index_decodes(sx, sy, sz, x, y, z);
                assert(cur.last() == e);
                if x == cx && y == cy && z == cz {
                    assert(sparse_value(cur, x, y, z) == cells[i]);
                } else {
                    if cell_index(sx, sy, x, y, z) == i {
                        lemma_index_injective(sx, sy, sz, x, y, z, cx, cy, cz);
                    }
                    assert(sparse_value(cur, x, y, z) == sparse_value(prev, x, y, z));
                    assert(sparse_value(prev, x, y, z) == if cell_index(sx, sy, x, y, z) < i {
                        cells[cell_index(sx, sy, x, y, z)]
                    } else {
                        0
                    });
                }
            }
        } else {
            assert(cur =~= prev);
            assert forall|x: int, y: int, z: int| in_volume(sx, sy, sz, x, y, z) implies #[trigger] sparse_value(
                cur,
                x,
                y,
                z,
            ) == if cell_index(sx, sy, x, y, z) < n {
                cells[cell_index(sx, sy, x, y, z)]
            } else {
                0
            } by {
                lemma_index_decodes(sx, sy, sz, x, y, z);
                assert(sparse_value(prev, x, y, z) == if cell_index(sx, sy, x, y, z) < i {
                    cells[cell_index(sx, sy, x, y, z)]
                } else {
                    0
                });
            }
        }
    }
}

/// A model built from a model's size and occupied cells has the same grid.
pub proof fn lemma_built_from_occupied(m: VoxelModel, m2: VoxelModel)
    requires
        m.wf(),
        built_from(m2, (m.sx(), m.sy(), m.sz()), m.occupied()),
    ensures
        m2.grid() == m.grid(),
        model_error((m.sx(), m.sy(), m.sz()), m.occupied()) is None,
{
    let sx = m.sx() as int;
    let sy = m.sy() as int;
    let sz = m.sz() as int;
    lemma_occupied_sparse(sx, sy, sz, m.cells(), m.cells().len() as int);
    assert forall|x: int, y: int, z: int| #[trigger] m2.voxel(x, y, z) == m.voxel(x, y, z) by {
        if in_volume(sx, sy, sz, x, y, z) {
            lemma_index_decodes(sx, sy, sz, x, y, z);
        }
    }
    m2.lemma_cells_from_voxels(&m);
}

/// Every model of a written file can be built.
pub proof fn lemma_models_build(st: ScanState, ms: Seq<VoxelModel>, n: int)
    requires
        0 <= n <= ms.len(),
        st.sizes == model_sizes(ms),
        st.xyzi == model_voxels(ms),
        forall|i: int| 0 <= i < ms.len() ==> (#[trigger] ms[i]).wf(),
    ensures
        first_model_error(st, n) is None,
    decreases n,
{
    if n > 0 {
        lemma_models_build(st, ms, n - 1);
        let m = ms[n - 1];
        lemma_occupied_sparse(m.sx() as int, m.sy() as int, m.sz() as int, m.cells(), m.cells().len() as int);
    }
}

proof fn lemma_with_nodes(nodes: Map<i32, NodeView>, keys: Seq<i32>)
    ensures
        forall|k: i32| #[trigger] with_nodes(Map::empty(), nodes, keys).contains_key(k) <==> keys.contains(k),
        forall|k: i32| keys.contains(k) ==> #[trigger] with_nodes(Map::empty(), nodes, keys)[k] == nodes[k],
    decreases keys.len(),
{
    if keys.len() > 0 {
        let p = keys.drop_last();
        let last = keys.last();
        lemma_with_nodes(nodes, p);
        let prev = with_nodes(Map::empty(), nodes, p);
        let cur = with_nodes(Map::empty(), nodes, keys);
        assert(cur == prev.insert(last, nodes[last]));
        assert forall|k: i32| keys.contains(k) <==> p.contains(k) || k == last by {
            if keys.contains(k) {
                let i = choose|i: int| 0 <= i < keys.len() && keys[i] == k;
                if i < keys.len() - 1 {
                    assert(p[i] == k);
                }
            }
            if p.contains(k) {
                let i = choose|i: int| 0 <= i < p.len() && p[i] == k;
                assert(keys[i] == k);
            }
            if k == last {
                assert(keys[keys.len() - 1] == k);
            }
        }
        assert forall|k: i32| #[trigger] cur.contains_key(k) <==> keys.contains(k) by {
            if k != last {
                assert(cur.contains_key(k) == prev.contains_key(k));
            }
        }
        assert forall|k: i32| keys.contains(k) implies #[trigger] cur[k] == nodes[k] by {
            if k != last {
                assert(p.contains(k));
                assert(cur[k] == prev[k]);
            }
        }
    }
}

proof fn lemma_with_slots(slots: Seq<Seq<(Seq<char>, Seq<char>)>>, n: int)
    requires
        slots.len() == 256,
        1 <= n <= 256,
    ensures
        with_slots(default_slots(), slots, non_default_upto(slots, n)) == Seq::new(
            256,
            |i: int|
                if 1 <= i < n && slots[i].len() > 0 {
                    slots[i]
                } else {
                    Seq::<(Seq<char>, Seq<char>)>::empty()
                },
        ),
        forall|i: int| 0 <= i < non_default_upto(slots, n).len() ==> 1 <= #[trigger] non_default_upto(
            slots,
            n,
        )[i] < n && slots[non_default_upto(slots, n)[i] as int].len() > 0,
    decreases n,
{
    let target = Seq::new(
        256,
        |i: int|
            if 1 <= i < n && slots[i].len() > 0 {
                slots[i]
            } else {
                Seq::<(Seq<char>, Seq<char>)>::empty()
            },
    );
    if n == 1 {
        assert(non_default_upto(slots, 1) == Seq::<u8>::empty());
        assert(default_slots() =~= target);
    } else {
        lemma_with_slots(slots, n - 1);
        let p = non_default_upto(slots, n - 1);
        let prev = with_slots(default_slots(), slots, p);
        if slots[n - 1].len() > 0 {
            let ids = p.push((n - 1) as u8);
            assert(non_default_upto(slots, n) == ids);
            assert(ids.drop_last() =~= p);
            assert(with_slots(default_slots(), slots, ids) == prev.update(n - 1, slots[n - 1]));
            assert(prev.update(n - 1, slots[n - 1]) =~= target);
            assert forall|i: int| 0 <= i < ids.len() implies 1 <= #[trigger] ids[i] < n && slots[ids[i] as int].len() > 0 by {
                if i < p.len() {
                    assert(ids[i] == p[i]);
                }
            }
        } else {
            assert(non_default_upto(slots, n) =~= p);
            assert(prev =~= target);
        }
    }
}

/// The conditions under which a scene survives writing and reading: every
/// node is stored under its own id and its names and counts fit their 32-bit
/// fields; material slot 0 is empty; material dictionaries and layer names fit.
pub open spec fn writable(s: Scene) -> bool {
    &&& s.wf()
    &&& forall|k: i32| s.graph().nodes.contains_key(k) ==> node_fits(k, #[trigger] s.graph().nodes[k])
    &&& s.materials.slots()[0].len() == 0
    &&& forall|i: int| 0 <= i < 256 ==> fits_pairs(#[trigger] s.materials.slots()[i])
    &&& forall|i: int|
        0 <= i < s.layers.layers@.len() ==> fits_string((#[trigger] s.layers.layers@[i]).name@)
}

/// What reading a written scene gathers.
pub open spec fn written_scan(s: Scene, colors: Seq<ColorRgba>, keys: Seq<i32>) -> ScanState {
    ScanState {
        sizes: model_sizes(s.models@),
        xyzi: model_voxels(s.models@),
        palette: colors,
        nodes: s.graph().nodes,
        max_id: max_of(-1i32, keys),
        materials: s.materials.slots(),
        legacy: Seq::empty(),
        layers: layer_views(s.layers.layers@),
    }
}

/// All chunks of a written file, in order.
pub open spec fn file_chunks(s: Scene, colors: Seq<ColorRgba>, keys: Seq<i32>) -> Seq<(Seq<u8>, Seq<u8>)> {
    model_chunks(s.models@) + seq![(tag_rgba(), rgba_payload(colors))] + node_chunks(
        s.graph().nodes,
        keys,
    ) + matl_chunks(s.materials.slots(), non_default_upto(s.materials.slots(), 256)) + layer_chunks(
        s.layers.layers@,
    )
}

#[verifier::rlimit(60)]
#[verifier::spinoff_prover]
proof fn lemma_file_chunks(s: Scene, colors: Seq<ColorRgba>, keys: Seq<i32>)
    requires
        writable(s),
        colors.len() == 256,
        colors[0] == default_color(0),
        ascending_keys(keys, s.nodes@.dom()),
    ensures
        vox_children(s, colors, keys) == enc_chunks(file_chunks(s, colors, keys)),
        forall|i: int| 0 <= i < file_chunks(s, colors, keys).len() ==> (#[trigger] file_chunks(
            s,
            colors,
            keys,
        )[i]).0.len() == 4,
        fold_steps(initial_scan(), file_chunks(s, colors, keys)) == Ok::<ScanState, ChunkKind>(
            written_scan(s, colors, keys),
        ),
{
    let ms = s.models@;
    let gn = s.graph().nodes;
    let slots = s.materials.slots();
    let ids = non_default_upto(slots, 256);
    let ls = s.layers.layers@;
    let mc = model_chunks(ms);
    let rc = seq![(tag_rgba(), rgba_payload(colors))];
    let nc = node_chunks(gn, keys);
    let tc = matl_chunks(slots, ids);
    let lc = layer_chunks(ls);
    assert forall|i: int| 0 <= i < ms.len() implies (#[trigger] ms[i]).wf() by {
    }
    lemma_model_chunks_enc(ms);
    lemma_one_chunk((tag_rgba(), rgba_payload(colors)));
    lemma_node_chunks_enc(gn, keys);
    assert(gn.dom() =~= s.nodes@.dom());
    assert forall|i: int| 0 <= i < keys.len() implies gn.contains_key(#[trigger] keys[i]) && node_fits(
        keys[i],
        gn[keys[i]],
    ) by {
        assert(keys.contains(keys[i]));
    }
    lemma_with_slots(slots, 256);
    assert forall|i: int| 0 <= i < ids.len() implies 1 <= #[trigger] ids[i] && fits_pairs(
        slots[ids[i] as int],
    ) by {
    }
    lemma_matl_chunks(slots, ids, initial_scan());
    lemma_layer_chunks(ls, initial_scan());
    lemma_enc_chunks_concat(mc, rc);
    lemma_enc_chunks_concat(mc + rc, nc);
    lemma_enc_chunks_concat(mc + rc + nc, tc);
    lemma_enc_chunks_concat(mc + rc + nc + tc, lc);
    let all = file_chunks(s, colors, keys);
    assert forall|i: int| 0 <= i < all.len() implies (#[trigger] all[i]).0.len() == 4 by {
        let a = mc.len() as int;
        let b = a + 1;
        let c = b + nc.len();
        let d = c + tc.len();
        if i < a {
            assert(all[i] == mc[i]);
        } else if i < b {
            assert(all[i] == rc[i - a]);
        } else if i < c {
            assert(all[i] == nc[i - b]);
        } else if i < d {
            assert(all[i] == tc[i - c]);
        } else {
            assert(all[i] == lc[i - d]);
        }
    }
    // reading the chunks one part after another
    let s0 = initial_scan();
    lemma_model_steps(s0, ms);
    let s1 = ScanState { sizes: s0.sizes + model_sizes(ms), xyzi: s0.xyzi + model_voxels(ms), ..s0 };
    lemma_one_step(s1, (tag_rgba(), rgba_payload(colors)));
    lemma_rgba_step(s1, colors);
    let s2 = ScanState { palette: colors, ..s1 };
    lemma_node_chunks(gn, keys, s2);
    let s3 = ScanState { nodes: with_nodes(s2.nodes, gn, keys), max_id: max_of(s2.max_id, keys), ..s2 };
    lemma_matl_chunks(slots, ids, s3);
    let s4 = ScanState { materials: with_slots(s3.materials, slots, ids), ..s3 };
    lemma_layer_chunks(ls, s4);
    let s5 = ScanState { layers: s4.layers + layer_views(ls), ..s4 };
    lemma_fold_concat(s0, mc, rc);
    lemma_fold_concat(s0, mc + rc, nc);
    lemma_fold_concat(s0, mc + rc + nc, tc);
    lemma_fold_concat(s0, mc + rc + nc + tc, lc);
    // the state reached is what was written
    lemma_with_nodes(gn, keys);
    assert(s3.nodes =~= gn);
    assert forall|i: int| 0 <= i < 256 implies #[trigger] s4.materials[i] =~= slots[i] by {
    }
    assert(s4.materials =~= slots);
    assert(s5.sizes =~= model_sizes(ms));
    assert(s5.xyzi =~= model_voxels(ms));
    assert(s5.layers =~= layer_views(ls));
    assert(s5 == written_scan(s, colors, keys));
}


/// A file made of the header and a `MAIN` chunk whose children are `cs`
/// parses to what reading `cs` gathers, or fails where reading `cs` fails.
proof fn lemma_parse_frame(cs: Seq<(Seq<u8>, Seq<u8>)>)
    requires
        forall|i: int| 0 <= i < cs.len() ==> (#[trigger] cs[i]).0.len() == 4,
        20 + enc_chunks(cs).len() < 0x1_0000_0000,
    ensures
        parse_vox(tag_vox() + u32_bytes(150) + enc_chunk(tag_main(), Seq::<u8>::empty(), enc_chunks(cs)))
            == match fold_steps(initial_scan(), cs) {
            Err(k) => Err::<ScanState, ReadFailure>(ReadFailure::Chunk(k)),
            Ok(t) => Ok::<ScanState, ReadFailure>(t),
        },
{
    let ch = enc_chunks(cs);
    let data = tag_vox() + u32_bytes(150) + enc_chunk(tag_main(), Seq::<u8>::empty(), ch);
    assert(data.len() == 20 + ch.len());
    assert(data.subrange(0, 4) =~= tag_vox());
    assert(data.subrange(4, 8) =~= u32_bytes(150));
    lemma_u32_bytes(data, 4, 150);
    assert(data.subrange(8, 12) =~= tag_main());
    assert(data.subrange(12, 16) =~= u32_bytes(0));
    lemma_u32_bytes(data, 12, 0);
    assert(data.subrange(16, 20) =~= u32_bytes(ch.len() as int));
    lemma_u32_bytes(data, 16, ch.len() as int);
    let end = 20 + ch.len() as int;
    assert(data.subrange(20, end) =~= ch);
    lemma_chunks_scan(data, 20, end, initial_scan(), cs);
    match fold_steps(initial_scan(), cs) {
        Err(k) => {},
        Ok(t) => {
            assert(scan(data, end, end, t) == Ok::<ScanState, ChunkKind>(t));
        },
    }
}

/// An `nGRP` or `nSHP` chunk whose child or model count is there and
/// negative.
pub open spec fn negative_count(c: Seq<u8>) -> bool {
    &&& c.len() >= 4
    &&& parse_dict(c, 4) matches Ok((_, o)) && o + 4 <= c.len() && le_i32(c, o) < 0
}

/// A node chunk (`nTRN`, `nGRP` or `nSHP`) whose attribute `DICT` holds a
/// key or value of negative length, or an `nGRP` or `nSHP` chunk whose child
/// or model count is negative.
pub open spec fn negative_length_node(id: Seq<u8>, c: Seq<u8>) -> bool {
    ||| (id == tag_trn() || id == tag_grp() || id == tag_shp()) && c.len() >= 4
        && dict_has_negative_string(c, 4)
    ||| (id == tag_grp() || id == tag_shp()) && negative_count(c)
}

proof fn lemma_negative_node_step(st: ScanState, id: Seq<u8>, c: Seq<u8>)
    requires
        negative_length_node(id, c),
    ensures
        scan_step(st, id, c) is Err,
{
    if c.len() >= 4 && dict_has_negative_string(c, 4) {
        lemma_negative_string_refused(c, 4);
    }
    if id == tag_trn() {
        lemma_step_trn(st, c);
    } else if id == tag_grp() {
        lemma_step_grp(st, c);
    } else {
        lemma_step_shp(st, c);
    }
}

/// A file whose `MAIN` chunk holds, anywhere among its children, a node chunk
/// with a negative child or model count or a negative string length is
/// refused as holding a malformed chunk, whatever the other chunks hold.
pub proof fn lemma_negative_length_file_refused(
    pre: Seq<(Seq<u8>, Seq<u8>)>,
    id: Seq<u8>,
    c: Seq<u8>,
    post: Seq<(Seq<u8>, Seq<u8>)>,
)
    requires
        forall|i: int| 0 <= i < pre.len() ==> (#[trigger] pre[i]).0.len() == 4,
        forall|i: int| 0 <= i < post.len() ==> (#[trigger] post[i]).0.len() == 4,
        negative_length_node(id, c),
        20 + enc_chunks(pre.push((id, c)) + post).len() < 0x1_0000_0000,
    ensures
        parse_vox(
            tag_vox() + u32_bytes(150) + enc_chunk(
                tag_main(),
                Seq::<u8>::empty(),
                enc_chunks(pre.push((id, c)) + post),
            ),
        ) matches Err(ReadFailure::Chunk(_)),
{
    let a = pre.push((id, c));
    let cs = a + post;
    assert(a.drop_last() =~= pre);
    match fold_steps(initial_scan(), pre) {
        Err(k) => {},
        Ok(s1) => {
            lemma_negative_node_step(s1, id, c);
        },
    }
    assert(fold_steps(initial_scan(), a) is Err);
    lemma_fold_concat(initial_scan(), a, post);
    assert(id.len() == 4);
    assert forall|i: int| 0 <= i < cs.len() implies (#[trigger] cs[i]).0.len() == 4 by {
        if i < pre.len() {
            assert(cs[i] == pre[i]);
        } else if i == pre.len() {
            assert(cs[i] == (id, c));
        } else {
            assert(cs[i] == post[i - pre.len() - 1]);
        }
    }
    lemma_parse_frame(cs);
}

/// A written file parses to exactly the chunks that were written.
#[verifier::rlimit(50)]
#[verifier::spinoff_prover]
pub proof fn lemma_parse_written(s: Scene, colors: Seq<ColorRgba>, keys: Seq<i32>)
    requires
        writable(s),
        colors.len() == 256,
        colors[0] == default_color(0),
        ascending_keys(keys, s.nodes@.dom()),
        enc_vox(s, colors, keys).len() < 0x1_0000_0000,
    ensures
        parse_vox(enc_vox(s, colors, keys)) == Ok::<ScanState, ReadFailure>(written_scan(s, colors, keys)),
{
    let fc = file_chunks(s, colors, keys);
    let target = written_scan(s, colors, keys);
    lemma_file_chunks(s, colors, keys);
    assert(enc_vox(s, colors, keys) == tag_vox() + u32_bytes(150) + enc_chunk(
        tag_main(),
        Seq::<u8>::empty(),
        enc_chunks(fc),
    ));
    lemma_parse_frame(fc);
}


/// Writing a scene and reading the bytes back gives the same scene: the
/// bytes parse, every model can be built, and any scene and palette that
/// reading then returns hold each model's grid, the palette (entry 0, which
/// the format does not store, comes back as the default), the node graph
/// (when the scene has nodes), the material slots with no raw material chunks,
/// and the layers ordered by id.
pub proof fn lemma_vox_roundtrip(s: Scene, p: Palette, bytes: Seq<u8>)
    requires
        writable(s),
        p.wf(),
        s.models@.len() > 0,
        s.nodes@.dom().len() == 0 ==> s.models@.len() <= 53_687_092,
        bytes.len() < 0x1_0000_0000,
        exists|ks: Seq<i32>| ascending_keys(ks, s.nodes@.dom()) && bytes == enc_vox(s, p.colors(), ks),
    ensures
        parse_vox(bytes) matches Ok(st) && {
            &&& st.sizes.len() > 0
            &&& st.xyzi.len() > 0
            &&& first_model_error(st, model_count(st)) is None
            &&& !(st.nodes.is_empty() && model_count(st) > 53_687_092)
            &&& forall|s2: Scene, p2: Palette| #[trigger] read_scene_ok(s2, p2, st) ==> {
                &&& s2.grids() == s.grids()
                &&& p2.colors() == p.colors().update(0, default_color(0))
                &&& s.nodes@.dom().len() > 0 ==> s2.graph().nodes == s.graph().nodes
                &&& s.nodes@.dom().len() == 0 ==> s2.graph() == default_graph(s.models@.len() as int)
                &&& s2.materials.slots() == s.materials.slots()
                &&& s2.materials.legacy().len() == 0
                &&& s.layers.layers@.len() == 0 ==> is_standard_eight(s2.layers.layers@)
                &&& s.layers.layers@.len() > 0 ==> exists|input: Seq<Layer>|
                    layer_views(input) == layer_views(s.layers.layers@) && stable_sorted_by_id(
                        s2.layers.layers@,
                        input,
                    )
            }
        },
{
    let ks = choose|ks: Seq<i32>| ascending_keys(ks, s.nodes@.dom()) && bytes == enc_vox(s, p.colors(), ks);
    let colors = p.colors().update(0, default_color(0));
    assert(rgba_payload(colors) =~= rgba_payload(p.colors()));
    assert(enc_vox(s, colors, ks) == bytes);
    lemma_parse_written(s, colors, ks);
    let st = written_scan(s, colors, ks);
    let ms = s.models@;
    assert forall|i: int| 0 <= i < ms.len() implies (#[trigger] ms[i]).wf() by {
    }
    lemma_models_build(st, ms, ms.len() as int);
    assert(model_count(st) == ms.len());
    assert(s.graph().nodes.dom() =~= s.nodes@.dom());
    if s.nodes@.dom().len() == 0 {
        assert(s.graph().nodes.dom().len() == 0);
    } else {
        assert(s.graph().nodes.dom().len() > 0);
        assert(!s.graph().nodes.is_empty());
    }
    assert forall|s2: Scene, p2: Palette| #[trigger] read_scene_ok(s2, p2, st) implies {
        &&& s2.grids() == s.grids()
        &&& p2.colors() == colors
    } by {
        assert forall|i: int| 0 <= i < ms.len() implies #[trigger] s2.grids()[i] == s.grids()[i] by {
            assert(built_from(s2.models@[i], st.sizes[i], st.xyzi[i]));
            lemma_built_from_occupied(ms[i], s2.models@[i]);
        }
        assert(s2.grids() =~= s.grids());
    }
}


/// A scene holding one model as `Scene::from_single_model` builds it can be
/// written and read back.
proof fn lemma_single_model_writable(s: Scene)
    requires
        s.wf(),
        s.graph() == single_model_graph(),
        is_standard_eight(s.layers.layers@),
        s.materials.slots() == default_slots(),
    ensures
        writable(s),
{
    let name = seq!['o', 'b', 'j', 'e', 'c', 't'];
    assert(is_ascii_chars(name));
    lemma_ascii_fits(name);
    let g = single_model_graph();
    assert forall|k: i32| s.graph().nodes.contains_key(k) implies node_fits(k, #[trigger] s.graph().nodes[k]) by {
        assert(k == 0 || k == 1);
    }
    assert forall|i: int| 0 <= i < 256 implies fits_pairs(#[trigger] s.materials.slots()[i]) by {
    }
    assert forall|i: int| 0 <= i < s.layers.layers@.len() implies fits_string(
        (#[trigger] s.layers.layers@[i]).name@,
    ) by {
        assert(s.layers.layers@[i].id == i);
        lemma_decimal_fits(i);
    }
}

/// Reading what `write_vox` wrote gives back the model (its size and every
/// voxel) and the palette; entry 0, which the format does not store, comes
/// back as the default.
pub proof fn lemma_model_roundtrip(m: VoxelModel, p: Palette, bytes: Seq<u8>)
    requires
        m.wf(),
        p.wf(),
        bytes.len() < 0x1_0000_0000,
        single_model_file(m, p, bytes),
    ensures
        parse_vox(bytes) matches Ok(st) && {
            &&& st.sizes.len() > 0
            &&& st.xyzi.len() > 0
            &&& first_model_error(st, model_count(st)) is None
            &&& !st.nodes.is_empty()
            &&& st.palette == p.colors().update(0, default_color(0))
            &&& forall|m2: VoxelModel| #[trigger] built_from(m2, st.sizes[0], st.xyzi[0]) ==> m2.grid() == m.grid()
        },
{
    let (s, ks) = choose|s: Scene, ks: Seq<i32>|
        {
            &&& s.wf()
            &&& s.grids() == seq![m.grid()]
            &&& s.models@.len() == 1
            &&& s.models@[0].same_as(&m)
            &&& s.graph() == single_model_graph()
            &&& is_standard_eight(s.layers.layers@)
            &&& s.materials.slots() == default_slots()
            &&& ascending_keys(ks, s.nodes@.dom())
            &&& bytes == enc_vox(s, p.colors(), ks)
        };
    lemma_single_model_writable(s);
    let colors = p.colors().update(0, default_color(0));
    assert(rgba_payload(colors) =~= rgba_payload(p.colors()));
    assert(enc_vox(s, colors, ks) == bytes);
    lemma_parse_written(s, colors, ks);
    let st = written_scan(s, colors, ks);
    let ms = s.models@;
    assert forall|i: int| 0 <= i < ms.len() implies (#[trigger] ms[i]).wf() by {
    }
    lemma_models_build(st, ms, ms.len() as int);
    assert(model_count(st) == 1);
    assert(s.graph().nodes.contains_key(0));
    assert(!st.nodes.is_empty()) by {
        assert(st.nodes.dom().contains(0));
    }
    assert forall|m2: VoxelModel| #[trigger] built_from(m2, st.sizes[0], st.xyzi[0]) implies m2.grid() == m.grid() by {
        lemma_built_from_occupied(ms[0], m2);
        assert(ms[0].grid() == s.grids()[0]);
    }
}

} // verus!
