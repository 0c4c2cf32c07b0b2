//! Writing MagicaVoxel `.vox` data: models, palette, scene graph, materials
//! and layers.

use vstd::prelude::*;
use std::collections::HashMap;
use vstd::std_specs::iter::IteratorSpec;
use crate::scene::{SceneNode, NodeId, NodeView, Scene, TransformNode, GroupNode, ShapeNode};
use crate::dict::{u32_bytes, push_u32, push_i32, push_bytes, write_dict, enc_dict};
use crate::text::{decimal, decimal_string, chars_of, string_of};
use crate::layer::Layer;
use crate::material::{props_view, non_default_upto, MaterialTable};
use crate::palette::{ColorRgba, Palette};
use crate::model::{IVec3, VoxelModel};
use crate::vox::VoxError;

verus! {

broadcast use vstd::std_specs::hash::group_hash_axioms;

/// `ks` lists the ids of `dom` in strictly ascending order.
pub open spec fn ascending_keys(ks: Seq<i32>, dom: Set<i32>) -> bool {
    &&& forall|i: int, j: int| 0 <= i < j < ks.len() ==> ks[i] < ks[j]
    &&& forall|k: i32| dom.contains(k) <==> ks.contains(k)
}

/// The node ids in ascending order.
pub fn sorted_node_ids(nodes: &HashMap<NodeId, SceneNode>) -> (ks: Vec<NodeId>)
    ensures
        ascending_keys(ks@, nodes@.dom()),
{
    let mut ids: Vec<NodeId> = Vec::new();
    let ghost all = vstd::std_specs::hash::spec_keys_iter(nodes).remaining().unref();
    proof {
        assert(all.to_set() == nodes@.dom());
    }
    for k in it: nodes.keys()
        invariant
            it.seq().unref() == all,
            ids@.len() == it.index(),
            ids@ == all.take(it.index()),
    {
        assert(all.take(it.index() + 1) =~= ids@.push(*k));
        ids.push(*k);
    }
    assert(ids@ =~= all);
    proof {
        assert(vstd::std_specs::hash::spec_keys_iter(nodes).remaining().no_duplicates());
        assert(all.no_duplicates());
    }
    let ghost all = ids@;
    let mut sorted: Vec<NodeId> = Vec::new();
    let mut i: usize = 0;
    while i < ids.len()
        invariant
            i <= ids.len(),
            all == ids@,
            all.no_duplicates(),
            forall|a: int, b: int| 0 <= a < b < sorted@.len() ==> sorted@[a] < sorted@[b],
            forall|k: i32| all.take(i as int).contains(k) <==> sorted@.contains(k),
        decreases ids.len() - i,
    {
        let k = ids[i];
        let mut p: usize = 0;
        while p < sorted.len() && sorted[p] < k
            invariant
                p <= sorted@.len(),
                forall|a: int| 0 <= a < p ==> sorted@[a] < k,
            decreases sorted.len() - p,
        {
            p = p + 1;
        }
        proof {
            assert(!all.take(i as int).contains(k)) by {
                if all.take(i as int).contains(k) {
                    let j = choose|j: int| 0 <= j < i && all.take(i as int)[j] == k;
                    assert(all[j] == all[i as int]);
                }
            }
            assert(!sorted@.contains(k));
            assert(p < sorted@.len() ==> sorted@[p as int] > k) by {
                if p < sorted@.len() {
                    assert(sorted@[p as int] != k);
                }
            }
        }
        let ghost old_sorted = sorted@;
        sorted.insert(p, k);
        proof {
            assert(sorted@ == old_sorted.insert(p as int, k));
            assert forall|a: int, b: int| 0 <= a < b < sorted@.len() implies sorted@[a] < sorted@[b] by {
                if b < p {
                } else if a < p && b == p {
                } else if a < p && b > p {
                    assert(sorted@[b] == old_sorted[b - 1]);
                    assert(old_sorted[p as int] > k);
                    if b - 1 > p {
                        assert(old_sorted[p as int] < old_sorted[b - 1]);
                    }
                } else if a == p {
                    assert(sorted@[b] == old_sorted[b - 1]);
                    if b - 1 > p {
                        assert(old_sorted[p as int] < old_sorted[b - 1]);
                    }
                } else {
                    assert(sorted@[a] == old_sorted[a - 1]);
                    assert(sorted@[b] == old_sorted[b - 1]);
                }
            }
            let t1 = all.take(i + 1);
            let t0 = all.take(i as int);
            assert(t1 =~= t0.push(k));
            assert forall|x: i32| t1.contains(x) <==> sorted@.contains(x) by {
                if t1.contains(x) {
                    let j = choose|j: int| 0 <= j < i + 1 && t1[j] == x;
                    if j < i {
                        assert(t0[j] == x);
                        assert(old_sorted.contains(x));
                        let q = choose|q: int| 0 <= q < old_sorted.len() && old_sorted[q] == x;
                        if q < p {
                            assert(sorted@[q] == x);
                        } else {
                            assert(sorted@[q + 1] == x);
                        }
                    } else {
                        assert(sorted@[p as int] == x);
                    }
                }
                if sorted@.contains(x) {
                    let q = choose|q: int| 0 <= q < sorted@.len() && sorted@[q] == x;
                    if q < p {
                        assert(old_sorted[q] == x);
                        assert(old_sorted.contains(x));
                        assert(t0.contains(x));
                        let j = choose|j: int| 0 <= j < i && t0[j] == x;
                        assert(t1[j] == x);
                    } else if q == p {
                        assert(t1[i as int] == x);
                    } else {
                        assert(old_sorted[q - 1] == x);
                        assert(old_sorted.contains(x));
                        assert(t0.contains(x));
                        let j = choose|j: int| 0 <= j < i && t0[j] == x;
                        assert(t1[j] == x);
                    }
                }
            }
        }
        i = i + 1;
    }
    assert(all.take(i as int) =~= all);
    sorted
}

pub open spec fn tag_vox() -> Seq<u8> {
    seq![86u8, 79, 88, 32]
}

pub open spec fn tag_main() -> Seq<u8> {
    seq![77u8, 65, 73, 78]
}

pub open spec fn tag_size() -> Seq<u8> {
    seq![83u8, 73, 90, 69]
}

pub open spec fn tag_xyzi() -> Seq<u8> {
    seq![88u8, 89, 90, 73]
}

pub open spec fn tag_rgba() -> Seq<u8> {
    seq![82u8, 71, 66, 65]
}

pub open spec fn tag_trn() -> Seq<u8> {
    seq![110u8, 84, 82, 78]
}

pub open spec fn tag_grp() -> Seq<u8> {
    seq![110u8, 71, 82, 80]
}

pub open spec fn tag_shp() -> Seq<u8> {
    seq![110u8, 83, 72, 80]
}

pub open spec fn tag_matl() -> Seq<u8> {
    seq![77u8, 65, 84, 76]
}

pub open spec fn tag_matt() -> Seq<u8> {
    seq![77u8, 65, 84, 84]
}

pub open spec fn tag_layr() -> Seq<u8> {
    seq![76u8, 65, 89, 82]
}

pub open spec fn key_name() -> Seq<char> {
    seq!['_', 'n', 'a', 'm', 'e']
}

pub open spec fn key_hidden() -> Seq<char> {
    seq!['_', 'h', 'i', 'd', 'd', 'e', 'n']
}

pub open spec fn key_t() -> Seq<char> {
    seq!['_', 't']
}

pub open spec fn key_r() -> Seq<char> {
    seq!['_', 'r']
}

pub open spec fn key_color() -> Seq<char> {
    seq!['_', 'c', 'o', 'l', 'o', 'r']
}

/// A chunk: id, content size, children size, content, children (sizes modulo 2^32).
pub open spec fn enc_chunk(id: Seq<u8>, content: Seq<u8>, children: Seq<u8>) -> Seq<u8> {
    id + u32_bytes(content.len() as int) + u32_bytes(children.len() as int) + content + children
}

/// `XYZI` voxel records.
pub open spec fn enc_voxels(v: Seq<(u8, u8, u8, u8)>) -> Seq<u8>
    decreases v.len(),
{
    if v.len() == 0 {
        Seq::empty()
    } else {
        enc_voxels(v.drop_last()) + seq![v.last().0, v.last().1, v.last().2, v.last().3]
    }
}

/// `SIZE` then `XYZI` of a model.
pub open spec fn enc_model(m: VoxelModel) -> Seq<u8> {
    enc_chunk(
        tag_size(),
        u32_bytes(m.sx() as int) + u32_bytes(m.sy() as int) + u32_bytes(m.sz() as int),
        Seq::empty(),
    ) + enc_chunk(
        tag_xyzi(),
        u32_bytes(m.occupied().len() as int) + enc_voxels(m.occupied()),
        Seq::empty(),
    )
}

pub open spec fn enc_models(ms: Seq<VoxelModel>) -> Seq<u8>
    decreases ms.len(),
{
    if ms.len() == 0 {
        Seq::empty()
    } else {
        enc_models(ms.drop_last()) + enc_model(ms.last())
    }
}

pub open spec fn channel(c: ColorRgba, k: int) -> u8 {
    if k == 0 {
        c.r
    } else if k == 1 {
        c.g
    } else if k == 2 {
        c.b
    } else {
        c.a
    }
}

/// `RGBA` payload: colors 1..=255, then four zero bytes.
pub open spec fn rgba_payload(colors: Seq<ColorRgba>) -> Seq<u8> {
    Seq::new(1024, |k: int| if k < 1020 { channel(colors[k / 4 + 1], k % 4) } else { 0u8 })
}

/// `x y z` in decimal.
pub open spec fn ivec3_text(t: IVec3) -> Seq<char> {
    decimal(t.x as int) + seq![' '] + decimal(t.y as int) + seq![' '] + decimal(t.z as int)
}

/// Name and hidden flag of a transform (each only when set).
pub open spec fn trn_attrs(name: Seq<char>, hidden: bool) -> Seq<(Seq<char>, Seq<char>)> {
    (if name.len() > 0 { seq![(key_name(), name)] } else { Seq::empty() }) + (if hidden {
        seq![(key_hidden(), seq!['1'])]
    } else {
        Seq::empty()
    })
}

/// The single frame of a transform: translation, and rotation when not identity.
pub open spec fn trn_frame(t: IVec3, r: u8) -> Seq<(Seq<char>, Seq<char>)> {
    seq![(key_t(), ivec3_text(t))] + (if r != 0 {
        seq![(key_r(), decimal(r as int))]
    } else {
        Seq::empty()
    })
}

pub open spec fn enc_ids(ids: Seq<i32>) -> Seq<u8>
    decreases ids.len(),
{
    if ids.len() == 0 {
        Seq::empty()
    } else {
        enc_ids(ids.drop_last()) + u32_bytes(ids.last() as int)
    }
}

pub open spec fn enc_shape_models(ids: Seq<usize>) -> Seq<u8>
    decreases ids.len(),
{
    if ids.len() == 0 {
        Seq::empty()
    } else {
        enc_shape_models(ids.drop_last()) + u32_bytes(ids.last() as int) + enc_dict(Seq::empty())
    }
}

/// The chunk of a scene node.
pub open spec fn enc_node(n: NodeView) -> Seq<u8> {
    match n {
        NodeView::Transform { id, name, hidden, child, translation, rotation, layer_id } => enc_chunk(
            tag_trn(),
            u32_bytes(id as int) + enc_dict(trn_attrs(name, hidden)) + u32_bytes(child as int)
                + u32_bytes(-1) + u32_bytes(layer_id as int) + u32_bytes(1) + enc_dict(
                trn_frame(translation, rotation),
            ),
            Seq::empty(),
        ),
        NodeView::Group { id, name, children } => enc_chunk(
            tag_grp(),
            u32_bytes(id as int) + enc_dict(
                if name.len() == 0 {
                    Seq::empty()
                } else {
                    seq![(key_name(), name)]
                },
            ) + u32_bytes(children.len() as int) + enc_ids(children),
            Seq::empty(),
        ),
        NodeView::Shape { id, model_ids } => enc_chunk(
            tag_shp(),
            u32_bytes(id as int) + enc_dict(Seq::empty()) + u32_bytes(model_ids.len() as int)
                + enc_shape_models(model_ids),
            Seq::empty(),
        ),
    }
}

/// The node chunks for `keys`, in that order.
pub open spec fn enc_nodes(nodes: Map<i32, NodeView>, keys: Seq<i32>) -> Seq<u8>
    decreases keys.len(),
{
    if keys.len() == 0 {
        Seq::empty()
    } else {
        enc_nodes(nodes, keys.drop_last()) + if nodes.contains_key(keys.last()) {
            enc_node(nodes[keys.last()])
        } else {
            Seq::empty()
        }
    }
}

/// The `MATL` chunk of a material slot.
pub open spec fn enc_matl(id: u8, props: Seq<(Seq<char>, Seq<char>)>) -> Seq<u8> {
    enc_chunk(tag_matl(), u32_bytes(id as int) + enc_dict(props), Seq::empty())
}

pub open spec fn enc_matls(slots: Seq<Seq<(Seq<char>, Seq<char>)>>, ids: Seq<u8>) -> Seq<u8>
    decreases ids.len(),
{
    if ids.len() == 0 {
        Seq::empty()
    } else {
        enc_matls(slots, ids.drop_last()) + enc_matl(ids.last(), slots[ids.last() as int])
    }
}

/// Name (when set), hidden flag and swatch of a layer.
pub open spec fn layer_attrs(l: Layer) -> Seq<(Seq<char>, Seq<char>)> {
    (if l.name@.len() > 0 { seq![(key_name(), l.name@)] } else { Seq::empty() }) + seq![
        (key_hidden(), if l.hidden { seq!['1'] } else { seq!['0'] }),
        (
            key_color(),
            decimal(l.color[0] as int) + seq![' '] + decimal(l.color[1] as int) + seq![' ']
                + decimal(l.color[2] as int),
        ),
    ]
}

pub open spec fn enc_layer(l: Layer) -> Seq<u8> {
    enc_chunk(
        tag_layr(),
        u32_bytes(l.id as int) + enc_dict(layer_attrs(l)) + u32_bytes(-1),
        Seq::empty(),
    )
}

pub open spec fn enc_layers(ls: Seq<Layer>) -> Seq<u8>
    decreases ls.len(),
{
    if ls.len() == 0 {
        Seq::empty()
    } else {
        enc_layers(ls.drop_last()) + enc_layer(ls.last())
    }
}

/// The children of `MAIN`: models, palette, nodes in `keys` order,
/// non-default materials, layers.
pub open spec fn vox_children(s: Scene, colors: Seq<ColorRgba>, keys: Seq<i32>) -> Seq<u8> {
    enc_models(s.models@) + enc_chunk(tag_rgba(), rgba_payload(colors), Seq::empty()) + enc_nodes(
        s.graph().nodes,
        keys,
    ) + enc_matls(s.materials.slots(), non_default_upto(s.materials.slots(), 256)) + enc_layers(
        s.layers.layers@,
    )
}

/// A whole file: `VOX `, version 150, and `MAIN`.
pub open spec fn enc_vox(s: Scene, colors: Seq<ColorRgba>, keys: Seq<i32>) -> Seq<u8> {
    tag_vox() + u32_bytes(150) + enc_chunk(tag_main(), Seq::empty(), vox_children(s, colors, keys))
}

fn len_u32(n: usize) -> (r: u32)
    ensures
        r as int == n as int % 0x1_0000_0000,
{
    if n <= 0xffff_ffff {
        n as u32
    } else {
        ((n as u64) % 0x1_0000_0000) as u32
    }
}

fn encode_chunk(id: [u8; 4], content: &Vec<u8>, children: &Vec<u8>) -> (out: Vec<u8>)
    ensures
        out@ == enc_chunk(id@, content@, children@),
{
    let mut out: Vec<u8> = Vec::new();
    out.push(id[0]);
    out.push(id[1]);
    out.push(id[2]);
    out.push(id[3]);
    assert(out@ =~= id@);
    let n1 = len_u32(content.len());
    push_u32(&mut out, n1);
    let n2 = len_u32(children.len());
    push_u32(&mut out, n2);
    proof {
        assert(u32_bytes(n1 as int) =~= u32_bytes(content@.len() as int));
        assert(u32_bytes(n2 as int) =~= u32_bytes(children@.len() as int));
    }
    push_bytes(&mut out, content.as_slice());
    push_bytes(&mut out, children.as_slice());
    out
}

fn encode_voxels(voxels: &Vec<(u8, u8, u8, u8)>) -> (out: Vec<u8>)
    ensures
        out@ == u32_bytes(voxels@.len() as int) + enc_voxels(voxels@),
{
    let mut xyzi: Vec<u8> = Vec::new();
    let n = len_u32(voxels.len());
    push_u32(&mut xyzi, n);
    proof {
        assert(u32_bytes(n as int) =~= u32_bytes(voxels@.len() as int));
        assert(xyzi@ =~= u32_bytes(voxels@.len() as int));
        assert(voxels@.take(0) =~= Seq::<(u8, u8, u8, u8)>::empty());
    }
    let ghost head = xyzi@;
    let mut i: usize = 0;
    while i < voxels.len()
        invariant
            i <= voxels.len(),
            head == u32_bytes(voxels@.len() as int),
            xyzi@ == head + enc_voxels(voxels@.take(i as int)),
        decreases voxels.len() - i,
    {
        let (x, y, z, c) = voxels[i];
        xyzi.push(x);
        xyzi.push(y);
        xyzi.push(z);
        xyzi.push(c);
        assert(voxels@.take(i + 1).drop_last() =~= voxels@.take(i as int));
        assert(xyzi@ =~= head + enc_voxels(voxels@.take(i + 1)));
        i = i + 1;
    }
    assert(voxels@.take(i as int) =~= voxels@);
    xyzi
}

fn encode_model(model: &VoxelModel) -> (out: Vec<u8>)
    requires
        model.wf(),
    ensures
        out@ == enc_model(*model),
{
    let voxels = model.iter_occupied();
    let (sx, sy, sz) = model.size();
    let mut size_content: Vec<u8> = Vec::new();
    push_u32(&mut size_content, sx);
    push_u32(&mut size_content, sy);
    push_u32(&mut size_content, sz);
    let xyzi = encode_voxels(&voxels);
    let empty: Vec<u8> = Vec::new();
    let mut out = encode_chunk([83, 73, 90, 69], &size_content, &empty);
    let b = encode_chunk([88, 89, 90, 73], &xyzi, &empty);
    push_bytes(&mut out, b.as_slice());
    proof {
        assert(size_content@ =~= u32_bytes(sx as int) + u32_bytes(sy as int) + u32_bytes(sz as int));
        assert([83u8, 73, 90, 69]@ =~= tag_size());
        assert([88u8, 89, 90, 73]@ =~= tag_xyzi());
        assert(empty@ =~= Seq::<u8>::empty());
    }
    out
}

fn encode_rgba(palette: &Palette) -> (out: Vec<u8>)
    requires
        palette.wf(),
    ensures
        out@ == enc_chunk(tag_rgba(), rgba_payload(palette.colors()), Seq::empty()),
{
    let mut b: Vec<u8> = Vec::new();
    let mut i: u32 = 1;
    while i <= 255
        invariant
            1 <= i <= 256,
            palette.wf(),
            b@.len() == 4 * (i - 1),
            forall|k: int| 0 <= k < b@.len() ==> #[trigger] b@[k] == rgba_payload(palette.colors())[k],
        decreases 256 - i,
    {
        let c = palette.get(i as u8);
        b.push(c.r);
        b.push(c.g);
        b.push(c.b);
        b.push(c.a);
        proof {
            let base = 4 * (i - 1);
            assert(palette.color(i as int) == palette.colors()[i as int]);
            assert forall|k: int| base <= k < base + 4 implies #[trigger] b@[k] == rgba_payload(
                palette.colors(),
            )[k] by {
                assert(k / 4 + 1 == i);
            }
        }
        i = i + 1;
    }
    b.push(0);
    b.push(0);
    b.push(0);
    b.push(0);
    assert(b@ =~= rgba_payload(palette.colors()));
    let empty: Vec<u8> = Vec::new();
    assert([82u8, 71, 66, 65]@ =~= tag_rgba());
    assert(empty@ =~= Seq::<u8>::empty());
    encode_chunk([82, 71, 66, 65], &b, &empty)
}

/// `a b c` in decimal.
fn join3(a: i64, b: i64, c: i64) -> (s: String)
    ensures
        s@ == decimal(a as int) + seq![' '] + decimal(b as int) + seq![' '] + decimal(c as int),
{
    let mut cs: Vec<char> = Vec::new();
    let da = chars_of(decimal_string(a).as_str());
    let db = chars_of(decimal_string(b).as_str());
    let dc = chars_of(decimal_string(c).as_str());
    append_chars(&mut cs, &da);
    cs.push(' ');
    append_chars(&mut cs, &db);
    cs.push(' ');
    append_chars(&mut cs, &dc);
    string_of(cs.as_slice())
}

fn append_chars(out: &mut Vec<char>, cs: &Vec<char>)
    ensures
        final(out)@ == old(out)@ + cs@,
{
    let mut i: usize = 0;
    while i < cs.len()
        invariant
            i <= cs.len(),
            out@ == old(out)@ + cs@.subrange(0, i as int),
        decreases cs.len() - i,
    {
        out.push(cs[i]);
        assert(cs@.subrange(0, i + 1) == cs@.subrange(0, i as int).push(cs@[i as int]));
        i = i + 1;
    }
    assert(cs@.subrange(0, cs.len() as int) == cs@);
}

pub open spec fn refs_view(p: Seq<(&str, &str)>) -> Seq<(Seq<char>, Seq<char>)> {
    p.map_values(|kv: (&str, &str)| (kv.0@, kv.1@))
}

proof fn lemma_refs_push(s: Seq<(&str, &str)>, x: (&str, &str))
    ensures
        refs_view(s.push(x)) == refs_view(s).push((x.0@, x.1@)),
{
    assert(refs_view(s.push(x)) =~= refs_view(s).push((x.0@, x.1@)));
}

fn props_refs(p: &Vec<(String, String)>) -> (r: Vec<(&str, &str)>)
    ensures
        refs_view(r@) == props_view(p@),
{
    let mut out: Vec<(&str, &str)> = Vec::new();
    let mut i: usize = 0;
    while i < p.len()
        invariant
            i <= p.len(),
            refs_view(out@) == props_view(p@.take(i as int)),
        decreases p.len() - i,
    {
        let kv = &p[i];
        let ghost before = out@;
        let k: &str = kv.0.as_str();
        let v: &str = kv.1.as_str();
        out.push((k, v));
        assert(out@ == before.push((k, v)));
        assert(k@ == p@[i as int].0@);
        assert(refs_view(out@) =~= refs_view(before).push((p@[i as int].0@, p@[i as int].1@)));
        assert(props_view(p@.take(i + 1)) =~= props_view(p@.take(i as int)).push(
            (p@[i as int].0@, p@[i as int].1@),
        ));
        i = i + 1;
    }
    assert(p@.take(i as int) =~= p@);
    out
}

fn encode_transform(t: &TransformNode) -> (out: Vec<u8>)
    ensures
        out@ == enc_node(SceneNode::Transform(*t)@),
{
    let empty: Vec<u8> = Vec::new();
    proof {
        reveal_strlit("_name");
        reveal_strlit("_hidden");
        reveal_strlit("_t");
        reveal_strlit("_r");
        reveal_strlit("1");
        assert("_name"@ =~= key_name());
        assert("_hidden"@ =~= key_hidden());
        assert("_t"@ =~= key_t());
        assert("_r"@ =~= key_r());
        assert("1"@ =~= seq!['1']);
        assert(empty@ =~= Seq::<u8>::empty());
    }

    let mut content: Vec<u8> = Vec::new();
    push_i32(&mut content, t.id);
    let mut attrs: Vec<(&str, &str)> = Vec::new();
    assert(refs_view(attrs@) =~= Seq::<(Seq<char>, Seq<char>)>::empty());
    if !t.name.as_str().is_empty() {
        let x = ("_name", t.name.as_str());
        proof {
            lemma_refs_push(attrs@, x);
        }
        attrs.push(x);
    }
    let ghost a1 = refs_view(attrs@);
    assert(a1 =~= (if t.name@.len() > 0 { seq![(key_name(), t.name@)] } else { Seq::empty() }));
    if t.hidden {
        let x = ("_hidden", "1");
        proof {
            lemma_refs_push(attrs@, x);
        }
        attrs.push(x);
    }
    assert(refs_view(attrs@) =~= trn_attrs(t.name@, t.hidden));
    let ghost c1 = content@;
    write_dict(&mut content, attrs.as_slice());
    push_i32(&mut content, t.child);
    push_i32(&mut content, -1);
    push_i32(&mut content, t.layer_id);
    push_i32(&mut content, 1);
    let tstr = join3(t.translation.x as i64, t.translation.y as i64, t.translation.z as i64);
    let rstr = decimal_string(t.rotation.0 as i64);
    let mut frame: Vec<(&str, &str)> = Vec::new();
    let x = ("_t", tstr.as_str());
    proof {
        lemma_refs_push(frame@, x);
        assert(refs_view(frame@) =~= Seq::<(Seq<char>, Seq<char>)>::empty());
    }
    frame.push(x);
    if t.rotation.0 != 0 {
        let y = ("_r", rstr.as_str());
        proof {
            lemma_refs_push(frame@, y);
        }
        frame.push(y);
    }
    assert(refs_view(frame@) =~= trn_frame(t.translation, t.rotation.0));
    write_dict(&mut content, frame.as_slice());
    assert([110u8, 84, 82, 78]@ =~= tag_trn());
    assert(content@ =~= u32_bytes(t.id as int) + enc_dict(trn_attrs(t.name@, t.hidden))
        + u32_bytes(t.child as int) + u32_bytes(-1) + u32_bytes(t.layer_id as int)
        + u32_bytes(1) + enc_dict(trn_frame(t.translation, t.rotation.0)));
    encode_chunk([110, 84, 82, 78], &content, &empty)

}

fn encode_group(g: &GroupNode) -> (out: Vec<u8>)
    ensures
        out@ == enc_node(SceneNode::Group(*g)@),
{
    let empty: Vec<u8> = Vec::new();
    proof {
        reveal_strlit("_name");
        reveal_strlit("_hidden");
        reveal_strlit("_t");
        reveal_strlit("_r");
        reveal_strlit("1");
        assert("_name"@ =~= key_name());
        assert("_hidden"@ =~= key_hidden());
        assert("_t"@ =~= key_t());
        assert("_r"@ =~= key_r());
        assert("1"@ =~= seq!['1']);
        assert(empty@ =~= Seq::<u8>::empty());
    }

    let mut content: Vec<u8> = Vec::new();
    push_i32(&mut content, g.id);
    let mut attrs: Vec<(&str, &str)> = Vec::new();
    if !g.name.as_str().is_empty() {
        attrs.push(("_name", g.name.as_str()));
    }
    let ghost gattrs: Seq<(Seq<char>, Seq<char>)> = if g.name@.len() == 0 {
        Seq::empty()
    } else {
        seq![(key_name(), g.name@)]
    };
    assert(refs_view(attrs@) =~= gattrs);
    write_dict(&mut content, attrs.as_slice());
    push_u32(&mut content, len_u32(g.children.len()));
    proof {
        assert(u32_bytes((g.children@.len() as int) % 0x1_0000_0000) =~= u32_bytes(
            g.children@.len() as int,
        ));
    }
    let ghost head = content@;
    let mut i: usize = 0;
    assert(g.children@.take(0) =~= Seq::<i32>::empty());
    while i < g.children.len()
        invariant
            i <= g.children.len(),
            content@ == head + enc_ids(g.children@.take(i as int)),
        decreases g.children.len() - i,
    {
        push_i32(&mut content, g.children[i]);
        assert(g.children@.take(i + 1).drop_last() =~= g.children@.take(i as int));
        assert(content@ =~= head + enc_ids(g.children@.take(i + 1)));
        i = i + 1;
    }
    assert(g.children@.take(i as int) =~= g.children@);
    assert([110u8, 71, 82, 80]@ =~= tag_grp());
    assert(content@ =~= u32_bytes(g.id as int) + enc_dict(gattrs) + u32_bytes(
        g.children@.len() as int,
    ) + enc_ids(g.children@));
    encode_chunk([110, 71, 82, 80], &content, &empty)

}

fn encode_shape(sh: &ShapeNode) -> (out: Vec<u8>)
    ensures
        out@ == enc_node(SceneNode::Shape(*sh)@),
{
    let empty: Vec<u8> = Vec::new();
    proof {
        reveal_strlit("_name");
        reveal_strlit("_hidden");
        reveal_strlit("_t");
        reveal_strlit("_r");
        reveal_strlit("1");
        assert("_name"@ =~= key_name());
        assert("_hidden"@ =~= key_hidden());
        assert("_t"@ =~= key_t());
        assert("_r"@ =~= key_r());
        assert("1"@ =~= seq!['1']);
        assert(empty@ =~= Seq::<u8>::empty());
    }

    let mut content: Vec<u8> = Vec::new();
    push_i32(&mut content, sh.id);
    let none: Vec<(&str, &str)> = Vec::new();
    assert(refs_view(none@) =~= Seq::<(Seq<char>, Seq<char>)>::empty());
    write_dict(&mut content, none.as_slice());
    push_u32(&mut content, len_u32(sh.model_ids.len()));
    proof {
        assert(u32_bytes((sh.model_ids@.len() as int) % 0x1_0000_0000) =~= u32_bytes(
            sh.model_ids@.len() as int,
        ));
    }
    let ghost head = content@;
    let mut i: usize = 0;
    assert(sh.model_ids@.take(0) =~= Seq::<usize>::empty());
    while i < sh.model_ids.len()
        invariant
            i <= sh.model_ids.len(),
            refs_view(none@) == Seq::<(Seq<char>, Seq<char>)>::empty(),
            content@ == head + enc_shape_models(sh.model_ids@.take(i as int)),
        decreases sh.model_ids.len() - i,
    {
        let m = len_u32(sh.model_ids[i]);
        push_u32(&mut content, m);
        write_dict(&mut content, none.as_slice());
        proof {
            assert(u32_bytes(m as int) =~= u32_bytes(sh.model_ids@[i as int] as int));
        }
        assert(sh.model_ids@.take(i + 1).drop_last() =~= sh.model_ids@.take(i as int));
        assert(content@ =~= head + enc_shape_models(sh.model_ids@.take(i + 1)));
        i = i + 1;
    }
    assert(sh.model_ids@.take(i as int) =~= sh.model_ids@);
    assert([110u8, 83, 72, 80]@ =~= tag_shp());
    assert(content@ =~= u32_bytes(sh.id as int) + enc_dict(Seq::empty()) + u32_bytes(
        sh.model_ids@.len() as int,
    ) + enc_shape_models(sh.model_ids@));
    encode_chunk([110, 83, 72, 80], &content, &empty)

}

fn encode_node(node: &SceneNode) -> (out: Vec<u8>)
    ensures
        out@ == enc_node(node@),
{
    match node {
        SceneNode::Transform(t) => encode_transform(t),
        SceneNode::Group(g) => encode_group(g),
        SceneNode::Shape(sh) => encode_shape(sh),
    }
}

fn encode_matl(id: u8, props: &Vec<(String, String)>) -> (out: Vec<u8>)
    ensures
        out@ == enc_matl(id, props_view(props@)),
{
    let mut content: Vec<u8> = Vec::new();
    push_i32(&mut content, id as i32);
    let refs = props_refs(props);
    write_dict(&mut content, refs.as_slice());
    let empty: Vec<u8> = Vec::new();
    assert(empty@ =~= Seq::<u8>::empty());
    assert([77u8, 65, 84, 76]@ =~= tag_matl());
    assert(content@ =~= u32_bytes(id as int) + enc_dict(props_view(props@)));
    encode_chunk([77, 65, 84, 76], &content, &empty)
}

fn encode_layr(layer: &Layer) -> (out: Vec<u8>)
    ensures
        out@ == enc_layer(*layer),
{
    proof {
        reveal_strlit("_name");
        reveal_strlit("_hidden");
        reveal_strlit("_color");
        reveal_strlit("1");
        reveal_strlit("0");
        assert("_name"@ =~= key_name());
        assert("_hidden"@ =~= key_hidden());
        assert("_color"@ =~= key_color());
        assert("1"@ =~= seq!['1']);
        assert("0"@ =~= seq!['0']);
    }
    let mut content: Vec<u8> = Vec::new();
    push_i32(&mut content, layer.id);
    let hidden = if layer.hidden {
        "1"
    } else {
        "0"
    };
    let color = join3(layer.color[0] as i64, layer.color[1] as i64, layer.color[2] as i64);
    let mut attrs: Vec<(&str, &str)> = Vec::new();
    assert(refs_view(attrs@) =~= Seq::<(Seq<char>, Seq<char>)>::empty());
    if !layer.name.as_str().is_empty() {
        let x = ("_name", layer.name.as_str());
        proof {
            lemma_refs_push(attrs@, x);
        }
        attrs.push(x);
    }
    let x = ("_hidden", hidden);
    proof {
        lemma_refs_push(attrs@, x);
    }
    attrs.push(x);
    let y = ("_color", color.as_str());
    proof {
        lemma_refs_push(attrs@, y);
    }
    attrs.push(y);
    assert(refs_view(attrs@) =~= layer_attrs(*layer));
    write_dict(&mut content, attrs.as_slice());
    push_i32(&mut content, -1);
    let empty: Vec<u8> = Vec::new();
    assert(empty@ =~= Seq::<u8>::empty());
    assert([76u8, 65, 89, 82]@ =~= tag_layr());
    assert(content@ =~= u32_bytes(layer.id as int) + enc_dict(layer_attrs(*layer)) + u32_bytes(-1));
    encode_chunk([76, 65, 89, 82], &content, &empty)
}

/// Write a `.vox` file (version 150): every model, the palette, the scene
/// graph with nodes in ascending id order, the non-default materials and the
/// layers. Sizes and counts are written modulo 2^32.
#[verifier::rlimit(60)]
#[verifier::spinoff_prover]
pub fn write_vox_scene(scene: &Scene, palette: &Palette) -> (r: Result<Vec<u8>, VoxError>)
    requires
        scene.wf(),
        palette.wf(),
    ensures
        r matches Ok(b) && exists|ks: Seq<i32>|
            ascending_keys(ks, scene.nodes@.dom()) && b@ == enc_vox(*scene, palette.colors(), ks),
{
    let mut children: Vec<u8> = Vec::new();
    let mut i: usize = 0;
    assert(scene.models@.take(0) =~= Seq::<VoxelModel>::empty());
    while i < scene.models.len()
        invariant
            i <= scene.models.len(),
            scene.wf(),
            children@ == enc_models(scene.models@.take(i as int)),
        decreases scene.models.len() - i,
    {
        let m = encode_model(&scene.models[i]);
        push_bytes(&mut children, m.as_slice());
        assert(scene.models@.take(i + 1).drop_last() =~= scene.models@.take(i as int));
        i = i + 1;
    }
    assert(scene.models@.take(i as int) =~= scene.models@);
    let rgba = encode_rgba(palette);
    push_bytes(&mut children, rgba.as_slice());
    let ghost after_rgba = children@;
    let ids = sorted_node_ids(&scene.nodes);
    let ghost gn = scene.graph().nodes;
    let mut j: usize = 0;
    assert(ids@.take(0) =~= Seq::<i32>::empty());
    assert(children@ =~= after_rgba + enc_nodes(gn, ids@.take(0)));
    while j < ids.len()
        invariant
            j <= ids.len(),
            gn == scene.graph().nodes,
            children@ == after_rgba + enc_nodes(gn, ids@.take(j as int)),
        decreases ids.len() - j,
    {
        let id = ids[j];
        assert(ids@.take(j + 1).drop_last() =~= ids@.take(j as int));
        match scene.nodes.get(&id) {
            Some(node) => {
                let b = encode_node(node);
                push_bytes(&mut children, b.as_slice());
            },
            None => {},
        }
        assert(children@ =~= after_rgba + enc_nodes(gn, ids@.take(j + 1)));
        j = j + 1;
    }
    assert(ids@.take(j as int) =~= ids@);
    let ghost after_nodes = children@;
    let mats = scene.materials.iter_non_default();
    let ghost slots = scene.materials.slots();
    let mut k: usize = 0;
    assert(mats@.take(0) =~= Seq::<u8>::empty());
    assert(children@ =~= after_nodes + enc_matls(slots, mats@.take(0)));
    while k < mats.len()
        invariant
            k <= mats.len(),
            scene.wf(),
            slots == scene.materials.slots(),
            children@ == after_nodes + enc_matls(slots, mats@.take(k as int)),
        decreases mats.len() - k,
    {
        let id = mats[k];
        let b = encode_matl(id, scene.materials.get(id));
        push_bytes(&mut children, b.as_slice());
        assert(mats@.take(k + 1).drop_last() =~= mats@.take(k as int));
        assert(children@ =~= after_nodes + enc_matls(slots, mats@.take(k + 1)));
        k = k + 1;
    }
    assert(mats@.take(k as int) =~= mats@);
    let ghost after_mats = children@;
    let layers = &scene.layers.layers;
    let mut l: usize = 0;
    assert(layers@.take(0) =~= Seq::<Layer>::empty());
    assert(children@ =~= after_mats + enc_layers(layers@.take(0)));
    while l < layers.len()
        invariant
            l <= layers.len(),
            children@ == after_mats + enc_layers(layers@.take(l as int)),
        decreases layers.len() - l,
    {
        let b = encode_layr(&layers[l]);
        push_bytes(&mut children, b.as_slice());
        assert(layers@.take(l + 1).drop_last() =~= layers@.take(l as int));
        assert(children@ =~= after_mats + enc_layers(layers@.take(l + 1)));
        l = l + 1;
    }
    assert(layers@.take(l as int) =~= layers@);
    let empty: Vec<u8> = Vec::new();
    let main = encode_chunk([77, 65, 73, 78], &empty, &children);
    let mut out: Vec<u8> = Vec::new();
    out.push(86);
    out.push(79);
    out.push(88);
    out.push(32);
    push_u32(&mut out, 150);
    push_bytes(&mut out, main.as_slice());
    proof {
        assert(empty@ =~= Seq::<u8>::empty());
        assert([77u8, 65, 73, 78]@ =~= tag_main());
        assert(children@ =~= vox_children(*scene, palette.colors(), ids@));
        assert(out@ =~= enc_vox(*scene, palette.colors(), ids@));
    }
    Ok(out)
}

} // verus!
