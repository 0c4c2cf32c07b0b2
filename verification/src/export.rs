//! What an engine export decides besides the meshes themselves: which scope
//! is exported, and the Godot scene that wraps the written `.glb`.

use vstd::prelude::*;
use crate::material::{lower_chars, same_chars};
use crate::text::{chars_of, push_digits, decimal_digits, string_of};
use crate::tools::{lower, message};
use crate::model::IVec3;
use crate::project::ProjectInner;
use crate::scene::{
    InstanceView, ModelId, MvRotation, Scene, WorldInstance, graph_instances, instance_views, object_name,
    object_label, SceneGraph, hidden_transform, lemma_graph_hidden,
};

verus! {

/// Why an export failed (file errors are the application's).
#[derive(Debug)]
pub enum ExportError {
    /// No voxels to export.
    Empty,
    Msg(String),
}

/// What an export covers.
#[derive(Debug, Clone, Copy, PartialEq, Eq, Structural)]
pub enum ExportScope {
    /// Every visible world instance (separate glTF nodes).
    World,
    /// Active model only, at the origin.
    ActiveModel,
}

/// The scope a word names.
pub open spec fn scope_of_word(w: Seq<char>) -> Option<ExportScope> {
    if w == Seq::<char>::empty() || w == seq!['w', 'o', 'r', 'l', 'd'] || w == seq!['w'] || w == seq![
        's',
        'c',
        'e',
        'n',
        'e',
    ] {
        Some(ExportScope::World)
    } else if w == seq!['m', 'o', 'd', 'e', 'l'] || w == seq!['m'] || w == seq!['a', 'c', 't', 'i', 'v', 'e'] {
        Some(ExportScope::ActiveModel)
    } else {
        None
    }
}

impl ExportScope {
    /// `world` (also empty, `w`, `scene`) or `model` (also `m`, `active`), case ignored.
    pub fn parse(s: &str) -> (r: Result<ExportScope, ExportError>)
        ensures
            match scope_of_word(lower(s@)) {
                Some(k) => r matches Ok(kk) && kk == k,
                None => r matches Err(ExportError::Msg(m))
                    && m@ == "unknown export scope '"@ + lower(s@) + "' (use world or model)"@,
            },
    {
        let cs = chars_of(s);
        let w = lower_chars(cs.as_slice());
        proof {
            assert(['w', 'o', 'r', 'l', 'd']@ =~= seq!['w', 'o', 'r', 'l', 'd']);
            assert(['w']@ =~= seq!['w']);
            assert(['s', 'c', 'e', 'n', 'e']@ =~= seq!['s', 'c', 'e', 'n', 'e']);
            assert(['m', 'o', 'd', 'e', 'l']@ =~= seq!['m', 'o', 'd', 'e', 'l']);
            assert(['m']@ =~= seq!['m']);
            assert(['a', 'c', 't', 'i', 'v', 'e']@ =~= seq!['a', 'c', 't', 'i', 'v', 'e']);
        }
        let empty = w.len() == 0;
        proof {
            if empty {
                assert(w@ =~= Seq::<char>::empty());
            }
            assert(w@ == lower(s@));
        }
        if empty || same_chars(&w, &['w', 'o', 'r', 'l', 'd']) || same_chars(&w, &['w'])
            || same_chars(&w, &['s', 'c', 'e', 'n', 'e']) {
            Ok(ExportScope::World)
        } else if same_chars(&w, &['m', 'o', 'd', 'e', 'l']) || same_chars(&w, &['m']) || same_chars(
            &w,
            &['a', 'c', 't', 'i', 'v', 'e'],
        ) {
            Ok(ExportScope::ActiveModel)
        } else {
            Err(ExportError::Msg(message("unknown export scope '", &w, "' (use world or model)")))
        }
    }
}

/// What a Godot export wrote.
#[derive(Debug, Clone)]
pub struct GodotExport {
    pub glb_path: String,
    pub tscn_path: String,
    pub meshes: usize,
    pub vertices: usize,
    pub triangles: usize,
}

/// The Godot 4 scene that instances `glb_file_name` from the project root.
pub open spec fn tscn_text(glb_file_name: Seq<char>) -> Seq<char> {
    "[gd_scene load_steps=2 format=3]\n\n[ext_resource type=\"PackedScene\" path=\"res://"@
        + glb_file_name + "\" id=\"1_glb\"]\n\n[node name=\"VoxelWorld\" instance=ExtResource(\"1_glb\")]\n"@
}

/// The `.tscn` text wrapping an exported `.glb`.
pub fn godot_tscn(glb_file_name: &str) -> (s: String)
    ensures
        s@ == tscn_text(glb_file_name@),
{
    let name = chars_of(glb_file_name);
    message(
        "[gd_scene load_steps=2 format=3]\n\n[ext_resource type=\"PackedScene\" path=\"res://",
        &name,
        "\" id=\"1_glb\"]\n\n[node name=\"VoxelWorld\" instance=ExtResource(\"1_glb\")]\n",
    )
}


/// A model to export: under which name, and where in the world.
#[derive(Debug)]
pub struct ExportItem {
    pub name: String,
    pub model_id: ModelId,
    pub translation: IVec3,
    pub rotation: MvRotation,
}

/// An export item as plain values.
pub struct ExportItemView {
    pub name: Seq<char>,
    pub model_id: usize,
    pub translation: IVec3,
    pub rotation: u8,
}

pub open spec fn item_view(e: ExportItem) -> ExportItemView {
    ExportItemView {
        name: e.name@,
        model_id: e.model_id,
        translation: e.translation,
        rotation: e.rotation.0,
    }
}

pub open spec fn item_views(v: Seq<ExportItem>) -> Seq<ExportItemView> {
    v.map_values(|e: ExportItem| item_view(e))
}

/// The instances a world export draws: the shown ones whose model exists.
pub open spec fn exported_instances(s: Seq<InstanceView>, n_models: int) -> Seq<InstanceView>
    decreases s.len(),
{
    if s.len() == 0 {
        Seq::empty()
    } else {
        exported_instances(s.drop_last(), n_models) + if !s.last().hidden && s.last().model_id < n_models {
            seq![s.last()]
        } else {
            Seq::empty()
        }
    }
}

/// How many of `names` equal `x`.
pub open spec fn count_of(names: Seq<Seq<char>>, x: Seq<char>) -> nat
    decreases names.len(),
{
    if names.len() == 0 {
        0
    } else {
        count_of(names.drop_last(), x) + if names.last() == x {
            1nat
        } else {
            0nat
        }
    }
}

/// The mesh name of the `n`-th use of `base`: `base`, then `base_2`, `base_3`, ...
pub open spec fn numbered(base: Seq<char>, n: nat) -> Seq<char> {
    if n <= 1 {
        base
    } else {
        base + seq!['_'] + decimal_digits(n)
    }
}

/// The names of a world export's meshes, in instance order.
pub open spec fn mesh_names(inst: Seq<InstanceView>) -> Seq<Seq<char>> {
    let bases = inst.map_values(|i: InstanceView| object_name(i));
    Seq::new(inst.len(), |k: int| numbered(bases[k], count_of(bases.take(k + 1), bases[k])))
}

/// What a world export of `g`'s instances over `n_models` models draws.
pub open spec fn world_items(inst: Seq<InstanceView>, n_models: int) -> Seq<ExportItemView> {
    let e = exported_instances(inst, n_models);
    Seq::new(
        e.len(),
        |k: int|
            ExportItemView {
                name: mesh_names(e)[k],
                model_id: e[k].model_id,
                translation: e[k].translation,
                rotation: e[k].rotation,
            },
    )
}

fn count_in(names: &Vec<String>, x: &String) -> (n: usize)
    ensures
        n == count_of(names@.map_values(|s: String| s@), x@),
        n <= names@.len(),
{
    let ghost v = names@.map_values(|s: String| s@);
    let mut n: usize = 0;
    let mut i: usize = 0;
    while i < names.len()
        invariant
            i <= names.len(),
            v == names@.map_values(|s: String| s@),
            n == count_of(v.take(i as int), x@),
            n <= i,
        decreases names.len() - i,
    {
        assert(v.take(i + 1).drop_last() =~= v.take(i as int));
        if names[i] == *x {
            n = n + 1;
        }
        i = i + 1;
    }
    assert(v.take(i as int) =~= v);
    n
}

/// The items a world export draws: each shown instance whose model exists,
/// named after its transform (`object_<id>` when unnamed), with `_2`, `_3`,
/// ... added to repeated names.
pub fn world_export_items(scene: &Scene) -> (v: Vec<ExportItem>)
    ensures
        item_views(v@) == world_items(graph_instances(scene.graph()), scene.models@.len() as int),
{
    let inst = scene.collect_instances();
    let ghost all = instance_views(inst@);
    let ghost nm = scene.models@.len() as int;
    let mut out: Vec<ExportItem> = Vec::new();
    let mut bases: Vec<String> = Vec::new();
    let mut i: usize = 0;
    while i < inst.len()
        invariant
            i <= inst.len(),
            all == instance_views(inst@),
            nm == scene.models@.len(),
            bases@.len() == out@.len(),
            bases@.len() <= i,
            bases@.map_values(|s: String| s@) == exported_instances(all.take(i as int), nm).map_values(
                |i: InstanceView| object_name(i),
            ),
            item_views(out@) == world_items(all.take(i as int), nm),
        decreases inst.len() - i,
    {
        let w = &inst[i];
        let ghost pre = all.take(i as int);
        let ghost cur = all.take(i + 1);
        assert(cur.drop_last() =~= pre);
        assert(cur.last() == w@);
        if !w.hidden && w.model_id < scene.models.len() {
            let base = if w.name.as_str().is_empty() {
                object_label(w.transform_id)
            } else {
                w.name.clone()
            };
            let ghost old_bases = bases@.map_values(|s: String| s@);
            let ghost old_items = item_views(out@);
            let ghost e0 = exported_instances(pre, nm);
            let ghost e1 = exported_instances(cur, nm);
            assert(e1 =~= e0.push(w@));
            let earlier = count_in(&bases, &base);
            let n = earlier + 1;
            let name = if n == 1 {
                base.clone()
            } else {
                let mut cs = chars_of(base.as_str());
                cs.push('_');
                push_digits(&mut cs, n as u64);
                string_of(cs.as_slice())
            };
            bases.push(base);
            out.push(ExportItem { name, model_id: w.model_id, translation: w.translation, rotation: w.rotation });
            proof {
                let nb = bases@.map_values(|s: String| s@);
                assert(nb =~= old_bases.push(object_name(w@)));
                assert(nb =~= e1.map_values(|i: InstanceView| object_name(i)));
                assert(nb.take(nb.len() as int) =~= nb);
                assert(nb.take(nb.len() as int).drop_last() =~= old_bases);
                let k = e0.len() as int;
                assert(nb.len() == k + 1);
                assert(nb.drop_last() =~= old_bases);
                assert(count_of(nb, nb[k]) == count_of(old_bases, nb[k]) + 1);
                assert(mesh_names(e1)[k] == numbered(nb[k], count_of(nb.take(k + 1), nb[k])));
                assert(mesh_names(e1)[k] == name@);
                assert(item_views(out@) =~= old_items.push(item_view(out@[k])));
                assert forall|j: int| 0 <= j < k implies #[trigger] mesh_names(e1)[j] == mesh_names(e0)[j] by {
                    let b1 = e1.map_values(|i: InstanceView| object_name(i));
                    let b0 = e0.map_values(|i: InstanceView| object_name(i));
                    assert(b1.take(j + 1) =~= b0.take(j + 1));
                }
                assert(item_views(out@) =~= world_items(cur, nm));
            }
        } else {
            proof {
                assert(exported_instances(cur, nm) =~= exported_instances(pre, nm));
            }
        }
        i = i + 1;
    }
    assert(all.take(i as int) =~= all);
    out
}

/// The items an export of `scope` draws from the document: the world's, or
/// the active model alone at the origin under the name `model`.
pub fn export_items(doc: &ProjectInner, scope: ExportScope) -> (v: Vec<ExportItem>)
    requires
        scope == ExportScope::ActiveModel ==> doc.has_active(),
    ensures
        scope == ExportScope::World ==> item_views(v@) == world_items(
            graph_instances(doc.scene.graph()),
            doc.scene.models@.len() as int,
        ),
        scope == ExportScope::ActiveModel ==> item_views(v@) == seq![
            ExportItemView {
                name: seq!['m', 'o', 'd', 'e', 'l'],
                model_id: doc.active_model,
                translation: IVec3 { x: 0, y: 0, z: 0 },
                rotation: 0u8,
            },
        ],
{
    match scope {
        ExportScope::World => world_export_items(&doc.scene),
        ExportScope::ActiveModel => {
            let mut v: Vec<ExportItem> = Vec::new();
            v.push(
                ExportItem {
                    name: string_of(&['m', 'o', 'd', 'e', 'l']),
                    model_id: doc.active_model,
                    translation: IVec3::new(0, 0, 0),
                    rotation: MvRotation::identity(),
                },
            );
            proof {
                assert(['m', 'o', 'd', 'e', 'l']@ =~= seq!['m', 'o', 'd', 'e', 'l']);
                assert(item_views(v@) =~= seq![
                    ExportItemView {
                        name: seq!['m', 'o', 'd', 'e', 'l'],
                        model_id: doc.active_model,
                        translation: IVec3 { x: 0, y: 0, z: 0 },
                        rotation: 0u8,
                    },
                ]);
            }
            v
        },
    }
}

/// Every instance a world export draws is a shown instance whose model
/// exists, and every such instance is drawn: nothing hidden (by its own flag
/// or a hidden transform above it) is ever exported.
pub proof fn lemma_exported_shown(s: Seq<InstanceView>, n_models: int)
    ensures
        forall|k: int|
            0 <= k < exported_instances(s, n_models).len() ==> {
                let e = #[trigger] exported_instances(s, n_models)[k];
                &&& !e.hidden
                &&& e.model_id < n_models
                &&& s.contains(e)
            },
        forall|j: int|
            0 <= j < s.len() && !s[j].hidden && s[j].model_id < n_models ==> #[trigger] exported_instances(
                s,
                n_models,
            ).contains(s[j]),
    decreases s.len(),
{
    if s.len() > 0 {
        let p = s.drop_last();
        lemma_exported_shown(p, n_models);
        let a = exported_instances(p, n_models);
        let v = exported_instances(s, n_models);
        assert forall|k: int| 0 <= k < v.len() implies {
            let e = #[trigger] v[k];
            &&& !e.hidden
            &&& e.model_id < n_models
            &&& s.contains(e)
        } by {
            if k < a.len() {
                assert(v[k] == a[k]);
                let j = choose|j: int| 0 <= j < p.len() && p[j] == a[k];
                assert(s[j] == p[j]);
            } else {
                assert(s[s.len() - 1] == s.last());
                assert(v[k] == s.last());
            }
        }
        assert forall|j: int| 0 <= j < s.len() && !s[j].hidden && s[j].model_id < n_models implies #[trigger] v.contains(
            s[j],
        ) by {
            if j < p.len() {
                assert(s[j] == p[j]);
                assert(exported_instances(p, n_models).contains(p[j]));
                let k = choose|k: int| 0 <= k < a.len() && a[k] == s[j];
                assert(v[k] == a[k]);
            } else {
                assert(s[j] == s.last());
                assert(v[a.len() as int] == s[j]);
            }
        }
    }
}

/// Each exported item draws a shown instance: its model, place and rotation
/// are those of an instance that is not hidden and whose model exists.
pub proof fn lemma_world_items_shown(s: Seq<InstanceView>, n_models: int)
    ensures
        world_items(s, n_models).len() == exported_instances(s, n_models).len(),
        forall|k: int|
            #![trigger world_items(s, n_models)[k]]
            0 <= k < world_items(s, n_models).len() ==> exists|j: int|
                #![trigger s[j]]
                0 <= j < s.len() && !s[j].hidden && s[j].model_id < n_models && s[j].model_id
                    == world_items(s, n_models)[k].model_id && s[j].translation == world_items(
                    s,
                    n_models,
                )[k].translation && s[j].rotation == world_items(s, n_models)[k].rotation,
        (forall|j: int| 0 <= j < s.len() ==> #[trigger] s[j].hidden) ==> world_items(s, n_models).len()
            == 0,
{
    lemma_exported_shown(s, n_models);
    let e = exported_instances(s, n_models);
    let w = world_items(s, n_models);
    assert forall|k: int| #![trigger w[k]] 0 <= k < w.len() implies exists|j: int|
        #![trigger s[j]]
        0 <= j < s.len() && !s[j].hidden && s[j].model_id < n_models && s[j].model_id
            == w[k].model_id && s[j].translation == w[k].translation && s[j].rotation == w[k].rotation by {
        assert(!e[k].hidden && s.contains(e[k]));
        let j = choose|j: int| 0 <= j < s.len() && s[j] == e[k];
        assert(s[j].model_id == w[k].model_id);
    }
    if forall|j: int| 0 <= j < s.len() ==> #[trigger] s[j].hidden {
        if e.len() > 0 {
            assert(!e[0].hidden && s.contains(e[0]));
            let j = choose|j: int| 0 <= j < s.len() && s[j] == e[0];
            assert(s[j].hidden);
        }
    }
}

/// A world whose root transform is hidden exports nothing.
pub proof fn lemma_hidden_world_exports_nothing(g: SceneGraph, n_models: int)
    requires
        g.nodes.contains_key(g.root),
        hidden_transform(g.nodes[g.root]),
    ensures
        world_items(graph_instances(g), n_models).len() == 0,
{
    lemma_graph_hidden(g);
    lemma_world_items_shown(graph_instances(g), n_models);
}

} // verus!
