//! The editable document: a scene with its palette, the editing state (active
//! model, selection, color, brush, mode) and an undo/redo history of snapshots.

use vstd::prelude::*;
use crate::{ColorIndex, CoreError, IVec3, VoxelModel};
use crate::brush::{
    BrushOptions, BrushKind, MirrorAxes, painted_result, in_span, in_cube, in_ball, in_disk,
    in_plane_rect, on_line, flood_region, cube_fits, ball_radius_fits, line_fits, mirror_fits, disk_fits,
    is_mirror_of, brush_fits, mirror_center_seq, brush_fold, is_mirrored,
};
use crate::brush;
use crate::model::diff_count;
use crate::palette::{ColorRgba, Palette, default_color};
use crate::scene::{
    ModelId, NodeId, Scene, SceneNode, SceneView, SceneGraph, single_model_graph, model_of_transform,
    graph_add_object, graph_remove_object, is_transform, visible_objects, graph_instances,
    update_transform, moved_to, on_layer, WorldInstance, instance_views,
};
use crate::layer::{Layer, first_with_id, updated_layer};
use crate::material::props_view;
use crate::layer::is_standard_eight;
use crate::material::default_slots;

verus! {

/// Undo snapshots kept at most (older ones are dropped first).
const UNDO_CAP: usize = 64;

/// Which editor the document is shown in.
#[derive(Debug, Clone, Copy, PartialEq, Eq, Structural)]
pub enum EditMode {
    Model,
    World,
}

impl Default for EditMode {
    fn default() -> (m: Self)
        ensures
            m == EditMode::Model,
    {
        EditMode::Model
    }
}

/// The document and its editing state.
#[derive(Debug)]
pub struct ProjectInner {
    pub scene: Scene,
    pub palette: Palette,
    pub active_color: ColorIndex,
    pub brush: BrushOptions,
    pub active_model: ModelId,
    pub selected_node: Option<NodeId>,
    pub edit_mode: EditMode,
}

/// A document as plain values.
pub struct ProjectView {
    pub scene: SceneView,
    pub palette: Seq<ColorRgba>,
    pub active_color: u8,
    pub brush: BrushOptions,
    pub active_model: usize,
    pub selected_node: Option<i32>,
    pub edit_mode: EditMode,
}

impl ProjectInner {
    /// The document as plain values.
    pub open spec fn state(&self) -> ProjectView {
        ProjectView {
            scene: self.scene.state(),
            palette: self.palette.colors(),
            active_color: self.active_color,
            brush: self.brush,
            active_model: self.active_model,
            selected_node: self.selected_node,
            edit_mode: self.edit_mode,
        }
    }

    pub open spec fn wf(&self) -> bool {
        &&& self.scene.wf()
        &&& self.palette.wf()
    }

    /// Whether the active model exists.
    pub open spec fn has_active(&self) -> bool {
        self.active_model < self.scene.models@.len()
    }

    /// The active model.
    pub open spec fn active(&self) -> VoxelModel {
        self.scene.models@[self.active_model as int]
    }

    /// Everything but the active model is as in `old`.
    pub open spec fn keeps_all_but_active(&self, old: &ProjectInner) -> bool {
        &&& self.scene.models@.len() == old.scene.models@.len()
        &&& forall|k: int|
            0 <= k < self.scene.models@.len() && k != self.active_model ==> #[trigger] self.scene.models@[k]
                == old.scene.models@[k]
        &&& self.scene.nodes == old.scene.nodes
        &&& self.scene.root == old.scene.root
        &&& self.scene.next_id == old.scene.next_id
        &&& self.scene.layers == old.scene.layers
        &&& self.scene.materials == old.scene.materials
        &&& self.palette == old.palette
        &&& self.active_color == old.active_color
        &&& self.brush == old.brush
        &&& self.active_model == old.active_model
        &&& self.selected_node == old.selected_node
        &&& self.edit_mode == old.edit_mode
    }

    /// The active model (the model editor's target).
    pub fn model(&self) -> (m: &VoxelModel)
        requires
            self.has_active(),
        ensures
            *m == self.active(),
    {
        &self.scene.models[self.active_model]
    }

    /// The active model, for editing.
    pub fn model_mut(&mut self) -> (m: &mut VoxelModel)
        requires
            old(self).has_active(),
        ensures
            *m == old(self).active(),
            final(self).active() == *final(m),
            final(self).keeps_all_but_active(old(self)),
    {
        let id = self.active_model;
        &mut self.scene.models[id]
    }

    /// Whether two documents hold the same values.
    pub fn same(&self, other: &ProjectInner) -> (b: bool)
        ensures
            b == (self.state() == other.state()),
    {
        let scene_same = self.scene.same(&other.scene);
        let palette_same = self.palette.same_colors(&other.palette);
        scene_same && palette_same && self.active_color == other.active_color && self.brush
            == other.brush && self.active_model == other.active_model && self.selected_node
            == other.selected_node && self.edit_mode == other.edit_mode
    }

    /// A copy holding the same values.
    pub fn copy(&self) -> (c: ProjectInner)
        requires
            self.wf(),
        ensures
            c.wf(),
            c.state() == self.state(),
    {
        let c = ProjectInner {
            scene: self.scene.copy(),
            palette: self.palette.copy(),
            active_color: self.active_color,
            brush: self.brush,
            active_model: self.active_model,
            selected_node: self.selected_node,
            edit_mode: self.edit_mode,
        };
        c
    }
}

/// The editable document with its undo and redo stacks.
#[derive(Debug)]
pub struct Project {
    inner: ProjectInner,
    undo: Vec<ProjectInner>,
    redo: Vec<ProjectInner>,
}

/// The undo stack after a checkpoint of a document in state `cur` on a
/// project with stacks `undo` and `redo`: unchanged when its top already
/// holds `cur`; else `cur` pushed (the oldest entry dropped when 64 are
/// kept) and the redo stack emptied.
pub open spec fn checkpoint_stacks(
    cur: ProjectView,
    undo: Seq<ProjectView>,
    redo: Seq<ProjectView>,
) -> (Seq<ProjectView>, Seq<ProjectView>) {
    if undo.len() > 0 && undo.last() == cur {
        (undo, redo)
    } else if undo.len() >= 64 {
        (undo.drop_first().push(cur), Seq::empty())
    } else {
        (undo.push(cur), Seq::empty())
    }
}

/// `after` is `before` after a checkpoint.
pub open spec fn checkpointed(before: &Project, after: &Project) -> bool {
    let (u, r) = checkpoint_stacks(before.doc().state(), before.undo_states(), before.redo_states());
    &&& after.doc() == before.doc()
    &&& after.undo_states() == u
    &&& after.redo_states() == r
}

/// `after` is `before` after an undo that returned `r`: with nothing to undo,
/// `false` and nothing changes; else the top snapshot becomes the document
/// and the document goes on the redo stack.
pub open spec fn undone(before: &Project, after: &Project, r: bool) -> bool {
    if before.undo_states().len() == 0 {
        &&& !r
        &&& after.doc() == before.doc()
        &&& after.undo_states() == before.undo_states()
        &&& after.redo_states() == before.redo_states()
    } else {
        &&& r
        &&& after.doc().state() == before.undo_states().last()
        &&& after.undo_states() == before.undo_states().drop_last()
        &&& after.redo_states() == before.redo_states().push(before.doc().state())
    }
}

/// `after` is `before` after a redo that returned `r` (an undo the other way round).
pub open spec fn redone(before: &Project, after: &Project, r: bool) -> bool {
    if before.redo_states().len() == 0 {
        &&& !r
        &&& after.doc() == before.doc()
        &&& after.undo_states() == before.undo_states()
        &&& after.redo_states() == before.redo_states()
    } else {
        &&& r
        &&& after.doc().state() == before.redo_states().last()
        &&& after.redo_states() == before.redo_states().drop_last()
        &&& after.undo_states() == before.undo_states().push(before.doc().state())
    }
}

impl Project {
    /// The current document.
    pub closed spec fn doc(&self) -> ProjectInner {
        self.inner
    }

    /// The undo snapshots, oldest first.
    pub closed spec fn undo_states(&self) -> Seq<ProjectView> {
        self.undo@.map_values(|p: ProjectInner| p.state())
    }

    /// The redo snapshots, oldest first.
    pub closed spec fn redo_states(&self) -> Seq<ProjectView> {
        self.redo@.map_values(|p: ProjectInner| p.state())
    }

    pub closed spec fn wf(&self) -> bool {
        &&& self.inner.wf()
        &&& self.undo@.len() + self.redo@.len() <= UNDO_CAP
        &&& forall|i: int| 0 <= i < self.undo@.len() ==> (#[trigger] self.undo@[i]).wf()
        &&& forall|i: int| 0 <= i < self.redo@.len() ==> (#[trigger] self.redo@[i]).wf()
    }

    proof fn lemma_stack_lens(&self)
        requires
            self.wf(),
        ensures
            self.undo_states().len() + self.redo_states().len() <= 64,
    {
    }

    /// The document wellformed, with both stacks as in `old`.
    pub open spec fn keeps_history(&self, old: &Project) -> bool {
        &&& self.wf()
        &&& self.undo_states() == old.undo_states()
        &&& self.redo_states() == old.redo_states()
    }

    fn wrap(inner: ProjectInner) -> (p: Project)
        requires
            inner.wf(),
        ensures
            p.wf(),
            p.doc() == inner,
            p.undo_states() == Seq::<ProjectView>::empty(),
            p.redo_states() == Seq::<ProjectView>::empty(),
    {
        let p = Project { inner, undo: Vec::new(), redo: Vec::new() };
        assert(p.undo_states() =~= Seq::<ProjectView>::empty());
        assert(p.redo_states() =~= Seq::<ProjectView>::empty());
        p
    }

    /// Take a snapshot of the document onto the undo stack and clear the
    /// redo stack; nothing happens when the top snapshot already holds the
    /// document. At most 64 snapshots are kept.
    pub fn checkpoint(&mut self)
        requires
            old(self).wf(),
        ensures
            final(self).wf(),
            checkpointed(old(self), final(self)),
    {
        let ghost cur = self.inner.state();
        let ghost u0 = self.undo_states();
        if self.undo.len() > 0 && self.undo[self.undo.len() - 1].same(&self.inner) {
            return;
        }
        let snap = self.inner.copy();
        if self.undo.len() >= UNDO_CAP {
            let ghost before = self.undo@;
            self.undo.remove(0);
            proof {
                assert(self.undo@ =~= before.drop_first());
                assert(self.undo_states() =~= u0.drop_first());
            }
        }
        let ghost before = self.undo@;
        self.undo.push(snap);
        self.redo.clear();
        proof {
            assert(self.undo_states() =~= before.map_values(|p: ProjectInner| p.state()).push(cur));
            assert(self.redo_states() =~= Seq::<ProjectView>::empty());
        }
    }

    /// Go back to the last snapshot; false when there is none.
    pub fn undo(&mut self) -> (r: bool)
        requires
            old(self).wf(),
        ensures
            final(self).wf(),
            undone(old(self), final(self), r),
    {
        let ghost u0 = self.undo@;
        match self.undo.pop() {
            None => false,
            Some(prev) => {
                let cur = self.inner.copy();
                let ghost r0 = self.redo@;
                self.redo.push(cur);
                self.inner = prev;
                proof {
                    assert(self.undo@ =~= u0.drop_last());
                    assert(self.undo_states() =~= old(self).undo_states().drop_last());
                    assert(self.redo_states() =~= old(self).redo_states().push(old(self).inner.state()));
                }
                true
            },
        }
    }

    /// Go forward to the last undone document; false when there is none.
    pub fn redo(&mut self) -> (r: bool)
        requires
            old(self).wf(),
        ensures
            final(self).wf(),
            redone(old(self), final(self), r),
    {
        let ghost r0 = self.redo@;
        match self.redo.pop() {
            None => false,
            Some(next) => {
                let cur = self.inner.copy();
                self.undo.push(cur);
                self.inner = next;
                proof {
                    assert(self.redo@ =~= r0.drop_last());
                    assert(self.redo_states() =~= old(self).redo_states().drop_last());
                    assert(self.undo_states() =~= old(self).undo_states().push(old(self).inner.state()));
                }
                true
            },
        }
    }

    pub fn can_undo(&self) -> (b: bool)
        ensures
            b == (self.undo_states().len() > 0),
    {
        self.undo.len() > 0
    }

    pub fn can_redo(&self) -> (b: bool)
        ensures
            b == (self.redo_states().len() > 0),
    {
        self.redo.len() > 0
    }

    /// Run `f` on the document.
    pub fn with_inner<R, F: FnOnce(&ProjectInner) -> R>(&self, f: F) -> (r: R)
        requires
            f.requires((&self.doc(),)),
        ensures
            f.ensures((&self.doc(),), r),
    {
        f(&self.inner)
    }

    /// A copy of the document.
    pub fn snapshot(&self) -> (s: ProjectInner)
        requires
            self.wf(),
        ensures
            s.wf(),
            s.state() == self.doc().state(),
    {
        self.inner.copy()
    }
}

/// The active model after selecting `sel`: the model below the selected
/// transform, when there is one; else `am`.
pub open spec fn follow_selection(g: SceneGraph, sel: Option<i32>, am: usize) -> usize {
    match sel {
        Some(nid) => match model_of_transform(g, nid) {
            Some(mid) => mid,
            None => am,
        },
        None => am,
    }
}

/// The brush every new document starts with.
pub open spec fn default_brush() -> BrushOptions {
    BrushOptions {
        kind: BrushKind::Voxel,
        color: 1,
        radius: 0,
        mirror: MirrorAxes { x: false, y: false, z: false },
    }
}

/// A fresh document's editing state: color 1, the default brush, model 0.
pub open spec fn fresh_state(p: ProjectInner) -> bool {
    &&& p.active_color == 1
    &&& p.brush == default_brush()
    &&& p.active_model == 0
}

impl Project {
    /// A document holding one empty cubic model of edge `size` (1..=256),
    /// the default palette and layers, in the model editor.
    pub fn new(size: u32) -> (r: Result<Project, CoreError>)
        ensures
            r is Ok <==> 1 <= size <= 256,
            r is Err ==> r == Err::<Project, CoreError>(CoreError::InvalidSize(size, size, size)),
            r matches Ok(p) ==> {
                &&& p.wf()
                &&& p.undo_states().len() == 0
                &&& p.redo_states().len() == 0
                &&& p.doc().scene.graph() == single_model_graph()
                &&& p.doc().scene.models@.len() == 1
                &&& p.doc().scene.models@[0].sx() == size
                &&& p.doc().scene.models@[0].sy() == size
                &&& p.doc().scene.models@[0].sz() == size
                &&& forall|x: int, y: int, z: int| #[trigger] p.doc().scene.models@[0].voxel(x, y, z) == 0
                &&& is_standard_eight(p.doc().scene.layers.layers@)
                &&& p.doc().scene.materials.slots() == default_slots()
                &&& p.doc().scene.materials.legacy().len() == 0
                &&& forall|i: int| 0 <= i < 256 ==> #[trigger] p.doc().palette.color(i) == default_color(i)
                &&& fresh_state(p.doc())
                &&& p.doc().selected_node == Some(0i32)
                &&& p.doc().edit_mode == EditMode::Model
            },
    {
        let scene = Scene::new_empty_world(size)?;
        Ok(
            Self::wrap(
                ProjectInner {
                    scene,
                    palette: Palette::default(),
                    active_color: 1,
                    brush: BrushOptions::default(),
                    active_model: 0,
                    selected_node: Some(0),
                    edit_mode: EditMode::Model,
                },
            ),
        )
    }

    /// A document holding `model` alone, in the model editor.
    pub fn from_parts(model: VoxelModel, palette: Palette) -> (p: Project)
        requires
            model.wf(),
            palette.wf(),
        ensures
            p.wf(),
            p.undo_states().len() == 0,
            p.redo_states().len() == 0,
            p.doc().scene.models@ == seq![model],
            p.doc().scene.graph() == single_model_graph(),
            is_standard_eight(p.doc().scene.layers.layers@),
            p.doc().scene.materials.slots() == default_slots(),
            p.doc().scene.materials.legacy().len() == 0,
            p.doc().palette == palette,
            fresh_state(p.doc()),
            p.doc().selected_node == Some(0i32),
            p.doc().edit_mode == EditMode::Model,
    {
        Self::wrap(
            ProjectInner {
                scene: Scene::from_single_model(model),
                palette,
                active_color: 1,
                brush: BrushOptions::default(),
                active_model: 0,
                selected_node: Some(0),
                edit_mode: EditMode::Model,
            },
        )
    }

    /// A document holding `scene`, in the world editor with its root selected.
    pub fn from_scene(scene: Scene, palette: Palette) -> (p: Project)
        requires
            scene.wf(),
            palette.wf(),
        ensures
            p.wf(),
            p.undo_states().len() == 0,
            p.redo_states().len() == 0,
            p.doc().scene == scene,
            p.doc().palette == palette,
            fresh_state(p.doc()),
            p.doc().selected_node == Some(scene.root),
            p.doc().edit_mode == EditMode::World,
    {
        let selected = Some(scene.root);
        Self::wrap(
            ProjectInner {
                scene,
                palette,
                active_color: 1,
                brush: BrushOptions::default(),
                active_model: 0,
                selected_node: selected,
                edit_mode: EditMode::World,
            },
        )
    }

    pub fn set_edit_mode(&mut self, mode: EditMode)
        requires
            old(self).wf(),
        ensures
            final(self).keeps_history(old(self)),
            final(self).doc() == (ProjectInner { edit_mode: mode, ..old(self).doc() }),
    {
        self.inner.edit_mode = mode;
    }

    /// Make model `id` the active one; false (and nothing changes) when there is no such model.
    pub fn set_active_model(&mut self, id: ModelId) -> (r: bool)
        requires
            old(self).wf(),
        ensures
            final(self).keeps_history(old(self)),
            r == (id < old(self).doc().scene.models@.len()),
            r ==> final(self).doc() == (ProjectInner { active_model: id, ..old(self).doc() }),
            !r ==> final(self).doc() == old(self).doc(),
    {
        if id < self.inner.scene.models.len() {
            self.inner.active_model = id;
            true
        } else {
            false
        }
    }

    /// Select a node (or none); selecting a transform with a model below it
    /// makes that model the active one.
    pub fn select_node(&mut self, id: Option<NodeId>)
        requires
            old(self).wf(),
        ensures
            final(self).keeps_history(old(self)),
            final(self).doc() == (ProjectInner {
                selected_node: id,
                active_model: follow_selection(
                    old(self).doc().scene.graph(),
                    id,
                    old(self).doc().active_model,
                ),
                ..old(self).doc()
            }),
    {
        self.inner.selected_node = id;
        if let Some(nid) = id {
            if let Some(mid) = self.inner.scene.model_id_for_transform(nid) {
                self.inner.active_model = mid;
            }
        }
    }
}

/// The selection after deleting `node_id` from a scene now shaped `g`: the
/// first listed object, or the root when none is listed, if the deleted node
/// was selected; else unchanged.
pub open spec fn selection_after_delete(g: SceneGraph, sel: Option<i32>, node_id: i32) -> Option<i32> {
    if sel == Some(node_id) {
        let objects = visible_objects(graph_instances(g));
        if objects.len() > 0 {
            Some(objects[0].0)
        } else {
            Some(g.root)
        }
    } else {
        sel
    }
}

/// The document after adding an object with a new model `m` (the model and
/// the scene's node, as `Scene::add_object` adds them), which is selected and
/// whose model becomes active.
pub open spec fn object_added(
    old: ProjectInner,
    new: ProjectInner,
    name: Seq<char>,
    m: VoxelModel,
    translation: IVec3,
    id: i32,
) -> bool {
    let g = graph_add_object(old.scene.graph(), name, old.scene.models@.len() as usize, translation);
    &&& new.wf()
    &&& new.scene.graph() == g
    &&& id == g.next_id - 1
    &&& new.scene.models@ == old.scene.models@.push(m)
    &&& new.scene.layers == old.scene.layers
    &&& new.scene.materials == old.scene.materials
    &&& new.palette == old.palette
    &&& new.active_color == old.active_color
    &&& new.brush == old.brush
    &&& new.active_model == follow_selection(g, Some(id), old.active_model)
    &&& new.selected_node == Some(id)
}

impl Project {
    /// Add an object: a new empty cubic model of edge `size` (1..=256) placed
    /// at `translation`; it becomes selected and active, in the world editor.
    pub fn add_object(&mut self, name: &str, size: u32, translation: IVec3) -> (r: Result<NodeId, CoreError>)
        requires
            old(self).wf(),
            old(self).doc().scene.next_id < i32::MAX - 3,
        ensures
            final(self).keeps_history(old(self)),
            r is Ok <==> 1 <= size <= 256,
            r is Err ==> r == Err::<NodeId, CoreError>(CoreError::InvalidSize(size, size, size))
                && final(self).doc() == old(self).doc(),
            r matches Ok(id) ==> {
                let m = final(self).doc().scene.models@.last();
                &&& object_added(old(self).doc(), final(self).doc(), name@, m, translation, id)
                &&& m.sx() == size && m.sy() == size && m.sz() == size
                &&& forall|x: int, y: int, z: int| #[trigger] m.voxel(x, y, z) == 0
                &&& final(self).doc().edit_mode == EditMode::World
            },
    {
        let model = VoxelModel::new(size, size, size)?;
        let id = self.inner.scene.add_object(name, model, translation);
        if let Some(mid) = self.inner.scene.model_id_for_transform(id) {
            self.inner.active_model = mid;
        }
        self.inner.selected_node = Some(id);
        self.inner.edit_mode = EditMode::World;
        Ok(id)
    }

    /// Add a copy of the active model as a new object at `translation`; it
    /// becomes selected and active.
    pub fn duplicate_active_object(&mut self, name: &str, translation: IVec3) -> (r: Result<NodeId, CoreError>)
        requires
            old(self).wf(),
            old(self).doc().has_active(),
            old(self).doc().scene.next_id < i32::MAX - 3,
        ensures
            final(self).keeps_history(old(self)),
            r matches Ok(id) && {
                let m = final(self).doc().scene.models@.last();
                &&& object_added(old(self).doc(), final(self).doc(), name@, m, translation, id)
                &&& m.same_as(&old(self).doc().active())
                &&& final(self).doc().edit_mode == old(self).doc().edit_mode
            },
    {
        let model = self.inner.model().copy();
        let id = self.inner.scene.add_object(name, model, translation);
        if let Some(mid) = self.inner.scene.model_id_for_transform(id) {
            self.inner.active_model = mid;
        }
        self.inner.selected_node = Some(id);
        Ok(id)
    }

    /// Take a checkpoint, then detach transform `node_id` (not the root) from
    /// the world. False, with nothing changed and no checkpoint, otherwise. A
    /// deleted selection moves to the first listed object (or the root), and
    /// an active model that no longer exists becomes model 0.
    pub fn delete_object(&mut self, node_id: NodeId) -> (r: bool)
        requires
            old(self).wf(),
        ensures
            final(self).wf(),
            r == (node_id != old(self).doc().scene.root && is_transform(
                old(self).doc().scene.graph().nodes,
                node_id,
            )),
            !r ==> final(self).doc() == old(self).doc() && final(self).undo_states()
                == old(self).undo_states() && final(self).redo_states() == old(self).redo_states(),
            r ==> {
                let o = old(self).doc();
                let n = final(self).doc();
                let g = graph_remove_object(o.scene.graph(), node_id);
                let sel = selection_after_delete(g, o.selected_node, node_id);
                let am = follow_selection(g, sel, o.active_model);
                let stacks = checkpoint_stacks(o.state(), old(self).undo_states(), old(self).redo_states());
                &&& final(self).undo_states() == stacks.0
                &&& final(self).redo_states() == stacks.1
                &&& n.scene.graph() == g
                &&& n.scene.models == o.scene.models
                &&& n.scene.layers == o.scene.layers
                &&& n.scene.materials == o.scene.materials
                &&& n.palette == o.palette
                &&& n.active_color == o.active_color
                &&& n.brush == o.brush
                &&& n.edit_mode == o.edit_mode
                &&& n.selected_node == sel
                &&& n.active_model == if am >= o.scene.models@.len() {
                    0
                } else {
                    am
                }
            },
    {
        if node_id == self.inner.scene.root {
            return false;
        }
        proof {
            assert(self.inner.scene.graph().nodes.dom() =~= self.inner.scene.nodes@.dom());
        }
        let is_trn = match self.inner.scene.nodes.get(&node_id) {
            Some(SceneNode::Transform(_)) => true,
            _ => false,
        };
        if !is_trn {
            return false;
        }
        self.checkpoint();
        let ok = self.inner.scene.remove_object(node_id);
        if self.inner.selected_node == Some(node_id) {
            let objects = self.inner.scene.list_objects();
            if objects.len() > 0 {
                proof {
                    assert(objects@.map_values(
                        |o: (NodeId, String, IVec3, bool, ModelId)| (o.0, o.1@, o.2, o.3, o.4),
                    )[0] == (objects@[0].0, objects@[0].1@, objects@[0].2, objects@[0].3, objects@[0].4));
                }
                self.inner.selected_node = Some(objects[0].0);
            } else {
                self.inner.selected_node = Some(self.inner.scene.root);
            }
        }
        if let Some(nid) = self.inner.selected_node {
            if let Some(mid) = self.inner.scene.model_id_for_transform(nid) {
                self.inner.active_model = mid;
            }
        }
        if self.inner.active_model >= self.inner.scene.models.len() {
            self.inner.active_model = 0;
        }
        ok
    }
}

/// Only the scene's node map differs between the two documents.
pub open spec fn only_nodes_changed(new: ProjectInner, old: ProjectInner) -> bool {
    &&& new.scene.models == old.scene.models
    &&& new.scene.root == old.scene.root
    &&& new.scene.next_id == old.scene.next_id
    &&& new.scene.layers == old.scene.layers
    &&& new.scene.materials == old.scene.materials
    &&& new == (ProjectInner { scene: new.scene, ..old })
}

/// Only the layer list differs between the two documents: `f` applied to the
/// first layer with id `id`, when there is one.
pub open spec fn layer_changed(new: ProjectInner, old: ProjectInner, id: i32, f: spec_fn(Layer) -> Layer) -> bool {
    &&& new.scene.layers.layers@ == match first_with_id(old.scene.layers.layers@, id) {
        Some(k) => old.scene.layers.layers@.update(k, f(old.scene.layers.layers@[k])),
        None => old.scene.layers.layers@,
    }
    &&& new.scene.models == old.scene.models
    &&& new.scene.nodes == old.scene.nodes
    &&& new.scene.root == old.scene.root
    &&& new.scene.next_id == old.scene.next_id
    &&& new.scene.materials == old.scene.materials
    &&& new == (ProjectInner { scene: new.scene, ..old })
}

impl Project {
    /// Move transform `node_id`; false (and nothing changes) unless it is a transform.
    pub fn set_object_translation(&mut self, node_id: NodeId, t: IVec3) -> (r: bool)
        requires
            old(self).wf(),
        ensures
            final(self).keeps_history(old(self)),
            r == is_transform(old(self).doc().scene.graph().nodes, node_id),
            final(self).doc().scene.graph().nodes == update_transform(
                old(self).doc().scene.graph().nodes,
                node_id,
                moved_to(t),
            ),
            only_nodes_changed(final(self).doc(), old(self).doc()),
    {
        self.inner.scene.set_translation(node_id, t)
    }

    /// Put transform `node_id` on layer `layer_id`; false (and nothing changes) unless it is a transform.
    pub fn set_object_layer(&mut self, node_id: NodeId, layer_id: i32) -> (r: bool)
        requires
            old(self).wf(),
        ensures
            final(self).keeps_history(old(self)),
            r == is_transform(old(self).doc().scene.graph().nodes, node_id),
            final(self).doc().scene.graph().nodes == update_transform(
                old(self).doc().scene.graph().nodes,
                node_id,
                on_layer(layer_id),
            ),
            only_nodes_changed(final(self).doc(), old(self).doc()),
    {
        self.inner.scene.set_object_layer(node_id, layer_id)
    }

    /// Hide or show the first layer with id `layer_id`; false when there is none.
    pub fn set_layer_hidden(&mut self, layer_id: i32, hidden: bool) -> (r: bool)
        requires
            old(self).wf(),
        ensures
            final(self).keeps_history(old(self)),
            r == first_with_id(old(self).doc().scene.layers.layers@, layer_id) is Some,
            layer_changed(
                final(self).doc(),
                old(self).doc(),
                layer_id,
                |l: Layer| Layer { hidden, ..l },
            ),
    {
        self.inner.scene.layers.set_hidden(layer_id, hidden)
    }

    /// Rename the first layer with id `layer_id`; false when there is none.
    pub fn rename_layer(&mut self, layer_id: i32, name: String) -> (r: bool)
        requires
            old(self).wf(),
        ensures
            final(self).keeps_history(old(self)),
            r == first_with_id(old(self).doc().scene.layers.layers@, layer_id) is Some,
            layer_changed(
                final(self).doc(),
                old(self).doc(),
                layer_id,
                |l: Layer| Layer { name, ..l },
            ),
    {
        self.inner.scene.layers.rename(layer_id, name)
    }

    /// Set the material of palette index `index` (1..=255) to the properties
    /// `props`; index 0 is refused.
    pub fn set_material(&mut self, index: ColorIndex, props: Vec<(String, String)>) -> (r: Result<(), CoreError>)
        requires
            old(self).wf(),
        ensures
            final(self).keeps_history(old(self)),
            r is Ok <==> index != 0,
            r is Err ==> r == Err::<(), CoreError>(CoreError::InvalidColor(0)) && final(self).doc().scene.materials.slots()
                == old(self).doc().scene.materials.slots(),
            r is Ok ==> final(self).doc().scene.materials.slots() == old(self).doc().scene.materials.slots().update(
                index as int,
                props_view(props@),
            ),
            final(self).doc().scene.materials.legacy() == old(self).doc().scene.materials.legacy(),
            final(self).doc().scene.models == old(self).doc().scene.models,
            final(self).doc().scene.nodes == old(self).doc().scene.nodes,
            final(self).doc().scene.root == old(self).doc().scene.root,
            final(self).doc().scene.next_id == old(self).doc().scene.next_id,
            final(self).doc().scene.layers == old(self).doc().scene.layers,
            final(self).doc() == (ProjectInner { scene: final(self).doc().scene, ..old(self).doc() }),
    {
        self.inner.scene.materials.set(index, props)
    }

    /// The drawable instances of the world.
    pub fn instances(&self) -> (v: Vec<WorldInstance>)
        ensures
            instance_views(v@) == graph_instances(self.doc().scene.graph()),
    {
        self.inner.scene.collect_instances()
    }

    /// Set palette color `index` (1..=255); index 0 is refused.
    pub fn set_palette_color(&mut self, index: u8, color: ColorRgba) -> (r: Result<(), CoreError>)
        requires
            old(self).wf(),
        ensures
            final(self).keeps_history(old(self)),
            r is Ok <==> index != 0,
            r is Err ==> r == Err::<(), CoreError>(CoreError::InvalidColor(0)) && final(self).doc().palette.colors()
                == old(self).doc().palette.colors(),
            r is Ok ==> final(self).doc().palette.colors() == old(self).doc().palette.colors().update(
                index as int,
                color,
            ),
            final(self).doc() == (ProjectInner { palette: final(self).doc().palette, ..old(self).doc() }),
    {
        self.inner.palette.set(index, color)
    }

    /// Paint with palette index `index` from now on; index 0 (empty) is ignored.
    pub fn set_active_color(&mut self, index: ColorIndex)
        requires
            old(self).wf(),
        ensures
            final(self).keeps_history(old(self)),
            index == 0 ==> final(self).doc() == old(self).doc(),
            index != 0 ==> final(self).doc() == (ProjectInner {
                active_color: index,
                brush: BrushOptions { color: index, ..old(self).doc().brush },
                ..old(self).doc()
            }),
    {
        if index != 0 {
            self.inner.active_color = index;
            self.inner.brush.color = index;
        }
    }

    /// Choose the brush shape, radius and mirroring; it paints with the active color.
    pub fn set_brush(&mut self, kind: BrushKind, radius: u32, mirror: MirrorAxes)
        requires
            old(self).wf(),
        ensures
            final(self).keeps_history(old(self)),
            final(self).doc() == (ProjectInner {
                brush: BrushOptions { kind, radius, mirror, color: old(self).doc().active_color },
                ..old(self).doc()
            }),
    {
        self.inner.brush.kind = kind;
        self.inner.brush.radius = radius;
        self.inner.brush.mirror = mirror;
        self.inner.brush.color = self.inner.active_color;
    }
}

/// An edit of the active model: the history and everything but the active
/// model are kept.
pub open spec fn active_edit(old: &Project, new: &Project) -> bool {
    &&& new.keeps_history(old)
    &&& new.doc().keeps_all_but_active(&old.doc())
}

impl Project {
    /// Set one voxel of the active model; a position outside its volume is
    /// refused with `OutOfBounds`.
    pub fn set_voxel(&mut self, x: i32, y: i32, z: i32, color: ColorIndex) -> (r: Result<(), CoreError>)
        requires
            old(self).wf(),
            old(self).doc().has_active(),
        ensures
            active_edit(old(self), final(self)),
            ({
                let m0 = old(self).doc().active();
                let m1 = final(self).doc().active();
                &&& m1.wf()
                &&& m1.sx() == m0.sx() && m1.sy() == m0.sy() && m1.sz() == m0.sz()
                &&& r is Ok <==> m0.contains(x as int, y as int, z as int)
                &&& r is Err ==> r == Err::<(), CoreError>(m0.out_of_bounds(x, y, z))
                &&& forall|a: int, b: int, d: int|
                    #[trigger] m1.voxel(a, b, d) == if r is Ok && a == x && b == y && d == z {
                        color
                    } else {
                        m0.voxel(a, b, d)
                    }
            }),
    {
        proof {
            assert(old(self).doc().active().wf());
        }
        let m = self.inner.model_mut();
        m.set(x, y, z, color)
    }

    /// Empty one voxel of the active model.
    pub fn erase_voxel(&mut self, x: i32, y: i32, z: i32) -> (r: Result<(), CoreError>)
        requires
            old(self).wf(),
            old(self).doc().has_active(),
        ensures
            active_edit(old(self), final(self)),
            ({
                let m0 = old(self).doc().active();
                let m1 = final(self).doc().active();
                &&& m1.wf()
                &&& m1.sx() == m0.sx() && m1.sy() == m0.sy() && m1.sz() == m0.sz()
                &&& r is Ok <==> m0.contains(x as int, y as int, z as int)
                &&& r is Err ==> r == Err::<(), CoreError>(m0.out_of_bounds(x, y, z))
                &&& forall|a: int, b: int, d: int|
                    #[trigger] m1.voxel(a, b, d) == if r is Ok && a == x && b == y && d == z {
                        0
                    } else {
                        m0.voxel(a, b, d)
                    }
            }),
    {
        self.set_voxel(x, y, z, 0)
    }

    /// Fill the box spanned by two corners in the active model.
    pub fn fill_box(&mut self, min: IVec3, max: IVec3, color: ColorIndex) -> (r: Result<usize, CoreError>)
        requires
            old(self).wf(),
            old(self).doc().has_active(),
        ensures
            active_edit(old(self), final(self)),
            painted_result(
                &old(self).doc().active(),
                &final(self).doc().active(),
                r,
                |x: int, y: int, z: int| in_span(min, max, x, y, z),
                color,
            ),
    {
        proof {
            assert(old(self).doc().active().wf());
        }
        brush::fill_box_region(self.inner.model_mut(), min, max, color)
    }

    /// Fill the ball of `radius` around `center` in the active model.
    pub fn fill_sphere(&mut self, center: IVec3, radius: u32, color: ColorIndex) -> (r: Result<usize, CoreError>)
        requires
            old(self).wf(),
            old(self).doc().has_active(),
            cube_fits(center, radius as int),
            ball_radius_fits(radius as int),
        ensures
            active_edit(old(self), final(self)),
            painted_result(
                &old(self).doc().active(),
                &final(self).doc().active(),
                r,
                |x: int, y: int, z: int|
                    in_cube(center, radius as int, x, y, z) && in_ball(center, radius as int, x, y, z),
                color,
            ),
    {
        proof {
            assert(old(self).doc().active().wf());
        }
        brush::fill_sphere(self.inner.model_mut(), center, radius, color)
    }

    /// Draw the line from `a` to `b` (both ends included) in the active model.
    pub fn fill_line(&mut self, a: IVec3, b: IVec3, color: ColorIndex) -> (r: Result<usize, CoreError>)
        requires
            old(self).wf(),
            old(self).doc().has_active(),
            line_fits(a, b),
        ensures
            active_edit(old(self), final(self)),
            painted_result(
                &old(self).doc().active(),
                &final(self).doc().active(),
                r,
                |x: int, y: int, z: int| on_line(a, b, x, y, z),
                color,
            ),
    {
        proof {
            assert(old(self).doc().active().wf());
        }
        brush::fill_line(self.inner.model_mut(), a, b, color)
    }

    /// Fill the disk of `radius` around `center` across `axis` in the active model.
    pub fn fill_circle(&mut self, center: IVec3, radius: u32, axis: char, color: ColorIndex) -> (r: Result<
        usize,
        CoreError,
    >)
        requires
            old(self).wf(),
            old(self).doc().has_active(),
            disk_fits(center, radius, axis),
        ensures
            active_edit(old(self), final(self)),
            painted_result(
                &old(self).doc().active(),
                &final(self).doc().active(),
                r,
                |x: int, y: int, z: int| in_disk(center, (radius as i32) as int, axis, x, y, z),
                color,
            ),
    {
        proof {
            assert(old(self).doc().active().wf());
        }
        brush::fill_circle(self.inner.model_mut(), center, radius, axis, color)
    }

    /// Fill the rectangle spanned by `a` and `b` in the plane across `axis` through `a`.
    pub fn fill_plane_rect(&mut self, a: IVec3, b: IVec3, axis: char, color: ColorIndex) -> (r: Result<
        usize,
        CoreError,
    >)
        requires
            old(self).wf(),
            old(self).doc().has_active(),
        ensures
            active_edit(old(self), final(self)),
            painted_result(
                &old(self).doc().active(),
                &final(self).doc().active(),
                r,
                |x: int, y: int, z: int| in_plane_rect(a, b, axis, x, y, z),
                color,
            ),
    {
        proof {
            assert(old(self).doc().active().wf());
        }
        brush::fill_plane_rect(self.inner.model_mut(), a, b, axis, color)
    }

    /// Flood-fill the region connected to `start` in the active model.
    pub fn flood_fill(&mut self, start: IVec3, color: ColorIndex) -> (r: Result<usize, CoreError>)
        requires
            old(self).wf(),
            old(self).doc().has_active(),
        ensures
            active_edit(old(self), final(self)),
            painted_result(
                &old(self).doc().active(),
                &final(self).doc().active(),
                r,
                |x: int, y: int, z: int| flood_region(old(self).doc().active().grid(), start, color, x, y, z),
                color,
            ),
    {
        proof {
            assert(old(self).doc().active().wf());
        }
        brush::flood_fill(self.inner.model_mut(), start, color)
    }

    /// Stamp the brush at `center` (and its mirror images) with the active color.
    pub fn apply_brush(&mut self, center: IVec3) -> (r: Result<usize, CoreError>)
        requires
            old(self).wf(),
            old(self).doc().has_active(),
            ({
                let m = old(self).doc().active();
                mirror_fits(m.sx() as int, m.sy() as int, m.sz() as int, center, old(self).doc().brush.mirror)
            }),
            forall|q: IVec3|
                is_mirror_of(
                    old(self).doc().active().sx() as int,
                    old(self).doc().active().sy() as int,
                    old(self).doc().active().sz() as int,
                    center,
                    old(self).doc().brush.mirror,
                    q,
                ) ==> brush_fits(q, BrushOptions { color: old(self).doc().active_color, ..old(self).doc().brush }),
        ensures
            active_edit(old(self), final(self)),
            ({
                let m0 = old(self).doc().active();
                let m1 = final(self).doc().active();
                let opts = BrushOptions { color: old(self).doc().active_color, ..old(self).doc().brush };
                let cs = mirror_center_seq(m0.sx() as int, m0.sy() as int, m0.sz() as int, center, opts.mirror);
                &&& m1.wf()
                &&& m1.grid() == brush_fold(m0.grid(), cs, opts, cs.len() as int)
                &&& r matches Ok(n) && n == diff_count(m0.cells(), m1.cells())
            }),
    {
        proof {
            assert(old(self).doc().active().wf());
        }
        let mut opts = self.inner.brush;
        opts.color = self.inner.active_color;
        brush::apply_brush(self.inner.model_mut(), center, opts)
    }

    /// Empty every voxel of the active model.
    pub fn clear(&mut self)
        requires
            old(self).wf(),
            old(self).doc().has_active(),
        ensures
            active_edit(old(self), final(self)),
            ({
                let m0 = old(self).doc().active();
                let m1 = final(self).doc().active();
                &&& m1.wf()
                &&& m1.sx() == m0.sx() && m1.sy() == m0.sy() && m1.sz() == m0.sz()
                &&& forall|x: int, y: int, z: int| #[trigger] m1.voxel(x, y, z) == 0
            }),
    {
        proof {
            assert(old(self).doc().active().wf());
        }
        self.inner.model_mut().clear()
    }

    /// Resize the active model (each edge 1..=256), keeping the voxels that still fit.
    pub fn resize(&mut self, sx: u32, sy: u32, sz: u32) -> (r: Result<(), CoreError>)
        requires
            old(self).wf(),
            old(self).doc().has_active(),
        ensures
            active_edit(old(self), final(self)),
            ({
                let m0 = old(self).doc().active();
                let m1 = final(self).doc().active();
                &&& m1.wf()
                &&& r is Ok <==> (1 <= sx <= 256 && 1 <= sy <= 256 && 1 <= sz <= 256)
                &&& r is Err ==> r == Err::<(), CoreError>(CoreError::InvalidSize(sx, sy, sz)) && m1.same_as(&m0)
                &&& r is Ok ==> {
                    &&& m1.sx() == sx && m1.sy() == sy && m1.sz() == sz
                    &&& forall|x: int, y: int, z: int| #[trigger]
                        m1.voxel(x, y, z) == if m1.contains(x, y, z) {
                            m0.voxel(x, y, z)
                        } else {
                            0
                        }
                }
            }),
    {
        proof {
            assert(old(self).doc().active().wf());
        }
        self.inner.model_mut().resize(sx, sy, sz)
    }

    /// Mirror the active model across `axis`.
    pub fn mirror(&mut self, axis: char) -> (r: Result<(), CoreError>)
        requires
            old(self).wf(),
            old(self).doc().has_active(),
        ensures
            active_edit(old(self), final(self)),
            r is Ok,
            is_mirrored(&old(self).doc().active(), &final(self).doc().active(), axis),
    {
        proof {
            assert(old(self).doc().active().wf());
        }
        brush::mirror_model(self.inner.model_mut(), axis)
    }
}

impl Project {
    /// Rename and/or hide layer `layer_id`, as given; false when there is no such layer.
    pub fn update_layer(&mut self, layer_id: i32, name: Option<String>, hidden: Option<bool>) -> (r: bool)
        requires
            old(self).wf(),
        ensures
            final(self).keeps_history(old(self)),
            r == first_with_id(old(self).doc().scene.layers.layers@, layer_id) is Some,
            layer_changed(
                final(self).doc(),
                old(self).doc(),
                layer_id,
                |l: Layer| updated_layer(l, name, hidden),
            ),
    {
        self.inner.scene.layers.update(layer_id, name, hidden)
    }

    /// Replace the document (as when a file is loaded); the history stays.
    pub fn replace_inner(&mut self, doc: ProjectInner)
        requires
            old(self).wf(),
            doc.wf(),
        ensures
            final(self).keeps_history(old(self)),
            final(self).doc() == doc,
    {
        self.inner = doc;
    }
}

/// The history never holds more than 64 snapshots: undo and redo together.
pub proof fn lemma_history_bounded(p: &Project)
    requires
        p.wf(),
    ensures
        p.undo_states().len() + p.redo_states().len() <= 64,
        p.undo_states().len() <= 64,
{
    p.lemma_stack_lens();
}

/// A checkpoint followed by edits that leave the undo stack alone and one
/// undo gives back the document as it was at the checkpoint.
pub proof fn lemma_undo_restores_checkpoint(p0: &Project, p1: &Project, p2: &Project, p3: &Project, r: bool)
    requires
        checkpointed(p0, p1),
        p2.undo_states() == p1.undo_states(),
        undone(p2, p3, r),
    ensures
        r,
        p3.doc().state() == p0.doc().state(),
{
}

proof fn lemma_edits_keep_undo(ps: Seq<Project>, n: int)
    requires
        1 <= n < ps.len(),
        forall|i: int| 1 <= i < ps.len() - 1 ==> (#[trigger] ps[i + 1]).undo_states() == ps[i].undo_states(),
    ensures
        ps[n].undo_states() == ps[1].undo_states(),
    decreases n,
{
    if n > 1 {
        lemma_edits_keep_undo(ps, n - 1);
        assert(ps[(n - 1) + 1].undo_states() == ps[n - 1].undo_states());
    }
}

/// A checkpoint (`ps[0]` to `ps[1]`), then any number of edits that leave the
/// undo stack alone (`ps[1]` to the last), then one undo: the undo succeeds
/// and gives back the document as it was at the checkpoint.
pub proof fn lemma_undo_after_edits(ps: Seq<Project>, p: &Project, r: bool)
    requires
        ps.len() >= 2,
        checkpointed(&ps[0], &ps[1]),
        forall|i: int| 1 <= i < ps.len() - 1 ==> (#[trigger] ps[i + 1]).undo_states() == ps[i].undo_states(),
        undone(&ps.last(), p, r),
    ensures
        r,
        p.doc().state() == ps[0].doc().state(),
{
    lemma_edits_keep_undo(ps, ps.len() - 1);
    lemma_undo_restores_checkpoint(&ps[0], &ps[1], &ps.last(), p, r);
}

/// Undo then redo gives back the document and both stacks.
pub proof fn lemma_redo_after_undo(p0: &Project, p1: &Project, p2: &Project, r1: bool, r2: bool)
    requires
        undone(p0, p1, r1),
        r1,
        redone(p1, p2, r2),
    ensures
        r2,
        p2.doc().state() == p0.doc().state(),
        p2.undo_states() == p0.undo_states(),
        p2.redo_states() == p0.redo_states(),
{
    assert(p0.undo_states().drop_last().push(p0.undo_states().last()) =~= p0.undo_states());
    assert(p0.redo_states().push(p0.doc().state()).drop_last() =~= p0.redo_states());
}

/// Redo then undo gives back the document and both stacks.
pub proof fn lemma_undo_after_redo(p0: &Project, p1: &Project, p2: &Project, r1: bool, r2: bool)
    requires
        redone(p0, p1, r1),
        r1,
        undone(p1, p2, r2),
    ensures
        r2,
        p2.doc().state() == p0.doc().state(),
        p2.undo_states() == p0.undo_states(),
        p2.redo_states() == p0.redo_states(),
{
    assert(p0.redo_states().drop_last().push(p0.redo_states().last()) =~= p0.redo_states());
    assert(p0.undo_states().push(p0.doc().state()).drop_last() =~= p0.undo_states());
}

/// After a checkpoint there is something to undo and nothing to redo,
/// unless the document was already the top snapshot.
pub proof fn lemma_checkpoint_enables_undo(p0: &Project, p1: &Project)
    requires
        checkpointed(p0, p1),
    ensures
        p1.undo_states().len() > 0,
        p1.undo_states().last() == p0.doc().state(),
{
}

} // verus!
