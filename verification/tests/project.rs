use voxel::brush::{BrushKind, MirrorAxes};
use voxel::project::{EditMode, Project};
use voxel::{ColorRgba, CoreError, IVec3, Palette, VoxelModel};

#[test]
fn undo_restores_a_voxel() {
    let mut project = Project::new(8).unwrap();
    project.checkpoint();
    project.set_voxel(1, 2, 3, 7).unwrap();
    assert_eq!(project.with_inner(|p| p.model().get(1, 2, 3).unwrap()), 7);
    assert!(project.can_undo());
    assert!(!project.can_redo());
    assert!(project.undo());
    assert_eq!(project.with_inner(|p| p.model().get(1, 2, 3).unwrap()), 0);
    assert!(project.can_redo());
    assert!(project.redo());
    assert_eq!(project.with_inner(|p| p.model().get(1, 2, 3).unwrap()), 7);
}

#[test]
fn new_rejects_bad_size() {
    assert!(matches!(Project::new(0), Err(CoreError::InvalidSize(0, 0, 0))));
    assert!(matches!(Project::new(257), Err(CoreError::InvalidSize(257, 257, 257))));
    let p = Project::new(256).unwrap();
    assert_eq!(p.with_inner(|d| d.model().size()), (256, 256, 256));
    assert_eq!(p.with_inner(|d| d.edit_mode), EditMode::Model);
    assert_eq!(p.with_inner(|d| d.active_color), 1);
}

#[test]
fn nothing_to_undo_or_redo() {
    let mut project = Project::new(4).unwrap();
    assert!(!project.undo());
    assert!(!project.redo());
    assert!(!project.can_undo());
}

#[test]
fn checkpoint_of_unchanged_document_is_skipped() {
    let mut project = Project::new(4).unwrap();
    project.checkpoint();
    project.checkpoint();
    assert!(project.undo());
    assert!(!project.can_undo());
}

#[test]
fn undo_keeps_at_most_64_snapshots() {
    let mut project = Project::new(4).unwrap();
    for i in 0..70u8 {
        project.checkpoint();
        project.set_active_color(i + 1);
    }
    let mut undone = 0;
    while project.undo() {
        undone += 1;
    }
    assert_eq!(undone, 64);
    // the oldest snapshots were dropped: color 6 is the earliest left
    assert_eq!(project.with_inner(|d| d.active_color), 6);
}

#[test]
fn checkpoint_clears_redo() {
    let mut project = Project::new(4).unwrap();
    project.checkpoint();
    project.set_voxel(0, 0, 0, 3).unwrap();
    assert!(project.undo());
    assert!(project.can_redo());
    project.set_voxel(1, 0, 0, 3).unwrap();
    project.checkpoint();
    assert!(!project.can_redo());
}

#[test]
fn redo_then_undo_returns() {
    let mut project = Project::new(4).unwrap();
    project.checkpoint();
    project.fill_box(IVec3::new(0, 0, 0), IVec3::new(3, 3, 3), 2).unwrap();
    assert!(project.undo());
    assert!(project.redo());
    assert_eq!(project.with_inner(|d| d.model().voxel_count()), 64);
    assert!(project.undo());
    assert_eq!(project.with_inner(|d| d.model().voxel_count()), 0);
}

#[test]
fn active_color_zero_is_ignored() {
    let mut project = Project::new(4).unwrap();
    project.set_active_color(9);
    project.set_active_color(0);
    assert_eq!(project.with_inner(|d| (d.active_color, d.brush.color)), (9, 9));
    project.set_brush(BrushKind::Sphere, 3, MirrorAxes { x: true, y: false, z: false });
    assert_eq!(project.with_inner(|d| d.brush.color), 9);
    assert_eq!(project.with_inner(|d| d.brush.radius), 3);
}

#[test]
fn add_select_and_delete_objects() {
    let mut project = Project::new(8).unwrap();
    assert!(matches!(
        project.add_object("bad", 0, IVec3::new(0, 0, 0)),
        Err(CoreError::InvalidSize(0, 0, 0))
    ));
    let id = project.add_object("crate", 4, IVec3::new(10, 0, 0)).unwrap();
    assert_eq!(project.with_inner(|d| d.selected_node), Some(id));
    assert_eq!(project.with_inner(|d| d.active_model), 1);
    assert_eq!(project.with_inner(|d| d.edit_mode), EditMode::World);
    assert_eq!(project.with_inner(|d| d.model().size()), (4, 4, 4));
    let root = project.with_inner(|d| d.scene.root);
    assert!(!project.delete_object(root));
    assert!(!project.can_undo());
    assert!(project.delete_object(id));
    assert!(project.can_undo());
    assert_ne!(project.with_inner(|d| d.selected_node), Some(id));
    assert!(project.undo());
    assert!(project.with_inner(|d| d.scene.nodes.contains_key(&id)));
}

#[test]
fn duplicate_copies_the_active_model() {
    let mut project = Project::new(4).unwrap();
    project.set_voxel(1, 1, 1, 5).unwrap();
    let id = project.duplicate_active_object("copy", IVec3::new(8, 0, 0)).unwrap();
    assert_eq!(project.with_inner(|d| d.selected_node), Some(id));
    assert_eq!(project.with_inner(|d| d.scene.models.len()), 2);
    assert_eq!(project.with_inner(|d| d.model().get(1, 1, 1).unwrap()), 5);
}

#[test]
fn select_node_follows_the_model() {
    let mut project = Project::new(4).unwrap();
    let id = project.add_object("b", 2, IVec3::new(0, 0, 0)).unwrap();
    assert!(project.set_active_model(0));
    assert!(!project.set_active_model(5));
    project.select_node(Some(id));
    assert_eq!(project.with_inner(|d| d.active_model), 1);
    project.select_node(None);
    assert_eq!(project.with_inner(|d| d.selected_node), None);
    assert_eq!(project.with_inner(|d| d.active_model), 1);
}

#[test]
fn voxel_edit_errors() {
    let mut project = Project::new(4).unwrap();
    assert!(matches!(project.set_voxel(4, 0, 0, 1), Err(CoreError::OutOfBounds { x: 4, .. })));
    assert!(matches!(project.resize(0, 1, 1), Err(CoreError::InvalidSize(0, 1, 1))));
    assert!(matches!(project.set_palette_color(0, ColorRgba::rgb(1, 2, 3)), Err(CoreError::InvalidColor(0))));
    assert!(matches!(project.set_material(0, Vec::new()), Err(CoreError::InvalidColor(0))));
    project.set_palette_color(3, ColorRgba::rgb(1, 2, 3)).unwrap();
    assert_eq!(project.with_inner(|d| d.palette.get(3)), ColorRgba::rgb(1, 2, 3));
}

#[test]
fn resize_keeps_what_fits_and_clear_empties() {
    let mut project = Project::new(4).unwrap();
    project.set_voxel(1, 1, 1, 2).unwrap();
    project.set_voxel(3, 3, 3, 2).unwrap();
    project.resize(2, 2, 2).unwrap();
    assert_eq!(project.with_inner(|d| d.model().voxel_count()), 1);
    project.clear();
    assert_eq!(project.with_inner(|d| d.model().voxel_count()), 0);
}

#[test]
fn layers_and_materials() {
    let mut project = Project::new(4).unwrap();
    assert!(project.update_layer(2, Some("trees".to_string()), Some(true)));
    assert!(!project.update_layer(99, None, Some(true)));
    assert!(project.with_inner(|d| d.scene.layers.is_hidden(2)));
    assert!(project.rename_layer(3, "rocks".to_string()));
    assert!(project.set_layer_hidden(3, true));
    assert!(!project.set_layer_hidden(42, true));
    project
        .set_material(5, vec![("_type".to_string(), "_metal".to_string())])
        .unwrap();
    assert_eq!(project.with_inner(|d| d.scene.materials.get(5).len()), 1);
}

#[test]
fn from_parts_and_snapshot() {
    let mut m = VoxelModel::new(3, 3, 3).unwrap();
    m.set(2, 2, 2, 4).unwrap();
    let project = Project::from_parts(m, Palette::magicavoxel_default());
    let snap = project.snapshot();
    assert_eq!(snap.model().get(2, 2, 2).unwrap(), 4);
    assert!(snap.same(&project.snapshot()));
    let world = Project::from_scene(snap.scene, snap.palette);
    assert_eq!(world.with_inner(|d| d.edit_mode), EditMode::World);
}

#[test]
fn mirror_and_flood_through_the_project() {
    let mut project = Project::new(4).unwrap();
    project.set_voxel(0, 0, 0, 2).unwrap();
    project.mirror('x').unwrap();
    assert_eq!(project.with_inner(|d| d.model().get(3, 0, 0).unwrap()), 2);
    let n = project.flood_fill(IVec3::new(0, 0, 0), 6).unwrap();
    assert_eq!(n, 63);
    assert!(project.with_inner(|d| d.model().iter_occupied().len()) == 64);
}
