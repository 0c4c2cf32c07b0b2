use voxel::brush::{
    ball_radius_fits_check, brush_fits_everywhere, cube_fits_check, line_fits_check, BrushKind,
    BrushOptions, MirrorAxes,
};
use voxel::export::export_items;
use voxel::project::Project;
use voxel::{IVec3, VoxelModel};
use voxel::export::{godot_tscn, ExportError, ExportScope};
use voxel::material::MaterialKind;
use voxel::params::BrushParams;
use voxel::project::EditMode;
use voxel::tools::{object_size, parse_axis, parse_brush_kind, parse_edit_mode, parse_material_kind};

#[test]
fn axis_words() {
    assert_eq!(parse_axis(" X ").unwrap(), 'x');
    assert_eq!(parse_axis("z").unwrap(), 'z');
    assert_eq!(parse_axis("w").unwrap_err(), "unknown axis 'w' (expected x|y|z)");
    assert_eq!(parse_axis("  Up ").unwrap_err(), "unknown axis 'up' (expected x|y|z)");
}

#[test]
fn brush_words() {
    assert_eq!(parse_brush_kind("Flood_Fill").unwrap(), BrushKind::FloodFill);
    assert_eq!(parse_brush_kind("cube").unwrap(), BrushKind::Box);
    assert_eq!(parse_brush_kind("c").unwrap(), BrushKind::Circle);
    assert_eq!(parse_brush_kind("Spray").unwrap_err(), "unknown brush kind 'spray'");
}

#[test]
fn material_words() {
    assert_eq!(parse_material_kind("  _Emissive ").unwrap(), MaterialKind::Emit);
    assert_eq!(parse_material_kind("g").unwrap(), MaterialKind::Glass);
    assert_eq!(parse_material_kind("plastic").unwrap_err(), "unknown material type 'plastic'");
}

#[test]
fn mode_words() {
    assert_eq!(parse_edit_mode("WORLD").unwrap(), EditMode::World);
    assert_eq!(parse_edit_mode("m").unwrap(), EditMode::Model);
    assert_eq!(parse_edit_mode("edit").unwrap_err(), "unknown mode 'edit'");
}

#[test]
fn export_scope_words() {
    assert_eq!(ExportScope::parse("").unwrap(), ExportScope::World);
    assert_eq!(ExportScope::parse("Scene").unwrap(), ExportScope::World);
    assert_eq!(ExportScope::parse("ACTIVE").unwrap(), ExportScope::ActiveModel);
    match ExportScope::parse("All") {
        Err(ExportError::Msg(m)) => assert_eq!(m, "unknown export scope 'all' (use world or model)"),
        other => panic!("unexpected {:?}", other),
    }
}

#[test]
fn tscn_wraps_the_glb() {
    let t = godot_tscn("cube.glb");
    assert_eq!(
        t,
        "[gd_scene load_steps=2 format=3]\n\n[ext_resource type=\"PackedScene\" path=\"res://cube.glb\" id=\"1_glb\"]\n\n[node name=\"VoxelWorld\" instance=ExtResource(\"1_glb\")]\n"
    );
}

#[test]
fn new_object_size_defaults_to_32() {
    assert_eq!(object_size(0), 32);
    assert_eq!(object_size(5), 5);
}

#[test]
fn brush_params_mirror() {
    let p = BrushParams { kind: "box".to_string(), radius: 2, mirror_x: true, mirror_y: false, mirror_z: true };
    let m = p.mirror();
    assert!(m.x && !m.y && m.z);
}

#[test]
fn world_export_numbers_repeated_names() {
    let mut project = Project::new(4).unwrap();
    project.add_object("rock", 2, IVec3::new(5, 0, 0)).unwrap();
    project.add_object("rock", 2, IVec3::new(9, 0, 0)).unwrap();
    let snap = project.snapshot();
    let items = export_items(&snap, ExportScope::World);
    let names: Vec<&str> = items.iter().map(|i| i.name.as_str()).collect();
    assert_eq!(names.len(), 3);
    assert_eq!(names[1], "rock");
    assert_eq!(names[2], "rock_2");
    assert_eq!(items[2].translation, IVec3::new(9, 0, 0));
    assert_eq!(items[2].model_id, 2);
    let one = export_items(&snap, ExportScope::ActiveModel);
    assert_eq!(one.len(), 1);
    assert_eq!(one[0].name, "model");
    assert_eq!(one[0].model_id, snap.active_model);
}

#[test]
fn brush_fit_checks() {
    assert!(cube_fits_check(IVec3::new(0, 0, 0), 10));
    assert!(!cube_fits_check(IVec3::new(i32::MAX, 0, 0), 1));
    assert!(ball_radius_fits_check(1_000_000));
    assert!(!ball_radius_fits_check(u32::MAX));
    assert!(line_fits_check(IVec3::new(0, 0, 0), IVec3::new(5, 5, 5)));
    assert!(!line_fits_check(IVec3::new(i32::MIN, 0, 0), IVec3::new(i32::MAX, 0, 0)));
    let m = VoxelModel::new(8, 8, 8).unwrap();
    let opts = BrushOptions { kind: BrushKind::Sphere, color: 1, radius: 2, mirror: MirrorAxes { x: true, y: false, z: false } };
    assert!(brush_fits_everywhere(&m, IVec3::new(1, 1, 1), opts));
    assert!(!brush_fits_everywhere(&m, IVec3::new(i32::MAX - 1, 1, 1), opts));
    assert!(!brush_fits_everywhere(&m, IVec3::new(i32::MIN, 1, 1), opts));
}
