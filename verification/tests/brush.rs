use voxel::brush::{
    apply_brush, fill_box, fill_box_region, fill_circle, fill_line, fill_plane_rect, fill_sphere,
    flood_fill, mirror_model, BrushKind, BrushOptions, MirrorAxes,
};
use voxel::{IVec3, VoxelModel};

#[test]
fn fill_line_includes_both_ends() {
    let mut model = VoxelModel::new(16, 16, 16).unwrap();
    let n = fill_line(&mut model, IVec3::new(1, 2, 3), IVec3::new(7, 2, 3), 4).unwrap();
    assert!(n >= 2);
    assert_eq!(model.get(1, 2, 3).unwrap(), 4);
    assert_eq!(model.get(7, 2, 3).unwrap(), 4);
    for x in 1..=7 {
        assert_eq!(model.get(x, 2, 3).unwrap(), 4);
    }
}

#[test]
fn fill_circle_z_stays_on_plane() {
    let mut model = VoxelModel::new(16, 16, 16).unwrap();
    fill_circle(&mut model, IVec3::new(8, 8, 5), 3, 'z', 2).unwrap();
    assert!(model.voxel_count() > 1);
    assert_eq!(model.get(8, 8, 5).unwrap(), 2);
    for (x, y, z, c) in model.iter_occupied() {
        assert_eq!(z, 5, "circle voxel off plane at ({x},{y},{z})");
        assert_eq!(c, 2);
    }
    assert_eq!(model.get_or_empty(8, 8, 4), 0);
    assert_eq!(model.get_or_empty(8, 8, 6), 0);
}

#[test]
fn diagonal_line_reaches_both_ends() {
    let mut model = VoxelModel::new(16, 16, 16).unwrap();
    let n = fill_line(&mut model, IVec3::new(0, 0, 0), IVec3::new(9, 4, 2), 5).unwrap();
    assert_eq!(model.get(0, 0, 0).unwrap(), 5);
    assert_eq!(model.get(9, 4, 2).unwrap(), 5);
    // one voxel per step along the longest axis
    assert_eq!(n, 10);
    assert_eq!(model.voxel_count(), 10);
}

#[test]
fn fill_box_region_counts_changed_voxels() {
    let mut model = VoxelModel::new(8, 8, 8).unwrap();
    let n = fill_box_region(&mut model, IVec3::new(3, 3, 3), IVec3::new(1, 1, 1), 9).unwrap();
    assert_eq!(n, 27);
    // painting the same box again changes nothing
    let again = fill_box_region(&mut model, IVec3::new(1, 1, 1), IVec3::new(3, 3, 3), 9).unwrap();
    assert_eq!(again, 0);
    // a box reaching outside the volume is clipped
    let clipped = fill_box_region(&mut model, IVec3::new(6, 6, 6), IVec3::new(20, 20, 20), 1).unwrap();
    assert_eq!(clipped, 8);
    assert_eq!(model.voxel_count(), 35);
}

#[test]
fn fill_box_half_extent() {
    let mut model = VoxelModel::new(8, 8, 8).unwrap();
    let n = fill_box(&mut model, IVec3::new(4, 4, 4), 1, 3).unwrap();
    assert_eq!(n, 27);
    assert_eq!(model.get(3, 3, 3).unwrap(), 3);
    assert_eq!(model.get(5, 5, 5).unwrap(), 3);
    assert_eq!(model.get(6, 5, 5).unwrap(), 0);
}

#[test]
fn sphere_of_radius_one_is_a_cross() {
    let mut model = VoxelModel::new(8, 8, 8).unwrap();
    let n = fill_sphere(&mut model, IVec3::new(4, 4, 4), 1, 6).unwrap();
    assert_eq!(n, 7);
    assert_eq!(model.get(4, 4, 5).unwrap(), 6);
    assert_eq!(model.get(5, 5, 4).unwrap(), 0);
}

#[test]
fn plane_rect_fills_one_layer() {
    let mut model = VoxelModel::new(8, 8, 8).unwrap();
    let n = fill_plane_rect(&mut model, IVec3::new(1, 1, 2), IVec3::new(3, 4, 7), 'z', 8).unwrap();
    assert_eq!(n, 12);
    for (_, _, z, c) in model.iter_occupied() {
        assert_eq!(z, 2);
        assert_eq!(c, 8);
    }
}

#[test]
fn flood_fill_stops_at_walls() {
    let mut model = VoxelModel::new(4, 1, 1).unwrap();
    model.set(2, 0, 0, 1).unwrap();
    let n = flood_fill(&mut model, IVec3::new(0, 0, 0), 5).unwrap();
    assert_eq!(n, 2);
    assert_eq!(model.get(0, 0, 0).unwrap(), 5);
    assert_eq!(model.get(1, 0, 0).unwrap(), 5);
    assert_eq!(model.get(2, 0, 0).unwrap(), 1);
    assert_eq!(model.get(3, 0, 0).unwrap(), 0);
    // filling with the color already there changes nothing
    assert_eq!(flood_fill(&mut model, IVec3::new(0, 0, 0), 5).unwrap(), 0);
    // a start outside the volume changes nothing
    assert_eq!(flood_fill(&mut model, IVec3::new(9, 0, 0), 7).unwrap(), 0);
}

#[test]
fn mirror_twice_gives_back_the_model() {
    let mut model = VoxelModel::new(5, 3, 2).unwrap();
    model.set(0, 1, 1, 4).unwrap();
    model.set(3, 2, 0, 9).unwrap();
    mirror_model(&mut model, 'x').unwrap();
    assert_eq!(model.get(4, 1, 1).unwrap(), 4);
    assert_eq!(model.get(1, 2, 0).unwrap(), 9);
    assert_eq!(model.get(0, 1, 1).unwrap(), 0);
    mirror_model(&mut model, 'X').unwrap();
    assert_eq!(model.get(0, 1, 1).unwrap(), 4);
    assert_eq!(model.get(3, 2, 0).unwrap(), 9);
    assert_eq!(model.voxel_count(), 2);
}

#[test]
fn brush_with_mirror_paints_both_sides() {
    let mut model = VoxelModel::new(8, 8, 8).unwrap();
    let opts = BrushOptions {
        kind: BrushKind::Voxel,
        color: 3,
        radius: 0,
        mirror: MirrorAxes { x: true, y: false, z: false },
    };
    let n = apply_brush(&mut model, IVec3::new(1, 2, 3), opts).unwrap();
    assert_eq!(n, 2);
    assert_eq!(model.get(1, 2, 3).unwrap(), 3);
    assert_eq!(model.get(6, 2, 3).unwrap(), 3);
    let erase = BrushOptions { kind: BrushKind::Erase, ..opts };
    let m = apply_brush(&mut model, IVec3::new(6, 2, 3), erase).unwrap();
    assert_eq!(m, 2);
    assert_eq!(model.voxel_count(), 0);
}

#[test]
fn fill_circle_with_huge_radius_covers_the_plane() {
    let mut model = VoxelModel::new(8, 8, 8).unwrap();
    let n = fill_circle(&mut model, IVec3::new(4, 4, 4), 2_000_000_000, 'y', 3).unwrap();
    assert_eq!(n, 64);
    for (_x, y, _z, c) in model.iter_occupied() {
        assert_eq!(y, 4);
        assert_eq!(c, 3);
    }
}

#[test]
fn fill_circle_with_radius_past_i32_changes_nothing() {
    let mut model = VoxelModel::new(8, 8, 8).unwrap();
    let n = fill_circle(&mut model, IVec3::new(4, 4, 4), u32::MAX, 'z', 3).unwrap();
    assert_eq!(n, 0);
    assert_eq!(model.voxel_count(), 0);
}
