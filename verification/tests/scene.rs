use voxel::scene::{local_to_world, world_to_local, MvRotation, Scene, SceneNode};
use voxel::{IVec3, VoxelModel};

#[test]
fn rotation_bytes_survive_the_matrix() {
    // row 0 takes column 1, row 1 column 0, sign of row 2 negative
    let r = MvRotation(1 | (0 << 2) | (1 << 6));
    let m = r.to_matrix();
    assert_eq!(m, [[0, 1, 0], [1, 0, 0], [0, 0, -1]]);
    assert_eq!(MvRotation::from_matrix(m), r);
    for b in 0u8..128 {
        let c0 = b & 3;
        let c1 = (b >> 2) & 3;
        if c0 <= 2 && c1 <= 2 && c0 != c1 {
            assert_eq!(MvRotation::from_matrix(MvRotation(b).to_matrix()), MvRotation(b));
        }
    }
    assert_eq!(MvRotation::identity().to_matrix(), [[1, 0, 0], [0, 1, 0], [0, 0, 1]]);
}

#[test]
fn world_and_local_undo_each_other() {
    let r = MvRotation(1 | (1 << 4) | (1 << 5));
    let t = IVec3::new(10, -3, 7);
    let p = IVec3::new(2, 5, -1);
    let w = local_to_world(p, t, r);
    assert_eq!(world_to_local(w, t, r), p);
    let q = IVec3::new(-40, 8, 0);
    assert_eq!(local_to_world(world_to_local(q, t, r), t, r), q);
    assert_eq!(r.rotate_vec(IVec3::new(1, 0, 0)), IVec3::new(0, -1, 0));
}

#[test]
fn world_root_and_objects() {
    let mut scene = Scene::from_single_model(VoxelModel::new(4, 4, 4).unwrap());
    assert_eq!(scene.nodes.len(), 2);
    assert_eq!(scene.model_id_for_transform(0), Some(0));
    assert_eq!(scene.model_id_for_transform(1), None);
    scene.ensure_world_root();
    let n = scene.nodes.len();
    scene.ensure_world_root();
    assert_eq!(scene.nodes.len(), n);
    let id = scene.add_object("box", VoxelModel::new(2, 2, 2).unwrap(), IVec3::new(1, 2, 3));
    assert_eq!(scene.model_id_for_transform(id), Some(1));
    assert!(scene.rename(id, "crate".to_string()));
    assert!(scene.set_translation(id, IVec3::new(4, 5, 6)));
    assert!(!scene.set_translation(12345, IVec3::new(0, 0, 0)));
    let objs = scene.list_objects();
    let o = objs.iter().find(|o| o.0 == id).unwrap();
    assert_eq!(o.1, "crate");
    assert_eq!(o.2, IVec3::new(4, 5, 6));
    assert_eq!(o.4, 1);
    match scene.nodes.get(&id).unwrap() {
        SceneNode::Transform(t) => assert_eq!(t.name, "crate"),
        _ => panic!("not a transform"),
    }
    assert!(scene.remove_object(id));
    assert!(!scene.nodes.contains_key(&id));
    assert!(!scene.remove_object(scene.root));
    assert_eq!(scene.models.len(), 2);
}

#[test]
fn unnamed_objects_are_listed_by_id() {
    let mut scene = Scene::from_single_model(VoxelModel::new(4, 4, 4).unwrap());
    let id = scene.add_object("", VoxelModel::new(2, 2, 2).unwrap(), IVec3::new(0, 0, 0));
    let objs = scene.list_objects();
    let o = objs.iter().find(|o| o.0 == id).unwrap();
    assert_eq!(o.1, format!("object_{id}"));
}

#[test]
fn every_signed_permutation_matrix_survives_the_byte() {
    let perms = [[0, 1, 2], [0, 2, 1], [1, 0, 2], [1, 2, 0], [2, 0, 1], [2, 1, 0]];
    for p in perms {
        for signs in 0..8 {
            let mut m = [[0i32; 3]; 3];
            for row in 0..3 {
                m[row][p[row]] = if (signs >> row) & 1 == 1 { -1 } else { 1 };
            }
            assert_eq!(MvRotation::from_matrix(m).to_matrix(), m);
        }
    }
}

#[test]
fn world_root_keeps_instances_and_settles() {
    let mut scene = Scene::from_single_model(VoxelModel::new(4, 4, 4).unwrap());
    scene.set_translation(0, IVec3::new(3, -2, 7));
    let before: Vec<(i32, usize, String, IVec3, MvRotation, bool)> = scene
        .collect_instances()
        .into_iter()
        .map(|w| (w.transform_id, w.model_id, w.name, w.translation, w.rotation, w.hidden))
        .collect();
    scene.ensure_world_root();
    let after: Vec<(i32, usize, String, IVec3, MvRotation, bool)> = scene
        .collect_instances()
        .into_iter()
        .map(|w| (w.transform_id, w.model_id, w.name, w.translation, w.rotation, w.hidden))
        .collect();
    assert_eq!(before, after);
    let (root, next, count) = (scene.root, scene.next_id, scene.nodes.len());
    scene.ensure_world_root();
    assert_eq!((scene.root, scene.next_id, scene.nodes.len()), (root, next, count));
}

#[test]
fn world_root_in_place_needs_no_free_ids() {
    let mut scene = Scene::from_single_model(VoxelModel::new(4, 4, 4).unwrap());
    scene.ensure_world_root();
    scene.next_id = i32::MAX;
    let (root, count) = (scene.root, scene.nodes.len());
    scene.ensure_world_root();
    assert_eq!((scene.root, scene.next_id, scene.nodes.len()), (root, i32::MAX, count));
}
