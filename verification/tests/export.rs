use voxel::glb::pack_glb;
use voxel::mesh::visible_faces;
use voxel::VoxelModel;

#[test]
fn lone_voxel_shows_six_faces() {
    let mut m = VoxelModel::new(4, 4, 4).unwrap();
    m.set(1, 1, 1, 7).unwrap();
    let f = visible_faces(&m);
    assert_eq!(f.len(), 6);
    for (i, face) in f.iter().enumerate() {
        assert_eq!(*face, (1, 1, 1, i as u8, 7));
    }
}

#[test]
fn touching_voxels_hide_shared_faces() {
    let mut m = VoxelModel::new(4, 4, 4).unwrap();
    m.set(1, 1, 1, 2).unwrap();
    m.set(2, 1, 1, 3).unwrap();
    let f = visible_faces(&m);
    assert_eq!(f.len(), 10);
    assert!(!f.contains(&(1, 1, 1, 0, 2)));
    assert!(!f.contains(&(2, 1, 1, 1, 3)));
    // faces on the volume's border show
    let mut full = VoxelModel::new(1, 1, 1).unwrap();
    full.set(0, 0, 0, 1).unwrap();
    assert_eq!(visible_faces(&full).len(), 6);
}

#[test]
fn glb_header_and_padding() {
    let out = pack_glb(b"{}", &[1, 2, 3, 4, 5]);
    assert_eq!(&out[0..4], b"glTF");
    assert_eq!(u32::from_le_bytes([out[4], out[5], out[6], out[7]]), 2);
    let total = u32::from_le_bytes([out[8], out[9], out[10], out[11]]);
    assert_eq!(total as usize, out.len());
    assert_eq!(total, 28 + 4 + 8);
    assert_eq!(u32::from_le_bytes([out[12], out[13], out[14], out[15]]), 4);
    assert_eq!(&out[16..20], b"JSON");
    assert_eq!(&out[20..24], b"{}  ");
    assert_eq!(u32::from_le_bytes([out[24], out[25], out[26], out[27]]), 8);
    assert_eq!(&out[28..32], b"BIN\0");
    assert_eq!(&out[32..40], &[1, 2, 3, 4, 5, 0, 0, 0]);
}
