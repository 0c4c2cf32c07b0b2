use voxel::dict::{read_dict, read_string, write_dict, write_string};
use voxel::reader::{default_palette_from_bytes, read_vox_scene};
use voxel::scene::Scene;
use voxel::vox::{read_vox, write_vox, ChunkKind, VoxError};
use voxel::writer::write_vox_scene;
use voxel::{ColorRgba, CoreError, IVec3, Palette, VoxelModel};

#[test]
fn roundtrip_basic_vox() {
    let mut model = VoxelModel::new(8, 8, 8).unwrap();
    model.set(1, 2, 3, 7).unwrap();
    model.set(4, 5, 6, 12).unwrap();
    let mut palette = Palette::magicavoxel_default();
    palette.set(7, ColorRgba::rgb(10, 20, 30)).unwrap();

    let bytes = write_vox(&model, &palette).unwrap();
    let (m2, p2) = read_vox(&bytes).unwrap();
    assert_eq!(m2.get(1, 2, 3).unwrap(), 7);
    assert_eq!(m2.get(4, 5, 6).unwrap(), 12);
    assert_eq!(p2.get(7), ColorRgba::rgb(10, 20, 30));
    assert_eq!(m2.voxel_count(), 2);
}

#[test]
fn roundtrip_scene_two_models() {
    let mut scene = Scene::from_single_model(VoxelModel::new(8, 8, 8).unwrap());
    scene.ensure_world_root();
    let mut m2 = VoxelModel::new(4, 4, 4).unwrap();
    m2.set(1, 1, 1, 3).unwrap();
    let id = scene.add_object("b", m2, IVec3::new(20, 0, 0));
    assert!(id > 0);
    let palette = Palette::magicavoxel_default();
    let bytes = write_vox_scene(&scene, &palette).unwrap();
    let (s2, _) = read_vox_scene(&bytes).unwrap();
    assert_eq!(s2.models.len(), 2);
    assert_eq!(s2.model(1).unwrap().get(1, 1, 1).unwrap(), 3);
    let objs = s2.list_objects();
    assert!(objs.len() >= 1);
}

#[test]
fn written_file_starts_with_header() {
    let model = VoxelModel::new(2, 3, 4).unwrap();
    let bytes = write_vox(&model, &Palette::magicavoxel_default()).unwrap();
    assert_eq!(&bytes[0..4], b"VOX ");
    assert_eq!(u32::from_le_bytes([bytes[4], bytes[5], bytes[6], bytes[7]]), 150);
    assert_eq!(&bytes[8..12], b"MAIN");
    assert_eq!(u32::from_le_bytes([bytes[12], bytes[13], bytes[14], bytes[15]]), 0);
    assert_eq!(&bytes[20..24], b"SIZE");
    assert_eq!(u32::from_le_bytes([bytes[32], bytes[33], bytes[34], bytes[35]]), 2);
}

#[test]
fn scene_roundtrip_keeps_graph_and_palette() {
    let mut scene = Scene::from_single_model(VoxelModel::new(3, 3, 3).unwrap());
    scene.ensure_world_root();
    let id = scene.add_object("tree", VoxelModel::new(2, 2, 2).unwrap(), IVec3::new(-5, 7, 1));
    assert!(scene.set_hidden(id, true));
    let mut palette = Palette::magicavoxel_default();
    palette.set(200, ColorRgba::new(1, 2, 3, 4)).unwrap();
    let bytes = write_vox_scene(&scene, &palette).unwrap();
    let (s2, p2) = read_vox_scene(&bytes).unwrap();
    assert_eq!(p2.get(200), ColorRgba::new(1, 2, 3, 4));
    assert_eq!(s2.nodes.len(), scene.nodes.len());
    assert_eq!(s2.root, scene.root);
    assert_eq!(s2.next_id, id + 1);
    // the hidden object is not listed; the other one is
    let objs = s2.list_objects();
    assert_eq!(objs.len(), 1);
    let inst = s2.collect_instances();
    assert_eq!(inst.len(), 2);
    let t = inst.iter().find(|i| i.transform_id == id).unwrap();
    assert_eq!(t.name, "tree");
    assert_eq!(t.translation, IVec3::new(-5, 7, 1));
    assert!(t.hidden);
}

#[test]
fn bad_magic_is_refused() {
    assert!(matches!(read_vox(b"VOY \x96\x00\x00\x00"), Err(VoxError::BadMagic)));
    assert!(matches!(read_vox(b"VOX"), Err(VoxError::BadMagic)));
}

#[test]
fn unknown_version_is_refused() {
    let data = b"VOX \x07\x00\x00\x00MAIN\x00\x00\x00\x00\x00\x00\x00\x00";
    assert!(matches!(read_vox(data), Err(VoxError::BadVersion(7))));
}

#[test]
fn file_without_models_is_refused() {
    let data = b"VOX \x96\x00\x00\x00MAIN\x00\x00\x00\x00\x00\x00\x00\x00";
    match read_vox_scene(data) {
        Err(VoxError::Msg(m)) => assert_eq!(m, "no SIZE/XYZI model in file"),
        other => panic!("unexpected {:?}", other.map(|_| ())),
    }
}

#[test]
fn truncated_main_is_a_chunk_error() {
    let data = b"VOX \x96\x00\x00\x00MAIN\x00\x00\x00\x00\xff\x00\x00\x00";
    assert!(matches!(read_vox(data), Err(VoxError::BadChunk(ChunkKind::Main))));
    let data = b"VOX \x96\x00\x00\x00MAI";
    assert!(matches!(read_vox(data), Err(VoxError::BadChunk(ChunkKind::Header))));
}

#[test]
fn voxel_outside_its_size_is_a_core_error() {
    let mut data: Vec<u8> = b"VOX \x96\x00\x00\x00MAIN\x00\x00\x00\x00".to_vec();
    let mut children: Vec<u8> = Vec::new();
    children.extend_from_slice(b"SIZE\x0c\x00\x00\x00\x00\x00\x00\x00");
    children.extend_from_slice(&[2, 0, 0, 0, 2, 0, 0, 0, 2, 0, 0, 0]);
    children.extend_from_slice(b"XYZI\x08\x00\x00\x00\x00\x00\x00\x00");
    children.extend_from_slice(&[1, 0, 0, 0, 5, 0, 0, 9]);
    data.extend_from_slice(&(children.len() as u32).to_le_bytes());
    data.extend_from_slice(&children);
    match read_vox(&data) {
        Err(VoxError::Core(CoreError::OutOfBounds { x, y, z, .. })) => {
            assert_eq!((x, y, z), (5, 0, 0));
        }
        other => panic!("unexpected {:?}", other.map(|_| ())),
    }
}

#[test]
fn short_rgba_chunk_is_refused() {
    assert!(matches!(
        default_palette_from_bytes(&[0u8; 100]),
        Err(VoxError::BadChunk(ChunkKind::Rgba))
    ));
    let mut bytes = vec![0u8; 1024];
    bytes[0] = 11;
    bytes[1] = 22;
    bytes[2] = 33;
    bytes[3] = 44;
    let p = default_palette_from_bytes(&bytes).unwrap();
    assert_eq!(p.get(1), ColorRgba::new(11, 22, 33, 44));
    assert_eq!(p.get(0), Palette::magicavoxel_default().get(0));
}

#[test]
fn dict_roundtrip() {
    let mut out: Vec<u8> = Vec::new();
    write_dict(&mut out, &[("_name", "tree"), ("_hidden", "1")]);
    let mut off = 0usize;
    let d = read_dict(&out, &mut off).unwrap();
    assert_eq!(off, out.len());
    assert_eq!(d, vec![("_name".to_string(), "tree".to_string()), ("_hidden".to_string(), "1".to_string())]);
}

#[test]
fn string_with_invalid_utf8_reads_lossily() {
    let mut out: Vec<u8> = Vec::new();
    out.extend_from_slice(&3u32.to_le_bytes());
    out.extend_from_slice(&[b'a', 0xff, b'b']);
    let mut off = 0usize;
    let s = read_string(&out, &mut off).unwrap();
    assert_eq!(s, "a\u{fffd}b");
    assert_eq!(off, 7);
    let mut w: Vec<u8> = Vec::new();
    write_string(&mut w, "héllo");
    let mut o2 = 0usize;
    assert_eq!(read_string(&w, &mut o2).unwrap(), "héllo");
}

#[test]
fn negative_string_length_is_refused() {
    let data = (-1i32).to_le_bytes();
    let mut off = 0usize;
    assert!(matches!(read_string(&data, &mut off), Err(VoxError::BadChunk(ChunkKind::Str))));
}

#[test]
fn short_string_header_leaves_offset() {
    let data = [5u8, 0];
    let mut off = 0usize;
    assert!(matches!(read_string(&data, &mut off), Err(VoxError::BadChunk(ChunkKind::Str))));
    assert_eq!(off, 0);
}

#[test]
fn string_longer_than_data_moves_past_length() {
    let mut data = 10i32.to_le_bytes().to_vec();
    data.extend_from_slice(b"abc");
    let mut off = 0usize;
    assert!(matches!(read_string(&data, &mut off), Err(VoxError::BadChunk(ChunkKind::Str))));
    assert_eq!(off, 4);
}

#[test]
fn short_dict_header_leaves_offset() {
    let data = [1u8, 0, 0];
    let mut off = 1usize;
    assert!(matches!(read_dict(&data, &mut off), Err(VoxError::BadChunk(ChunkKind::Dict))));
    assert_eq!(off, 1);
}

fn file_with_chunk(id: &[u8; 4], content: &[u8]) -> Vec<u8> {
    let mut chunk = id.to_vec();
    chunk.extend_from_slice(&(content.len() as u32).to_le_bytes());
    chunk.extend_from_slice(&0u32.to_le_bytes());
    chunk.extend_from_slice(content);
    let mut data = b"VOX ".to_vec();
    data.extend_from_slice(&150u32.to_le_bytes());
    data.extend_from_slice(b"MAIN");
    data.extend_from_slice(&0u32.to_le_bytes());
    data.extend_from_slice(&(chunk.len() as u32).to_le_bytes());
    data.extend_from_slice(&chunk);
    data
}

#[test]
fn negative_group_child_count_is_a_chunk_error() {
    let mut c = 0i32.to_le_bytes().to_vec();
    c.extend_from_slice(&0i32.to_le_bytes());
    c.extend_from_slice(&(-1i32).to_le_bytes());
    let data = file_with_chunk(b"nGRP", &c);
    assert!(matches!(read_vox_scene(&data), Err(VoxError::BadChunk(ChunkKind::Group))));
}

#[test]
fn negative_shape_model_count_is_a_chunk_error() {
    let mut c = 0i32.to_le_bytes().to_vec();
    c.extend_from_slice(&0i32.to_le_bytes());
    c.extend_from_slice(&(-3i32).to_le_bytes());
    let data = file_with_chunk(b"nSHP", &c);
    assert!(matches!(read_vox_scene(&data), Err(VoxError::BadChunk(ChunkKind::Shape))));
}

#[test]
fn negative_attribute_string_length_is_a_chunk_error() {
    let mut c = 0i32.to_le_bytes().to_vec();
    c.extend_from_slice(&1i32.to_le_bytes());
    c.extend_from_slice(&(-2i32).to_le_bytes());
    let data = file_with_chunk(b"nTRN", &c);
    assert!(matches!(read_vox_scene(&data), Err(VoxError::BadChunk(ChunkKind::Str))));
}

#[test]
fn read_dict_keeps_the_last_value_of_a_repeated_key() {
    let mut out: Vec<u8> = Vec::new();
    write_dict(&mut out, &[("a", "1"), ("b", "2"), ("a", "3")]);
    let mut off = 0usize;
    let d = read_dict(&out, &mut off).unwrap();
    assert_eq!(d, vec![("b".to_string(), "2".to_string()), ("a".to_string(), "3".to_string())]);
    assert_eq!(off, out.len());
}
