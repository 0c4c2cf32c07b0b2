use voxel::layer::{Layer, LayerTable};
use voxel::material::{MaterialKind, MaterialTable};
use voxel::CoreError;

#[test]
fn standard_layers_and_lookup() {
    let mut t = LayerTable::standard_eight();
    assert_eq!(t.layers.len(), 8);
    assert!(t.get(3).is_some());
    assert!(t.get(8).is_none());
    assert!(!t.is_hidden(3));
    assert!(t.set_hidden(3, true));
    assert!(t.is_hidden(3));
    // root transforms use layer -1, never hidden by a layer
    assert!(!t.is_hidden(-1));
    if let Some(l) = t.get_mut(5) {
        l.name = "props".to_string();
    }
    assert_eq!(t.get(5).unwrap().name, "props");
    assert!(t.get_mut(42).is_none());
}

#[test]
fn layers_sort_by_id_keeping_ties_in_order() {
    let mut a = Layer::new(4);
    a.name = "first".to_string();
    let mut b = Layer::new(4);
    b.name = "second".to_string();
    let t = LayerTable::from_layers(vec![Layer::new(9), a, Layer::new(1), b]);
    let ids: Vec<i32> = t.layers.iter().map(|l| l.id).collect();
    assert_eq!(ids, vec![1, 4, 4, 9]);
    assert_eq!(t.layers[1].name, "first");
    assert_eq!(t.layers[2].name, "second");
    // the first layer with an id is the one found
    assert_eq!(t.get(4).unwrap().name, "first");
}

#[test]
fn layer_display_name() {
    let mut l = Layer::new(12);
    assert_eq!(l.name, "12");
    assert_eq!(l.color, [180, 180, 180]);
    assert_eq!(Layer::new(1).color, [220, 90, 90]);
    assert_eq!(l.display_name(), "12");
    l.name = String::new();
    assert_eq!(l.display_name(), "Layer 12");
    l.name = "sky".to_string();
    assert_eq!(l.display_name(), "sky");
}

#[test]
fn material_slots() {
    let mut m = MaterialTable::new();
    assert!(m.get(7).is_empty());
    assert!(matches!(m.set(0, Vec::new()), Err(CoreError::InvalidColor(0))));
    m.set(7, vec![("_type".to_string(), "_glass".to_string())]).unwrap();
    m.get_mut(7).push(("_weight".to_string(), "0.5".to_string()));
    assert_eq!(m.get(7).len(), 2);
    assert_eq!(m.iter_non_default(), vec![7u8]);
    m.insert_id(300, vec![("_type".to_string(), "_metal".to_string())]);
    m.insert_id(0, vec![("_type".to_string(), "_metal".to_string())]);
    assert_eq!(m.iter_non_default(), vec![7u8]);
    assert_eq!(MaterialKind::from_vox(m.get(7)[0].1.as_str()), MaterialKind::Glass);
}

#[test]
fn material_kind_names() {
    assert_eq!(MaterialKind::from_vox("  _Metal "), MaterialKind::Metal);
    assert_eq!(MaterialKind::from_vox("emissive"), MaterialKind::Emit);
    assert_eq!(MaterialKind::from_vox("plastic"), MaterialKind::Diffuse);
    assert_eq!(MaterialKind::Media.to_vox(), "_media");
    assert_eq!(MaterialKind::Emit.label(), "Emit");
    assert!(MaterialKind::Glass.is_transparent());
    assert!(!MaterialKind::Metal.is_transparent());
}

#[test]
fn material_kind_names_read_back() {
    let kinds = [
        MaterialKind::Diffuse,
        MaterialKind::Metal,
        MaterialKind::Glass,
        MaterialKind::Emit,
        MaterialKind::Blend,
        MaterialKind::Media,
    ];
    for k in kinds {
        assert_eq!(MaterialKind::from_vox(k.to_vox()), k);
        assert_eq!(MaterialKind::from_vox(k.label()), k);
    }
    assert_eq!(MaterialKind::Metal.to_vox(), "_metal");
    assert_eq!(MaterialKind::Emit.label(), "Emit");
    assert_eq!(MaterialKind::from_vox(" _METAL "), MaterialKind::Metal);
}
