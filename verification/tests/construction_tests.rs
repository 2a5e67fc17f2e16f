use std::collections::HashMap;

use opengeometry::base_types::Id;
use opengeometry::construction::{
    ConstructionCompositeData, ConstructionLayerData, ConstructionLayerGroupData, ConstructionMaterialData,
    ConstructionSet, ConstructionSetData, MatOrCompId,
};

type CSet = ConstructionSet<f64>;

fn material(name: &str) -> ConstructionMaterialData<f64> {
    ConstructionMaterialData {
        name: name.to_string(),
        density: 2400.0,
        heat_transfer_coefficient: 1.5,
        specific_heat_capacity: 880.0,
        dictionary: HashMap::new(),
    }
}

fn composite(part1: &str, part2: &str) -> ConstructionCompositeData<f64> {
    ConstructionCompositeData {
        name: "mix".to_string(),
        part1: part1.to_string(),
        part2: part2.to_string(),
        part1_fraction: 0.25,
        part2_fraction: 0.75,
        dictionary: HashMap::new(),
    }
}

fn layer(material: &str, priority: f64) -> ConstructionLayerData<f64> {
    ConstructionLayerData {
        name: "layer".to_string(),
        material: material.to_string(),
        thickness: 0.1,
        priority,
        joint_type: "miter_joint".to_string(),
        dictionary: HashMap::new(),
    }
}

fn group(layers: &[&str], offsets: &[f64]) -> ConstructionLayerGroupData<f64> {
    ConstructionLayerGroupData {
        name: "group".to_string(),
        layers: layers.iter().map(|s| s.to_string()).collect(),
        layer_offsets: offsets.to_vec(),
    }
}

fn sample() -> ConstructionSetData<f64> {
    ConstructionSetData {
        materials: vec![("concrete".to_string(), material("Concrete")), ("wood".to_string(), material("Wood"))],
        composites: vec![
            ("c1".to_string(), composite("concrete", "wood")),
            ("c2".to_string(), composite("c1", "wood")),
        ],
        layers: vec![("core".to_string(), layer("concrete", 2.0)), ("skin".to_string(), layer("c2", 1.0))],
        layer_groups: vec![("wall".to_string(), group(&["skin", "core", "skin"], &[0.0, 0.02, 0.22]))],
    }
}

#[test]
fn from_data_resolves_references() {
    let cs: CSet = ConstructionSet::from_data(sample()).ok().unwrap();
    assert_eq!(cs.material_ids(), vec![Id::new(0, 0), Id::new(1, 0)]);
    assert_eq!(cs.material(Id::new(1, 0)).unwrap().name, "Wood");
    let c2 = cs.composite(Id::new(1, 0)).unwrap();
    assert!(c2.part1 == MatOrCompId::Composite(Id::new(0, 0)));
    assert!(c2.part2 == MatOrCompId::Material(Id::new(1, 0)));
    let skin = cs.layer(Id::new(1, 0)).unwrap();
    assert!(skin.material == MatOrCompId::Composite(Id::new(1, 0)));
    assert_eq!(skin.priority, 1.0);
    let wall = cs.layer_group(Id::new(0, 0)).unwrap();
    assert_eq!(wall.layers, vec![Id::new(1, 0), Id::new(0, 0), Id::new(1, 0)]);
    assert_eq!(wall.layer_offsets, vec![0.0, 0.02, 0.22]);
    assert_eq!(cs.layer_group_by_uuid("wall"), Some(Id::new(0, 0)));
    assert_eq!(cs.layer_group_by_uuid("roof"), None);
}

#[test]
fn composite_part_must_be_known_before_use() {
    let mut data = sample();
    data.composites.swap(0, 1);
    assert_eq!(
        CSet::from_data(data).err(),
        Some("unknown material or composite: c1".to_string())
    );
}

#[test]
fn material_resolution_prefers_materials() {
    let mut data = sample();
    data.composites.push(("wood".to_string(), composite("concrete", "concrete")));
    data.layers[0].1.material = "wood".to_string();
    let cs: CSet = ConstructionSet::from_data(data).ok().unwrap();
    assert!(cs.layer(Id::new(0, 0)).unwrap().material == MatOrCompId::Material(Id::new(1, 0)));
}

#[test]
fn unknown_layer_material() {
    let mut data = sample();
    data.layers[1].1.material = "steel".to_string();
    assert_eq!(CSet::from_data(data).err(), Some("unknown material or composite: steel".to_string()));
}

#[test]
fn layer_group_count_mismatch() {
    let mut data = sample();
    data.layer_groups[0].1.layer_offsets.pop();
    assert_eq!(
        CSet::from_data(data).err(),
        Some("layer group wall has 3 layers but 2 layer offsets".to_string())
    );
}

#[test]
fn layer_group_unknown_layer() {
    let mut data = sample();
    data.layer_groups[0].1.layers[1] = "insulation".to_string();
    assert_eq!(CSet::from_data(data).err(), Some("unknown layer: insulation".to_string()));
}

#[test]
fn add_and_look_up() {
    let mut cs: CSet = ConstructionSet::new();
    let m = cs.add_material("m".to_string(), "M".to_string(), 1.0, 2.0, 3.0, HashMap::new());
    let c = cs.add_composite(
        "c".to_string(),
        "C".to_string(),
        MatOrCompId::Material(m),
        MatOrCompId::Material(m),
        0.5,
        0.5,
        HashMap::new(),
    );
    let l = cs.add_layer(
        "l".to_string(),
        "L".to_string(),
        MatOrCompId::Composite(c),
        0.2,
        3.0,
        "butt".to_string(),
        HashMap::new(),
    );
    let g = cs.add_layer_group("g".to_string(), "G".to_string(), vec![l], vec![0.0]);
    assert_eq!(cs.composite_ids(), vec![c]);
    assert_eq!(cs.layer_ids(), vec![l]);
    assert_eq!(cs.layer_group_ids(), vec![g]);
    assert_eq!(cs.material(m).unwrap().density, 1.0);
    assert_eq!(cs.layer(l).unwrap().joint_type, "butt");
    assert_eq!(cs.layer_group_by_uuid("g"), Some(g));
    assert!(cs.material(Id::new(0, 1)).is_none());
}
