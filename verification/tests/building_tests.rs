use std::collections::HashMap;

use opengeometry::base_types::{ConstructionRef, Id, JointType};
use opengeometry::building::{plan_joint, sorted_priority_entries, Building, JointAssembly, JointLayer, LayerRef};
use opengeometry::construction::{ConstructionSet, MatOrCompId};
use opengeometry::text::decimal_string;
use opengeometry::topology::Topology;

fn jl(priority: u64, class: u64, joint_type: &str) -> JointLayer {
    JointLayer { priority, class, joint_type: joint_type.to_string() }
}

fn lr(face: u32, layer_idx: usize, assembly_idx: usize) -> LayerRef {
    LayerRef { face_id: Id::new(face, 0), layer_idx, assembly_idx }
}

#[test]
fn priority_entries_are_stably_sorted() {
    let assemblies = vec![
        JointAssembly { face_id: Id::new(0, 0), is_ccw: true },
        JointAssembly { face_id: Id::new(1, 0), is_ccw: false },
    ];
    let layers = vec![vec![jl(1, 0, "a"), jl(3, 1, "a")], vec![jl(3, 1, "a"), jl(2, 0, "a")]];
    let entries = sorted_priority_entries(&assemblies, &layers);
    let got: Vec<(u64, LayerRef)> = entries;
    assert_eq!(got.len(), 4);
    assert!(got[0] == (3, lr(0, 1, 0)));
    assert!(got[1] == (3, lr(1, 0, 1)));
    assert!(got[2] == (2, lr(1, 1, 1)));
    assert!(got[3] == (1, lr(0, 0, 0)));
}

#[test]
fn two_mitred_layers_meet_in_a_mitre() {
    let faces = vec![Id::new(0, 0), Id::new(1, 0)];
    let assemblies = vec![
        JointAssembly { face_id: Id::new(0, 0), is_ccw: true },
        JointAssembly { face_id: Id::new(1, 0), is_ccw: false },
    ];
    let layers = vec![vec![jl(0, 0, "miter_joint")], vec![jl(0, 0, "miter_joint")]];
    let (actions, joints) = plan_joint(&faces, &assemblies, &layers);
    assert_eq!(actions.len(), 1);
    assert_eq!(actions[0].face_idx, 0);
    assert_eq!(actions[0].candidate_face_idx, 1);
    assert_eq!(actions[0].joint_type, JointType::Miter);
    assert_eq!(joints.len(), 1);
    assert!(joints[0] == (lr(0, 0, 0), lr(1, 0, 1)));
}

#[test]
fn other_layers_meet_in_a_double_butt() {
    let faces = vec![Id::new(0, 0), Id::new(1, 0)];
    let assemblies = vec![
        JointAssembly { face_id: Id::new(0, 0), is_ccw: true },
        JointAssembly { face_id: Id::new(1, 0), is_ccw: false },
    ];
    let layers = vec![vec![jl(0, 0, "miter_joint")], vec![jl(0, 0, "butt_joint")]];
    let (actions, joints) = plan_joint(&faces, &assemblies, &layers);
    assert_eq!(actions.len(), 1);
    assert_eq!(actions[0].joint_type, JointType::DoubleButt);
    assert!(joints[0] == (lr(0, 0, 0), lr(1, 0, 1)));
}

#[test]
fn lower_priority_butts_against_higher() {
    let faces = vec![Id::new(0, 0), Id::new(1, 0)];
    let assemblies = vec![
        JointAssembly { face_id: Id::new(0, 0), is_ccw: true },
        JointAssembly { face_id: Id::new(1, 0), is_ccw: true },
    ];
    // Different priority classes: the high layer finds no partner of its
    // class on the other face and settles on itself; the low layer butts.
    let layers = vec![vec![jl(2, 1, "miter_joint")], vec![jl(1, 0, "miter_joint")]];
    let (actions, joints) = plan_joint(&faces, &assemblies, &layers);
    assert_eq!(actions.len(), 2);
    assert_eq!(actions[0].joint_type, JointType::Miter);
    assert_eq!((actions[0].face_idx, actions[0].candidate_face_idx), (0, 0));
    assert_eq!(actions[1].joint_type, JointType::Butt);
    assert_eq!((actions[1].face_idx, actions[1].candidate_face_idx), (1, 0));
    assert_eq!((actions[1].layer_idx, actions[1].candidate_layer_idx), (0, 0));
    assert!(joints[1] == (lr(1, 0, 1), lr(0, 0, 0)));
}

#[test]
fn face_indices_come_from_the_edge_order() {
    let faces = vec![Id::new(7, 0), Id::new(4, 0)];
    let assemblies = vec![
        JointAssembly { face_id: Id::new(4, 0), is_ccw: true },
        JointAssembly { face_id: Id::new(7, 0), is_ccw: false },
    ];
    let layers = vec![vec![jl(0, 0, "miter_joint")], vec![jl(0, 0, "miter_joint")]];
    let (actions, _) = plan_joint(&faces, &assemblies, &layers);
    assert_eq!((actions[0].face_idx, actions[0].candidate_face_idx), (1, 0));
}

#[test]
fn decimal_strings() {
    assert_eq!(decimal_string(0), "0");
    assert_eq!(decimal_string(7), "7");
    assert_eq!(decimal_string(1204), "1204");
}

fn small_building_parts(construction: ConstructionRef) -> (Topology<[f64; 3], String, f64>, ConstructionSet<f64>) {
    let mut cs = ConstructionSet::new();
    let m = cs.add_material("m".to_string(), "M".to_string(), 1.0, 1.0, 1.0, HashMap::new());
    let l1 = cs.add_layer("l1".to_string(), "L1".to_string(), MatOrCompId::Material(m), 0.1, 1.0, "miter_joint".to_string(), HashMap::new());
    let l2 = cs.add_layer("l2".to_string(), "L2".to_string(), MatOrCompId::Material(m), 0.2, 2.0, "miter_joint".to_string(), HashMap::new());
    cs.add_layer_group("wall".to_string(), "Wall".to_string(), vec![l1, l2], vec![0.0, 0.1]);
    let mut t = Topology::new();
    let e1 = t.add_edge("e1".to_string(), HashMap::new());
    let e2 = t.add_edge("e2".to_string(), HashMap::new());
    let e3 = t.add_edge("e3".to_string(), HashMap::new());
    let f = t.add_face("f".to_string(), construction, "wall".to_string(), "frame".to_string(), HashMap::new());
    for e in [e1, e2, e3] {
        t.connect_face_edge(f, e).unwrap();
    }
    (t, cs)
}

#[test]
fn building_resolves_faces_and_zeroes_offsets() {
    let (t, cs) = small_building_parts(ConstructionRef::Uuid("wall".to_string()));
    let b = Building::from_data(t, cs, 0.0).ok().unwrap();
    let f = b.topology.face(Id::new(0, 0)).unwrap();
    assert_eq!(f.layer_group_id, Some(Id::new(0, 0)));
    assert!(matches!(f.construction, ConstructionRef::Id(id) if id == Id::new(0, 0)));
    assert_eq!(f.inner_edge_offsets, vec![vec![0.0; 3]; 2]);
    assert_eq!(f.outer_edge_offsets, vec![vec![0.0; 3]; 2]);
    assert_eq!(b.face_ids(), vec![Id::new(0, 0)]);
    assert_eq!(b.edge_ids().len(), 3);
}

#[test]
fn building_rejects_unknown_layer_group() {
    let (t, cs) = small_building_parts(ConstructionRef::Uuid("roof".to_string()));
    assert_eq!(Building::from_data(t, cs, 0.0).err(), Some("Layer group not found".to_string()));
}
