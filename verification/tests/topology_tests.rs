use std::collections::HashMap;

use opengeometry::base_types::{ConstructionRef, Id};
use opengeometry::topology::{
    faces_are_readable, Topology, TopologyCellData, TopologyData, TopologyEdgeData, TopologyFaceData, TopologyVertData,
};

type Topo = Topology<[f64; 3], String, f64>;

fn uuid(s: &str) -> String {
    s.to_string()
}

fn vert_data(x: f64) -> TopologyVertData<[f64; 3]> {
    TopologyVertData { coords: [x, 0.0, 0.0], edges: Vec::new(), dictionary: HashMap::new() }
}

fn edge_data(verts: &[&str]) -> TopologyEdgeData {
    TopologyEdgeData { verts: verts.iter().map(|s| s.to_string()).collect(), faces: Vec::new(), dictionary: HashMap::new() }
}

fn face_data(verts: &[&str], edges: &[&str]) -> TopologyFaceData<String> {
    TopologyFaceData {
        verts: verts.iter().map(|s| s.to_string()).collect(),
        edges: edges.iter().map(|s| s.to_string()).collect(),
        cells: Vec::new(),
        construction: "wall".to_string(),
        face_type: "wall".to_string(),
        uvn: "axes".to_string(),
        dictionary: HashMap::new(),
    }
}

fn frame_of(p: &[f64; 3], uvn: &String) -> String {
    format!("{}@{}", uvn, p[0])
}

fn triangle() -> TopologyData<[f64; 3], String> {
    TopologyData {
        verts: vec![(uuid("a"), vert_data(1.0)), (uuid("b"), vert_data(2.0)), (uuid("c"), vert_data(3.0))],
        edges: vec![
            (uuid("ab"), edge_data(&["a", "b"])),
            (uuid("bc"), edge_data(&["b", "c"])),
            (uuid("ca"), edge_data(&["c", "a", "c"])),
        ],
        faces: vec![(uuid("f"), face_data(&["b", "a", "c"], &["ab", "bc", "ca", "ab"]))],
        cells: vec![(uuid("cell"), TopologyCellData { faces: vec![uuid("f")], dictionary: HashMap::new() })],
    }
}

#[test]
fn add_elements_start_unlinked() {
    let mut t: Topo = Topology::new();
    let v = t.add_vert(uuid("v"), [0.0, 1.0, 2.0], HashMap::new());
    let e = t.add_edge(uuid("e"), HashMap::new());
    let f = t.add_face(uuid("f"), ConstructionRef::Uuid(uuid("g")), uuid("wall"), uuid("frame"), HashMap::new());
    let c = t.add_cell(uuid("c"), HashMap::new());
    assert_eq!((v, e, f, c), (Id::new(0, 0), Id::new(0, 0), Id::new(0, 0), Id::new(0, 0)));
    assert_eq!(t.vert(v).unwrap().coords, [0.0, 1.0, 2.0]);
    assert!(t.vert(v).unwrap().edges.is_empty());
    assert!(t.edge(e).unwrap().verts.is_empty());
    let face = t.face(f).unwrap();
    assert!(face.layer_group_id.is_none());
    assert!(face.inner_edge_offsets.is_empty());
    assert_eq!(face.frame, "frame");
    assert!(t.cell(c).unwrap().faces.is_empty());
    assert_eq!(t.vert_ids(), vec![v]);
}

#[test]
fn connect_edge_vert_links_both_ways_once() {
    let mut t: Topo = Topology::new();
    let v = t.add_vert(uuid("v"), [0.0; 3], HashMap::new());
    let e = t.add_edge(uuid("e"), HashMap::new());
    assert_eq!(t.connect_edge_vert(e, v), Ok(()));
    assert_eq!(t.connect_edge_vert(e, v), Ok(()));
    assert_eq!(t.edge(e).unwrap().verts, vec![v]);
    assert_eq!(t.vert(v).unwrap().edges, vec![e]);
}

#[test]
fn connect_edge_vert_errors() {
    let mut t: Topo = Topology::new();
    let e = t.add_edge(uuid("e"), HashMap::new());
    let ghost = Id::new(5, 0);
    assert_eq!(t.connect_edge_vert(ghost, ghost), Err("invalid edge"));
    assert_eq!(t.connect_edge_vert(e, ghost), Err("invalid vert"));
    // The edge is updated before the vertex is looked up.
    assert_eq!(t.edge(e).unwrap().verts, vec![ghost]);
}

#[test]
fn connect_face_edge_and_errors() {
    let mut t: Topo = Topology::new();
    let e = t.add_edge(uuid("e"), HashMap::new());
    let f = t.add_face(uuid("f"), ConstructionRef::Id(Id::new(0, 0)), uuid("wall"), uuid("frame"), HashMap::new());
    assert_eq!(t.connect_face_edge(f, e), Ok(()));
    assert_eq!(t.face(f).unwrap().edges, vec![e]);
    assert_eq!(t.edge(e).unwrap().faces, vec![f]);
    assert_eq!(t.connect_face_edge(Id::new(0, 1), e), Err("invalid face"));
    assert_eq!(t.connect_face_edge(f, Id::new(9, 9)), Err("invalid edge"));
}

#[test]
fn connect_face_vert_is_one_way() {
    let mut t: Topo = Topology::new();
    let v = t.add_vert(uuid("v"), [0.0; 3], HashMap::new());
    let f = t.add_face(uuid("f"), ConstructionRef::Id(Id::new(0, 0)), uuid("wall"), uuid("frame"), HashMap::new());
    assert_eq!(t.connect_face_vert(f, v), Ok(()));
    assert_eq!(t.face(f).unwrap().verts, vec![v]);
    assert!(t.vert(v).unwrap().edges.is_empty());
    assert_eq!(t.connect_face_vert(Id::new(3, 0), v), Err("invalid face"));
}

#[test]
fn connect_cell_face_and_errors() {
    let mut t: Topo = Topology::new();
    let f = t.add_face(uuid("f"), ConstructionRef::Id(Id::new(0, 0)), uuid("wall"), uuid("frame"), HashMap::new());
    let c = t.add_cell(uuid("c"), HashMap::new());
    assert_eq!(t.connect_cell_face(c, f), Ok(()));
    assert_eq!(t.cell(c).unwrap().faces, vec![f]);
    assert_eq!(t.face(f).unwrap().cells, vec![c]);
    assert_eq!(t.connect_cell_face(Id::new(1, 0), f), Err("invalid cell"));
    assert_eq!(t.connect_cell_face(c, Id::new(1, 0)), Err("invalid face"));
}

#[test]
fn from_data_builds_linked_complex() {
    let t: Topo = Topology::from_data(triangle(), frame_of).ok().unwrap();
    let (a, b, c) = (Id::new(0, 0), Id::new(1, 0), Id::new(2, 0));
    let (ab, bc, ca) = (Id::new(0, 0), Id::new(1, 0), Id::new(2, 0));
    assert_eq!(t.vert_ids(), vec![a, b, c]);
    assert_eq!(t.vert(a).unwrap().edges, vec![ab, ca]);
    assert_eq!(t.vert(b).unwrap().edges, vec![ab, bc]);
    assert_eq!(t.edge(ca).unwrap().verts, vec![c, a]);
    let face = t.face(Id::new(0, 0)).unwrap();
    assert_eq!(face.verts, vec![b, a, c]);
    assert_eq!(face.edges, vec![ab, bc, ca]);
    assert_eq!(face.cells, vec![Id::new(0, 0)]);
    assert_eq!(face.frame, "axes@2");
    assert!(matches!(&face.construction, ConstructionRef::Uuid(u) if u == "wall"));
    assert_eq!(t.edge(bc).unwrap().faces, vec![Id::new(0, 0)]);
    assert_eq!(t.cell(Id::new(0, 0)).unwrap().faces, vec![Id::new(0, 0)]);
    // Both directions agree.
    for v in t.vert_ids() {
        for e in t.edge_ids() {
            assert_eq!(t.vert(v).unwrap().edges.contains(&e), t.edge(e).unwrap().verts.contains(&v));
        }
    }
}

#[test]
fn from_data_reports_unknown_vertex_of_edge() {
    let mut data = triangle();
    data.edges[1].1.verts[1] = uuid("zz");
    assert_eq!(Topo::from_data(data, frame_of).err(), Some("unknown vertex: zz".to_string()));
}

#[test]
fn from_data_reports_unknown_first_vertex_of_face() {
    let mut data = triangle();
    data.faces[0].1.verts[0] = uuid("q");
    data.faces[0].1.edges[0] = uuid("nope");
    assert_eq!(Topo::from_data(data, frame_of).err(), Some("unknown vertex: q".to_string()));
}

#[test]
fn from_data_reports_unknown_edge_then_vertex_of_face() {
    let mut data = triangle();
    data.faces[0].1.edges[2] = uuid("nope");
    data.faces[0].1.verts[2] = uuid("q");
    assert_eq!(Topo::from_data(data, frame_of).err(), Some("unknown edge: nope".to_string()));
    let mut data = triangle();
    data.faces[0].1.verts[2] = uuid("q");
    assert_eq!(Topo::from_data(data, frame_of).err(), Some("unknown vertex: q".to_string()));
}

#[test]
fn from_data_reports_unknown_face_of_cell() {
    let mut data = triangle();
    data.cells[0].1.faces.push(uuid("g"));
    assert_eq!(Topo::from_data(data, frame_of).err(), Some("unknown face: g".to_string()));
}

#[test]
fn from_data_later_duplicate_uuid_wins() {
    let mut data = triangle();
    data.verts.push((uuid("a"), vert_data(9.0)));
    let t: Topo = Topology::from_data(data, frame_of).ok().unwrap();
    assert_eq!(t.edge(Id::new(0, 0)).unwrap().verts, vec![Id::new(3, 0), Id::new(1, 0)]);
    assert!(t.vert(Id::new(0, 0)).unwrap().edges.is_empty());
}

#[test]
fn faces_readable_only_where_the_read_reaches() {
    let mut data = triangle();
    assert!(faces_are_readable(&data));
    data.faces.push((uuid("g"), face_data(&[], &[])));
    assert!(!faces_are_readable(&data));
    // A face naming an unknown edge stops the read before the empty face.
    data.faces[0].1.edges.push(uuid("nowhere"));
    assert!(faces_are_readable(&data));
    data.faces[0].1.edges.pop();
    assert!(!faces_are_readable(&data));
    // An edge naming an unknown vertex stops the read before any face.
    data.edges.push((uuid("e9"), edge_data(&["nowhere"])));
    assert!(faces_are_readable(&data));
}
