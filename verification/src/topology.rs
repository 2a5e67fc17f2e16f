use vstd::prelude::*;
use crate::arena::Arena;
use crate::base_types::{ConstructionRef, Dictionary, EdgeOffsets, Id};
use crate::id_list::{
    dedup, lemma_dedup_contains, lemma_dedup_step, lemma_sources_linking_contains, lemma_sources_linking_below, lemma_lists_upto_done,
    lemma_sources_linking_start, lemma_sources_linking_step, lemma_with_id_no_duplicates, lists_upto,
    push_unique, sources_linking, with_id,
};
use crate::text::{
    all_known, concat_str, first_unresolved, key_known, lemma_first_unresolved_range, fresh_table, id_of_uuid, keys_of, lookup_uuid, nth_fresh_id, record_uuid,
    table_view, is_fresh_id_below, last_index_below, lemma_last_index_below,
};

verus! {

/// A vertex of the cell complex: where it is (`coords`, of the point type
/// `P`) and the edges that use it.
pub struct TopologyVert<P> {
    pub uuid: String,
    pub coords: P,
    pub edges: Vec<Id>,
    pub dictionary: Dictionary,
}

/// An edge: the vertices it joins and the faces it bounds.
pub struct TopologyEdge {
    pub uuid: String,
    pub verts: Vec<Id>,
    pub faces: Vec<Id>,
    pub dictionary: Dictionary,
}

/// A face: its boundary vertices and edges, the cells it bounds, its
/// construction, its frame (of the frame type `W`) and, per construction
/// layer and boundary edge, the offsets (of the scalar type `N`) of the
/// layer's inner and outer outline.
pub struct TopologyFace<W, N> {
    pub uuid: String,
    pub verts: Vec<Id>,
    pub edges: Vec<Id>,
    pub cells: Vec<Id>,
    pub construction: ConstructionRef,
    pub layer_group_id: Option<Id>,
    pub inner_edge_offsets: EdgeOffsets<N>,
    pub outer_edge_offsets: EdgeOffsets<N>,
    pub face_type: String,
    pub frame: W,
    pub dictionary: Dictionary,
}

impl<W, N> TopologyFace<W, N> {
    /// Every field but `edges` equals that of `other`.
    pub open spec fn same_except_edges(&self, other: Self) -> bool {
        &&& self.verts == other.verts && self.cells == other.cells
        &&& self.same_attributes(other)
    }

    /// Every field but `verts` equals that of `other`.
    pub open spec fn same_except_verts(&self, other: Self) -> bool {
        &&& self.edges == other.edges && self.cells == other.cells
        &&& self.same_attributes(other)
    }

    /// Every field but `cells` equals that of `other`.
    pub open spec fn same_except_cells(&self, other: Self) -> bool {
        &&& self.verts == other.verts && self.edges == other.edges
        &&& self.same_attributes(other)
    }

    /// The fields other than the three adjacency lists equal those of `other`.
    pub open spec fn same_attributes(&self, other: Self) -> bool {
        &&& self.uuid == other.uuid
        &&& self.construction == other.construction
        &&& self.layer_group_id == other.layer_group_id
        &&& self.inner_edge_offsets == other.inner_edge_offsets
        &&& self.outer_edge_offsets == other.outer_edge_offsets
        &&& self.face_type == other.face_type
        &&& self.frame == other.frame
        &&& self.dictionary == other.dictionary
    }
}

/// A cell: the faces that bound it.
pub struct TopologyCell {
    pub uuid: String,
    pub faces: Vec<Id>,
    pub dictionary: Dictionary,
}

/// A vertex as read: its position and user data.
pub struct TopologyVertData<P> {
    pub coords: P,
    pub edges: Vec<String>,
    pub dictionary: Dictionary,
}

/// An edge as read: the uuids of the vertices it joins.
pub struct TopologyEdgeData {
    pub verts: Vec<String>,
    pub faces: Vec<String>,
    pub dictionary: Dictionary,
}

/// A face as read: the uuids of its boundary vertices and edges, its
/// construction's uuid, its type and its frame axes (of type `U`).
pub struct TopologyFaceData<U> {
    pub verts: Vec<String>,
    pub edges: Vec<String>,
    pub cells: Vec<String>,
    pub construction: String,
    pub face_type: String,
    pub uvn: U,
    pub dictionary: Dictionary,
}


pub struct TopologyCellData {
    pub faces: Vec<String>,
    pub dictionary: Dictionary,
}

/// A cell complex as read: each kind of element keyed by uuid, in the order
/// in which they are to be added.
pub struct TopologyData<P, U> {
    pub verts: Vec<(String, TopologyVertData<P>)>,
    pub edges: Vec<(String, TopologyEdgeData)>,
    pub faces: Vec<(String, TopologyFaceData<U>)>,
    pub cells: Vec<(String, TopologyCellData)>,
}

/// The ids that `names` resolve to, when every one of them resolves.
pub open spec fn resolved(keys: Seq<Seq<char>>, names: Seq<String>) -> Seq<Id> {
    names.map_values(|n: String| id_of_uuid(keys, n@, keys.len() as int)->0)
}

/// Per edge, the vertex ids its vertex uuids resolve to.
pub open spec fn edge_vert_lists<P, U>(data: TopologyData<P, U>) -> Seq<Seq<Id>> {
    data.edges@.map_values(|e: (String, TopologyEdgeData)| resolved(keys_of(data.verts@), e.1.verts@))
}

/// Per face, the edge ids its edge uuids resolve to.
pub open spec fn face_edge_lists<P, U>(data: TopologyData<P, U>) -> Seq<Seq<Id>> {
    data.faces@.map_values(|f: (String, TopologyFaceData<U>)| resolved(keys_of(data.edges@), f.1.edges@))
}

/// Per face, the vertex ids its vertex uuids resolve to.
pub open spec fn face_vert_lists<P, U>(data: TopologyData<P, U>) -> Seq<Seq<Id>> {
    data.faces@.map_values(|f: (String, TopologyFaceData<U>)| resolved(keys_of(data.verts@), f.1.verts@))
}

/// Per cell, the face ids its face uuids resolve to.
pub open spec fn cell_face_lists<P, U>(data: TopologyData<P, U>) -> Seq<Seq<Id>> {
    data.cells@.map_values(|c: (String, TopologyCellData)| resolved(keys_of(data.faces@), c.1.faces@))
}

pub open spec fn unknown_vertex_message(key: Seq<char>) -> Seq<char> {
    "unknown vertex: "@ + key
}

pub open spec fn unknown_edge_message(key: Seq<char>) -> Seq<char> {
    "unknown edge: "@ + key
}

pub open spec fn unknown_face_message(key: Seq<char>) -> Seq<char> {
    "unknown face: "@ + key
}

/// The first error among edges `j..`: a vertex uuid that names no vertex.
pub open spec fn edge_error<P, U>(data: TopologyData<P, U>, j: int) -> Option<Seq<char>>
    decreases data.edges@.len() - j,
{
    if j < 0 || j >= data.edges@.len() {
        None
    } else {
        let names = data.edges@[j].1.verts@;
        let u = first_unresolved(keys_of(data.verts@), names, 0);
        if u >= 0 {
            Some(unknown_vertex_message(names[u]@))
        } else {
            edge_error(data, j + 1)
        }
    }
}

/// The error of face `f`, if any: its first vertex names no vertex, or one
/// of its edge uuids names no edge, or one of its vertex uuids names no
/// vertex, checked in that order.
pub open spec fn face_fault<P, U>(data: TopologyData<P, U>, f: int) -> Option<Seq<char>> {
    let fd = data.faces@[f].1;
    let vkeys = keys_of(data.verts@);
    let u = first_unresolved(keys_of(data.edges@), fd.edges@, 0);
    let w = first_unresolved(vkeys, fd.verts@, 0);
    if id_of_uuid(vkeys, fd.verts@[0]@, vkeys.len() as int) is None {
        Some(unknown_vertex_message(fd.verts@[0]@))
    } else if u >= 0 {
        Some(unknown_edge_message(fd.edges@[u]@))
    } else if w >= 0 {
        Some(unknown_vertex_message(fd.verts@[w]@))
    } else {
        None
    }
}

/// The first error among faces `f..`.
pub open spec fn face_error<P, U>(data: TopologyData<P, U>, f: int) -> Option<Seq<char>>
    decreases data.faces@.len() - f,
{
    if f < 0 || f >= data.faces@.len() {
        None
    } else if face_fault(data, f) is Some {
        face_fault(data, f)
    } else {
        face_error(data, f + 1)
    }
}

/// The first error among cells `c..`: a face uuid that names no face.
pub open spec fn cell_error<P, U>(data: TopologyData<P, U>, c: int) -> Option<Seq<char>>
    decreases data.cells@.len() - c,
{
    if c < 0 || c >= data.cells@.len() {
        None
    } else {
        let names = data.cells@[c].1.faces@;
        let u = first_unresolved(keys_of(data.faces@), names, 0);
        if u >= 0 {
            Some(unknown_face_message(names[u]@))
        } else {
            cell_error(data, c + 1)
        }
    }
}

/// The first error in a cell complex's data, in the order in which it is
/// read: edges, then faces, then cells.
pub open spec fn topology_error<P, U>(data: TopologyData<P, U>) -> Option<Seq<char>> {
    match edge_error(data, 0) {
        Some(e) => Some(e),
        None => match face_error(data, 0) {
            Some(e) => Some(e),
            None => cell_error(data, 0),
        },
    }
}

/// Every face that is read before an error stops the reading names at
/// least one vertex (reading the first vertex of a face with none fails).
pub open spec fn faces_readable<P, U>(data: TopologyData<P, U>) -> bool {
    forall|f: int|
        0 <= f < data.faces@.len() && edge_error(data, 0) is None && (forall|g: int|
            0 <= g < f ==> #[trigger] face_fault(data, g) is None) ==> #[trigger] data.faces@[f].1.verts@.len() > 0
}

/// Whether reading `data` reads only faces that name a vertex: the test that
/// a caller makes before [`Topology::from_data`], whose reading fails on the
/// first vertex of a face that names none.
pub fn faces_are_readable<P, U>(data: &TopologyData<P, U>) -> (r: bool)
    ensures
        r == faces_readable(*data),
{
    let mut j: usize = 0;
    while j < data.edges.len()
        invariant
            j <= data.edges@.len(),
            edge_error(*data, 0) == edge_error(*data, j as int),
        decreases data.edges@.len() - j,
    {
        if !all_known(&data.verts, &data.edges[j].1.verts) {
            proof {
                lemma_first_unresolved_range(keys_of(data.verts@), data.edges@[j as int].1.verts@, 0);
                assert(edge_error(*data, j as int) is Some);
            }
            return true;
        }
        j = j + 1;
    }
    let mut f: usize = 0;
    while f < data.faces.len()
        invariant
            f <= data.faces@.len(),
            edge_error(*data, 0) is None,
            forall|g: int| 0 <= g < f ==> #[trigger] face_fault(*data, g) is None,
            forall|g: int| 0 <= g < f ==> (#[trigger] data.faces@[g]).1.verts@.len() > 0,
        decreases data.faces@.len() - f,
    {
        let face = &data.faces[f].1;
        if face.verts.len() == 0 {
            proof {
                assert(!faces_readable(*data)) by {
                    assert(data.faces@[f as int].1.verts@.len() == 0);
                }
            }
            return false;
        }
        let known = key_known(&data.verts, face.verts[0].as_str()) && all_known(&data.edges, &face.edges)
            && all_known(&data.verts, &face.verts);
        if !known {
            proof {
                lemma_first_unresolved_range(keys_of(data.edges@), face.edges@, 0);
                lemma_first_unresolved_range(keys_of(data.verts@), face.verts@, 0);
                assert(face_fault(*data, f as int) is Some);
                assert forall|h: int|
                    0 <= h < data.faces@.len() && edge_error(*data, 0) is None && (forall|g: int|
                        0 <= g < h ==> #[trigger] face_fault(*data, g) is None) implies #[trigger] data.faces@[h].1.verts@.len()
                    > 0 by {
                    if h > f {
                        assert(face_fault(*data, f as int) is Some);
                    }
                }
            }
            return true;
        }
        f = f + 1;
    }
    true
}

/// The cell complex of a building: vertices, edges, faces and cells, each
/// kept in an arena and linked to one another by ids.
pub struct Topology<P, W, N> {
    pub verts: Arena<TopologyVert<P>>,
    pub edges: Arena<TopologyEdge>,
    pub faces: Arena<TopologyFace<W, N>>,
    pub cells: Arena<TopologyCell>,
}

impl<P, W, N> Topology<P, W, N> {
    pub open spec fn wf(&self) -> bool {
        &&& self.verts.wf()
        &&& self.edges.wf()
        &&& self.faces.wf()
        &&& self.cells.wf()
    }

    /// No adjacency list of a live element names the same id twice.
    pub open spec fn adjacency_distinct(&self) -> bool {
        &&& forall|id: Id| #[trigger]
            self.verts@.contains_key(id) ==> self.verts@[id].edges@.no_duplicates()
        &&& forall|id: Id| #[trigger]
            self.edges@.contains_key(id) ==> {
                &&& self.edges@[id].verts@.no_duplicates()
                &&& self.edges@[id].faces@.no_duplicates()
            }
        &&& forall|id: Id| #[trigger]
            self.faces@.contains_key(id) ==> {
                &&& self.faces@[id].verts@.no_duplicates()
                &&& self.faces@[id].edges@.no_duplicates()
                &&& self.faces@[id].cells@.no_duplicates()
            }
        &&& forall|id: Id| #[trigger]
            self.cells@.contains_key(id) ==> self.cells@[id].faces@.no_duplicates()
    }

    pub fn new() -> (t: Self)
        ensures
            t.wf(),
            t.verts@ == Map::<Id, TopologyVert<P>>::empty(),
            t.edges@ == Map::<Id, TopologyEdge>::empty(),
            t.faces@ == Map::<Id, TopologyFace<W, N>>::empty(),
            t.cells@ == Map::<Id, TopologyCell>::empty(),
            t.verts.slot_count() == 0 && t.edges.slot_count() == 0,
            t.faces.slot_count() == 0 && t.cells.slot_count() == 0,
            t.verts.free_indices().len() == 0 && t.edges.free_indices().len() == 0,
            t.faces.free_indices().len() == 0 && t.cells.free_indices().len() == 0,
    {
        Topology { verts: Arena::new(), edges: Arena::new(), faces: Arena::new(), cells: Arena::new() }
    }

    pub fn vert(&self, id: Id) -> (r: Option<&TopologyVert<P>>)
        requires
            self.wf(),
        ensures
            r == (if self.verts@.contains_key(id) {
                Some(&self.verts@[id])
            } else {
                None
            }),
    {
        self.verts.get(id)
    }

    pub fn edge(&self, id: Id) -> (r: Option<&TopologyEdge>)
        requires
            self.wf(),
        ensures
            r == (if self.edges@.contains_key(id) {
                Some(&self.edges@[id])
            } else {
                None
            }),
    {
        self.edges.get(id)
    }

    pub fn face(&self, id: Id) -> (r: Option<&TopologyFace<W, N>>)
        requires
            self.wf(),
        ensures
            r == (if self.faces@.contains_key(id) {
                Some(&self.faces@[id])
            } else {
                None
            }),
    {
        self.faces.get(id)
    }

    pub fn cell(&self, id: Id) -> (r: Option<&TopologyCell>)
        requires
            self.wf(),
        ensures
            r == (if self.cells@.contains_key(id) {
                Some(&self.cells@[id])
            } else {
                None
            }),
    {
        self.cells.get(id)
    }

    /// Links an edge and a vertex both ways. The edge is updated before the
    /// vertex is looked up, so an unknown vertex leaves the edge linked to it.
    pub fn connect_edge_vert(&mut self, edge_id: Id, vert_id: Id) -> (r: Result<(), &'static str>)
        requires
            old(self).wf(),
        ensures
            final(self).wf(),
            final(self).faces == old(self).faces,
            final(self).cells == old(self).cells,
            final(self).edges.same_layout(&old(self).edges),
            final(self).verts.same_layout(&old(self).verts),
            !old(self).edges@.contains_key(edge_id) ==> {
                &&& r == Err::<(), &'static str>("invalid edge")
                &&& final(self).edges@ == old(self).edges@
                &&& final(self).verts@ == old(self).verts@
            },
            old(self).edges@.contains_key(edge_id) ==> {
                &&& final(self).edges@ == old(self).edges@.insert(edge_id, final(self).edges@[edge_id])
                &&& final(self).edges@[edge_id].verts@ == with_id(old(self).edges@[edge_id].verts@, vert_id)
                &&& final(self).edges@[edge_id].faces == old(self).edges@[edge_id].faces
                &&& final(self).edges@[edge_id].uuid == old(self).edges@[edge_id].uuid
                &&& final(self).edges@[edge_id].dictionary == old(self).edges@[edge_id].dictionary
            },
            old(self).edges@.contains_key(edge_id) && !old(self).verts@.contains_key(vert_id) ==> {
                &&& r == Err::<(), &'static str>("invalid vert")
                &&& final(self).verts@ == old(self).verts@
            },
            old(self).edges@.contains_key(edge_id) && old(self).verts@.contains_key(vert_id) ==> {
                &&& r == Ok::<(), &'static str>(())
                &&& final(self).verts@ == old(self).verts@.insert(vert_id, final(self).verts@[vert_id])
                &&& final(self).verts@[vert_id].edges@ == with_id(old(self).verts@[vert_id].edges@, edge_id)
                &&& final(self).verts@[vert_id].uuid == old(self).verts@[vert_id].uuid
                &&& final(self).verts@[vert_id].coords == old(self).verts@[vert_id].coords
                &&& final(self).verts@[vert_id].dictionary == old(self).verts@[vert_id].dictionary
            },
            old(self).adjacency_distinct() ==> final(self).adjacency_distinct(),
    {
        let edge = match self.edges.get_mut(edge_id) {
            Some(edge) => edge,
            None => {
                return Err("invalid edge");
            },
        };
        push_unique(&mut edge.verts, vert_id);
        proof {
            if old(self).adjacency_distinct() {
                lemma_with_id_no_duplicates(old(self).edges@[edge_id].verts@, vert_id);
            }
        }
        let vert = match self.verts.get_mut(vert_id) {
            Some(vert) => vert,
            None => {
                return Err("invalid vert");
            },
        };
        push_unique(&mut vert.edges, edge_id);
        proof {
            if old(self).adjacency_distinct() {
                lemma_with_id_no_duplicates(old(self).verts@[vert_id].edges@, edge_id);
            }
        }
        Ok(())
    }

    /// Links a face and an edge both ways. The face is updated before the
    /// edge is looked up, so an unknown edge leaves the face linked to it.
    pub fn connect_face_edge(&mut self, face_id: Id, edge_id: Id) -> (r: Result<(), &'static str>)
        requires
            old(self).wf(),
        ensures
            final(self).wf(),
            final(self).verts == old(self).verts,
            final(self).cells == old(self).cells,
            final(self).faces.same_layout(&old(self).faces),
            final(self).edges.same_layout(&old(self).edges),
            !old(self).faces@.contains_key(face_id) ==> {
                &&& r == Err::<(), &'static str>("invalid face")
                &&& final(self).faces@ == old(self).faces@
                &&& final(self).edges@ == old(self).edges@
            },
            old(self).faces@.contains_key(face_id) ==> {
                &&& final(self).faces@ == old(self).faces@.insert(face_id, final(self).faces@[face_id])
                &&& final(self).faces@[face_id].edges@ == with_id(old(self).faces@[face_id].edges@, edge_id)
                &&& final(self).faces@[face_id].same_except_edges(old(self).faces@[face_id])
            },
            old(self).faces@.contains_key(face_id) && !old(self).edges@.contains_key(edge_id) ==> {
                &&& r == Err::<(), &'static str>("invalid edge")
                &&& final(self).edges@ == old(self).edges@
            },
            old(self).faces@.contains_key(face_id) && old(self).edges@.contains_key(edge_id) ==> {
                &&& r == Ok::<(), &'static str>(())
                &&& final(self).edges@ == old(self).edges@.insert(edge_id, final(self).edges@[edge_id])
                &&& final(self).edges@[edge_id].faces@ == with_id(old(self).edges@[edge_id].faces@, face_id)
                &&& final(self).edges@[edge_id].verts == old(self).edges@[edge_id].verts
                &&& final(self).edges@[edge_id].uuid == old(self).edges@[edge_id].uuid
                &&& final(self).edges@[edge_id].dictionary == old(self).edges@[edge_id].dictionary
            },
            old(self).adjacency_distinct() ==> final(self).adjacency_distinct(),
    {
        let face = match self.faces.get_mut(face_id) {
            Some(face) => face,
            None => {
                return Err("invalid face");
            },
        };
        push_unique(&mut face.edges, edge_id);
        proof {
            if old(self).adjacency_distinct() {
                lemma_with_id_no_duplicates(old(self).faces@[face_id].edges@, edge_id);
            }
        }
        let edge = match self.edges.get_mut(edge_id) {
            Some(edge) => edge,
            None => {
                return Err("invalid edge");
            },
        };
        push_unique(&mut edge.faces, face_id);
        proof {
            if old(self).adjacency_distinct() {
                lemma_with_id_no_duplicates(old(self).edges@[edge_id].faces@, face_id);
            }
        }
        Ok(())
    }

    /// Lists a vertex among a face's boundary vertices (one way only: the
    /// vertex is not told of the face).
    pub fn connect_face_vert(&mut self, face_id: Id, vert_id: Id) -> (r: Result<(), &'static str>)
        requires
            old(self).wf(),
        ensures
            final(self).wf(),
            final(self).verts == old(self).verts,
            final(self).edges == old(self).edges,
            final(self).cells == old(self).cells,
            final(self).faces.same_layout(&old(self).faces),
            !old(self).faces@.contains_key(face_id) ==> {
                &&& r == Err::<(), &'static str>("invalid face")
                &&& final(self).faces@ == old(self).faces@
            },
            old(self).faces@.contains_key(face_id) ==> {
                &&& r == Ok::<(), &'static str>(())
                &&& final(self).faces@ == old(self).faces@.insert(face_id, final(self).faces@[face_id])
                &&& final(self).faces@[face_id].verts@ == with_id(old(self).faces@[face_id].verts@, vert_id)
                &&& final(self).faces@[face_id].same_except_verts(old(self).faces@[face_id])
            },
            old(self).adjacency_distinct() ==> final(self).adjacency_distinct(),
    {
        let face = match self.faces.get_mut(face_id) {
            Some(face) => face,
            None => {
                return Err("invalid face");
            },
        };
        push_unique(&mut face.verts, vert_id);
        proof {
            if old(self).adjacency_distinct() {
                lemma_with_id_no_duplicates(old(self).faces@[face_id].verts@, vert_id);
            }
        }
        Ok(())
    }

    /// Links a cell and a face both ways. The cell is updated before the
    /// face is looked up, so an unknown face leaves the cell linked to it.
    pub fn connect_cell_face(&mut self, cell_id: Id, face_id: Id) -> (r: Result<(), &'static str>)
        requires
            old(self).wf(),
        ensures
            final(self).wf(),
            final(self).verts == old(self).verts,
            final(self).edges == old(self).edges,
            final(self).cells.same_layout(&old(self).cells),
            final(self).faces.same_layout(&old(self).faces),
            !old(self).cells@.contains_key(cell_id) ==> {
                &&& r == Err::<(), &'static str>("invalid cell")
                &&& final(self).cells@ == old(self).cells@
                &&& final(self).faces@ == old(self).faces@
            },
            old(self).cells@.contains_key(cell_id) ==> {
                &&& final(self).cells@ == old(self).cells@.insert(cell_id, final(self).cells@[cell_id])
                &&& final(self).cells@[cell_id].faces@ == with_id(old(self).cells@[cell_id].faces@, face_id)
                &&& final(self).cells@[cell_id].uuid == old(self).cells@[cell_id].uuid
                &&& final(self).cells@[cell_id].dictionary == old(self).cells@[cell_id].dictionary
            },
            old(self).cells@.contains_key(cell_id) && !old(self).faces@.contains_key(face_id) ==> {
                &&& r == Err::<(), &'static str>("invalid face")
                &&& final(self).faces@ == old(self).faces@
            },
            old(self).cells@.contains_key(cell_id) && old(self).faces@.contains_key(face_id) ==> {
                &&& r == Ok::<(), &'static str>(())
                &&& final(self).faces@ == old(self).faces@.insert(face_id, final(self).faces@[face_id])
                &&& final(self).faces@[face_id].cells@ == with_id(old(self).faces@[face_id].cells@, cell_id)
                &&& final(self).faces@[face_id].same_except_cells(old(self).faces@[face_id])
            },
            old(self).adjacency_distinct() ==> final(self).adjacency_distinct(),
    {
        let cell = match self.cells.get_mut(cell_id) {
            Some(cell) => cell,
            None => {
                return Err("invalid cell");
            },
        };
        push_unique(&mut cell.faces, face_id);
        proof {
            if old(self).adjacency_distinct() {
                lemma_with_id_no_duplicates(old(self).cells@[cell_id].faces@, face_id);
            }
        }
        let face = match self.faces.get_mut(face_id) {
            Some(face) => face,
            None => {
                return Err("invalid face");
            },
        };
        push_unique(&mut face.cells, cell_id);
        proof {
            if old(self).adjacency_distinct() {
                lemma_with_id_no_duplicates(old(self).faces@[face_id].cells@, cell_id);
            }
        }
        Ok(())
    }

    /// Adds a vertex with no edges yet.
    pub fn add_vert(&mut self, uuid: String, coords: P, dictionary: Dictionary) -> (id: Id)
        requires
            old(self).wf(),
            old(self).verts.slot_count() < u32::MAX,
        ensures
            final(self).wf(),
            id == old(self).verts.next_id(),
            !old(self).verts@.contains_key(id),
            final(self).verts@ == old(self).verts@.insert(id, final(self).verts@[id]),
            final(self).verts@[id].uuid == uuid,
            final(self).verts@[id].coords == coords,
            final(self).verts@[id].edges@ == Seq::<Id>::empty(),
            final(self).verts@[id].dictionary == dictionary,
            final(self).verts.layout_after_insert(&old(self).verts),
            final(self).edges == old(self).edges,
            final(self).faces == old(self).faces,
            final(self).cells == old(self).cells,
            old(self).adjacency_distinct() ==> final(self).adjacency_distinct(),
    {
        self.verts.insert(TopologyVert { uuid, coords, edges: Vec::new(), dictionary })
    }

    /// Adds an edge with no vertices or faces yet.
    pub fn add_edge(&mut self, uuid: String, dictionary: Dictionary) -> (id: Id)
        requires
            old(self).wf(),
            old(self).edges.slot_count() < u32::MAX,
        ensures
            final(self).wf(),
            id == old(self).edges.next_id(),
            !old(self).edges@.contains_key(id),
            final(self).edges@ == old(self).edges@.insert(id, final(self).edges@[id]),
            final(self).edges@[id].uuid == uuid,
            final(self).edges@[id].verts@ == Seq::<Id>::empty(),
            final(self).edges@[id].faces@ == Seq::<Id>::empty(),
            final(self).edges@[id].dictionary == dictionary,
            final(self).edges.layout_after_insert(&old(self).edges),
            final(self).verts == old(self).verts,
            final(self).faces == old(self).faces,
            final(self).cells == old(self).cells,
            old(self).adjacency_distinct() ==> final(self).adjacency_distinct(),
    {
        self.edges.insert(TopologyEdge { uuid, verts: Vec::new(), faces: Vec::new(), dictionary })
    }

    /// Adds a face with no boundary, cells, layer group or edge offsets yet.
    pub fn add_face(
        &mut self,
        uuid: String,
        construction: ConstructionRef,
        face_type: String,
        frame: W,
        dictionary: Dictionary,
    ) -> (id: Id)
        requires
            old(self).wf(),
            old(self).faces.slot_count() < u32::MAX,
        ensures
            final(self).wf(),
            id == old(self).faces.next_id(),
            !old(self).faces@.contains_key(id),
            final(self).faces@ == old(self).faces@.insert(id, final(self).faces@[id]),
            final(self).faces@[id].uuid == uuid,
            final(self).faces@[id].verts@ == Seq::<Id>::empty(),
            final(self).faces@[id].edges@ == Seq::<Id>::empty(),
            final(self).faces@[id].cells@ == Seq::<Id>::empty(),
            final(self).faces@[id].construction == construction,
            final(self).faces@[id].layer_group_id == None::<Id>,
            final(self).faces@[id].inner_edge_offsets@ == Seq::<Vec<N>>::empty(),
            final(self).faces@[id].outer_edge_offsets@ == Seq::<Vec<N>>::empty(),
            final(self).faces@[id].face_type == face_type,
            final(self).faces@[id].frame == frame,
            final(self).faces@[id].dictionary == dictionary,
            final(self).faces.layout_after_insert(&old(self).faces),
            final(self).verts == old(self).verts,
            final(self).edges == old(self).edges,
            final(self).cells == old(self).cells,
            old(self).adjacency_distinct() ==> final(self).adjacency_distinct(),
    {
        self.faces.insert(
            TopologyFace {
                uuid,
                verts: Vec::new(),
                edges: Vec::new(),
                cells: Vec::new(),
                construction,
                layer_group_id: None,
                inner_edge_offsets: Vec::new(),
                outer_edge_offsets: Vec::new(),
                face_type,
                frame,
                dictionary,
            },
        )
    }

    /// Adds a cell with no faces yet.
    pub fn add_cell(&mut self, uuid: String, dictionary: Dictionary) -> (id: Id)
        requires
            old(self).wf(),
            old(self).cells.slot_count() < u32::MAX,
        ensures
            final(self).wf(),
            id == old(self).cells.next_id(),
            !old(self).cells@.contains_key(id),
            final(self).cells@ == old(self).cells@.insert(id, final(self).cells@[id]),
            final(self).cells@[id].uuid == uuid,
            final(self).cells@[id].faces@ == Seq::<Id>::empty(),
            final(self).cells@[id].dictionary == dictionary,
            final(self).cells.layout_after_insert(&old(self).cells),
            final(self).verts == old(self).verts,
            final(self).edges == old(self).edges,
            final(self).faces == old(self).faces,
            old(self).adjacency_distinct() ==> final(self).adjacency_distinct(),
    {
        self.cells.insert(TopologyCell { uuid, faces: Vec::new(), dictionary })
    }

    pub fn vert_ids(&self) -> (r: Vec<Id>)
        requires
            self.wf(),
        ensures
            r@ == self.verts.live_ids(),
    {
        self.verts.ids()
    }

    pub fn edge_ids(&self) -> (r: Vec<Id>)
        requires
            self.wf(),
        ensures
            r@ == self.edges.live_ids(),
    {
        self.edges.ids()
    }

    pub fn face_ids(&self) -> (r: Vec<Id>)
        requires
            self.wf(),
        ensures
            r@ == self.faces.live_ids(),
    {
        self.faces.ids()
    }

    pub fn cell_ids(&self) -> (r: Vec<Id>)
        requires
            self.wf(),
        ensures
            r@ == self.cells.live_ids(),
    {
        self.cells.ids()
    }

    /// Each arena has opened exactly the given number of slots, freed none,
    /// and holds a value in each of them.
    pub open spec fn fresh_counts(&self, nv: int, ne: int, nf: int, nc: int) -> bool {
        &&& self.verts.slot_count() == nv && self.verts.free_indices().len() == 0
        &&& self.edges.slot_count() == ne && self.edges.free_indices().len() == 0
        &&& self.faces.slot_count() == nf && self.faces.free_indices().len() == 0
        &&& self.cells.slot_count() == nc && self.cells.free_indices().len() == 0
        &&& forall|id: Id| #[trigger] self.verts@.contains_key(id) <==> is_fresh_id_below(id, nv)
        &&& forall|id: Id| #[trigger] self.edges@.contains_key(id) <==> is_fresh_id_below(id, ne)
        &&& forall|id: Id| #[trigger] self.faces@.contains_key(id) <==> is_fresh_id_below(id, nf)
        &&& forall|id: Id| #[trigger] self.cells@.contains_key(id) <==> is_fresh_id_below(id, nc)
    }

    /// The first `n` vertices hold the uuid, position and data they were read with.
    pub open spec fn verts_read<U>(&self, data: TopologyData<P, U>, n: int) -> bool {
        forall|k: int|
            0 <= k < n ==> {
                let v = #[trigger] self.verts@[nth_fresh_id(k)];
                let (uuid, d) = data.verts@[k];
                &&& v.uuid == uuid
                &&& v.coords == d.coords
                &&& v.dictionary == d.dictionary
            }
    }

    /// The first `n` edges hold the uuid and data they were read with.
    pub open spec fn edges_read<U>(&self, data: TopologyData<P, U>, n: int) -> bool {
        forall|k: int|
            0 <= k < n ==> {
                let e = #[trigger] self.edges@[nth_fresh_id(k)];
                &&& e.uuid == data.edges@[k].0
                &&& e.dictionary == data.edges@[k].1.dictionary
            }
    }

    /// The first `n` faces hold what they were read with: uuid, construction
    /// (by uuid), type and data, no layer group or offsets yet, and the frame
    /// built from the face's first vertex and its axes.
    pub open spec fn faces_read<U, F: Fn(&P, &U) -> W>(&self, data: TopologyData<P, U>, frame_of: F, n: int) -> bool {
        forall|k: int|
            0 <= k < n ==> {
                let f = #[trigger] self.faces@[nth_fresh_id(k)];
                let (uuid, d) = data.faces@[k];
                let vkeys = keys_of(data.verts@);
                let v0 = last_index_below(vkeys, d.verts@[0]@, vkeys.len() as int);
                &&& f.uuid == uuid
                &&& f.construction == ConstructionRef::Uuid(d.construction)
                &&& f.face_type == d.face_type
                &&& f.dictionary == d.dictionary
                &&& f.layer_group_id == None::<Id>
                &&& f.inner_edge_offsets@.len() == 0
                &&& f.outer_edge_offsets@.len() == 0
                &&& frame_of.ensures((&data.verts@[v0].1.coords, &d.uvn), f.frame)
            }
    }

    /// The first `n` cells hold the uuid and data they were read with.
    pub open spec fn cells_read<U>(&self, data: TopologyData<P, U>, n: int) -> bool {
        forall|k: int|
            0 <= k < n ==> {
                let c = #[trigger] self.cells@[nth_fresh_id(k)];
                &&& c.uuid == data.cells@[k].0
                &&& c.dictionary == data.cells@[k].1.dictionary
            }
    }

    /// Each vertex lists the edges among the first `n` whose list names it.
    pub open spec fn vert_edges_are(&self, lists: Seq<Seq<Id>>, n: int) -> bool {
        forall|v: Id| #[trigger] self.verts@.contains_key(v) ==> self.verts@[v].edges@ == sources_linking(lists, v, n)
    }

    /// Each of the first `n` edges lists its vertices, each once.
    pub open spec fn edge_verts_are(&self, lists: Seq<Seq<Id>>, n: int) -> bool {
        forall|k: int| 0 <= k < n ==> (#[trigger] self.edges@[nth_fresh_id(k)]).verts@ == dedup(lists[k])
    }

    /// Each edge lists the faces among the first `n` whose list names it.
    pub open spec fn edge_faces_are(&self, lists: Seq<Seq<Id>>, n: int) -> bool {
        forall|e: Id| #[trigger] self.edges@.contains_key(e) ==> self.edges@[e].faces@ == sources_linking(lists, e, n)
    }

    /// Each of the first `n` faces lists its edges, each once.
    pub open spec fn face_edges_are(&self, lists: Seq<Seq<Id>>, n: int) -> bool {
        forall|k: int| 0 <= k < n ==> (#[trigger] self.faces@[nth_fresh_id(k)]).edges@ == dedup(lists[k])
    }

    /// Each of the first `n` faces lists its vertices, each once.
    pub open spec fn face_verts_are(&self, lists: Seq<Seq<Id>>, n: int) -> bool {
        forall|k: int| 0 <= k < n ==> (#[trigger] self.faces@[nth_fresh_id(k)]).verts@ == dedup(lists[k])
    }

    /// Each face lists the cells among the first `n` whose list names it.
    pub open spec fn face_cells_are(&self, lists: Seq<Seq<Id>>, n: int) -> bool {
        forall|f: Id| #[trigger] self.faces@.contains_key(f) ==> self.faces@[f].cells@ == sources_linking(lists, f, n)
    }

    /// Each of the first `n` cells lists its faces, each once.
    pub open spec fn cell_faces_are(&self, lists: Seq<Seq<Id>>, n: int) -> bool {
        forall|k: int| 0 <= k < n ==> (#[trigger] self.cells@[nth_fresh_id(k)]).faces@ == dedup(lists[k])
    }

    /// Whether this complex holds exactly what `data` describes: each kind of
    /// element stored in order under fresh ids, and every adjacency that the
    /// data names recorded both ways (a face's vertices one way only).
    pub open spec fn built_from<U, F: Fn(&P, &U) -> W>(&self, data: TopologyData<P, U>, frame_of: F) -> bool {
        let nv = data.verts@.len() as int;
        let ne = data.edges@.len() as int;
        let nf = data.faces@.len() as int;
        let nc = data.cells@.len() as int;
        &&& self.wf()
        &&& self.fresh_counts(nv, ne, nf, nc)
        &&& self.verts_read(data, nv)
        &&& self.edges_read(data, ne)
        &&& self.faces_read(data, frame_of, nf)
        &&& self.cells_read(data, nc)
        &&& self.vert_edges_are(edge_vert_lists(data), ne)
        &&& self.edge_verts_are(edge_vert_lists(data), ne)
        &&& self.edge_faces_are(face_edge_lists(data), nf)
        &&& self.face_edges_are(face_edge_lists(data), nf)
        &&& self.face_verts_are(face_vert_lists(data), nf)
        &&& self.face_cells_are(cell_face_lists(data), nc)
        &&& self.cell_faces_are(cell_face_lists(data), nc)
    }

    /// Builds a cell complex from its data: vertices, then edges (linked to
    /// their vertices), then faces (linked to their edges, listing their
    /// vertices, framed by `frame_of` from the first vertex's position and
    /// the face's axes), then cells (linked to their faces), each stored in
    /// order under fresh ids. Fails with the first uuid that names nothing.
    pub fn from_data<U, F: Fn(&P, &U) -> W>(data: TopologyData<P, U>, frame_of: F) -> (r: Result<Self, String>)
        requires
            data.verts@.len() < u32::MAX,
            data.edges@.len() < u32::MAX,
            data.faces@.len() < u32::MAX,
            data.cells@.len() < u32::MAX,
            faces_readable(data),
            forall|p: &P, u: &U| frame_of.requires((p, u)),
        ensures
            r matches Ok(t) ==> topology_error(data) is None && t.built_from(data, frame_of),
            r matches Err(e) ==> topology_error(data) == Some(e@),
    {
        let ghost d = data;
        let ghost vkeys = keys_of(d.verts@);
        let ghost ekeys = keys_of(d.edges@);
        let ghost fkeys = keys_of(d.faces@);
        let ghost el = edge_vert_lists(d);
        let ghost fel = face_edge_lists(d);
        let ghost fvl = face_vert_lists(d);
        let ghost cfl = cell_face_lists(d);
        let TopologyData { verts: vert_entries, edges: edge_entries, faces: face_entries, cells: cell_entries } = data;
        let mut topology: Topology<P, W, N> = Topology::new();
        let mut verts: Vec<(String, Id)> = Vec::new();
        let mut edges: Vec<(String, Id)> = Vec::new();
        let mut faces: Vec<(String, Id)> = Vec::new();
        proof {
            assert(table_view(verts@) =~= fresh_table(vkeys, 0));
            assert(table_view(edges@) =~= fresh_table(ekeys, 0));
            assert(table_view(faces@) =~= fresh_table(fkeys, 0));
        }

        for (uuid, vert) in it: vert_entries
            invariant
                it.seq() == d.verts@,
                d == data,
                vkeys == keys_of(d.verts@),
                el == edge_vert_lists(d),
                d.verts@.len() < u32::MAX,
                topology.wf(),
                topology.fresh_counts(it.index() as int, 0, 0, 0),
                topology.verts_read(d, it.index() as int),
                topology.vert_edges_are(el, 0),
                verts@.len() == it.index(),
                table_view(verts@) == fresh_table(vkeys, it.index() as int),
        {
            let ghost k = it.index();
            let id = topology.add_vert(uuid.clone(), vert.coords, vert.dictionary);
            proof {
                assert(id == nth_fresh_id(k as int));
                assert(vkeys[k as int] == uuid@);
            }
            record_uuid(&mut verts, uuid, id, Ghost(vkeys));
        }

        for (uuid, edge) in it: edge_entries
            invariant
                it.seq() == d.edges@,
                d == data,
                vkeys == keys_of(d.verts@),
                ekeys == keys_of(d.edges@),
                el == edge_vert_lists(d),
                fel == face_edge_lists(d),
                d.edges@.len() < u32::MAX,
                topology.wf(),
                topology.fresh_counts(d.verts@.len() as int, it.index() as int, 0, 0),
                topology.verts_read(d, d.verts@.len() as int),
                topology.edges_read(d, it.index() as int),
                topology.vert_edges_are(el, it.index() as int),
                topology.edge_verts_are(el, it.index() as int),
                topology.edge_faces_are(fel, 0),
                verts@.len() == vkeys.len(),
                table_view(verts@) == fresh_table(vkeys, vkeys.len() as int),
                edges@.len() == it.index(),
                table_view(edges@) == fresh_table(ekeys, it.index() as int),
                edge_error(d, 0) == edge_error(d, it.index() as int),
        {
            let ghost j = it.index() as int;
            let ghost names = edge.verts@;
            proof {
                assert(d.edges@[j] == (uuid, edge));
            }
            let id = topology.add_edge(uuid.clone(), edge.dictionary);
            proof {
                assert(id == nth_fresh_id(j));
                assert(ekeys[j] == uuid@);
            }
            record_uuid(&mut edges, uuid, id, Ghost(ekeys));
            proof {
                assert forall|v: Id| #[trigger] topology.verts@.contains_key(v) implies topology.verts@[v].edges@
                    == sources_linking(lists_upto(el, j, 0), v, j + 1) by {
                    lemma_sources_linking_start(el, v, j);
                }
                assert forall|k: int| 0 <= k < j + 1 implies (#[trigger] topology.edges@[nth_fresh_id(k)]).verts@
                    == dedup(lists_upto(el, j, 0)[k]) by {
                    if k == j {
                        assert(lists_upto(el, j, 0)[k] =~= Seq::<Id>::empty());
                    }
                }
            }
            for vert_uuid in vit: edge.verts
                invariant
                    vit.seq() == names,
                    d == data,
                    0 <= j < d.edges@.len(),
                    names == d.edges@[j].1.verts@,
                    id == nth_fresh_id(j),
                    vkeys == keys_of(d.verts@),
                    ekeys == keys_of(d.edges@),
                    el == edge_vert_lists(d),
                    fel == face_edge_lists(d),
                    d.edges@.len() < u32::MAX,
                    topology.wf(),
                    topology.fresh_counts(d.verts@.len() as int, j + 1, 0, 0),
                    topology.verts_read(d, d.verts@.len() as int),
                    topology.edges_read(d, j + 1),
                    topology.vert_edges_are(lists_upto(el, j, vit.index() as int), j + 1),
                    topology.edge_verts_are(lists_upto(el, j, vit.index() as int), j + 1),
                    topology.edge_faces_are(fel, 0),
                    verts@.len() == vkeys.len(),
                    table_view(verts@) == fresh_table(vkeys, vkeys.len() as int),
                    edges@.len() == j + 1,
                    table_view(edges@) == fresh_table(ekeys, j + 1),
                    edge_error(d, 0) == edge_error(d, j),
                    first_unresolved(vkeys, names, 0) == first_unresolved(vkeys, names, vit.index() as int),
            {
                let ghost i = vit.index() as int;
                let vert_id = match lookup_uuid(&verts, vert_uuid.as_str(), Ghost(vkeys)) {
                    Some(vert_id) => vert_id,
                    None => {
                        let msg = concat_str("unknown vertex: ", vert_uuid.as_str());
                        proof {
                            assert(names[i] == vert_uuid);
                            assert(first_unresolved(vkeys, names, 0) == i);
                            assert(edge_error(d, j) == Some(msg@));
                            assert(topology_error(d) == Some(msg@));
                        }
                        return Err(msg);
                    },
                };
                proof {
                    assert(names[i] == vert_uuid);
                    assert(el[j] == resolved(vkeys, names));
                    assert(el[j][i] == vert_id);
                    lemma_last_index_below(vkeys, vert_uuid@, vkeys.len() as int);
                    assert(topology.verts@.contains_key(vert_id));
                    assert(topology.edges@.contains_key(id));
                }
                let ghost before = topology;
                match topology.connect_edge_vert(id, vert_id) {
                    Ok(()) => {},
                    Err(e) => {
                        return Err(String::from_str(e));
                    },
                }
                proof {
                    assert forall|v: Id| #[trigger] topology.verts@.contains_key(v) implies topology.verts@[v].edges@
                        == sources_linking(lists_upto(el, j, i + 1), v, j + 1) by {
                        lemma_sources_linking_step(el, v, j, i);
                        assert(before.verts@.contains_key(v));
                    }
                    assert forall|k: int| 0 <= k < j + 1 implies (#[trigger] topology.edges@[nth_fresh_id(
                        k,
                    )]).verts@ == dedup(lists_upto(el, j, i + 1)[k]) by {
                        if k == j {
                            lemma_dedup_step(el[j], i);
                            assert(lists_upto(el, j, i + 1)[k] == el[j].take(i + 1));
                            assert(lists_upto(el, j, i)[k] == el[j].take(i));
                        } else {
                            assert(nth_fresh_id(k) != id);
                        }
                    }
                    assert forall|k: int| 0 <= k < j + 1 implies {
                        let e = #[trigger] topology.edges@[nth_fresh_id(k)];
                        &&& e.uuid == d.edges@[k].0
                        &&& e.dictionary == d.edges@[k].1.dictionary
                    } by {
                        assert(before.edges@[nth_fresh_id(k)].uuid == d.edges@[k].0);
                    }
                    assert forall|k: int| 0 <= k < d.verts@.len() implies {
                        let v = #[trigger] topology.verts@[nth_fresh_id(k)];
                        let (uuid, dv) = d.verts@[k];
                        &&& v.uuid == uuid
                        &&& v.coords == dv.coords
                        &&& v.dictionary == dv.dictionary
                    } by {
                        assert(before.verts@[nth_fresh_id(k)].uuid == d.verts@[k].0);
                    }
                }
            }
            proof {
                lemma_lists_upto_done(el, j);
            }
        }

        for (uuid, face) in it: face_entries
            invariant
                it.seq() == d.faces@,
                d == data,
                vkeys == keys_of(d.verts@),
                ekeys == keys_of(d.edges@),
                fkeys == keys_of(d.faces@),
                el == edge_vert_lists(d),
                fel == face_edge_lists(d),
                fvl == face_vert_lists(d),
                cfl == cell_face_lists(d),
                d.faces@.len() < u32::MAX,
                faces_readable(d),
                forall|p: &P, u: &U| frame_of.requires((p, u)),
                topology.wf(),
                topology.fresh_counts(d.verts@.len() as int, d.edges@.len() as int, it.index() as int, 0),
                topology.verts_read(d, d.verts@.len() as int),
                topology.edges_read(d, d.edges@.len() as int),
                topology.faces_read(d, frame_of, it.index() as int),
                topology.vert_edges_are(el, d.edges@.len() as int),
                topology.edge_verts_are(el, d.edges@.len() as int),
                topology.edge_faces_are(fel, it.index() as int),
                topology.face_edges_are(fel, it.index() as int),
                topology.face_verts_are(fvl, it.index() as int),
                topology.face_cells_are(cfl, 0),
                verts@.len() == vkeys.len(),
                table_view(verts@) == fresh_table(vkeys, vkeys.len() as int),
                edges@.len() == ekeys.len(),
                table_view(edges@) == fresh_table(ekeys, ekeys.len() as int),
                faces@.len() == it.index(),
                table_view(faces@) == fresh_table(fkeys, it.index() as int),
                edge_error(d, 0) is None,
                forall|g: int| 0 <= g < it.index() ==> #[trigger] face_fault(d, g) is None,
        {
            let ghost f = it.index() as int;
            proof {
                assert(d.faces@[f] == (uuid, face));
                assert(face.verts@.len() > 0);
            }
            let vert0_id = match lookup_uuid(&verts, face.verts[0].as_str(), Ghost(vkeys)) {
                Some(vert0_id) => vert0_id,
                None => {
                    let msg = concat_str("unknown vertex: ", face.verts[0].as_str());
                    proof {
                        assert(face_fault(d, f) == Some(msg@));
                        lemma_face_error_skip(d, f);
                        assert(topology_error(d) == Some(msg@));
                    }
                    return Err(msg);
                },
            };
            proof {
                lemma_last_index_below(vkeys, face.verts@[0]@, vkeys.len() as int);
            }
            let frame = {
                let vert0 = topology.vert(vert0_id).unwrap();
                frame_of(&vert0.coords, &face.uvn)
            };
            let ghost names_e = face.edges@;
            let ghost names_v = face.verts@;
            let id = topology.add_face(
                uuid.clone(),
                ConstructionRef::Uuid(face.construction),
                face.face_type,
                frame,
                face.dictionary,
            );
            proof {
                assert(id == nth_fresh_id(f));
                assert(fkeys[f] == uuid@);
            }
            record_uuid(&mut faces, uuid, id, Ghost(fkeys));
            proof {
                assert forall|e: Id| #[trigger] topology.edges@.contains_key(e) implies topology.edges@[e].faces@
                    == sources_linking(lists_upto(fel, f, 0), e, f + 1) by {
                    lemma_sources_linking_start(fel, e, f);
                }
                assert forall|k: int| 0 <= k < f + 1 implies (#[trigger] topology.faces@[nth_fresh_id(k)]).edges@
                    == dedup(lists_upto(fel, f, 0)[k]) by {
                    if k == f {
                        assert(lists_upto(fel, f, 0)[k] =~= Seq::<Id>::empty());
                    }
                }
                assert forall|k: int| 0 <= k < f + 1 implies (#[trigger] topology.faces@[nth_fresh_id(k)]).verts@
                    == dedup(lists_upto(fvl, f, 0)[k]) by {
                    if k == f {
                        assert(lists_upto(fvl, f, 0)[k] =~= Seq::<Id>::empty());
                    }
                }
            }
            for edge_uuid in eit: face.edges
                invariant
                    eit.seq() == names_e,
                    d == data,
                    0 <= f < d.faces@.len(),
                    names_e == d.faces@[f].1.edges@,
                    names_v == d.faces@[f].1.verts@,
                    names_v.len() > 0,
                    id_of_uuid(vkeys, names_v[0]@, vkeys.len() as int) is Some,
                    id == nth_fresh_id(f),
                    vkeys == keys_of(d.verts@),
                    ekeys == keys_of(d.edges@),
                    fkeys == keys_of(d.faces@),
                    el == edge_vert_lists(d),
                    fel == face_edge_lists(d),
                    fvl == face_vert_lists(d),
                    cfl == cell_face_lists(d),
                    d.faces@.len() < u32::MAX,
                    topology.wf(),
                    topology.fresh_counts(d.verts@.len() as int, d.edges@.len() as int, f + 1, 0),
                    topology.verts_read(d, d.verts@.len() as int),
                    topology.edges_read(d, d.edges@.len() as int),
                    topology.faces_read(d, frame_of, f + 1),
                    topology.vert_edges_are(el, d.edges@.len() as int),
                    topology.edge_verts_are(el, d.edges@.len() as int),
                    topology.edge_faces_are(lists_upto(fel, f, eit.index() as int), f + 1),
                    topology.face_edges_are(lists_upto(fel, f, eit.index() as int), f + 1),
                    topology.face_verts_are(lists_upto(fvl, f, 0), f + 1),
                    topology.face_cells_are(cfl, 0),
                    edges@.len() == ekeys.len(),
                    table_view(edges@) == fresh_table(ekeys, ekeys.len() as int),
                    edge_error(d, 0) is None,
                    forall|g: int| 0 <= g < f ==> #[trigger] face_fault(d, g) is None,
                    first_unresolved(ekeys, names_e, 0) == first_unresolved(ekeys, names_e, eit.index() as int),
            {
                let ghost i = eit.index() as int;
                let edge_id = match lookup_uuid(&edges, edge_uuid.as_str(), Ghost(ekeys)) {
                    Some(edge_id) => edge_id,
                    None => {
                        let msg = concat_str("unknown edge: ", edge_uuid.as_str());
                        proof {
                            assert(names_e[i] == edge_uuid);
                            assert(first_unresolved(ekeys, names_e, 0) == i);
                            assert(face_fault(d, f) == Some(msg@));
                            lemma_face_error_skip(d, f);
                            assert(topology_error(d) == Some(msg@));
                        }
                        return Err(msg);
                    },
                };
                proof {
                    assert(names_e[i] == edge_uuid);
                    assert(fel[f] == resolved(ekeys, names_e));
                    assert(fel[f][i] == edge_id);
                    lemma_last_index_below(ekeys, edge_uuid@, ekeys.len() as int);
                    assert(topology.edges@.contains_key(edge_id));
                    assert(topology.faces@.contains_key(id));
                }
                let ghost before = topology;
                match topology.connect_face_edge(id, edge_id) {
                    Ok(()) => {},
                    Err(e) => {
                        return Err(String::from_str(e));
                    },
                }
                proof {
                    assert forall|e: Id| #[trigger] topology.edges@.contains_key(e) implies topology.edges@[e].faces@
                        == sources_linking(lists_upto(fel, f, i + 1), e, f + 1) by {
                        lemma_sources_linking_step(fel, e, f, i);
                        assert(before.edges@.contains_key(e));
                    }
                    assert forall|k: int| 0 <= k < f + 1 implies (#[trigger] topology.faces@[nth_fresh_id(
                        k,
                    )]).edges@ == dedup(lists_upto(fel, f, i + 1)[k]) by {
                        if k == f {
                            lemma_dedup_step(fel[f], i);
                            assert(lists_upto(fel, f, i + 1)[k] == fel[f].take(i + 1));
                            assert(lists_upto(fel, f, i)[k] == fel[f].take(i));
                        } else {
                            assert(nth_fresh_id(k) != id);
                        }
                    }
                    assert forall|k: int| 0 <= k < f + 1 implies (#[trigger] topology.faces@[nth_fresh_id(
                        k,
                    )]).verts@ == dedup(lists_upto(fvl, f, 0)[k]) by {
                        assert(before.faces@[nth_fresh_id(k)].verts@ == dedup(lists_upto(fvl, f, 0)[k]));
                    }
                    assert forall|k: int| 0 <= k < f + 1 implies #[trigger] topology.faces@[nth_fresh_id(k)].same_attributes(
                        before.faces@[nth_fresh_id(k)],
                    ) by {}
                    assert forall|k: int| 0 <= k < d.edges@.len() implies (#[trigger] topology.edges@[nth_fresh_id(
                        k,
                    )]).verts@ == dedup(el[k]) by {
                        assert(before.edges@[nth_fresh_id(k)].verts@ == dedup(el[k]));
                    }
                    assert forall|k: int| 0 <= k < d.edges@.len() implies {
                        let e = #[trigger] topology.edges@[nth_fresh_id(k)];
                        &&& e.uuid == d.edges@[k].0
                        &&& e.dictionary == d.edges@[k].1.dictionary
                    } by {
                        assert(before.edges@[nth_fresh_id(k)].uuid == d.edges@[k].0);
                    }
                    assert forall|g: Id| #[trigger] topology.faces@.contains_key(g) implies topology.faces@[g].cells@
                        == sources_linking(cfl, g, 0) by {
                        assert(before.faces@.contains_key(g));
                    }
                }
            }
            proof {
                lemma_lists_upto_done(fel, f);
            }
            for vert_uuid in vit: face.verts
                invariant
                    vit.seq() == names_v,
                    d == data,
                    0 <= f < d.faces@.len(),
                    names_e == d.faces@[f].1.edges@,
                    names_v == d.faces@[f].1.verts@,
                    names_v.len() > 0,
                    id_of_uuid(vkeys, names_v[0]@, vkeys.len() as int) is Some,
                    first_unresolved(ekeys, names_e, 0) == -1,
                    id == nth_fresh_id(f),
                    vkeys == keys_of(d.verts@),
                    ekeys == keys_of(d.edges@),
                    fkeys == keys_of(d.faces@),
                    el == edge_vert_lists(d),
                    fel == face_edge_lists(d),
                    fvl == face_vert_lists(d),
                    cfl == cell_face_lists(d),
                    d.faces@.len() < u32::MAX,
                    topology.wf(),
                    topology.fresh_counts(d.verts@.len() as int, d.edges@.len() as int, f + 1, 0),
                    topology.verts_read(d, d.verts@.len() as int),
                    topology.edges_read(d, d.edges@.len() as int),
                    topology.faces_read(d, frame_of, f + 1),
                    topology.vert_edges_are(el, d.edges@.len() as int),
                    topology.edge_verts_are(el, d.edges@.len() as int),
                    topology.edge_faces_are(fel, f + 1),
                    topology.face_edges_are(fel, f + 1),
                    topology.face_verts_are(lists_upto(fvl, f, vit.index() as int), f + 1),
                    topology.face_cells_are(cfl, 0),
                    verts@.len() == vkeys.len(),
                    table_view(verts@) == fresh_table(vkeys, vkeys.len() as int),
                    edge_error(d, 0) is None,
                    forall|g: int| 0 <= g < f ==> #[trigger] face_fault(d, g) is None,
                    first_unresolved(vkeys, names_v, 0) == first_unresolved(vkeys, names_v, vit.index() as int),
            {
                let ghost i = vit.index() as int;
                let vert_id = match lookup_uuid(&verts, vert_uuid.as_str(), Ghost(vkeys)) {
                    Some(vert_id) => vert_id,
                    None => {
                        let msg = concat_str("unknown vertex: ", vert_uuid.as_str());
                        proof {
                            assert(names_v[i] == vert_uuid);
                            assert(first_unresolved(vkeys, names_v, 0) == i);
                            assert(face_fault(d, f) == Some(msg@));
                            lemma_face_error_skip(d, f);
                            assert(topology_error(d) == Some(msg@));
                        }
                        return Err(msg);
                    },
                };
                proof {
                    assert(names_v[i] == vert_uuid);
                    assert(fvl[f] == resolved(vkeys, names_v));
                    assert(fvl[f][i] == vert_id);
                    assert(topology.faces@.contains_key(id));
                }
                let ghost before = topology;
                match topology.connect_face_vert(id, vert_id) {
                    Ok(()) => {},
                    Err(e) => {
                        return Err(String::from_str(e));
                    },
                }
                proof {
                    assert forall|k: int| 0 <= k < f + 1 implies (#[trigger] topology.faces@[nth_fresh_id(
                        k,
                    )]).verts@ == dedup(lists_upto(fvl, f, i + 1)[k]) by {
                        if k == f {
                            lemma_dedup_step(fvl[f], i);
                            assert(lists_upto(fvl, f, i + 1)[k] == fvl[f].take(i + 1));
                            assert(lists_upto(fvl, f, i)[k] == fvl[f].take(i));
                        } else {
                            assert(nth_fresh_id(k) != id);
                        }
                    }
                    assert forall|k: int| 0 <= k < f + 1 implies (#[trigger] topology.faces@[nth_fresh_id(
                        k,
                    )]).edges@ == dedup(fel[k]) by {
                        assert(before.faces@[nth_fresh_id(k)].edges@ == dedup(fel[k]));
                    }
                    assert forall|k: int| 0 <= k < f + 1 implies #[trigger] topology.faces@[nth_fresh_id(k)].same_attributes(
                        before.faces@[nth_fresh_id(k)],
                    ) by {}
                    assert forall|g: Id| #[trigger] topology.faces@.contains_key(g) implies topology.faces@[g].cells@
                        == sources_linking(cfl, g, 0) by {
                        assert(before.faces@.contains_key(g));
                    }
                }
            }
            proof {
                lemma_lists_upto_done(fvl, f);
                assert(face_fault(d, f) is None);
            }
        }
        proof {
            lemma_face_error_skip(d, d.faces@.len() as int);
        }

        for (uuid, cell) in it: cell_entries
            invariant
                it.seq() == d.cells@,
                d == data,
                fkeys == keys_of(d.faces@),
                el == edge_vert_lists(d),
                fel == face_edge_lists(d),
                fvl == face_vert_lists(d),
                cfl == cell_face_lists(d),
                d.cells@.len() < u32::MAX,
                topology.wf(),
                topology.fresh_counts(
                    d.verts@.len() as int,
                    d.edges@.len() as int,
                    d.faces@.len() as int,
                    it.index() as int,
                ),
                topology.verts_read(d, d.verts@.len() as int),
                topology.edges_read(d, d.edges@.len() as int),
                topology.faces_read(d, frame_of, d.faces@.len() as int),
                topology.cells_read(d, it.index() as int),
                topology.vert_edges_are(el, d.edges@.len() as int),
                topology.edge_verts_are(el, d.edges@.len() as int),
                topology.edge_faces_are(fel, d.faces@.len() as int),
                topology.face_edges_are(fel, d.faces@.len() as int),
                topology.face_verts_are(fvl, d.faces@.len() as int),
                topology.face_cells_are(cfl, it.index() as int),
                topology.cell_faces_are(cfl, it.index() as int),
                faces@.len() == fkeys.len(),
                table_view(faces@) == fresh_table(fkeys, fkeys.len() as int),
                edge_error(d, 0) is None,
                face_error(d, 0) is None,
                cell_error(d, 0) == cell_error(d, it.index() as int),
        {
            let ghost c = it.index() as int;
            let ghost names = cell.faces@;
            proof {
                assert(d.cells@[c] == (uuid, cell));
            }
            let id = topology.add_cell(uuid, cell.dictionary);
            proof {
                assert(id == nth_fresh_id(c));
                assert forall|f: Id| #[trigger] topology.faces@.contains_key(f) implies topology.faces@[f].cells@
                    == sources_linking(lists_upto(cfl, c, 0), f, c + 1) by {
                    lemma_sources_linking_start(cfl, f, c);
                }
                assert forall|k: int| 0 <= k < c + 1 implies (#[trigger] topology.cells@[nth_fresh_id(k)]).faces@
                    == dedup(lists_upto(cfl, c, 0)[k]) by {
                    if k == c {
                        assert(lists_upto(cfl, c, 0)[k] =~= Seq::<Id>::empty());
                    }
                }
            }
            for face_uuid in fit: cell.faces
                invariant
                    fit.seq() == names,
                    d == data,
                    0 <= c < d.cells@.len(),
                    names == d.cells@[c].1.faces@,
                    id == nth_fresh_id(c),
                    fkeys == keys_of(d.faces@),
                    el == edge_vert_lists(d),
                    fel == face_edge_lists(d),
                    fvl == face_vert_lists(d),
                    cfl == cell_face_lists(d),
                    d.cells@.len() < u32::MAX,
                    topology.wf(),
                    topology.fresh_counts(
                        d.verts@.len() as int,
                        d.edges@.len() as int,
                        d.faces@.len() as int,
                        c + 1,
                    ),
                    topology.verts_read(d, d.verts@.len() as int),
                    topology.edges_read(d, d.edges@.len() as int),
                    topology.faces_read(d, frame_of, d.faces@.len() as int),
                    topology.cells_read(d, c + 1),
                    topology.vert_edges_are(el, d.edges@.len() as int),
                    topology.edge_verts_are(el, d.edges@.len() as int),
                    topology.edge_faces_are(fel, d.faces@.len() as int),
                    topology.face_edges_are(fel, d.faces@.len() as int),
                    topology.face_verts_are(fvl, d.faces@.len() as int),
                    topology.face_cells_are(lists_upto(cfl, c, fit.index() as int), c + 1),
                    topology.cell_faces_are(lists_upto(cfl, c, fit.index() as int), c + 1),
                    faces@.len() == fkeys.len(),
                    table_view(faces@) == fresh_table(fkeys, fkeys.len() as int),
                    edge_error(d, 0) is None,
                    face_error(d, 0) is None,
                    cell_error(d, 0) == cell_error(d, c),
                    first_unresolved(fkeys, names, 0) == first_unresolved(fkeys, names, fit.index() as int),
            {
                let ghost i = fit.index() as int;
                let face_id = match lookup_uuid(&faces, face_uuid.as_str(), Ghost(fkeys)) {
                    Some(face_id) => face_id,
                    None => {
                        let msg = concat_str("unknown face: ", face_uuid.as_str());
                        proof {
                            assert(names[i] == face_uuid);
                            assert(first_unresolved(fkeys, names, 0) == i);
                            assert(cell_error(d, c) == Some(msg@));
                            assert(topology_error(d) == Some(msg@));
                        }
                        return Err(msg);
                    },
                };
                proof {
                    assert(names[i] == face_uuid);
                    assert(cfl[c] == resolved(fkeys, names));
                    assert(cfl[c][i] == face_id);
                    lemma_last_index_below(fkeys, face_uuid@, fkeys.len() as int);
                    assert(topology.faces@.contains_key(face_id));
                    assert(topology.cells@.contains_key(id));
                }
                let ghost before = topology;
                match topology.connect_cell_face(id, face_id) {
                    Ok(()) => {},
                    Err(e) => {
                        return Err(String::from_str(e));
                    },
                }
                proof {
                    assert forall|g: Id| #[trigger] topology.faces@.contains_key(g) implies topology.faces@[g].cells@
                        == sources_linking(lists_upto(cfl, c, i + 1), g, c + 1) by {
                        lemma_sources_linking_step(cfl, g, c, i);
                        assert(before.faces@.contains_key(g));
                    }
                    assert forall|k: int| 0 <= k < c + 1 implies (#[trigger] topology.cells@[nth_fresh_id(
                        k,
                    )]).faces@ == dedup(lists_upto(cfl, c, i + 1)[k]) by {
                        if k == c {
                            lemma_dedup_step(cfl[c], i);
                            assert(lists_upto(cfl, c, i + 1)[k] == cfl[c].take(i + 1));
                            assert(lists_upto(cfl, c, i)[k] == cfl[c].take(i));
                        } else {
                            assert(nth_fresh_id(k) != id);
                        }
                    }
                    assert forall|k: int| 0 <= k < d.faces@.len() implies #[trigger] topology.faces@[nth_fresh_id(
                        k,
                    )].same_attributes(before.faces@[nth_fresh_id(k)]) by {}
                    assert forall|k: int| 0 <= k < d.faces@.len() implies (#[trigger] topology.faces@[nth_fresh_id(
                        k,
                    )]).edges@ == dedup(fel[k]) by {
                        assert(before.faces@[nth_fresh_id(k)].edges@ == dedup(fel[k]));
                    }
                    assert forall|k: int| 0 <= k < d.faces@.len() implies (#[trigger] topology.faces@[nth_fresh_id(
                        k,
                    )]).verts@ == dedup(fvl[k]) by {
                        assert(before.faces@[nth_fresh_id(k)].verts@ == dedup(fvl[k]));
                    }
                    assert forall|k: int| 0 <= k < c + 1 implies {
                        let e = #[trigger] topology.cells@[nth_fresh_id(k)];
                        &&& e.uuid == d.cells@[k].0
                        &&& e.dictionary == d.cells@[k].1.dictionary
                    } by {
                        assert(before.cells@[nth_fresh_id(k)].uuid == d.cells@[k].0);
                    }
                }
            }
            proof {
                lemma_lists_upto_done(cfl, c);
            }
        }
        Ok(topology)
    }
}

/// A cell complex read from data links its elements both ways: a vertex
/// lists an edge exactly when the edge lists the vertex, an edge lists a
/// face exactly when the face lists the edge, and a face lists a cell
/// exactly when the cell lists the face.
pub proof fn law_read_links_both_ways<P, W, N, U, F: Fn(&P, &U) -> W>(
    t: Topology<P, W, N>,
    data: TopologyData<P, U>,
    frame_of: F,
)
    requires
        t.built_from(data, frame_of),
        data.edges@.len() < u32::MAX,
        data.faces@.len() < u32::MAX,
        data.cells@.len() < u32::MAX,
    ensures
        forall|v: Id, e: Id|
            t.verts@.contains_key(v) && t.edges@.contains_key(e) ==> (#[trigger] t.verts@[v].edges@.contains(e)
                <==> #[trigger] t.edges@[e].verts@.contains(v)),
        forall|e: Id, f: Id|
            t.edges@.contains_key(e) && t.faces@.contains_key(f) ==> (#[trigger] t.edges@[e].faces@.contains(f)
                <==> #[trigger] t.faces@[f].edges@.contains(e)),
        forall|f: Id, c: Id|
            t.faces@.contains_key(f) && t.cells@.contains_key(c) ==> (#[trigger] t.faces@[f].cells@.contains(c)
                <==> #[trigger] t.cells@[c].faces@.contains(f)),
{
    let el = edge_vert_lists(data);
    let fel = face_edge_lists(data);
    let cfl = cell_face_lists(data);
    assert forall|v: Id, e: Id|
        t.verts@.contains_key(v) && t.edges@.contains_key(e) implies (#[trigger] t.verts@[v].edges@.contains(e)
            <==> #[trigger] t.edges@[e].verts@.contains(v)) by {
        let j = e.index as int;
        assert(e == nth_fresh_id(j));
        lemma_sources_linking_contains(el, v, data.edges@.len() as int, j);
        lemma_dedup_contains(el[j], v);
    }
    assert forall|e: Id, f: Id|
        t.edges@.contains_key(e) && t.faces@.contains_key(f) implies (#[trigger] t.edges@[e].faces@.contains(f)
            <==> #[trigger] t.faces@[f].edges@.contains(e)) by {
        let j = f.index as int;
        assert(f == nth_fresh_id(j));
        lemma_sources_linking_contains(fel, e, data.faces@.len() as int, j);
        lemma_dedup_contains(fel[j], e);
    }
    assert forall|f: Id, c: Id|
        t.faces@.contains_key(f) && t.cells@.contains_key(c) implies (#[trigger] t.faces@[f].cells@.contains(c)
            <==> #[trigger] t.cells@[c].faces@.contains(f)) by {
        let j = c.index as int;
        assert(c == nth_fresh_id(j));
        lemma_sources_linking_contains(cfl, f, data.cells@.len() as int, j);
        lemma_dedup_contains(cfl[j], f);
    }
}

/// With no fault in the faces before `f`, the first face error is that of
/// the faces from `f` on.
proof fn lemma_face_error_skip<P, U>(data: TopologyData<P, U>, f: int)
    requires
        0 <= f <= data.faces@.len(),
        forall|g: int| 0 <= g < f ==> #[trigger] face_fault(data, g) is None,
    ensures
        face_error(data, 0) == face_error(data, f),
    decreases f,
{
    if f > 0 {
        lemma_face_error_skip(data, f - 1);
        assert(face_fault(data, f - 1) is None);
    }
}

} // verus!
