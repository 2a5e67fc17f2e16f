use vstd::prelude::*;
use crate::arena::Arena;
use crate::base_types::{Dictionary, Id};
use crate::text::{
    concat_str, decimal, decimal_string, fresh_table, id_of_uuid, keys_of, lemma_last_index_below,
    lookup_uuid, nth_fresh_id, record_uuid, str_eq, table_view, first_unresolved, is_fresh_id_below,
};

verus! {

/// What a layer or a composite is made of: a material or a composite.
#[derive(Clone, Copy, PartialEq, Eq, Structural)]
pub enum MatOrCompId {
    Material(Id),
    Composite(Id),
}

/// A building material. `N` is the scalar type of its physical quantities.
pub struct ConstructionMaterial<N> {
    pub uuid: String,
    pub name: String,
    pub density: N,
    pub heat_transfer_coefficient: N,
    pub specific_heat_capacity: N,
    pub dictionary: Dictionary,
}

/// A mix of two materials or composites, in the given fractions.
pub struct ConstructionComposite<N> {
    pub uuid: String,
    pub name: String,
    pub part1: MatOrCompId,
    pub part2: MatOrCompId,
    pub part1_fraction: N,
    pub part2_fraction: N,
    pub dictionary: Dictionary,
}

/// A construction layer: what it is made of, its thickness, its joint
/// priority and the joint type it asks for.
pub struct ConstructionLayer<N> {
    pub uuid: String,
    pub name: String,
    pub material: MatOrCompId,
    pub thickness: N,
    pub priority: N,
    pub joint_type: String,
    pub dictionary: Dictionary,
}

/// A stack of layers, each at its offset from the face.
pub struct ConstructionLayerGroup<N> {
    pub uuid: String,
    pub name: String,
    pub layers: Vec<Id>,
    pub layer_offsets: Vec<N>,
}

pub struct ConstructionMaterialData<N> {
    pub name: String,
    pub density: N,
    pub heat_transfer_coefficient: N,
    pub specific_heat_capacity: N,
    pub dictionary: Dictionary,
}

pub struct ConstructionCompositeData<N> {
    pub name: String,
    pub part1: String,
    pub part2: String,
    pub part1_fraction: N,
    pub part2_fraction: N,
    pub dictionary: Dictionary,
}

pub struct ConstructionLayerData<N> {
    pub name: String,
    pub material: String,
    pub thickness: N,
    pub priority: N,
    pub joint_type: String,
    pub dictionary: Dictionary,
}

pub struct ConstructionLayerGroupData<N> {
    pub name: String,
    pub layers: Vec<String>,
    pub layer_offsets: Vec<N>,
}

/// A construction set as read: each kind of element keyed by uuid, in the
/// order in which they are to be added.
pub struct ConstructionSetData<N> {
    pub materials: Vec<(String, ConstructionMaterialData<N>)>,
    pub composites: Vec<(String, ConstructionCompositeData<N>)>,
    pub layers: Vec<(String, ConstructionLayerData<N>)>,
    pub layer_groups: Vec<(String, ConstructionLayerGroupData<N>)>,
}

/// The materials, composites, layers and layer groups of a building.
pub struct ConstructionSet<N> {
    materials: Arena<ConstructionMaterial<N>>,
    composites: Arena<ConstructionComposite<N>>,
    layers: Arena<ConstructionLayer<N>>,
    layer_groups: Arena<ConstructionLayerGroup<N>>,
}

/// The first index at or after `i` among `ids` whose layer group has uuid
/// `uuid`, or -1.
pub open spec fn group_index_with_uuid<N>(
    ids: Seq<Id>,
    groups: Map<Id, ConstructionLayerGroup<N>>,
    uuid: Seq<char>,
    i: int,
) -> int
    decreases ids.len() - i,
{
    if i < 0 || i >= ids.len() {
        -1
    } else if groups[ids[i]].uuid@ == uuid {
        i
    } else {
        group_index_with_uuid(ids, groups, uuid, i + 1)
    }
}

pub proof fn lemma_group_index_with_uuid<N>(
    ids: Seq<Id>,
    groups: Map<Id, ConstructionLayerGroup<N>>,
    uuid: Seq<char>,
    i: int,
)
    requires
        0 <= i <= ids.len(),
    ensures
        -1 <= group_index_with_uuid(ids, groups, uuid, i) < ids.len(),
        group_index_with_uuid(ids, groups, uuid, i) >= 0 ==> group_index_with_uuid(ids, groups, uuid, i) >= i,
    decreases ids.len() - i,
{
    if i < ids.len() {
        lemma_group_index_with_uuid(ids, groups, uuid, i + 1);
    }
}

/// How a material-or-composite uuid resolves: a material of the first
/// `nmat` materials, else a composite of the first `ncomp` composites.
pub open spec fn resolve_part(
    mats: Seq<Seq<char>>,
    nmat: int,
    comps: Seq<Seq<char>>,
    ncomp: int,
    key: Seq<char>,
) -> Option<MatOrCompId> {
    match id_of_uuid(mats, key, nmat) {
        Some(id) => Some(MatOrCompId::Material(id)),
        None => match id_of_uuid(comps, key, ncomp) {
            Some(id) => Some(MatOrCompId::Composite(id)),
            None => None,
        },
    }
}

pub open spec fn unknown_part_message(key: Seq<char>) -> Seq<char> {
    "unknown material or composite: "@ + key
}

pub open spec fn unknown_layer_message(key: Seq<char>) -> Seq<char> {
    "unknown layer: "@ + key
}

pub open spec fn offsets_mismatch_message(uuid: Seq<char>, nlayers: nat, noffsets: nat) -> Seq<char> {
    "layer group "@ + uuid + " has "@ + decimal(nlayers) + " layers but "@ + decimal(noffsets)
        + " layer offsets"@
}

/// The first error among composites `j..`: a part that resolves neither to
/// a material nor to an earlier composite.
pub open spec fn composite_error<N>(data: ConstructionSetData<N>, j: int) -> Option<Seq<char>>
    decreases data.composites@.len() - j,
{
    let mats = keys_of(data.materials@);
    let comps = keys_of(data.composites@);
    if j < 0 || j >= data.composites@.len() {
        None
    } else {
        let c = data.composites@[j].1;
        if resolve_part(mats, mats.len() as int, comps, j, c.part1@) is None {
            Some(unknown_part_message(c.part1@))
        } else if resolve_part(mats, mats.len() as int, comps, j, c.part2@) is None {
            Some(unknown_part_message(c.part2@))
        } else {
            composite_error(data, j + 1)
        }
    }
}

/// The first error among layers `l..`: a material that resolves neither to
/// a material nor to a composite.
pub open spec fn layer_error<N>(data: ConstructionSetData<N>, l: int) -> Option<Seq<char>>
    decreases data.layers@.len() - l,
{
    let mats = keys_of(data.materials@);
    let comps = keys_of(data.composites@);
    if l < 0 || l >= data.layers@.len() {
        None
    } else if resolve_part(
        mats,
        mats.len() as int,
        comps,
        comps.len() as int,
        data.layers@[l].1.material@,
    ) is None {
        Some(unknown_part_message(data.layers@[l].1.material@))
    } else {
        layer_error(data, l + 1)
    }
}

/// The first error among layer groups `g..`: layers and offsets of
/// different counts, or a layer uuid that names no layer.
pub open spec fn group_error<N>(data: ConstructionSetData<N>, g: int) -> Option<Seq<char>>
    decreases data.layer_groups@.len() - g,
{
    if g < 0 || g >= data.layer_groups@.len() {
        None
    } else {
        let (uuid, grp) = data.layer_groups@[g];
        if grp.layers@.len() != grp.layer_offsets@.len() {
            Some(offsets_mismatch_message(uuid@, grp.layers@.len(), grp.layer_offsets@.len()))
        } else {
            let u = first_unresolved(keys_of(data.layers@), grp.layers@, 0);
            if u >= 0 {
                Some(unknown_layer_message(grp.layers@[u]@))
            } else {
                group_error(data, g + 1)
            }
        }
    }
}

/// The first error in a construction set's data, in the order in which it
/// is read: composites, then layers, then layer groups.
pub open spec fn construction_error<N>(data: ConstructionSetData<N>) -> Option<Seq<char>> {
    match composite_error(data, 0) {
        Some(e) => Some(e),
        None => match layer_error(data, 0) {
            Some(e) => Some(e),
            None => group_error(data, 0),
        },
    }
}

impl<N> ConstructionSet<N> {
    pub closed spec fn material_arena(&self) -> Arena<ConstructionMaterial<N>> {
        self.materials
    }

    pub closed spec fn composite_arena(&self) -> Arena<ConstructionComposite<N>> {
        self.composites
    }

    pub closed spec fn layer_arena(&self) -> Arena<ConstructionLayer<N>> {
        self.layers
    }

    pub closed spec fn layer_group_arena(&self) -> Arena<ConstructionLayerGroup<N>> {
        self.layer_groups
    }

    pub open spec fn wf(&self) -> bool {
        &&& self.material_arena().wf()
        &&& self.composite_arena().wf()
        &&& self.layer_arena().wf()
        &&& self.layer_group_arena().wf()
    }

    /// The first `n` materials of `data` are stored, in order, under fresh ids.
    pub open spec fn materials_match(&self, data: ConstructionSetData<N>, n: int) -> bool {
        &&& forall|id: Id| #[trigger] self.material_arena()@.contains_key(id) <==> is_fresh_id_below(id, n)
        &&& forall|k: int|
            0 <= k < n ==> {
                let m = #[trigger] self.material_arena()@[nth_fresh_id(k)];
                let (uuid, d) = data.materials@[k];
                &&& m.uuid == uuid
                &&& m.name == d.name
                &&& m.density == d.density
                &&& m.heat_transfer_coefficient == d.heat_transfer_coefficient
                &&& m.specific_heat_capacity == d.specific_heat_capacity
                &&& m.dictionary == d.dictionary
            }
    }

    /// The first `n` composites of `data` are stored, in order, under fresh
    /// ids, each part resolved against the materials and earlier composites.
    pub open spec fn composites_match(&self, data: ConstructionSetData<N>, n: int) -> bool {
        let mats = keys_of(data.materials@);
        let comps = keys_of(data.composites@);
        &&& forall|id: Id| #[trigger] self.composite_arena()@.contains_key(id) <==> is_fresh_id_below(id, n)
        &&& forall|k: int|
            0 <= k < n ==> {
                let c = #[trigger] self.composite_arena()@[nth_fresh_id(k)];
                let (uuid, d) = data.composites@[k];
                &&& c.uuid == uuid
                &&& c.name == d.name
                &&& Some(c.part1) == resolve_part(mats, mats.len() as int, comps, k, d.part1@)
                &&& Some(c.part2) == resolve_part(mats, mats.len() as int, comps, k, d.part2@)
                &&& c.part1_fraction == d.part1_fraction
                &&& c.part2_fraction == d.part2_fraction
                &&& c.dictionary == d.dictionary
            }
    }

    /// The first `n` layers of `data` are stored, in order, under fresh ids,
    /// each material resolved against all materials and composites.
    pub open spec fn layers_match(&self, data: ConstructionSetData<N>, n: int) -> bool {
        let mats = keys_of(data.materials@);
        let comps = keys_of(data.composites@);
        &&& forall|id: Id| #[trigger] self.layer_arena()@.contains_key(id) <==> is_fresh_id_below(id, n)
        &&& forall|k: int|
            0 <= k < n ==> {
                let l = #[trigger] self.layer_arena()@[nth_fresh_id(k)];
                let (uuid, d) = data.layers@[k];
                &&& l.uuid == uuid
                &&& l.name == d.name
                &&& Some(l.material) == resolve_part(mats, mats.len() as int, comps, comps.len() as int, d.material@)
                &&& l.thickness == d.thickness
                &&& l.priority == d.priority
                &&& l.joint_type == d.joint_type
                &&& l.dictionary == d.dictionary
            }
    }

    /// The first `n` layer groups of `data` are stored, in order, under fresh
    /// ids, each layer uuid resolved against all layers.
    pub open spec fn layer_groups_match(&self, data: ConstructionSetData<N>, n: int) -> bool {
        let lays = keys_of(data.layers@);
        &&& forall|id: Id| #[trigger] self.layer_group_arena()@.contains_key(id) <==> is_fresh_id_below(id, n)
        &&& forall|k: int|
            0 <= k < n ==> {
                let g = #[trigger] self.layer_group_arena()@[nth_fresh_id(k)];
                let (uuid, d) = data.layer_groups@[k];
                &&& g.uuid == uuid
                &&& g.name == d.name
                &&& g.layers@.len() == d.layers@.len()
                &&& forall|i: int|
                    0 <= i < d.layers@.len() ==> Some(#[trigger] g.layers@[i]) == id_of_uuid(
                        lays,
                        d.layers@[i]@,
                        lays.len() as int,
                    )
                &&& g.layer_offsets == d.layer_offsets
            }
    }

    /// The arenas have opened exactly the given numbers of slots and freed none.
    pub open spec fn fresh_counts(&self, nmat: int, ncomp: int, nlay: int, ngroup: int) -> bool {
        &&& self.material_arena().slot_count() == nmat
        &&& self.composite_arena().slot_count() == ncomp
        &&& self.layer_arena().slot_count() == nlay
        &&& self.layer_group_arena().slot_count() == ngroup
        &&& self.material_arena().free_indices().len() == 0
        &&& self.composite_arena().free_indices().len() == 0
        &&& self.layer_arena().free_indices().len() == 0
        &&& self.layer_group_arena().free_indices().len() == 0
    }

    /// Whether this set holds exactly what `data` describes, each kind of
    /// element stored in order under fresh ids, each reference resolved.
    pub open spec fn built_from(&self, data: ConstructionSetData<N>) -> bool {
        &&& self.wf()
        &&& self.fresh_counts(
            data.materials@.len() as int,
            data.composites@.len() as int,
            data.layers@.len() as int,
            data.layer_groups@.len() as int,
        )
        &&& self.materials_match(data, data.materials@.len() as int)
        &&& self.composites_match(data, data.composites@.len() as int)
        &&& self.layers_match(data, data.layers@.len() as int)
        &&& self.layer_groups_match(data, data.layer_groups@.len() as int)
    }

    pub fn new() -> (cs: Self)
        ensures
            cs.wf(),
            cs.material_arena()@ == Map::<Id, ConstructionMaterial<N>>::empty(),
            cs.composite_arena()@ == Map::<Id, ConstructionComposite<N>>::empty(),
            cs.layer_arena()@ == Map::<Id, ConstructionLayer<N>>::empty(),
            cs.layer_group_arena()@ == Map::<Id, ConstructionLayerGroup<N>>::empty(),
            cs.material_arena().slot_count() == 0 && cs.composite_arena().slot_count() == 0,
            cs.layer_arena().slot_count() == 0 && cs.layer_group_arena().slot_count() == 0,
            cs.material_arena().free_indices().len() == 0 && cs.composite_arena().free_indices().len() == 0,
            cs.layer_arena().free_indices().len() == 0 && cs.layer_group_arena().free_indices().len() == 0,
    {
        ConstructionSet {
            materials: Arena::new(),
            composites: Arena::new(),
            layers: Arena::new(),
            layer_groups: Arena::new(),
        }
    }

    pub fn material(&self, id: Id) -> (r: Option<&ConstructionMaterial<N>>)
        requires
            self.wf(),
        ensures
            r == (if self.material_arena()@.contains_key(id) {
                Some(&self.material_arena()@[id])
            } else {
                None
            }),
    {
        self.materials.get(id)
    }

    pub fn composite(&self, id: Id) -> (r: Option<&ConstructionComposite<N>>)
        requires
            self.wf(),
        ensures
            r == (if self.composite_arena()@.contains_key(id) {
                Some(&self.composite_arena()@[id])
            } else {
                None
            }),
    {
        self.composites.get(id)
    }

    pub fn layer(&self, id: Id) -> (r: Option<&ConstructionLayer<N>>)
        requires
            self.wf(),
        ensures
            r == (if self.layer_arena()@.contains_key(id) {
                Some(&self.layer_arena()@[id])
            } else {
                None
            }),
    {
        self.layers.get(id)
    }

    pub fn layer_group(&self, id: Id) -> (r: Option<&ConstructionLayerGroup<N>>)
        requires
            self.wf(),
        ensures
            r == (if self.layer_group_arena()@.contains_key(id) {
                Some(&self.layer_group_arena()@[id])
            } else {
                None
            }),
    {
        self.layer_groups.get(id)
    }

    pub fn add_material(
        &mut self,
        uuid: String,
        name: String,
        density: N,
        heat_transfer_coefficient: N,
        specific_heat_capacity: N,
        dictionary: Dictionary,
    ) -> (id: Id)
        requires
            old(self).wf(),
            old(self).material_arena().slot_count() < u32::MAX,
        ensures
            final(self).wf(),
            id == old(self).material_arena().next_id(),
            !old(self).material_arena()@.contains_key(id),
            final(self).material_arena()@ == old(self).material_arena()@.insert(
                id,
                final(self).material_arena()@[id],
            ),
            final(self).material_arena()@[id].uuid == uuid,
            final(self).material_arena()@[id].name == name,
            final(self).material_arena()@[id].density == density,
            final(self).material_arena()@[id].heat_transfer_coefficient == heat_transfer_coefficient,
            final(self).material_arena()@[id].specific_heat_capacity == specific_heat_capacity,
            final(self).material_arena()@[id].dictionary == dictionary,
            final(self).material_arena().layout_after_insert(&old(self).material_arena()),
            final(self).composite_arena() == old(self).composite_arena(),
            final(self).layer_arena() == old(self).layer_arena(),
            final(self).layer_group_arena() == old(self).layer_group_arena(),
    {
        self.materials.insert(
            ConstructionMaterial {
                uuid,
                name,
                density,
                heat_transfer_coefficient,
                specific_heat_capacity,
                dictionary,
            },
        )
    }

    pub fn add_composite(
        &mut self,
        uuid: String,
        name: String,
        part1: MatOrCompId,
        part2: MatOrCompId,
        part1_fraction: N,
        part2_fraction: N,
        dictionary: Dictionary,
    ) -> (id: Id)
        requires
            old(self).wf(),
            old(self).composite_arena().slot_count() < u32::MAX,
        ensures
            final(self).wf(),
            id == old(self).composite_arena().next_id(),
            !old(self).composite_arena()@.contains_key(id),
            final(self).composite_arena()@ == old(self).composite_arena()@.insert(
                id,
                final(self).composite_arena()@[id],
            ),
            final(self).composite_arena()@[id].uuid == uuid,
            final(self).composite_arena()@[id].name == name,
            final(self).composite_arena()@[id].part1 == part1,
            final(self).composite_arena()@[id].part2 == part2,
            final(self).composite_arena()@[id].part1_fraction == part1_fraction,
            final(self).composite_arena()@[id].part2_fraction == part2_fraction,
            final(self).composite_arena()@[id].dictionary == dictionary,
            final(self).composite_arena().layout_after_insert(&old(self).composite_arena()),
            final(self).material_arena() == old(self).material_arena(),
            final(self).layer_arena() == old(self).layer_arena(),
            final(self).layer_group_arena() == old(self).layer_group_arena(),
    {
        self.composites.insert(
            ConstructionComposite { uuid, name, part1, part2, part1_fraction, part2_fraction, dictionary },
        )
    }

    pub fn add_layer(
        &mut self,
        uuid: String,
        name: String,
        material: MatOrCompId,
        thickness: N,
        priority: N,
        joint_type: String,
        dictionary: Dictionary,
    ) -> (id: Id)
        requires
            old(self).wf(),
            old(self).layer_arena().slot_count() < u32::MAX,
        ensures
            final(self).wf(),
            id == old(self).layer_arena().next_id(),
            !old(self).layer_arena()@.contains_key(id),
            final(self).layer_arena()@ == old(self).layer_arena()@.insert(id, final(self).layer_arena()@[id]),
            final(self).layer_arena()@[id].uuid == uuid,
            final(self).layer_arena()@[id].name == name,
            final(self).layer_arena()@[id].material == material,
            final(self).layer_arena()@[id].thickness == thickness,
            final(self).layer_arena()@[id].priority == priority,
            final(self).layer_arena()@[id].joint_type == joint_type,
            final(self).layer_arena()@[id].dictionary == dictionary,
            final(self).layer_arena().layout_after_insert(&old(self).layer_arena()),
            final(self).material_arena() == old(self).material_arena(),
            final(self).composite_arena() == old(self).composite_arena(),
            final(self).layer_group_arena() == old(self).layer_group_arena(),
    {
        self.layers.insert(
            ConstructionLayer { uuid, name, material, thickness, priority, joint_type, dictionary },
        )
    }

    pub fn add_layer_group(&mut self, uuid: String, name: String, layers: Vec<Id>, layer_offsets: Vec<N>) -> (id:
        Id)
        requires
            old(self).wf(),
            old(self).layer_group_arena().slot_count() < u32::MAX,
        ensures
            final(self).wf(),
            id == old(self).layer_group_arena().next_id(),
            !old(self).layer_group_arena()@.contains_key(id),
            final(self).layer_group_arena()@ == old(self).layer_group_arena()@.insert(
                id,
                final(self).layer_group_arena()@[id],
            ),
            final(self).layer_group_arena()@[id].uuid == uuid,
            final(self).layer_group_arena()@[id].name == name,
            final(self).layer_group_arena()@[id].layers == layers,
            final(self).layer_group_arena()@[id].layer_offsets == layer_offsets,
            final(self).layer_group_arena().layout_after_insert(&old(self).layer_group_arena()),
            final(self).material_arena() == old(self).material_arena(),
            final(self).composite_arena() == old(self).composite_arena(),
            final(self).layer_arena() == old(self).layer_arena(),
    {
        self.layer_groups.insert(ConstructionLayerGroup { uuid, name, layers, layer_offsets })
    }

    /// The first layer group, in slot order, with uuid `uuid`.
    pub fn layer_group_by_uuid(&self, uuid: &str) -> (r: Option<Id>)
        requires
            self.wf(),
        ensures
            r == (if group_index_with_uuid(
                self.layer_group_arena().live_ids(),
                self.layer_group_arena()@,
                uuid@,
                0,
            ) >= 0 {
                Some(
                    self.layer_group_arena().live_ids()[group_index_with_uuid(
                        self.layer_group_arena().live_ids(),
                        self.layer_group_arena()@,
                        uuid@,
                        0,
                    )],
                )
            } else {
                None
            }),
    {
        let groups = self.layer_groups.iter_with_ids();
        let ghost ids = self.layers_group_ids_spec();
        proof {
            lemma_group_index_with_uuid(ids, self.layer_groups@, uuid@, 0);
        }
        let mut i: usize = 0;
        while i < groups.len()
            invariant
                ids == self.layer_group_arena().live_ids(),
                groups@.len() == ids.len(),
                forall|k: int|
                    0 <= k < groups@.len() ==> (#[trigger] groups@[k]).0 == ids[k] && *groups@[k].1
                        == self.layer_groups@[ids[k]],
                i <= groups@.len(),
                group_index_with_uuid(ids, self.layer_groups@, uuid@, 0) == group_index_with_uuid(
                    ids,
                    self.layer_groups@,
                    uuid@,
                    i as int,
                ),
            decreases groups@.len() - i,
        {
            let (id, group) = groups[i];
            if str_eq(group.uuid.as_str(), uuid) {
                return Some(id);
            }
            i = i + 1;
        }
        None
    }

    closed spec fn layers_group_ids_spec(&self) -> Seq<Id> {
        self.layer_groups.live_ids()
    }

    pub fn material_ids(&self) -> (r: Vec<Id>)
        requires
            self.wf(),
        ensures
            r@ == self.material_arena().live_ids(),
    {
        self.materials.ids()
    }

    pub fn composite_ids(&self) -> (r: Vec<Id>)
        requires
            self.wf(),
        ensures
            r@ == self.composite_arena().live_ids(),
    {
        self.composites.ids()
    }

    pub fn layer_ids(&self) -> (r: Vec<Id>)
        requires
            self.wf(),
        ensures
            r@ == self.layer_arena().live_ids(),
    {
        self.layers.ids()
    }

    pub fn layer_group_ids(&self) -> (r: Vec<Id>)
        requires
            self.wf(),
        ensures
            r@ == self.layer_group_arena().live_ids(),
    {
        self.layer_groups.ids()
    }

    /// Resolves a uuid to a material, else to a composite, through the
    /// uuid tables of the materials and composites added so far.
    fn resolve_mat_or_comp(
        &self,
        uuid: &str,
        materials: &Vec<(String, Id)>,
        composites: &Vec<(String, Id)>,
        Ghost(mats): Ghost<Seq<Seq<char>>>,
        Ghost(comps): Ghost<Seq<Seq<char>>>,
    ) -> (r: Result<MatOrCompId, String>)
        requires
            table_view(materials@) == fresh_table(mats, materials@.len() as int),
            materials@.len() <= mats.len(),
            table_view(composites@) == fresh_table(comps, composites@.len() as int),
            composites@.len() <= comps.len(),
        ensures
            match resolve_part(mats, materials@.len() as int, comps, composites@.len() as int, uuid@) {
                Some(p) => r == Ok::<MatOrCompId, String>(p),
                None => r matches Err(e) && e@ == unknown_part_message(uuid@),
            },
    {
        if let Some(id) = lookup_uuid(materials, uuid, Ghost(mats)) {
            return Ok(MatOrCompId::Material(id));
        }
        if let Some(id) = lookup_uuid(composites, uuid, Ghost(comps)) {
            return Ok(MatOrCompId::Composite(id));
        }
        Err(concat_str("unknown material or composite: ", uuid))
    }

    /// Builds a construction set from its data: materials, then composites
    /// (whose parts may name materials and earlier composites), then layers,
    /// then layer groups, each stored in order under fresh ids. Fails with
    /// the first reference that resolves to nothing, or the first layer group
    /// whose layer and offset counts differ.
    pub fn from_data(data: ConstructionSetData<N>) -> (r: Result<Self, String>)
        requires
            data.materials@.len() < u32::MAX,
            data.composites@.len() < u32::MAX,
            data.layers@.len() < u32::MAX,
            data.layer_groups@.len() < u32::MAX,
        ensures
            r matches Ok(cs) ==> construction_error(data) is None && cs.built_from(data),
            r matches Err(e) ==> construction_error(data) == Some(e@),
    {
        let ghost d = data;
        let ConstructionSetData {
            materials: material_entries,
            composites: composite_entries,
            layers: layer_entries,
            layer_groups: layer_group_entries,
        } = data;
        let ghost mats = keys_of(d.materials@);
        let ghost comps = keys_of(d.composites@);
        let ghost lays = keys_of(d.layers@);
        let mut construction_set = ConstructionSet::new();
        let mut materials: Vec<(String, Id)> = Vec::new();
        let mut composites: Vec<(String, Id)> = Vec::new();
        let mut layers: Vec<(String, Id)> = Vec::new();
        proof {
            assert(construction_set.materials_match(d, 0));
            assert(construction_set.composites_match(d, 0));
            assert(construction_set.layers_match(d, 0));
            assert(construction_set.layer_groups_match(d, 0));
            assert(table_view(materials@) =~= fresh_table(mats, 0));
            assert(table_view(composites@) =~= fresh_table(comps, 0));
            assert(table_view(layers@) =~= fresh_table(lays, 0));
        }

        for (uuid, material) in it: material_entries
            invariant
                it.seq() == d.materials@,
                mats == keys_of(d.materials@),
                d.materials@.len() < u32::MAX,
                construction_set.wf(),
                construction_set.fresh_counts(it.index() as int, 0, 0, 0),
                construction_set.materials_match(d, it.index() as int),
                construction_set.composites_match(d, 0),
                construction_set.layers_match(d, 0),
                construction_set.layer_groups_match(d, 0),
                materials@.len() == it.index(),
                table_view(materials@) == fresh_table(mats, it.index() as int),
        {
            let ghost k = it.index();
            let id = construction_set.add_material(
                uuid.clone(),
                material.name,
                material.density,
                material.heat_transfer_coefficient,
                material.specific_heat_capacity,
                material.dictionary,
            );
            proof {
                assert(id == nth_fresh_id(k as int));
                assert(mats[k as int] == uuid@);
            }
            record_uuid(&mut materials, uuid, id, Ghost(mats));
        }

        for (uuid, composite) in it: composite_entries
            invariant
                it.seq() == d.composites@,
                d == data,
                mats == keys_of(d.materials@),
                comps == keys_of(d.composites@),
                d.composites@.len() < u32::MAX,
                construction_set.wf(),
                construction_set.fresh_counts(d.materials@.len() as int, it.index() as int, 0, 0),
                construction_set.materials_match(d, d.materials@.len() as int),
                construction_set.composites_match(d, it.index() as int),
                construction_set.layers_match(d, 0),
                construction_set.layer_groups_match(d, 0),
                materials@.len() == mats.len(),
                table_view(materials@) == fresh_table(mats, mats.len() as int),
                composites@.len() == it.index(),
                table_view(composites@) == fresh_table(comps, it.index() as int),
                composite_error(d, 0) == composite_error(d, it.index() as int),
        {
            let ghost k = it.index();
            proof {
                assert(d.composites@[k as int] == (uuid, composite));
            }
            let part1 = match construction_set.resolve_mat_or_comp(
                composite.part1.as_str(),
                &materials,
                &composites,
                Ghost(mats),
                Ghost(comps),
            ) {
                Ok(p) => p,
                Err(e) => {
                    proof {
                        assert(composite_error(d, k as int) == Some(e@));
                        assert(construction_error(d) == Some(e@));
                    }
                    return Err(e);
                },
            };
            let part2 = match construction_set.resolve_mat_or_comp(
                composite.part2.as_str(),
                &materials,
                &composites,
                Ghost(mats),
                Ghost(comps),
            ) {
                Ok(p) => p,
                Err(e) => {
                    proof {
                        assert(composite_error(d, k as int) == Some(e@));
                        assert(construction_error(d) == Some(e@));
                    }
                    return Err(e);
                },
            };
            let id = construction_set.add_composite(
                uuid.clone(),
                composite.name,
                part1,
                part2,
                composite.part1_fraction,
                composite.part2_fraction,
                composite.dictionary,
            );
            proof {
                assert(id == nth_fresh_id(k as int));
                assert(comps[k as int] == uuid@);
            }
            record_uuid(&mut composites, uuid, id, Ghost(comps));
        }

        for (uuid, layer) in it: layer_entries
            invariant
                it.seq() == d.layers@,
                d == data,
                mats == keys_of(d.materials@),
                comps == keys_of(d.composites@),
                lays == keys_of(d.layers@),
                d.layers@.len() < u32::MAX,
                construction_set.wf(),
                construction_set.fresh_counts(
                    d.materials@.len() as int,
                    d.composites@.len() as int,
                    it.index() as int,
                    0,
                ),
                construction_set.materials_match(d, d.materials@.len() as int),
                construction_set.composites_match(d, d.composites@.len() as int),
                construction_set.layers_match(d, it.index() as int),
                construction_set.layer_groups_match(d, 0),
                materials@.len() == mats.len(),
                table_view(materials@) == fresh_table(mats, mats.len() as int),
                composites@.len() == comps.len(),
                table_view(composites@) == fresh_table(comps, comps.len() as int),
                layers@.len() == it.index(),
                table_view(layers@) == fresh_table(lays, it.index() as int),
                composite_error(d, 0) is None,
                layer_error(d, 0) == layer_error(d, it.index() as int),
        {
            let ghost k = it.index();
            proof {
                assert(d.layers@[k as int] == (uuid, layer));
            }
            let material = match construction_set.resolve_mat_or_comp(
                layer.material.as_str(),
                &materials,
                &composites,
                Ghost(mats),
                Ghost(comps),
            ) {
                Ok(p) => p,
                Err(e) => {
                    proof {
                        assert(layer_error(d, k as int) == Some(e@));
                        assert(construction_error(d) == Some(e@));
                    }
                    return Err(e);
                },
            };
            let id = construction_set.add_layer(
                uuid.clone(),
                layer.name,
                material,
                layer.thickness,
                layer.priority,
                layer.joint_type,
                layer.dictionary,
            );
            proof {
                assert(id == nth_fresh_id(k as int));
                assert(lays[k as int] == uuid@);
            }
            record_uuid(&mut layers, uuid, id, Ghost(lays));
        }

        for (uuid, group) in it: layer_group_entries
            invariant
                it.seq() == d.layer_groups@,
                d == data,
                mats == keys_of(d.materials@),
                comps == keys_of(d.composites@),
                lays == keys_of(d.layers@),
                d.layer_groups@.len() < u32::MAX,
                construction_set.wf(),
                construction_set.fresh_counts(
                    d.materials@.len() as int,
                    d.composites@.len() as int,
                    d.layers@.len() as int,
                    it.index() as int,
                ),
                construction_set.materials_match(d, d.materials@.len() as int),
                construction_set.composites_match(d, d.composites@.len() as int),
                construction_set.layers_match(d, d.layers@.len() as int),
                construction_set.layer_groups_match(d, it.index() as int),
                layers@.len() == lays.len(),
                table_view(layers@) == fresh_table(lays, lays.len() as int),
                composite_error(d, 0) is None,
                layer_error(d, 0) is None,
                group_error(d, 0) == group_error(d, it.index() as int),
        {
            let ghost k = it.index();
            let ghost names = group.layers@;
            proof {
                assert(d.layer_groups@[k as int] == (uuid, group));
            }
            if group.layers.len() != group.layer_offsets.len() {
                let mut msg = concat_str("layer group ", uuid.as_str());
                msg.append(" has ");
                msg.append(decimal_string(group.layers.len()).as_str());
                msg.append(" layers but ");
                msg.append(decimal_string(group.layer_offsets.len()).as_str());
                msg.append(" layer offsets");
                proof {
                    assert(group_error(d, k as int) == Some(msg@));
                    assert(construction_error(d) == Some(msg@));
                }
                return Err(msg);
            }
            let mut layer_ids: Vec<Id> = Vec::new();
            for layer_uuid in lit: group.layers
                invariant
                    lit.seq() == names,
                    d == data,
                    d.layer_groups@[k as int] == (uuid, group),
                    names == group.layers@,
                    0 <= k < d.layer_groups@.len(),
                    names.len() == d.layer_groups@[k as int].1.layer_offsets@.len(),
                    composite_error(d, 0) is None,
                    layer_error(d, 0) is None,
                    group_error(d, 0) == group_error(d, k as int),
                    lays == keys_of(d.layers@),
                    layers@.len() == lays.len(),
                    table_view(layers@) == fresh_table(lays, lays.len() as int),
                    layer_ids@.len() == lit.index(),
                    forall|i: int|
                        0 <= i < lit.index() ==> Some(#[trigger] layer_ids@[i]) == id_of_uuid(
                            lays,
                            names[i]@,
                            lays.len() as int,
                        ),
                    first_unresolved(lays, names, 0) == first_unresolved(lays, names, lit.index() as int),
            {
                let layer_id = match lookup_uuid(&layers, layer_uuid.as_str(), Ghost(lays)) {
                    Some(id) => id,
                    None => {
                        let msg = concat_str("unknown layer: ", layer_uuid.as_str());
                        proof {
                            assert(names[lit.index() as int] == layer_uuid);
                            assert(first_unresolved(lays, names, lit.index() as int) == lit.index());
                            assert(first_unresolved(lays, names, 0) == lit.index());
                            let grp = d.layer_groups@[k as int].1;
                            assert(grp.layers@ == names);
                            assert(grp.layers@.len() == grp.layer_offsets@.len());
                            assert(first_unresolved(keys_of(d.layers@), grp.layers@, 0) == lit.index());
                            assert(grp.layers@[lit.index() as int]@ == layer_uuid@);
                            assert(msg@ == unknown_layer_message(layer_uuid@));
                            assert(group_error(d, k as int) == Some(msg@));
                            assert(construction_error(d) == Some(msg@));
                        }
                        return Err(msg);
                    },
                };
                layer_ids.push(layer_id);
            }
            let id = construction_set.add_layer_group(uuid, group.name, layer_ids, group.layer_offsets);
            proof {
                assert(id == nth_fresh_id(k as int));
            }
        }
        Ok(construction_set)
    }
}

/// The layer group that [`ConstructionSet::layer_group_by_uuid`] finds is
/// a stored layer group with that uuid; when it finds none, no stored layer
/// group has that uuid.
pub proof fn law_layer_group_by_uuid<N>(cs: ConstructionSet<N>, uuid: Seq<char>)
    requires
        cs.wf(),
    ensures
        ({
            let ids = cs.layer_group_arena().live_ids();
            let i = group_index_with_uuid(ids, cs.layer_group_arena()@, uuid, 0);
            &&& i >= 0 ==> cs.layer_group_arena()@.contains_key(ids[i]) && cs.layer_group_arena()@[ids[i]].uuid@ == uuid
            &&& i < 0 ==> forall|id: Id|
                #[trigger] cs.layer_group_arena()@.contains_key(id) ==> cs.layer_group_arena()@[id].uuid@ != uuid
        }),
{
    let ids = cs.layer_group_arena().live_ids();
    let groups = cs.layer_group_arena()@;
    cs.layer_group_arena().lemma_ids_are_the_live_ids();
    lemma_group_index_with_uuid(ids, groups, uuid, 0);
    lemma_group_index_found(ids, groups, uuid, 0);
    let i = group_index_with_uuid(ids, groups, uuid, 0);
    if i >= 0 {
        assert(ids.contains(ids[i]));
    } else {
        assert forall|id: Id| #[trigger] groups.contains_key(id) implies groups[id].uuid@ != uuid by {
            assert(cs.layer_group_arena()@.contains_key(id));
            assert(ids.contains(id));
            let k = choose|k: int| 0 <= k < ids.len() && ids[k] == id;
            assert(groups[ids[k]].uuid@ != uuid);
        }
    }
}

/// What `group_index_with_uuid` finds: a group with the uuid, or, when it
/// finds none, no such group from `i` on.
proof fn lemma_group_index_found<N>(ids: Seq<Id>, groups: Map<Id, ConstructionLayerGroup<N>>, uuid: Seq<char>, i: int)
    requires
        0 <= i <= ids.len(),
    ensures
        group_index_with_uuid(ids, groups, uuid, i) >= 0 ==> groups[ids[group_index_with_uuid(ids, groups, uuid, i)]].uuid@
            == uuid,
        group_index_with_uuid(ids, groups, uuid, i) < 0 ==> forall|k: int|
            i <= k < ids.len() ==> groups[#[trigger] ids[k]].uuid@ != uuid,
    decreases ids.len() - i,
{
    if i < ids.len() {
        lemma_group_index_found(ids, groups, uuid, i + 1);
    }
}

} // verus!
