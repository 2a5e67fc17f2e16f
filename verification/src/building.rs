use vstd::prelude::*;
use crate::base_types::{ConstructionRef, EdgeOffsets, Id, JointType};
use crate::construction::{group_index_with_uuid, lemma_group_index_with_uuid, ConstructionSet};
use crate::topology::{Topology, TopologyFace};
use crate::id_list::{first_index, lemma_index_from, position_of};
use crate::text::str_eq;

verus! {

/// One layer of one face at a joint: the face, the layer's index in the
/// face's layer group, and the face's position around the joint.
#[derive(Clone, Copy, PartialEq, Eq, Hash, Structural)]
pub struct LayerRef {
    pub face_id: Id,
    pub layer_idx: usize,
    pub assembly_idx: usize,
}

/// A face meeting at a joint edge, and whether it runs counterclockwise
/// about the edge.
#[derive(Clone, Copy)]
pub struct JointAssembly {
    pub face_id: Id,
    pub is_ccw: bool,
}

/// What the joint planner reads of a construction layer: its priority and
/// its priority class, each as a rank (a higher rank for a higher value,
/// equal ranks for equal values), and its joint type.
pub struct JointLayer {
    pub priority: u64,
    pub class: u64,
    pub joint_type: String,
}

/// One joint to apply: between layer `layer_idx` of the face at
/// `face_idx` and layer `candidate_layer_idx` of the face at
/// `candidate_face_idx` (indices into the joint edge's face list).
#[derive(Clone, Copy, PartialEq, Eq, Structural)]
pub struct JointAction {
    pub face_idx: usize,
    pub candidate_face_idx: usize,
    pub layer_idx: usize,
    pub candidate_layer_idx: usize,
    pub joint_type: JointType,
}

/// Whether a layer asks for mitred joints.
pub open spec fn is_miter(l: JointLayer) -> bool {
    l.joint_type@ == "miter_joint"@
}

/// The planner's layers as sequences.
pub open spec fn layer_seqs(layers: Seq<Vec<JointLayer>>) -> Seq<Seq<JointLayer>> {
    layers.map_values(|v: Vec<JointLayer>| v@)
}

// ---------------------------------------------------------------------------
// The priority list: every layer of every assembly, by descending priority.
// ---------------------------------------------------------------------------

/// The priority entries of the layers of assembly `a`, in layer order.
pub open spec fn assembly_entries(
    asms: Seq<JointAssembly>,
    lay: Seq<Seq<JointLayer>>,
    a: int,
) -> Seq<(u64, LayerRef)> {
    Seq::new(
        lay[a].len(),
        |l: int|
            (
                lay[a][l].priority,
                LayerRef { face_id: asms[a].face_id, layer_idx: l as usize, assembly_idx: a as usize },
            ),
    )
}

/// The priority entries of the first `a` assemblies, assembly by assembly.
pub open spec fn entries_upto(asms: Seq<JointAssembly>, lay: Seq<Seq<JointLayer>>, a: int) -> Seq<
    (u64, LayerRef),
>
    decreases a,
{
    if a <= 0 {
        Seq::empty()
    } else {
        entries_upto(asms, lay, a - 1) + assembly_entries(asms, lay, a - 1)
    }
}

/// `x` inserted into `s` after every element whose priority is not below
/// that of `x`.
pub open spec fn insert_by_priority(s: Seq<(u64, LayerRef)>, x: (u64, LayerRef)) -> Seq<
    (u64, LayerRef),
>
    decreases s.len(),
{
    if s.len() == 0 {
        seq![x]
    } else if s.last().0 >= x.0 {
        s.push(x)
    } else {
        insert_by_priority(s.drop_last(), x).push(s.last())
    }
}

/// `s` stably sorted by descending priority: entries of equal priority keep
/// their order.
pub open spec fn sort_by_priority(s: Seq<(u64, LayerRef)>) -> Seq<(u64, LayerRef)>
    decreases s.len(),
{
    if s.len() == 0 {
        s
    } else {
        insert_by_priority(sort_by_priority(s.drop_last()), s.last())
    }
}

/// Whether entry `e` names an existing layer of an existing assembly, with
/// that layer's priority.
pub open spec fn valid_entry(
    asms: Seq<JointAssembly>,
    lay: Seq<Seq<JointLayer>>,
    e: (u64, LayerRef),
) -> bool {
    &&& e.1.assembly_idx < asms.len()
    &&& e.1.assembly_idx < lay.len()
    &&& e.1.layer_idx < lay[e.1.assembly_idx as int].len()
    &&& e.1.face_id == asms[e.1.assembly_idx as int].face_id
    &&& e.0 == lay[e.1.assembly_idx as int][e.1.layer_idx as int].priority
}

/// Inserting `x` at `j` is `insert_by_priority` when `j` is just past the
/// last element whose priority is not below that of `x`.
proof fn lemma_insert_by_priority_at(s: Seq<(u64, LayerRef)>, x: (u64, LayerRef), j: int)
    requires
        0 <= j <= s.len(),
        forall|k: int| j <= k < s.len() ==> s[k].0 < x.0,
        j > 0 ==> s[j - 1].0 >= x.0,
    ensures
        insert_by_priority(s, x) == s.insert(j, x),
    decreases s.len(),
{
    if s.len() == 0 {
        assert(s.insert(j, x) =~= seq![x]);
    } else if j == s.len() {
        assert(s.insert(j, x) =~= s.push(x));
    } else {
        lemma_insert_by_priority_at(s.drop_last(), x, j);
        assert(s.drop_last().insert(j, x).push(s.last()) =~= s.insert(j, x));
    }
}

/// Inserting keeps the elements and adds `x`.
proof fn lemma_insert_by_priority_elements(s: Seq<(u64, LayerRef)>, x: (u64, LayerRef))
    ensures
        insert_by_priority(s, x).len() == s.len() + 1,
        forall|k: int|
            0 <= k < insert_by_priority(s, x).len() ==> #[trigger] insert_by_priority(s, x)[k] == x
                || s.contains(insert_by_priority(s, x)[k]),
    decreases s.len(),
{
    if s.len() > 0 && s.last().0 < x.0 {
        lemma_insert_by_priority_elements(s.drop_last(), x);
        let t = insert_by_priority(s.drop_last(), x);
        let r = insert_by_priority(s, x);
        assert forall|k: int| 0 <= k < r.len() implies #[trigger] r[k] == x || s.contains(r[k]) by {
            if k < t.len() {
                if t[k] != x {
                    let m = choose|m: int| 0 <= m < s.drop_last().len() && s.drop_last()[m] == t[k];
                    assert(s[m] == t[k]);
                }
            } else {
                assert(s[s.len() - 1] == r[k]);
            }
        }
    } else if s.len() > 0 {
        let r = insert_by_priority(s, x);
        assert forall|k: int| 0 <= k < r.len() implies #[trigger] r[k] == x || s.contains(r[k]) by {
            if k < s.len() {
                assert(s[k] == r[k]);
            }
        }
    }
}

/// Sorting keeps the length, and every sorted element comes from `s`.
proof fn lemma_sort_by_priority_elements(s: Seq<(u64, LayerRef)>)
    ensures
        sort_by_priority(s).len() == s.len(),
        forall|k: int|
            0 <= k < sort_by_priority(s).len() ==> s.contains(#[trigger] sort_by_priority(s)[k]),
    decreases s.len(),
{
    if s.len() > 0 {
        let t = sort_by_priority(s.drop_last());
        lemma_sort_by_priority_elements(s.drop_last());
        lemma_insert_by_priority_elements(t, s.last());
        let r = sort_by_priority(s);
        assert forall|k: int| 0 <= k < r.len() implies s.contains(#[trigger] r[k]) by {
            if r[k] == s.last() {
                assert(s[s.len() - 1] == r[k]);
            } else {
                let m = choose|m: int| 0 <= m < t.len() && t[m] == r[k];
                let q = choose|q: int| 0 <= q < s.drop_last().len() && s.drop_last()[q] == t[m];
                assert(s[q] == r[k]);
            }
        }
    }
}

/// Every layer of every assembly, by descending priority (stable).
pub fn sorted_priority_entries(assemblies: &Vec<JointAssembly>, layers: &Vec<Vec<JointLayer>>) -> (r:
    Vec<(u64, LayerRef)>)
    requires
        assemblies@.len() == layers@.len(),
    ensures
        r@ == sort_by_priority(entries_upto(assemblies@, layer_seqs(layers@), assemblies@.len() as int)),
        forall|k: int| 0 <= k < r@.len() ==> valid_entry(assemblies@, layer_seqs(layers@), #[trigger] r@[k]),
{
    let ghost lay = layer_seqs(layers@);
    let mut entries: Vec<(u64, LayerRef)> = Vec::new();
    let mut a: usize = 0;
    while a < assemblies.len()
        invariant
            assemblies@.len() == layers@.len(),
            lay == layer_seqs(layers@),
            a <= assemblies@.len(),
            entries@ == entries_upto(assemblies@, lay, a as int),
            forall|k: int| 0 <= k < entries@.len() ==> valid_entry(assemblies@, lay, #[trigger] entries@[k]),
        decreases assemblies@.len() - a,
    {
        let group = &layers[a];
        let mut l: usize = 0;
        while l < group.len()
            invariant
                assemblies@.len() == layers@.len(),
                lay == layer_seqs(layers@),
                a < assemblies@.len(),
                group == layers@[a as int],
                l <= group@.len(),
                forall|k: int| 0 <= k < entries@.len() ==> valid_entry(assemblies@, lay, #[trigger] entries@[k]),
                entries@ == entries_upto(assemblies@, lay, a as int) + assembly_entries(
                    assemblies@,
                    lay,
                    a as int,
                ).take(l as int),
            decreases group@.len() - l,
        {
            entries.push(
                (group[l].priority, LayerRef { face_id: assemblies[a].face_id, layer_idx: l, assembly_idx: a }),
            );
            proof {
                assert(lay[a as int] == group@);
                assert(valid_entry(assemblies@, lay, entries@[entries@.len() - 1]));
                assert(assembly_entries(assemblies@, lay, a as int).take(l + 1) =~= assembly_entries(
                    assemblies@,
                    lay,
                    a as int,
                ).take(l as int).push(assembly_entries(assemblies@, lay, a as int)[l as int]));
            }
            l = l + 1;
        }
        proof {
            assert(assembly_entries(assemblies@, lay, a as int).take(l as int) =~= assembly_entries(
                assemblies@,
                lay,
                a as int,
            ));
        }
        a = a + 1;
    }
    let ghost unsorted = entries@;
    let mut sorted: Vec<(u64, LayerRef)> = Vec::new();
    let mut i: usize = 0;
    while i < entries.len()
        invariant
            i <= entries@.len(),
            sorted@ == sort_by_priority(entries@.take(i as int)),
        decreases entries@.len() - i,
    {
        let x = entries[i];
        let mut j: usize = sorted.len();
        while j > 0 && sorted[j - 1].0 < x.0
            invariant
                j <= sorted@.len(),
                forall|k: int| j <= k < sorted@.len() ==> sorted@[k].0 < x.0,
            decreases j,
        {
            j = j - 1;
        }
        proof {
            lemma_insert_by_priority_at(sorted@, x, j as int);
            assert(entries@.take(i + 1).drop_last() =~= entries@.take(i as int));
        }
        sorted.insert(j, x);
        i = i + 1;
    }
    proof {
        assert(entries@.take(i as int) =~= entries@);
        lemma_sort_by_priority_elements(unsorted);
        assert forall|k: int| 0 <= k < sorted@.len() implies valid_entry(assemblies@, lay, #[trigger] sorted@[k]) by {
            let m = choose|m: int| 0 <= m < unsorted.len() && unsorted[m] == sorted@[k];
            assert(valid_entry(assemblies@, lay, unsorted[m]));
        }
    }
    sorted
}

// ---------------------------------------------------------------------------
// The joint walk.
// ---------------------------------------------------------------------------

/// The first index at or after `i` whose pair has key `key`, or -1.
pub open spec fn key_index_from(m: Seq<(LayerRef, LayerRef)>, key: LayerRef, i: int) -> int
    decreases m.len() - i,
{
    if i < 0 || i >= m.len() {
        -1
    } else if m[i].0 == key {
        i
    } else {
        key_index_from(m, key, i + 1)
    }
}

/// The value stored under `key` in the association list `m`.
pub open spec fn pair_get(m: Seq<(LayerRef, LayerRef)>, key: LayerRef) -> Option<LayerRef> {
    let i = key_index_from(m, key, 0);
    if i >= 0 {
        Some(m[i].1)
    } else {
        None
    }
}

/// `m` with `key` mapped to `value`: the existing pair replaced, or a new
/// pair appended.
pub open spec fn pair_insert(m: Seq<(LayerRef, LayerRef)>, key: LayerRef, value: LayerRef) -> Seq<
    (LayerRef, LayerRef),
> {
    let i = key_index_from(m, key, 0);
    if i >= 0 {
        m.update(i, (key, value))
    } else {
        m.push((key, value))
    }
}

/// Whether `r` occurs in `m`, as a key or as a value.
pub open spec fn visited(m: Seq<(LayerRef, LayerRef)>, r: LayerRef) -> bool {
    exists|k: int| 0 <= k < m.len() && (#[trigger] m[k]).0 == r || 0 <= k < m.len() && m[k].1 == r
}

/// Whether a later layer of the same group has a higher priority than
/// `priority`: then the walk for this layer turns clockwise.
pub open spec fn scans_cw(group: Seq<JointLayer>, layer_idx: int, priority: u64) -> bool {
    exists|l: int| layer_idx < l < group.len() && (#[trigger] group[l]).priority > priority
}

/// The walk for the last layer of a group never turns clockwise.
pub proof fn law_last_layer_never_turns(group: Seq<JointLayer>, priority: u64)
    requires
        group.len() > 0,
    ensures
        !scans_cw(group, group.len() - 1, priority),
{
}

/// Whether the walk for layer `layer_idx` turns depends only on the layers
/// after it: groups that agree on the priorities after `layer_idx` turn
/// alike, whatever the layers before it.
pub proof fn law_turn_depends_on_later_layers(
    g1: Seq<JointLayer>,
    g2: Seq<JointLayer>,
    layer_idx: int,
    priority: u64,
)
    requires
        g1.len() == g2.len(),
        forall|l: int| layer_idx < l < g1.len() ==> #[trigger] g1[l].priority == g2[l].priority,
    ensures
        scans_cw(g1, layer_idx, priority) == scans_cw(g2, layer_idx, priority),
{
    if scans_cw(g1, layer_idx, priority) {
        let l = choose|l: int| layer_idx < l < g1.len() && (#[trigger] g1[l]).priority > priority;
        assert(g2[l].priority > priority);
    }
    if scans_cw(g2, layer_idx, priority) {
        let l = choose|l: int| layer_idx < l < g2.len() && (#[trigger] g2[l]).priority > priority;
        assert(g1[l].priority > priority);
    }
}

/// A later layer of higher priority makes the walk turn clockwise; a layer
/// with no later layer above it does not turn.
pub proof fn law_turn_when_a_later_layer_is_higher(group: Seq<JointLayer>, layer_idx: int, later: int, priority: u64)
    requires
        layer_idx < later < group.len(),
    ensures
        group[later].priority > priority ==> scans_cw(group, layer_idx, priority),
        (forall|l: int| layer_idx < l < group.len() ==> #[trigger] group[l].priority <= priority) ==> !scans_cw(
            group,
            layer_idx,
            priority,
        ),
{
}

/// The position of the `k`-th candidate layer visited, reversed when `flip`.
pub open spec fn scan_position(flip: bool, len: int, k: int) -> int {
    if flip {
        len - 1 - k
    } else {
        k
    }
}

/// The state of the walk: the layer joints found so far (layer to partner),
/// the layers that a double butt joint covers (covered layer to the layer
/// that covers it), and the joints to apply, in order.
pub type WalkState = (Seq<(LayerRef, LayerRef)>, Seq<(LayerRef, LayerRef)>, Seq<JointAction>);

/// Scanning the layers of the candidate assembly `ci` from scan position
/// `k` on, for a partner of `lr`: the new state once one is found, or
/// `None` when no layer of the candidate qualifies.
pub open spec fn scan_layers(
    jf: Seq<Id>,
    asms: Seq<JointAssembly>,
    lay: Seq<Seq<JointLayer>>,
    st: WalkState,
    lr: LayerRef,
    priority: u64,
    class: u64,
    ci: int,
    flip: bool,
    k: int,
) -> Option<WalkState>
    decreases lay[ci].len() - k,
{
    if k < 0 || k >= lay[ci].len() {
        None
    } else {
        let cli = scan_position(flip, lay[ci].len() as int, k);
        let cl = lay[ci][cli];
        let cref = LayerRef { face_id: asms[ci].face_id, layer_idx: cli as usize, assembly_idx: ci as usize };
        let fi = first_index(jf, lr.face_id) as usize;
        let cfi = first_index(jf, asms[ci].face_id) as usize;
        if cl.priority > priority {
            Some(
                (
                    pair_insert(st.0, lr, cref),
                    st.1,
                    st.2.push(
                        JointAction {
                            face_idx: fi,
                            candidate_face_idx: cfi,
                            layer_idx: lr.layer_idx,
                            candidate_layer_idx: cli as usize,
                            joint_type: JointType::Butt,
                        },
                    ),
                ),
            )
        } else if cl.class != class {
            scan_layers(jf, asms, lay, st, lr, priority, class, ci, flip, k + 1)
        } else if visited(st.0, cref) {
            let partner = match pair_get(st.1, cref) {
                Some(c) => c,
                None => cref,
            };
            Some(
                (
                    pair_insert(st.0, lr, partner),
                    st.1,
                    st.2.push(
                        JointAction {
                            face_idx: fi,
                            candidate_face_idx: cfi,
                            layer_idx: lr.layer_idx,
                            candidate_layer_idx: partner.layer_idx,
                            joint_type: JointType::Butt,
                        },
                    ),
                ),
            )
        } else if is_miter(lay[lr.assembly_idx as int][lr.layer_idx as int]) && is_miter(cl) {
            Some(
                (
                    pair_insert(st.0, lr, cref),
                    st.1,
                    st.2.push(
                        JointAction {
                            face_idx: fi,
                            candidate_face_idx: cfi,
                            layer_idx: lr.layer_idx,
                            candidate_layer_idx: cli as usize,
                            joint_type: JointType::Miter,
                        },
                    ),
                ),
            )
        } else {
            Some(
                (
                    pair_insert(st.0, lr, cref),
                    pair_insert(st.1, cref, lr),
                    st.2.push(
                        JointAction {
                            face_idx: fi,
                            candidate_face_idx: cfi,
                            layer_idx: lr.layer_idx,
                            candidate_layer_idx: cli as usize,
                            joint_type: JointType::DoubleButt,
                        },
                    ),
                ),
            )
        }
    }
}

/// The assembly after `ci` going around the joint, clockwise (down) or
/// counterclockwise (up), wrapping around.
pub open spec fn next_assembly(n: int, ci: int, clockwise: bool) -> int {
    if clockwise {
        if ci == 0 {
            n - 1
        } else {
            ci - 1
        }
    } else {
        (ci + 1) % n
    }
}

/// Up to `tries` steps around the joint from candidate `ci`, each scanning
/// the next assembly for a partner of `lr`, until `lr` is joined.
pub open spec fn attempt_joins(
    jf: Seq<Id>,
    asms: Seq<JointAssembly>,
    lay: Seq<Seq<JointLayer>>,
    st: WalkState,
    lr: LayerRef,
    priority: u64,
    class: u64,
    scan_cw: bool,
    ci: int,
    tries: nat,
) -> WalkState
    decreases tries,
{
    if tries == 0 || visited(st.0, lr) {
        st
    } else {
        let own = asms[lr.assembly_idx as int];
        let ci2 = next_assembly(asms.len() as int, ci, (!own.is_ccw) != scan_cw);
        let flip = scan_cw != (own.is_ccw != asms[ci2].is_ccw);
        match scan_layers(jf, asms, lay, st, lr, priority, class, ci2, flip, 0) {
            Some(st2) => st2,
            None => attempt_joins(jf, asms, lay, st, lr, priority, class, scan_cw, ci2, (tries - 1) as nat),
        }
    }
}

/// The class rank of the layer that entry `e` names.
pub open spec fn entry_class(lay: Seq<Seq<JointLayer>>, e: (u64, LayerRef)) -> u64 {
    lay[e.1.assembly_idx as int][e.1.layer_idx as int].class
}

/// The walk for one priority entry: at most four steps around the joint.
pub open spec fn join_entry(
    jf: Seq<Id>,
    asms: Seq<JointAssembly>,
    lay: Seq<Seq<JointLayer>>,
    st: WalkState,
    e: (u64, LayerRef),
) -> WalkState {
    let lr = e.1;
    attempt_joins(
        jf,
        asms,
        lay,
        st,
        lr,
        e.0,
        entry_class(lay, e),
        scans_cw(lay[lr.assembly_idx as int], lr.layer_idx as int, e.0),
        lr.assembly_idx as int,
        4,
    )
}

/// The walk over the first `i` priority entries.
pub open spec fn join_entries(
    jf: Seq<Id>,
    asms: Seq<JointAssembly>,
    lay: Seq<Seq<JointLayer>>,
    entries: Seq<(u64, LayerRef)>,
    i: int,
) -> WalkState
    decreases i,
{
    if i <= 0 {
        (Seq::empty(), Seq::empty(), Seq::empty())
    } else {
        join_entry(jf, asms, lay, join_entries(jf, asms, lay, entries, i - 1), entries[i - 1])
    }
}

/// The whole plan for a joint: the walk over all layers by descending priority.
pub open spec fn joint_plan(jf: Seq<Id>, asms: Seq<JointAssembly>, lay: Seq<Seq<JointLayer>>) -> WalkState {
    let entries = sort_by_priority(entries_upto(asms, lay, asms.len() as int));
    join_entries(jf, asms, lay, entries, entries.len() as int)
}

fn find_key(m: &Vec<(LayerRef, LayerRef)>, key: LayerRef) -> (r: Option<usize>)
    ensures
        match r {
            Some(i) => i as int == key_index_from(m@, key, 0),
            None => key_index_from(m@, key, 0) < 0,
        },
{
    let mut i: usize = 0;
    while i < m.len()
        invariant
            i <= m@.len(),
            key_index_from(m@, key, 0) == key_index_from(m@, key, i as int),
        decreases m@.len() - i,
    {
        if m[i].0 == key {
            return Some(i);
        }
        i = i + 1;
    }
    None
}

fn get_pair(m: &Vec<(LayerRef, LayerRef)>, key: LayerRef) -> (r: Option<LayerRef>)
    ensures
        r == pair_get(m@, key),
{
    proof {
        lemma_key_index_from(m@, key, 0);
    }
    match find_key(m, key) {
        Some(i) => {
            Some(m[i].1)
        },
        None => None,
    }
}

fn insert_pair(m: &mut Vec<(LayerRef, LayerRef)>, key: LayerRef, value: LayerRef)
    ensures
        final(m)@ == pair_insert(old(m)@, key, value),
{
    proof {
        lemma_key_index_from(old(m)@, key, 0);
    }
    match find_key(m, key) {
        Some(i) => {
            m.set(i, (key, value));
        },
        None => {
            m.push((key, value));
        },
    }
}

proof fn lemma_key_index_from(m: Seq<(LayerRef, LayerRef)>, key: LayerRef, i: int)
    requires
        0 <= i <= m.len(),
    ensures
        -1 <= key_index_from(m, key, i) < m.len(),
        key_index_from(m, key, i) >= 0 ==> key_index_from(m, key, i) >= i && m[key_index_from(m, key, i)].0 == key,
    decreases m.len() - i,
{
    if i < m.len() {
        lemma_key_index_from(m, key, i + 1);
    }
}

fn is_visited(m: &Vec<(LayerRef, LayerRef)>, r: LayerRef) -> (b: bool)
    ensures
        b == visited(m@, r),
{
    let mut i: usize = 0;
    while i < m.len()
        invariant
            i <= m@.len(),
            forall|k: int| 0 <= k < i ==> (#[trigger] m@[k]).0 != r && m@[k].1 != r,
        decreases m@.len() - i,
    {
        if m[i].0 == r || m[i].1 == r {
            return true;
        }
        i = i + 1;
    }
    false
}

/// Whether a layer after `layer_idx` in `group` has a priority above `priority`.
fn any_later_higher(group: &Vec<JointLayer>, layer_idx: usize, priority: u64) -> (r: bool)
    ensures
        r == scans_cw(group@, layer_idx as int, priority),
{
    let mut l: usize = layer_idx;
    while l < group.len()
        invariant
            layer_idx <= l,
            forall|m: int| layer_idx < m < l && m < group@.len() ==> (#[trigger] group@[m]).priority <= priority,
        decreases group@.len() - l,
    {
        if l > layer_idx && group[l].priority > priority {
            return true;
        }
        l = l + 1;
    }
    false
}

/// The shared preconditions of the walk's steps.
pub open spec fn walk_inputs_ok(jf: Seq<Id>, asms: Seq<JointAssembly>, layers: Seq<Vec<JointLayer>>) -> bool {
    &&& asms.len() == layers.len()
    &&& forall|a: int| 0 <= a < asms.len() ==> jf.contains(#[trigger] asms[a].face_id)
}

/// Whether the `k`-th candidate layer visited ends the scan: its priority
/// is higher than `priority`, or it is of priority class `class`.
pub open spec fn ends_scan(group: Seq<JointLayer>, priority: u64, class: u64, flip: bool, k: int) -> bool {
    let cl = group[scan_position(flip, group.len() as int, k)];
    cl.priority > priority || cl.class == class
}

/// The scan position at which the scan of `group` ends, or its length.
fn first_partner_position(group: &Vec<JointLayer>, priority: u64, class: u64, flip: bool) -> (r: usize)
    ensures
        r <= group@.len(),
        forall|j: int| 0 <= j < r ==> !ends_scan(group@, priority, class, flip, j),
        r < group@.len() ==> ends_scan(group@, priority, class, flip, r as int),
{
    let len = group.len();
    let mut k: usize = 0;
    while k < len
        invariant
            len == group@.len(),
            k <= len,
            forall|j: int| 0 <= j < k ==> !ends_scan(group@, priority, class, flip, j),
        decreases len - k,
    {
        let cli = if flip {
            len - 1 - k
        } else {
            k
        };
        if group[cli].priority > priority || group[cli].class == class {
            return k;
        }
        k = k + 1;
    }
    len
}

/// Skipping the scan positions that do not end the scan changes nothing.
proof fn lemma_scan_skip(
    jf: Seq<Id>,
    asms: Seq<JointAssembly>,
    lay: Seq<Seq<JointLayer>>,
    st: WalkState,
    lr: LayerRef,
    priority: u64,
    class: u64,
    ci: int,
    flip: bool,
    k: int,
)
    requires
        0 <= k <= lay[ci].len(),
        forall|j: int| 0 <= j < k ==> !ends_scan(lay[ci], priority, class, flip, j),
    ensures
        scan_layers(jf, asms, lay, st, lr, priority, class, ci, flip, 0) == scan_layers(
            jf,
            asms,
            lay,
            st,
            lr,
            priority,
            class,
            ci,
            flip,
            k,
        ),
    decreases k,
{
    if k > 0 {
        lemma_scan_skip(jf, asms, lay, st, lr, priority, class, ci, flip, k - 1);
        assert(!ends_scan(lay[ci], priority, class, flip, k - 1));
    }
}

/// The exec form of `scan_layers` from scan position 0: returns whether a
/// partner was found, and then updates the state.
fn scan_candidate(
    joint_faces: &Vec<Id>,
    assemblies: &Vec<JointAssembly>,
    layers: &Vec<Vec<JointLayer>>,
    joints: &mut Vec<(LayerRef, LayerRef)>,
    covered: &mut Vec<(LayerRef, LayerRef)>,
    actions: &mut Vec<JointAction>,
    lr: LayerRef,
    priority: u64,
    class: u64,
    ci: usize,
    flip: bool,
) -> (found: bool)
    requires
        walk_inputs_ok(joint_faces@, assemblies@, layers@),
        ci < assemblies@.len(),
        lr.assembly_idx < assemblies@.len(),
        lr.layer_idx < layers@[lr.assembly_idx as int]@.len(),
        joint_faces@.contains(lr.face_id),
    ensures
        found ==> scan_layers(
            joint_faces@,
            assemblies@,
            layer_seqs(layers@),
            (old(joints)@, old(covered)@, old(actions)@),
            lr,
            priority,
            class,
            ci as int,
            flip,
            0,
        ) == Some((final(joints)@, final(covered)@, final(actions)@)),
        !found ==> scan_layers(
            joint_faces@,
            assemblies@,
            layer_seqs(layers@),
            (old(joints)@, old(covered)@, old(actions)@),
            lr,
            priority,
            class,
            ci as int,
            flip,
            0,
        ) is None,
        !found ==> final(joints)@ == old(joints)@ && final(covered)@ == old(covered)@ && final(actions)@
            == old(actions)@,
{
    let ghost lay = layer_seqs(layers@);
    let ghost st0 = (old(joints)@, old(covered)@, old(actions)@);
    let group = &layers[ci];
    let len = group.len();
    let k = first_partner_position(group, priority, class, flip);
    proof {
        assert(lay[ci as int] == group@);
        lemma_scan_skip(joint_faces@, assemblies@, lay, st0, lr, priority, class, ci as int, flip, k as int);
    }
    if k == len {
        return false;
    }
    let cli = if flip {
        len - 1 - k
    } else {
        k
    };
    let cl = &group[cli];
    let cref = LayerRef { face_id: assemblies[ci].face_id, layer_idx: cli, assembly_idx: ci };
    proof {
        assert(lay[lr.assembly_idx as int] == layers@[lr.assembly_idx as int]@);
        assert(cli as int == scan_position(flip, lay[ci as int].len() as int, k as int));
        assert(joint_faces@.contains(assemblies@[ci as int].face_id));
        lemma_index_from(joint_faces@, lr.face_id, 0);
        lemma_index_from(joint_faces@, assemblies@[ci as int].face_id, 0);
    }
    let face_idx = position_of(joint_faces, lr.face_id).unwrap();
    let candidate_face_idx = position_of(joint_faces, assemblies[ci].face_id).unwrap();
    if cl.priority > priority {
        actions.push(
            JointAction {
                face_idx,
                candidate_face_idx,
                layer_idx: lr.layer_idx,
                candidate_layer_idx: cli,
                joint_type: JointType::Butt,
            },
        );
        insert_pair(joints, lr, cref);
        return true;
    }
    if is_visited(joints, cref) {
        let partner = match get_pair(covered, cref) {
            Some(c) => c,
            None => cref,
        };
        actions.push(
            JointAction {
                face_idx,
                candidate_face_idx,
                layer_idx: lr.layer_idx,
                candidate_layer_idx: partner.layer_idx,
                joint_type: JointType::Butt,
            },
        );
        insert_pair(joints, lr, partner);
        return true;
    }
    let own = &layers[lr.assembly_idx][lr.layer_idx];
    if str_eq(own.joint_type.as_str(), "miter_joint") && str_eq(cl.joint_type.as_str(), "miter_joint") {
        actions.push(
            JointAction {
                face_idx,
                candidate_face_idx,
                layer_idx: lr.layer_idx,
                candidate_layer_idx: cli,
                joint_type: JointType::Miter,
            },
        );
    } else {
        actions.push(
            JointAction {
                face_idx,
                candidate_face_idx,
                layer_idx: lr.layer_idx,
                candidate_layer_idx: cli,
                joint_type: JointType::DoubleButt,
            },
        );
        insert_pair(covered, cref, lr);
    }
    insert_pair(joints, lr, cref);
    true
}

/// The assembly that the walk for layer `lr` scans first: the next one in
/// the sense in which its face turns, up to `(a + 1) mod n` for a
/// counterclockwise face and down to `a - 1` (wrapping) for a clockwise one,
/// and the other way when the walk turns.
pub open spec fn first_scanned(asms: Seq<JointAssembly>, a: int, turns: bool) -> int {
    let n = asms.len() as int;
    if asms[a].is_ccw != turns {
        if a + 1 == n {
            0
        } else {
            a + 1
        }
    } else if a == 0 {
        n - 1
    } else {
        a - 1
    }
}

/// The walk for a layer not yet joined starts beside its own face, in the
/// face's sense of turning (or against it when a later layer of its group
/// is higher): when that assembly has a partner for the layer, that is the
/// joint made. Its layers are scanned from the near side: in group order
/// when the two faces turn alike and the walk does not turn, else reversed.
pub proof fn law_walk_starts_beside_its_face(
    jf: Seq<Id>,
    asms: Seq<JointAssembly>,
    lay: Seq<Seq<JointLayer>>,
    st: WalkState,
    e: (u64, LayerRef),
)
    requires
        !visited(st.0, e.1),
        0 <= e.1.assembly_idx < asms.len(),
    ensures
        ({
            let a = e.1.assembly_idx as int;
            let turns = scans_cw(lay[a], e.1.layer_idx as int, e.0);
            let first = first_scanned(asms, a, turns);
            let reversed = turns != (asms[a].is_ccw != asms[first].is_ccw);
            scan_layers(jf, asms, lay, st, e.1, e.0, entry_class(lay, e), first, reversed, 0) matches Some(st2)
                ==> join_entry(jf, asms, lay, st, e) == st2
        }),
{
    let a = e.1.assembly_idx as int;
    let n = asms.len() as int;
    if a + 1 < n {
        vstd::arithmetic::div_mod::lemma_small_mod((a + 1) as nat, n as nat);
    } else {
        vstd::arithmetic::div_mod::lemma_mod_self_0(n);
    }
}

/// The exec form of `join_entry`: walks around the joint for a partner of
/// layer `lr`, at most four steps.
fn join_layer(
    joint_faces: &Vec<Id>,
    assemblies: &Vec<JointAssembly>,
    layers: &Vec<Vec<JointLayer>>,
    joints: &mut Vec<(LayerRef, LayerRef)>,
    covered: &mut Vec<(LayerRef, LayerRef)>,
    actions: &mut Vec<JointAction>,
    lr: LayerRef,
    priority: u64,
    class: u64,
)
    requires
        walk_inputs_ok(joint_faces@, assemblies@, layers@),
        lr.assembly_idx < assemblies@.len(),
        lr.layer_idx < layers@[lr.assembly_idx as int]@.len(),
        lr.face_id == assemblies@[lr.assembly_idx as int].face_id,
        class == entry_class(layer_seqs(layers@), (priority, lr)),
    ensures
        (final(joints)@, final(covered)@, final(actions)@) == join_entry(
            joint_faces@,
            assemblies@,
            layer_seqs(layers@),
            (old(joints)@, old(covered)@, old(actions)@),
            (priority, lr),
        ),
{
    let ghost lay = layer_seqs(layers@);
    let ghost st0 = (old(joints)@, old(covered)@, old(actions)@);
    let index = lr.assembly_idx;
    let n = assemblies.len();
    proof {
        assert(joint_faces@.contains(assemblies@[index as int].face_id));
        assert(lay[index as int] == layers@[index as int]@);
    }
    let scan_cw = any_later_higher(&layers[index], lr.layer_idx, priority);
    let mut candidate_index = index;
    let mut t: usize = 0;
    let mut done = false;
    while t < 4 && !done
        invariant
            walk_inputs_ok(joint_faces@, assemblies@, layers@),
            lay == layer_seqs(layers@),
            lr.assembly_idx < assemblies@.len(),
            lr.layer_idx < layers@[lr.assembly_idx as int]@.len(),
            joint_faces@.contains(lr.face_id),
            index == lr.assembly_idx,
            n == assemblies@.len(),
            candidate_index < n,
            t <= 4,
            !done ==> st0 == (joints@, covered@, actions@),
            !done ==> join_entry(joint_faces@, assemblies@, lay, st0, (priority, lr)) == attempt_joins(
                joint_faces@,
                assemblies@,
                lay,
                st0,
                lr,
                priority,
                class,
                scan_cw,
                candidate_index as int,
                (4 - t) as nat,
            ),
            done ==> (joints@, covered@, actions@) == join_entry(joint_faces@, assemblies@, lay, st0, (priority, lr)),
        decreases 4 - t + (if done {
            0int
        } else {
            1int
        }),
    {
        if is_visited(joints, lr) {
            done = true;
        } else {
            let go_cw = (!assemblies[index].is_ccw) != scan_cw;
            candidate_index = if go_cw {
                if candidate_index == 0 {
                    n - 1
                } else {
                    candidate_index - 1
                }
            } else {
                (candidate_index + 1) % n
            };
            let flip = scan_cw != (assemblies[index].is_ccw != assemblies[candidate_index].is_ccw);
            if scan_candidate(
                joint_faces,
                assemblies,
                layers,
                joints,
                covered,
                actions,
                lr,
                priority,
                class,
                candidate_index,
                flip,
            ) {
                done = true;
            } else {
                t = t + 1;
            }
        }
    }
}

/// Plans the joints of the layers of the faces meeting at one edge.
///
/// `joint_faces` lists the faces at the edge in the edge's order;
/// `assemblies` lists them in walking order around the edge, and
/// `layers[a]` the layers of assembly `a`'s layer group. Every layer, by
/// descending priority (layers of equal priority in assembly and layer
/// order), walks around the joint, at most four steps, until it finds a
/// partner: a layer of higher priority (butt joint), a layer of its
/// priority class that is already joined (butt joint to the layer that
/// covers it, if any), or a free layer of its class (mitre joint when both
/// ask for one, else a double butt joint that covers the partner).
///
/// Returns the joints to apply, in order, and each joined layer with its
/// partner.
pub fn plan_joint(joint_faces: &Vec<Id>, assemblies: &Vec<JointAssembly>, layers: &Vec<Vec<JointLayer>>) -> (r: (
    Vec<JointAction>,
    Vec<(LayerRef, LayerRef)>,
))
    requires
        walk_inputs_ok(joint_faces@, assemblies@, layers@),
    ensures
        r.0@ == joint_plan(joint_faces@, assemblies@, layer_seqs(layers@)).2,
        r.1@ == joint_plan(joint_faces@, assemblies@, layer_seqs(layers@)).0,
{
    let ghost lay = layer_seqs(layers@);
    let entries = sorted_priority_entries(assemblies, layers);
    let mut joints: Vec<(LayerRef, LayerRef)> = Vec::new();
    let mut covered: Vec<(LayerRef, LayerRef)> = Vec::new();
    let mut actions: Vec<JointAction> = Vec::new();
    let mut cursor: usize = 0;
    while cursor < entries.len()
        invariant
            walk_inputs_ok(joint_faces@, assemblies@, layers@),
            lay == layer_seqs(layers@),
            cursor <= entries@.len(),
            forall|k: int| 0 <= k < entries@.len() ==> valid_entry(assemblies@, lay, #[trigger] entries@[k]),
            (joints@, covered@, actions@) == join_entries(joint_faces@, assemblies@, lay, entries@, cursor as int),
        decreases entries@.len() - cursor,
    {
        let first = entries[cursor];
        proof {
            assert(valid_entry(assemblies@, lay, entries@[cursor as int]));
            assert(lay[first.1.assembly_idx as int] == layers@[first.1.assembly_idx as int]@);
        }
        let class = layers[first.1.assembly_idx][first.1.layer_idx].class;
        let mut end = cursor + 1;
        while end < entries.len() && layers[entries[end].1.assembly_idx][entries[end].1.layer_idx].class == class
            invariant
                lay == layer_seqs(layers@),
                cursor < end <= entries@.len(),
                forall|k: int| 0 <= k < entries@.len() ==> valid_entry(assemblies@, lay, #[trigger] entries@[k]),
                forall|k: int| cursor <= k < end ==> entry_class(lay, #[trigger] entries@[k]) == class,
            decreases entries@.len() - end,
        {
            proof {
                assert(valid_entry(assemblies@, lay, entries@[end as int]));
                assert(lay[entries@[end as int].1.assembly_idx as int] == layers@[entries@[end as int].1.assembly_idx as int]@);
            }
            end = end + 1;
        }
        let mut i = cursor;
        while i < end
            invariant
                walk_inputs_ok(joint_faces@, assemblies@, layers@),
                lay == layer_seqs(layers@),
                cursor <= i <= end <= entries@.len(),
                forall|k: int| 0 <= k < entries@.len() ==> valid_entry(assemblies@, lay, #[trigger] entries@[k]),
                forall|k: int| cursor <= k < end ==> entry_class(lay, #[trigger] entries@[k]) == class,
                (joints@, covered@, actions@) == join_entries(joint_faces@, assemblies@, lay, entries@, i as int),
            decreases end - i,
        {
            let e = entries[i];
            proof {
                assert(valid_entry(assemblies@, lay, entries@[i as int]));
                assert(entry_class(lay, entries@[i as int]) == class);
                assert(lay[e.1.assembly_idx as int] == layers@[e.1.assembly_idx as int]@);
            }
            join_layer(joint_faces, assemblies, layers, &mut joints, &mut covered, &mut actions, e.1, e.0, class);
            i = i + 1;
        }
        cursor = end;
    }
    (actions, joints)
}

// ---------------------------------------------------------------------------
// Laws of the plan.
// ---------------------------------------------------------------------------

/// No layer occurs twice as a key of `m`.
pub open spec fn keys_distinct(m: Seq<(LayerRef, LayerRef)>) -> bool {
    forall|i: int, j: int| 0 <= i < j < m.len() ==> (#[trigger] m[i]).0 != (#[trigger] m[j]).0
}

/// Every layer in the walk's joints has one partner, and each joint found
/// comes with exactly one joint to apply.
pub open spec fn one_joint_per_layer(st: WalkState) -> bool {
    keys_distinct(st.0) && st.0.len() == st.2.len()
}

proof fn lemma_insert_unvisited(m: Seq<(LayerRef, LayerRef)>, lr: LayerRef, v: LayerRef)
    requires
        !visited(m, lr),
        keys_distinct(m),
    ensures
        pair_insert(m, lr, v) == m.push((lr, v)),
        keys_distinct(m.push((lr, v))),
{
    lemma_key_index_from(m, lr, 0);
    if key_index_from(m, lr, 0) >= 0 {
        let i = key_index_from(m, lr, 0);
        assert(m[i].0 == lr);
        assert(visited(m, lr));
    }
    let n = m.push((lr, v));
    assert forall|i: int, j: int| 0 <= i < j < n.len() implies (#[trigger] n[i]).0 != (#[trigger] n[j]).0 by {
        if j == m.len() {
            assert(n[i] == m[i]);
            if m[i].0 == lr {
                assert(visited(m, lr));
            }
        } else {
            assert(n[i] == m[i] && n[j] == m[j]);
        }
    }
}

proof fn lemma_scan_one_joint(
    jf: Seq<Id>,
    asms: Seq<JointAssembly>,
    lay: Seq<Seq<JointLayer>>,
    st: WalkState,
    lr: LayerRef,
    priority: u64,
    class: u64,
    ci: int,
    flip: bool,
    k: int,
)
    requires
        !visited(st.0, lr),
        one_joint_per_layer(st),
    ensures
        scan_layers(jf, asms, lay, st, lr, priority, class, ci, flip, k) matches Some(st2) ==> one_joint_per_layer(
            st2,
        ),
    decreases lay[ci].len() - k,
{
    if 0 <= k < lay[ci].len() {
        lemma_scan_one_joint(jf, asms, lay, st, lr, priority, class, ci, flip, k + 1);
        let cli = scan_position(flip, lay[ci].len() as int, k);
        let cref = LayerRef { face_id: asms[ci].face_id, layer_idx: cli as usize, assembly_idx: ci as usize };
        let partner = match pair_get(st.1, cref) {
            Some(c) => c,
            None => cref,
        };
        lemma_insert_unvisited(st.0, lr, cref);
        lemma_insert_unvisited(st.0, lr, partner);
    }
}

proof fn lemma_attempt_one_joint(
    jf: Seq<Id>,
    asms: Seq<JointAssembly>,
    lay: Seq<Seq<JointLayer>>,
    st: WalkState,
    lr: LayerRef,
    priority: u64,
    class: u64,
    scan_cw: bool,
    ci: int,
    tries: nat,
)
    requires
        one_joint_per_layer(st),
    ensures
        one_joint_per_layer(attempt_joins(jf, asms, lay, st, lr, priority, class, scan_cw, ci, tries)),
    decreases tries,
{
    if tries > 0 && !visited(st.0, lr) {
        let own = asms[lr.assembly_idx as int];
        let ci2 = next_assembly(asms.len() as int, ci, (!own.is_ccw) != scan_cw);
        let flip = scan_cw != (own.is_ccw != asms[ci2].is_ccw);
        lemma_scan_one_joint(jf, asms, lay, st, lr, priority, class, ci2, flip, 0);
        lemma_attempt_one_joint(jf, asms, lay, st, lr, priority, class, scan_cw, ci2, (tries - 1) as nat);
    }
}

proof fn lemma_join_entries_one_joint(
    jf: Seq<Id>,
    asms: Seq<JointAssembly>,
    lay: Seq<Seq<JointLayer>>,
    entries: Seq<(u64, LayerRef)>,
    i: int,
)
    ensures
        one_joint_per_layer(join_entries(jf, asms, lay, entries, i)),
    decreases i,
{
    if i > 0 {
        lemma_join_entries_one_joint(jf, asms, lay, entries, i - 1);
        let st = join_entries(jf, asms, lay, entries, i - 1);
        let e = entries[i - 1];
        let lr = e.1;
        lemma_attempt_one_joint(
            jf,
            asms,
            lay,
            st,
            lr,
            e.0,
            entry_class(lay, e),
            scans_cw(lay[lr.assembly_idx as int], lr.layer_idx as int, e.0),
            lr.assembly_idx as int,
            4,
        );
    }
}

/// A joint plan joins each layer to at most one partner, and lists exactly
/// one joint to apply per layer joined.
pub proof fn law_plan_joins_each_layer_once(jf: Seq<Id>, asms: Seq<JointAssembly>, lay: Seq<Seq<JointLayer>>)
    ensures
        keys_distinct(joint_plan(jf, asms, lay).0),
        joint_plan(jf, asms, lay).0.len() == joint_plan(jf, asms, lay).2.len(),
{
    let entries = sort_by_priority(entries_upto(asms, lay, asms.len() as int));
    lemma_join_entries_one_joint(jf, asms, lay, entries, entries.len() as int);
}

/// The layer that `r` names.
pub open spec fn layer_at(lay: Seq<Seq<JointLayer>>, r: LayerRef) -> JointLayer {
    lay[r.assembly_idx as int][r.layer_idx as int]
}

/// Whether `r` names a layer of an assembly at the joint.
pub open spec fn names_layer(asms: Seq<JointAssembly>, lay: Seq<Seq<JointLayer>>, r: LayerRef) -> bool {
    &&& r.assembly_idx < asms.len()
    &&& r.assembly_idx < lay.len()
    &&& r.layer_idx < lay[r.assembly_idx as int].len()
    &&& r.face_id == asms[r.assembly_idx as int].face_id
}

/// Whether the joint of layer `j.0` to its partner `j.1` fits the action
/// `act`: the action names the layer's face and both layers, and its type
/// suits the two layers. A butt joint goes against a layer of higher
/// priority or of the same class; a mitre joins two mitre layers of one
/// class, the partner not above the layer; a double butt joins layers of
/// one class, the partner not above, where not both ask for a mitre.
pub open spec fn joint_fits(jf: Seq<Id>, lay: Seq<Seq<JointLayer>>, j: (LayerRef, LayerRef), act: JointAction) -> bool {
    let p = layer_at(lay, j.0);
    let q = layer_at(lay, j.1);
    &&& act.face_idx == first_index(jf, j.0.face_id) as usize
    &&& act.layer_idx == j.0.layer_idx
    &&& act.candidate_layer_idx == j.1.layer_idx
    &&& match act.joint_type {
        JointType::Butt => q.priority > p.priority || q.class == p.class,
        JointType::Miter => q.class == p.class && q.priority <= p.priority && is_miter(p) && is_miter(q),
        JointType::DoubleButt => q.class == p.class && q.priority <= p.priority && !(is_miter(p) && is_miter(q)),
    }
}

/// What the walk keeps true of its state: one joint per layer, every
/// joint between layers of the joint and fitting its action, and every
/// covered layer covered by a layer of its class.
pub open spec fn walk_consistent(jf: Seq<Id>, asms: Seq<JointAssembly>, lay: Seq<Seq<JointLayer>>, st: WalkState) -> bool {
    &&& one_joint_per_layer(st)
    &&& forall|k: int|
        0 <= k < st.0.len() ==> {
            &&& names_layer(asms, lay, (#[trigger] st.0[k]).0)
            &&& names_layer(asms, lay, st.0[k].1)
            &&& joint_fits(jf, lay, st.0[k], st.2[k])
        }
    &&& forall|k: int|
        0 <= k < st.1.len() ==> {
            &&& names_layer(asms, lay, (#[trigger] st.1[k]).1)
            &&& layer_at(lay, st.1[k].1).class == layer_at(lay, st.1[k].0).class
        }
}

proof fn lemma_walk_push(
    jf: Seq<Id>,
    asms: Seq<JointAssembly>,
    lay: Seq<Seq<JointLayer>>,
    st: WalkState,
    j: (LayerRef, LayerRef),
    covered: Seq<(LayerRef, LayerRef)>,
    act: JointAction,
)
    requires
        walk_consistent(jf, asms, lay, st),
        !visited(st.0, j.0),
        names_layer(asms, lay, j.0),
        names_layer(asms, lay, j.1),
        joint_fits(jf, lay, j, act),
        forall|k: int|
            0 <= k < covered.len() ==> {
                &&& names_layer(asms, lay, (#[trigger] covered[k]).1)
                &&& layer_at(lay, covered[k].1).class == layer_at(lay, covered[k].0).class
            },
    ensures
        walk_consistent(jf, asms, lay, (pair_insert(st.0, j.0, j.1), covered, st.2.push(act))),
{
    lemma_insert_unvisited(st.0, j.0, j.1);
    let m = st.0.push(j);
    let a = st.2.push(act);
    assert forall|k: int| 0 <= k < m.len() implies {
        &&& names_layer(asms, lay, (#[trigger] m[k]).0)
        &&& names_layer(asms, lay, m[k].1)
        &&& joint_fits(jf, lay, m[k], a[k])
    } by {
        if k < st.0.len() {
            assert(m[k] == st.0[k] && a[k] == st.2[k]);
        }
    }
}

proof fn lemma_covered_insert(
    asms: Seq<JointAssembly>,
    lay: Seq<Seq<JointLayer>>,
    c: Seq<(LayerRef, LayerRef)>,
    key: LayerRef,
    value: LayerRef,
)
    requires
        names_layer(asms, lay, value),
        layer_at(lay, value).class == layer_at(lay, key).class,
        forall|k: int|
            0 <= k < c.len() ==> {
                &&& names_layer(asms, lay, (#[trigger] c[k]).1)
                &&& layer_at(lay, c[k].1).class == layer_at(lay, c[k].0).class
            },
    ensures
        forall|k: int|
            0 <= k < pair_insert(c, key, value).len() ==> {
                &&& names_layer(asms, lay, (#[trigger] pair_insert(c, key, value)[k]).1)
                &&& layer_at(lay, pair_insert(c, key, value)[k].1).class == layer_at(
                    lay,
                    pair_insert(c, key, value)[k].0,
                ).class
            },
{
    lemma_key_index_from(c, key, 0);
    let r = pair_insert(c, key, value);
    assert forall|k: int| 0 <= k < r.len() implies {
        &&& names_layer(asms, lay, (#[trigger] r[k]).1)
        &&& layer_at(lay, r[k].1).class == layer_at(lay, r[k].0).class
    } by {
        if k < c.len() && r[k] != (key, value) {
            assert(r[k] == c[k]);
        }
    }
}

proof fn lemma_scan_consistent(
    jf: Seq<Id>,
    asms: Seq<JointAssembly>,
    lay: Seq<Seq<JointLayer>>,
    st: WalkState,
    lr: LayerRef,
    priority: u64,
    class: u64,
    ci: int,
    flip: bool,
    k: int,
)
    requires
        sizes_fit(asms, lay),
        walk_consistent(jf, asms, lay, st),
        !visited(st.0, lr),
        names_layer(asms, lay, lr),
        priority == layer_at(lay, lr).priority,
        class == layer_at(lay, lr).class,
        0 <= ci < asms.len(),
        0 <= k,
    ensures
        scan_layers(jf, asms, lay, st, lr, priority, class, ci, flip, k) matches Some(st2) ==> walk_consistent(
            jf,
            asms,
            lay,
            st2,
        ),
    decreases lay[ci].len() - k,
{
    if k < lay[ci].len() {
        lemma_scan_consistent(jf, asms, lay, st, lr, priority, class, ci, flip, k + 1);
        let cli = scan_position(flip, lay[ci].len() as int, k);
        let cl = lay[ci][cli];
        let cref = LayerRef { face_id: asms[ci].face_id, layer_idx: cli as usize, assembly_idx: ci as usize };
        assert(lay[ci].len() <= usize::MAX);
        assert(names_layer(asms, lay, cref));
        assert(layer_at(lay, cref) == cl);
        let fi = first_index(jf, lr.face_id) as usize;
        let cfi = first_index(jf, asms[ci].face_id) as usize;
        if cl.priority > priority {
            let act = JointAction {
                face_idx: fi,
                candidate_face_idx: cfi,
                layer_idx: lr.layer_idx,
                candidate_layer_idx: cli as usize,
                joint_type: JointType::Butt,
            };
            lemma_walk_push(jf, asms, lay, st, (lr, cref), st.1, act);
        } else if cl.class != class {
        } else if visited(st.0, cref) {
            lemma_key_index_from(st.1, cref, 0);
            let partner = match pair_get(st.1, cref) {
                Some(c) => c,
                None => cref,
            };
            if pair_get(st.1, cref) is Some {
                let i = key_index_from(st.1, cref, 0);
                assert(st.1[i].0 == cref);
                assert(partner == st.1[i].1);
            }
            let act = JointAction {
                face_idx: fi,
                candidate_face_idx: cfi,
                layer_idx: lr.layer_idx,
                candidate_layer_idx: partner.layer_idx,
                joint_type: JointType::Butt,
            };
            lemma_walk_push(jf, asms, lay, st, (lr, partner), st.1, act);
        } else if is_miter(lay[lr.assembly_idx as int][lr.layer_idx as int]) && is_miter(cl) {
            let act = JointAction {
                face_idx: fi,
                candidate_face_idx: cfi,
                layer_idx: lr.layer_idx,
                candidate_layer_idx: cli as usize,
                joint_type: JointType::Miter,
            };
            lemma_walk_push(jf, asms, lay, st, (lr, cref), st.1, act);
        } else {
            let act = JointAction {
                face_idx: fi,
                candidate_face_idx: cfi,
                layer_idx: lr.layer_idx,
                candidate_layer_idx: cli as usize,
                joint_type: JointType::DoubleButt,
            };
            lemma_covered_insert(asms, lay, st.1, cref, lr);
            lemma_walk_push(jf, asms, lay, st, (lr, cref), pair_insert(st.1, cref, lr), act);
        }
    }
}

proof fn lemma_attempt_consistent(
    jf: Seq<Id>,
    asms: Seq<JointAssembly>,
    lay: Seq<Seq<JointLayer>>,
    st: WalkState,
    lr: LayerRef,
    priority: u64,
    class: u64,
    scan_cw: bool,
    ci: int,
    tries: nat,
)
    requires
        sizes_fit(asms, lay),
        walk_consistent(jf, asms, lay, st),
        names_layer(asms, lay, lr),
        priority == layer_at(lay, lr).priority,
        class == layer_at(lay, lr).class,
        0 <= ci < asms.len(),
    ensures
        walk_consistent(jf, asms, lay, attempt_joins(jf, asms, lay, st, lr, priority, class, scan_cw, ci, tries)),
    decreases tries,
{
    if tries > 0 && !visited(st.0, lr) {
        let n = asms.len() as int;
        let own = asms[lr.assembly_idx as int];
        let ci2 = next_assembly(n, ci, (!own.is_ccw) != scan_cw);
        vstd::arithmetic::div_mod::lemma_mod_bound(ci + 1, n);
        assert(0 <= ci2 < n);
        let flip = scan_cw != (own.is_ccw != asms[ci2].is_ccw);
        lemma_scan_consistent(jf, asms, lay, st, lr, priority, class, ci2, flip, 0);
        lemma_attempt_consistent(jf, asms, lay, st, lr, priority, class, scan_cw, ci2, (tries - 1) as nat);
    }
}

proof fn lemma_join_entries_consistent(
    jf: Seq<Id>,
    asms: Seq<JointAssembly>,
    lay: Seq<Seq<JointLayer>>,
    entries: Seq<(u64, LayerRef)>,
    i: int,
)
    requires
        sizes_fit(asms, lay),
        i <= entries.len(),
        forall|k: int| 0 <= k < entries.len() ==> valid_entry(asms, lay, #[trigger] entries[k]),
    ensures
        walk_consistent(jf, asms, lay, join_entries(jf, asms, lay, entries, i)),
    decreases i,
{
    if i > 0 {
        lemma_join_entries_consistent(jf, asms, lay, entries, i - 1);
        let st = join_entries(jf, asms, lay, entries, i - 1);
        let e = entries[i - 1];
        assert(valid_entry(asms, lay, e));
        let lr = e.1;
        lemma_attempt_consistent(
            jf,
            asms,
            lay,
            st,
            lr,
            e.0,
            entry_class(lay, e),
            scans_cw(lay[lr.assembly_idx as int], lr.layer_idx as int, e.0),
            lr.assembly_idx as int,
            4,
        );
    }
}

proof fn lemma_entries_upto_valid(asms: Seq<JointAssembly>, lay: Seq<Seq<JointLayer>>, a: int)
    requires
        sizes_fit(asms, lay),
        0 <= a <= asms.len(),
    ensures
        forall|k: int|
            0 <= k < entries_upto(asms, lay, a).len() ==> valid_entry(asms, lay, #[trigger] entries_upto(asms, lay, a)[k]),
    decreases a,
{
    if a > 0 {
        lemma_entries_upto_valid(asms, lay, a - 1);
        let p = entries_upto(asms, lay, a - 1);
        let b = assembly_entries(asms, lay, a - 1);
        let e = entries_upto(asms, lay, a);
        assert(e == p + b);
        assert(lay[a - 1].len() <= usize::MAX);
        assert forall|k: int| 0 <= k < e.len() implies valid_entry(asms, lay, #[trigger] e[k]) by {
            if k < p.len() {
                assert(e[k] == p[k]);
            } else {
                assert(e[k] == b[k - p.len()]);
            }
        }
    }
}

/// Every joint of a plan joins a layer of the joint to a layer of the
/// joint, and comes with an action that fits it: the action names the
/// layer's face and the two layers; a butt joint goes against a layer of
/// higher priority or of the layer's own class; a mitre joins two mitre
/// layers of one class; a double butt joins layers of one class where not
/// both ask for a mitre; a mitre or double butt partner is never of higher
/// priority.
pub proof fn law_plan_joints_fit(jf: Seq<Id>, asms: Seq<JointAssembly>, lay: Seq<Seq<JointLayer>>)
    requires
        sizes_fit(asms, lay),
    ensures
        joint_plan(jf, asms, lay).0.len() == joint_plan(jf, asms, lay).2.len(),
        forall|k: int|
            0 <= k < joint_plan(jf, asms, lay).0.len() ==> {
                &&& names_layer(asms, lay, (#[trigger] joint_plan(jf, asms, lay).0[k]).0)
                &&& names_layer(asms, lay, joint_plan(jf, asms, lay).0[k].1)
                &&& joint_fits(jf, lay, joint_plan(jf, asms, lay).0[k], joint_plan(jf, asms, lay).2[k])
            },
{
    let s = entries_upto(asms, lay, asms.len() as int);
    let entries = sort_by_priority(s);
    lemma_entries_upto_valid(asms, lay, asms.len() as int);
    lemma_sort_by_priority_elements(s);
    assert forall|k: int| 0 <= k < entries.len() implies valid_entry(asms, lay, #[trigger] entries[k]) by {
        let m = choose|m: int| 0 <= m < s.len() && s[m] == entries[k];
        assert(valid_entry(asms, lay, s[m]));
    }
    lemma_join_entries_consistent(jf, asms, lay, entries, entries.len() as int);
    let st = joint_plan(jf, asms, lay);
    assert forall|k: int| 0 <= k < st.0.len() implies {
        &&& names_layer(asms, lay, (#[trigger] st.0[k]).0)
        &&& names_layer(asms, lay, st.0[k].1)
        &&& joint_fits(jf, lay, st.0[k], st.2[k])
    } by {}
}

/// Whether `s` is in non-increasing order of priority.
pub open spec fn by_descending_priority(s: Seq<(u64, LayerRef)>) -> bool {
    forall|i: int, j: int| 0 <= i < j < s.len() ==> (#[trigger] s[i]).0 >= (#[trigger] s[j]).0
}

proof fn lemma_insert_by_priority_sorted(s: Seq<(u64, LayerRef)>, x: (u64, LayerRef))
    requires
        by_descending_priority(s),
    ensures
        by_descending_priority(insert_by_priority(s, x)),
    decreases s.len(),
{
    if s.len() > 0 && s.last().0 < x.0 {
        let t = insert_by_priority(s.drop_last(), x);
        lemma_insert_by_priority_sorted(s.drop_last(), x);
        lemma_insert_by_priority_elements(s.drop_last(), x);
        let r = t.push(s.last());
        assert forall|i: int, j: int| 0 <= i < j < r.len() implies (#[trigger] r[i]).0 >= (#[trigger] r[j]).0 by {
            if j == r.len() - 1 {
                assert(r[i] == t[i]);
                if t[i] != x {
                    let m = choose|m: int| 0 <= m < s.drop_last().len() && s.drop_last()[m] == t[i];
                    assert(s[m] == t[i]);
                }
            } else {
                assert(r[i] == t[i] && r[j] == t[j]);
            }
        }
    } else if s.len() > 0 {
        let r = s.push(x);
        assert forall|i: int, j: int| 0 <= i < j < r.len() implies (#[trigger] r[i]).0 >= (#[trigger] r[j]).0 by {
            if j == s.len() {
                assert(r[i] == s[i]);
                assert(s[i].0 >= s[s.len() - 1].0);
            } else {
                assert(r[i] == s[i] && r[j] == s[j]);
            }
        }
    }
}

/// The priority list is a rearrangement of all layers in non-increasing
/// order of priority.
pub proof fn law_priority_list_sorted(s: Seq<(u64, LayerRef)>)
    ensures
        by_descending_priority(sort_by_priority(s)),
        sort_by_priority(s).len() == s.len(),
        forall|k: int| 0 <= k < s.len() ==> s.contains(#[trigger] sort_by_priority(s)[k]),
    decreases s.len(),
{
    lemma_sort_by_priority_elements(s);
    if s.len() > 0 {
        law_priority_list_sorted(s.drop_last());
        lemma_insert_by_priority_sorted(sort_by_priority(s.drop_last()), s.last());
    }
}

/// Whether `a` comes before `b` in face-then-layer order: a lower assembly
/// index, or the same assembly and a lower layer index.
pub open spec fn face_then_layer_before(a: LayerRef, b: LayerRef) -> bool {
    a.assembly_idx < b.assembly_idx || (a.assembly_idx == b.assembly_idx && a.layer_idx < b.layer_idx)
}

/// Whether entries of equal priority in `s` come in face-then-layer order.
pub open spec fn ties_in_face_then_layer_order(s: Seq<(u64, LayerRef)>) -> bool {
    forall|i: int, j: int|
        0 <= i < j < s.len() && (#[trigger] s[i]).0 == (#[trigger] s[j]).0 ==> face_then_layer_before(s[i].1, s[j].1)
}

/// Whether all entries of `s` come in face-then-layer order.
pub open spec fn in_face_then_layer_order(s: Seq<(u64, LayerRef)>) -> bool {
    forall|i: int, j: int| 0 <= i < j < s.len() ==> face_then_layer_before((#[trigger] s[i]).1, (#[trigger] s[j]).1)
}

/// The inputs' sizes fit the index type: one layer group per assembly.
pub open spec fn sizes_fit(asms: Seq<JointAssembly>, lay: Seq<Seq<JointLayer>>) -> bool {
    &&& lay.len() == asms.len()
    &&& asms.len() <= usize::MAX
    &&& forall|a: int| 0 <= a < lay.len() ==> #[trigger] lay[a].len() <= usize::MAX
}

proof fn lemma_entries_upto_ordered(asms: Seq<JointAssembly>, lay: Seq<Seq<JointLayer>>, a: int)
    requires
        sizes_fit(asms, lay),
        0 <= a <= asms.len(),
    ensures
        in_face_then_layer_order(entries_upto(asms, lay, a)),
        forall|k: int|
            0 <= k < entries_upto(asms, lay, a).len() ==> (#[trigger] entries_upto(asms, lay, a)[k]).1.assembly_idx < a,
    decreases a,
{
    if a > 0 {
        lemma_entries_upto_ordered(asms, lay, a - 1);
        let p = entries_upto(asms, lay, a - 1);
        let b = assembly_entries(asms, lay, a - 1);
        let e = entries_upto(asms, lay, a);
        assert(e == p + b);
        assert(lay[a - 1].len() <= usize::MAX);
        assert forall|k: int| 0 <= k < e.len() implies (#[trigger] e[k]).1.assembly_idx < a by {
            if k < p.len() {
                assert(e[k] == p[k]);
            } else {
                assert(e[k] == b[k - p.len()]);
            }
        }
        assert forall|i: int, j: int| 0 <= i < j < e.len() implies face_then_layer_before(
            (#[trigger] e[i]).1,
            (#[trigger] e[j]).1,
        ) by {
            if j < p.len() {
                assert(e[i] == p[i] && e[j] == p[j]);
            } else if i < p.len() {
                assert(e[i] == p[i] && e[j] == b[j - p.len()]);
                assert(p[i].1.assembly_idx < a - 1);
            } else {
                assert(e[i] == b[i - p.len()] && e[j] == b[j - p.len()]);
            }
        }
    }
}

proof fn lemma_insert_keeps_ties_ordered(t: Seq<(u64, LayerRef)>, x: (u64, LayerRef))
    requires
        ties_in_face_then_layer_order(t),
        forall|k: int| 0 <= k < t.len() ==> face_then_layer_before((#[trigger] t[k]).1, x.1),
    ensures
        ties_in_face_then_layer_order(insert_by_priority(t, x)),
    decreases t.len(),
{
    if t.len() == 0 {
    } else if t.last().0 >= x.0 {
        let r = t.push(x);
        assert forall|i: int, j: int| 0 <= i < j < r.len() && (#[trigger] r[i]).0 == (#[trigger] r[j]).0 implies face_then_layer_before(
            r[i].1,
            r[j].1,
        ) by {
            assert(r[i] == t[i]);
            if j < t.len() {
                assert(r[j] == t[j]);
            }
        }
    } else {
        let d = t.drop_last();
        assert forall|k: int| 0 <= k < d.len() implies face_then_layer_before((#[trigger] d[k]).1, x.1) by {
            assert(d[k] == t[k]);
        }
        assert forall|i: int, j: int| 0 <= i < j < d.len() && (#[trigger] d[i]).0 == (#[trigger] d[j]).0 implies face_then_layer_before(
            d[i].1,
            d[j].1,
        ) by {
            assert(d[i] == t[i] && d[j] == t[j]);
        }
        lemma_insert_keeps_ties_ordered(d, x);
        lemma_insert_by_priority_elements(d, x);
        let u = insert_by_priority(d, x);
        let r = u.push(t.last());
        assert forall|i: int, j: int| 0 <= i < j < r.len() && (#[trigger] r[i]).0 == (#[trigger] r[j]).0 implies face_then_layer_before(
            r[i].1,
            r[j].1,
        ) by {
            assert(r[i] == u[i]);
            if j < u.len() {
                assert(r[j] == u[j]);
            } else {
                assert(r[j] == t[t.len() - 1]);
                if u[i] != x {
                    let m = choose|m: int| 0 <= m < d.len() && d[m] == u[i];
                    assert(t[m] == u[i]);
                }
            }
        }
    }
}

proof fn lemma_sort_keeps_ties_ordered(s: Seq<(u64, LayerRef)>)
    requires
        in_face_then_layer_order(s),
    ensures
        ties_in_face_then_layer_order(sort_by_priority(s)),
    decreases s.len(),
{
    if s.len() > 0 {
        let d = s.drop_last();
        assert forall|i: int, j: int| 0 <= i < j < d.len() implies face_then_layer_before(
            (#[trigger] d[i]).1,
            (#[trigger] d[j]).1,
        ) by {
            assert(d[i] == s[i] && d[j] == s[j]);
        }
        lemma_sort_keeps_ties_ordered(d);
        lemma_sort_by_priority_elements(d);
        let t = sort_by_priority(d);
        assert forall|k: int| 0 <= k < t.len() implies face_then_layer_before((#[trigger] t[k]).1, s.last().1) by {
            let m = choose|m: int| 0 <= m < d.len() && d[m] == t[k];
            assert(s[m] == t[k]);
        }
        lemma_insert_keeps_ties_ordered(t, s.last());
    }
}

/// The priority list is stable: layers of equal priority keep face-then-
/// layer order (the faces in walking order, each face's layers in group
/// order).
pub proof fn law_priority_list_is_stable(asms: Seq<JointAssembly>, lay: Seq<Seq<JointLayer>>)
    requires
        sizes_fit(asms, lay),
    ensures
        ties_in_face_then_layer_order(sort_by_priority(entries_upto(asms, lay, asms.len() as int))),
{
    lemma_entries_upto_ordered(asms, lay, asms.len() as int);
    lemma_sort_keeps_ties_ordered(entries_upto(asms, lay, asms.len() as int));
}

proof fn lemma_insert_by_priority_keeps(t: Seq<(u64, LayerRef)>, x: (u64, LayerRef))
    ensures
        insert_by_priority(t, x).contains(x),
        forall|k: int| 0 <= k < t.len() ==> insert_by_priority(t, x).contains(#[trigger] t[k]),
    decreases t.len(),
{
    let r = insert_by_priority(t, x);
    if t.len() == 0 {
        assert(r[0] == x);
    } else if t.last().0 >= x.0 {
        assert(r[t.len() as int] == x);
        assert forall|k: int| 0 <= k < t.len() implies r.contains(#[trigger] t[k]) by {
            assert(r[k] == t[k]);
        }
    } else {
        let d = t.drop_last();
        lemma_insert_by_priority_keeps(d, x);
        let u = insert_by_priority(d, x);
        let i = choose|i: int| 0 <= i < u.len() && u[i] == x;
        assert(r[i] == x);
        assert forall|k: int| 0 <= k < t.len() implies r.contains(#[trigger] t[k]) by {
            if k == t.len() - 1 {
                assert(r[u.len() as int] == t[k]);
            } else {
                assert(d[k] == t[k]);
                let m = choose|m: int| 0 <= m < u.len() && u[m] == d[k];
                assert(r[m] == t[k]);
            }
        }
    }
}

proof fn lemma_sort_by_priority_keeps(s: Seq<(u64, LayerRef)>)
    ensures
        forall|k: int| 0 <= k < s.len() ==> sort_by_priority(s).contains(#[trigger] s[k]),
    decreases s.len(),
{
    if s.len() > 0 {
        let d = s.drop_last();
        lemma_sort_by_priority_keeps(d);
        let t = sort_by_priority(d);
        lemma_insert_by_priority_keeps(t, s.last());
        let r = sort_by_priority(s);
        assert forall|k: int| 0 <= k < s.len() implies r.contains(#[trigger] s[k]) by {
            if k < d.len() {
                assert(d[k] == s[k]);
                let m = choose|m: int| 0 <= m < t.len() && t[m] == d[k];
                assert(r.contains(t[m]));
            }
        }
    }
}

proof fn lemma_entries_upto_complete(asms: Seq<JointAssembly>, lay: Seq<Seq<JointLayer>>, a: int)
    requires
        0 <= a,
    ensures
        forall|b: int, l: int|
            0 <= b < a && 0 <= l < lay[b].len() ==> entries_upto(asms, lay, a).contains(
                #[trigger] assembly_entries(asms, lay, b)[l],
            ),
    decreases a,
{
    if a > 0 {
        lemma_entries_upto_complete(asms, lay, a - 1);
        let p = entries_upto(asms, lay, a - 1);
        let q = assembly_entries(asms, lay, a - 1);
        let e = entries_upto(asms, lay, a);
        assert(e == p + q);
        assert forall|b: int, l: int| 0 <= b < a && 0 <= l < lay[b].len() implies e.contains(
            #[trigger] assembly_entries(asms, lay, b)[l],
        ) by {
            if b < a - 1 {
                let m = choose|m: int| 0 <= m < p.len() && p[m] == assembly_entries(asms, lay, b)[l];
                assert(e[m] == p[m]);
            } else {
                assert(e[p.len() + l] == q[l]);
            }
        }
    }
}

/// The priority list lists every layer of every face at the joint, with
/// its priority.
pub proof fn law_priority_list_lists_every_layer(asms: Seq<JointAssembly>, lay: Seq<Seq<JointLayer>>, a: int, l: int)
    requires
        0 <= a < asms.len(),
        0 <= l < lay[a].len(),
    ensures
        sort_by_priority(entries_upto(asms, lay, asms.len() as int)).contains(
            (lay[a][l].priority, LayerRef { face_id: asms[a].face_id, layer_idx: l as usize, assembly_idx: a as usize }),
        ),
{
    let s = entries_upto(asms, lay, asms.len() as int);
    lemma_entries_upto_complete(asms, lay, asms.len() as int);
    assert(s.contains(assembly_entries(asms, lay, a)[l]));
    let m = choose|m: int| 0 <= m < s.len() && s[m] == assembly_entries(asms, lay, a)[l];
    lemma_sort_by_priority_keeps(s);
    assert(sort_by_priority(s).contains(s[m]));
}

// ---------------------------------------------------------------------------
// The building.
// ---------------------------------------------------------------------------

/// A building: its cell complex and its construction set. `P`, `W` and `N`
/// are the point, frame and scalar types of the geometry that it carries.
pub struct Building<P, W, N> {
    pub topology: Topology<P, W, N>,
    pub construction_set: ConstructionSet<N>,
}

/// The layer group that a construction names: a layer group by uuid (the
/// first, in slot order, with that uuid), or the id itself.
pub open spec fn resolved_group<N>(cs: ConstructionSet<N>, c: ConstructionRef) -> Option<Id> {
    match c {
        ConstructionRef::Uuid(u) => {
            let ids = cs.layer_group_arena().live_ids();
            let i = group_index_with_uuid(ids, cs.layer_group_arena()@, u@, 0);
            if i >= 0 {
                Some(ids[i])
            } else {
                None
            }
        },
        ConstructionRef::Id(id) => Some(id),
    }
}

/// `rows` is `nrows` rows of `ncols` copies of `zero`.
pub open spec fn zero_rows<N>(rows: Seq<Vec<N>>, nrows: int, ncols: int, zero: N) -> bool {
    &&& rows.len() == nrows
    &&& forall|i: int| 0 <= i < nrows ==> (#[trigger] rows[i])@ == Seq::new(ncols as nat, |j: int| zero)
}

/// Face `g` is face `f` with its construction resolved to the layer group
/// `gid` that has `nlayers` layers, and all its edge offsets set to `zero`.
pub open spec fn face_prepared<W, N>(g: TopologyFace<W, N>, f: TopologyFace<W, N>, gid: Id, nlayers: int, zero: N) -> bool {
    &&& g.construction == ConstructionRef::Id(gid)
    &&& g.layer_group_id == Some(gid)
    &&& zero_rows(g.inner_edge_offsets@, nlayers, f.edges@.len() as int, zero)
    &&& zero_rows(g.outer_edge_offsets@, nlayers, f.edges@.len() as int, zero)
    &&& g.uuid == f.uuid
    &&& g.verts == f.verts
    &&& g.edges == f.edges
    &&& g.cells == f.cells
    &&& g.face_type == f.face_type
    &&& g.frame == f.frame
    &&& g.dictionary == f.dictionary
}

fn zero_offsets<N: Copy>(nrows: usize, ncols: usize, zero: N) -> (r: EdgeOffsets<N>)
    ensures
        zero_rows(r@, nrows as int, ncols as int, zero),
{
    let mut rows: Vec<Vec<N>> = Vec::new();
    let mut i: usize = 0;
    while i < nrows
        invariant
            i <= nrows,
            zero_rows(rows@, i as int, ncols as int, zero),
        decreases nrows - i,
    {
        let mut row: Vec<N> = Vec::new();
        let mut j: usize = 0;
        while j < ncols
            invariant
                j <= ncols,
                row@ == Seq::new(j as nat, |k: int| zero),
            decreases ncols - j,
        {
            row.push(zero);
            proof {
                assert(row@ =~= Seq::new((j + 1) as nat, |k: int| zero));
            }
            j = j + 1;
        }
        rows.push(row);
        proof {
            assert forall|k: int| 0 <= k < i + 1 implies (#[trigger] rows@[k])@ == Seq::new(ncols as nat, |j: int| zero) by {
            }
        }
        i = i + 1;
    }
    rows
}

fn clone_construction(c: &ConstructionRef) -> (r: ConstructionRef)
    ensures
        r == *c,
{
    match c {
        ConstructionRef::Uuid(uuid) => ConstructionRef::Uuid(uuid.clone()),
        ConstructionRef::Id(id) => ConstructionRef::Id(*id),
    }
}

impl<P, W, N: Copy> Building<P, W, N> {
    pub open spec fn wf(&self) -> bool {
        self.topology.wf() && self.construction_set.wf()
    }

    /// Whether some face of `topology` names a layer group by a uuid that no
    /// layer group has.
    pub open spec fn has_unknown_group(topology: Topology<P, W, N>, construction_set: ConstructionSet<N>) -> bool {
        exists|f: Id|
            #[trigger] topology.faces@.contains_key(f) && resolved_group(construction_set, topology.faces@[f].construction)
                is None
    }

    /// Assembles a building from its cell complex and construction set:
    /// each face's construction is resolved to a layer group, recorded as the
    /// face's layer group, and the face gets, per layer of the group, a row
    /// of `zero` edge offsets per edge, inner and outer. Fails when a face
    /// names a layer group by a uuid that no layer group has.
    pub fn from_data(topology: Topology<P, W, N>, construction_set: ConstructionSet<N>, zero: N) -> (r: Result<
        Self,
        String,
    >)
        requires
            topology.wf(),
            construction_set.wf(),
            forall|f: Id|
                #[trigger] topology.faces@.contains_key(f) ==> match topology.faces@[f].construction {
                    ConstructionRef::Id(id) => construction_set.layer_group_arena()@.contains_key(id),
                    ConstructionRef::Uuid(_) => true,
                },
        ensures
            r matches Err(e) ==> Self::has_unknown_group(topology, construction_set) && e@ == "Layer group not found"@,
            r matches Ok(b) ==> {
                &&& !Self::has_unknown_group(topology, construction_set)
                &&& b.wf()
                &&& b.construction_set == construction_set
                &&& b.topology.verts == topology.verts
                &&& b.topology.edges == topology.edges
                &&& b.topology.cells == topology.cells
                &&& b.topology.faces.same_layout(&topology.faces)
                &&& b.topology.faces@.dom() == topology.faces@.dom()
                &&& forall|f: Id| #[trigger]
                    topology.faces@.contains_key(f) ==> {
                        let gid = resolved_group(construction_set, topology.faces@[f].construction)->0;
                        &&& construction_set.layer_group_arena()@.contains_key(gid)
                        &&& face_prepared(
                            b.topology.faces@[f],
                            topology.faces@[f],
                            gid,
                            construction_set.layer_group_arena()@[gid].layers@.len() as int,
                            zero,
                        )
                    }
            },
    {
        let ghost t0 = topology;
        let mut topo = topology;
        let face_ids = topo.face_ids();
        proof {
            t0.faces.lemma_ids_are_the_live_ids();
        }
        let ghost ids = face_ids@;
        for face_id in it: face_ids
            invariant
                it.seq() == ids,
                ids == t0.faces.live_ids(),
                ids.no_duplicates(),
                forall|f: Id| t0.faces@.contains_key(f) <==> ids.contains(f),
                t0.wf(),
                t0 == topology,
                construction_set.wf(),
                forall|f: Id|
                    #[trigger] t0.faces@.contains_key(f) ==> match t0.faces@[f].construction {
                        ConstructionRef::Id(id) => construction_set.layer_group_arena()@.contains_key(id),
                        ConstructionRef::Uuid(_) => true,
                    },
                topo.wf(),
                topo.verts == t0.verts,
                topo.edges == t0.edges,
                topo.cells == t0.cells,
                topo.faces.same_layout(&t0.faces),
                topo.faces@.dom() == t0.faces@.dom(),
                forall|k: int| 0 <= k < it.index() ==> resolved_group(construction_set, #[trigger] t0.faces@[ids[k]].construction) is Some,
                forall|f: Id| #[trigger]
                    t0.faces@.contains_key(f) ==> if ids.take(it.index() as int).contains(f) {
                        let gid = resolved_group(construction_set, t0.faces@[f].construction)->0;
                        &&& construction_set.layer_group_arena()@.contains_key(gid)
                        &&& face_prepared(
                            topo.faces@[f],
                            t0.faces@[f],
                            gid,
                            construction_set.layer_group_arena()@[gid].layers@.len() as int,
                            zero,
                        )
                    } else {
                        topo.faces@[f] == t0.faces@[f]
                    },
        {
            let ghost k = it.index() as int;
            proof {
                assert(ids[k] == face_id);
                assert(ids.contains(face_id));
                assert(!ids.take(k).contains(face_id));
            }
            let (num_edges, construction) = {
                let face = match topo.face(face_id) {
                    Some(face) => face,
                    None => {
                        return Err(String::from_str("Face not found"));
                    },
                };
                (face.edges.len(), clone_construction(&face.construction))
            };
            let layer_group_id = match construction {
                ConstructionRef::Uuid(uuid) => match construction_set.layer_group_by_uuid(uuid.as_str()) {
                    Some(id) => id,
                    None => {
                        let msg = String::from_str("Layer group not found");
                        proof {
                            reveal_strlit("Layer group not found");
                            assert(resolved_group(construction_set, t0.faces@[face_id].construction) is None);
                            assert(t0.faces@.contains_key(face_id));
                            assert(Self::has_unknown_group(t0, construction_set));
                        }
                        return Err(msg);
                    },
                },
                ConstructionRef::Id(id) => id,
            };
            proof {
                let lids = construction_set.layer_group_arena().live_ids();
                construction_set.layer_group_arena().lemma_ids_are_the_live_ids();
                if let ConstructionRef::Uuid(u) = t0.faces@[face_id].construction {
                    let i = group_index_with_uuid(lids, construction_set.layer_group_arena()@, u@, 0);
                    if i >= 0 {
                        lemma_group_index_with_uuid(lids, construction_set.layer_group_arena()@, u@, 0);
                        assert(lids.contains(lids[i]));
                    }
                }
            }
            let num_layers = construction_set.layer_group(layer_group_id).unwrap().layers.len();
            let inner = zero_offsets(num_layers, num_edges, zero);
            let outer = zero_offsets(num_layers, num_edges, zero);
            let ghost before = topo;
            let face = match topo.faces.get_mut(face_id) {
                Some(face) => face,
                None => {
                    return Err(String::from_str("Face not found"));
                },
            };
            face.construction = ConstructionRef::Id(layer_group_id);
            face.layer_group_id = Some(layer_group_id);
            face.inner_edge_offsets = inner;
            face.outer_edge_offsets = outer;
            proof {
                assert forall|f: Id| #[trigger] t0.faces@.contains_key(f) implies if ids.take(k + 1).contains(f) {
                    let gid = resolved_group(construction_set, t0.faces@[f].construction)->0;
                    &&& construction_set.layer_group_arena()@.contains_key(gid)
                    &&& face_prepared(
                        topo.faces@[f],
                        t0.faces@[f],
                        gid,
                        construction_set.layer_group_arena()@[gid].layers@.len() as int,
                        zero,
                    )
                } else {
                    topo.faces@[f] == t0.faces@[f]
                } by {
                    if f != face_id {
                        if ids.take(k + 1).contains(f) {
                            let m = choose|m: int| 0 <= m < k + 1 && #[trigger] ids.take(k + 1)[m] == f;
                            assert(ids.take(k)[m] == f);
                        } else if ids.take(k).contains(f) {
                            let m = choose|m: int| 0 <= m < k && #[trigger] ids.take(k)[m] == f;
                            assert(ids.take(k + 1)[m] == f);
                        }
                    } else {
                        assert(ids.take(k + 1)[k] == f);
                    }
                }
            }
        }
        proof {
            assert(ids.take(ids.len() as int) =~= ids);
            assert forall|f: Id| #[trigger] t0.faces@.contains_key(f) implies resolved_group(
                construction_set,
                t0.faces@[f].construction,
            ) is Some by {
                let m = choose|m: int| 0 <= m < ids.len() && #[trigger] ids[m] == f;
                assert(resolved_group(construction_set, t0.faces@[ids[m]].construction) is Some);
            }
        }
        Ok(Building { topology: topo, construction_set })
    }

    pub fn face_ids(&self) -> (r: Vec<Id>)
        requires
            self.wf(),
        ensures
            r@ == self.topology.faces.live_ids(),
    {
        self.topology.faces.ids()
    }

    pub fn edge_ids(&self) -> (r: Vec<Id>)
        requires
            self.wf(),
        ensures
            r@ == self.topology.edges.live_ids(),
    {
        self.topology.edges.ids()
    }
}

} // verus!
