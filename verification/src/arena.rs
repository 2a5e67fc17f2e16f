use vstd::prelude::*;
use crate::base_types::Id;

verus! {

/// One storage slot: the generation it is at, and the value it holds, if any.
pub struct Slot<T> {
    generation: u32,
    value: Option<T>,
}

/// A generational arena. Values are reached through [`Id`]s; removing a
/// value bumps the generation of its slot, so that an `Id` handed out
/// before the removal never reaches a value again, even once the slot is
/// reused.
pub struct Arena<T> {
    slots: Vec<Slot<T>>,
    free: Vec<u32>,
}

/// The ids of the occupied slots among the first `n` slots, in slot order.
pub closed spec fn live_ids_upto<T>(slots: Seq<Slot<T>>, n: int) -> Seq<Id>
    decreases n,
{
    if n <= 0 {
        Seq::empty()
    } else {
        let rest = live_ids_upto(slots, n - 1);
        if slots[n - 1].value is Some {
            rest.push(Id { index: (n - 1) as u32, generation: slots[n - 1].generation })
        } else {
            rest
        }
    }
}

impl<T> View for Arena<T> {
    type V = Map<Id, T>;

    /// The values that the arena holds, each under the id that reaches it.
    closed spec fn view(&self) -> Map<Id, T> {
        Map::new(
            |id: Id| self.holds(id),
            |id: Id| self.slots@[id.index as int].value->0,
        )
    }
}

impl<T> Arena<T> {
    closed spec fn holds(&self, id: Id) -> bool {
        &&& id.index < self.slots@.len()
        &&& self.slots@[id.index as int].generation == id.generation
        &&& self.slots@[id.index as int].value is Some
    }

    /// The number of slots the arena has ever opened.
    pub closed spec fn slot_count(&self) -> nat {
        self.slots@.len()
    }

    /// The generation that slot `index` is at.
    pub closed spec fn generation(&self, index: int) -> u32 {
        self.slots@[index].generation
    }

    /// The freed slot indices, the most recently freed last.
    pub closed spec fn free_indices(&self) -> Seq<u32> {
        self.free@
    }

    /// The ids of all held values, in slot order.
    pub closed spec fn live_ids(&self) -> Seq<Id> {
        live_ids_upto(self.slots@, self.slots@.len() as int)
    }

    /// The id that the next [`Arena::insert`] hands out: the most recently
    /// freed slot at its current generation, or else a new slot at
    /// generation 0.
    pub open spec fn next_id(&self) -> Id {
        if self.free_indices().len() > 0 {
            Id {
                index: self.free_indices().last(),
                generation: self.generation(self.free_indices().last() as int),
            }
        } else {
            Id { index: self.slot_count() as u32, generation: 0 }
        }
    }

    /// How the slots of `self` relate to those of `before` after one insert:
    /// the most recently freed slot is taken, or else one slot is opened at
    /// generation 0; no generation changes.
    pub open spec fn layout_after_insert(&self, before: &Self) -> bool {
        &&& before.free_indices().len() > 0 ==> {
            &&& self.free_indices() == before.free_indices().drop_last()
            &&& self.slot_count() == before.slot_count()
        }
        &&& before.free_indices().len() == 0 ==> {
            &&& self.free_indices() == before.free_indices()
            &&& self.slot_count() == before.slot_count() + 1
            &&& self.generation(before.slot_count() as int) == 0
        }
        &&& forall|i: int|
            0 <= i < before.slot_count() ==> #[trigger] self.generation(i) == before.generation(i)
    }

    /// The same slots, free list and generations as `other`.
    pub open spec fn same_layout(&self, other: &Self) -> bool {
        &&& self.free_indices() == other.free_indices()
        &&& self.slot_count() == other.slot_count()
        &&& forall|i: int|
            0 <= i < other.slot_count() ==> #[trigger] self.generation(i) == other.generation(i)
    }

    /// An id whose slot has since moved on to a later generation: it was
    /// handed out once and its value was removed.
    pub open spec fn retired(&self, id: Id) -> bool {
        &&& id.index < self.slot_count()
        &&& id.generation < self.generation(id.index as int)
    }

    /// Every id that `before` has retired stays retired in `self`.
    pub open spec fn keeps_retired(&self, before: &Self) -> bool {
        forall|other: Id| before.retired(other) ==> #[trigger] self.retired(other)
    }

    /// `s` lists the ids that reach a value, each once, in increasing slot
    /// order.
    pub open spec fn in_slot_order(&self, s: Seq<Id>) -> bool {
        &&& forall|k: int, l: int| 0 <= k < l < s.len() ==> (#[trigger] s[k]).index < (#[trigger] s[l]).index
        &&& forall|k: int| 0 <= k < s.len() ==> self@.contains_key(#[trigger] s[k])
        &&& forall|id: Id| #[trigger] self@.contains_key(id) ==> s.contains(id)
    }

    /// The arena's internal consistency: every freed slot is empty and
    /// listed once, and every slot index fits in a `u32`.
    pub closed spec fn wf(&self) -> bool {
        &&& self.slots@.len() <= u32::MAX
        &&& forall|k: int|
            0 <= k < self.free@.len() ==> {
                &&& #[trigger] self.free@[k] < self.slots@.len()
                &&& self.slots@[self.free@[k] as int].value is None
            }
        &&& forall|k: int, l: int|
            0 <= k < l < self.free@.len() ==> #[trigger] self.free@[k] != #[trigger] self.free@[l]
    }

    pub fn new() -> (arena: Self)
        ensures
            arena.wf(),
            arena@ == Map::<Id, T>::empty(),
            arena.slot_count() == 0,
            arena.free_indices() == Seq::<u32>::empty(),
    {
        let arena = Arena { slots: Vec::new(), free: Vec::new() };
        assert(arena@ =~= Map::<Id, T>::empty());
        arena
    }

    /// Stores `value` in the most recently freed slot, or in a new slot when
    /// none is free, and returns the id that reaches it.
    pub fn insert(&mut self, value: T) -> (id: Id)
        requires
            old(self).wf(),
            old(self).slot_count() < u32::MAX,
        ensures
            final(self).wf(),
            id == old(self).next_id(),
            !old(self)@.contains_key(id),
            !old(self).retired(id),
            final(self)@ == old(self)@.insert(id, value),
            final(self).layout_after_insert(&*old(self)),
            final(self).keeps_retired(&*old(self)),
    {
        if let Some(index) = self.free.pop() {
            proof {
                assert(old(self).free@[old(self).free@.len() - 1] == index);
                assert(self.free@ =~= old(self).free@.drop_last());
            }
            let slot = &mut self.slots[index as usize];
            slot.value = Some(value);
            let id = Id { index, generation: slot.generation };
            proof {
                assert forall|k: int| 0 <= k < self.free@.len() implies {
                    &&& #[trigger] self.free@[k] < self.slots@.len()
                    &&& self.slots@[self.free@[k] as int].value is None
                } by {
                    assert(old(self).free@[k] != old(self).free@[old(self).free@.len() - 1]);
                }
                assert(self@ =~= old(self)@.insert(id, value));
            }
            id
        } else {
            let index = self.slots.len() as u32;
            self.slots.push(Slot { generation: 0, value: Some(value) });
            let id = Id { index, generation: 0 };
            proof {
                assert(self@ =~= old(self)@.insert(id, value));
            }
            id
        }
    }

    /// The value that `id` reaches, if it still reaches one.
    pub fn get(&self, id: Id) -> (r: Option<&T>)
        requires
            self.wf(),
        ensures
            r == (if self@.contains_key(id) {
                Some(&self@[id])
            } else {
                None
            }),
    {
        let index = id.index as usize;
        if index >= self.slots.len() {
            return None;
        }
        let slot = &self.slots[index];
        if slot.generation != id.generation {
            return None;
        }
        slot.value.as_ref()
    }

    /// Mutable access to the value that `id` reaches, if it still reaches one.
    pub fn get_mut(&mut self, id: Id) -> (r: Option<&mut T>)
        requires
            old(self).wf(),
        ensures
            final(self).wf(),
            old(self)@.contains_key(id) ==> {
                &&& r is Some
                &&& *r.unwrap() == old(self)@[id]
                &&& final(self)@ == old(self)@.insert(id, *final(r.unwrap()))
            },
            !old(self)@.contains_key(id) ==> r is None && final(self)@ == old(self)@,
            final(self).same_layout(&*old(self)),
            final(self).keeps_retired(&*old(self)),
    {
        let index = id.index as usize;
        if index >= self.slots.len() {
            return None;
        }
        let slot = &mut self.slots[index];
        if slot.generation != id.generation {
            return None;
        }
        slot.value.as_mut()
    }

    /// Takes the value that `id` reaches out of the arena, retires `id`
    /// by moving its slot on to the next generation, and frees the slot.
    pub fn remove(&mut self, id: Id) -> (r: Option<T>)
        requires
            old(self).wf(),
            old(self)@.contains_key(id) ==> id.generation < u32::MAX,
        ensures
            final(self).wf(),
            old(self)@.contains_key(id) ==> {
                &&& r == Some(old(self)@[id])
                &&& final(self)@ == old(self)@.remove(id)
                &&& final(self).free_indices() == old(self).free_indices().push(id.index)
                &&& final(self).generation(id.index as int) == id.generation + 1
                &&& final(self).retired(id)
            },
            !old(self)@.contains_key(id) ==> r is None && *final(self) == *old(self),
            final(self).slot_count() == old(self).slot_count(),
            forall|i: int|
                0 <= i < old(self).slot_count() && i != id.index ==> #[trigger] final(self).generation(i)
                    == old(self).generation(i),
            final(self).keeps_retired(&*old(self)),
    {
        let index = id.index as usize;
        if index >= self.slots.len() {
            return None;
        }
        if self.slots[index].generation != id.generation || self.slots[index].value.is_none() {
            return None;
        }
        let slot = &mut self.slots[index];
        let value = match slot.value.take() {
            Some(value) => value,
            None => {
                return None;
            },
        };
        slot.generation = slot.generation.checked_add(1).expect("arena generation overflow");
        self.free.push(id.index);
        proof {
            assert forall|k: int| 0 <= k < self.free@.len() implies {
                &&& #[trigger] self.free@[k] < self.slots@.len()
                &&& self.slots@[self.free@[k] as int].value is None
            } by {
                if k < old(self).free@.len() {
                    assert(self.free@[k] == old(self).free@[k]);
                }
            }
            assert forall|k: int, l: int|
                0 <= k < l < self.free@.len() implies #[trigger] self.free@[k] != #[trigger] self.free@[l] by {
                if l == self.free@.len() - 1 {
                    assert(old(self).slots@[old(self).free@[k] as int].value is None);
                }
            }
            assert(self@ =~= old(self)@.remove(id));
        }
        Some(value)
    }

    /// The held values, in slot order.
    pub fn iter(&self) -> (r: Vec<&T>)
        requires
            self.wf(),
        ensures
            r@.len() == self.live_ids().len(),
            forall|k: int| 0 <= k < r@.len() ==> *#[trigger] r@[k] == self@[self.live_ids()[k]],
            self.in_slot_order(self.live_ids()),
    {
        proof {
            self.lemma_live_ids_in_slot_order();
        }
        let mut r: Vec<&T> = Vec::new();
        let mut i: usize = 0;
        while i < self.slots.len()
            invariant
                self.wf(),
                i <= self.slots@.len(),
                r@.len() == live_ids_upto(self.slots@, i as int).len(),
                forall|k: int| 0 <= k < r@.len() ==> *#[trigger] r@[k] == self@[live_ids_upto(self.slots@, i as int)[k]],
            decreases self.slots@.len() - i,
        {
            proof {
                self.lemma_live_ids_held(i as int);
            }
            match &self.slots[i].value {
                Some(value) => {
                    r.push(value);
                },
                None => {},
            }
            i = i + 1;
        }
        r
    }

    /// The ids of the held values, in slot order.
    pub fn ids(&self) -> (r: Vec<Id>)
        requires
            self.wf(),
        ensures
            r@ == self.live_ids(),
            self.in_slot_order(r@),
    {
        proof {
            self.lemma_live_ids_in_slot_order();
        }
        let mut r: Vec<Id> = Vec::new();
        let mut i: usize = 0;
        while i < self.slots.len()
            invariant
                self.wf(),
                i <= self.slots@.len(),
                r@ == live_ids_upto(self.slots@, i as int),
            decreases self.slots@.len() - i,
        {
            if self.slots[i].value.is_some() {
                r.push(Id { index: i as u32, generation: self.slots[i].generation });
            }
            i = i + 1;
        }
        r
    }

    /// The held values with their ids, in slot order.
    pub fn iter_with_ids(&self) -> (r: Vec<(Id, &T)>)
        requires
            self.wf(),
        ensures
            r@.len() == self.live_ids().len(),
            forall|k: int|
                0 <= k < r@.len() ==> (#[trigger] r@[k]).0 == self.live_ids()[k] && *r@[k].1
                    == self@[self.live_ids()[k]],
            self.in_slot_order(self.live_ids()),
    {
        proof {
            self.lemma_live_ids_in_slot_order();
        }
        let mut r: Vec<(Id, &T)> = Vec::new();
        let mut i: usize = 0;
        while i < self.slots.len()
            invariant
                self.wf(),
                i <= self.slots@.len(),
                r@.len() == live_ids_upto(self.slots@, i as int).len(),
                forall|k: int|
                    0 <= k < r@.len() ==> (#[trigger] r@[k]).0 == live_ids_upto(self.slots@, i as int)[k]
                        && *r@[k].1 == self@[live_ids_upto(self.slots@, i as int)[k]],
            decreases self.slots@.len() - i,
        {
            proof {
                self.lemma_live_ids_held(i as int);
            }
            match &self.slots[i].value {
                Some(value) => {
                    r.push((Id { index: i as u32, generation: self.slots[i].generation }, value));
                },
                None => {},
            }
            i = i + 1;
        }
        r
    }

    /// Each id among the first `n` slots' live ids is held, and points below `n`.
    proof fn lemma_live_ids_held(&self, n: int)
        requires
            0 <= n <= self.slots@.len(),
            self.slots@.len() <= u32::MAX,
        ensures
            forall|k: int|
                0 <= k < live_ids_upto(self.slots@, n).len() ==> {
                    &&& self.holds(#[trigger] live_ids_upto(self.slots@, n)[k])
                    &&& live_ids_upto(self.slots@, n)[k].index < n
                },
        decreases n,
    {
        if n > 0 {
            self.lemma_live_ids_held(n - 1);
            let rest = live_ids_upto(self.slots@, n - 1);
            let s = live_ids_upto(self.slots@, n);
            assert forall|k: int| 0 <= k < s.len() implies {
                &&& self.holds(#[trigger] s[k])
                &&& s[k].index < n
            } by {
                if k < rest.len() {
                    assert(s[k] == rest[k]);
                }
            }
        }
    }

    /// The ids among the first `n` slots' live ids have strictly increasing indices.
    proof fn lemma_live_ids_ordered(&self, n: int)
        requires
            0 <= n <= self.slots@.len(),
            self.slots@.len() <= u32::MAX,
        ensures
            forall|k: int, l: int|
                0 <= k < l < live_ids_upto(self.slots@, n).len() ==> (#[trigger] live_ids_upto(
                    self.slots@,
                    n,
                )[k]).index < (#[trigger] live_ids_upto(self.slots@, n)[l]).index,
        decreases n,
    {
        if n > 0 {
            self.lemma_live_ids_ordered(n - 1);
            self.lemma_live_ids_held(n - 1);
            let rest = live_ids_upto(self.slots@, n - 1);
            let s = live_ids_upto(self.slots@, n);
            assert forall|k: int, l: int| 0 <= k < l < s.len() implies (#[trigger] s[k]).index < (
            #[trigger] s[l]).index by {
                assert(s[k] == rest[k]);
                if l < rest.len() {
                    assert(s[l] == rest[l]);
                }
            }
        }
    }

    /// Each held id among the first `n` slots occurs in their live ids.
    proof fn lemma_live_ids_complete(&self, n: int, id: Id)
        requires
            0 <= n <= self.slots@.len(),
            self.slots@.len() <= u32::MAX,
            self.holds(id),
            id.index < n,
        ensures
            live_ids_upto(self.slots@, n).contains(id),
        decreases n,
    {
        if id.index < n - 1 {
            self.lemma_live_ids_complete(n - 1, id);
            let k = choose|k: int|
                0 <= k < live_ids_upto(self.slots@, n - 1).len() && #[trigger] live_ids_upto(self.slots@, n - 1)[k] == id;
            assert(live_ids_upto(self.slots@, n)[k] == id);
        } else {
            let s = live_ids_upto(self.slots@, n);
            assert(s[s.len() - 1] == id);
        }
    }

    /// The ids that [`Arena::ids`] lists are exactly the ids that reach a
    /// value, each listed once.
    pub proof fn lemma_ids_are_the_live_ids(&self)
        requires
            self.wf(),
        ensures
            forall|id: Id| self@.contains_key(id) <==> self.live_ids().contains(id),
            self.live_ids().no_duplicates(),
    {
        let n = self.slots@.len() as int;
        self.lemma_live_ids_held(n);
        self.lemma_live_ids_ordered(n);
        assert forall|id: Id| self@.contains_key(id) implies self.live_ids().contains(id) by {
            self.lemma_live_ids_complete(n, id);
        }
    }

    /// The live ids are listed in increasing slot order, and they are
    /// exactly the ids that reach a value.
    pub proof fn lemma_live_ids_in_slot_order(&self)
        requires
            self.wf(),
        ensures
            self.in_slot_order(self.live_ids()),
    {
        let n = self.slots@.len() as int;
        self.lemma_live_ids_held(n);
        self.lemma_live_ids_ordered(n);
        assert forall|id: Id| #[trigger] self@.contains_key(id) implies self.live_ids().contains(id) by {
            self.lemma_live_ids_complete(n, id);
        }
    }

    /// An id that has been retired never reaches a value.
    pub proof fn lemma_retired_never_held(&self, id: Id)
        requires
            self.retired(id),
        ensures
            !self@.contains_key(id),
    {
    }

    /// Removing the value that an insert just stored gives back what the
    /// arena held before the insert.
    pub proof fn law_remove_undoes_insert(before: Self, inserted: Self, removed: Self, id: Id, value: T)
        requires
            !before@.contains_key(id),
            inserted@ == before@.insert(id, value),
            removed@ == inserted@.remove(id),
        ensures
            removed@ == before@,
    {
        assert(removed@ =~= before@);
    }

    /// Once a value is removed, the next insert reuses its slot at the next
    /// generation: it hands out a different id for the same slot.
    pub proof fn law_reuse_after_remove(&self, removed: Id)
        requires
            self.free_indices().len() > 0,
            self.free_indices().last() == removed.index,
            self.generation(removed.index as int) == removed.generation + 1,
        ensures
            self.next_id() == (Id { index: removed.index, generation: (removed.generation + 1) as u32 }),
            self.next_id() != removed,
    {
    }

    /// A removed id never reaches a value again: along any run of arena
    /// states in which each state follows the one before by an insert, a
    /// remove or a mutable access (each of which keeps retired ids
    /// retired), an id retired in the first state reaches no value in any
    /// of them, however often its slot is reused.
    pub proof fn law_removed_id_stays_invalid(states: Seq<Self>, id: Id)
        requires
            states.len() > 0,
            states[0].retired(id),
            forall|i: int| 0 < i < states.len() ==> #[trigger] states[i].keeps_retired(&states[i - 1]),
        ensures
            forall|i: int| 0 <= i < states.len() ==> (#[trigger] states[i]).retired(id) && !states[i]@.contains_key(id),
        decreases states.len(),
    {
        if states.len() > 1 {
            let prefix = states.drop_last();
            assert forall|i: int| 0 < i < prefix.len() implies #[trigger] prefix[i].keeps_retired(&prefix[i - 1]) by {
                assert(prefix[i] == states[i]);
                assert(prefix[i - 1] == states[i - 1]);
                assert(states[i].keeps_retired(&states[i - 1]));
            }
            Self::law_removed_id_stays_invalid(prefix, id);
            let last = states.len() - 1;
            assert(prefix[last - 1] == states[last - 1]);
            assert(states[last].keeps_retired(&states[last - 1]));
            assert forall|i: int| 0 <= i < states.len() implies (#[trigger] states[i]).retired(id) && !states[i]@.contains_key(id) by {
                if i < last {
                    assert(prefix[i] == states[i]);
                } else {
                    assert(prefix[last - 1].retired(id));
                    assert(states[last].retired(id));
                    states[last].lemma_retired_never_held(id);
                }
            }
        }
    }
}

} // verus!
