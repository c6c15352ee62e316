//! Per-entity component storage: a sparse array of type-erased component
//! payloads, indexed by the component type's registry id.

use vstd::prelude::*;

verus! {

/// A type-erased component payload: the registry id of the component's type
/// together with the component's fields, flattened to plain integers.
pub struct ComponentValue {
    pub type_id: usize,
    pub data: Vec<i64>,
}

/// The mathematical content of one component slot: the payload, if occupied.
pub open spec fn slot_payload(c: Option<ComponentValue>) -> Option<Seq<i64>> {
    match c {
        Some(cv) => Some(cv.data@),
        None => None,
    }
}

/// Model of an entity: its identifier and one slot per registered component
/// type, each slot holding the payload of that component if present.
#[verifier::ext_equal]
pub ghost struct EntityView {
    pub id: u32,
    pub slots: Seq<Option<Seq<i64>>>,
}

/// An entity: a unique identifier plus a sparse array of component payloads,
/// one slot per registered component type, indexed by the component id.
///
/// The slot array is sized once, at construction, from the finalized
/// registry's component count; it never grows.
pub struct Entity {
    pub id: u32,
    components: Vec<Option<ComponentValue>>,
}

impl View for Entity {
    type V = EntityView;

    closed spec fn view(&self) -> EntityView {
        EntityView {
            id: self.id,
            slots: self.components@.map_values(|c: Option<ComponentValue>| slot_payload(c)),
        }
    }
}

impl Entity {
    /// Every occupied slot holds a payload tagged with the slot's own id.
    pub closed spec fn wf(&self) -> bool {
        forall|i: int|
            0 <= i < self.components@.len() ==> ((#[trigger] self.components@[i]) matches Some(cv)
                ==> cv.type_id == i)
    }

    /// Makes an entity with the given identifier and one empty slot per
    /// registered component type.
    pub fn new(id: u32, component_count: usize) -> (e: Entity)
        ensures
            e.wf(),
            e@.id == id,
            e@.slots.len() == component_count,
            forall|i: int| 0 <= i < component_count ==> e@.slots[i] is None,
    {
        let mut components: Vec<Option<ComponentValue>> = Vec::new();
        let mut i: usize = 0;
        while i < component_count
            invariant
                i <= component_count,
                components@.len() == i,
                forall|j: int| 0 <= j < i ==> components@[j] is None,
            decreases component_count - i,
        {
            components.push(None);
            i = i + 1;
        }
        Entity { id, components }
    }

    /// The entity's identifier.
    pub fn entity_id(&self) -> (id: u32)
        ensures
            id == self@.id,
    {
        self.id
    }

    /// The number of component slots, fixed at construction.
    pub fn component_count(&self) -> (n: usize)
        ensures
            n == self@.slots.len(),
    {
        self.components.len()
    }

    /// Unconditional slot replacement: the previous occupant, if any, is
    /// dropped.
    pub fn set_component(&mut self, component: Option<ComponentValue>, id: usize)
        requires
            old(self).wf(),
            id < old(self)@.slots.len(),
            (component matches Some(cv) ==> cv.type_id == id),
        ensures
            final(self).wf(),
            final(self)@.id == old(self)@.id,
            final(self)@.slots == old(self)@.slots.update(id as int, slot_payload(component)),
    {
        let slot = crate::util::elem_mut(&mut self.components, id);
        *slot = component;
        proof {
            assert(self@.slots =~= old(self)@.slots.update(id as int, slot_payload(component)));
        }
    }

    /// Adds a component; succeeds only if the slot for its type is empty.
    /// An occupied slot is never overwritten: the call fails and the world
    /// is left exactly as it was.
    pub fn add_component(&mut self, component: ComponentValue) -> (r: Option<()>)
        requires
            old(self).wf(),
            component.type_id < old(self)@.slots.len(),
        ensures
            final(self).wf(),
            final(self)@.id == old(self)@.id,
            old(self)@.slots[component.type_id as int] is None ==> r == Some(())
                && final(self)@.slots == old(self)@.slots.update(
                    component.type_id as int,
                    Some(component.data@),
                ),
            old(self)@.slots[component.type_id as int] is Some ==> r is None
                && final(self)@ == old(self)@,
    {
        let id = component.type_id;
        let occupied = Option::is_some(&self.components[id]);
        if occupied {
            None
        } else {
            let slot = crate::util::elem_mut(&mut self.components, id);
            *slot = Some(component);
            proof {
                assert(self@.slots =~= old(self)@.slots.update(id as int, Some(component.data@)));
            }
            Some(())
        }
    }

    /// Reads the component with the given id, if present.
    pub fn get_component(&self, id: usize) -> (r: Option<&ComponentValue>)
        requires
            self.wf(),
            id < self@.slots.len(),
        ensures
            (r matches Some(c) ==> self@.slots[id as int] == Some(c.data@) && c.type_id == id),
            (r is None ==> self@.slots[id as int] is None),
    {
        Option::as_ref(&self.components[id])
    }

    /// Mutable access to the payload of the component with the given id, if
    /// present. The payload may be rewritten through the returned borrow; the
    /// slot's type tag cannot.
    pub fn get_component_mut(&mut self, id: usize) -> (r: Option<&mut Vec<i64>>)
        requires
            old(self).wf(),
            id < old(self)@.slots.len(),
        ensures
            final(self).wf(),
            final(self)@.id == old(self)@.id,
            old(self)@.slots[id as int] is None ==> r is None && final(self)@ =~= old(self)@,
            old(self)@.slots[id as int] is Some ==> r is Some
                && r.unwrap()@ == old(self)@.slots[id as int].unwrap()
                && final(self)@.slots =~= old(self)@.slots.update(
                    id as int,
                    Some(final(r.unwrap())@),
                ),
    {
        let slot = crate::util::elem_mut(&mut self.components, id);
        match Option::as_mut(slot) {
            Some(cv) => Some(&mut cv.data),
            None => None,
        }
    }

    /// Empties the slot with the given id and yields the prior occupant.
    pub fn remove_component(&mut self, id: usize) -> (r: Option<ComponentValue>)
        requires
            old(self).wf(),
            id < old(self)@.slots.len(),
        ensures
            final(self).wf(),
            final(self)@.id == old(self)@.id,
            slot_payload(r) == old(self)@.slots[id as int],
            (r matches Some(cv) ==> cv.type_id == id),
            final(self)@.slots == old(self)@.slots.update(id as int, None::<Seq<i64>>),
    {
        let slot = crate::util::elem_mut(&mut self.components, id);
        let r = slot.take();
        proof {
            assert(self@.slots =~= old(self)@.slots.update(id as int, None::<Seq<i64>>));
        }
        r
    }

    /// Whether the slot with the given id is occupied.
    pub fn has_component(&self, id: usize) -> (r: bool)
        requires
            id < self@.slots.len(),
        ensures
            r == (self@.slots[id as int] is Some),
    {
        Option::is_some(&self.components[id])
    }
}

/// Storage round trip, stated over the slot model the contracts above use:
/// writing payload `v` into slot `id` and reading the slot back yields `v`;
/// emptying the slot afterwards leaves it empty. Together with the contracts
/// of `add_component`, `get_component`, `remove_component` and
/// `has_component`, this pins the add/get/remove/has round trip.
pub proof fn lemma_store_round_trip(slots: Seq<Option<Seq<i64>>>, id: int, v: Seq<i64>)
    requires
        0 <= id < slots.len(),
    ensures
        slots.update(id, Some(v))[id] == Some(v),
        slots.update(id, Some(v)).update(id, None::<Seq<i64>>)[id] is None,
{
}

} // verus!
