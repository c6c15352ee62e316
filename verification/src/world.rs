//! The world's data: the entity collection and the resource slot array. This
//! is the single shared context systems operate on during a tick.

use crate::entity::{slot_payload, ComponentValue, Entity, EntityView};
use crate::mappings::{mask_covers, TableMapping};
use crate::registry::IdTable;
use crate::scheduler::{flat_of, fps_of, lemma_flat_push, schedule, valid_schedule, waves_of};
use crate::system::{same_shape, Footprint, System};
use vstd::prelude::*;

verus! {

/// A type-erased resource payload: the registry id of its type together with
/// the resource's fields, flattened to plain integers.
pub struct ResourceValue {
    pub type_id: usize,
    pub data: Vec<i64>,
}

/// The mathematical content of one resource slot: the payload, if occupied.
pub open spec fn res_payload(r: Option<ResourceValue>) -> Option<Seq<i64>> {
    match r {
        Some(rv) => Some(rv.data@),
        None => None,
    }
}

/// Model of the world's data: every entity's component slots, and one slot
/// per registered resource type.
#[verifier::ext_equal]
pub ghost struct WorldView {
    pub entities: Seq<EntityView>,
    pub resources: Seq<Option<Seq<i64>>>,
}

/// The model of a freshly created entity: all slots empty.
pub open spec fn empty_entity_view(id: u32, width: int) -> EntityView {
    EntityView { id, slots: Seq::new(width as nat, |i: int| None) }
}

/// The entity collection and the resource slots, with every entity's slot
/// array sized to the registered component count and every resource slot
/// indexed by its type's id.
pub struct WorldData {
    entities: Vec<Entity>,
    resources: Vec<Option<ResourceValue>>,
    width: usize,
}

impl View for WorldData {
    type V = WorldView;

    closed spec fn view(&self) -> WorldView {
        WorldView {
            entities: self.entities@.map_values(|e: Entity| e@),
            resources: self.resources@.map_values(|r: Option<ResourceValue>| res_payload(r)),
        }
    }
}

impl WorldData {
    /// The number of registered component types: every entity's slot count.
    pub closed spec fn spec_width(&self) -> int {
        self.width as int
    }

    /// Entities are well-formed and sized to the component count; every
    /// occupied resource slot holds a payload tagged with its own id.
    pub closed spec fn wf(&self) -> bool {
        &&& forall|i: int|
            0 <= i < self.entities@.len() ==> (#[trigger] self.entities@[i]).wf()
                && self.entities@[i]@.slots.len() == self.width
        &&& forall|j: int|
            0 <= j < self.resources@.len() ==> ((#[trigger] self.resources@[j]) matches Some(rv)
                ==> rv.type_id == j)
    }

    /// What well-formedness says of the model: a uniform slot width.
    pub proof fn lemma_wf_shape(&self)
        requires
            self.wf(),
        ensures
            forall|i: int|
                0 <= i < self@.entities.len() ==> (#[trigger] self@.entities[i]).slots.len()
                    == self.spec_width(),
    {
    }

    /// An empty world sized from a finalized registry: no entities, and one
    /// empty slot per registered resource type.
    pub fn new(width: usize, resource_count: usize) -> (w: WorldData)
        ensures
            w.wf(),
            w.spec_width() == width,
            w@.entities.len() == 0,
            w@.resources.len() == resource_count,
            forall|j: int| 0 <= j < resource_count ==> w@.resources[j] is None,
    {
        let mut resources: Vec<Option<ResourceValue>> = Vec::new();
        let mut i: usize = 0;
        while i < resource_count
            invariant
                i <= resource_count,
                resources@.len() == i,
                forall|j: int| 0 <= j < i ==> resources@[j] is None,
            decreases resource_count - i,
        {
            resources.push(None);
            i = i + 1;
        }
        let w = WorldData { entities: Vec::new(), resources, width };
        proof {
            assert forall|j: int| 0 <= j < resource_count implies w@.resources[j] is None by {
                assert(w@.resources[j] == res_payload(w.resources@[j]));
            }
        }
        w
    }

    pub fn width(&self) -> (n: usize)
        ensures
            n == self.spec_width(),
    {
        self.width
    }

    pub fn entity_count(&self) -> (n: usize)
        ensures
            n == self@.entities.len(),
    {
        self.entities.len()
    }

    /// The identifier of the entity at index `e`.
    pub fn entity_id(&self, e: usize) -> (id: u32)
        requires
            e < self@.entities.len(),
        ensures
            id == self@.entities[e as int].id,
    {
        self.entities[e].entity_id()
    }

    pub fn resource_count(&self) -> (n: usize)
        ensures
            n == self@.resources.len(),
    {
        self.resources.len()
    }

    /// Appends a fresh entity with the given identifier and all slots empty.
    pub fn create_entity(&mut self, id: u32)
        requires
            old(self).wf(),
        ensures
            final(self).wf(),
            final(self).spec_width() == old(self).spec_width(),
            final(self)@.entities == old(self)@.entities.push(
                empty_entity_view(id, old(self).spec_width()),
            ),
            final(self)@.resources == old(self)@.resources,
    {
        let e = Entity::new(id, self.width);
        self.entities.push(e);
        proof {
            assert(e@ =~= empty_entity_view(id, self.spec_width()));
            assert(self@.entities =~= old(self)@.entities.push(
                empty_entity_view(id, self.spec_width()),
            ));
        }
    }

    /// Drops the entity at the given index; later entities shift down.
    pub fn destroy_entity(&mut self, e: usize)
        requires
            old(self).wf(),
            e < old(self)@.entities.len(),
        ensures
            final(self).wf(),
            final(self).spec_width() == old(self).spec_width(),
            final(self)@.entities == old(self)@.entities.remove(e as int),
            final(self)@.resources == old(self)@.resources,
    {
        let _ = self.entities.remove(e);
        proof {
            old(self)@.entities.remove_ensures(e as int);
            assert(self@.entities =~= old(self)@.entities.remove(e as int));
        }
    }

    /// Adds a component to the entity at index `e`; fails, changing nothing,
    /// if the slot for its type is already occupied.
    pub fn add_component(&mut self, e: usize, component: ComponentValue) -> (r: Option<()>)
        requires
            old(self).wf(),
            e < old(self)@.entities.len(),
            component.type_id < old(self).spec_width(),
        ensures
            final(self).wf(),
            final(self).spec_width() == old(self).spec_width(),
            final(self)@.resources == old(self)@.resources,
            old(self)@.entities[e as int].slots[component.type_id as int] is None ==> r == Some(())
                && final(self)@.entities == old(self)@.entities.update(
                e as int,
                EntityView {
                    id: old(self)@.entities[e as int].id,
                    slots: old(self)@.entities[e as int].slots.update(
                        component.type_id as int,
                        Some(component.data@),
                    ),
                },
            ),
            old(self)@.entities[e as int].slots[component.type_id as int] is Some ==> r is None
                && final(self)@ == old(self)@,
    {
        let ghost prior = self@.entities;
        let ghost was_empty = self@.entities[e as int].slots[component.type_id as int] is None;
        let ghost cv_view = Some(component.data@);
        let ghost cid = component.type_id as int;
        let ent = crate::util::elem_mut(&mut self.entities, e);
        let r = ent.add_component(component);
        proof {
            if was_empty {
                assert(self@.entities =~= prior.update(
                    e as int,
                    EntityView { id: prior[e as int].id, slots: prior[e as int].slots.update(cid, cv_view) },
                ));
            } else {
                assert(self@.entities =~= prior);
                assert(self@ =~= old(self)@);
            }
        }
        r
    }

    /// Reads a component of the entity at index `e`.
    pub fn get_component(&self, e: usize, id: usize) -> (r: Option<&ComponentValue>)
        requires
            self.wf(),
            e < self@.entities.len(),
            id < self.spec_width(),
        ensures
            (r matches Some(c) ==> self@.entities[e as int].slots[id as int] == Some(c.data@)
                && c.type_id == id),
            (r is None ==> self@.entities[e as int].slots[id as int] is None),
    {
        self.entities[e].get_component(id)
    }

    /// Unconditionally replaces a component slot of the entity at index `e`.
    pub fn set_component(&mut self, e: usize, component: Option<ComponentValue>, id: usize)
        requires
            old(self).wf(),
            e < old(self)@.entities.len(),
            id < old(self).spec_width(),
            (component matches Some(cv) ==> cv.type_id == id),
        ensures
            final(self).wf(),
            final(self).spec_width() == old(self).spec_width(),
            final(self)@.resources == old(self)@.resources,
            final(self)@.entities == old(self)@.entities.update(
                e as int,
                EntityView {
                    id: old(self)@.entities[e as int].id,
                    slots: old(self)@.entities[e as int].slots.update(
                        id as int,
                        slot_payload(component),
                    ),
                },
            ),
    {
        let ghost prior = self@.entities;
        let ghost pv = slot_payload(component);
        let ent = crate::util::elem_mut(&mut self.entities, e);
        ent.set_component(component, id);
        proof {
            assert(self@.entities =~= prior.update(
                e as int,
                EntityView { id: prior[e as int].id, slots: prior[e as int].slots.update(id as int, pv) },
            ));
        }
    }

    /// Removes a component of the entity at index `e`, yielding the prior
    /// occupant.
    pub fn remove_component(&mut self, e: usize, id: usize) -> (r: Option<ComponentValue>)
        requires
            old(self).wf(),
            e < old(self)@.entities.len(),
            id < old(self).spec_width(),
        ensures
            final(self).wf(),
            final(self).spec_width() == old(self).spec_width(),
            final(self)@.resources == old(self)@.resources,
            slot_payload(r) == old(self)@.entities[e as int].slots[id as int],
            (r matches Some(cv) ==> cv.type_id == id),
            final(self)@.entities == old(self)@.entities.update(
                e as int,
                EntityView {
                    id: old(self)@.entities[e as int].id,
                    slots: old(self)@.entities[e as int].slots.update(id as int, None::<Seq<i64>>),
                },
            ),
    {
        let ghost prior = self@.entities;
        let ent = crate::util::elem_mut(&mut self.entities, e);
        let r = ent.remove_component(id);
        proof {
            assert(self@.entities =~= prior.update(
                e as int,
                EntityView {
                    id: prior[e as int].id,
                    slots: prior[e as int].slots.update(id as int, None::<Seq<i64>>),
                },
            ));
        }
        r
    }

    /// Whether the entity at index `e` holds a component with the given id.
    pub fn has_component(&self, e: usize, id: usize) -> (r: bool)
        requires
            self.wf(),
            e < self@.entities.len(),
            id < self.spec_width(),
        ensures
            r == (self@.entities[e as int].slots[id as int] is Some),
    {
        self.entities[e].has_component(id)
    }

    /// Installs a resource: at most one instance per resource type, so an
    /// occupant of the slot is replaced, never duplicated, and handed back.
    pub fn insert_resource(&mut self, resource: ResourceValue) -> (prev: Option<ResourceValue>)
        requires
            old(self).wf(),
            resource.type_id < old(self)@.resources.len(),
        ensures
            final(self).wf(),
            final(self).spec_width() == old(self).spec_width(),
            final(self)@.entities == old(self)@.entities,
            res_payload(prev) == old(self)@.resources[resource.type_id as int],
            final(self)@.resources == old(self)@.resources.update(
                resource.type_id as int,
                Some(resource.data@),
            ),
    {
        let ghost prior = self@.resources;
        let ghost rid = resource.type_id as int;
        let ghost rv_view = Some(resource.data@);
        let slot = crate::util::elem_mut(&mut self.resources, resource.type_id);
        let prev = slot.take();
        *slot = Some(resource);
        proof {
            assert(self@.resources =~= prior.update(rid, rv_view));
        }
        prev
    }

    /// Looks up the resource with the given id; absent before any insertion.
    pub fn get_resource(&self, id: usize) -> (r: Option<&ResourceValue>)
        requires
            self.wf(),
            id < self@.resources.len(),
        ensures
            (r matches Some(rv) ==> self@.resources[id as int] == Some(rv.data@) && rv.type_id
                == id),
            (r is None ==> self@.resources[id as int] is None),
    {
        Option::as_ref(&self.resources[id])
    }

    /// Empties the resource slot with the given id, yielding the occupant.
    pub fn remove_resource(&mut self, id: usize) -> (r: Option<ResourceValue>)
        requires
            old(self).wf(),
            id < old(self)@.resources.len(),
        ensures
            final(self).wf(),
            final(self).spec_width() == old(self).spec_width(),
            final(self)@.entities == old(self)@.entities,
            res_payload(r) == old(self)@.resources[id as int],
            (r matches Some(rv) ==> rv.type_id == id),
            final(self)@.resources == old(self)@.resources.update(id as int, None::<Seq<i64>>),
    {
        let ghost prior = self@.resources;
        let slot = crate::util::elem_mut(&mut self.resources, id);
        let r = slot.take();
        proof {
            assert(self@.resources =~= prior.update(id as int, None::<Seq<i64>>));
        }
        r
    }
}

/// The resource singleton law, stated over the slot model the contracts
/// above use: inserting for the same type twice leaves exactly the second
/// payload — replacement, never duplication — and a slot of the freshly
/// built world is empty until something is inserted into it.
pub proof fn lemma_resource_singleton(resources: Seq<Option<Seq<i64>>>, id: int, v1: Seq<i64>, v2: Seq<i64>)
    requires
        0 <= id < resources.len(),
    ensures
        resources.update(id, Some(v1)).update(id, Some(v2))[id] == Some(v2),
        resources.update(id, Some(v1)).update(id, Some(v2)).len() == resources.len(),
        Seq::new(resources.len(), |j: int| None::<Seq<i64>>)[id] is None,
{
}

/// The world after running the named systems in the given order, each one
/// stepping the whole world it is handed: no system ever observes a partial
/// write of another.
pub open spec fn run_steps<S: System>(systems: Seq<S>, order: Seq<usize>, w: WorldView) -> WorldView
    decreases order.len(),
{
    if order.len() == 0 {
        w
    } else {
        run_steps(systems, order.drop_first(), systems[order[0] as int].step(w))
    }
}

/// Appending one more system to the order steps the world once more.
pub proof fn lemma_run_steps_push<S: System>(
    systems: Seq<S>,
    order: Seq<usize>,
    i: usize,
    w: WorldView,
)
    ensures
        run_steps(systems, order.push(i), w) == systems[i as int].step(
            run_steps(systems, order, w),
        ),
    decreases order.len(),
{
    if order.len() == 0 {
        let tail = order.push(i).drop_first();
        assert(tail =~= Seq::<usize>::empty());
        assert(order.push(i)[0] == i);
        let stepped = systems[i as int].step(w);
        assert(run_steps(systems, Seq::<usize>::empty(), stepped) == stepped);
        assert(run_steps(systems, order.push(i), w) == run_steps(systems, tail, stepped));
    } else {
        assert(order.push(i).drop_first() =~= order.drop_first().push(i));
        assert(order.push(i)[0] == order[0]);
        lemma_run_steps_push(systems, order.drop_first(), i, systems[order[0] as int].step(w));
    }
}

/// The flattened schedule splits at any wave boundary.
proof fn lemma_flat_split(wv: Seq<Seq<usize>>, wi: int)
    requires
        0 <= wi <= wv.len(),
    ensures
        flat_of(wv) == flat_of(wv.take(wi)) + flat_of(wv.skip(wi)),
    decreases wi,
{
    if wi == 0 {
        assert(wv.take(0) =~= Seq::<Seq<usize>>::empty());
        assert(wv.skip(0) =~= wv);
        assert(flat_of(wv) =~= flat_of(wv.take(0)) + flat_of(wv.skip(0)));
    } else {
        let df = wv.drop_first();
        assert(wv.take(wi).drop_first() =~= df.take(wi - 1));
        assert(wv.skip(wi) =~= df.skip(wi - 1));
        assert(wv.take(wi)[0] == wv[0]);
        assert(wv.take(wi).len() == wi);
        lemma_flat_split(df, wi - 1);
        assert(flat_of(wv) == wv[0] + flat_of(df));
        assert(flat_of(wv.take(wi)) == wv[0] + flat_of(df.take(wi - 1)));
        assert(wv[0] + (flat_of(df.take(wi - 1)) + flat_of(df.skip(wi - 1))) =~= (wv[0] + flat_of(
            df.take(wi - 1),
        )) + flat_of(df.skip(wi - 1)));
    }
}

/// A table row mirrors each entity: same identifier, and one mask bit per
/// component slot saying whether the slot is occupied.
pub open spec fn table_synced(rows: Seq<(u32, Seq<bool>)>, entities: Seq<EntityView>) -> bool {
    &&& rows.len() == entities.len()
    &&& forall|i: int|
        0 <= i < rows.len() ==> (#[trigger] rows[i]).0 == entities[i].id && rows[i].1.len()
            == entities[i].slots.len() && (forall|c: int|
            0 <= c < rows[i].1.len() ==> (#[trigger] rows[i].1[c]) == (entities[i].slots[c]
                is Some))
}

/// Whether an entity holds every component type the mask asks for.
pub open spec fn entity_covers(ev: EntityView, q: Seq<bool>) -> bool {
    forall|c: int| 0 <= c < q.len() ==> (q[c] ==> ev.slots[c] is Some)
}

/// The membership mask of the entity at index `e`.
fn entity_mask(data: &WorldData, e: usize) -> (m: Vec<bool>)
    requires
        data.wf(),
        e < data@.entities.len(),
    ensures
        m@.len() == data.spec_width(),
        forall|c: int| 0 <= c < m@.len() ==> m@[c] == (data@.entities[e as int].slots[c] is Some),
{
    proof {
        data.lemma_wf_shape();
    }
    let width = data.width();
    let mut m: Vec<bool> = Vec::new();
    let mut c: usize = 0;
    while c < width
        invariant
            c <= width,
            width == data.spec_width(),
            data.wf(),
            e < data@.entities.len(),
            data@.entities[e as int].slots.len() == width,
            m@.len() == c,
            forall|k: int| 0 <= k < c ==> m@[k] == (data@.entities[e as int].slots[k] is Some),
        decreases width - c,
    {
        m.push(data.has_component(e, c));
        c = c + 1;
    }
    m
}

/// The world: the shared data, the registered systems, and the table mapping,
/// kept in step with the entities. Entity identifiers are handed out from a
/// counter and never reused.
pub struct World<S: System> {
    data: WorldData,
    table: TableMapping,
    systems: Vec<S>,
    next_entity: u32,
}

impl<S: System> World<S> {
    /// The world's data model.
    pub closed spec fn state(&self) -> WorldView {
        self.data@
    }

    /// The registered systems, in registration order.
    pub closed spec fn systems_view(&self) -> Seq<S> {
        self.systems@
    }

    /// The table mapping's rows.
    pub closed spec fn table_view(&self) -> Seq<(u32, Seq<bool>)> {
        self.table.rows_view()
    }

    /// The number of registered component types.
    pub closed spec fn spec_width(&self) -> int {
        self.data.spec_width()
    }

    /// The next entity identifier to be handed out.
    pub closed spec fn next_id(&self) -> u32 {
        self.next_entity
    }

    /// The data is well-formed; entity identifiers are unique and below the
    /// counter; the table mapping mirrors the entities.
    pub closed spec fn wf(&self) -> bool {
        &&& self.data.wf()
        &&& self.table.wf()
        &&& self.table.spec_width() == self.data.spec_width()
        &&& table_synced(self.table.rows_view(), self.data@.entities)
        &&& forall|i: int, j: int| #![trigger self.data@.entities[i].id, self.data@.entities[j].id]
            0 <= i < j < self.data@.entities.len() ==> self.data@.entities[i].id
                != self.data@.entities[j].id
        &&& forall|i: int|
            0 <= i < self.data@.entities.len() ==> (#[trigger] self.data@.entities[i].id)
                < self.next_entity
    }

    /// An empty world sized from a finalized registry: no entities, no
    /// systems, every resource slot empty.
    pub fn new(ids: &IdTable) -> (w: World<S>)
        ensures
            w.wf(),
            w.spec_width() == ids.comp_entries().len(),
            w.state().entities.len() == 0,
            w.state().resources.len() == ids.res_entries().len(),
            forall|j: int| 0 <= j < w.state().resources.len() ==> w.state().resources[j] is None,
            w.systems_view().len() == 0,
    {
        let width = ids.component_count();
        let data = WorldData::new(width, ids.resource_count());
        let table = TableMapping::new(width);
        World { data, table, systems: Vec::new(), next_entity: 0 }
    }

    /// Creates a fresh entity with all slots empty and hands back its
    /// identifier.
    pub fn create_entity(&mut self) -> (id: u32)
        requires
            old(self).wf(),
            old(self).next_id() < u32::MAX,
        ensures
            final(self).wf(),
            final(self).spec_width() == old(self).spec_width(),
            id == old(self).next_id(),
            final(self).state().entities == old(self).state().entities.push(
                empty_entity_view(id, old(self).spec_width()),
            ),
            final(self).state().resources == old(self).state().resources,
            final(self).systems_view() == old(self).systems_view(),
    {
        let id = self.next_entity;
        self.next_entity = id + 1;
        self.data.create_entity(id);
        let width = self.data.width();
        let mut mask: Vec<bool> = Vec::new();
        let mut c: usize = 0;
        while c < width
            invariant
                c <= width,
                mask@.len() == c,
                forall|k: int| 0 <= k < c ==> !mask@[k],
            decreases width - c,
        {
            mask.push(false);
            c = c + 1;
        }
        self.table.push_row(id, mask);
        proof {
            let ents = self.data@.entities;
            let rows = self.table.rows_view();
            assert forall|i: int|
                0 <= i < rows.len() implies (#[trigger] rows[i]).0 == ents[i].id && rows[i].1.len()
                == ents[i].slots.len() && (forall|c: int|
                0 <= c < rows[i].1.len() ==> (#[trigger] rows[i].1[c]) == (ents[i].slots[c]
                    is Some)) by {
                if i < rows.len() - 1 {
                    assert(rows[i] == old(self).table_view()[i]);
                    assert(ents[i] == old(self).state().entities[i]);
                } else {
                    assert(rows[i] == (id, mask@));
                    assert(ents[i] == empty_entity_view(id, old(self).spec_width()));
                }
            }
        }
        id
    }

    pub fn entity_count(&self) -> (n: usize)
        ensures
            n == self.state().entities.len(),
    {
        self.data.entity_count()
    }

    /// Destroys the entity at the given index, dropping its components and
    /// its table row; later entities shift down. The identifier is never
    /// reused.
    pub fn destroy_entity(&mut self, e: usize)
        requires
            old(self).wf(),
            e < old(self).state().entities.len(),
        ensures
            final(self).wf(),
            final(self).spec_width() == old(self).spec_width(),
            final(self).state().entities == old(self).state().entities.remove(e as int),
            final(self).state().resources == old(self).state().resources,
            final(self).systems_view() == old(self).systems_view(),
    {
        self.data.destroy_entity(e);
        self.table.remove_row(e);
        proof {
            let rows = self.table.rows_view();
            let ents = self.data@.entities;
            let old_rows = old(self).table.rows_view();
            let old_ents = old(self).state().entities;
            old_rows.remove_ensures(e as int);
            old_ents.remove_ensures(e as int);
            assert forall|i: int|
                0 <= i < rows.len() implies (#[trigger] rows[i]).0 == ents[i].id
                && rows[i].1.len() == ents[i].slots.len() && (forall|c: int|
                0 <= c < rows[i].1.len() ==> (#[trigger] rows[i].1[c]) == (ents[i].slots[c]
                    is Some)) by {
                if i < e {
                    assert(rows[i] == old_rows[i]);
                    assert(ents[i] == old_ents[i]);
                } else {
                    assert(rows[i] == old_rows[i + 1]);
                    assert(ents[i] == old_ents[i + 1]);
                }
            }
            assert forall|i: int, j: int| #![trigger ents[i].id, ents[j].id]
                0 <= i < j < ents.len() implies ents[i].id != ents[j].id by {
                let oi = if i < e { i } else { i + 1 };
                let oj = if j < e { j } else { j + 1 };
                assert(ents[i] == old_ents[oi]);
                assert(ents[j] == old_ents[oj]);
            }
            assert forall|i: int|
                0 <= i < ents.len() implies (#[trigger] ents[i].id) < self.next_entity by {
                let oi = if i < e { i } else { i + 1 };
                assert(ents[i] == old_ents[oi]);
            }
        }
    }

    pub fn width(&self) -> (n: usize)
        ensures
            n == self.spec_width(),
    {
        self.data.width()
    }

    pub fn resource_count(&self) -> (n: usize)
        ensures
            n == self.state().resources.len(),
    {
        self.data.resource_count()
    }

    /// Adds a component to the entity at index `e`, keeping the table mapping
    /// in step; fails, changing nothing, if the slot is already occupied.
    pub fn add_component(&mut self, e: usize, component: ComponentValue) -> (r: Option<()>)
        requires
            old(self).wf(),
            e < old(self).state().entities.len(),
            component.type_id < old(self).spec_width(),
        ensures
            final(self).wf(),
            final(self).spec_width() == old(self).spec_width(),
            final(self).state().resources == old(self).state().resources,
            final(self).systems_view() == old(self).systems_view(),
            old(self).state().entities[e as int].slots[component.type_id as int] is None ==> r
                == Some(()) && final(self).state().entities == old(self).state().entities.update(
                e as int,
                EntityView {
                    id: old(self).state().entities[e as int].id,
                    slots: old(self).state().entities[e as int].slots.update(
                        component.type_id as int,
                        Some(component.data@),
                    ),
                },
            ),
            old(self).state().entities[e as int].slots[component.type_id as int] is Some ==> r
                is None && final(self).state() == old(self).state(),
    {
        let r = self.data.add_component(e, component);
        if r.is_some() {
            self.resync_row(e);
        }
        r
    }

    /// Removes a component of the entity at index `e`, keeping the table
    /// mapping in step, and yields the prior occupant.
    pub fn remove_component(&mut self, e: usize, id: usize) -> (r: Option<ComponentValue>)
        requires
            old(self).wf(),
            e < old(self).state().entities.len(),
            id < old(self).spec_width(),
        ensures
            final(self).wf(),
            final(self).spec_width() == old(self).spec_width(),
            final(self).state().resources == old(self).state().resources,
            final(self).systems_view() == old(self).systems_view(),
            slot_payload(r) == old(self).state().entities[e as int].slots[id as int],
            (r matches Some(cv) ==> cv.type_id == id),
            final(self).state().entities == old(self).state().entities.update(
                e as int,
                EntityView {
                    id: old(self).state().entities[e as int].id,
                    slots: old(self).state().entities[e as int].slots.update(
                        id as int,
                        None::<Seq<i64>>,
                    ),
                },
            ),
    {
        let r = self.data.remove_component(e, id);
        self.resync_row(e);
        r
    }

    /// Rebuilds the table row of the entity at index `e` from its slots.
    fn resync_row(&mut self, e: usize)
        requires
            old(self).data.wf(),
            old(self).table.wf(),
            old(self).table.spec_width() == old(self).data.spec_width(),
            e < old(self).data@.entities.len(),
            old(self).table.rows_view().len() == old(self).data@.entities.len(),
            forall|i: int|
                0 <= i < old(self).table.rows_view().len() && i != e ==> (#[trigger] old(
                    self,
                ).table.rows_view()[i]) == old(self).table_view()[i],
        ensures
            final(self).data == old(self).data,
            final(self).systems == old(self).systems,
            final(self).next_entity == old(self).next_entity,
            final(self).table.wf(),
            final(self).table.spec_width() == old(self).table.spec_width(),
            final(self).table.rows_view() == old(self).table.rows_view().update(
                e as int,
                (
                    old(self).data@.entities[e as int].id,
                    Seq::new(
                        old(self).data.spec_width() as nat,
                        |c: int| old(self).data@.entities[e as int].slots[c] is Some,
                    ),
                ),
            ),
    {
        proof {
            self.data.lemma_wf_shape();
        }
        let id = self.data.entity_id(e);
        let mask = entity_mask(&self.data, e);
        self.table.set_row(e, id, mask);
        proof {
            assert(mask@ =~= Seq::new(
                old(self).data.spec_width() as nat,
                |c: int| old(self).data@.entities[e as int].slots[c] is Some,
            ));
        }
    }

    /// Whether the entity at index `e` holds a component with the given id.
    pub fn has_component(&self, e: usize, id: usize) -> (r: bool)
        requires
            self.wf(),
            e < self.state().entities.len(),
            id < self.spec_width(),
        ensures
            r == (self.state().entities[e as int].slots[id as int] is Some),
    {
        self.data.has_component(e, id)
    }

    /// Reads a component of the entity at index `e`.
    pub fn get_component(&self, e: usize, id: usize) -> (r: Option<&ComponentValue>)
        requires
            self.wf(),
            e < self.state().entities.len(),
            id < self.spec_width(),
        ensures
            (r matches Some(c) ==> self.state().entities[e as int].slots[id as int] == Some(
                c.data@,
            ) && c.type_id == id),
            (r is None ==> self.state().entities[e as int].slots[id as int] is None),
    {
        self.data.get_component(e, id)
    }

    /// Installs a resource, replacing — never duplicating — an occupant of
    /// its type's slot, which is handed back.
    pub fn insert_resource(&mut self, resource: ResourceValue) -> (prev: Option<ResourceValue>)
        requires
            old(self).wf(),
            resource.type_id < old(self).state().resources.len(),
        ensures
            final(self).wf(),
            final(self).spec_width() == old(self).spec_width(),
            final(self).state().entities == old(self).state().entities,
            final(self).systems_view() == old(self).systems_view(),
            res_payload(prev) == old(self).state().resources[resource.type_id as int],
            final(self).state().resources == old(self).state().resources.update(
                resource.type_id as int,
                Some(resource.data@),
            ),
    {
        self.data.insert_resource(resource)
    }

    /// Looks up the resource with the given id; absent before any insertion.
    pub fn get_resource(&self, id: usize) -> (r: Option<&ResourceValue>)
        requires
            self.wf(),
            id < self.state().resources.len(),
        ensures
            (r matches Some(rv) ==> self.state().resources[id as int] == Some(rv.data@)
                && rv.type_id == id),
            (r is None ==> self.state().resources[id as int] is None),
    {
        self.data.get_resource(id)
    }

    /// Empties the resource slot with the given id, yielding the occupant.
    pub fn remove_resource(&mut self, id: usize) -> (r: Option<ResourceValue>)
        requires
            old(self).wf(),
            id < old(self).state().resources.len(),
        ensures
            final(self).wf(),
            final(self).spec_width() == old(self).spec_width(),
            final(self).state().entities == old(self).state().entities,
            final(self).systems_view() == old(self).systems_view(),
            res_payload(r) == old(self).state().resources[id as int],
            final(self).state().resources == old(self).state().resources.update(
                id as int,
                None::<Seq<i64>>,
            ),
    {
        self.data.remove_resource(id)
    }

    /// Registers a system; it will run once per tick.
    pub fn add_system(&mut self, system: S)
        requires
            old(self).wf(),
        ensures
            final(self).wf(),
            final(self).spec_width() == old(self).spec_width(),
            final(self).state() == old(self).state(),
            final(self).systems_view() == old(self).systems_view().push(system),
    {
        self.systems.push(system);
    }

    pub fn system_count(&self) -> (n: usize)
        ensures
            n == self.systems_view().len(),
    {
        self.systems.len()
    }

    /// All entities currently holding every component type the mask marks:
    /// the table mapping answers, and because it is kept in step with the
    /// entities, the answer has no stale membership in either direction.
    pub fn query_entities(&self, q: &Vec<bool>) -> (r: Vec<u32>)
        requires
            self.wf(),
            q@.len() == self.spec_width(),
        ensures
            forall|e: u32|
                r@.contains(e) <==> exists|i: int|
                    0 <= i < self.state().entities.len() && (#[trigger] self.state().entities[i]).id
                        == e && entity_covers(self.state().entities[i], q@),
            r@.no_duplicates(),
    {
        let r = self.table.query(q);
        proof {
            let rows = self.table.rows_view();
            let ents = self.state().entities;
            assert(crate::mappings::distinct_row_entities(rows)) by {
                assert forall|i: int, j: int| #![trigger rows[i], rows[j]]
                    0 <= i < j < rows.len() implies rows[i].0 != rows[j].0 by {
                    assert(rows[i].0 == ents[i].id);
                    assert(rows[j].0 == ents[j].id);
                }
            }
            assert forall|i: int|
                0 <= i < rows.len() implies (mask_covers(#[trigger] rows[i].1, q@)
                == entity_covers(ents[i], q@)) by {
                if mask_covers(rows[i].1, q@) {
                    assert forall|c: int| 0 <= c < q@.len() && q@[c] implies ents[i].slots[c]
                        is Some by {
                        assert(rows[i].1[c]);
                    }
                }
                if entity_covers(ents[i], q@) {
                    assert forall|c: int| 0 <= c < q@.len() && q@[c] implies rows[i].1[c] by {
                        assert(ents[i].slots[c] is Some);
                    }
                }
            }
            assert forall|e: u32|
                r@.contains(e) <==> exists|i: int|
                    0 <= i < ents.len() && (#[trigger] ents[i]).id == e && entity_covers(
                        ents[i],
                        q@,
                    ) by {
                if r@.contains(e) {
                    let i = choose|i: int|
                        0 <= i < rows.len() && (#[trigger] rows[i]).0 == e && mask_covers(
                            rows[i].1,
                            q@,
                        );
                    assert(ents[i].id == e && entity_covers(ents[i], q@));
                }
                if exists|i: int|
                    0 <= i < ents.len() && (#[trigger] ents[i]).id == e && entity_covers(
                        ents[i],
                        q@,
                    ) {
                    let i = choose|i: int|
                        0 <= i < ents.len() && (#[trigger] ents[i]).id == e && entity_covers(
                            ents[i],
                            q@,
                        );
                    assert(rows[i].0 == e && mask_covers(rows[i].1, q@));
                }
            }
        }
        r
    }

    /// One tick: partitions the systems into conflict-free waves and runs
    /// every system exactly once, wave by wave. Each system steps the whole
    /// world atomically, so the final state is the fold of the systems'
    /// steps in the returned order; conflicting systems never share a wave.
    /// The table mapping is rebuilt afterwards.
    pub fn run_tick(&mut self) -> (order: Vec<usize>)
        requires
            old(self).wf(),
        ensures
            final(self).wf(),
            final(self).spec_width() == old(self).spec_width(),
            final(self).systems_view().len() == old(self).systems_view().len(),
            order@.no_duplicates(),
            order@.len() == old(self).systems_view().len(),
            forall|k: int| 0 <= k < order@.len() ==> (#[trigger] order@[k]) < order@.len(),
            forall|s: int|
                0 <= s < old(self).systems_view().len() ==> #[trigger] order@.contains(s as usize),
            final(self).state() == run_steps(old(self).systems_view(), order@, old(self).state()),
    {
        let n = self.systems.len();
        let mut fps: Vec<Footprint> = Vec::new();
        let mut i: usize = 0;
        while i < n
            invariant
                i <= n,
                n == self.systems@.len(),
                fps@.len() == i,
            decreases n - i,
        {
            let s = &self.systems[i];
            fps.push(s.footprint());
            i = i + 1;
        }
        let waves = schedule(&fps);
        let ghost wv = waves_of(waves@);
        let ghost flat = flat_of(wv);
        let ghost sys0 = self.systems@;
        let ghost w0 = self.data@;
        let ghost table0 = self.table;
        let ghost ne0 = self.next_entity;
        proof {
            assert(wv.take(0) =~= Seq::<Seq<usize>>::empty());
            assert(flat.len() == n) by {
                flat.unique_seq_to_set();
                lemma_flat_len(flat, n as int);
            }
        }
        let mut order: Vec<usize> = Vec::new();
        let wave_count = waves.len();
        let mut wi: usize = 0;
        while wi < wave_count
            invariant
                wi <= wave_count,
                wave_count == wv.len(),
                wv == waves_of(waves@),
                flat == flat_of(wv),
                valid_schedule(wv, fps_of(fps@)),
                fps@.len() == n,
                flat.len() == n,
                order@ == flat_of(wv.take(wi as int)),
                self.systems@.len() == n,
                n == sys0.len(),
                self.data.wf(),
                self.data.spec_width() == old(self).spec_width(),
                self.data@ == run_steps(sys0, order@, w0),
                forall|j: int|
                    0 <= j < n ==> (order@.contains(j as usize) || self.systems@[j] == sys0[j]),
                self.table == table0,
                self.next_entity == ne0,
            decreases wave_count - wi,
        {
            let ghost order_wave_start = order@;
            let wave_len = waves[wi].len();
            let mut k: usize = 0;
            while k < wave_len
                invariant
                    k <= wave_len,
                    wi < wave_count,
                    wave_count == wv.len(),
                    wv == waves_of(waves@),
                    flat == flat_of(wv),
                    valid_schedule(wv, fps_of(fps@)),
                    fps@.len() == n,
                    flat.len() == n,
                    wave_len == wv[wi as int].len(),
                    order@ == flat_of(wv.take(wi as int)) + wv[wi as int].take(k as int),
                    self.systems@.len() == n,
                    n == sys0.len(),
                    self.data.wf(),
                    self.data.spec_width() == old(self).spec_width(),
                    self.data@ == run_steps(sys0, order@, w0),
                    forall|j: int|
                        0 <= j < n ==> (order@.contains(j as usize) || self.systems@[j] == sys0[j]),
                    self.table == table0,
                    self.next_entity == ne0,
                decreases wave_len - k,
            {
                let wave_ref = &waves[wi];
                let idx = wave_ref[k];
                proof {
                    lemma_flat_split(wv, wi as int);
                    lemma_flat_push(wv.take(wi as int), wv[wi as int]);
                    assert(wv.skip(wi as int)[0] == wv[wi as int]);
                    assert(wv.skip(wi as int).drop_first() =~= wv.skip(wi as int + 1));
                    assert(flat_of(wv.skip(wi as int)) == wv[wi as int] + flat_of(
                        wv.skip(wi as int + 1),
                    ));
                    let a = flat_of(wv.take(wi as int));
                    assert(flat == a + (wv[wi as int] + flat_of(wv.skip(wi as int + 1))));
                    assert(flat[a.len() + k] == wv[wi as int][k as int]);
                    assert(idx == wv[wi as int][k as int]);
                    assert(idx < n) by {
                        assert(flat[a.len() + k] < fps_of(fps@).len());
                    }
                    assert(!order@.contains(idx)) by {
                        if order@.contains(idx) {
                            let m = choose|m: int| 0 <= m < order@.len() && order@[m] == idx;
                            assert(flat[m] == order@[m]) by {
                                if m < a.len() {
                                    assert(order@[m] == a[m]);
                                    assert(flat[m] == a[m]);
                                } else {
                                    assert(order@[m] == wv[wi as int].take(k as int)[m - a.len()]);
                                    assert(flat[m] == wv[wi as int][m - a.len()]);
                                }
                            }
                            assert(flat[m] == flat[a.len() + k]);
                            assert(m < a.len() + k);
                        }
                    }
                    assert(self.systems@[idx as int] == sys0[idx as int]);
                }
                let ghost order_prior = order@;
                let ghost w_prior = self.data@;
                let sys = crate::util::elem_mut(&mut self.systems, idx);
                sys.run(&mut self.data);
                order.push(idx);
                proof {
                    lemma_run_steps_push(sys0, order_prior, idx, w0);
                    assert(self.data@ == run_steps(sys0, order@, w0));
                    assert(order@ == flat_of(wv.take(wi as int)) + wv[wi as int].take(
                        k as int + 1,
                    )) by {
                        assert(wv[wi as int].take(k as int + 1) =~= wv[wi as int].take(
                            k as int,
                        ).push(idx));
                        assert(order@ =~= order_prior.push(idx));
                    }
                    assert forall|j: int|
                        0 <= j < n implies (order@.contains(j as usize) || self.systems@[j]
                        == sys0[j]) by {
                        if j == idx as int {
                            assert(order@[order@.len() - 1] == idx);
                            assert(order@.contains(idx));
                        } else if order_prior.contains(j as usize) {
                            let m = choose|m: int|
                                0 <= m < order_prior.len() && order_prior[m] == j as usize;
                            assert(order@[m] == j as usize);
                        }
                    }
                }
                k = k + 1;
            }
            proof {
                lemma_flat_push(wv.take(wi as int), wv[wi as int]);
                assert(wv.take(wi as int + 1) =~= wv.take(wi as int).push(wv[wi as int]));
                assert(wv[wi as int].take(wave_len as int) =~= wv[wi as int]);
                assert(order@ == flat_of(wv.take(wi as int + 1)));
            }
            wi = wi + 1;
        }
        proof {
            assert(wv.take(wave_count as int) =~= wv);
            assert(order@ == flat);
        }
        // The run left the mapping stale; rebuild it from the entities.
        proof {
            assert(same_shape(w0, self.data@)) by {
                lemma_run_steps_shape(sys0, order@, w0);
            }
            self.data.lemma_wf_shape();
        }
        let count = self.data.entity_count();
        let mut e: usize = 0;
        while e < count
            invariant
                e <= count,
                count == self.data@.entities.len(),
                self.data.wf(),
                self.data.spec_width() == old(self).spec_width(),
                self.data@ == run_steps(sys0, order@, w0),
                same_shape(w0, self.data@),
                self.systems@.len() == n,
                self.next_entity == ne0,
                self.table.wf(),
                self.table.spec_width() == self.data.spec_width(),
                self.table.rows_view().len() == count,
                forall|i: int|
                    0 <= i < e ==> (#[trigger] self.table.rows_view()[i]).0
                        == self.data@.entities[i].id && self.table.rows_view()[i].1.len()
                        == self.data@.entities[i].slots.len() && (forall|c: int|
                        0 <= c < self.table.rows_view()[i].1.len()
                            ==> (#[trigger] self.table.rows_view()[i].1[c])
                            == (self.data@.entities[i].slots[c] is Some)),
            decreases count - e,
        {
            let id = self.data.entity_id(e);
            let mask = entity_mask(&self.data, e);
            proof {
                self.data.lemma_wf_shape();
            }
            self.table.set_row(e, id, mask);
            e = e + 1;
        }
        proof {
            assert(table_synced(self.table.rows_view(), self.data@.entities));
            assert forall|i: int, j: int|
                #![trigger self.data@.entities[i].id, self.data@.entities[j].id]
                0 <= i < j < self.data@.entities.len() implies self.data@.entities[i].id
                != self.data@.entities[j].id by {
                assert(self.data@.entities[i].id == w0.entities[i].id);
                assert(self.data@.entities[j].id == w0.entities[j].id);
            }
            assert forall|i: int|
                0 <= i < self.data@.entities.len() implies (#[trigger] self.data@.entities[i].id)
                < self.next_entity by {
                assert(self.data@.entities[i].id == w0.entities[i].id);
            }
        }
        order
    }
}

/// A flattened schedule naming each of `n` systems exactly once has length
/// `n`.
proof fn lemma_flat_len(flat: Seq<usize>, n: int)
    requires
        0 <= n <= usize::MAX,
        flat.no_duplicates(),
        forall|i: int| 0 <= i < flat.len() ==> (#[trigger] flat[i]) < n,
        forall|s: int| 0 <= s < n ==> #[trigger] flat.contains(s as usize),
        flat.to_set().len() == flat.len(),
    ensures
        flat.len() == n,
{
    let ns = Set::new(|s: usize| 0 <= (s as int) && (s as int) < n);
    assert(flat.to_set().subset_of(ns));
    assert(ns.subset_of(flat.to_set())) by {
        assert forall|s: usize| ns.contains(s) implies flat.to_set().contains(s) by {
            assert(((s as int) as usize) == s);
            assert(flat.contains((s as int) as usize));
        }
    }
    assert(flat.to_set() =~= ns);
    lemma_usize_range_len(n);
}

/// The set of the first `n` ids has `n` members.
proof fn lemma_usize_range_len(n: int)
    requires
        0 <= n <= usize::MAX,
    ensures
        Set::new(|s: usize| 0 <= (s as int) && (s as int) < n).finite(),
        Set::new(|s: usize| 0 <= (s as int) && (s as int) < n).len() == n,
    decreases n,
{
    if n == 0 {
        assert(Set::new(|s: usize| 0 <= (s as int) && (s as int) < n) =~= Set::<usize>::empty());
    } else {
        lemma_usize_range_len(n - 1);
        assert(Set::new(|s: usize| 0 <= (s as int) && (s as int) < n) =~= Set::new(
            |s: usize| 0 <= (s as int) && (s as int) < n - 1,
        ).insert((n - 1) as usize));
        assert(!Set::new(|s: usize| 0 <= (s as int) && (s as int) < n - 1).contains((n - 1) as usize));
    }
}

/// Every step of a tick preserves the world's population.
proof fn lemma_run_steps_shape<S: System>(systems: Seq<S>, order: Seq<usize>, w: WorldView)
    ensures
        same_shape(w, run_steps(systems, order, w)),
    decreases order.len(),
{
    if order.len() == 0 {
    } else {
        let w1 = systems[order[0] as int].step(w);
        systems[order[0] as int].step_frame(w);
        lemma_run_steps_shape(systems, order.drop_first(), w1);
    }
}

} // verus!
