//! Entity component storage and world resources: round trips, the
//! no-overwrite discipline of `add`, and resource singleton semantics.

use peano::component::{make_component, make_resource, read_component, read_resource};
use peano::entity::{ComponentValue, Entity};
use peano::motion::{Gravity, Position};
use peano::world::{ResourceValue, WorldData};

#[test]
fn add_get_remove_round_trip() {
    let mut e = Entity::new(7, 3);
    assert_eq!(e.component_count(), 3);
    let added = e.add_component(ComponentValue { type_id: 1, data: vec![42, 5] });
    assert!(added.is_some());
    let got = e.get_component(1).expect("component should be present");
    assert_eq!(got.type_id, 1);
    assert_eq!(got.data, vec![42, 5]);
    let removed = e.remove_component(1).expect("component should be removed");
    assert_eq!(removed.data, vec![42, 5]);
    assert!(!e.has_component(1));
    assert!(e.get_component(1).is_none());
}

#[test]
fn add_never_overwrites() {
    let mut e = Entity::new(0, 2);
    assert!(e.add_component(ComponentValue { type_id: 0, data: vec![1] }).is_some());
    // A second add for the same type fails and leaves the original intact.
    assert!(e.add_component(ComponentValue { type_id: 0, data: vec![2] }).is_none());
    assert_eq!(e.get_component(0).unwrap().data, vec![1]);
}

#[test]
fn set_component_replaces_unconditionally() {
    let mut e = Entity::new(0, 2);
    e.set_component(Some(ComponentValue { type_id: 1, data: vec![3] }), 1);
    e.set_component(Some(ComponentValue { type_id: 1, data: vec![4] }), 1);
    assert_eq!(e.get_component(1).unwrap().data, vec![4]);
    e.set_component(None, 1);
    assert!(!e.has_component(1));
}

#[test]
fn get_component_mut_edits_payload_in_place() {
    let mut e = Entity::new(0, 1);
    assert!(e.add_component(ComponentValue { type_id: 0, data: vec![10, 20] }).is_some());
    {
        let data = e.get_component_mut(0).expect("present");
        data[0] = 11;
    }
    assert_eq!(e.get_component(0).unwrap().data, vec![11, 20]);
    let mut empty = Entity::new(1, 1);
    assert!(empty.get_component_mut(0).is_none());
}

#[test]
fn typed_component_round_trip() {
    let p = Position { x: -3, y: 9 };
    let cv = make_component(&p, 0);
    assert_eq!(cv.type_id, 0);
    let back: Option<Position> = read_component(&cv);
    assert_eq!(back, Some(Position { x: -3, y: 9 }));
}

#[test]
fn resource_lookup_before_insert_is_absent() {
    let w = WorldData::new(2, 2);
    assert!(w.get_resource(0).is_none());
    assert!(w.get_resource(1).is_none());
}

#[test]
fn resource_insert_twice_replaces() {
    let mut w = WorldData::new(0, 1);
    let first = w.insert_resource(ResourceValue { type_id: 0, data: vec![100] });
    assert!(first.is_none());
    let second = w.insert_resource(ResourceValue { type_id: 0, data: vec![200] });
    // The previous occupant is handed back, not kept alongside.
    assert_eq!(second.expect("slot was occupied").data, vec![100]);
    assert_eq!(w.get_resource(0).unwrap().data, vec![200]);
    let removed = w.remove_resource(0).expect("occupied");
    assert_eq!(removed.data, vec![200]);
    assert!(w.get_resource(0).is_none());
}

#[test]
fn typed_resource_round_trip() {
    let g = Gravity { g: -10 };
    let rv = make_resource(&g, 0);
    let back: Option<Gravity> = read_resource(&rv);
    assert_eq!(back, Some(Gravity { g: -10 }));
}

#[test]
fn world_data_entities_and_destruction() {
    let mut w = WorldData::new(2, 0);
    w.create_entity(0);
    w.create_entity(1);
    w.create_entity(2);
    assert_eq!(w.entity_count(), 3);
    assert_eq!(w.entity_id(1), 1);
    w.destroy_entity(1);
    assert_eq!(w.entity_count(), 2);
    assert_eq!(w.entity_id(0), 0);
    assert_eq!(w.entity_id(1), 2);
}
