//! The type registry: name-sorted id assignment, determinism across
//! discovery orders, and duplicate rejection.

use peano::registry::{ComponentRegistration, Registry, ResourceRegistration};

fn comp(key: u64, name: &str) -> ComponentRegistration {
    ComponentRegistration { type_key: key, name: name.as_bytes().to_vec() }
}

fn res(key: u64, name: &str) -> ResourceRegistration {
    ResourceRegistration { type_key: key, name: name.as_bytes().to_vec() }
}

#[test]
fn ids_follow_name_order() {
    let mut reg = Registry::new();
    assert!(reg.register_component(comp(10, "Velocity")));
    assert!(reg.register_component(comp(20, "Position")));
    assert!(reg.register_component(comp(30, "Health")));
    let table = reg.finalize();
    assert_eq!(table.component_count(), 3);
    assert_eq!(table.get_component_id(30), 0); // Health
    assert_eq!(table.get_component_id(20), 1); // Position
    assert_eq!(table.get_component_id(10), 2); // Velocity
}

#[test]
fn determinism_across_discovery_orders() {
    let mut a = Registry::new();
    assert!(a.register_component(comp(1, "Position")));
    assert!(a.register_component(comp(2, "Velocity")));
    assert!(a.register_component(comp(3, "Acceleration")));
    let ta = a.finalize();

    let mut b = Registry::new();
    assert!(b.register_component(comp(3, "Acceleration")));
    assert!(b.register_component(comp(2, "Velocity")));
    assert!(b.register_component(comp(1, "Position")));
    let tb = b.finalize();

    for key in [1u64, 2, 3] {
        assert_eq!(ta.get_component_id(key), tb.get_component_id(key));
    }
    assert_eq!(ta.get_component_id(3), 0);
    assert_eq!(ta.get_component_id(1), 1);
    assert_eq!(ta.get_component_id(2), 2);
}

#[test]
fn lookup_is_idempotent() {
    let mut reg = Registry::new();
    assert!(reg.register_component(comp(7, "Mass")));
    assert!(reg.register_component(comp(8, "Charge")));
    let table = reg.finalize();
    let first = table.get_component_id(7);
    let second = table.get_component_id(7);
    assert_eq!(first, second);
}

#[test]
fn duplicate_registrations_are_rejected() {
    let mut reg = Registry::new();
    assert!(reg.register_component(comp(1, "Position")));
    // Same key, fresh name: rejected.
    assert!(!reg.register_component(comp(1, "Other")));
    // Fresh key, same name: rejected.
    assert!(!reg.register_component(comp(2, "Position")));
    let table = reg.finalize();
    assert_eq!(table.component_count(), 1);
}

#[test]
fn resource_ids_are_independent_of_component_ids() {
    let mut reg = Registry::new();
    assert!(reg.register_component(comp(1, "Position")));
    assert!(reg.register_resource(res(1, "Gravity")));
    assert!(reg.register_resource(res(2, "Ambient")));
    let table = reg.finalize();
    assert_eq!(table.component_count(), 1);
    assert_eq!(table.resource_count(), 2);
    assert_eq!(table.get_resource_id(2), 0); // Ambient
    assert_eq!(table.get_resource_id(1), 1); // Gravity
    assert_eq!(table.get_component_id(1), 0);
}

#[test]
fn tie_on_name_never_happens_but_keys_order_nothing_else() {
    // Sorting is by name; keys only identify the types.
    let mut reg = Registry::new();
    assert!(reg.register_component(comp(99, "Alpha")));
    assert!(reg.register_component(comp(1, "Beta")));
    let table = reg.finalize();
    assert_eq!(table.get_component_id(99), 0);
    assert_eq!(table.get_component_id(1), 1);
}
