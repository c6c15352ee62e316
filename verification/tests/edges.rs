//! Edge cases: empty registries, worlds with no registered types, ticks
//! with no systems, and the world-level resource interface.

use peano::component::{make_component, make_resource, read_resource, Resource};
use peano::motion::{Gravity, MotionSystem, Position};
use peano::registry::{ComponentRegistration, Registry, ResourceRegistration};
use peano::scheduler::schedule;
use peano::world::World;

#[test]
fn empty_registry_finalizes_to_empty_table() {
    let table = Registry::new().finalize();
    assert_eq!(table.component_count(), 0);
    assert_eq!(table.resource_count(), 0);
}

#[test]
fn world_of_no_types_still_ticks() {
    let table = Registry::new().finalize();
    let mut world: World<MotionSystem> = World::new(&table);
    world.create_entity();
    let order = world.run_tick();
    assert!(order.is_empty());
    assert_eq!(world.entity_count(), 1);
}

#[test]
fn schedule_of_no_systems_is_empty() {
    let waves = schedule(&Vec::new());
    let total: usize = waves.iter().map(|w| w.len()).sum();
    assert_eq!(total, 0);
}

#[test]
fn tick_without_matching_components_changes_nothing() {
    let mut reg = Registry::new();
    assert!(reg.register_component(ComponentRegistration {
        type_key: 1,
        name: "Position".as_bytes().to_vec(),
    }));
    assert!(reg.register_component(ComponentRegistration {
        type_key: 2,
        name: "Velocity".as_bytes().to_vec(),
    }));
    let table = reg.finalize();
    let mut world: World<MotionSystem> = World::new(&table);
    world.create_entity();
    // Only a position: without a velocity the system leaves it alone.
    assert!(world.add_component(0, make_component(&Position { x: 4, y: 4 }, 0)).is_some());
    world.add_system(MotionSystem { pos_id: 0, vel_id: 1 });
    world.run_tick();
    let cv = world.get_component(0, 0).expect("still present");
    assert_eq!(cv.data, vec![4, 4]);
}

#[test]
fn world_level_resources() {
    let mut reg = Registry::new();
    assert!(reg.register_resource(ResourceRegistration {
        type_key: Gravity::type_key(),
        name: "Gravity".as_bytes().to_vec(),
    }));
    let table = reg.finalize();
    let gid = table.get_resource_id(Gravity::type_key());
    assert_eq!(gid, 0);
    let mut world: World<MotionSystem> = World::new(&table);
    assert!(world.get_resource(gid).is_none());
    assert!(world.insert_resource(make_resource(&Gravity { g: -10 }, gid)).is_none());
    let prev = world.insert_resource(make_resource(&Gravity { g: -20 }, gid));
    let prev: Option<Gravity> = read_resource(&prev.expect("occupied"));
    assert_eq!(prev, Some(Gravity { g: -10 }));
    let now: Option<Gravity> = read_resource(world.get_resource(gid).expect("present"));
    assert_eq!(now, Some(Gravity { g: -20 }));
    let gone = world.remove_resource(gid);
    assert!(gone.is_some());
    assert!(world.get_resource(gid).is_none());
}
