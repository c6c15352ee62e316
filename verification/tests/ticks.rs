//! The world and the scheduler: the kinematics scenario, commutativity of
//! disjoint systems, strict ordering of conflicting systems, and the table
//! mapping staying consistent through world changes.

use peano::component::{make_component, read_component, Component};
use peano::motion::{MotionSystem, Position, Velocity};
use peano::registry::{ComponentRegistration, Registry};
use peano::scheduler::{footprints_conflict, schedule};
use peano::system::Footprint;
use peano::world::World;

fn motion_table() -> peano::registry::IdTable {
    let mut reg = Registry::new();
    assert!(reg.register_component(ComponentRegistration {
        type_key: Position::type_key(),
        name: "Position".as_bytes().to_vec(),
    }));
    assert!(reg.register_component(ComponentRegistration {
        type_key: Velocity::type_key(),
        name: "Velocity".as_bytes().to_vec(),
    }));
    reg.finalize()
}

#[test]
fn motion_scenario_one_tick() {
    let table = motion_table();
    // Position sorts before Velocity alphabetically.
    let pos_id = table.get_component_id(Position::type_key());
    let vel_id = table.get_component_id(Velocity::type_key());
    assert_eq!(pos_id, 0);
    assert_eq!(vel_id, 1);

    let mut world: World<MotionSystem> = World::new(&table);
    let e = world.create_entity();
    assert_eq!(e, 0);
    assert!(world.add_component(0, make_component(&Position { x: 0, y: 0 }, pos_id)).is_some());
    assert!(world.add_component(0, make_component(&Velocity { dx: 1, dy: 1 }, vel_id)).is_some());
    world.add_system(MotionSystem { pos_id, vel_id });

    let order = world.run_tick();
    assert_eq!(order, vec![0]);

    let cv = world.get_component(0, pos_id).expect("position present");
    let p: Option<Position> = read_component(cv);
    assert_eq!(p, Some(Position { x: 1, y: 1 }));
    // The velocity is untouched.
    let cv = world.get_component(0, vel_id).expect("velocity present");
    let v: Option<Velocity> = read_component(cv);
    assert_eq!(v, Some(Velocity { dx: 1, dy: 1 }));
}

#[test]
fn motion_wraps_on_overflow() {
    let table = motion_table();
    let mut world: World<MotionSystem> = World::new(&table);
    world.create_entity();
    assert!(world.add_component(0, make_component(&Position { x: i64::MAX, y: 0 }, 0)).is_some());
    assert!(world.add_component(0, make_component(&Velocity { dx: 1, dy: 0 }, 1)).is_some());
    world.add_system(MotionSystem { pos_id: 0, vel_id: 1 });
    world.run_tick();
    let p: Option<Position> = read_component(world.get_component(0, 0).unwrap());
    assert_eq!(p, Some(Position { x: i64::MIN, y: 0 }));
}

fn four_type_table() -> peano::registry::IdTable {
    let mut reg = Registry::new();
    for (key, name) in [(1u64, "Apos"), (2, "Avel"), (3, "Bpos"), (4, "Bvel")] {
        assert!(reg.register_component(ComponentRegistration {
            type_key: key,
            name: name.as_bytes().to_vec(),
        }));
    }
    reg.finalize()
}

fn positions(world: &World<MotionSystem>, ids: [usize; 4]) -> Vec<Option<Vec<i64>>> {
    ids.iter()
        .map(|&id| world.get_component(0, id).map(|cv| cv.data.clone()))
        .collect()
}

#[test]
fn disjoint_systems_commute_across_registration_orders() {
    // Two systems with disjoint footprints: one moves slot 0 by slot 1, the
    // other moves slot 2 by slot 3. Whichever runs first, the final world is
    // the same.
    let sys_a = || MotionSystem { pos_id: 0, vel_id: 1 };
    let sys_b = || MotionSystem { pos_id: 2, vel_id: 3 };
    let build = |first: MotionSystem, second: MotionSystem| {
        let table = four_type_table();
        let mut world: World<MotionSystem> = World::new(&table);
        world.create_entity();
        assert!(world.add_component(0, make_component(&Position { x: 5, y: 5 }, 0)).is_some());
        assert!(world.add_component(0, make_component(&Velocity { dx: 1, dy: 2 }, 1)).is_some());
        assert!(world.add_component(0, make_component(&Position { x: -5, y: -5 }, 2)).is_some());
        assert!(world.add_component(0, make_component(&Velocity { dx: -1, dy: -2 }, 3)).is_some());
        world.add_system(first);
        world.add_system(second);
        world.run_tick();
        positions(&world, [0, 1, 2, 3])
    };
    let ab = build(sys_a(), sys_b());
    let ba = build(sys_b(), sys_a());
    assert_eq!(ab, ba);
    assert_eq!(ab[0], Some(vec![6, 7]));
    assert_eq!(ab[2], Some(vec![-6, -7]));
}

#[test]
fn conflicting_systems_never_share_a_wave() {
    // Both systems write component 0: they conflict, so the schedule puts
    // them in different waves, one strictly before the other.
    let fp = || Footprint {
        comp_reads: vec![1],
        comp_writes: vec![0],
        res_reads: vec![],
        res_writes: vec![],
    };
    let fps = vec![fp(), fp()];
    assert!(footprints_conflict(&fps[0], &fps[1]));
    let waves = schedule(&fps);
    for wave in &waves {
        assert!(wave.len() <= 1);
    }
    let flat: Vec<usize> = waves.iter().flatten().copied().collect();
    assert_eq!(flat.len(), 2);
    assert!(flat.contains(&0) && flat.contains(&1));
}

#[test]
fn disjoint_systems_share_a_wave() {
    let a = Footprint {
        comp_reads: vec![1],
        comp_writes: vec![0],
        res_reads: vec![],
        res_writes: vec![],
    };
    let b = Footprint {
        comp_reads: vec![3],
        comp_writes: vec![2],
        res_reads: vec![],
        res_writes: vec![],
    };
    assert!(!footprints_conflict(&a, &b));
    let waves = schedule(&vec![a, b]);
    assert_eq!(waves.len(), 1);
    assert_eq!(waves[0].len(), 2);
}

#[test]
fn conflicting_ticks_apply_whole_steps() {
    // Two conflicting systems move the same position: across a tick each
    // runs exactly once, atomically, so the displacements add.
    let table = motion_table();
    let mut world: World<MotionSystem> = World::new(&table);
    world.create_entity();
    assert!(world.add_component(0, make_component(&Position { x: 0, y: 0 }, 0)).is_some());
    assert!(world.add_component(0, make_component(&Velocity { dx: 3, dy: -1 }, 1)).is_some());
    world.add_system(MotionSystem { pos_id: 0, vel_id: 1 });
    world.add_system(MotionSystem { pos_id: 0, vel_id: 1 });
    let order = world.run_tick();
    assert_eq!(order.len(), 2);
    let p: Option<Position> = read_component(world.get_component(0, 0).unwrap());
    assert_eq!(p, Some(Position { x: 6, y: -2 }));
    // A second tick keeps going from the completed state.
    world.run_tick();
    let p: Option<Position> = read_component(world.get_component(0, 0).unwrap());
    assert_eq!(p, Some(Position { x: 12, y: -4 }));
}

#[test]
fn table_mapping_tracks_component_changes() {
    let table = motion_table();
    let mut world: World<MotionSystem> = World::new(&table);
    world.create_entity(); // id 0
    world.create_entity(); // id 1
    assert!(world.add_component(0, make_component(&Position { x: 1, y: 1 }, 0)).is_some());
    assert!(world.add_component(1, make_component(&Position { x: 2, y: 2 }, 0)).is_some());
    assert!(world.add_component(1, make_component(&Velocity { dx: 0, dy: 0 }, 1)).is_some());

    // Entities holding at least {Position}.
    let r = world.query_entities(&vec![true, false]);
    assert!(r.contains(&0) && r.contains(&1));
    // Entities holding at least {Position, Velocity}.
    let r = world.query_entities(&vec![true, true]);
    assert_eq!(r, vec![1]);
    // Membership follows removal: no stale rows.
    assert!(world.remove_component(1, 1).is_some());
    let r = world.query_entities(&vec![true, true]);
    assert!(r.is_empty());
    let r = world.query_entities(&vec![true, false]);
    assert!(r.contains(&0) && r.contains(&1));
}

#[test]
fn destroyed_entities_leave_the_mapping() {
    let table = motion_table();
    let mut world: World<MotionSystem> = World::new(&table);
    world.create_entity(); // id 0
    world.create_entity(); // id 1
    assert!(world.add_component(0, make_component(&Position { x: 0, y: 0 }, 0)).is_some());
    assert!(world.add_component(1, make_component(&Position { x: 1, y: 1 }, 0)).is_some());
    world.destroy_entity(0);
    assert_eq!(world.entity_count(), 1);
    let r = world.query_entities(&vec![true, false]);
    assert_eq!(r, vec![1]);
    // Identifiers are never reused.
    let fresh = world.create_entity();
    assert_eq!(fresh, 2);
}

#[test]
fn mapping_stays_consistent_after_a_tick() {
    let table = motion_table();
    let mut world: World<MotionSystem> = World::new(&table);
    world.create_entity();
    assert!(world.add_component(0, make_component(&Position { x: 0, y: 0 }, 0)).is_some());
    assert!(world.add_component(0, make_component(&Velocity { dx: 1, dy: 1 }, 1)).is_some());
    world.add_system(MotionSystem { pos_id: 0, vel_id: 1 });
    world.run_tick();
    let r = world.query_entities(&vec![true, true]);
    assert_eq!(r, vec![0]);
}
