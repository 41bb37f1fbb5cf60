use ecs_core::entity::Entity;
use ecs_core::world::World;

const POSITION: u64 = 0;
const MASS: u64 = 1;

#[derive(Clone, Copy, Debug, PartialEq)]
enum Comp {
    Position(f64, f64, f64),
    Mass(f64),
}

#[test]
fn array_lengths_track_entity_count() {
    let mut world: World<Comp> = World::new();
    world.register_component(POSITION);
    assert_eq!(world.get_component_array(POSITION).unwrap().len(), 0);

    let _e0 = world.create_entity();
    assert_eq!(world.get_component_array(POSITION).unwrap().len(), 1);

    world.register_component(MASS);
    assert_eq!(world.get_component_array(POSITION).unwrap().len(), 1);
    assert_eq!(world.get_component_array(MASS).unwrap().len(), 1);

    let _e1 = world.create_entity();
    let _e2 = world.create_entity();
    assert_eq!(world.get_component_array(POSITION).unwrap().len(), 3);
    assert_eq!(world.get_component_array(MASS).unwrap().len(), 3);
}

#[test]
fn entities_are_issued_in_creation_order() {
    let mut world: World<u64> = World::new();
    let e0 = world.create_entity();
    let e1 = world.create_entity();
    let e2 = world.create_entity();
    assert_eq!(e0.to_num(), 0);
    assert_eq!(e1.to_num(), 1);
    assert_eq!(e2.to_num(), 2);
    assert_eq!(Entity::from_num(1), e1);
    assert!(e0 != e1);
}

#[test]
fn set_then_get_yields_value_remove_yields_absence() {
    let mut world: World<Comp> = World::new();
    world.register_component(POSITION);
    let e0 = world.create_entity();
    let e1 = world.create_entity();

    world.set_component(POSITION, Comp::Position(1.0, 2.0, 3.0), e0);
    assert_eq!(
        world.get_component(POSITION, e0),
        Some(&Comp::Position(1.0, 2.0, 3.0))
    );
    assert_eq!(world.get_component(POSITION, e1), None);

    world.remove_component(POSITION, e0);
    assert_eq!(world.get_component(POSITION, e0), None);
}

#[test]
fn reassignment_overwrites_without_touching_other_slots() {
    let mut world: World<Comp> = World::new();
    world.register_component(MASS);
    let e0 = world.create_entity();
    let e1 = world.create_entity();

    world.set_component(MASS, Comp::Mass(1.5), e0);
    world.set_component(MASS, Comp::Mass(2.5), e1);
    world.set_component(MASS, Comp::Mass(9.0), e0);

    assert_eq!(world.get_component(MASS, e0), Some(&Comp::Mass(9.0)));
    assert_eq!(world.get_component(MASS, e1), Some(&Comp::Mass(2.5)));
}

#[test]
fn unregistered_tag_has_no_array() {
    let world: World<u64> = World::new();
    assert!(world.get_component_array(42).is_none());
    assert!(world
        .get_component(42, Entity::from_num(0))
        .is_none());
}

#[test]
fn owning_access_reaches_the_raw_slots() {
    let mut world: World<u64> = World::new();
    world.register_component(5);
    let e0 = world.create_entity();

    let cell = world.get_component_array_mut(5).expect("registered");
    cell.set_component(8, e0);
    assert_eq!(cell.get(e0), Some(&8));

    let slots = cell.get_mut();
    assert_eq!(slots.len(), 1);
    slots[0] = None;
    assert_eq!(world.get_component(5, e0), None);

    assert!(world.get_component_array_mut(9).is_none());
}

#[test]
fn late_registration_backfills_empty_slots() {
    let mut world: World<u64> = World::new();
    let e0 = world.create_entity();
    let e1 = world.create_entity();
    world.register_component(7);
    assert_eq!(world.get_component_array(7).unwrap().len(), 2);
    assert_eq!(world.get_component(7, e0), None);
    assert_eq!(world.get_component(7, e1), None);
}
