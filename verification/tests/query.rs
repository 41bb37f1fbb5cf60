use ecs_core::entity::Entity;
use ecs_core::query::{Access, FetchItem, FetchResult};
use ecs_core::world::World;

const POSITION: u64 = 0;
const MASS: u64 = 1;

#[derive(Clone, Copy, Debug, PartialEq)]
enum Comp {
    Position(f64, f64, f64),
    Mass(f64),
}

fn read(tag: u64) -> FetchItem {
    FetchItem { tag, access: Access::Read }
}

fn write(tag: u64) -> FetchItem {
    FetchItem { tag, access: Access::Write }
}

#[test]
fn single_component_read_query_yields_exactly_the_holders() {
    let mut world: World<Comp> = World::new();
    world.register_component(POSITION);
    let e0 = world.create_entity();
    let e1 = world.create_entity();
    let e2 = world.create_entity();

    world.set_component(POSITION, Comp::Position(1.0, 0.0, 0.0), e0);
    world.set_component(POSITION, Comp::Position(0.0, 2.0, 0.0), e1);

    let q = world.query(vec![read(POSITION)]);
    let hits = q.collect_matches(&world);
    assert_eq!(hits.len(), 2);
    assert_eq!(hits[0].ent, e0);
    assert_eq!(hits[0].comps, vec![Comp::Position(1.0, 0.0, 0.0)]);
    assert_eq!(hits[1].ent, e1);
    assert_eq!(hits[1].comps, vec![Comp::Position(0.0, 2.0, 0.0)]);

    assert!(matches!(q.fetch_entity(&world, e2), FetchResult::Missing));
    assert!(matches!(
        q.fetch_entity(&world, Entity::from_num(3)),
        FetchResult::End
    ));
    q.release(&mut world);
}

#[test]
fn tuple_query_yields_only_entities_holding_every_member() {
    let mut world: World<Comp> = World::new();
    world.register_component(POSITION);
    world.register_component(MASS);
    let e0 = world.create_entity();
    let e1 = world.create_entity();
    let e2 = world.create_entity();

    world.set_component(POSITION, Comp::Position(0.0, 0.0, 0.0), e0);
    world.set_component(MASS, Comp::Mass(5.0), e0);
    world.set_component(POSITION, Comp::Position(1.0, 1.0, 1.0), e1);
    world.set_component(MASS, Comp::Mass(7.0), e2);

    let q = world.query(vec![read(POSITION), read(MASS)]);
    let hits = q.collect_matches(&world);
    assert_eq!(hits.len(), 1);
    assert_eq!(hits[0].ent, e0);
    assert_eq!(
        hits[0].comps,
        vec![Comp::Position(0.0, 0.0, 0.0), Comp::Mass(5.0)]
    );

    // An entity holding only one member is skipped, not yielded partially.
    assert!(matches!(q.fetch_entity(&world, e1), FetchResult::Missing));
    assert!(matches!(q.fetch_entity(&world, e2), FetchResult::Missing));
    q.release(&mut world);
}

#[test]
fn fetch_entity_distinguishes_missing_from_end() {
    let mut world: World<u64> = World::new();
    world.register_component(POSITION);
    let e0 = world.create_entity();

    let q = world.query(vec![read(POSITION)]);
    assert!(matches!(q.fetch_entity(&world, e0), FetchResult::Missing));
    assert!(matches!(
        q.fetch_entity(&world, Entity::from_num(1)),
        FetchResult::End
    ));
    q.release(&mut world);

    world.set_component(POSITION, 11, e0);
    let q = world.query(vec![read(POSITION)]);
    match q.fetch_entity(&world, e0) {
        FetchResult::Found(vals) => assert_eq!(vals, vec![11]),
        _ => panic!("entity owns the component"),
    }
    q.release(&mut world);
}

#[test]
fn iteration_walks_identifiers_upward() {
    let mut world: World<u64> = World::new();
    world.register_component(POSITION);
    let mut entities = Vec::new();
    for _ in 0..6 {
        entities.push(world.create_entity());
    }
    for &i in &[1usize, 3, 4] {
        world.set_component(POSITION, 100 + i as u64, entities[i]);
    }

    let q = world.query(vec![read(POSITION)]);
    let mut it = q.iter();
    let mut seen = Vec::new();
    while let Some(item) = it.next(&q, &world) {
        seen.push((item.ent.to_num(), item.comps[0]));
    }
    assert_eq!(seen, vec![(1, 101), (3, 103), (4, 104)]);
    assert!(it.next(&q, &world).is_none());
    q.release(&mut world);
}

#[test]
fn write_query_stores_back_through_its_accessor() {
    let mut world: World<u64> = World::new();
    world.register_component(MASS);
    let e0 = world.create_entity();
    let e1 = world.create_entity();
    world.set_component(MASS, 10, e0);
    world.set_component(MASS, 20, e1);

    let q = world.query(vec![write(MASS)]);
    let mut it = q.iter_mut();
    while let Some(item) = it.next(&q, &world) {
        let doubled = 2 * item.comps[0];
        q.store(&mut world, 0, doubled, item.ent);
    }
    q.release(&mut world);

    assert_eq!(world.get_component(MASS, e0), Some(&20));
    assert_eq!(world.get_component(MASS, e1), Some(&40));
}

#[test]
fn query_on_empty_world_ends_at_once() {
    let mut world: World<u64> = World::new();
    world.register_component(POSITION);
    let q = world.query(vec![read(POSITION)]);
    assert!(q.collect_matches(&world).is_empty());
    assert!(matches!(
        q.fetch_entity(&world, Entity::from_num(0)),
        FetchResult::End
    ));
    q.release(&mut world);
}
