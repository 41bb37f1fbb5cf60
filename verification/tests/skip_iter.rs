use ecs_core::query::{Access, FetchItem};
use ecs_core::world::World;

const POSITION: u64 = 0;

fn read(tag: u64) -> FetchItem {
    FetchItem { tag, access: Access::Read }
}

fn write(tag: u64) -> FetchItem {
    FetchItem { tag, access: Access::Write }
}

#[test]
fn skip_scan_yields_every_holder_but_the_current_one() {
    let mut world: World<u64> = World::new();
    world.register_component(POSITION);
    let mut entities = Vec::new();
    for _ in 0..5 {
        entities.push(world.create_entity());
    }
    // Holders: 0, 2, 4.
    for &i in &[0usize, 2, 4] {
        world.set_component(POSITION, 10 * i as u64, entities[i]);
    }

    let q = world.query(vec![write(POSITION)]);
    let mut outer = q.iter_mut();
    let mut rounds = Vec::new();
    while let Some(item) = outer.next(&q, &world) {
        let mut inner = outer.iter_skipping_current();
        let mut others = Vec::new();
        while let Some(other) = inner.next(&q, &world) {
            others.push(other.ent.to_num());
        }
        rounds.push((item.ent.to_num(), others));
    }
    q.release(&mut world);

    assert_eq!(
        rounds,
        vec![
            (0, vec![2, 4]),
            (2, vec![0, 4]),
            (4, vec![0, 2]),
        ]
    );
}

#[test]
fn collect_matches_skipping_leaves_out_exactly_one() {
    let mut world: World<u64> = World::new();
    world.register_component(POSITION);
    let mut entities = Vec::new();
    for _ in 0..4 {
        entities.push(world.create_entity());
    }
    for &i in &[0usize, 1, 3] {
        world.set_component(POSITION, i as u64, entities[i]);
    }

    let q = world.query(vec![read(POSITION)]);
    let rest = q.collect_matches_skipping(&world, entities[1]);
    let ids: Vec<usize> = rest.iter().map(|item| item.ent.to_num()).collect();
    assert_eq!(ids, vec![0, 3]);

    // Skipping an entity that holds nothing changes nothing.
    let rest = q.collect_matches_skipping(&world, entities[2]);
    let ids: Vec<usize> = rest.iter().map(|item| item.ent.to_num()).collect();
    assert_eq!(ids, vec![0, 1, 3]);
    q.release(&mut world);
}

#[test]
fn pairwise_accumulation_with_write_back() {
    // The pairwise pattern the skip scan exists for: each holder gathers a
    // sum over every other holder, then stores its updated value.
    let mut world: World<u64> = World::new();
    world.register_component(POSITION);
    let mut entities = Vec::new();
    for _ in 0..3 {
        entities.push(world.create_entity());
    }
    world.set_component(POSITION, 1, entities[0]);
    world.set_component(POSITION, 2, entities[1]);
    world.set_component(POSITION, 4, entities[2]);

    let q = world.query(vec![write(POSITION)]);
    let mut outer = q.iter_mut();
    while let Some(item) = outer.next(&q, &world) {
        let mut inner = outer.iter_skipping_current();
        let mut sum = 0u64;
        while let Some(other) = inner.next(&q, &world) {
            sum += other.comps[0];
        }
        q.store(&mut world, 0, item.comps[0] + sum, item.ent);
    }
    q.release(&mut world);

    // Each value becomes itself plus the sum of the others at the moment of
    // its turn: 1+(2+4)=7, 2+(7+4)=13, 4+(7+13)=24.
    assert_eq!(world.get_component(POSITION, entities[0]), Some(&7));
    assert_eq!(world.get_component(POSITION, entities[1]), Some(&13));
    assert_eq!(world.get_component(POSITION, entities[2]), Some(&24));
}
