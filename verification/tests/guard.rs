use ecs_core::component_array::{is_reading, is_writing, CACell};
use ecs_core::query::{Access, FetchItem, Query};
use ecs_core::world::World;

const TAG: u64 = 3;

#[test]
fn permission_matrix_on_unused_guard() {
    let mut cell: CACell<u64> = CACell::new();
    assert_eq!(cell.borrow_flag(), 0);
    assert!(cell.try_borrow());
    assert_eq!(cell.borrow_flag(), 1);
    cell.release_read();

    assert!(cell.try_borrow_mut());
    assert_eq!(cell.borrow_flag(), -1);
    assert!(is_writing(cell.borrow_flag()));
    cell.release_write();
    assert_eq!(cell.borrow_flag(), 0);
}

#[test]
fn readers_may_pile_up_but_no_writer_while_reading() {
    let mut cell: CACell<u64> = CACell::new();
    assert!(cell.try_borrow());
    assert!(cell.try_borrow());
    assert!(cell.try_borrow());
    assert_eq!(cell.borrow_flag(), 3);
    assert!(is_reading(cell.borrow_flag()));

    assert!(!cell.try_borrow_mut());
    assert_eq!(cell.borrow_flag(), 3);

    cell.release_read();
    cell.release_read();
    cell.release_read();
    assert_eq!(cell.borrow_flag(), 0);
}

#[test]
fn nothing_may_be_granted_while_writing() {
    let mut cell: CACell<u64> = CACell::new();
    cell.borrow_mut();
    assert!(!cell.try_borrow());
    assert!(!cell.try_borrow_mut());
    assert_eq!(cell.borrow_flag(), -1);
    cell.release_write();
}

#[test]
fn repeated_acquire_release_cycles_do_not_drift() {
    let mut cell: CACell<u64> = CACell::new();
    for _ in 0..100 {
        cell.borrow();
    }
    assert_eq!(cell.borrow_flag(), 100);
    for _ in 0..100 {
        cell.release_read();
    }
    assert_eq!(cell.borrow_flag(), 0);

    for _ in 0..50 {
        cell.borrow_mut();
        cell.release_write();
    }
    assert_eq!(cell.borrow_flag(), 0);
}

#[test]
fn query_acquisition_moves_guards_and_release_restores_them() {
    let mut world: World<u64> = World::new();
    world.register_component(TAG);
    let _e0 = world.create_entity();

    let q = world.query(vec![
        FetchItem { tag: TAG, access: Access::Read },
        FetchItem { tag: TAG, access: Access::Read },
    ]);
    assert_eq!(world.get_component_array(TAG).unwrap().borrow_flag(), 2);
    q.release(&mut world);
    assert_eq!(world.get_component_array(TAG).unwrap().borrow_flag(), 0);

    let q = world.query(vec![FetchItem { tag: TAG, access: Access::Write }]);
    assert_eq!(world.get_component_array(TAG).unwrap().borrow_flag(), -1);
    q.release(&mut world);
    assert_eq!(world.get_component_array(TAG).unwrap().borrow_flag(), 0);
}

#[test]
fn second_conflicting_query_is_refused_at_the_guard() {
    let mut world: World<u64> = World::new();
    world.register_component(TAG);
    let _e0 = world.create_entity();

    let writer = world
        .query(vec![FetchItem { tag: TAG, access: Access::Write }]);

    assert!(Query::try_new(
        &mut world,
        vec![FetchItem { tag: TAG, access: Access::Write }]
    )
    .is_none());
    assert!(Query::try_new(
        &mut world,
        vec![FetchItem { tag: TAG, access: Access::Read }]
    )
    .is_none());
    assert_eq!(world.get_component_array(TAG).unwrap().borrow_flag(), -1);

    writer.release(&mut world);
    let reader = Query::try_new(
        &mut world,
        vec![FetchItem { tag: TAG, access: Access::Read }],
    )
    .expect("guard is unused again");
    assert_eq!(world.get_component_array(TAG).unwrap().borrow_flag(), 1);
    reader.release(&mut world);
}

#[test]
fn failed_mixed_acquisition_leaves_guards_untouched() {
    let mut world: World<u64> = World::new();
    world.register_component(1);
    world.register_component(2);
    let _e0 = world.create_entity();

    let reader = world.query(vec![FetchItem { tag: 2, access: Access::Read }]);

    // The second element conflicts, so the first element's grant is rolled
    // back and nothing changes.
    assert!(Query::try_new(
        &mut world,
        vec![
            FetchItem { tag: 1, access: Access::Read },
            FetchItem { tag: 2, access: Access::Write },
        ]
    )
    .is_none());
    assert_eq!(world.get_component_array(1).unwrap().borrow_flag(), 0);
    assert_eq!(world.get_component_array(2).unwrap().borrow_flag(), 1);

    // A specification naming an unregistered tag is refused as a whole.
    assert!(Query::try_new(
        &mut world,
        vec![FetchItem { tag: 9, access: Access::Read }]
    )
    .is_none());

    reader.release(&mut world);
}
