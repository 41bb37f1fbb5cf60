use ecs_core::combo_iterator::ComboIterator0;
use ecs_core::commands::{Command, Commands};
use ecs_core::math::Vec3;

#[test]
fn vec3_holds_its_components() {
    let v = Vec3::new(1u32, 2u32, 3u32);
    assert_eq!(v.x, 1);
    assert_eq!(v.y, 2);
    assert_eq!(v.z, 3);

    let w = Vec3::new(0.5f64, -1.5f64, 2.5f64);
    assert_eq!(w.x, 0.5);
    assert_eq!(w.y, -1.5);
    assert_eq!(w.z, 2.5);
}

#[test]
fn combo_iterator_zips_until_the_shorter_side_ends() {
    let mut it = ComboIterator0::new(vec![1u32, 2, 3], vec![10u64, 20]);
    assert_eq!(it.next(), Some((1, 10)));
    assert_eq!(it.next(), Some((2, 20)));
    assert_eq!(it.next(), None);
    assert_eq!(it.next(), None);
}

#[test]
fn combo_iterator_with_an_empty_side_yields_nothing() {
    let mut it = ComboIterator0::new(Vec::<u8>::new(), vec![1u8, 2]);
    assert_eq!(it.next(), None);
}

#[test]
fn commands_queue_in_order_and_drain() {
    let mut commands = Commands::new();
    commands.queue_command(Command::Exit);
    commands.queue_command(Command::Exit);
    let drained = commands.drain();
    assert_eq!(drained, vec![Command::Exit, Command::Exit]);
}
