use spark_ecs::access::{Access, Entry};
use spark_ecs::commands::SetTo;
use spark_ecs::events::{swap_events, EventReader, EventWriter, Events};
use spark_ecs::system::SystemParam;
use spark_ecs::world::World;

type W = World<u32, SetTo<u32>>;

const TEST_EVENT: Entry = Entry { id: 7, name: "TestEvent" };

fn read_into(world: &W, seen: &mut Vec<u32>) {
    let reader = EventReader::new(TEST_EVENT, world.events(TEST_EVENT.id).unwrap());
    seen.extend(reader.read().iter().copied());
}

#[test]
fn swap_rotates_current_into_previous_and_clears_current() {
    let mut events = Events::<u32>::new();
    events.send(1);
    events.send(2);
    assert_eq!(events.iter_previous().len(), 0);
    events.swap();
    assert_eq!(events.iter_previous().to_vec(), vec![1, 2]);
    events.swap();
    assert_eq!(events.iter_previous().len(), 0);
}

#[test]
fn swap_keeps_only_one_frame_of_events() {
    let mut events = Events::<u32>::new();
    events.send(1);
    events.swap();
    assert_eq!(events.iter_previous().to_vec(), vec![1]);
    events.send(2);
    events.swap();
    assert_eq!(events.iter_previous().to_vec(), vec![2]);
    events.swap();
    assert_eq!(events.iter_previous().len(), 0);
}

#[test]
fn writer_send_then_reader_read_across_a_swap() {
    let mut world = W::new();
    world.add_events(TEST_EVENT.id);
    let mut seen = Vec::new();
    {
        let mut writer = EventWriter::new(TEST_EVENT, world.events_mut(TEST_EVENT.id).unwrap());
        writer.send(9);
    }
    assert_eq!(world.events(TEST_EVENT.id).unwrap().iter_previous().len(), 0);
    world.events_mut(TEST_EVENT.id).unwrap().swap();
    read_into(&world, &mut seen);
    assert_eq!(seen, vec![9]);
    swap_events(world.events_mut(TEST_EVENT.id).unwrap());
    read_into(&world, &mut seen);
    assert_eq!(seen, vec![9]);
}

#[test]
fn two_readers_each_see_every_event_exactly_once() {
    let mut world = W::new();
    world.add_events(TEST_EVENT.id);
    world.events_mut(TEST_EVENT.id).unwrap().send(1);
    world.events_mut(TEST_EVENT.id).unwrap().send(2);
    world.events_mut(TEST_EVENT.id).unwrap().swap();
    let mut seen = Vec::new();
    read_into(&world, &mut seen);
    read_into(&world, &mut seen);
    assert_eq!(seen, vec![1, 2, 1, 2]);
}

#[test]
fn reads_are_stable_across_repeated_reads_in_a_frame() {
    let mut world = W::new();
    world.add_events(TEST_EVENT.id);
    world.events_mut(TEST_EVENT.id).unwrap().send(5);
    world.events_mut(TEST_EVENT.id).unwrap().swap();
    let mut seen = Vec::new();
    for _ in 0..3 {
        read_into(&world, &mut seen);
    }
    assert_eq!(seen, vec![5, 5, 5]);
}

#[test]
fn reader_declares_resource_read_writer_declares_resource_write() {
    let mut events = Events::<u32>::new();
    let mut reader_access = Access::new();
    EventReader::new(TEST_EVENT, &events).collect_access(&mut reader_access);
    let mut writer_access = Access::new();
    EventWriter::new(TEST_EVENT, &mut events).collect_access(&mut writer_access);
    assert!(reader_access.compatible_with(&reader_access));
    assert!(!reader_access.compatible_with(&writer_access));
    assert!(!writer_access.compatible_with(&writer_access));
}

#[test]
fn add_events_twice_keeps_the_first_buffers() {
    let mut world = W::new();
    assert!(world.add_events(TEST_EVENT.id));
    world.events_mut(TEST_EVENT.id).unwrap().send(3);
    assert!(!world.add_events(TEST_EVENT.id));
    world.events_mut(TEST_EVENT.id).unwrap().swap();
    assert_eq!(world.events(TEST_EVENT.id).unwrap().iter_previous().to_vec(), vec![3]);
}
