use spark_ecs::access::Entry;
use spark_ecs::commands::ResourceUpdate;
use spark_ecs::filter::Filter;
use spark_ecs::query::{Query, Term};
use spark_ecs::world::World;

/// A deferred arithmetic edit of a counter resource.
#[derive(Clone, Copy, Debug)]
enum Edit {
    Add(u32),
    Mul(u32),
}

impl ResourceUpdate<u32> for Edit {
    fn spec_apply(&self, v: u32) -> u32 {
        match self {
            Edit::Add(n) => v + n,
            Edit::Mul(n) => v * n,
        }
    }

    fn apply(&self, value: &mut u32) {
        *value = self.spec_apply(*value);
    }
}

type W = World<u32, Edit>;

const POSITION: Entry = Entry { id: 0, name: "Position" };
const SCORE: u32 = 0;

fn positions(world: &W) -> usize {
    Query::from_world(world, vec![Term::Read(POSITION)], Filter::All)
        .iter()
        .len()
}

fn flush(world: &mut W) {
    if let Err(key) = world.flush_commands() {
        panic!("resource {key} has not been inserted");
    }
}

#[test]
fn spawn_allocates_entity_synchronously() {
    let mut world = W::new();
    let id = world.commands().spawn().id();
    assert!(world.is_alive(id));
}

#[test]
fn insert_is_deferred_until_flush() {
    let mut world = W::new();
    world.commands().spawn().insert(POSITION.id, 12);
    assert_eq!(positions(&world), 0, "insert must not land before flush");
    flush(&mut world);
    assert_eq!(positions(&world), 1);
}

#[test]
fn despawn_is_deferred_until_flush() {
    let mut world = W::new();
    let e = world.spawn().insert(POSITION.id, 77).id();
    world.commands().despawn(e);
    assert!(world.is_alive(e));
    flush(&mut world);
    assert!(!world.is_alive(e));
    assert!(world.get(e, POSITION.id).is_none());
}

#[test]
fn spawn_then_despawn_in_same_frame_round_trips() {
    let mut world = W::new();
    {
        let mut commands = world.commands();
        let id = commands.spawn().insert(POSITION.id, 0).id();
        commands.despawn(id);
    }
    flush(&mut world);
    assert_eq!(positions(&world), 0);
}

#[test]
fn insert_resource_is_deferred_until_flush() {
    let mut world = W::new();
    world.commands().insert_resource(SCORE, 7);
    assert!(world.get_resource(SCORE).is_none(), "insert_resource must not land before flush");
    flush(&mut world);
    assert_eq!(*world.resource(SCORE), 7);
}

#[test]
fn insert_resource_overwrites_existing() {
    let mut world = W::new();
    world.add_resource(SCORE, 1);
    world.commands().insert_resource(SCORE, 99);
    flush(&mut world);
    assert_eq!(*world.resource(SCORE), 99);
}

#[test]
fn update_resource_runs_at_flush() {
    let mut world = W::new();
    world.add_resource(SCORE, 1);
    world.commands().update_resource(SCORE, Edit::Add(10));
    assert_eq!(*world.resource(SCORE), 1, "update_resource must not land before flush");
    flush(&mut world);
    assert_eq!(*world.resource(SCORE), 11);
}

#[test]
#[should_panic(expected = "has not been inserted")]
fn update_resource_on_absent_resource_panics_at_flush() {
    let mut world = W::new();
    world.commands().update_resource(SCORE, Edit::Add(1));
    flush(&mut world);
}

#[test]
fn two_queued_inserts_of_same_resource_last_write_wins() {
    let mut world = W::new();
    {
        let mut commands = world.commands();
        commands.insert_resource(SCORE, 1);
        commands.insert_resource(SCORE, 2);
    }
    flush(&mut world);
    assert_eq!(*world.resource(SCORE), 2);
}

#[test]
fn update_resource_dodges_live_resmut_borrow() {
    let mut world = W::new();
    world.add_resource(SCORE, 1);
    *world.resource_mut(SCORE) = 5;
    world.commands().update_resource(SCORE, Edit::Add(100));
    assert_eq!(*world.resource(SCORE), 5, "eager write lands immediately");
    flush(&mut world);
    assert_eq!(*world.resource(SCORE), 105, "deferred update applies against the flushed value");
}

#[test]
fn resource_and_structural_ops_share_one_flush() {
    let mut world = W::new();
    world.add_resource(SCORE, 1);
    let doomed = world.spawn().insert(POSITION.id, 0).id();
    {
        let mut commands = world.commands();
        commands.spawn().insert(POSITION.id, 12);
        commands.insert_resource(SCORE, 5);
        commands.update_resource(SCORE, Edit::Add(1));
        commands.despawn(doomed);
    }
    assert!(world.is_alive(doomed));
    assert_eq!(*world.resource(SCORE), 1);
    flush(&mut world);
    assert!(!world.is_alive(doomed));
    assert_eq!(positions(&world), 1);
    assert_eq!(*world.resource(SCORE), 6);
}

#[test]
fn insert_then_update_resource_in_one_system() {
    let mut world = W::new();
    {
        let mut commands = world.commands();
        commands.insert_resource(SCORE, 5);
        commands.update_resource(SCORE, Edit::Mul(2));
    }
    flush(&mut world);
    assert_eq!(*world.resource(SCORE), 10);
}

#[test]
fn commands_after_a_failed_update_are_dropped() {
    let mut world = W::new();
    {
        let mut commands = world.commands();
        commands.update_resource(SCORE, Edit::Add(1));
        commands.insert_resource(SCORE, 3);
    }
    assert_eq!(world.flush_commands(), Err(SCORE));
    assert!(world.get_resource(SCORE).is_none());
    assert_eq!(world.pending_commands().len(), 0);
}

const VELOCITY: Entry = Entry { id: 1, name: "Velocity" };

fn value(world: &W, e: spark_ecs::entity::Entity, c: Entry) -> Option<u32> {
    world.get(e, c.id).copied()
}

#[test]
fn commands_coexists_with_query_in_one_system() {
    let mut world = W::new();
    world.spawn().insert(POSITION.id, 0);
    world.spawn().insert(POSITION.id, 10);
    let count = positions(&world);
    {
        let mut commands = world.commands();
        for _ in 0..count {
            commands.spawn().insert(POSITION.id, 99);
        }
    }
    flush(&mut world);
    assert_eq!(positions(&world), 4);
}

#[test]
fn chained_inserts_all_flush_together() {
    let mut world = W::new();
    let id = world.commands().spawn().insert(POSITION.id, 1).insert(VELOCITY.id, 3).id();
    flush(&mut world);
    assert_eq!(value(&world, id, POSITION), Some(1));
    assert_eq!(value(&world, id, VELOCITY), Some(3));
}

#[test]
fn entity_insert_and_remove_on_existing_entity() {
    let mut world = W::new();
    let e = world.spawn().insert(POSITION.id, 1).id();
    world.commands().entity(e).insert(VELOCITY.id, 3).remove(POSITION.id);
    assert_eq!(value(&world, e, POSITION), Some(1));
    flush(&mut world);
    assert!(value(&world, e, POSITION).is_none());
    assert_eq!(value(&world, e, VELOCITY), Some(3));
}

#[test]
fn remove_on_entity_lacking_component_is_noop() {
    let mut world = W::new();
    let e = world.spawn().insert(POSITION.id, 0).id();
    world.spawn().insert(VELOCITY.id, 7);
    world.commands().entity(e).remove(VELOCITY.id);
    flush(&mut world);
    assert!(world.is_alive(e));
    assert!(value(&world, e, POSITION).is_some());
}

#[test]
fn despawn_then_mutate_drops_silently() {
    let mut world = W::new();
    let e = world.spawn().insert(POSITION.id, 5).id();
    {
        let mut commands = world.commands();
        commands.despawn(e);
        commands.entity(e).insert(VELOCITY.id, 1);
    }
    flush(&mut world);
    assert!(!world.is_alive(e));
    assert!(value(&world, e, VELOCITY).is_none());
}

#[test]
fn chained_insert_insert_remove() {
    let mut world = W::new();
    let id = world
        .commands()
        .spawn()
        .insert(POSITION.id, 1)
        .insert(VELOCITY.id, 3)
        .remove(POSITION.id)
        .id();
    flush(&mut world);
    assert!(value(&world, id, POSITION).is_none());
    assert_eq!(value(&world, id, VELOCITY), Some(3));
}

#[test]
fn insert_then_despawn_sweeps_the_component() {
    let mut world = W::new();
    let e = world.spawn().insert(POSITION.id, 5).id();
    {
        let mut commands = world.commands();
        commands.entity(e).insert(VELOCITY.id, 9);
        commands.despawn(e);
    }
    flush(&mut world);
    assert!(!world.is_alive(e));
    assert!(value(&world, e, VELOCITY).is_none());
}

#[test]
fn queued_despawn_does_not_reuse_slot_for_same_frame_spawn() {
    let mut world = W::new();
    let old = world.spawn().insert(POSITION.id, 1).id();
    let fresh = {
        let mut commands = world.commands();
        commands.despawn(old);
        let fresh = commands.spawn().id();
        assert_ne!(fresh.index, old.index, "fresh must not take old's slot");
        commands.entity(old).insert(VELOCITY.id, 99);
        fresh
    };
    flush(&mut world);
    assert!(!world.is_alive(old), "old despawned");
    assert!(world.is_alive(fresh), "fresh survives");
    assert!(value(&world, old, VELOCITY).is_none());
}

#[test]
fn remove_with_no_storage_ever_created_is_noop() {
    let mut world = W::new();
    let e = world.spawn().insert(POSITION.id, 0).id();
    world.commands().entity(e).remove(VELOCITY.id);
    flush(&mut world);
    assert!(world.is_alive(e));
    assert!(value(&world, e, POSITION).is_some());
}

#[test]
fn remove_then_reinsert_same_type_nets_to_new_value() {
    let mut world = W::new();
    let e = world.spawn().insert(POSITION.id, 1).id();
    {
        let mut commands = world.commands();
        commands.entity(e).remove(POSITION.id);
        commands.entity(e).insert(POSITION.id, 9);
    }
    flush(&mut world);
    assert_eq!(value(&world, e, POSITION), Some(9));
}

#[test]
fn despawn_then_remove_drops_silently() {
    let mut world = W::new();
    let e = world.spawn().insert(POSITION.id, 5).id();
    {
        let mut commands = world.commands();
        commands.despawn(e);
        commands.entity(e).remove(POSITION.id);
    }
    flush(&mut world);
    assert!(!world.is_alive(e));
}

#[test]
fn entity_on_never_allocated_handle_drops_silently() {
    let mut world = W::new();
    let garbage = spark_ecs::entity::Entity::from_parts(9999, 42);
    {
        let mut commands = world.commands();
        commands.entity(garbage).insert(POSITION.id, 1);
        commands.entity(garbage).remove(POSITION.id);
    }
    flush(&mut world);
    assert!(!world.is_alive(garbage));
    assert!(value(&world, garbage, POSITION).is_none());
}

#[test]
fn entity_stale_after_cross_frame_slot_reuse_drops_silently() {
    let mut world = W::new();
    let old = world.spawn().insert(POSITION.id, 1).id();
    world.despawn(old);
    let fresh = world.spawn().insert(VELOCITY.id, 9).id();
    assert_eq!(old.index, fresh.index, "fresh reuses old's slot");
    assert_ne!(old, fresh, "but with a bumped generation");
    {
        let mut commands = world.commands();
        commands.entity(old).insert(POSITION.id, 99);
        commands.entity(old).remove(VELOCITY.id);
    }
    flush(&mut world);
    assert!(world.is_alive(fresh));
    assert_eq!(value(&world, fresh, VELOCITY), Some(9));
    assert!(value(&world, fresh, POSITION).is_none());
}

#[test]
fn remove_is_deferred_until_flush() {
    let mut world = W::new();
    let e = world.spawn().insert(POSITION.id, 3).id();
    world.commands().entity(e).remove(POSITION.id);
    assert!(value(&world, e, POSITION).is_some(), "remove must not land before flush");
    flush(&mut world);
    assert!(value(&world, e, POSITION).is_none());
}

#[test]
fn remove_then_despawn_entity_is_dead_post_flush() {
    let mut world = W::new();
    let e = world.spawn().insert(POSITION.id, 5).id();
    {
        let mut commands = world.commands();
        commands.entity(e).remove(POSITION.id);
        commands.despawn(e);
    }
    flush(&mut world);
    assert!(!world.is_alive(e));
    assert!(value(&world, e, POSITION).is_none());
}

#[test]
fn despawn_queued_twice_then_insert_leaves_the_entity_dead_and_bare() {
    let mut world = W::new();
    let e = world.spawn().insert(POSITION.id, 5).id();
    {
        let mut commands = world.commands();
        commands.despawn(e);
        commands.despawn(e);
        commands.entity(e).insert(VELOCITY.id, 1);
    }
    assert!(world.is_alive(e), "the despawn waits for the flush");
    assert_eq!(value(&world, e, POSITION), Some(5));
    flush(&mut world);
    assert!(!world.is_alive(e));
    assert!(value(&world, e, POSITION).is_none());
    assert!(value(&world, e, VELOCITY).is_none());
}
