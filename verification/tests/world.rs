use spark_ecs::access::{Access, Entry};
use spark_ecs::commands::SetTo;
use spark_ecs::filter::Filter;
use spark_ecs::query::{Fetched, Query, Term};
use spark_ecs::system::IntoSystem;
use spark_ecs::world::{World, WorldView};

type W = World<i32, SetTo<i32>>;

const POSITION: Entry = Entry { id: 0, name: "Position" };
const VELOCITY: Entry = Entry { id: 1, name: "Velocity" };

struct Integrate;

impl IntoSystem<i32, SetTo<i32>> for Integrate {
    fn spec_access(&self) -> Access {
        self.access()
    }

    fn spec_name(&self) -> &'static str {
        self.name()
    }

    fn spec_run(&self, _before: WorldView<i32, SetTo<i32>>, _after: WorldView<i32, SetTo<i32>>) -> bool {
        true
    }

    fn name(&self) -> &'static str {
        "integrate"
    }

    fn access(&self) -> Access {
        let mut a = Access::new();
        a.components_mut().add_write(POSITION.id, POSITION.name);
        a.components_mut().add_write(VELOCITY.id, VELOCITY.name);
        a
    }

    fn run(&mut self, world: &mut W) {
        let updates: Vec<_> = {
            let q = Query::from_world(world, vec![Term::Write(POSITION), Term::Write(VELOCITY)], Filter::All);
            q.iter()
                .iter()
                .map(|row| match (&row.items[0], &row.items[1]) {
                    (Fetched::Value(p), Fetched::Value(v)) => (row.entity, **p + **v),
                    _ => panic!("required terms yield values"),
                })
                .collect()
        };
        for (e, p) in updates {
            *world.get_mut_handle(e, POSITION.id).unwrap().get_mut() = p;
        }
    }
}

#[test]
fn join_does_not_overmark_driver_for_unjoined_entities() {
    let mut world = W::new();
    let both = world.spawn().insert(POSITION.id, 1).insert(VELOCITY.id, 1).id();
    let pos_only = world.spawn().insert(POSITION.id, 5).id();
    let _bump = world.spawn().insert(POSITION.id, 0).id();
    let hits = Query::from_world(&world, vec![Term::Write(POSITION), Term::Write(VELOCITY)], Filter::All)
        .iter_mut();
    assert_eq!(hits, vec![both]);
    for e in hits {
        *world.get_mut_handle(e, POSITION.id).unwrap().get_mut() += 1;
        *world.get_mut_handle(e, VELOCITY.id).unwrap().get_mut() += 1;
    }
    let pos = world.storage(POSITION.id).unwrap();
    assert_eq!(pos.changed_tick_for(both), Some(4));
    assert_eq!(pos.changed_tick_for(pos_only), Some(3));
}

#[test]
fn read_only_iteration_marks_nothing() {
    let mut world = W::new();
    let e = world.spawn().insert(POSITION.id, 7).id();
    {
        let q = Query::from_world(&world, vec![Term::Read(POSITION)], Filter::All);
        assert_eq!(q.iter().len(), 1);
    }
    assert_eq!(world.storage(POSITION.id).unwrap().changed_tick_for(e), Some(2));
}

#[test]
fn multi_mut_tuple_marks_only_the_written_component() {
    let mut world = W::new();
    let e = world.spawn().insert(POSITION.id, 1).insert(VELOCITY.id, 2).id();
    let mut system = Integrate;
    let access = system.access();
    let mut last_seen = Vec::new();
    world.run_system(&access, &mut last_seen, &mut system);
    assert_eq!(*world.get(e, POSITION.id).unwrap(), 3);
    assert_eq!(world.storage(POSITION.id).unwrap().changed_tick_for(e), Some(3));
    assert_eq!(world.storage(VELOCITY.id).unwrap().changed_tick_for(e), Some(2));
}

#[test]
fn run_system_records_each_touched_clock_and_restores_the_world_baselines() {
    let mut world = W::new();
    world.spawn().insert(POSITION.id, 1).insert(VELOCITY.id, 2);
    let mut system = Integrate;
    let access = system.access();
    let mut last_seen = vec![(9, 9)];
    world.run_system(&access, &mut last_seen, &mut system);
    assert_eq!(last_seen, vec![(9, 9), (POSITION.id, 3), (VELOCITY.id, 3)]);
    assert_eq!(world.baseline_for(POSITION.id), 0);
    world.run_system(&access, &mut last_seen, &mut system);
    assert_eq!(last_seen, vec![(9, 9), (POSITION.id, 4), (VELOCITY.id, 4)]);
}

#[test]
fn begin_system_parks_the_baseline_and_end_system_restores_it() {
    let mut world = W::new();
    world.spawn().insert(POSITION.id, 1);
    let mut access = Access::new();
    access.components_mut().add_read(POSITION.id, POSITION.name);
    let mut last_seen = vec![(POSITION.id, 1)];
    let outer = world.begin_system(&access, &last_seen);
    assert_eq!(world.baseline_for(POSITION.id), 1);
    assert_eq!(world.storage(POSITION.id).unwrap().current_tick(), 2, "reads advance nothing");
    world.end_system(&access, outer, &mut last_seen);
    assert_eq!(world.baseline_for(POSITION.id), 0);
    assert_eq!(last_seen, vec![(POSITION.id, 2)]);
}

#[test]
fn despawn_clears_every_component_and_spares_others() {
    let mut world = W::new();
    let doomed = world.spawn().insert(POSITION.id, 1).insert(VELOCITY.id, 2).id();
    let other = world.spawn().insert(POSITION.id, 3).insert(VELOCITY.id, 4).id();
    assert!(world.despawn(doomed));
    assert!(!world.despawn(doomed));
    assert!(!world.contains(doomed, POSITION.id));
    assert!(!world.contains(doomed, VELOCITY.id));
    assert_eq!(world.get(other, POSITION.id), Some(&3));
    assert_eq!(world.get(other, VELOCITY.id), Some(&4));
    assert_eq!(world.live_entities(), vec![other]);
}

#[test]
fn insert_then_get_reads_back_and_replaces() {
    let mut world = W::new();
    let e = world.spawn_entity();
    assert_eq!(world.insert(e, POSITION.id, 5), None);
    assert_eq!(world.get(e, POSITION.id), Some(&5));
    assert_eq!(world.insert(e, POSITION.id, 6), Some(5));
    assert_eq!(world.remove(e, POSITION.id), Some(6));
    assert_eq!(world.get(e, POSITION.id), None);
    assert!(world.get(e, VELOCITY.id).is_none());
}

#[test]
fn insert_on_a_dead_handle_is_a_no_op() {
    let mut world = W::new();
    let e = world.spawn_entity();
    world.despawn(e);
    assert_eq!(world.insert(e, POSITION.id, 5), None);
    assert_eq!(world.storage_count(), 0);
}

#[test]
fn world_get_mut_advances_the_clock_before_stamping() {
    let mut world = W::new();
    let e = world.spawn().insert(POSITION.id, 1).id();
    *world.get_mut(e, POSITION.id).unwrap() += 1;
    let pos = world.storage(POSITION.id).unwrap();
    assert_eq!(pos.current_tick(), 3);
    assert_eq!(pos.changed_tick_for(e), Some(3));
    assert_eq!(pos.added_tick_for(e), Some(2));
    let handle = world.get_mut_handle(e, POSITION.id).unwrap();
    assert_eq!(*handle.get(), 2);
    drop(handle);
    assert_eq!(world.storage(POSITION.id).unwrap().changed_tick_for(e), Some(3));
}
