use spark_ecs::access::{Access, Entry, QueryAccess, SelfConflict};
use spark_ecs::system::SystemParam;
use spark_ecs::commands::SetTo;
use spark_ecs::entity::Entity;
use spark_ecs::filter::Filter;
use spark_ecs::query::{collect_shape_access, Fetched, Query, Row, Term};
use spark_ecs::world::World;

type W = World<i32, SetTo<i32>>;
type Q<'w> = Query<'w, i32, SetTo<i32>>;

const POSITION: Entry = Entry { id: 0, name: "Position" };
const VELOCITY: Entry = Entry { id: 1, name: "Velocity" };
const A: Entry = Entry { id: 2, name: "A" };
const B: Entry = Entry { id: 3, name: "B" };
const C: Entry = Entry { id: 4, name: "C" };
const D: Entry = Entry { id: 5, name: "D" };
const E: Entry = Entry { id: 6, name: "E" };

fn world_with_three_movers() -> (W, [Entity; 3]) {
    let mut world = W::new();
    let a = world.spawn().insert(POSITION.id, 0).insert(VELOCITY.id, 1).id();
    let b = world.spawn().insert(POSITION.id, 10).insert(VELOCITY.id, 0).id();
    let c = world.spawn().insert(POSITION.id, 20).insert(VELOCITY.id, 1).id();
    (world, [a, b, c])
}

/// Builds the query, panicking with the diagnostic a self-conflicting
/// shape is reported with.
fn build<'w>(w: &'w W, shape: Vec<Term>, f: Filter) -> Q<'w> {
    let mut access = QueryAccess::new();
    collect_shape_access(&shape, &mut access);
    f.collect_access(&mut access);
    if let Err(SelfConflict { scope, domain, name, .. }) = access.assert_no_self_conflict() {
        panic!("{scope} has conflicting access to {domain} `{name}`");
    }
    Query::from_world(w, shape, f)
}

fn value(row: &Row<'_, i32>, k: usize) -> i32 {
    match row.items[k] {
        Fetched::Value(v) => *v,
        _ => panic!("not a value"),
    }
}

fn ids(q: &Q<'_>) -> Vec<Entity> {
    q.iter().iter().map(|r| r.entity).collect()
}

/// Writes `f(row)` into component `c` of every entity the query visits.
fn write_each(w: &mut W, shape: Vec<Term>, c: Entry, f: impl Fn(&Row<'_, i32>) -> i32) {
    let updates: Vec<(Entity, i32)> = {
        let q = build(w, shape, Filter::All);
        q.iter().iter().map(|row| (row.entity, f(row))).collect()
    };
    for (e, v) in updates {
        *w.get_mut(e, c.id).unwrap() = v;
    }
}

fn get(w: &W, e: Entity, c: Entry) -> i32 {
    *w.get(e, c.id).unwrap()
}

#[test]
#[should_panic(expected = "conflicting access to component")]
fn query_optional_mut_self_conflict_panics() {
    let mut world = W::new();
    world.spawn().insert(POSITION.id, 0);
    let _q = build(&world, vec![Term::Read(POSITION), Term::OptWrite(POSITION)], Filter::All);
}

#[test]
#[should_panic(expected = "conflicting access to component")]
fn query_optional_mut_driver_and_opt_both_write_same_type_panics() {
    let mut world = W::new();
    world.spawn().insert(POSITION.id, 0);
    let _q = build(&world, vec![Term::Write(POSITION), Term::OptWrite(POSITION)], Filter::All);
}

#[test]
fn query_entity_excludes_already_despawned_entity() {
    let (mut world, [a, b, c]) = world_with_three_movers();
    world.despawn(b);
    let q = build(&world, vec![Term::Entity], Filter::All);
    assert_eq!(ids(&q), vec![a, c]);
}

#[test]
#[should_panic(expected = "conflicting access to component")]
fn query_entity_tuple_self_conflict_panics_naming_component() {
    let mut world = W::new();
    world.spawn().insert(POSITION.id, 0);
    let _q = build(
        &world,
        vec![Term::Entity, Term::Write(POSITION), Term::Read(POSITION)],
        Filter::All,
    );
}

#[test]
#[should_panic(expected = "conflicting access to component")]
fn query_entity_mut_with_same_component_filter_panics() {
    let mut world = W::new();
    world.spawn().insert(POSITION.id, 0);
    let _q = build(&world, vec![Term::Entity, Term::Write(POSITION)], Filter::With(POSITION));
}

#[test]
fn query_entity_coexists_with_commands_and_snapshot_excludes_new_spawn() {
    let mut world = W::new();
    let pre = world.spawn().id();
    let seen = ids(&build(&world, vec![Term::Entity], Filter::All));
    let spawned = world.commands().spawn().id();
    world.flush_commands().unwrap();
    assert_eq!(seen, vec![pre]);
    assert!(!seen.contains(&spawned));
    assert!(world.is_alive(spawned));
}

#[test]
fn query_entity_snapshot_still_yields_commands_despawned_entity() {
    let mut world = W::new();
    let doomed = world.spawn().id();
    let other = world.spawn().id();
    world.commands().despawn(doomed);
    let seen = ids(&build(&world, vec![Term::Entity], Filter::All));
    assert!(seen.contains(&doomed));
    assert!(seen.contains(&other));
    assert!(world.is_alive(doomed));
    world.flush_commands().unwrap();
    assert!(!world.is_alive(doomed));
}

#[test]
fn query_entity_on_empty_world_yields_nothing() {
    let world = W::new();
    assert_eq!(build(&world, vec![Term::Entity], Filter::All).iter().len(), 0);
}

#[test]
fn query_entity_arity_three_component_read_tuple_joins_and_skips() {
    let mut world = W::new();
    let full = world.spawn().insert(A.id, 1).insert(B.id, 2).insert(C.id, 3).id();
    world.spawn().insert(A.id, 9).insert(B.id, 9);
    let q = build(
        &world,
        vec![Term::Entity, Term::Read(A), Term::Read(B), Term::Read(C)],
        Filter::All,
    );
    let rows: Vec<(Entity, i32, i32, i32)> = q
        .iter()
        .iter()
        .map(|r| (r.entity, value(r, 1), value(r, 2), value(r, 3)))
        .collect();
    assert_eq!(rows, vec![(full, 1, 2, 3)]);
    assert!(matches!(q.iter()[0].items[0], Fetched::Entity(id) if id == full));
}

#[test]
#[should_panic(expected = "conflicting access to component")]
fn query_entity_double_mut_same_type_panics() {
    let mut world = W::new();
    world.spawn().insert(POSITION.id, 0);
    let _q = build(
        &world,
        vec![Term::Entity, Term::Write(POSITION), Term::Write(POSITION)],
        Filter::All,
    );
}

#[test]
fn query_entity_after_respawn_yields_new_generation_not_stale() {
    let mut world = W::new();
    let a = world.spawn().id();
    world.despawn(a);
    let b = world.spawn().id();
    assert_eq!(a.index, b.index);
    assert_ne!(a, b);
    let seen = ids(&build(&world, vec![Term::Entity], Filter::All));
    assert_eq!(seen, vec![b]);
    assert!(!seen.contains(&a));
}

#[test]
fn query_get_entity_standalone_alive_checks_via_snapshot() {
    let mut world = W::new();
    let a = world.spawn().id();
    let b = world.spawn().id();
    world.despawn(a);
    let q = build(&world, vec![Term::Entity], Filter::All);
    assert_eq!(q.get(b).map(|r| r.entity), Some(b));
    assert!(q.get(a).is_none());
    let never = Entity::from_parts(9999, 0);
    assert!(q.get(never).is_none());
}

#[test]
fn query_get_three_component_join_is_all_or_nothing() {
    let mut world = W::new();
    let all = world.spawn().insert(A.id, 1).insert(B.id, 2).insert(C.id, 3).id();
    let missing_c = world.spawn().insert(A.id, 4).insert(B.id, 5).id();
    let missing_b = world.spawn().insert(A.id, 6).insert(C.id, 7).id();
    let q = build(&world, vec![Term::Read(A), Term::Read(B), Term::Read(C)], Filter::All);
    let row = q.get(all).unwrap();
    assert_eq!((value(&row, 0), value(&row, 1), value(&row, 2)), (1, 2, 3));
    assert!(q.get(missing_c).is_none());
    assert!(q.get(missing_b).is_none());
}

#[test]
fn query_get_many_entity_standalone_uses_snapshot_alive_check() {
    let mut world = W::new();
    let a = world.spawn().id();
    let b = world.spawn().id();
    world.despawn(a);
    let never = Entity::from_parts(9999, 0);
    let q = build(&world, vec![Term::Entity], Filter::All);
    let got = q.get_many(&[a, b, never]);
    assert!(got[0].is_none());
    assert_eq!(got[1].as_ref().map(|r| r.entity), Some(b));
    assert!(got[2].is_none());
}

#[test]
fn query_get_mut_entity_prefixed_writes_through() {
    let mut world = W::new();
    let e = world.spawn().insert(POSITION.id, 5).id();
    let target = build(&world, vec![Term::Entity, Term::Write(POSITION)], Filter::All)
        .get_mut(e)
        .unwrap();
    assert_eq!(target, e);
    *world.get_mut(target, POSITION.id).unwrap() += 100;
    assert_eq!(get(&world, e, POSITION), 105);
}

#[test]
fn query_three_tuple_joins_three_storages() {
    let mut world = W::new();
    world.spawn().insert(A.id, 1).insert(B.id, 2).insert(C.id, 3);
    world.spawn().insert(A.id, 10).insert(B.id, 20);
    world.spawn().insert(A.id, 100).insert(B.id, 200).insert(C.id, 300).insert(D.id, 400);
    let q = build(&world, vec![Term::Read(A), Term::Read(B), Term::Read(C)], Filter::All);
    let yielded: Vec<(i32, i32, i32)> =
        q.iter().iter().map(|r| (value(r, 0), value(r, 1), value(r, 2))).collect();
    assert_eq!(yielded.len(), 2);
    assert!(yielded.contains(&(1, 2, 3)));
    assert!(yielded.contains(&(100, 200, 300)));
    assert!(yielded.iter().all(|(a, _, _)| *a != 10));
}

#[test]
fn query_four_tuple_joins_four_storages() {
    let mut world = W::new();
    world.spawn().insert(A.id, 1).insert(B.id, 2).insert(C.id, 3).insert(D.id, 4);
    world.spawn().insert(A.id, 10).insert(B.id, 20).insert(C.id, 30);
    world.spawn().insert(A.id, 100).insert(B.id, 200).insert(C.id, 300).insert(D.id, 400);
    let q = build(
        &world,
        vec![Term::Read(A), Term::Read(B), Term::Read(C), Term::Read(D)],
        Filter::All,
    );
    let yielded: Vec<(i32, i32, i32, i32)> = q
        .iter()
        .iter()
        .map(|r| (value(r, 0), value(r, 1), value(r, 2), value(r, 3)))
        .collect();
    assert_eq!(yielded.len(), 2);
    assert!(yielded.contains(&(1, 2, 3, 4)));
    assert!(yielded.contains(&(100, 200, 300, 400)));
}

#[test]
#[should_panic(expected = "conflicting access to component")]
fn query_two_mut_tuple_same_type_panics_with_named_component() {
    let mut world = W::new();
    world.spawn().insert(POSITION.id, 0);
    let _q = build(&world, vec![Term::Write(POSITION), Term::Write(POSITION)], Filter::All);
}

#[test]
#[should_panic(expected = "conflicting access to component")]
fn query_mut_plus_read_same_type_panics_with_named_component() {
    let mut world = W::new();
    world.spawn().insert(POSITION.id, 0);
    let _q = build(&world, vec![Term::Write(POSITION), Term::Read(POSITION)], Filter::All);
}

#[test]
#[should_panic(expected = "conflicting access to component")]
fn query_arity_three_self_conflict_panics() {
    let mut world = W::new();
    world.spawn().insert(POSITION.id, 0).insert(VELOCITY.id, 0);
    let _q = build(
        &world,
        vec![Term::Write(POSITION), Term::Read(VELOCITY), Term::Read(POSITION)],
        Filter::All,
    );
}

#[test]
fn query_arity_four_multi_mut_writes_through_all_sides() {
    let mut world = W::new();
    let e = world.spawn().insert(A.id, 1).insert(B.id, 2).insert(C.id, 3).insert(D.id, 4).id();
    let shape = vec![Term::Write(A), Term::Write(B), Term::Write(C), Term::Write(D)];
    for (k, c) in [A, B, C, D].iter().enumerate() {
        write_each(&mut world, shape.clone(), *c, move |r| value(r, k) + 100);
    }
    assert_eq!(get(&world, e, A), 101);
    assert_eq!(get(&world, e, B), 102);
    assert_eq!(get(&world, e, C), 103);
    assert_eq!(get(&world, e, D), 104);
}

#[test]
fn query_arity_five_mixed_writes_through_mut_positions() {
    let mut world = W::new();
    let e = world
        .spawn()
        .insert(A.id, 1)
        .insert(B.id, 2)
        .insert(C.id, 3)
        .insert(D.id, 4)
        .insert(E.id, 5)
        .id();
    let shape = vec![Term::Read(A), Term::Write(B), Term::Read(C), Term::Write(D), Term::Read(E)];
    write_each(&mut world, shape.clone(), B, |r| value(r, 0) + value(r, 2) + value(r, 4));
    write_each(&mut world, shape, D, |r| value(r, 0) + value(r, 2) + value(r, 4));
    assert_eq!(get(&world, e, A), 1);
    assert_eq!(get(&world, e, B), 9);
    assert_eq!(get(&world, e, C), 3);
    assert_eq!(get(&world, e, D), 9);
    assert_eq!(get(&world, e, E), 5);
}

#[test]
#[should_panic(expected = "conflicting access to component")]
fn query_arity_three_multi_mut_self_conflict_panics() {
    let mut world = W::new();
    world.spawn().insert(POSITION.id, 0).insert(VELOCITY.id, 0);
    let _q = build(
        &world,
        vec![Term::Write(POSITION), Term::Write(POSITION), Term::Write(VELOCITY)],
        Filter::All,
    );
}

#[test]
#[should_panic(expected = "conflicting access to component")]
fn query_mut_not_first_self_conflict_panics() {
    let mut world = W::new();
    world.spawn().insert(POSITION.id, 0);
    let _q = build(&world, vec![Term::Read(POSITION), Term::Write(POSITION)], Filter::All);
}

#[test]
fn query_arity_three_mixed_combinations_write_only_through_mut_positions() {
    let mut world = W::new();
    let e = world.spawn().insert(A.id, 1).insert(B.id, 2).insert(C.id, 3).id();
    write_each(&mut world, vec![Term::Read(A), Term::Read(B), Term::Write(C)], C, |r| {
        value(r, 0) + value(r, 1)
    });
    assert_eq!((get(&world, e, A), get(&world, e, B), get(&world, e, C)), (1, 2, 3));
    let shape = vec![Term::Write(A), Term::Write(B), Term::Read(C)];
    write_each(&mut world, shape.clone(), A, |r| value(r, 2) * 10);
    write_each(&mut world, shape, B, |r| value(r, 2) * 20);
    assert_eq!((get(&world, e, A), get(&world, e, B), get(&world, e, C)), (30, 60, 3));
    let shape = vec![Term::Write(A), Term::Read(B), Term::Write(C)];
    write_each(&mut world, shape.clone(), A, |r| value(r, 1) + 100);
    write_each(&mut world, shape, C, |r| value(r, 1) + 200);
    assert_eq!((get(&world, e, A), get(&world, e, B), get(&world, e, C)), (160, 60, 260));
    let shape = vec![Term::Read(A), Term::Write(B), Term::Write(C)];
    write_each(&mut world, shape.clone(), B, |r| value(r, 0) + 1);
    write_each(&mut world, shape, C, |r| value(r, 0) + 2);
    assert_eq!((get(&world, e, A), get(&world, e, B), get(&world, e, C)), (160, 161, 162));
}

#[test]
fn query_arity_four_mixed_combinations_write_only_through_mut_positions() {
    let mut world = W::new();
    let e = world.spawn().insert(A.id, 1).insert(B.id, 2).insert(C.id, 3).insert(D.id, 4).id();
    let all = |w: &W| (get(w, e, A), get(w, e, B), get(w, e, C), get(w, e, D));
    let shape = vec![Term::Write(A), Term::Write(B), Term::Read(C), Term::Read(D)];
    write_each(&mut world, shape.clone(), A, |r| value(r, 2) + value(r, 3));
    write_each(&mut world, shape, B, |r| value(r, 2) * value(r, 3));
    assert_eq!(all(&world), (7, 12, 3, 4));
    let shape = vec![Term::Read(A), Term::Write(B), Term::Write(C), Term::Write(D)];
    write_each(&mut world, shape.clone(), B, |r| value(r, 0) + 100);
    write_each(&mut world, shape.clone(), C, |r| value(r, 0) + 200);
    write_each(&mut world, shape, D, |r| value(r, 0) + 300);
    assert_eq!(all(&world), (7, 107, 207, 307));
    let shape = vec![Term::Write(A), Term::Read(B), Term::Write(C), Term::Write(D)];
    write_each(&mut world, shape.clone(), A, |r| value(r, 1) + 1000);
    write_each(&mut world, shape.clone(), C, |r| value(r, 1) + 2000);
    write_each(&mut world, shape, D, |r| value(r, 1) + 3000);
    assert_eq!(all(&world), (1107, 107, 2107, 3107));
    let shape = vec![Term::Read(A), Term::Write(B), Term::Read(C), Term::Write(D)];
    let (b_new, d_new) = {
        let q = build(&world, shape, Filter::All);
        let row = &q.iter()[0];
        (value(row, 0) - value(row, 2), value(row, 0) - value(row, 2))
    };
    *world.get_mut(e, B.id).unwrap() = b_new;
    *world.get_mut(e, D.id).unwrap() = d_new;
    assert_eq!(all(&world), (1107, -1000, 2107, -1000));
}

#[test]
#[should_panic(expected = "conflicting access to component")]
fn query_arity_four_self_conflict_panics() {
    let mut world = W::new();
    world.spawn().insert(A.id, 0).insert(B.id, 0).insert(C.id, 0).insert(D.id, 0);
    let _q = build(
        &world,
        vec![Term::Write(A), Term::Read(B), Term::Read(C), Term::Write(A)],
        Filter::All,
    );
}

#[test]
fn dense_join_aliasing_stress_writes_each_slot_once() {
    let mut world = W::new();
    let mut ids = Vec::new();
    for i in 0..256 {
        ids.push(world.spawn().insert(A.id, i).insert(B.id, i * 10).id());
    }
    let hits = build(&world, vec![Term::Write(A), Term::Write(B)], Filter::All).iter_mut();
    assert_eq!(hits.len(), ids.len(), "every A and B entity visited exactly once");
    for e in hits {
        *world.get_mut(e, A.id).unwrap() += 1;
        *world.get_mut(e, B.id).unwrap() += 1;
    }
    for (i, &e) in ids.iter().enumerate() {
        let i = i32::try_from(i).unwrap();
        assert_eq!(get(&world, e, A), i + 1);
        assert_eq!(get(&world, e, B), i * 10 + 1);
    }
}

#[test]
#[should_panic(expected = "conflicting access to component")]
fn query_mut_data_with_same_component_filter_panics() {
    let mut world = W::new();
    world.spawn().insert(POSITION.id, 0);
    let _q = build(&world, vec![Term::Write(POSITION)], Filter::With(POSITION));
}

#[test]
fn query_mut_data_without_same_component_does_not_conflict() {
    let mut world = W::new();
    world.spawn().insert(VELOCITY.id, 0);
    let q = build(&world, vec![Term::Write(POSITION)], Filter::Without(POSITION));
    assert_eq!(q.iter_mut().len(), 0);
}

#[test]
fn query_ref_single_component_walks_every_entity() {
    let (world, _) = world_with_three_movers();
    let q = build(&world, vec![Term::Read(POSITION)], Filter::All);
    let xs: Vec<i32> = q.iter().iter().map(|r| value(r, 0)).collect();
    assert_eq!(xs, vec![0, 10, 20]);
}

#[test]
fn query_filter_mismatch_hides_entity_from_get() {
    let (world, [a, b, _]) = world_with_three_movers();
    let q = build(&world, vec![Term::Read(POSITION)], Filter::Without(VELOCITY));
    assert!(q.get(a).is_none());
    assert!(q.get_mut(b).is_none());
    assert_eq!(q.iter().len(), 0);
}

#[test]
#[should_panic(expected = "already borrowed")]
fn two_mut_queries_over_same_type_panic_on_second_fetch() {
    let (world, _) = world_with_three_movers();
    let q_a = build(&world, vec![Term::Write(POSITION)], Filter::All);
    let q_b = build(&world, vec![Term::Write(POSITION)], Filter::All);
    let mut access = Access::new();
    q_a.collect_access(&mut access);
    q_b.collect_access(&mut access);
    if let Err(c) = access.assert_no_self_conflict() {
        panic!("component `{}` already borrowed mutably by another query", c.name);
    }
}

fn optional(row: &Row<'_, i32>, k: usize) -> Option<i32> {
    match row.items[k] {
        Fetched::Optional(o) => o.copied(),
        _ => panic!("not an optional"),
    }
}

#[test]
fn query_get_option_standalone_alive_checks_via_snapshot() {
    let mut world = W::new();
    let with_pos = world.spawn().insert(POSITION.id, 5).id();
    let without = world.spawn().id();
    let stale = world.spawn().id();
    world.despawn(stale);
    let q = build(&world, vec![Term::OptRead(POSITION)], Filter::All);
    assert_eq!(q.get(with_pos).map(|r| optional(&r, 0)), Some(Some(5)));
    assert_eq!(q.get(without).map(|r| optional(&r, 0)), Some(None));
    assert!(q.get(stale).is_none());
    assert!(q.get(Entity::from_parts(999, 0)).is_none());
}

#[test]
fn query_get_many_option_standalone_distinguishes_some_none_from_none() {
    let mut world = W::new();
    let with_pos = world.spawn().insert(POSITION.id, 5).id();
    let without = world.spawn().id();
    let stale = world.spawn().id();
    world.despawn(stale);
    let q = build(&world, vec![Term::OptRead(POSITION)], Filter::All);
    let got = q.get_many(&[with_pos, without, stale, with_pos]);
    assert_eq!(got[0].as_ref().map(|r| optional(r, 0)), Some(Some(5)));
    assert_eq!(got[1].as_ref().map(|r| optional(r, 0)), Some(None));
    assert!(got[2].is_none());
    assert_eq!(got[3].as_ref().map(|r| optional(r, 0)), Some(Some(5)));
    assert_eq!(q.get_many(&[]).len(), 0);
}
