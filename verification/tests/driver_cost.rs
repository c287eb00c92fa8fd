use spark_ecs::access::{Access, Entry};
use spark_ecs::commands::SetTo;
use spark_ecs::entity::Entity;
use spark_ecs::filter::Filter;
use spark_ecs::query::{Fetched, Query, Row, Term};
use spark_ecs::world::World;

type W = World<i32, SetTo<i32>>;

const BIG_C: Entry = Entry { id: 0, name: "Big" };
const SMALL_C: Entry = Entry { id: 1, name: "Small" };
const ONE_C: Entry = Entry { id: 2, name: "One" };
const PHANTOM_C: Entry = Entry { id: 3, name: "Phantom" };
const VAL_C: Entry = Entry { id: 4, name: "Val" };
const TAG_C: Entry = Entry { id: 5, name: "Tag" };
const VAL2_C: Entry = Entry { id: 6, name: "Val2" };
const TRIO_C: Entry = Entry { id: 7, name: "Trio" };

const BIG: usize = 10_000;
const SMALL: usize = 50;
const LIVE: usize = BIG + 1;

fn world() -> W {
    let mut w = W::new();
    for i in 0..BIG {
        let e = w.spawn().insert(BIG_C.id, 0).id();
        if i < SMALL {
            w.insert(e, SMALL_C.id, 0);
        }
    }
    w.spawn().insert(ONE_C.id, 0);
    w
}

fn query<'w>(w: &'w W, shape: Vec<Term>, f: Filter) -> Query<'w, i32, SetTo<i32>> {
    Query::from_world(w, shape, f)
}

/// (rows yielded, driver steps walked)
fn run(w: &W, shape: Vec<Term>, f: Filter) -> (usize, usize) {
    let q = query(w, shape, f);
    (q.iter().len(), q.driver_steps())
}

fn with(c: Entry) -> Filter {
    Filter::With(c)
}

fn value(row: &Row<'_, i32>, k: usize) -> i32 {
    match row.items[k] {
        Fetched::Value(v) => *v,
        _ => panic!("not a value"),
    }
}

#[test]
fn entity_with_filter_drives_filter_population() {
    let w = world();
    let (count, n) = run(&w, vec![Term::Entity], with(SMALL_C));
    assert_eq!(count, SMALL);
    assert_eq!(n, SMALL);
}

#[test]
fn ref_with_filter_drives_smaller_of_data_and_filter() {
    let w = world();
    let (count, n) = run(&w, vec![Term::Read(BIG_C)], with(SMALL_C));
    assert_eq!(count, SMALL);
    assert_eq!(n, SMALL);
}

#[test]
fn tuple_drives_smallest_component_even_when_not_first() {
    let w = world();
    let (count, n) = run(&w, vec![Term::Read(BIG_C), Term::Read(SMALL_C)], Filter::All);
    assert_eq!(count, SMALL);
    assert_eq!(n, SMALL);
}

#[test]
fn tuple_first_element_smallest_keeps_direct_path() {
    let w = world();
    let (count, n) = run(&w, vec![Term::Read(SMALL_C), Term::Read(BIG_C)], Filter::All);
    assert_eq!(count, SMALL);
    assert_eq!(n, SMALL);
}

#[test]
fn entity_prefixed_tuple_drives_smallest_component() {
    let w = world();
    let (count, n) = run(
        &w,
        vec![Term::Entity, Term::Read(BIG_C), Term::Read(SMALL_C)],
        Filter::All,
    );
    assert_eq!(count, SMALL);
    assert_eq!(n, SMALL);
}

#[test]
fn optional_element_offers_no_candidate_and_never_drives() {
    let w = world();
    let (count, n) = run(&w, vec![Term::Read(BIG_C), Term::OptRead(SMALL_C)], Filter::All);
    assert_eq!(count, BIG);
    assert_eq!(n, BIG);
}

#[test]
fn required_drives_with_optional_riding_along() {
    let w = world();
    let (count, n) = run(&w, vec![Term::Read(SMALL_C), Term::OptRead(BIG_C)], Filter::All);
    assert_eq!(count, SMALL);
    assert_eq!(n, SMALL);
}

#[test]
fn optional_at_arity_three_never_drives_smallest_required_does() {
    let w = world();
    let (count, n) = run(
        &w,
        vec![Term::Read(BIG_C), Term::Read(SMALL_C), Term::OptRead(ONE_C)],
        Filter::All,
    );
    assert_eq!(count, SMALL);
    assert_eq!(n, SMALL);
}

#[test]
fn non_first_driver_resolves_optional_values_correctly() {
    let mut w = world();
    w.spawn().insert(BIG_C.id, 0).insert(SMALL_C.id, 0).insert(ONE_C.id, 0);
    let q = query(
        &w,
        vec![Term::Read(BIG_C), Term::Read(SMALL_C), Term::OptRead(ONE_C)],
        Filter::All,
    );
    let (mut some, mut none) = (0usize, 0usize);
    for row in q.iter() {
        match row.items[2] {
            Fetched::Optional(Some(_)) => some += 1,
            Fetched::Optional(None) => none += 1,
            _ => panic!("optional term yields an optional"),
        }
    }
    assert_eq!(some, 1);
    assert_eq!(none, SMALL);
}

#[test]
fn filter_drives_optional_bearing_data_shape() {
    let w = world();
    let (count, n) = run(&w, vec![Term::Read(BIG_C), Term::OptRead(ONE_C)], with(SMALL_C));
    assert_eq!(count, SMALL);
    assert_eq!(n, SMALL);
}

#[test]
fn mut_tuple_drives_smallest_component() {
    let w = world();
    let q = query(&w, vec![Term::Write(BIG_C), Term::Read(SMALL_C)], Filter::All);
    assert_eq!(q.iter_mut().len(), SMALL);
    assert_eq!(q.driver_steps(), SMALL);
}

#[test]
fn and_drives_smallest_arm() {
    let w = world();
    let (count, n) = run(
        &w,
        vec![Term::Entity],
        Filter::And(vec![with(SMALL_C), with(ONE_C)]),
    );
    assert_eq!(count, 0);
    assert_eq!(n, 1);
}

#[test]
fn and_with_data_drives_smallest_candidate_across_all() {
    let w = world();
    let (_count, n) = run(
        &w,
        vec![Term::Read(BIG_C)],
        Filter::And(vec![with(SMALL_C), with(ONE_C)]),
    );
    assert_eq!(n, 1);
}

#[test]
fn shallow_or_drives_deduplicated_union() {
    let w = world();
    let (count, n) = run(&w, vec![Term::Entity], Filter::Or(vec![with(SMALL_C), with(ONE_C)]));
    assert_eq!(count, SMALL + 1);
    assert_eq!(n, SMALL + 1);
}

#[test]
fn changed_drives_component_population_never_live_set() {
    let w = world();
    let (count, n) = run(&w, vec![Term::Read(BIG_C)], Filter::Changed(SMALL_C));
    assert_eq!(count, SMALL);
    assert_eq!(n, SMALL);
}

#[test]
fn added_drives_component_population() {
    let w = world();
    let (count, n) = run(&w, vec![Term::Read(BIG_C)], Filter::Added(SMALL_C));
    assert_eq!(count, SMALL);
    assert_eq!(n, SMALL);
}

#[test]
fn standalone_entity_drives_live_set() {
    let w = world();
    let (count, n) = run(&w, vec![Term::Entity], Filter::All);
    assert_eq!(count, LIVE);
    assert_eq!(n, LIVE);
}

#[test]
fn without_only_falls_back_to_live_set() {
    let w = world();
    let (count, n) = run(&w, vec![Term::Entity], Filter::Without(SMALL_C));
    assert_eq!(count, LIVE - SMALL);
    assert_eq!(n, LIVE);
}

#[test]
fn natural_form_matches_best_hand_rewrite() {
    let w = world();
    let (_, natural) = run(&w, vec![Term::Entity], with(SMALL_C));
    let (_, rewrite) = run(&w, vec![Term::Entity, Term::Read(SMALL_C)], Filter::All);
    assert_eq!(natural, rewrite);
    assert_eq!(natural, SMALL);
}

#[test]
fn driver_choice_preserves_result_set() {
    let w = world();
    let forward = query(&w, vec![Term::Read(BIG_C), Term::Read(SMALL_C)], Filter::All)
        .iter()
        .len();
    let reversed = query(&w, vec![Term::Read(SMALL_C), Term::Read(BIG_C)], Filter::All)
        .iter()
        .len();
    assert_eq!(forward, reversed);
    assert_eq!(forward, SMALL);
}

fn world_six_vals() -> (W, Vec<Entity>) {
    let mut w = W::new();
    let mut ids = Vec::new();
    for i in 0..6 {
        let e = w.spawn().insert(VAL_C.id, i).id();
        if i % 3 == 0 {
            w.insert(e, TAG_C.id, 0);
        }
        ids.push(e);
    }
    (w, ids)
}

fn vals(w: &W, ids: &[Entity], c: Entry) -> Vec<i32> {
    ids.iter().map(|&e| *w.get(e, c.id).unwrap()).collect()
}

#[test]
fn filter_driven_mut_writes_only_matching_values() {
    let (mut w, ids) = world_six_vals();
    let (hits, n) = {
        let q = query(&w, vec![Term::Write(VAL_C)], with(TAG_C));
        (q.iter_mut(), q.driver_steps())
    };
    for e in hits {
        *w.get_mut(e, VAL_C.id).unwrap() += 100;
    }
    assert_eq!(n, 2);
    assert_eq!(vals(&w, &ids, VAL_C), vec![100, 1, 2, 103, 4, 5]);
}

#[test]
fn entity_prefixed_mut_drives_smallest_and_writes_through() {
    let (mut w, ids) = world_six_vals();
    let (hits, n) = {
        let q = query(
            &w,
            vec![Term::Entity, Term::Write(VAL_C), Term::Read(TAG_C)],
            Filter::All,
        );
        (q.iter_mut(), q.driver_steps())
    };
    assert_eq!(hits.len(), 2);
    for e in hits {
        *w.get_mut(e, VAL_C.id).unwrap() += 100;
    }
    assert_eq!(n, 2);
    assert_eq!(vals(&w, &ids, VAL_C), vec![100, 1, 2, 103, 4, 5]);
}

#[test]
fn or_with_absent_arm_drives_only_the_present_arm() {
    let w = world();
    let (count, n) = run(
        &w,
        vec![Term::Entity],
        Filter::Or(vec![with(SMALL_C), with(PHANTOM_C)]),
    );
    assert_eq!(count, SMALL);
    assert_eq!(n, SMALL);
}

#[test]
fn and_with_negative_arm_drives_the_positive_arm() {
    let w = world();
    let (count, n) = run(
        &w,
        vec![Term::Entity],
        Filter::And(vec![with(SMALL_C), Filter::Without(BIG_C)]),
    );
    assert_eq!(count, 0);
    assert_eq!(n, SMALL);
}

#[test]
fn equal_population_tie_breaks_to_earliest_element() {
    const L: Entry = Entry { id: 0, name: "L" };
    const R: Entry = Entry { id: 1, name: "R" };
    let mut w = W::new();
    let e0 = w.spawn().insert(L.id, 0).id();
    let e1 = w.spawn().insert(L.id, 1).id();
    let e2 = w.spawn().insert(L.id, 2).id();
    w.insert(e2, R.id, 0);
    w.insert(e1, R.id, 0);
    w.insert(e0, R.id, 0);
    let forward: Vec<i32> = query(&w, vec![Term::Read(L), Term::Read(R)], Filter::All)
        .iter()
        .iter()
        .map(|row| value(row, 0))
        .collect();
    assert_eq!(forward, vec![0, 1, 2]);
    let reversed: Vec<i32> = query(&w, vec![Term::Read(R), Term::Read(L)], Filter::All)
        .iter()
        .iter()
        .map(|row| value(row, 1))
        .collect();
    assert_eq!(reversed, vec![2, 1, 0]);
}

#[test]
fn or_filter_plan_replays_identically_on_second_iter() {
    let w = world();
    let q = query(&w, vec![Term::Entity], Filter::Or(vec![with(SMALL_C), with(ONE_C)]));
    let first: Vec<Entity> = q.iter().iter().map(|r| r.entity).collect();
    let second: Vec<Entity> = q.iter().iter().map(|r| r.entity).collect();
    assert_eq!(first, second);
    assert_eq!(q.driver_steps(), SMALL + 1);
}

#[test]
fn non_first_data_driver_replays_on_second_iter_mut() {
    let w = world();
    let q = query(&w, vec![Term::Write(BIG_C), Term::Read(SMALL_C)], Filter::All);
    let first = q.iter_mut().len();
    let second = q.iter_mut().len();
    assert_eq!(first, SMALL);
    assert_eq!(second, SMALL);
    assert_eq!(q.driver_steps(), SMALL);
}

#[test]
fn or_three_arms_drives_union_of_all_three() {
    let mut w = world();
    for _ in 0..3 {
        w.spawn().insert(TRIO_C.id, 0);
    }
    let (count, n) = run(
        &w,
        vec![Term::Entity],
        Filter::Or(vec![with(SMALL_C), with(ONE_C), with(TRIO_C)]),
    );
    assert_eq!(count, SMALL + 1 + 3);
    assert_eq!(n, SMALL + 1 + 3);
}

#[test]
fn multi_mut_tuple_drives_smaller_and_writes_both() {
    let mut w = W::new();
    let mut ids = Vec::new();
    for i in 0..6 {
        let e = w.spawn().insert(VAL_C.id, i).id();
        if i % 3 == 0 {
            w.insert(e, VAL2_C.id, i * 10);
        }
        ids.push(e);
    }
    let (hits, n) = {
        let q = query(&w, vec![Term::Write(VAL_C), Term::Write(VAL2_C)], Filter::All);
        (q.iter_mut(), q.driver_steps())
    };
    for e in hits {
        *w.get_mut(e, VAL_C.id).unwrap() += 1;
        *w.get_mut(e, VAL2_C.id).unwrap() += 100;
    }
    assert_eq!(n, 2);
    assert_eq!(*w.get(ids[0], VAL_C.id).unwrap(), 1);
    assert_eq!(*w.get(ids[0], VAL2_C.id).unwrap(), 100);
    assert_eq!(*w.get(ids[3], VAL_C.id).unwrap(), 4);
    assert_eq!(*w.get(ids[3], VAL2_C.id).unwrap(), 130);
    assert_eq!(*w.get(ids[1], VAL_C.id).unwrap(), 1);
    assert_eq!(*w.get(ids[2], VAL_C.id).unwrap(), 2);
}

#[test]
fn or_mut_with_overlapping_arms_visits_each_entity_once() {
    const OA: Entry = Entry { id: 0, name: "OA" };
    const OB: Entry = Entry { id: 1, name: "OB" };
    const OD: Entry = Entry { id: 2, name: "OD" };
    let mut w = W::new();
    let e0 = w.spawn().insert(OA.id, 0).insert(OB.id, 0).insert(OD.id, 1).id();
    let e1 = w.spawn().insert(OA.id, 0).insert(OD.id, 2).id();
    let e2 = w.spawn().insert(OB.id, 0).insert(OD.id, 3).id();
    let others: Vec<(Entity, i32)> = (0..5)
        .map(|v| (w.spawn().insert(OD.id, 10 + v).id(), 10 + v))
        .collect();
    let (hits, n) = {
        let q = query(&w, vec![Term::Write(OD)], Filter::Or(vec![with(OA), with(OB)]));
        (q.iter_mut(), q.driver_steps())
    };
    for e in hits {
        *w.get_mut(e, OD.id).unwrap() += 100;
    }
    assert_eq!(n, 3);
    assert_eq!(*w.get(e0, OD.id).unwrap(), 101);
    assert_eq!(*w.get(e1, OD.id).unwrap(), 102);
    assert_eq!(*w.get(e2, OD.id).unwrap(), 103);
    for (e, expected) in others {
        assert_eq!(*w.get(e, OD.id).unwrap(), expected);
    }
}

#[test]
fn changed_driver_steps_equal_candidate_while_matches_trims() {
    let mut w = W::new();
    let mut small_ids = Vec::new();
    for _ in 0..5 {
        small_ids.push(w.spawn().insert(BIG_C.id, 0).insert(SMALL_C.id, 0).id());
    }
    for _ in 0..10 {
        w.spawn().insert(BIG_C.id, 0);
    }
    let baseline = w.storage(SMALL_C.id).unwrap().current_tick();
    w.insert(small_ids[0], SMALL_C.id, 0);
    w.insert(small_ids[1], SMALL_C.id, 0);
    let access = Access::new();
    let mut last_seen = vec![(SMALL_C.id, baseline)];
    let outer = w.begin_system(&access, &last_seen);
    let (results, steps) = {
        let q = query(&w, vec![Term::Read(BIG_C)], Filter::Changed(SMALL_C));
        (q.iter().len(), q.driver_steps())
    };
    w.end_system(&access, outer, &mut last_seen);
    assert_eq!(results, 2);
    assert_eq!(steps, 5);
}

#[test]
fn without_rejects_within_data_driven_query() {
    let w = world();
    let (count, n) = run(&w, vec![Term::Read(BIG_C)], Filter::Without(SMALL_C));
    assert_eq!(count, BIG - SMALL);
    assert_eq!(n, BIG);
}

#[test]
fn entity_prefixed_without_rejects_per_entity() {
    let w = world();
    let (count, n) = run(&w, vec![Term::Entity, Term::Read(BIG_C)], Filter::Without(SMALL_C));
    assert_eq!(count, BIG - SMALL);
    assert_eq!(n, BIG);
}

#[test]
fn and_changed_with_without_drives_the_changed_arm() {
    let w = world();
    let (count, n) = run(
        &w,
        vec![Term::Read(BIG_C)],
        Filter::And(vec![Filter::Changed(SMALL_C), Filter::Without(ONE_C)]),
    );
    assert_eq!(count, SMALL);
    assert_eq!(n, SMALL);
}
