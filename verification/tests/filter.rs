use spark_ecs::access::{Access, Entry, QueryAccess};
use spark_ecs::commands::SetTo;
use spark_ecs::entity::Entity;
use spark_ecs::filter::{is_changed_since, Filter};
use spark_ecs::world::World;

type W = World<u32, SetTo<u32>>;

const A: Entry = Entry { id: 0, name: "A" };
const B: Entry = Entry { id: 1, name: "B" };
const C: Entry = Entry { id: 2, name: "C" };

fn world_abc() -> (W, Entity, Entity, Entity) {
    let mut world = W::new();
    let only_a = world.spawn().insert(A.id, 0).id();
    let a_and_b = world.spawn().insert(A.id, 0).insert(B.id, 0).id();
    let a_and_c = world.spawn().insert(A.id, 0).insert(C.id, 0).id();
    (world, only_a, a_and_b, a_and_c)
}

/// Evaluates the filter with `baseline` parked as the running system's
/// per-component baselines.
fn matches_with(world: &mut W, f: &Filter, e: Entity, baseline: &[(u32, u32)]) -> bool {
    let access = Access::new();
    let mut last_seen = baseline.to_vec();
    let outer = world.begin_system(&access, &last_seen);
    let result = f.matches(world, e);
    world.end_system(&access, outer, &mut last_seen);
    result
}

#[test]
fn changed_since_basic_ordering() {
    assert!(is_changed_since(10, 10, 5), "fresh write, older baseline");
    assert!(!is_changed_since(10, 3, 5), "write strictly before baseline");
}

#[test]
fn changed_since_strict_edge_tick_equals_baseline_is_not_changed() {
    for current in [0u32, 1, 100, u32::MAX - 1, u32::MAX] {
        assert!(!is_changed_since(current, 42, 42), "current = {current}");
    }
}

#[test]
fn changed_since_detects_across_a_wrap() {
    assert!(is_changed_since(0, 0, u32::MAX - 1));
}

#[test]
fn changed_since_window_is_the_full_u32_range_not_half() {
    let t = 100u32;
    let fresh = |staleness: u32| {
        let current = t.wrapping_add(staleness);
        is_changed_since(current, current, t)
    };
    assert!(fresh(1), "just after baseline");
    assert!(fresh(1 << 31), "2^31 stale");
    assert!(fresh((1 << 31) + 1), "2^31 + 1 stale");
    assert!(fresh(u32::MAX), "2^32 - 1 stale");
}

#[test]
fn changed_since_residual_false_negative_only_at_a_full_lap() {
    let t = 100u32;
    let current = t;
    assert!(!is_changed_since(current, current, t));
}

#[test]
fn unit_filter_matches_everything() {
    let (world, only_a, a_and_b, _) = world_abc();
    assert!(Filter::All.matches(&world, only_a));
    assert!(Filter::All.matches(&world, a_and_b));
}

#[test]
fn with_matches_only_entities_having_component() {
    let (world, only_a, a_and_b, _) = world_abc();
    assert!(Filter::With(B).matches(&world, a_and_b));
    assert!(!Filter::With(B).matches(&world, only_a));
}

#[test]
fn with_unknown_component_matches_nobody() {
    let mut world = W::new();
    let e = world.spawn().insert(A.id, 0).id();
    assert!(!Filter::With(B).matches(&world, e));
}

#[test]
fn without_matches_entities_lacking_component() {
    let (world, only_a, a_and_b, _) = world_abc();
    assert!(Filter::Without(B).matches(&world, only_a));
    assert!(!Filter::Without(B).matches(&world, a_and_b));
}

#[test]
fn without_unknown_component_matches_everyone() {
    let mut world = W::new();
    let e = world.spawn().insert(A.id, 0).id();
    assert!(Filter::Without(C).matches(&world, e));
}

#[test]
fn and_requires_all_branches() {
    let (world, only_a, a_and_b, _) = world_abc();
    let f = Filter::And(vec![Filter::With(A), Filter::Without(B)]);
    assert!(f.matches(&world, only_a));
    assert!(!f.matches(&world, a_and_b));
}

#[test]
fn or_requires_any_branch() {
    let (world, only_a, a_and_b, a_and_c) = world_abc();
    let f = Filter::Or(vec![Filter::With(B), Filter::With(C)]);
    assert!(f.matches(&world, a_and_b));
    assert!(f.matches(&world, a_and_c));
    assert!(!f.matches(&world, only_a));
}

#[test]
fn nested_and_of_or_composes() {
    let f = Filter::And(vec![
        Filter::With(A),
        Filter::Or(vec![Filter::With(B), Filter::With(C)]),
    ]);
    let (world, only_a, a_and_b, a_and_c) = world_abc();
    assert!(f.matches(&world, a_and_b));
    assert!(f.matches(&world, a_and_c));
    assert!(!f.matches(&world, only_a));
}

#[test]
fn with_reports_a_read_of_its_component() {
    let mut access = QueryAccess::new();
    access.add_write(A.id, A.name);
    Filter::With(A).collect_access(&mut access);
    assert!(access.assert_no_self_conflict().is_err(), "With<A> should report a read of A");
}

#[test]
fn without_reports_no_access() {
    let mut access = QueryAccess::new();
    access.add_write(A.id, A.name);
    Filter::Without(A).collect_access(&mut access);
    assert!(access.assert_no_self_conflict().is_ok());
}

#[test]
fn and_unions_child_access() {
    let mut access = QueryAccess::new();
    access.add_write(B.id, B.name);
    Filter::And(vec![Filter::With(A), Filter::With(B)]).collect_access(&mut access);
    assert!(access.assert_no_self_conflict().is_err(), "And should union child access");
}

#[test]
fn changed_matches_when_clock_is_past_baseline() {
    let mut world = W::new();
    let e = world.spawn().insert(A.id, 0).id();
    assert!(matches_with(&mut world, &Filter::Changed(A), e, &[(A.id, 1)]));
    assert!(!matches_with(&mut world, &Filter::Changed(A), e, &[(A.id, 2)]));
}

#[test]
fn added_is_one_shot_but_changed_repeats() {
    let mut world = W::new();
    let e = world.spawn().insert(A.id, 0).id();
    world.insert(e, A.id, 0);
    assert!(!matches_with(&mut world, &Filter::Added(A), e, &[(A.id, 2)]));
    assert!(matches_with(&mut world, &Filter::Changed(A), e, &[(A.id, 2)]));
}

#[test]
fn change_filters_compose_with_combinators() {
    let (mut world, only_a, a_and_b, _a_and_c) = world_abc();
    let and = Filter::And(vec![Filter::With(A), Filter::Changed(B)]);
    assert!(matches_with(&mut world, &and, a_and_b, &[(A.id, 0), (B.id, 0)]));
    assert!(!matches_with(&mut world, &and, only_a, &[(A.id, 0), (B.id, 0)]));
    let or = Filter::Or(vec![Filter::Added(B), Filter::Added(C)]);
    assert!(matches_with(&mut world, &or, a_and_b, &[(B.id, 0), (C.id, 0)]));
    assert!(!matches_with(&mut world, &or, only_a, &[(B.id, 0), (C.id, 0)]));
}

#[test]
fn change_filters_on_unknown_component_match_nobody() {
    let mut world = W::new();
    let e = world.spawn().insert(A.id, 0).id();
    assert!(!matches_with(&mut world, &Filter::Changed(B), e, &[]));
    assert!(!matches_with(&mut world, &Filter::Added(B), e, &[]));
}

#[test]
fn candidate_len_of_or_sums_its_arms_and_materializes_a_union() {
    let (world, only_a, a_and_b, a_and_c) = world_abc();
    let or = Filter::Or(vec![Filter::With(A), Filter::With(B)]);
    assert_eq!(or.candidate_len(&world), Some(4));
    assert_eq!(or.candidate_materialize(&world), Some(vec![only_a, a_and_b, a_and_c]));
    let with_b = Filter::With(B);
    assert_eq!(with_b.candidate_len(&world), Some(1));
    assert_eq!(Filter::Without(B).candidate_len(&world), None);
}
