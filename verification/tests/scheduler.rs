use spark_ecs::access::{Access, Entry};
use spark_ecs::commands::SetTo;
use spark_ecs::filter::Filter;
use spark_ecs::query::{Query, Term};
use spark_ecs::scheduler::{Schedule, SystemId};
use spark_ecs::system::IntoSystem;
use spark_ecs::world::{World, WorldView};

type W = World<u32, SetTo<u32>>;

const SCORE: u32 = 0;
const FRAME: u32 = 1;
const LOG: u32 = 2;
const POSITION: Entry = Entry { id: 0, name: "Position" };
const VELOCITY: Entry = Entry { id: 1, name: "Velocity" };
const TAG: Entry = Entry { id: 2, name: "Tag" };

struct TestSys {
    name: &'static str,
    res_reads: Vec<u32>,
    res_writes: Vec<u32>,
    comp_reads: Vec<Entry>,
    comp_writes: Vec<Entry>,
    body: fn(&mut W),
}

fn res_name(id: u32) -> &'static str {
    match id {
        SCORE => "Score",
        FRAME => "Frame",
        _ => "Log",
    }
}

impl IntoSystem<u32, SetTo<u32>> for TestSys {
    fn spec_access(&self) -> Access {
        self.access()
    }

    fn spec_name(&self) -> &'static str {
        self.name()
    }

    fn spec_run(&self, _before: WorldView<u32, SetTo<u32>>, _after: WorldView<u32, SetTo<u32>>) -> bool {
        true
    }

    fn name(&self) -> &'static str {
        self.name
    }

    fn access(&self) -> Access {
        let mut a = Access::new();
        for &r in &self.res_reads {
            a.add_resource_read(r, res_name(r));
        }
        for &r in &self.res_writes {
            a.add_resource_write(r, res_name(r));
        }
        for c in &self.comp_reads {
            a.components_mut().add_read(c.id, c.name);
        }
        for c in &self.comp_writes {
            a.components_mut().add_write(c.id, c.name);
        }
        a
    }

    fn run(&mut self, world: &mut W) {
        (self.body)(world)
    }
}

fn sys(name: &'static str, reads: &[u32], writes: &[u32], body: fn(&mut W)) -> TestSys {
    TestSys {
        name,
        res_reads: reads.to_vec(),
        res_writes: writes.to_vec(),
        comp_reads: Vec::new(),
        comp_writes: Vec::new(),
        body,
    }
}

fn comp_sys(name: &'static str, reads: &[Entry], writes: &[Entry]) -> TestSys {
    TestSys {
        name,
        res_reads: Vec::new(),
        res_writes: Vec::new(),
        comp_reads: reads.to_vec(),
        comp_writes: writes.to_vec(),
        body: noop,
    }
}

fn noop(_: &mut W) {}

fn bump(world: &mut W, r: u32, by: u32) {
    *world.resource_mut(r) += by;
}

fn bump_score(w: &mut W) {
    bump(w, SCORE, 1)
}

fn bump_frame_ten(w: &mut W) {
    bump(w, FRAME, 10)
}

fn log_first(w: &mut W) {
    let v = world_log(w);
    *w.resource_mut(LOG) = v * 10 + 1;
}

fn log_second(w: &mut W) {
    let v = world_log(w);
    *w.resource_mut(LOG) = v * 10 + 2;
}

fn world_log(w: &W) -> u32 {
    *w.resource(LOG)
}

fn spawn_two_tagged(w: &mut W) {
    let mut commands = w.commands();
    commands.spawn().insert(TAG.id, 0);
    commands.spawn().insert(TAG.id, 0);
}

fn count_with(world: &W, c: Entry) -> usize {
    Query::from_world(world, vec![Term::Read(c)], Filter::All)
        .iter()
        .len()
}

#[test]
fn empty_schedule_runs_and_flushes() {
    let mut world = W::new();
    let mut schedule: Schedule<TestSys> = Schedule::new();
    schedule.run(&mut world).unwrap();
    assert_eq!(schedule.batches().len(), 0);
}

#[test]
fn disjoint_systems_share_one_batch() {
    let mut schedule = Schedule::new();
    schedule.add_system(sys("touch_score", &[], &[SCORE], bump_score));
    schedule.add_system(sys("touch_frame", &[], &[FRAME], bump_frame_ten));
    assert_eq!(schedule.batches().len(), 1);
    assert_eq!(schedule.batches()[0].len(), 2);
}

#[test]
fn conflicting_systems_split_into_separate_batches() {
    let mut schedule = Schedule::new();
    schedule.add_system(sys("writer", &[], &[SCORE], bump_score));
    schedule.add_system(sys("reader", &[SCORE], &[], noop));
    let batches = schedule.batches();
    assert_eq!(batches.len(), 2);
    assert_eq!(batches[0], vec![SystemId(0)]);
    assert_eq!(batches[1], vec![SystemId(1)]);
}

#[test]
fn independent_system_packs_into_earliest_batch() {
    let mut schedule = Schedule::new();
    schedule.add_system(sys("write_score", &[], &[SCORE], bump_score));
    schedule.add_system(sys("read_score", &[SCORE], &[], noop));
    schedule.add_system(sys("read_frame", &[FRAME], &[], noop));
    let batches = schedule.batches();
    assert_eq!(batches.len(), 2);
    assert_eq!(batches[0], vec![SystemId(0), SystemId(2)]);
    assert_eq!(batches[1], vec![SystemId(1)]);
}

#[test]
fn component_query_conflicts_feed_batching() {
    let mut schedule = Schedule::new();
    schedule.add_system(comp_sys("move_pos", &[], &[POSITION]));
    schedule.add_system(comp_sys("read_pos", &[POSITION], &[]));
    assert_eq!(schedule.batches().len(), 2);
}

#[test]
fn query_over_disjoint_components_shares_a_batch() {
    let mut schedule = Schedule::new();
    schedule.add_system(comp_sys("move_pos", &[], &[POSITION]));
    schedule.add_system(comp_sys("move_vel", &[], &[VELOCITY]));
    assert_eq!(schedule.batches().len(), 1);
}

#[test]
fn access_aggregates_across_multiple_params() {
    let mut mover = sys("mover", &[FRAME], &[SCORE], noop);
    mover.comp_writes.push(POSITION);
    let mut schedule = Schedule::new();
    schedule.add_system(mover);
    schedule.add_system(comp_sys("reads_pos", &[POSITION], &[]));
    schedule.add_system(sys("reads_score", &[SCORE], &[], noop));
    schedule.add_system(comp_sys("moves_vel", &[], &[VELOCITY]));
    let batches = schedule.batches();
    assert_eq!(batches.len(), 2);
    assert_eq!(batches[0], vec![SystemId(0), SystemId(3)]);
    assert_eq!(batches[1], vec![SystemId(1), SystemId(2)]);
}

#[test]
fn conflict_chain_layers_into_three_batches() {
    let mut schedule = Schedule::new();
    schedule.add_system(sys("write_score", &[], &[SCORE], noop));
    schedule.add_system(sys("score_to_frame", &[SCORE], &[FRAME], noop));
    schedule.add_system(sys("read_frame", &[FRAME], &[], noop));
    let batches = schedule.batches();
    assert_eq!(batches.len(), 3);
    assert_eq!(batches[0], vec![SystemId(0)]);
    assert_eq!(batches[1], vec![SystemId(1)]);
    assert_eq!(batches[2], vec![SystemId(2)]);
}

#[test]
fn run_executes_every_system_once() {
    let mut world = W::new();
    world.add_resource(SCORE, 0);
    world.add_resource(FRAME, 0);
    let mut schedule = Schedule::new();
    schedule.add_system(sys("bump_score", &[], &[SCORE], bump_score));
    schedule.add_system(sys("bump_frame", &[], &[FRAME], bump_frame_ten));
    schedule.run(&mut world).unwrap();
    assert_eq!(*world.resource(SCORE), 1);
    assert_eq!(*world.resource(FRAME), 10);
}

#[test]
fn conflicting_systems_run_in_registration_order() {
    let mut world = W::new();
    world.add_resource(LOG, 0);
    let mut schedule = Schedule::new();
    schedule.add_system(sys("first", &[], &[LOG], log_first));
    schedule.add_system(sys("second", &[], &[LOG], log_second));
    schedule.run(&mut world).unwrap();
    assert_eq!(*world.resource(LOG), 12);
}

#[test]
fn run_flushes_commands_once_at_the_end() {
    let mut world = W::new();
    let mut schedule = Schedule::new();
    schedule.add_system(sys("spawn_two", &[], &[], spawn_two_tagged));
    schedule.run(&mut world).unwrap();
    assert_eq!(count_with(&world, TAG), 2);
}

#[test]
fn adding_a_system_rebuilds_the_batch_plan() {
    let mut schedule = Schedule::new();
    schedule.add_system(sys("a", &[], &[SCORE], noop));
    assert_eq!(schedule.batches().len(), 1);
    schedule.add_system(sys("b", &[], &[FRAME], noop));
    assert_eq!(schedule.batches()[0].len(), 2);
}

#[test]
fn system_names_track_registration() {
    let mut schedule = Schedule::new();
    schedule.add_system(sys("alpha", &[], &[], noop));
    schedule.add_system(sys("beta", &[], &[], noop));
    let names = schedule.system_names();
    assert_eq!(names.len(), 2);
    assert!(names[0].ends_with("alpha"));
    assert!(names[1].ends_with("beta"));
}

#[test]
fn batch_members_never_conflict_and_every_system_lands_once() {
    let mut schedule = Schedule::new();
    schedule.add_system(sys("s0", &[], &[SCORE], noop));
    schedule.add_system(sys("s1", &[SCORE], &[FRAME], noop));
    schedule.add_system(sys("s2", &[FRAME], &[], noop));
    schedule.add_system(sys("s3", &[LOG], &[], noop));
    schedule.add_system(sys("s4", &[], &[LOG, SCORE], noop));
    let plan: Vec<Vec<SystemId>> = schedule.batches().to_vec();
    let mut seen = Vec::new();
    for batch in &plan {
        for (i, a) in batch.iter().enumerate() {
            seen.push(a.0);
            for b in &batch[i + 1..] {
                assert!(schedule.access_of(a.0).compatible_with(schedule.access_of(b.0)));
            }
        }
    }
    seen.sort();
    assert_eq!(seen, vec![0, 1, 2, 3, 4]);
    assert_eq!(plan, vec![vec![SystemId(0), SystemId(3)], vec![SystemId(1)], vec![SystemId(2), SystemId(4)]]);
}

/// A system whose whole access is one query's: its shape, plus the reads
/// its filter makes.
struct QuerySys {
    shape: Vec<Term>,
    filter: fn() -> Filter,
}

impl IntoSystem<u32, SetTo<u32>> for QuerySys {
    fn spec_access(&self) -> Access {
        self.access()
    }

    fn spec_name(&self) -> &'static str {
        self.name()
    }

    fn spec_run(&self, _before: WorldView<u32, SetTo<u32>>, _after: WorldView<u32, SetTo<u32>>) -> bool {
        true
    }

    fn name(&self) -> &'static str {
        "query_system"
    }

    fn access(&self) -> Access {
        let world = W::new();
        let q = Query::from_world(&world, self.shape.clone(), (self.filter)());
        let mut a = Access::new();
        spark_ecs::system::SystemParam::collect_access(&q, &mut a);
        a
    }

    fn run(&mut self, _world: &mut W) {}
}

#[test]
fn filter_read_access_feeds_batching() {
    let mut schedule: Schedule<QuerySys> = Schedule::new();
    schedule.add_system(QuerySys { shape: vec![Term::Write(VELOCITY)], filter: || Filter::All });
    schedule.add_system(QuerySys { shape: vec![Term::Read(POSITION)], filter: || Filter::With(VELOCITY) });
    schedule.add_system(QuerySys { shape: vec![Term::Read(POSITION)], filter: || Filter::All });
    let batches = schedule.batches();
    assert_eq!(batches.len(), 2);
    assert_eq!(batches[0], vec![SystemId(0), SystemId(2)]);
    assert_eq!(batches[1], vec![SystemId(1)]);
}

#[test]
fn every_system_runs_exactly_once_per_run() {
    let mut world = W::new();
    world.add_resource(SCORE, 0);
    world.add_resource(FRAME, 0);
    let mut schedule = Schedule::new();
    schedule.add_system(sys("score", &[], &[SCORE], bump_score));
    schedule.add_system(sys("score_again", &[], &[SCORE], bump_score));
    schedule.add_system(sys("frame", &[], &[FRAME], bump_frame_ten));
    schedule.run(&mut world).unwrap();
    assert_eq!(*world.resource(SCORE), 2);
    assert_eq!(*world.resource(FRAME), 10);
    let order: Vec<SystemId> = schedule.batches().iter().flatten().copied().collect();
    assert_eq!(order, vec![SystemId(0), SystemId(2), SystemId(1)]);
}

#[test]
fn no_batch_is_empty_and_ranks_sit_one_above_their_highest_conflict() {
    let mut schedule = Schedule::new();
    schedule.add_system(sys("a", &[], &[SCORE], noop));
    schedule.add_system(sys("b", &[], &[FRAME], noop));
    schedule.add_system(sys("c", &[SCORE], &[LOG], noop));
    schedule.add_system(sys("d", &[FRAME, LOG], &[], noop));
    let batches = schedule.batches();
    assert!(batches.iter().all(|b| !b.is_empty()));
    assert_eq!(batches.len(), 3);
    assert_eq!(batches[0], vec![SystemId(0), SystemId(1)]);
    assert_eq!(batches[1], vec![SystemId(2)]);
    assert_eq!(batches[2], vec![SystemId(3)]);
}
