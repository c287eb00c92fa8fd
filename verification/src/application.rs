//! The [`Application`]: the engine's composition root. It owns the
//! [`World`], the startup steps, the systems of each [`Stage`], the
//! workloads of each stage, and the runner that takes over after startup.
//! Every capability is supplied by a [`Plugin`].
use vstd::prelude::*;

use crate::access::{Access, ConflictKind, Entry};
use crate::commands::ResourceUpdate;
use crate::scheduler::{Schedule, schedule_ran, spec_batches};
use crate::system::IntoSystem;
use crate::world::{World, WorldView, baseline_of, entry_ids, record_ticks, system_step};

verus! {

/// The engine-wide erased error that startup steps and runners return.
#[verifier::external_type_specification]
#[verifier::external_body]
pub struct ExEngineError(anyhow::Error);

/// Builds an engine error carrying `msg`.
///
/// Calls `anyhow::Error::msg`. Nothing is stated of the value: it also
/// carries a backtrace whose capture depends on the environment.
#[verifier::external_body]
fn engine_error(msg: &'static str) -> anyhow::Error {
    anyhow::Error::msg(msg)
}

/// The fixed per-frame phases, in execution order:
/// `First, Input, PreUpdate, FixedUpdate, Update, PostUpdate, Render,
/// Last`, with `Startup` once before the main loop.
#[derive(Debug, Clone, Copy, PartialEq, Eq, Hash, Structural)]
pub enum Stage {
    Startup,
    First,
    Input,
    PreUpdate,
    FixedUpdate,
    Update,
    PostUpdate,
    Render,
    Last,
}

/// Number of stages.
pub const STAGE_COUNT: usize = 9;

impl Stage {
    /// The stage's slot in per-stage tables.
    pub open spec fn spec_index(self) -> int {
        match self {
            Stage::Startup => 0,
            Stage::First => 1,
            Stage::Input => 2,
            Stage::PreUpdate => 3,
            Stage::FixedUpdate => 4,
            Stage::Update => 5,
            Stage::PostUpdate => 6,
            Stage::Render => 7,
            Stage::Last => 8,
        }
    }

    /// The stage's slot in per-stage tables.
    pub fn index(self) -> (i: usize)
        ensures
            i as int == self.spec_index(),
            i < STAGE_COUNT,
    {
        match self {
            Stage::Startup => 0,
            Stage::First => 1,
            Stage::Input => 2,
            Stage::PreUpdate => 3,
            Stage::FixedUpdate => 4,
            Stage::Update => 5,
            Stage::PostUpdate => 6,
            Stage::Render => 7,
            Stage::Last => 8,
        }
    }
}

/// Distinct stages occupy distinct slots.
pub proof fn law_stage_slots_are_distinct(a: Stage, b: Stage)
    ensures
        (a.spec_index() == b.spec_index()) == (a == b),
        0 <= a.spec_index() < STAGE_COUNT,
{
}

/// The world after event channel `ev` rotates: its pending sends become
/// readable and its write buffer empties; nothing else changes. A
/// missing channel leaves the world as it is.
pub open spec fn swapped<V, U>(w: WorldView<V, U>, ev: u32) -> WorldView<V, U> {
    if w.has_events(ev) {
        WorldView {
            events: w.events.update(
                ev as int,
                Some(
                    crate::events::EventsView {
                        previous: w.events[ev as int]->0.current,
                        current: Seq::empty(),
                    },
                ),
            ),
            ..w
        }
    } else {
        w
    }
}

/// A system registered with the application: one of the user's, or the
/// per-channel swap the application adds for each event type.
pub enum AppSystem<S> {
    User(S),
    SwapEvents(Entry),
}

/// The access of the swap system of channel `k`: one resource write of
/// `k`, nothing else.
pub open spec fn swap_access(a: Access, k: Entry) -> bool {
    &&& a.comps().reads.len() == 0
    &&& a.comps().writes.len() == 0
    &&& a.res().reads.len() == 0
    &&& a.res().writes == seq![k]
}

impl<V, U, S: IntoSystem<V, U>> IntoSystem<V, U> for AppSystem<S> {
    open spec fn spec_name(&self) -> &'static str {
        match self {
            AppSystem::User(s) => s.spec_name(),
            AppSystem::SwapEvents(_) => "swap_events",
        }
    }

    open spec fn spec_run(&self, before: WorldView<V, U>, after: WorldView<V, U>) -> bool {
        match self {
            AppSystem::User(s) => s.spec_run(before, after),
            AppSystem::SwapEvents(k) => after == swapped(before, k.id),
        }
    }

    fn name(&self) -> (n: &'static str)
    {
        match self {
            AppSystem::User(s) => s.name(),
            AppSystem::SwapEvents(_) => "swap_events",
        }
    }

    open spec fn spec_access(&self) -> Access {
        match self {
            AppSystem::User(s) => s.spec_access(),
            AppSystem::SwapEvents(k) => choose|a: Access| swap_access(a, *k),
        }
    }

    fn access(&self) -> (a: Access)
        ensures
            self matches AppSystem::SwapEvents(k) ==> swap_access(a, *k),
    {
        match self {
            AppSystem::User(s) => s.access(),
            AppSystem::SwapEvents(k) => {
                let mut a = Access::new();
                a.add_resource_write(k.id, k.name);
                proof {
                    assert(a.res().writes =~= seq![*k]);
                    assert(swap_access(a, *k));
                    let c = choose|c: Access| swap_access(c, *k);
                    assert(c.comps().reads =~= a.comps().reads);
                    assert(c.comps().writes =~= a.comps().writes);
                    assert(c.res().reads =~= a.res().reads);
                    assert(c.res().writes =~= a.res().writes);
                }
                a
            },
        }
    }

    fn run(&mut self, world: &mut World<V, U>)
        ensures
            *old(self) is SwapEvents ==> final(world)@ == swapped(
                old(world)@,
                old(self)->SwapEvents_0.id,
            ),
    {
        match self {
            AppSystem::User(s) => s.run(world),
            AppSystem::SwapEvents(k) => {
                let ghost w0 = world@;
                match world.events_mut(k.id) {
                    Some(ev) => {
                        ev.swap();
                    },
                    None => {},
                }
                proof {
                    if w0.has_events(k.id) {
                        assert(world@.events =~= swapped(w0, k.id).events);
                    }
                }
            },
        }
    }
}

/// A sequential system: its body, its declared access and its
/// per-component change-detection baselines.
pub struct StageSystem<S> {
    pub system: AppSystem<S>,
    pub access: Access,
    pub last_seen: Vec<(u32, u32)>,
}

impl<S> StageSystem<S> {
    /// Runs the system with per-component change detection.
    fn run_on<V, U>(&mut self, world: &mut World<V, U>) where S: IntoSystem<V, U>
        requires
            old(world).wf(),
        ensures
            final(world).wf(),
            final(self).access == old(self).access,
            final(world)@.baselines == old(world)@.baselines,
            system_step(old(self).system, old(self).access, old(self).last_seen@, old(world)@, final(world)@),
            final(self).last_seen@ == record_ticks(
                old(self).last_seen@,
                final(world)@.storages,
                entry_ids(old(self).access.comps().reads + old(self).access.comps().writes),
            ),
    {
        world.run_system(&self.access, &mut self.last_seen, &mut self.system);
    }
}

/// A named group of systems the scheduler batches by access.
pub struct Workload<S> {
    pub label: Entry,
    pub schedule: Schedule<AppSystem<S>>,
}

/// A fallible, world-independent initialisation step, run once during
/// [`Application::run`].
pub trait StartupSystem {
    /// The step succeeds.
    spec fn succeeds(&self) -> bool;

    /// Performs the step; it returns `Ok` exactly when it
    /// [`succeeds`](Self::succeeds).
    fn run(self) -> (r: Result<(), anyhow::Error>)
        ensures
            r is Ok <==> self.succeeds(),
    ;
}

/// What takes over after startup, typically a frame loop.
pub trait Runner<V, U, S, F>: Sized {
    /// What driving the application `app` comes to: `ok` tells whether
    /// the runner returned `Ok`.
    spec fn drives(&self, app: AppView<V, U, S, F, Self>, ok: bool) -> bool;

    /// Takes the application and drives it.
    fn run(self, app: Application<V, U, S, F, Self>) -> (r: Result<(), anyhow::Error>)
        requires
            app.wf(),
        ensures
            self.drives(app@, r is Ok),
    ;
}

/// A self-contained engine subsystem that registers its work.
pub trait Plugin<V, U, S, F, R> {
    /// What building this plugin makes of an application: holds of the
    /// application's state before and after [`build`](Self::build).
    spec fn builds(&self, before: AppView<V, U, S, F, R>, after: AppView<V, U, S, F, R>) -> bool;

    /// Registers this plugin's resources, systems and startup steps.
    /// Calls through the application's API keep it well-formed.
    fn build(&self, app: &mut Application<V, U, S, F, R>)
        requires
            old(app).wf(),
        ensures
            final(app).wf(),
            self.builds(old(app)@, final(app)@),
    ;
}

/// Why a stage could not run to the end.
#[derive(Debug, Clone, Copy, PartialEq, Eq)]
pub enum StageError {
    /// Two workloads of the stage touch the same type and nothing orders
    /// them: the first workload's label, the second's, the conflicting
    /// key and the kind of clash.
    Conflict(Entry, Entry, u32, ConflictKind),
    /// A queued update found its resource absent.
    AbsentResource(u32),
}

impl StageError {
    /// A one-line description of the error.
    pub fn message(&self) -> (m: &'static str)
        ensures
            m == match self {
                StageError::Conflict(_, _, _, ConflictKind::WriteWrite) => "conflict on write/write",
                StageError::Conflict(_, _, _, ConflictKind::WriteRead) => "conflict on write/read",
                StageError::AbsentResource(_) => "update of an absent resource",
            },
    {
        match self {
            StageError::Conflict(_, _, _, ConflictKind::WriteWrite) => "conflict on write/write",
            StageError::Conflict(_, _, _, ConflictKind::WriteRead) => "conflict on write/read",
            StageError::AbsentResource(_) => "update of an absent resource",
        }
    }
}

/// The abstract state of an [`Application`].
pub struct AppView<V, U, S, F, R> {
    pub world: WorldView<V, U>,
    pub startup: Seq<F>,
    /// Per stage, its sequential systems: access, baselines and body.
    pub stages: Seq<Seq<(Access, Seq<(u32, u32)>, AppSystem<S>)>>,
    /// Per stage, its workloads: label, and the accesses and bodies of
    /// their systems.
    pub workloads: Seq<Seq<(Entry, Seq<Access>, Seq<AppSystem<S>>)>>,
    pub runner: Option<R>,
}

/// The engine's composition root.
pub struct Application<V, U, S, F, R> {
    world: World<V, U>,
    startup: Vec<F>,
    stages: Vec<Vec<StageSystem<S>>>,
    schedules: Vec<Vec<Workload<S>>>,
    runner: Option<R>,
}

/// An application as [`Application::new`] makes it: an empty world, no
/// startup steps, no systems or workloads in any stage, no runner.
pub open spec fn is_fresh_app<V, U, S, F, R>(a: AppView<V, U, S, F, R>) -> bool {
    &&& crate::world::is_empty_world(a.world)
    &&& a.startup.len() == 0
    &&& a.stages.len() == STAGE_COUNT
    &&& a.workloads.len() == STAGE_COUNT
    &&& forall|i: int| 0 <= i < STAGE_COUNT ==> (#[trigger] a.stages[i]).len() == 0
    &&& forall|i: int| 0 <= i < STAGE_COUNT ==> (#[trigger] a.workloads[i]).len() == 0
    &&& a.runner is None
}

/// The sequential systems of one stage, as the view shows them.
pub open spec fn stage_view<S>(v: Seq<StageSystem<S>>) -> Seq<(Access, Seq<(u32, u32)>, AppSystem<S>)> {
    v.map_values(|x: StageSystem<S>| (x.access, x.last_seen@, x.system))
}

/// The workloads of one stage, as the view shows them.
pub open spec fn workloads_view<S>(v: Seq<Workload<S>>) -> Seq<(Entry, Seq<Access>, Seq<AppSystem<S>>)> {
    v.map_values(|x: Workload<S>| (x.label, x.schedule.accesses(), x.schedule.bodies()))
}

impl<V, U, S, F, R> View for Application<V, U, S, F, R> {
    type V = AppView<V, U, S, F, R>;

    closed spec fn view(&self) -> AppView<V, U, S, F, R> {
        AppView {
            world: self.world@,
            startup: self.startup@,
            stages: self.stages@.map_values(|v: Vec<StageSystem<S>>| stage_view(v@)),
            workloads: self.schedules@.map_values(|v: Vec<Workload<S>>| workloads_view(v@)),
            runner: self.runner,
        }
    }
}

/// Some system of `xs` cannot run beside some system of `ys`.
pub open spec fn accesses_clash(xs: Seq<Access>, ys: Seq<Access>) -> bool {
    exists|x: int, y: int|
        #![trigger xs[x], ys[y]]
        0 <= x < xs.len() && 0 <= y < ys.len() && !xs[x].compatible(&ys[y])
}

/// System `x` of `xs` and system `y` of `ys` are the first pair that
/// cannot run together, taking `xs` in order and, for each, `ys` in order.
pub open spec fn first_clash_at(xs: Seq<Access>, ys: Seq<Access>, x: int, y: int) -> bool {
    &&& 0 <= x < xs.len()
    &&& 0 <= y < ys.len()
    &&& !xs[x].compatible(&ys[y])
    &&& forall|x2: int, y2: int|
        #![trigger xs[x2], ys[y2]]
        0 <= x2 < xs.len() && 0 <= y2 < ys.len() && (x2 < x || (x2 == x && y2 < y))
            ==> xs[x2].compatible(&ys[y2])
}

/// `c` is the first conflict of the first clashing pair of `xs` and `ys`.
pub open spec fn first_clash_reports(xs: Seq<Access>, ys: Seq<Access>, c: (u32, ConflictKind)) -> bool {
    exists|x: int, y: int|
        #![trigger xs[x], ys[y]]
        first_clash_at(xs, ys, x, y) && c == xs[x].conflicts(&ys[y])[0]
}

/// Two workloads of a stage touch the same type in a clashing way.
pub open spec fn workloads_clash<S>(ws: Seq<(Entry, Seq<Access>, Seq<AppSystem<S>>)>) -> bool {
    exists|a: int, b: int, x: int, y: int|
        #![trigger ws[a].1[x], ws[b].1[y]]
        0 <= a < b < ws.len() && 0 <= x < ws[a].1.len() && 0 <= y < ws[b].1.len()
            && !ws[a].1[x].compatible(&ws[b].1[y])
}

/// Workloads `a` and `b` are the first clashing pair of `ws`, taking the
/// first workload in registration order and, for each, the later ones in
/// order.
pub open spec fn first_workload_clash<S>(ws: Seq<(Entry, Seq<Access>, Seq<AppSystem<S>>)>, a: int, b: int) -> bool {
    &&& 0 <= a < b < ws.len()
    &&& accesses_clash(ws[a].1, ws[b].1)
    &&& forall|a2: int, b2: int|
        #![trigger ws[a2], ws[b2]]
        0 <= a2 < b2 < ws.len() && (a2 < a || (a2 == a && b2 < b)) ==> !accesses_clash(
            ws[a2].1,
            ws[b2].1,
        )
}

/// `e` reports the first clash between workloads of `ws`: their two
/// labels, and the first conflict of their first clashing systems.
pub open spec fn clash_reports<S>(ws: Seq<(Entry, Seq<Access>, Seq<AppSystem<S>>)>, e: StageError) -> bool {
    exists|a: int, b: int|
        #![trigger ws[a], ws[b]]
        first_workload_clash(ws, a, b) && (e matches StageError::Conflict(la, lb, key, kind) && la
            == ws[a].0 && lb == ws[b].0 && first_clash_reports(ws[a].1, ws[b].1, (key, kind)))
}

/// The label `l` names a workload in `ws`.
pub open spec fn has_label<S>(ws: Seq<(Entry, Seq<Access>, Seq<AppSystem<S>>)>, l: u32) -> bool {
    exists|a: int| 0 <= a < ws.len() && (#[trigger] ws[a]).0.id == l
}

impl<V, U, S, F, R> Application<V, U, S, F, R> {
    /// The application's invariant: a well-formed world, one table per
    /// stage, and every workload's cached plan current.
    pub closed spec fn wf(&self) -> bool {
        &&& self.world.wf()
        &&& self.stages@.len() == STAGE_COUNT
        &&& self.schedules@.len() == STAGE_COUNT
        &&& forall|i: int, w: int|
            0 <= i < STAGE_COUNT && 0 <= w < self.schedules@[i]@.len() ==> (
            #[trigger] self.schedules@[i]@[w]).schedule.wf()
    }

    /// An empty application: no startup steps, systems, workloads or
    /// runner, and an empty world.
    pub fn new() -> (app: Self)
        ensures
            app.wf(),
            is_fresh_app(app@),
            crate::world::is_empty_world(app@.world),
            app@.startup.len() == 0,
            app@.stages.len() == STAGE_COUNT,
            app@.workloads.len() == STAGE_COUNT,
            forall|i: int| 0 <= i < STAGE_COUNT ==> (#[trigger] app@.stages[i]).len() == 0,
            forall|i: int| 0 <= i < STAGE_COUNT ==> (#[trigger] app@.workloads[i]).len() == 0,
            app@.runner is None,
    {
        let mut stages: Vec<Vec<StageSystem<S>>> = Vec::new();
        let mut schedules: Vec<Vec<Workload<S>>> = Vec::new();
        let mut i: usize = 0;
        while i < STAGE_COUNT
            invariant
                i <= STAGE_COUNT,
                stages@.len() == i,
                schedules@.len() == i,
                forall|k: int| 0 <= k < i ==> (#[trigger] stages@[k])@.len() == 0,
                forall|k: int| 0 <= k < i ==> (#[trigger] schedules@[k])@.len() == 0,
            decreases STAGE_COUNT - i,
        {
            stages.push(Vec::new());
            schedules.push(Vec::new());
            i += 1;
        }
        Application { world: World::new(), startup: Vec::new(), stages, schedules, runner: None }
    }

    /// Shared access to the world.
    pub fn world(&self) -> (w: &World<V, U>)
        ensures
            w@ == self@.world,
    {
        &self.world
    }

    /// Mutable access to the world, for registration-time seeding.
    pub fn world_mut(&mut self) -> (w: &mut World<V, U>)
        requires
            old(self).wf(),
        ensures
            (*w)@ == old(self)@.world,
            (*w).wf(),
            final(self)@ == (AppView { world: (*final(w))@, ..old(self)@ }),
            (*final(w)).wf() ==> final(self).wf(),
    {
        &mut self.world
    }

    /// Inserts resource `r`, overwriting a previous value.
    pub fn add_resource(&mut self, r: u32, value: V) -> (out: &mut Self)
        requires
            old(self).wf(),
        ensures
            (*out)@ == (AppView { world: old(self)@.world.after_add_resource(r, value), ..old(self)@ }),
            (*out).wf(),
            *final(out) == *final(self),
    {
        self.world.add_resource(r, value);
        self
    }

    /// Registers a startup step; steps run in registration order.
    pub fn add_startup_system(&mut self, f: F) -> (out: &mut Self)
        requires
            old(self).wf(),
        ensures
            (*out)@ == (AppView { startup: old(self)@.startup.push(f), ..old(self)@ }),
            (*out).wf(),
            *final(out) == *final(self),
    {
        self.startup.push(f);
        self
    }

    /// Installs the runner; the last call wins.
    pub fn set_runner(&mut self, runner: R) -> (out: &mut Self)
        requires
            old(self).wf(),
        ensures
            (*out)@ == (AppView { runner: Some(runner), ..old(self)@ }),
            (*out).wf(),
            *final(out) == *final(self),
    {
        self.runner = Some(runner);
        self
    }

    /// Registers a plugin by running its `build` at once.
    pub fn add_plugin<P: Plugin<V, U, S, F, R>>(&mut self, plugin: P) -> (out: &mut Self)
        requires
            old(self).wf(),
        ensures
            (*out).wf(),
            plugin.builds(old(self)@, (*out)@),
            *final(out) == *final(self),
    {
        plugin.build(self);
        self
    }
}

/// The clashes between two systems of different workloads, if any: the
/// first conflicting key and its kind.
fn schedules_clash<S>(a: &Schedule<AppSystem<S>>, b: &Schedule<AppSystem<S>>) -> (r: Option<
    (u32, ConflictKind),
>)
    ensures
        r is None <==> !accesses_clash(a.accesses(), b.accesses()),
        r matches Some(c) ==> first_clash_reports(a.accesses(), b.accesses(), c),
{
    let n = a.len();
    let m = b.len();
    let mut x: usize = 0;
    while x < n
        invariant
            n == a.accesses().len(),
            m == b.accesses().len(),
            x <= n,
            forall|x2: int, y2: int|
                #![trigger a.accesses()[x2], b.accesses()[y2]]
                0 <= x2 < x && 0 <= y2 < m ==> a.accesses()[x2].compatible(&b.accesses()[y2]),
        decreases n - x,
    {
        let mut y: usize = 0;
        while y < m
            invariant
                n == a.accesses().len(),
                m == b.accesses().len(),
                x < n,
                y <= m,
                forall|x2: int, y2: int|
                    #![trigger a.accesses()[x2], b.accesses()[y2]]
                    0 <= x2 < x && 0 <= y2 < m ==> a.accesses()[x2].compatible(&b.accesses()[y2]),
                forall|y2: int|
                    #![trigger b.accesses()[y2]]
                    0 <= y2 < y ==> a.accesses()[x as int].compatible(&b.accesses()[y2]),
            decreases m - y,
        {
            let found = a.access_of(x).find_conflicts(b.access_of(y));
            if found.len() > 0 {
                proof {
                    assert(first_clash_at(a.accesses(), b.accesses(), x as int, y as int));
                }
                return Some(found[0]);
            }
            y += 1;
        }
        x += 1;
    }
    None
}

impl<V, U, S, F, R> Application<V, U, S, F, R> {
    /// Registers `system` on `stage`; sequential systems of a stage run in
    /// registration order. The system's own parameters must not conflict
    /// (no type written twice, or written and read): check its access with
    /// [`Access::assert_no_self_conflict`].
    pub fn add_system(&mut self, stage: Stage, system: S) -> (out: &mut Self) where
        S: IntoSystem<V, U>,
        requires
            old(self).wf(),
            system.spec_access().no_self_conflict(),
        ensures
            (*out).wf(),
            *final(out) == *final(self),
            exists|a: Access|
                #![trigger a.no_self_conflict()]
                a.no_self_conflict() && a.comps() == system.spec_access().comps() && a.res()
                    == system.spec_access().res() && (*out)@ == (AppView {
                    stages: old(self)@.stages.update(
                        stage.spec_index(),
                        old(self)@.stages[stage.spec_index()].push(
                            (a, Seq::<(u32, u32)>::empty(), AppSystem::User(system)),
                        ),
                    ),
                    ..old(self)@
                }),
    {
        let sys: AppSystem<S> = AppSystem::User(system);
        let access = sys.access();
        let si = stage.index();
        let ghost prev = self.stages@;
        let entry = StageSystem { system: sys, access, last_seen: Vec::new() };
        proof {
            assert(entry.last_seen@ == Seq::<(u32, u32)>::empty());
        }
        self.stages[si].push(entry);
        proof {
            let want = old(self)@.stages.update(
                stage.spec_index(),
                old(self)@.stages[stage.spec_index()].push(
                    (access, Seq::<(u32, u32)>::empty(), AppSystem::User(system)),
                ),
            );
            assert(stage_view(self.stages@[si as int]@) =~= stage_view(prev[si as int]@).push(
                (access, Seq::<(u32, u32)>::empty(), AppSystem::User(system)),
            ));
            assert(self@.stages =~= want);
            assert(access.no_self_conflict());
        }
        self
    }

    /// Registers event channel `ev`: creates its buffers and adds the
    /// per-frame swap on [`Stage::Input`]. A second registration of the
    /// same channel changes nothing, so its buffers never rotate twice a
    /// frame.
    pub fn add_event(&mut self, ev: Entry) -> (out: &mut Self)
        requires
            old(self).wf(),
        ensures
            (*out).wf(),
            *final(out) == *final(self),
            (*out)@.world.has_events(ev.id),
            old(self)@.world.has_events(ev.id) ==> (*out)@ == old(self)@,
            !old(self)@.world.has_events(ev.id) ==> {
                &&& (*out)@.world.events[ev.id as int] == Some(
                    crate::events::EventsView::<V> { previous: Seq::empty(), current: Seq::empty() },
                )
                &&& (*out)@.world.events.len() >= old(self)@.world.events.len()
                &&& forall|i: int|
                    0 <= i < old(self)@.world.events.len() && i != ev.id ==> (*out)@.world.events[i]
                        == old(self)@.world.events[i]
                &&& forall|i: int|
                    old(self)@.world.events.len() <= i < (*out)@.world.events.len() && i != ev.id
                        ==> (*out)@.world.events[i] is None
                &&& (*out)@.world == (WorldView { events: (*out)@.world.events, ..old(self)@.world })
                &&& exists|a: Access|
                    #![trigger a.res()]
                    a.res().writes == seq![ev] && a.res().reads.len() == 0 && a.comps().reads.len()
                        == 0 && a.comps().writes.len() == 0 && (*out)@ == (AppView {
                        world: (*out)@.world,
                        stages: old(self)@.stages.update(
                            Stage::Input.spec_index(),
                            old(self)@.stages[Stage::Input.spec_index()].push(
                                (a, Seq::<(u32, u32)>::empty(), AppSystem::SwapEvents(ev)),
                            ),
                        ),
                        ..old(self)@
                    })
            },
    {
        if self.world.events(ev.id).is_some() {
            return self;
        }
        self.world.add_events(ev.id);
        let mut access = Access::new();
        access.add_resource_write(ev.id, ev.name);
        let si = Stage::Input.index();
        let ghost prev = self.stages@;
        let entry: StageSystem<S> = StageSystem {
            system: AppSystem::SwapEvents(ev),
            access,
            last_seen: Vec::new(),
        };
        proof {
            assert(entry.last_seen@ == Seq::<(u32, u32)>::empty());
            assert(access.res().writes =~= seq![ev]);
        }
        self.stages[si].push(entry);
        proof {
            assert(stage_view(self.stages@[si as int]@) =~= stage_view(prev[si as int]@).push(
                (access, Seq::<(u32, u32)>::empty(), AppSystem::SwapEvents(ev)),
            ));
            assert(self@.stages =~= old(self)@.stages.update(
                Stage::Input.spec_index(),
                old(self)@.stages[Stage::Input.spec_index()].push(
                    (access, Seq::<(u32, u32)>::empty(), AppSystem::SwapEvents(ev)),
                ),
            ));
        }
        self
    }

    /// `label` already names a workload of `stage`.
    pub fn has_workload(&self, stage: Stage, label: Entry) -> (r: bool)
        requires
            self.wf(),
        ensures
            r == has_label(self@.workloads[stage.spec_index()], label.id),
    {
        let si = stage.index();
        let count = self.schedules[si].len();
        let mut w: usize = 0;
        while w < count
            invariant
                si as int == stage.spec_index(),
                count == self@.workloads[si as int].len(),
                self.wf(),
                w <= count,
                forall|a: int| 0 <= a < w ==> (#[trigger] self@.workloads[si as int][a]).0.id != label.id,
            decreases count - w,
        {
            proof {
                assert(self@.workloads[si as int][w as int].0 == self.schedules@[si as int]@[w as int].label);
            }
            if self.schedules[si][w].label.id == label.id {
                return true;
            }
            w += 1;
        }
        false
    }

    /// Registers a workload labelled `label` on `stage`: its systems are
    /// batched by access within the workload. The label must not already
    /// name a workload of that stage (check with
    /// [`has_workload`](Self::has_workload)); other stages keep their own
    /// labels.
    pub fn add_workload(&mut self, label: Entry, stage: Stage, systems: Vec<S>) -> (out: &mut Self) where
        S: IntoSystem<V, U>,
        requires
            old(self).wf(),
            !has_label(old(self)@.workloads[stage.spec_index()], label.id),
        ensures
            (*out).wf(),
            *final(out) == *final(self),
            exists|accs: Seq<Access>|
                #![trigger accs.len()]
                {
                    &&& accs.len() == systems@.len()
                    &&& forall|i: int|
                        0 <= i < accs.len() ==> (#[trigger] accs[i]).comps()
                            == systems@[i].spec_access().comps() && accs[i].res()
                            == systems@[i].spec_access().res()
                    &&& (*out)@ == (AppView {
                        workloads: old(self)@.workloads.update(
                            stage.spec_index(),
                            old(self)@.workloads[stage.spec_index()].push(
                                (label, accs, systems@.map_values(|s: S| AppSystem::User(s))),
                            ),
                        ),
                        ..old(self)@
                    })
                },
    {
        let si = stage.index();
        let mut schedule: Schedule<AppSystem<S>> = Schedule::new();
        let ghost all = systems@;
        let total = systems.len();
        let mut rest = systems;
        let mut k: usize = 0;
        proof {
            assert(all.take(0).map_values(|s: S| AppSystem::User(s)) =~= Seq::<AppSystem<S>>::empty());
            assert(all.skip(0) =~= all);
        }
        while rest.len() > 0
            invariant
                total == all.len(),
                schedule.wf(),
                schedule.cached() is None,
                k <= all.len(),
                rest@ == all.skip(k as int),
                schedule.bodies() == all.take(k as int).map_values(|s: S| AppSystem::User(s)),
                schedule.accesses().len() == k,
                forall|i: int|
                    0 <= i < k ==> (#[trigger] schedule.accesses()[i]).comps() == all[i].spec_access().comps()
                        && schedule.accesses()[i].res() == all[i].spec_access().res(),
            decreases rest.len(),
        {
            let s = rest.remove(0);
            proof {
                assert(s == all[k as int]);
                assert(all.take(k + 1).map_values(|s: S| AppSystem::User(s)) =~= all.take(
                    k as int,
                ).map_values(|s: S| AppSystem::User(s)).push(AppSystem::User(s)));
                assert(rest@ =~= all.skip(k + 1));
            }
            let ghost acc0 = schedule.accesses();
            schedule.add_system(AppSystem::User(s));
            proof {
                assert forall|i: int| 0 <= i < k + 1 implies (#[trigger] schedule.accesses()[i]).comps()
                    == all[i].spec_access().comps() && schedule.accesses()[i].res()
                    == all[i].spec_access().res() by {
                    if i < k {
                        assert(schedule.accesses()[i] == acc0[i]);
                    } else {
                        assert(schedule.accesses()[i] == schedule.accesses().last());
                    }
                }
            }
            k += 1;
        }
        proof {
            assert(all.take(k as int) =~= all);
        }
        let ghost accs = schedule.accesses();
        let ghost prev = self.schedules@;
        self.schedules[si].push(Workload { label, schedule });
        proof {
            assert(workloads_view(self.schedules@[si as int]@) =~= workloads_view(prev[si as int]@).push(
                (label, accs, all.map_values(|s: S| AppSystem::User(s))),
            ));
            assert(self@.workloads =~= old(self)@.workloads.update(
                stage.spec_index(),
                old(self)@.workloads[stage.spec_index()].push(
                    (label, accs, all.map_values(|s: S| AppSystem::User(s))),
                ),
            ));
            assert forall|i: int, w2: int|
                0 <= i < STAGE_COUNT && 0 <= w2 < self.schedules@[i]@.len() implies (
                #[trigger] self.schedules@[i]@[w2]).schedule.wf() by {
                if i == si as int && w2 == prev[i]@.len() {
                } else {
                    assert(self.schedules@[i]@[w2] == prev[i]@[w2]);
                }
            }
        }
        self
    }
}

/// The sequential systems' accesses of each stage.
pub open spec fn stage_accesses<S>(stages: Seq<Seq<(Access, Seq<(u32, u32)>, AppSystem<S>)>>) -> Seq<
    Seq<Access>,
> {
    stages.map_values(|v: Seq<(Access, Seq<(u32, u32)>, AppSystem<S>)>| v.map_values(|x: (Access, Seq<(u32, u32)>, AppSystem<S>)| x.0))
}

/// The workloads' labels and accesses of each stage.
pub open spec fn workload_accesses<S>(ws: Seq<Seq<(Entry, Seq<Access>, Seq<AppSystem<S>>)>>) -> Seq<
    Seq<(Entry, Seq<Access>)>,
> {
    ws.map_values(|v: Seq<(Entry, Seq<Access>, Seq<AppSystem<S>>)>| v.map_values(|x: (Entry, Seq<Access>, Seq<AppSystem<S>>)| (x.0, x.1)))
}

/// The baselines a change-detected run of a system with access `access`
/// leaves it: its old baselines with, for every component it reads or
/// writes, the clock that component shows in `after`.
pub open spec fn recorded<V, U>(access: Access, last_seen: Seq<(u32, u32)>, after: WorldView<V, U>) -> Seq<(u32, u32)> {
    record_ticks(last_seen, after.storages, entry_ids(access.comps().reads + access.comps().writes))
}

/// The stage's sequential systems ran one after another, each with its
/// own access and baselines, taking the world from `before` to `after`;
/// `seen` holds, per system, the baselines its own run left it.
pub open spec fn sequential_ran<V, U, S: IntoSystem<V, U>>(
    systems: Seq<(Access, Seq<(u32, u32)>, AppSystem<S>)>,
    before: WorldView<V, U>,
    after: WorldView<V, U>,
    seen: Seq<Seq<(u32, u32)>>,
) -> bool
    decreases systems.len(),
{
    if systems.len() == 0 {
        after == before && seen.len() == 0
    } else {
        &&& seen.len() == systems.len()
        &&& seen.last() == recorded(systems.last().0, systems.last().1, after)
        &&& exists|mid: WorldView<V, U>|
            #![trigger system_step(systems.last().2, systems.last().0, systems.last().1, mid, after)]
            sequential_ran(systems.drop_last(), before, mid, seen.drop_last()) && system_step(
                systems.last().2,
                systems.last().0,
                systems.last().1,
                mid,
                after,
            )
    }
}

/// `r` is what a stage reports of a workload run that reported `rr`.
pub open spec fn absent_reports(r: Result<(), StageError>, rr: Result<(), u32>) -> bool {
    &&& (r is Ok <==> rr is Ok)
    &&& (rr matches Err(k) ==> r matches Err(StageError::AbsentResource(k2)) && k2 == k)
}

/// After the workloads before `w` left the world at `mid` with outcome
/// `r0`, workload `w` takes it to `after` with outcome `r`: it runs only
/// if they all succeeded.
pub open spec fn workload_tail<V, U: ResourceUpdate<V>, S: IntoSystem<V, U>>(
    w: (Entry, Seq<Access>, Seq<AppSystem<S>>),
    mid: WorldView<V, U>,
    r0: Result<(), StageError>,
    after: WorldView<V, U>,
    r: Result<(), StageError>,
) -> bool {
    match r0 {
        Err(e0) => after == mid && (r matches Err(e1) && e1 == e0),
        Ok(()) => exists|rr: Result<(), u32>|
            #![trigger schedule_ran(w.2, w.1, mid, after, rr)]
            schedule_ran(w.2, w.1, mid, after, rr) && absent_reports(r, rr),
    }
}

/// The workloads ran in registration order from `before` to `after`,
/// stopping at the first one whose flush failed; `r` is the outcome.
pub open spec fn workloads_ran<V, U: ResourceUpdate<V>, S: IntoSystem<V, U>>(
    ws: Seq<(Entry, Seq<Access>, Seq<AppSystem<S>>)>,
    before: WorldView<V, U>,
    after: WorldView<V, U>,
    r: Result<(), StageError>,
) -> bool
    decreases ws.len(),
{
    if ws.len() == 0 {
        after == before && r is Ok
    } else {
        exists|mid: WorldView<V, U>, r0: Result<(), StageError>|
            #![trigger workload_tail(ws.last(), mid, r0, after, r)]
            workloads_ran(ws.drop_last(), before, mid, r0) && workload_tail(ws.last(), mid, r0, after, r)
    }
}

/// What a stage does once its sequential systems have left the world at
/// `mid`: flush the queued commands, stopping on an absent resource;
/// then refuse clashing workloads; else run the workloads.
pub open spec fn stage_tail<V, U: ResourceUpdate<V>, S: IntoSystem<V, U>>(
    ws: Seq<(Entry, Seq<Access>, Seq<AppSystem<S>>)>,
    mid: WorldView<V, U>,
    after: WorldView<V, U>,
    r: Result<(), StageError>,
) -> bool {
    match mid.flushed().1 {
        Some(k) => after == mid.flushed().0 && (r matches Err(StageError::AbsentResource(k2)) && k2
            == k),
        None => if workloads_clash(ws) {
            after == mid.flushed().0 && (r matches Err(e) && clash_reports(ws, e))
        } else {
            workloads_ran(ws, mid.flushed().0, after, r)
        },
    }
}

/// One run of a stage with sequential systems `systems` and workloads
/// `ws`, taking the world from `before` to `after` with outcome `r`.
pub open spec fn stage_ran<V, U: ResourceUpdate<V>, S: IntoSystem<V, U>>(
    systems: Seq<(Access, Seq<(u32, u32)>, AppSystem<S>)>,
    ws: Seq<(Entry, Seq<Access>, Seq<AppSystem<S>>)>,
    before: WorldView<V, U>,
    after: WorldView<V, U>,
    r: Result<(), StageError>,
    seen: Seq<Seq<(u32, u32)>>,
) -> bool {
    exists|mid: WorldView<V, U>|
        #![trigger stage_tail(ws, mid, after, r)]
        sequential_ran(systems, before, mid, seen) && stage_tail(ws, mid, after, r)
}

/// What [`Application::run_stage`] makes of an application: the stage
/// ran, and the startup steps, the runner, and every declared access and
/// label stay as they were.
pub open spec fn stage_outcome<V, U: ResourceUpdate<V>, S: IntoSystem<V, U>, F, R>(
    before: AppView<V, U, S, F, R>,
    stage: Stage,
    after: AppView<V, U, S, F, R>,
    r: Result<(), StageError>,
) -> bool {
    &&& after.startup == before.startup
    &&& after.runner == before.runner
    &&& stage_accesses(after.stages) == stage_accesses(before.stages)
    &&& workload_accesses(after.workloads) == workload_accesses(before.workloads)
    &&& after.stages.len() == before.stages.len()
    &&& forall|i: int|
        0 <= i < before.stages.len() && i != stage.spec_index() ==> #[trigger] after.stages[i]
            == before.stages[i]
    &&& exists|seen: Seq<Seq<(u32, u32)>>|
        #![trigger stage_ran(
            before.stages[stage.spec_index()],
            before.workloads[stage.spec_index()],
            before.world,
            after.world,
            r,
            seen,
        )]
        {
            &&& stage_ran(
                before.stages[stage.spec_index()],
                before.workloads[stage.spec_index()],
                before.world,
                after.world,
                r,
                seen,
            )
            &&& after.stages[stage.spec_index()].len() == before.stages[stage.spec_index()].len()
            &&& forall|k: int|
                0 <= k < after.stages[stage.spec_index()].len() ==> (#[trigger] after.stages[stage.spec_index()][k]).1
                    == seen[k]
        }
}

/// What [`Application::run`] makes of `before` once every startup step
/// succeeded: the [`Stage::Startup`] systems run; if that fails the
/// result is an error and the application stays as the stage left it,
/// runner included; else with no runner the result is `Ok`, and with one
/// the runner drives the application as the stage left it, minus the
/// runner, while `after` is a fresh application. `ok` tells whether the
/// result is `Ok`.
pub open spec fn started<V, U: ResourceUpdate<V>, S: IntoSystem<V, U>, F, R: Runner<V, U, S, F>>(
    before: AppView<V, U, S, F, R>,
    after: AppView<V, U, S, F, R>,
    ok: bool,
) -> bool {
    exists|mid: AppView<V, U, S, F, R>, sr: Result<(), StageError>|
        #![trigger stage_outcome(before, Stage::Startup, mid, sr)]
        stage_outcome(before, Stage::Startup, mid, sr) && match sr {
            Err(_) => !ok && after == mid,
            Ok(()) => match before.runner {
                None => ok && after == mid,
                Some(rn) => is_fresh_app(after) && rn.drives(AppView { runner: None, ..mid }, ok),
            },
        }
}

/// One more sequential system extends a sequential run.
proof fn lemma_sequential_step<V, U, S: IntoSystem<V, U>>(
    systems: Seq<(Access, Seq<(u32, u32)>, AppSystem<S>)>,
    k: int,
    before: WorldView<V, U>,
    mid: WorldView<V, U>,
    after: WorldView<V, U>,
    seen: Seq<Seq<(u32, u32)>>,
)
    requires
        0 <= k < systems.len(),
        sequential_ran(systems.take(k), before, mid, seen),
        system_step(systems[k].2, systems[k].0, systems[k].1, mid, after),
    ensures
        sequential_ran(
            systems.take(k + 1),
            before,
            after,
            seen.push(recorded(systems[k].0, systems[k].1, after)),
        ),
{
    let t = systems.take(k + 1);
    let s1 = seen.push(recorded(systems[k].0, systems[k].1, after));
    assert(t.drop_last() =~= systems.take(k));
    assert(t.last() == systems[k]);
    assert(s1.drop_last() =~= seen);
    if k > 0 {
        assert(seen.len() == k);
    } else {
        assert(systems.take(0).len() == 0);
        assert(seen.len() == 0);
    }
    assert(system_step(t.last().2, t.last().0, t.last().1, mid, after));
}

/// One more workload, run after the earlier ones all succeeded, extends
/// a workload run.
proof fn lemma_workload_step<V, U: ResourceUpdate<V>, S: IntoSystem<V, U>>(
    ws: Seq<(Entry, Seq<Access>, Seq<AppSystem<S>>)>,
    w: int,
    before: WorldView<V, U>,
    mid: WorldView<V, U>,
    after: WorldView<V, U>,
    rr: Result<(), u32>,
    r: Result<(), StageError>,
)
    requires
        0 <= w < ws.len(),
        workloads_ran(ws.take(w), before, mid, Ok(())),
        schedule_ran(ws[w].2, ws[w].1, mid, after, rr),
        absent_reports(r, rr),
    ensures
        workloads_ran(ws.take(w + 1), before, after, r),
{
    let t = ws.take(w + 1);
    assert(t.drop_last() =~= ws.take(w));
    assert(t.last() == ws[w]);
    assert(workload_tail(t.last(), mid, Ok(()), after, r));
}

/// A failed workload run stays failed, with the same world, however many
/// workloads follow.
proof fn lemma_workload_error_stays<V, U: ResourceUpdate<V>, S: IntoSystem<V, U>>(
    ws: Seq<(Entry, Seq<Access>, Seq<AppSystem<S>>)>,
    j: int,
    before: WorldView<V, U>,
    after: WorldView<V, U>,
    e: StageError,
)
    requires
        0 <= j <= ws.len(),
        workloads_ran(ws.take(j), before, after, Err(e)),
    ensures
        workloads_ran(ws, before, after, Err(e)),
    decreases ws.len() - j,
{
    if j == ws.len() {
        assert(ws.take(j) =~= ws);
    } else {
        let t = ws.take(j + 1);
        assert(t.drop_last() =~= ws.take(j));
        assert(workload_tail(t.last(), after, Err(e), after, Err(e)));
        lemma_workload_error_stays(ws, j + 1, before, after, e);
    }
}

impl<V, U, S, F, R> Application<V, U, S, F, R> {
    /// The first clash between two workloads of stage slot `si`, in
    /// registration order, if any.
    fn workload_conflict(&self, si: usize) -> (r: Option<StageError>)
        requires
            self.wf(),
            si < STAGE_COUNT,
        ensures
            r is None <==> !workloads_clash(self@.workloads[si as int]),
            r matches Some(e) ==> clash_reports(self@.workloads[si as int], e),
    {
        let ghost ws = self@.workloads[si as int];
        let m = self.schedules[si].len();
        let mut a: usize = 0;
        while a < m
            invariant
                self.wf(),
                si < STAGE_COUNT,
                ws == self@.workloads[si as int],
                m == ws.len(),
                a <= m,
                forall|a2: int, b2: int, x: int, y: int|
                    #![trigger ws[a2].1[x], ws[b2].1[y]]
                    0 <= a2 < a && a2 < b2 < ws.len() && 0 <= x < ws[a2].1.len() && 0 <= y < ws[b2].1.len()
                        ==> ws[a2].1[x].compatible(&ws[b2].1[y]),
            decreases m - a,
        {
            let mut b: usize = a + 1;
            while b < m
                invariant
                    self.wf(),
                    si < STAGE_COUNT,
                    ws == self@.workloads[si as int],
                    m == ws.len(),
                    a < m,
                    a < b <= m,
                    forall|a2: int, b2: int, x: int, y: int|
                        #![trigger ws[a2].1[x], ws[b2].1[y]]
                        0 <= a2 < a && a2 < b2 < ws.len() && 0 <= x < ws[a2].1.len() && 0 <= y < ws[b2].1.len()
                            ==> ws[a2].1[x].compatible(&ws[b2].1[y]),
                    forall|b2: int, x: int, y: int|
                        #![trigger ws[a as int].1[x], ws[b2].1[y]]
                        a < b2 < b && 0 <= x < ws[a as int].1.len() && 0 <= y < ws[b2].1.len()
                            ==> ws[a as int].1[x].compatible(&ws[b2].1[y]),
                decreases m - b,
            {
                let wa = &self.schedules[si][a];
                let wb = &self.schedules[si][b];
                proof {
                    assert(ws[a as int].1 == wa.schedule.accesses());
                    assert(ws[b as int].1 == wb.schedule.accesses());
                }
                match schedules_clash(&wa.schedule, &wb.schedule) {
                    Some((key, kind)) => {
                        proof {
                            assert forall|a2: int, b2: int|
                                0 <= a2 < b2 < ws.len() && (a2 < a || (a2 == a && b2 < b)) implies !accesses_clash(
                                ws[a2].1,
                                ws[b2].1,
                            ) by {
                                if accesses_clash(ws[a2].1, ws[b2].1) {
                                    let (x, y) = choose|x: int, y: int|
                                        0 <= x < ws[a2].1.len() && 0 <= y < ws[b2].1.len()
                                            && !ws[a2].1[x].compatible(&ws[b2].1[y]);
                                    assert(ws[a2].1[x].compatible(&ws[b2].1[y]));
                                }
                            }
                            assert(first_workload_clash(ws, a as int, b as int));
                            assert(ws[a as int].0 == wa.label && ws[b as int].0 == wb.label);
                        }
                        return Some(StageError::Conflict(wa.label, wb.label, key, kind));
                    },
                    None => {},
                }
                b += 1;
            }
            a += 1;
        }
        None
    }

    /// Runs `stage`: its sequential systems in registration order, each
    /// with its own change-detection baselines; then the commands they
    /// queued; then, if no two of the stage's workloads clash, each
    /// workload in registration order, every one ending with a command
    /// flush.
    pub fn run_stage(&mut self, stage: Stage) -> (r: Result<(), StageError>) where
        S: IntoSystem<V, U>,
        U: ResourceUpdate<V>,
        requires
            old(self).wf(),
        ensures
            final(self).wf(),
            stage_outcome(old(self)@, stage, final(self)@, r),
            r matches Err(e) && e is Conflict ==> workloads_clash(
                old(self)@.workloads[stage.spec_index()],
            ),
            workloads_clash(old(self)@.workloads[stage.spec_index()]) ==> r is Err,
            r is Ok ==> final(self)@.world.pending.len() == 0,
            old(self)@.stages[stage.spec_index()].len() == 0 && old(self)@.workloads[stage.spec_index()].len() == 0
                ==> {
                &&& final(self)@.world == old(self)@.world.flushed().0
                &&& (r is Ok <==> old(self)@.world.flushed().1 is None)
                &&& r matches Err(e) ==> old(self)@.world.flushed().1 == Some(e->AbsentResource_0)
            },
    {
        let si = stage.index();
        let ghost sa = stage_accesses(self@.stages);
        let ghost wa = workload_accesses(self@.workloads);
        let ghost clash = workloads_clash(self@.workloads[si as int]);
        let ghost sys0 = self@.stages[si as int];
        let ghost ws0 = self@.workloads[si as int];
        let ghost w_start = self@.world;
        let ghost mut seen: Seq<Seq<(u32, u32)>> = Seq::empty();
        proof {
            assert(sys0.take(0) =~= Seq::<(Access, Seq<(u32, u32)>, AppSystem<S>)>::empty());
        }
        let n = self.stages[si].len();
        let mut k: usize = 0;
        while k < n
            invariant
                self.wf(),
                si < STAGE_COUNT,
                si as int == stage.spec_index(),
                n == self@.stages[si as int].len(),
                k <= n,
                sys0 == old(self)@.stages[si as int],
                n == sys0.len(),
                ws0 == old(self)@.workloads[si as int],
                w_start == old(self)@.world,
                sequential_ran(sys0.take(k as int), w_start, self@.world, seen),
                seen.len() == k,
                forall|j: int| k <= j < n ==> #[trigger] self@.stages[si as int][j] == sys0[j],
                forall|j: int| 0 <= j < k ==> (#[trigger] self@.stages[si as int][j]).1 == seen[j],
                self@.stages.len() == old(self)@.stages.len(),
                forall|i: int|
                    0 <= i < old(self)@.stages.len() && i != si as int ==> #[trigger] self@.stages[i]
                        == old(self)@.stages[i],
                self@.startup == old(self)@.startup,
                self@.runner == old(self)@.runner,
                stage_accesses(self@.stages) == sa,
                workload_accesses(self@.workloads) == wa,
                self@.workloads == old(self)@.workloads,
                sa == stage_accesses(old(self)@.stages),
                wa == workload_accesses(old(self)@.workloads),
                clash == workloads_clash(old(self)@.workloads[si as int]),
                k == 0 ==> self@.world == old(self)@.world,
            decreases n - k,
        {
            let ghost before = self.stages@;
            let ghost vb = self@.stages;
            let ghost wb = self@.world;
            proof {
                assert(self@.stages[si as int][k as int] == sys0[k as int]);
                assert(self@.stages[si as int] == stage_view(before[si as int]@));
            }
            self.stages[si][k].run_on(&mut self.world);
            proof {
                assert(self.stages@ == before.update(
                    si as int,
                    self.stages@[si as int],
                ));
                lemma_sequential_step(sys0, k as int, w_start, wb, self@.world, seen);
                assert(self.stages@[si as int]@ == before[si as int]@.update(k as int, self.stages@[si as int]@[k as int]));
                assert(self@.stages[si as int] == stage_view(self.stages@[si as int]@));
                assert(self@.stages[si as int][k as int].1 == recorded(sys0[k as int].0, sys0[k as int].1, self@.world));
                let seen1 = seen.push(recorded(sys0[k as int].0, sys0[k as int].1, self@.world));
                assert forall|j: int| 0 <= j < k + 1 implies (#[trigger] self@.stages[si as int][j]).1 == seen1[j] by {
                    if j < k {
                        assert(self.stages@[si as int]@[j] == before[si as int]@[j]);
                        assert(vb[si as int] == stage_view(before[si as int]@));
                        assert(vb[si as int][j].1 == seen[j]);
                        assert(self@.stages[si as int][j] == vb[si as int][j]);
                    }
                }
                assert forall|i: int|
                    0 <= i < old(self)@.stages.len() && i != si as int implies #[trigger] self@.stages[i]
                        == old(self)@.stages[i] by {
                    assert(self.stages@[i] == before[i]);
                    assert(vb[i] == stage_view(before[i]@));
                    assert(self@.stages[i] == stage_view(self.stages@[i]@));
                    assert(vb[i] == old(self)@.stages[i]);
                }
                seen = seen1;
                assert forall|j: int| k + 1 <= j < n implies #[trigger] self@.stages[si as int][j] == sys0[j] by {
                    assert(self.stages@[si as int]@[j] == before[si as int]@[j]);
                    assert(self@.stages[si as int] == stage_view(self.stages@[si as int]@));
                    assert(old(self)@.stages[si as int][j] == stage_view(before[si as int]@)[j]);
                }
                assert(stage_accesses(self@.stages) =~= sa) by {
                    assert forall|i: int| 0 <= i < STAGE_COUNT implies #[trigger] stage_accesses(self@.stages)[i] =~= sa[i] by {
                        if i == si as int {
                            assert(self.stages@[i]@ == before[i]@.update(k as int, self.stages@[i]@[k as int]));
                        }
                    }
                }
            }
            k += 1;
        }
        let ghost before_flush = self@.world;
        let ghost st1 = self@.stages;
        proof {
            assert(sys0.take(n as int) =~= sys0);
            assert(sequential_ran(sys0, w_start, before_flush, seen));
        }
        let flush = self.world.flush_commands();
        proof {
            assert(self@.world == before_flush.flushed().0);
        }
        match flush {
            Err(key) => {
                proof {
                    assert(stage_tail(ws0, before_flush, self@.world, Err(StageError::AbsentResource(key))));
                    assert(stage_ran(sys0, ws0, w_start, self@.world, Err(StageError::AbsentResource(key)), seen));
                }
                return Err(StageError::AbsentResource(key));
            },
            Ok(()) => {},
        }
        let ghost after_flush = self@.world;
        match self.workload_conflict(si) {
            Some(e) => {
                proof {
                    assert(stage_tail(ws0, before_flush, self@.world, Err(e)));
                    assert(stage_ran(sys0, ws0, w_start, self@.world, Err(e), seen));
                }
                return Err(e);
            },
            None => {},
        }
        proof {
            assert(ws0.take(0) =~= Seq::<(Entry, Seq<Access>, Seq<AppSystem<S>>)>::empty());
            assert(workloads_ran(ws0.take(0), after_flush, self@.world, Ok(())));
        }
        let m = self.schedules[si].len();
        let mut w: usize = 0;
        while w < m
            invariant
                self.wf(),
                si < STAGE_COUNT,
                m == self@.workloads[si as int].len(),
                w <= m,
                self@.startup == old(self)@.startup,
                self@.runner == old(self)@.runner,
                stage_accesses(self@.stages) == sa,
                workload_accesses(self@.workloads) == wa,
                sa == stage_accesses(old(self)@.stages),
                wa == workload_accesses(old(self)@.workloads),
                !clash,
                clash == workloads_clash(old(self)@.workloads[si as int]),
                self@.world.pending.len() == 0,
                w == 0 ==> self@.world == after_flush,
                m == old(self)@.workloads[si as int].len(),
                si as int == stage.spec_index(),
                after_flush == before_flush.flushed().0,
                before_flush.flushed().1 is None,
                n == 0 ==> before_flush == old(self)@.world,
                ws0 == old(self)@.workloads[si as int],
                w_start == old(self)@.world,
                sequential_ran(sys0, w_start, before_flush, seen),
                sys0 == old(self)@.stages[si as int],
                self@.stages == st1,
                n == sys0.len(),
                seen.len() == n,
                st1.len() == old(self)@.stages.len(),
                st1[si as int].len() == n,
                forall|j: int| 0 <= j < n ==> (#[trigger] st1[si as int][j]).1 == seen[j],
                forall|i: int|
                    0 <= i < old(self)@.stages.len() && i != si as int ==> #[trigger] st1[i]
                        == old(self)@.stages[i],
                workloads_ran(ws0.take(w as int), after_flush, self@.world, Ok(())),
                forall|j: int| w <= j < m ==> #[trigger] self@.workloads[si as int][j] == ws0[j],
            decreases m - w,
        {
            let ghost before = self.schedules@;
            let ghost wb = self@.world;
            proof {
                assert(self.schedules@[si as int]@[w as int].schedule.wf());
                assert(self@.workloads[si as int][w as int] == ws0[w as int]);
                assert(self@.workloads[si as int] == workloads_view(before[si as int]@));
            }
            let res = self.schedules[si][w].schedule.run(&mut self.world);
            proof {
                let after = self.schedules@;
                assert(after == before.update(si as int, after[si as int]));
                assert(after[si as int]@ == before[si as int]@.update(w as int, after[si as int]@[w as int]));
                assert(workload_accesses(self@.workloads) =~= wa) by {
                    assert forall|i: int| 0 <= i < STAGE_COUNT implies #[trigger] workload_accesses(self@.workloads)[i] =~= wa[i] by {
                        if i == si as int {
                            assert forall|j: int| 0 <= j < after[i]@.len() implies #[trigger] workload_accesses(self@.workloads)[i][j] == wa[i][j] by {
                                if j != w as int {
                                    assert(after[i]@[j] == before[i]@[j]);
                                }
                            }
                        }
                    }
                }
                assert forall|i: int, w2: int|
                    0 <= i < STAGE_COUNT && 0 <= w2 < self.schedules@[i]@.len() implies (
                    #[trigger] self.schedules@[i]@[w2]).schedule.wf() by {
                    if !(i == si as int && w2 == w as int) {
                        assert(self.schedules@[i]@[w2] == before[i]@[w2]);
                    }
                }
            }
            proof {
                let after = self.schedules@;
                assert forall|j: int| w + 1 <= j < m implies #[trigger] self@.workloads[si as int][j] == ws0[j] by {
                    assert(after[si as int]@[j] == before[si as int]@[j]);
                    assert(self@.workloads[si as int] == workloads_view(after[si as int]@));
                    assert(old(self)@.workloads[si as int][j] == workloads_view(before[si as int]@)[j]);
                }
            }
            match res {
                Err(key) => {
                    proof {
                        lemma_workload_step(ws0, w as int, after_flush, wb, self@.world, res, Err(StageError::AbsentResource(key)));
                        lemma_workload_error_stays(ws0, w + 1, after_flush, self@.world, StageError::AbsentResource(key));
                        assert(stage_tail(ws0, before_flush, self@.world, Err(StageError::AbsentResource(key))));
                        assert(stage_ran(sys0, ws0, w_start, self@.world, Err(StageError::AbsentResource(key)), seen));
                    }
                    return Err(StageError::AbsentResource(key));
                },
                Ok(()) => {},
            }
            proof {
                lemma_workload_step(ws0, w as int, after_flush, wb, self@.world, res, Ok(()));
            }
            w += 1;
        }
        proof {
            assert(ws0.take(m as int) =~= ws0);
            assert(stage_tail(ws0, before_flush, self@.world, Ok(())));
            assert(stage_ran(sys0, ws0, w_start, self@.world, Ok(()), seen));
        }
        Ok(())
    }

    /// Runs the startup steps in registration order, stopping at the first
    /// error; then the [`Stage::Startup`] systems; then hands the
    /// application to the runner, if one is installed, and returns what it
    /// returns.
    pub fn run(&mut self) -> (r: Result<(), anyhow::Error>) where
        S: IntoSystem<V, U>,
        U: ResourceUpdate<V>,
        F: StartupSystem,
        R: Runner<V, U, S, F>,
        requires
            old(self).wf(),
        ensures
            final(self).wf(),
            final(self)@.startup.len() == 0,
            (exists|i: int|
                0 <= i < old(self)@.startup.len() && !(#[trigger] old(self)@.startup[i]).succeeds())
                ==> r is Err && final(self)@ == (AppView { startup: Seq::empty(), ..old(self)@ }),
            (forall|i: int|
                0 <= i < old(self)@.startup.len() ==> (#[trigger] old(self)@.startup[i]).succeeds())
                ==> started(AppView { startup: Seq::empty(), ..old(self)@ }, final(self)@, r is Ok),
    {
        let ghost steps = self@.startup;
        let ghost fresh = AppView { startup: Seq::<F>::empty(), ..self@ };
        let mut startup: Vec<F> = Vec::new();
        std::mem::swap(&mut startup, &mut self.startup);
        proof {
            assert(self@ == fresh);
            assert(startup@ == steps.subrange(0, steps.len() as int));
        }
        let ghost mut done: int = 0;
        while startup.len() > 0
            invariant
                self.wf(),
                self@ == fresh,
                fresh == (AppView { startup: Seq::<F>::empty(), ..old(self)@ }),
                steps == old(self)@.startup,
                0 <= done <= steps.len(),
                startup@ == steps.subrange(done, steps.len() as int),
                forall|j: int| 0 <= j < done ==> (#[trigger] steps[j]).succeeds(),
            decreases startup.len(),
        {
            let step = startup.remove(0);
            proof {
                assert(step == steps[done]);
            }
            match step.run() {
                Err(e) => {
                    return Err(e);
                },
                Ok(()) => {},
            }
            proof {
                assert(startup@ =~= steps.subrange(done + 1, steps.len() as int));
                done = done + 1;
            }
        }
        proof {
            assert(done == steps.len());
        }
        let sr = self.run_stage(Stage::Startup);
        let ghost mid = self@;
        match sr {
            Err(e) => {
                let r = Err(engine_error(e.message()));
                proof {
                    assert(stage_outcome(fresh, Stage::Startup, mid, sr));
                }
                return r;
            },
            Ok(()) => {},
        }
        match self.runner.take() {
            Some(runner) => {
                let mut app: Self = Application::new();
                std::mem::swap(self, &mut app);
                proof {
                    assert(app@ == (AppView { runner: None, ..mid }));
                }
                let r = runner.run(app);
                proof {
                    assert(stage_outcome(fresh, Stage::Startup, mid, sr));
                }
                r
            },
            None => {
                proof {
                    assert(self@ == mid);
                    assert(stage_outcome(fresh, Stage::Startup, mid, sr));
                }
                Ok(())
            },
        }
    }
}


/// Each sequential system of a stage keeps the baselines of its own run:
/// for every component it reads or writes, its baseline is the clock
/// that component showed right after that system ran (not where later
/// systems of the stage left it), and for every other component its
/// baseline stays as it was. So a write made after an observer ran is
/// newer than the observer's baseline at its next run.
pub proof fn law_sequential_systems_keep_their_own_baselines<V, U, S: IntoSystem<V, U>>(
    systems: Seq<(Access, Seq<(u32, u32)>, AppSystem<S>)>,
    before: WorldView<V, U>,
    after: WorldView<V, U>,
    seen: Seq<Seq<(u32, u32)>>,
    k: int,
    c: u32,
)
    requires
        sequential_ran(systems, before, after, seen),
        0 <= k < systems.len(),
    ensures
        exists|mid: WorldView<V, U>|
            #![trigger sequential_ran(systems.take(k + 1), before, mid, seen.take(k + 1))]
            {
                &&& sequential_ran(systems.take(k + 1), before, mid, seen.take(k + 1))
                &&& entry_ids(systems[k].0.comps().reads + systems[k].0.comps().writes).contains(c)
                    && (c as int) < mid.storages.len() ==> baseline_of(seen[k], c)
                    == mid.storages[c as int].tick
                &&& !entry_ids(systems[k].0.comps().reads + systems[k].0.comps().writes).contains(c)
                    ==> baseline_of(seen[k], c) == baseline_of(systems[k].1, c)
            },
    decreases systems.len(),
{
    let n = systems.len();
    if k == n - 1 {
        assert(systems.take(k + 1) =~= systems);
        assert(seen.take(k + 1) =~= seen);
        assert(seen[k] == recorded(systems[k].0, systems[k].1, after));
        crate::world::lemma_record_ticks_baseline(
            systems[k].1,
            after.storages,
            entry_ids(systems[k].0.comps().reads + systems[k].0.comps().writes),
            c,
        );
        assert(sequential_ran(systems.take(k + 1), before, after, seen.take(k + 1)));
    } else {
        assert(systems.len() > 0);
        assert(exists|mid: WorldView<V, U>|
            #![trigger system_step(systems.last().2, systems.last().0, systems.last().1, mid, after)]
            sequential_ran(systems.drop_last(), before, mid, seen.drop_last()) && system_step(
                systems.last().2,
                systems.last().0,
                systems.last().1,
                mid,
                after,
            ));
        let mid = choose|mid: WorldView<V, U>|
            sequential_ran(systems.drop_last(), before, mid, seen.drop_last()) && system_step(
                systems.last().2,
                systems.last().0,
                systems.last().1,
                mid,
                after,
            );
        law_sequential_systems_keep_their_own_baselines(systems.drop_last(), before, mid, seen.drop_last(), k, c);
        assert(systems.drop_last().take(k + 1) =~= systems.take(k + 1));
        assert(seen.drop_last().take(k + 1) =~= seen.take(k + 1));
        assert(systems.drop_last()[k] == systems[k]);
        assert(seen.drop_last()[k] == seen[k]);
    }
}

} // verus!
