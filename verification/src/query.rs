//! Queries: iteration over the entities that match a data shape and a
//! filter.
//!
//! A shape is a list of [`Term`]s: the entity id itself, a required read or
//! write of a component, or an optional one. At construction the query
//! checks the shape and filter for self-conflicting access, then freezes a
//! *driver*: the smallest candidate list among the required components and
//! the filter (the data shape wins ties, the earliest element among equal
//! components), or the live entity set when nothing offers a candidate.
//! Iteration walks the driver and keeps the entities that hold every
//! required component and pass the filter.
use vstd::prelude::*;

use crate::access::{AccessView, Entry, QueryAccess};
use crate::entity::{Entity, lemma_live_prefix};
use crate::filter::{Filter, all_match, all_sliced, any_match, in_some_slice, min_slice};
use crate::storage::lemma_entities_distinct;
use crate::world::{World, WorldView};

verus! {

/// One element of a query's data shape.
#[derive(Clone, Copy, Debug, PartialEq, Eq)]
pub enum Term {
    /// The entity id itself.
    Entity,
    /// A required shared borrow of a component.
    Read(Entry),
    /// A required exclusive borrow of a component.
    Write(Entry),
    /// An optional shared borrow: present or not, the row is kept.
    OptRead(Entry),
    /// An optional exclusive borrow.
    OptWrite(Entry),
}

impl Term {
    /// The component key a required term needs.
    pub open spec fn required(self) -> Option<u32> {
        match self {
            Term::Read(x) => Some(x.id),
            Term::Write(x) => Some(x.id),
            _ => None,
        }
    }

    /// The component key any component term names.
    pub open spec fn key(self) -> Option<u32> {
        match self {
            Term::Read(x) => Some(x.id),
            Term::Write(x) => Some(x.id),
            Term::OptRead(x) => Some(x.id),
            Term::OptWrite(x) => Some(x.id),
            Term::Entity => None,
        }
    }
}

/// The reads a shape declares, in order.
pub open spec fn shape_reads(shape: Seq<Term>) -> Seq<Entry>
    decreases shape.len(),
{
    if shape.len() == 0 {
        Seq::empty()
    } else {
        let rest = shape_reads(shape.drop_last());
        match shape.last() {
            Term::Read(x) => rest.push(x),
            Term::OptRead(x) => rest.push(x),
            _ => rest,
        }
    }
}

/// The writes a shape declares, in order.
pub open spec fn shape_writes(shape: Seq<Term>) -> Seq<Entry>
    decreases shape.len(),
{
    if shape.len() == 0 {
        Seq::empty()
    } else {
        let rest = shape_writes(shape.drop_last());
        match shape.last() {
            Term::Write(x) => rest.push(x),
            Term::OptWrite(x) => rest.push(x),
            _ => rest,
        }
    }
}

/// The access a query with this shape and filter declares: the shape's
/// reads then the filter's, and the shape's writes.
pub open spec fn query_access(shape: Seq<Term>, f: Filter) -> AccessView {
    AccessView { reads: shape_reads(shape) + f.spec_reads(), writes: shape_writes(shape) }
}

/// `e` holds every component the shape requires.
pub open spec fn all_required<V, U>(shape: Seq<Term>, w: WorldView<V, U>, e: Entity) -> bool {
    forall|k: int|
        0 <= k < shape.len() && (#[trigger] shape[k]).required() is Some ==> w.has(
            e,
            shape[k].required()->0,
        )
}

/// The shape requires no component.
pub open spec fn no_required(shape: Seq<Term>) -> bool {
    forall|k: int| 0 <= k < shape.len() ==> (#[trigger] shape[k]).required() is None
}

/// The required element with the smallest storage population, the
/// earliest on a tie, with that population.
pub open spec fn data_candidate<V, U>(shape: Seq<Term>, w: WorldView<V, U>) -> Option<(int, nat)>
    decreases shape.len(),
{
    if shape.len() == 0 {
        None
    } else {
        let best = data_candidate(shape.drop_last(), w);
        match shape.last().required() {
            Some(c) => {
                let p = w.storage_at(c).entities.len();
                match best {
                    Some(b) => if p < b.1 {
                        Some(((shape.len() - 1) as int, p))
                    } else {
                        Some(b)
                    },
                    None => Some(((shape.len() - 1) as int, p)),
                }
            },
            None => best,
        }
    }
}

/// Where a query's iteration is driven from.
#[derive(Clone, Copy, Debug, PartialEq, Eq)]
pub enum DriverPlan {
    /// The live entity set, in slot order.
    LiveSet,
    /// The population of the required element at this index.
    Data(usize),
    /// The filter's candidate list.
    Filter,
}

/// The driver frozen for a shape and filter in world state `w`.
pub open spec fn spec_plan<V, U>(shape: Seq<Term>, f: Filter, w: WorldView<V, U>) -> DriverPlan {
    match (data_candidate(shape, w), f.spec_len(w)) {
        (None, None) => DriverPlan::LiveSet,
        (None, Some(_)) => DriverPlan::Filter,
        (Some((i, _)), None) => DriverPlan::Data(i as usize),
        (Some((i, dp)), Some(fp)) => if dp <= fp {
            DriverPlan::Data(i as usize)
        } else {
            DriverPlan::Filter
        },
    }
}

/// The candidate list iteration walks under `plan`.
pub open spec fn driver_seq<V, U>(
    shape: Seq<Term>,
    f: Filter,
    w: WorldView<V, U>,
    plan: DriverPlan,
) -> Seq<Entity> {
    match plan {
        DriverPlan::LiveSet => w.alloc.live_seq(),
        DriverPlan::Data(i) => w.storage_at(shape[i as int].required()->0).entities,
        DriverPlan::Filter => match f.spec_slice(w) {
            Some(s) => s,
            None => f.spec_union(w)->0,
        },
    }
}

/// A driven entity is kept when it holds every required component and
/// passes the filter.
pub open spec fn row_ok<V, U>(shape: Seq<Term>, f: Filter, w: WorldView<V, U>, e: Entity) -> bool {
    all_required(shape, w, e) && f.spec_matches(w, e)
}

/// The entities iteration yields, in order.
pub open spec fn spec_rows<V, U>(shape: Seq<Term>, f: Filter, w: WorldView<V, U>) -> Seq<Entity> {
    rows_under(shape, f, w, spec_plan(shape, f, w))
}

/// The entities iteration would yield when driven by `plan`.
pub open spec fn rows_under<V, U>(
    shape: Seq<Term>,
    f: Filter,
    w: WorldView<V, U>,
    plan: DriverPlan,
) -> Seq<Entity> {
    driver_seq(shape, f, w, plan).filter(|e: Entity| row_ok(shape, f, w, e))
}

/// Random access keeps `e` when it holds every required component and,
/// for a shape that requires no component, when `e` is live.
pub open spec fn lookup_ok<V, U>(shape: Seq<Term>, w: WorldView<V, U>, e: Entity) -> bool {
    &&& all_required(shape, w, e)
    &&& no_required(shape) ==> w.alloc.is_alive(e)
}

/// One fetched element of a row.
pub enum Fetched<'w, V> {
    Entity(Entity),
    Value(&'w V),
    Optional(Option<&'w V>),
}

/// One yielded row: the entity and one fetched element per shape term.
pub struct Row<'w, V> {
    pub entity: Entity,
    pub items: Vec<Fetched<'w, V>>,
}

/// The fetched element `it` is what term `t` yields for `e` in `w`.
pub open spec fn item_ok<V, U>(t: Term, w: WorldView<V, U>, e: Entity, it: Fetched<V>) -> bool {
    match t {
        Term::Entity => it == Fetched::<V>::Entity(e),
        Term::Read(x) => it matches Fetched::Value(r) && *r == w.storage_at(x.id).value_of(e),
        Term::Write(x) => it matches Fetched::Value(r) && *r == w.storage_at(x.id).value_of(e),
        Term::OptRead(x) => it matches Fetched::Optional(o) && (o is Some <==> w.has(e, x.id)) && (
        o matches Some(r) ==> *r == w.storage_at(x.id).value_of(e)),
        Term::OptWrite(x) => it matches Fetched::Optional(o) && (o is Some <==> w.has(e, x.id))
            && (o matches Some(r) ==> *r == w.storage_at(x.id).value_of(e)),
    }
}

/// `row` is the row the shape yields for its entity in `w`.
pub open spec fn row_matches<V, U>(shape: Seq<Term>, w: WorldView<V, U>, row: Row<V>) -> bool {
    &&& row.items@.len() == shape.len()
    &&& forall|k: int|
        0 <= k < shape.len() ==> item_ok(shape[k], w, row.entity, #[trigger] row.items@[k])
}

/// A query over one world: its shape, filter and frozen driver.
pub struct Query<'w, V, U> {
    world: &'w World<V, U>,
    shape: Vec<Term>,
    filter: Filter,
    plan: DriverPlan,
    materialized: Option<Vec<Entity>>,
}

impl<'w, V, U> Query<'w, V, U> {
    /// The queried world's state.
    pub closed spec fn world_view(&self) -> WorldView<V, U> {
        self.world@
    }

    /// The query's shape.
    pub closed spec fn shape_view(&self) -> Seq<Term> {
        self.shape@
    }

    /// The query's filter.
    pub closed spec fn filter_view(&self) -> Filter {
        self.filter
    }

    /// The frozen driver.
    pub closed spec fn plan_view(&self) -> DriverPlan {
        self.plan
    }

    /// The query's invariant: the world is well-formed and the driver is
    /// the one selection rules pick, with an `Or` union materialized when
    /// the filter drives through one.
    pub closed spec fn wf(&self) -> bool {
        &&& self.world.wf()
        &&& self.plan == spec_plan(self.shape@, self.filter, self.world@)
        &&& self.plan is Data ==> (self.plan->Data_0 as int) < self.shape@.len()
            && self.shape@[self.plan->Data_0 as int].required() is Some
        &&& (self.plan is Filter && self.filter.spec_slice(self.world@) is None) ==> (
        self.materialized matches Some(m) && Some(m@) == self.filter.spec_union(self.world@))
    }

    /// Builds a query over a shape and filter that do not conflict with
    /// themselves (no type written twice, or written and read: check with
    /// [`collect_shape_access`], [`Filter::collect_access`] and
    /// [`QueryAccess::assert_no_self_conflict`]), freezing the driver.
    pub fn from_world(world: &'w World<V, U>, shape: Vec<Term>, filter: Filter) -> (q: Self)
        requires
            world.wf(),
            query_access(shape@, filter).no_self_conflict(),
        ensures
            q.wf(),
            q.world_view() == world@,
            q.shape_view() == shape@,
            q.filter_view() == filter,
            q.plan_view() == spec_plan(shape@, filter, world@),
    {
        let data = data_candidate_of(world, &shape);
        let flen = filter.candidate_len(world);
        let plan = match (data, flen) {
            (None, None) => DriverPlan::LiveSet,
            (None, Some(_)) => DriverPlan::Filter,
            (Some((i, _)), None) => DriverPlan::Data(i),
            (Some((i, dp)), Some(fp)) => if dp <= fp {
                DriverPlan::Data(i)
            } else {
                DriverPlan::Filter
            },
        };
        let materialized = match plan {
            DriverPlan::Filter => {
                if filter.candidate_slice(world).is_some() {
                    None
                } else {
                    filter.candidate_materialize(world)
                }
            },
            _ => None,
        };
        proof {
            if plan is Filter && filter.spec_slice(world@) is None {
                lemma_len_without_slice_is_union(filter, world@);
            }
        }
        Query { world, shape, filter, plan, materialized }
    }

    /// Folds this query's component access into `access`: the shape's
    /// reads then the filter's, and the shape's writes.
    pub fn record_access(&self, access: &mut QueryAccess)
        ensures
            final(access)@.reads == old(access)@.reads + shape_reads(self.shape_view())
                + self.filter_view().spec_reads(),
            final(access)@.writes == old(access)@.writes + shape_writes(self.shape_view()),
    {
        collect_shape_access(&self.shape, access);
        self.filter.collect_access(access);
    }

    /// The candidate list the frozen driver walks.
    fn driver(&self) -> (d: Vec<Entity>)
        requires
            self.wf(),
        ensures
            d@ == driver_seq(self.shape@, self.filter, self.world@, self.plan),
    {
        match self.plan {
            DriverPlan::LiveSet => self.world.live_entities(),
            DriverPlan::Data(i) => {
                let c = match self.shape[i] {
                    Term::Read(x) => x.id,
                    Term::Write(x) => x.id,
                    _ => {
                        proof {
                            assert(false);
                        }
                        0
                    },
                };
                match self.world.storage(c) {
                    Some(s) => slice_to_vec(s.entities()),
                    None => {
                        let v: Vec<Entity> = Vec::new();
                        proof {
                            assert(v@ =~= Seq::<Entity>::empty());
                        }
                        v
                    },
                }
            },
            DriverPlan::Filter => match self.filter.candidate_slice(self.world) {
                Some(s) => slice_to_vec(s),
                None => match &self.materialized {
                    Some(m) => slice_to_vec(m.as_slice()),
                    None => {
                        proof {
                            assert(false);
                        }
                        Vec::new()
                    },
                },
            },
        }
    }

    /// The number of driver advances one full iteration costs: the length
    /// of the frozen candidate list.
    pub fn driver_steps(&self) -> (n: usize)
        requires
            self.wf(),
        ensures
            n == driver_seq(self.shape_view(), self.filter_view(), self.world_view(), self.plan_view()).len(),
    {
        self.driver().len()
    }

    /// Whether `e` holds every required component and passes the filter.
    fn keeps(&self, e: Entity) -> (r: bool)
        requires
            self.wf(),
        ensures
            r == row_ok(self.shape@, self.filter, self.world@, e),
    {
        let mut k: usize = 0;
        while k < self.shape.len()
            invariant
                self.wf(),
                k <= self.shape@.len(),
                forall|j: int|
                    0 <= j < k && (#[trigger] self.shape@[j]).required() is Some ==> self.world@.has(
                        e,
                        self.shape@[j].required()->0,
                    ),
            decreases self.shape.len() - k,
        {
            match self.shape[k] {
                Term::Read(x) => {
                    if !self.world.contains(e, x.id) {
                        return false;
                    }
                },
                Term::Write(x) => {
                    if !self.world.contains(e, x.id) {
                        return false;
                    }
                },
                _ => {},
            }
            k += 1;
        }
        self.filter.matches(self.world, e)
    }

    /// The row the shape yields for `e`; `e` must hold every required
    /// component.
    fn fetch(&self, e: Entity) -> (row: Row<'w, V>)
        requires
            self.wf(),
            all_required(self.shape@, self.world@, e),
        ensures
            row.entity == e,
            row_matches(self.shape@, self.world@, row),
    {
        let mut items: Vec<Fetched<'w, V>> = Vec::new();
        let mut k: usize = 0;
        while k < self.shape.len()
            invariant
                self.wf(),
                all_required(self.shape@, self.world@, e),
                k <= self.shape@.len(),
                items@.len() == k,
                forall|j: int|
                    0 <= j < k ==> item_ok(self.shape@[j], self.world@, e, #[trigger] items@[j]),
            decreases self.shape.len() - k,
        {
            let it = match self.shape[k] {
                Term::Entity => Fetched::Entity(e),
                Term::Read(x) => match self.world.get(e, x.id) {
                    Some(r) => Fetched::Value(r),
                    None => {
                        proof {
                            assert(self.shape@[k as int].required() is Some);
                        }
                        Fetched::Optional(None)
                    },
                },
                Term::Write(x) => match self.world.get(e, x.id) {
                    Some(r) => Fetched::Value(r),
                    None => {
                        proof {
                            assert(self.shape@[k as int].required() is Some);
                        }
                        Fetched::Optional(None)
                    },
                },
                Term::OptRead(x) => Fetched::Optional(self.world.get(e, x.id)),
                Term::OptWrite(x) => Fetched::Optional(self.world.get(e, x.id)),
            };
            items.push(it);
            k += 1;
        }
        Row { entity: e, items }
    }

    /// The rows, in driver order.
    pub fn iter(&self) -> (rows: Vec<Row<'w, V>>)
        requires
            self.wf(),
        ensures
            rows@.len() == spec_rows(self.shape_view(), self.filter_view(), self.world_view()).len(),
            forall|i: int|
                0 <= i < rows@.len() ==> {
                    &&& (#[trigger] rows@[i]).entity == spec_rows(
                        self.shape_view(),
                        self.filter_view(),
                        self.world_view(),
                    )[i]
                    &&& row_matches(self.shape_view(), self.world_view(), rows@[i])
                },
    {
        let d = self.driver();
        let ghost pred = |e: Entity| row_ok(self.shape@, self.filter, self.world@, e);
        let mut rows: Vec<Row<'w, V>> = Vec::new();
        let mut i: usize = 0;
        while i < d.len()
            invariant
                self.wf(),
                i <= d@.len(),
                d@ == driver_seq(self.shape@, self.filter, self.world@, self.plan),
                pred == (|e: Entity| row_ok(self.shape@, self.filter, self.world@, e)),
                rows@.len() == d@.take(i as int).filter(pred).len(),
                forall|j: int|
                    0 <= j < rows@.len() ==> {
                        &&& (#[trigger] rows@[j]).entity == d@.take(i as int).filter(pred)[j]
                        &&& row_matches(self.shape@, self.world@, rows@[j])
                    },
            decreases d.len() - i,
        {
            let e = d[i];
            let keep = self.keeps(e);
            proof {
                reveal(Seq::filter);
                let t = d@.take(i + 1);
                assert(t.drop_last() == d@.take(i as int));
                assert(t.last() == e);
                assert(pred(e) == keep);
            }
            if keep {
                let row = self.fetch(e);
                rows.push(row);
            }
            i += 1;
        }
        proof {
            assert(d@.take(d@.len() as int) == d@);
        }
        rows
    }

    /// The entities a mutable pass visits, in driver order: the same rows
    /// as [`iter`](Self::iter), whose components the caller then writes
    /// through [`World::get_mut_handle`], which stamps each write with the
    /// world's current tick, so one pass keeps one tick.
    pub fn iter_mut(&self) -> (es: Vec<Entity>)
        requires
            self.wf(),
        ensures
            es@ == spec_rows(self.shape_view(), self.filter_view(), self.world_view()),
    {
        let d = self.driver();
        let ghost pred = |e: Entity| row_ok(self.shape@, self.filter, self.world@, e);
        let mut out: Vec<Entity> = Vec::new();
        let mut i: usize = 0;
        while i < d.len()
            invariant
                self.wf(),
                i <= d@.len(),
                d@ == driver_seq(self.shape@, self.filter, self.world@, self.plan),
                pred == (|e: Entity| row_ok(self.shape@, self.filter, self.world@, e)),
                out@ == d@.take(i as int).filter(pred),
            decreases d.len() - i,
        {
            let e = d[i];
            let keep = self.keeps(e);
            proof {
                reveal(Seq::filter);
                let t = d@.take(i + 1);
                assert(t.drop_last() == d@.take(i as int));
                assert(t.last() == e);
                assert(pred(e) == keep);
            }
            if keep {
                out.push(e);
            }
            i += 1;
        }
        proof {
            assert(d@.take(d@.len() as int) == d@);
        }
        out
    }

    /// Whether random access keeps `e`.
    fn looks_up(&self, e: Entity) -> (r: bool)
        requires
            self.wf(),
        ensures
            r == (self.filter.spec_matches(self.world@, e) && lookup_ok(self.shape@, self.world@, e)),
    {
        if !self.filter.matches(self.world, e) {
            return false;
        }
        let mut any_required = false;
        let mut k: usize = 0;
        while k < self.shape.len()
            invariant
                self.wf(),
                self.filter.spec_matches(self.world@, e),
                k <= self.shape@.len(),
                forall|j: int|
                    0 <= j < k && (#[trigger] self.shape@[j]).required() is Some ==> self.world@.has(
                        e,
                        self.shape@[j].required()->0,
                    ),
                any_required == exists|j: int| 0 <= j < k && (#[trigger] self.shape@[j]).required() is Some,
            decreases self.shape.len() - k,
        {
            match self.shape[k] {
                Term::Read(x) => {
                    any_required = true;
                    if !self.world.contains(e, x.id) {
                        return false;
                    }
                },
                Term::Write(x) => {
                    any_required = true;
                    if !self.world.contains(e, x.id) {
                        return false;
                    }
                },
                _ => {},
            }
            k += 1;
        }
        if !any_required {
            return self.world.is_alive(e);
        }
        true
    }

    /// The row for `e`, or `None` when the filter rejects it or it lacks a
    /// required component.
    pub fn get(&self, e: Entity) -> (r: Option<Row<'w, V>>)
        requires
            self.wf(),
        ensures
            r is Some <==> (self.filter_view().spec_matches(self.world_view(), e) && lookup_ok(
                self.shape_view(),
                self.world_view(),
                e,
            )),
            r matches Some(row) ==> row.entity == e && row_matches(self.shape_view(), self.world_view(), row),
    {
        if self.looks_up(e) {
            Some(self.fetch(e))
        } else {
            None
        }
    }

    /// The entity to write through when `e` is visible to this query
    /// (the same test as [`get`](Self::get)): its components are then
    /// written through the world, which marks each write changed.
    pub fn get_mut(&self, e: Entity) -> (r: Option<Entity>)
        requires
            self.wf(),
        ensures
            r is Some <==> (self.filter_view().spec_matches(self.world_view(), e) && lookup_ok(
                self.shape_view(),
                self.world_view(),
                e,
            )),
            r matches Some(x) ==> x == e,
    {
        if self.looks_up(e) {
            Some(e)
        } else {
            None
        }
    }

    /// Independent [`get`](Self::get)s for each id, in order.
    pub fn get_many(&self, ids: &[Entity]) -> (r: Vec<Option<Row<'w, V>>>)
        requires
            self.wf(),
        ensures
            r@.len() == ids@.len(),
            forall|i: int|
                0 <= i < ids@.len() ==> {
                    &&& ((#[trigger] r@[i]) is Some <==> (self.filter_view().spec_matches(
                        self.world_view(),
                        ids@[i],
                    ) && lookup_ok(self.shape_view(), self.world_view(), ids@[i])))
                    &&& r@[i] matches Some(row) ==> row.entity == ids@[i] && row_matches(
                        self.shape_view(),
                        self.world_view(),
                        row,
                    )
                },
    {
        let mut out: Vec<Option<Row<'w, V>>> = Vec::new();
        let mut i: usize = 0;
        while i < ids.len()
            invariant
                self.wf(),
                i <= ids@.len(),
                out@.len() == i,
                forall|j: int|
                    0 <= j < i ==> {
                        &&& ((#[trigger] out@[j]) is Some <==> (self.filter_view().spec_matches(
                            self.world_view(),
                            ids@[j],
                        ) && lookup_ok(self.shape_view(), self.world_view(), ids@[j])))
                        &&& out@[j] matches Some(row) ==> row.entity == ids@[j] && row_matches(
                            self.shape_view(),
                            self.world_view(),
                            row,
                        )
                    },
            decreases ids.len() - i,
        {
            out.push(self.get(ids[i]));
            i += 1;
        }
        out
    }
}

/// Appends the shape's reads and writes to `access`, in shape order.
pub fn collect_shape_access(shape: &Vec<Term>, access: &mut QueryAccess)
    ensures
        final(access)@.reads == old(access)@.reads + shape_reads(shape@),
        final(access)@.writes == old(access)@.writes + shape_writes(shape@),
{
    let ghost start = access@;
    let mut k: usize = 0;
    while k < shape.len()
        invariant
            k <= shape@.len(),
            access@.reads == start.reads + shape_reads(shape@.take(k as int)),
            access@.writes == start.writes + shape_writes(shape@.take(k as int)),
        decreases shape.len() - k,
    {
        proof {
            assert(shape@.take(k + 1).drop_last() == shape@.take(k as int));
            assert(shape@.take(k + 1).last() == shape@[k as int]);
        }
        let ghost r0 = shape_reads(shape@.take(k as int));
        let ghost w0 = shape_writes(shape@.take(k as int));
        match shape[k] {
            Term::Read(x) => {
                access.add_read(x.id, x.name);
                proof { assert(start.reads + r0.push(x) == (start.reads + r0).push(x)); }
            },
            Term::OptRead(x) => {
                access.add_read(x.id, x.name);
                proof { assert(start.reads + r0.push(x) == (start.reads + r0).push(x)); }
            },
            Term::Write(x) => {
                access.add_write(x.id, x.name);
                proof { assert(start.writes + w0.push(x) == (start.writes + w0).push(x)); }
            },
            Term::OptWrite(x) => {
                access.add_write(x.id, x.name);
                proof { assert(start.writes + w0.push(x) == (start.writes + w0).push(x)); }
            },
            Term::Entity => {},
        }
        k += 1;
    }
    proof {
        assert(shape@.take(shape@.len() as int) == shape@);
    }
}

/// The required element with the smallest population, the earliest on a
/// tie, with that population.
fn data_candidate_of<V, U>(world: &World<V, U>, shape: &Vec<Term>) -> (r: Option<(usize, usize)>)
    requires
        world.wf(),
    ensures
        r is Some <==> data_candidate(shape@, world@) is Some,
        r matches Some(p) ==> p.0 as int == data_candidate(shape@, world@).unwrap().0 && p.1 as nat
            == data_candidate(shape@, world@).unwrap().1,
        r matches Some(p) ==> (p.0 as int) < shape@.len() && shape@[p.0 as int].required() is Some,
{
    let mut best: Option<(usize, usize)> = None;
    let mut k: usize = 0;
    while k < shape.len()
        invariant
            world.wf(),
            k <= shape@.len(),
            best is Some <==> data_candidate(shape@.take(k as int), world@) is Some,
            best matches Some(p) ==> p.0 as int == data_candidate(shape@.take(k as int), world@).unwrap().0
                && p.1 as nat == data_candidate(shape@.take(k as int), world@).unwrap().1,
            best matches Some(p) ==> (p.0 as int) < k && shape@[p.0 as int].required() is Some,
        decreases shape.len() - k,
    {
        proof {
            assert(shape@.take(k + 1).drop_last() == shape@.take(k as int));
            assert(shape@.take(k + 1).last() == shape@[k as int]);
        }
        let c = match shape[k] {
            Term::Read(x) => Some(x.id),
            Term::Write(x) => Some(x.id),
            _ => None,
        };
        match c {
            Some(c) => {
                let p = match world.storage(c) {
                    Some(s) => s.len(),
                    None => 0,
                };
                match best {
                    Some(b) => {
                        if p < b.1 {
                            best = Some((k, p));
                        }
                    },
                    None => {
                        best = Some((k, p));
                    },
                }
            },
            None => {},
        }
        k += 1;
    }
    proof {
        assert(shape@.take(shape@.len() as int) == shape@);
    }
    best
}

/// A copy of the entity slice.
fn slice_to_vec(s: &[Entity]) -> (v: Vec<Entity>)
    ensures
        v@ == s@,
{
    let mut v: Vec<Entity> = Vec::new();
    let mut k: usize = 0;
    while k < s.len()
        invariant
            k <= s@.len(),
            v@ == s@.take(k as int),
        decreases s.len() - k,
    {
        v.push(s[k]);
        proof {
            assert(s@.take(k + 1) == s@.take(k as int).push(s@[k as int]));
        }
        k += 1;
    }
    proof {
        assert(s@.take(s@.len() as int) == s@);
    }
    v
}

/// A filter whose population is known but that offers no single slice is
/// an `Or` whose union exists.
proof fn lemma_len_without_slice_is_union<V, U>(f: Filter, w: WorldView<V, U>)
    requires
        f.spec_len(w) is Some,
        f.spec_slice(w) is None,
    ensures
        f.spec_union(w) is Some,
{
}

/// Filtering keeps exactly the elements that satisfy the predicate and
/// keeps a duplicate-free sequence duplicate-free.
pub proof fn lemma_filter_members<A>(s: Seq<A>, pred: spec_fn(A) -> bool)
    ensures
        forall|x: A| #[trigger] s.filter(pred).contains(x) <==> (s.contains(x) && pred(x)),
        s.no_duplicates() ==> s.filter(pred).no_duplicates(),
    decreases s.len(),
{
    broadcast use vstd::seq_lib::group_filter_ensures;
    assert forall|x: A| #[trigger] s.filter(pred).contains(x) <==> (s.contains(x) && pred(x)) by {
        if s.filter(pred).contains(x) {
            s.lemma_filter_contains_rev(pred, x);
            let j = choose|j: int| 0 <= j < s.filter(pred).len() && s.filter(pred)[j] == x;
            s.lemma_filter_pred(pred, j);
        }
        if s.contains(x) && pred(x) {
            let k = choose|k: int| 0 <= k < s.len() && s[k] == x;
            s.lemma_filter_contains(pred, k);
        }
    }
    if s.len() > 0 {
        reveal(Seq::filter);
        let init = s.drop_last();
        lemma_filter_members(init, pred);
        let fi = init.filter(pred);
        if s.no_duplicates() {
            assert(init.no_duplicates()) by {
                assert forall|a: int, b: int|
                    0 <= a < init.len() && 0 <= b < init.len() && a != b implies init[a] != init[b] by {
                    assert(s[a] == init[a] && s[b] == init[b]);
                }
            }
            if pred(s.last()) {
                assert(!fi.contains(s.last())) by {
                    if fi.contains(s.last()) {
                        assert(init.contains(s.last()));
                        let k = choose|k: int| 0 <= k < init.len() && init[k] == s.last();
                        assert(s[k] == s[s.len() - 1]);
                    }
                }
                let out = s.filter(pred);
                assert(out == fi.push(s.last()));
                assert forall|a: int, b: int|
                    0 <= a < out.len() && 0 <= b < out.len() && a != b implies out[a] != out[b] by {
                    if a < fi.len() && b < fi.len() {
                        assert(out[a] == fi[a] && out[b] == fi[b]);
                    } else if a < fi.len() {
                        assert(out[a] == fi[a]);
                        assert(fi.contains(out[a]));
                    } else {
                        assert(out[b] == fi[b]);
                        assert(fi.contains(out[b]));
                    }
                }
            }
        }
    }
}

/// A filter's slice lists distinct live entities and contains every
/// entity the filter matches.
pub proof fn lemma_slice_facts<V, U>(f: Filter, w: WorldView<V, U>)
    requires
        w.wf(),
    ensures
        f.spec_slice(w) matches Some(l) ==> l.no_duplicates() && forall|k: int|
            0 <= k < l.len() ==> w.alloc.is_alive(#[trigger] l[k]),
        forall|e: Entity|
            f.spec_matches(w, e) && f.spec_slice(w) is Some ==> #[trigger] f.spec_slice(w)->0.contains(e),
    decreases f,
{
    match f {
        Filter::With(x) => lemma_storage_facts(w, x.id),
        Filter::Changed(x) => lemma_storage_facts(w, x.id),
        Filter::Added(x) => lemma_storage_facts(w, x.id),
        Filter::And(v) => {
            assert(decreases_to!(f => v));
            lemma_min_slice_facts(v@, w);
        },
        _ => {},
    }
}

/// The shortest slice among filters lists distinct live entities and
/// contains every entity they all match.
pub proof fn lemma_min_slice_facts<V, U>(s: Seq<Filter>, w: WorldView<V, U>)
    requires
        w.wf(),
    ensures
        min_slice(s, w) matches Some(l) ==> l.no_duplicates() && forall|k: int|
            0 <= k < l.len() ==> w.alloc.is_alive(#[trigger] l[k]),
        forall|e: Entity|
            all_match(s, w, e) && min_slice(s, w) is Some ==> #[trigger] min_slice(s, w)->0.contains(e),
    decreases s,
{
    if s.len() > 0 {
        lemma_min_slice_facts(s.drop_last(), w);
        lemma_slice_facts(s.last(), w);
    }
}

/// A storage's entities are distinct, live, and exactly the entities
/// holding the component.
pub proof fn lemma_storage_facts<V, U>(w: WorldView<V, U>, c: u32)
    requires
        w.wf(),
    ensures
        w.storage_at(c).entities.no_duplicates(),
        forall|k: int|
            0 <= k < w.storage_at(c).entities.len() ==> w.alloc.is_alive(
                #[trigger] w.storage_at(c).entities[k],
            ),
        forall|e: Entity| #[trigger] w.storage_at(c).entities.contains(e) <==> w.has(e, c),
{
    if (c as int) < w.storages.len() {
        lemma_entities_distinct(w.storages[c as int]);
    } else {
        assert forall|e: Entity| !#[trigger] w.storage_at(c).entities.contains(e) by {}
    }
}

/// An entity matched by an `Or` whose every arm has a slice lies in some
/// arm's slice.
pub proof fn lemma_union_covers<V, U>(s: Seq<Filter>, w: WorldView<V, U>, e: Entity)
    requires
        w.wf(),
        all_sliced(s, w),
        any_match(s, w, e),
    ensures
        in_some_slice(s, w, e),
    decreases s.len(),
{
    if s.len() > 0 {
        lemma_slice_facts(s.last(), w);
        if any_match(s.drop_last(), w, e) {
            lemma_union_covers(s.drop_last(), w, e);
        }
    }
}

/// The live entities are distinct and are exactly the live handles.
pub proof fn lemma_live_facts(a: crate::entity::AllocView)
    requires
        a.wf(),
    ensures
        a.live_seq().no_duplicates(),
        forall|e: Entity| #[trigger] a.live_seq().contains(e) <==> a.is_alive(e),
{
    lemma_live_prefix(a, a.alive.len() as int);
    let l = a.live_seq();
    assert forall|i: int, j: int| 0 <= i < l.len() && 0 <= j < l.len() && i != j implies l[i] != l[j] by {
        if i < j {
            assert(l[i].index < l[j].index);
        } else {
            assert(l[j].index < l[i].index);
        }
    }
    assert forall|e: Entity| #[trigger] l.contains(e) <==> a.is_alive(e) by {
        if a.is_alive(e) {
            assert(a.alive[e.index as int]);
        }
        if l.contains(e) {
            let k = choose|k: int| 0 <= k < l.len() && l[k] == e;
            assert(l[k] == e);
        }
    }
}

/// A driver plan that selection could pick: the live set, any required
/// element's population, or the filter when it offers a population.
pub open spec fn plan_valid<V, U>(shape: Seq<Term>, f: Filter, w: WorldView<V, U>, p: DriverPlan) -> bool {
    match p {
        DriverPlan::LiveSet => true,
        DriverPlan::Data(i) => (i as int) < shape.len() && shape[i as int].required() is Some,
        DriverPlan::Filter => f.spec_len(w) is Some,
    }
}

/// Whatever driver iteration walks, it yields each matching live entity
/// exactly once and nothing else: the result set does not depend on the
/// driver choice, only its order does.
pub proof fn law_driver_choice_preserves_result_set<V, U>(
    shape: Seq<Term>,
    f: Filter,
    w: WorldView<V, U>,
    p: DriverPlan,
)
    requires
        w.wf(),
        plan_valid(shape, f, w, p),
    ensures
        rows_under(shape, f, w, p).no_duplicates(),
        forall|e: Entity|
            #[trigger] rows_under(shape, f, w, p).contains(e) <==> (w.alloc.is_alive(e) && row_ok(
                shape,
                f,
                w,
                e,
            )),
{
    let d = driver_seq(shape, f, w, p);
    let pred = |e: Entity| row_ok(shape, f, w, e);
    lemma_live_facts(w.alloc);
    match p {
        DriverPlan::LiveSet => {},
        DriverPlan::Data(i) => {
            let c = shape[i as int].required()->0;
            lemma_storage_facts(w, c);
            assert forall|e: Entity| w.alloc.is_alive(e) && row_ok(shape, f, w, e) implies d.contains(e) by {
                assert(shape[i as int].required() is Some);
            }
            assert forall|e: Entity| d.contains(e) implies w.alloc.is_alive(e) by {
                let k = choose|k: int| 0 <= k < d.len() && d[k] == e;
            }
        },
        DriverPlan::Filter => {
            lemma_slice_facts(f, w);
            match f.spec_slice(w) {
                Some(l) => {
                    assert forall|e: Entity| d.contains(e) implies w.alloc.is_alive(e) by {
                        let k = choose|k: int| 0 <= k < d.len() && d[k] == e;
                    }
                },
                None => {
                    lemma_len_without_slice_is_union(f, w);
                    match f {
                        Filter::Or(v) => {
                            let ip = |e: Entity| in_some_slice(v@, w, e);
                            lemma_filter_members(w.alloc.live_seq(), ip);
                            assert forall|e: Entity| w.alloc.is_alive(e) && row_ok(shape, f, w, e) implies d.contains(e) by {
                                lemma_union_covers(v@, w, e);
                            }
                        },
                        _ => {},
                    }
                },
            }
        },
    }
    lemma_filter_members(d, pred);
}


/// A query that writes a component while its filter tests that same
/// component by presence or change (`With`, `Changed`, `Added`) conflicts
/// with itself: the filter's read meets the shape's write. Under
/// `Without` the same write stands alone and does not conflict.
pub proof fn law_filter_on_a_written_component_self_conflicts(x: Entry)
    ensures
        !query_access(seq![Term::Write(x)], Filter::With(x)).no_self_conflict(),
        !query_access(seq![Term::Write(x)], Filter::Changed(x)).no_self_conflict(),
        !query_access(seq![Term::Write(x)], Filter::Added(x)).no_self_conflict(),
        query_access(seq![Term::Write(x)], Filter::Without(x)).no_self_conflict(),
{
    let shape = seq![Term::Write(x)];
    assert(shape.drop_last() =~= Seq::<Term>::empty());
    assert(shape.last() == Term::Write(x));
    assert(shape_reads(shape.drop_last()) =~= Seq::<Entry>::empty());
    assert(shape_writes(shape.drop_last()) =~= Seq::<Entry>::empty());
    assert(shape_reads(shape) =~= Seq::<Entry>::empty());
    assert(shape_writes(shape) =~= seq![x]);
    crate::filter::law_filter_declares_the_reads_it_names(x, Seq::empty(), x);
    let fs = seq![Filter::With(x), Filter::Changed(x), Filter::Added(x)];
    assert forall|k: int| 0 <= k < 3 implies !query_access(shape, #[trigger] fs[k]).no_self_conflict() by {
        let a = query_access(shape, fs[k]);
        assert(a.reads =~= fs[k].spec_reads());
        assert(a.reads[0] == x);
        assert(a.written_and_read_at(0));
        assert(a.conflict_at(0));
    }
    assert(!query_access(shape, fs[0]).no_self_conflict());
    assert(!query_access(shape, fs[1]).no_self_conflict());
    assert(!query_access(shape, fs[2]).no_self_conflict());
    let a = query_access(shape, Filter::Without(x));
    assert(a.reads =~= Seq::<Entry>::empty());
    assert forall|i: int| 0 <= i < a.writes.len() implies !#[trigger] a.conflict_at(i) by {
        assert(i == 0);
    }
}


/// The storage population of required element `k` of the shape.
pub open spec fn required_population<V, U>(shape: Seq<Term>, w: WorldView<V, U>, k: int) -> nat {
    w.storage_at(shape[k].required()->0).entities.len()
}

/// `data_candidate` finds a required element of least population, the
/// earliest among equals, whenever the shape requires anything.
proof fn lemma_data_candidate<V, U>(shape: Seq<Term>, w: WorldView<V, U>)
    ensures
        data_candidate(shape, w) is None <==> no_required(shape),
        data_candidate(shape, w) matches Some((i, p)) ==> {
            &&& 0 <= i < shape.len()
            &&& shape[i].required() is Some
            &&& p == required_population(shape, w, i)
            &&& forall|k: int|
                0 <= k < shape.len() && (#[trigger] shape[k]).required() is Some ==> p
                    <= required_population(shape, w, k)
            &&& forall|k: int|
                0 <= k < i && (#[trigger] shape[k]).required() is Some ==> p < required_population(
                    shape,
                    w,
                    k,
                )
        },
    decreases shape.len(),
{
    if shape.len() > 0 {
        let q = shape.drop_last();
        lemma_data_candidate(q, w);
        let n = shape.len() - 1;
        assert forall|k: int| 0 <= k < q.len() implies #[trigger] shape[k] == q[k] by {}
        assert forall|k: int| 0 <= k < q.len() implies required_population(shape, w, k)
            == required_population(q, w, k) by {
            assert(shape[k] == q[k]);
        }
        if no_required(shape) {
            assert(no_required(q)) by {
                assert forall|k: int| 0 <= k < q.len() implies (#[trigger] q[k]).required() is None by {
                    assert(shape[k] == q[k]);
                }
            }
            assert(shape[n].required() is None);
        }
        if !no_required(shape) {
            let k0 = choose|k: int| 0 <= k < shape.len() && (#[trigger] shape[k]).required() is Some;
            if k0 < n {
                assert(q[k0] == shape[k0]);
            }
        }
    } else {
        assert(no_required(shape));
    }
}

/// The frozen driver is the smallest candidate, the data shape winning
/// ties: with a required element, the walk is never the live set; a data
/// driver is a required element of least population (the earliest among
/// equals) no larger than the filter's offer, and iteration takes exactly
/// that many steps; the filter drives only when its offer is smaller than
/// every required population.
pub proof fn law_driver_is_the_smallest_candidate<V, U>(shape: Seq<Term>, f: Filter, w: WorldView<V, U>)
    requires
        shape.len() <= usize::MAX,
    ensures
        spec_plan(shape, f, w) is LiveSet <==> (no_required(shape) && f.spec_len(w) is None),
        spec_plan(shape, f, w) matches DriverPlan::Data(i) ==> {
            &&& 0 <= i < shape.len()
            &&& shape[i as int].required() is Some
            &&& forall|k: int|
                0 <= k < shape.len() && (#[trigger] shape[k]).required() is Some
                    ==> required_population(shape, w, i as int) <= required_population(shape, w, k)
            &&& forall|k: int|
                0 <= k < i && (#[trigger] shape[k]).required() is Some ==> required_population(
                    shape,
                    w,
                    i as int,
                ) < required_population(shape, w, k)
            &&& f.spec_len(w) matches Some(fp) ==> required_population(shape, w, i as int) <= fp
            &&& driver_seq(shape, f, w, spec_plan(shape, f, w)).len() == required_population(
                shape,
                w,
                i as int,
            )
        },
        spec_plan(shape, f, w) is Filter ==> {
            &&& f.spec_len(w) is Some
            &&& forall|k: int|
                0 <= k < shape.len() && (#[trigger] shape[k]).required() is Some ==> f.spec_len(
                    w,
                )->0 < required_population(shape, w, k)
        },
{
    lemma_data_candidate(shape, w);
}

} // verus!
