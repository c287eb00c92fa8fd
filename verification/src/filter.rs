//! Query filters: narrow *which* entities a query yields without changing
//! *what* it yields.
//!
//! `With(c)` / `Without(c)` test presence; `Changed(c)` / `Added(c)` test
//! the entry's changed / attach tick against the running system's parked
//! baseline with a wrapping-aware relative-age comparison; `And` / `Or`
//! combine. Presence-style filters also offer a *candidate* list that can
//! drive a query's iteration when it is the smallest.
use vstd::prelude::*;

use crate::access::{Entry, QueryAccess};
use crate::entity::Entity;
use crate::world::{World, WorldView};

verus! {

/// `a - b`, wrapping at 2^32.
pub open spec fn wrapping_sub(a: u32, b: u32) -> u32 {
    if a >= b {
        (a - b) as u32
    } else {
        (a + 0x1_0000_0000int - b) as u32
    }
}

/// Whether a write stamped at `tick` happened after an observation at
/// `baseline`, as seen from the clock's `current` value: the write is
/// younger than the observation.
pub open spec fn spec_changed_since(current: u32, tick: u32, baseline: u32) -> bool {
    wrapping_sub(current, tick) < wrapping_sub(current, baseline)
}

/// Wrapping-aware "written since the baseline": compares the ages of the
/// write and of the baseline relative to the clock's current value, which
/// stays correct across a wrap of the clock.
pub fn is_changed_since(current: u32, tick: u32, baseline: u32) -> (r: bool)
    ensures
        r == spec_changed_since(current, tick, baseline),
{
    current.wrapping_sub(tick) < current.wrapping_sub(baseline)
}

/// A write stamped exactly at the baseline is never "since" it, whatever
/// the clock reads; and a write stamped at the current tick is seen by
/// every baseline short of a full lap of the clock.
pub proof fn law_change_window_spans_the_full_clock(current: u32, tick: u32, baseline: u32)
    ensures
        !spec_changed_since(current, tick, tick),
        baseline != current ==> spec_changed_since(current, current, baseline),
        !spec_changed_since(current, current, current),
{
}

/// A filter over entities.
pub enum Filter {
    /// Matches everything.
    All,
    /// The entity holds the component.
    With(Entry),
    /// The entity lacks the component.
    Without(Entry),
    /// The component was written since the running system's baseline.
    Changed(Entry),
    /// The component was attached since the running system's baseline.
    Added(Entry),
    /// Every sub-filter matches.
    And(Vec<Filter>),
    /// Some sub-filter matches.
    Or(Vec<Filter>),
}

/// `a + b`, saturating at `usize::MAX`.
pub open spec fn sat_add(a: nat, b: nat) -> nat {
    if a + b > usize::MAX {
        usize::MAX as nat
    } else {
        a + b
    }
}

impl Filter {
    /// Whether `e` passes the filter in world state `w`.
    pub open spec fn spec_matches<V, U>(self, w: WorldView<V, U>, e: Entity) -> bool
        decreases self,
    {
        match self {
            Filter::All => true,
            Filter::With(x) => w.has(e, x.id),
            Filter::Without(x) => !w.has(e, x.id),
            Filter::Changed(x) => w.has(e, x.id) && spec_changed_since(
                w.storage_at(x.id).tick,
                w.storage_at(x.id).changed_of(e),
                w.baseline(x.id),
            ),
            Filter::Added(x) => w.has(e, x.id) && spec_changed_since(
                w.storage_at(x.id).tick,
                w.storage_at(x.id).added_of(e),
                w.baseline(x.id),
            ),
            Filter::And(v) => all_match(v@, w, e),
            Filter::Or(v) => any_match(v@, w, e),
        }
    }

    /// The single-storage candidate list the filter can drive from, if any:
    /// a presence-style filter's storage population, or an `And`'s smallest
    /// candidate (the earliest on a tie).
    pub open spec fn spec_slice<V, U>(self, w: WorldView<V, U>) -> Option<Seq<Entity>>
        decreases self,
    {
        match self {
            Filter::With(x) => Some(w.storage_at(x.id).entities),
            Filter::Changed(x) => Some(w.storage_at(x.id).entities),
            Filter::Added(x) => Some(w.storage_at(x.id).entities),
            Filter::And(v) => min_slice(v@, w),
            _ => None,
        }
    }

    /// The candidate population the filter offers for driver selection:
    /// its slice's length, or for an `Or` whose every arm has a slice the
    /// (saturating) sum of the arms' lengths.
    pub open spec fn spec_len<V, U>(self, w: WorldView<V, U>) -> Option<nat> {
        match self {
            Filter::Or(v) => if all_sliced(v@, w) {
                Some(slice_len_sum(v@, w))
            } else {
                None
            },
            _ => match self.spec_slice(w) {
                Some(s) => Some(s.len()),
                None => None,
            },
        }
    }

    /// The deduplicated union an `Or` drives from when every arm has a
    /// slice: the live entities, in slot order, that lie in some arm.
    pub open spec fn spec_union<V, U>(self, w: WorldView<V, U>) -> Option<Seq<Entity>> {
        match self {
            Filter::Or(v) => if all_sliced(v@, w) {
                Some(w.alloc.live_seq().filter(|e: Entity| in_some_slice(v@, w, e)))
            } else {
                None
            },
            _ => None,
        }
    }

    /// The reads the filter declares: every component key it names, except
    /// under `Without`, which declares nothing.
    pub open spec fn spec_reads(self) -> Seq<Entry>
        decreases self,
    {
        match self {
            Filter::With(x) => seq![x],
            Filter::Changed(x) => seq![x],
            Filter::Added(x) => seq![x],
            Filter::And(v) => reads_of(v@),
            Filter::Or(v) => reads_of(v@),
            _ => Seq::empty(),
        }
    }
}

/// Every filter of `s` matches.
pub open spec fn all_match<V, U>(s: Seq<Filter>, w: WorldView<V, U>, e: Entity) -> bool
    decreases s,
{
    if s.len() == 0 {
        true
    } else {
        all_match(s.drop_last(), w, e) && s.last().spec_matches(w, e)
    }
}

/// Some filter of `s` matches.
pub open spec fn any_match<V, U>(s: Seq<Filter>, w: WorldView<V, U>, e: Entity) -> bool
    decreases s,
{
    if s.len() == 0 {
        false
    } else {
        any_match(s.drop_last(), w, e) || s.last().spec_matches(w, e)
    }
}

/// The shortest slice offered by a filter of `s` (the earliest on a tie).
pub open spec fn min_slice<V, U>(s: Seq<Filter>, w: WorldView<V, U>) -> Option<Seq<Entity>>
    decreases s,
{
    if s.len() == 0 {
        None
    } else {
        let best = min_slice(s.drop_last(), w);
        match s.last().spec_slice(w) {
            Some(l) => match best {
                Some(b) => if l.len() < b.len() {
                    Some(l)
                } else {
                    Some(b)
                },
                None => Some(l),
            },
            None => best,
        }
    }
}

/// Every filter of `s` offers a slice.
pub open spec fn all_sliced<V, U>(s: Seq<Filter>, w: WorldView<V, U>) -> bool
    decreases s.len(),
{
    if s.len() == 0 {
        true
    } else {
        all_sliced(s.drop_last(), w) && s.last().spec_slice(w) is Some
    }
}

/// The saturating sum of the slice lengths of `s`.
pub open spec fn slice_len_sum<V, U>(s: Seq<Filter>, w: WorldView<V, U>) -> nat
    decreases s.len(),
{
    if s.len() == 0 {
        0
    } else {
        sat_add(
            slice_len_sum(s.drop_last(), w),
            match s.last().spec_slice(w) {
                Some(l) => l.len(),
                None => 0,
            },
        )
    }
}

/// `e` lies in the slice of some filter of `s`.
pub open spec fn in_some_slice<V, U>(s: Seq<Filter>, w: WorldView<V, U>, e: Entity) -> bool
    decreases s.len(),
{
    if s.len() == 0 {
        false
    } else {
        in_some_slice(s.drop_last(), w, e) || match s.last().spec_slice(w) {
            Some(l) => l.contains(e),
            None => false,
        }
    }
}

/// The reads declared by the filters of `s`, in order.
pub open spec fn reads_of(s: Seq<Filter>) -> Seq<Entry>
    decreases s,
{
    if s.len() == 0 {
        Seq::empty()
    } else {
        reads_of(s.drop_last()) + s.last().spec_reads()
    }
}

impl Filter {
    /// Whether `e` passes the filter.
    pub fn matches<V, U>(&self, world: &World<V, U>, e: Entity) -> (r: bool)
        requires
            world.wf(),
        ensures
            r == self.spec_matches(world@, e),
        decreases self,
    {
        match self {
            Filter::All => true,
            Filter::With(x) => world.contains(e, x.id),
            Filter::Without(x) => !world.contains(e, x.id),
            Filter::Changed(x) => match world.storage(x.id) {
                None => false,
                Some(s) => match s.changed_tick_for(e) {
                    None => false,
                    Some(t) => is_changed_since(s.current_tick(), t, world.baseline_for(x.id)),
                },
            },
            Filter::Added(x) => match world.storage(x.id) {
                None => false,
                Some(s) => match s.added_tick_for(e) {
                    None => false,
                    Some(t) => is_changed_since(s.current_tick(), t, world.baseline_for(x.id)),
                },
            },
            Filter::And(v) => all_children_match(v, world, e),
            Filter::Or(v) => any_child_matches(v, world, e),
        }
    }

    /// The candidate list the filter can drive from, if it has one.
    pub fn candidate_slice<'w, V, U>(&self, world: &'w World<V, U>) -> (r: Option<&'w [Entity]>)
        requires
            world.wf(),
        ensures
            r is Some <==> self.spec_slice(world@) is Some,
            r matches Some(s) ==> s@ == self.spec_slice(world@)->0,
        decreases self,
    {
        match self {
            Filter::With(x) => Some(storage_entities(world, x.id)),
            Filter::Changed(x) => Some(storage_entities(world, x.id)),
            Filter::Added(x) => Some(storage_entities(world, x.id)),
            Filter::And(v) => min_child_slice(v, world),
            _ => None,
        }
    }

    /// The candidate population offered for driver selection.
    pub fn candidate_len<V, U>(&self, world: &World<V, U>) -> (r: Option<usize>)
        requires
            world.wf(),
        ensures
            r is Some <==> self.spec_len(world@) is Some,
            r matches Some(n) ==> n == self.spec_len(world@)->0,
    {
        match self {
            Filter::Or(v) => {
                let mut total: usize = 0;
                let mut k: usize = 0;
                while k < v.len()
                    invariant
                        world.wf(),
                        *self == Filter::Or(*v),
                        k <= v@.len(),
                        all_sliced(v@.take(k as int), world@),
                        total == slice_len_sum(v@.take(k as int), world@),
                    decreases v.len() - k,
                {
                    proof {
                        assert(v@.take(k + 1).drop_last() == v@.take(k as int));
                        assert(v@.take(k + 1).last() == v@[k as int]);
                    }
                    match v[k].candidate_slice(world) {
                        Some(l) => {
                            total = total.saturating_add(l.len());
                        },
                        None => {
                            proof {
                                assert(!all_sliced(v@.take(k + 1), world@));
                                lemma_all_sliced_prefix(v@, world@, k + 1);
                            }
                            return None;
                        },
                    }
                    k += 1;
                }
                proof {
                    assert(v@.take(v@.len() as int) == v@);
                }
                Some(total)
            },
            _ => match self.candidate_slice(world) {
                Some(s) => Some(s.len()),
                None => None,
            },
        }
    }

    /// Whether `e` lies in the filter's candidate slice (false when it has
    /// none).
    pub fn in_slice<V, U>(&self, world: &World<V, U>, e: Entity) -> (r: bool)
        requires
            world.wf(),
        ensures
            r == match self.spec_slice(world@) {
                Some(l) => l.contains(e),
                None => false,
            },
    {
        match self.candidate_slice(world) {
            None => false,
            Some(l) => slice_contains(l, e),
        }
    }

    /// The deduplicated, slot-ordered union an `Or` drives from, when
    /// every arm offers a slice.
    pub fn candidate_materialize<V, U>(&self, world: &World<V, U>) -> (r: Option<Vec<Entity>>)
        requires
            world.wf(),
        ensures
            r is Some <==> self.spec_union(world@) is Some,
            r matches Some(u) ==> u@ == self.spec_union(world@)->0,
    {
        match self {
            Filter::Or(v) => {
                let mut k: usize = 0;
                while k < v.len()
                    invariant
                        world.wf(),
                        *self == Filter::Or(*v),
                        k <= v@.len(),
                        all_sliced(v@.take(k as int), world@),
                    decreases v.len() - k,
                {
                    proof {
                        assert(v@.take(k + 1).drop_last() == v@.take(k as int));
                        assert(v@.take(k + 1).last() == v@[k as int]);
                    }
                    if v[k].candidate_slice(world).is_none() {
                        proof {
                            assert(!all_sliced(v@.take(k + 1), world@));
                            lemma_all_sliced_prefix(v@, world@, k + 1);
                        }
                        return None;
                    }
                    k += 1;
                }
                proof {
                    assert(v@.take(v@.len() as int) == v@);
                }
                let live = world.live_entities();
                let ghost pred = |e: Entity| in_some_slice(v@, world@, e);
                let mut out: Vec<Entity> = Vec::new();
                let mut i: usize = 0;
                while i < live.len()
                    invariant
                        world.wf(),
                        i <= live@.len(),
                        live@ == world@.alloc.live_seq(),
                        pred == (|e: Entity| in_some_slice(v@, world@, e)),
                        out@ == live@.take(i as int).filter(pred),
                    decreases live.len() - i,
                {
                    proof {
                        assert(live@.take(i + 1).drop_last() == live@.take(i as int));
                        assert(live@.take(i + 1).last() == live@[i as int]);
                    }
                    let keep = in_some_arm(v, world, live[i]);
                    proof {
                        assert(pred(live@[i as int]) == keep);
                        let t = live@.take(i + 1);
                        reveal(Seq::filter);
                        assert(t.drop_last().filter(pred) == live@.take(i as int).filter(pred));
                        if keep {
                            assert(t.filter(pred) == live@.take(i as int).filter(pred).push(live@[i as int]));
                        } else {
                            assert(t.filter(pred) == live@.take(i as int).filter(pred));
                        }
                    }
                    if keep {
                        out.push(live[i]);
                    }
                    i += 1;
                }
                proof {
                    assert(live@.take(live@.len() as int) == live@);
                }
                Some(out)
            },
            _ => None,
        }
    }

    /// Records the filter's declared reads into `access`.
    pub fn collect_access(&self, access: &mut QueryAccess)
        ensures
            final(access)@.reads == old(access)@.reads + self.spec_reads(),
            final(access)@.writes == old(access)@.writes,
        decreases self,
    {
        match self {
            Filter::With(x) => {
                access.add_read(x.id, x.name);
            },
            Filter::Changed(x) => {
                access.add_read(x.id, x.name);
            },
            Filter::Added(x) => {
                access.add_read(x.id, x.name);
            },
            Filter::And(v) => {
                collect_all(v, access);
            },
            Filter::Or(v) => {
                collect_all(v, access);
            },
            _ => {
                proof {
                    assert(old(access)@.reads + Seq::<Entry>::empty() == old(access)@.reads);
                }
            },
        }
    }
}

/// Whether every filter of `v` matches `e`.
fn all_children_match<V, U>(v: &Vec<Filter>, world: &World<V, U>, e: Entity) -> (r: bool)
    requires
        world.wf(),
    ensures
        r == all_match(v@, world@, e),
    decreases v@,
{
    let mut k: usize = 0;
    while k < v.len()
        invariant
            world.wf(),
            k <= v@.len(),
            all_match(v@.take(k as int), world@, e),
        decreases v.len() - k,
    {
        proof {
            assert(v@.take(k + 1).drop_last() == v@.take(k as int));
            assert(v@.take(k + 1).last() == v@[k as int]);
            assert(decreases_to!(v@ => v@[k as int]));
        }
        if !v[k].matches(world, e) {
            proof {
                assert(!all_match(v@.take(k + 1), world@, e));
                lemma_all_match_prefix(v@, world@, e, k + 1);
            }
            return false;
        }
        k += 1;
    }
    proof {
        assert(v@.take(v@.len() as int) == v@);
    }
    true
}

/// Whether some filter of `v` matches `e`.
fn any_child_matches<V, U>(v: &Vec<Filter>, world: &World<V, U>, e: Entity) -> (r: bool)
    requires
        world.wf(),
    ensures
        r == any_match(v@, world@, e),
    decreases v@,
{
    let mut k: usize = 0;
    while k < v.len()
        invariant
            world.wf(),
            k <= v@.len(),
            !any_match(v@.take(k as int), world@, e),
        decreases v.len() - k,
    {
        proof {
            assert(v@.take(k + 1).drop_last() == v@.take(k as int));
            assert(v@.take(k + 1).last() == v@[k as int]);
            assert(decreases_to!(v@ => v@[k as int]));
        }
        if v[k].matches(world, e) {
            proof {
                assert(any_match(v@.take(k + 1), world@, e));
                lemma_any_match_prefix(v@, world@, e, k + 1);
            }
            return true;
        }
        k += 1;
    }
    proof {
        assert(v@.take(v@.len() as int) == v@);
    }
    false
}

/// The shortest slice offered by a filter of `v`, the earliest on a tie.
fn min_child_slice<'w, V, U>(v: &Vec<Filter>, world: &'w World<V, U>) -> (r: Option<&'w [Entity]>)
    requires
        world.wf(),
    ensures
        r is Some <==> min_slice(v@, world@) is Some,
        r matches Some(b) ==> b@ == min_slice(v@, world@)->0,
    decreases v@,
{
    let mut best: Option<&'w [Entity]> = None;
    let mut k: usize = 0;
    while k < v.len()
        invariant
            world.wf(),
            k <= v@.len(),
            best is Some <==> min_slice(v@.take(k as int), world@) is Some,
            best matches Some(b) ==> b@ == min_slice(v@.take(k as int), world@)->0,
        decreases v.len() - k,
    {
        proof {
            assert(v@.take(k + 1).drop_last() == v@.take(k as int));
            assert(v@.take(k + 1).last() == v@[k as int]);
            assert(decreases_to!(v@ => v@[k as int]));
        }
        match v[k].candidate_slice(world) {
            Some(l) => {
                match best {
                    Some(b) => {
                        if l.len() < b.len() {
                            best = Some(l);
                        }
                    },
                    None => {
                        best = Some(l);
                    },
                }
            },
            None => {},
        }
        k += 1;
    }
    proof {
        assert(v@.take(v@.len() as int) == v@);
    }
    best
}

/// Records the reads of every filter of `v` into `access`.
fn collect_all(v: &Vec<Filter>, access: &mut QueryAccess)
    ensures
        final(access)@.reads == old(access)@.reads + reads_of(v@),
        final(access)@.writes == old(access)@.writes,
    decreases v@,
{
    let ghost r0 = access@.reads;
    let mut k: usize = 0;
    while k < v.len()
        invariant
            k <= v@.len(),
            access@.reads == r0 + reads_of(v@.take(k as int)),
            access@.writes == old(access)@.writes,
        decreases v.len() - k,
    {
        proof {
            assert(v@.take(k + 1).drop_last() == v@.take(k as int));
            assert(v@.take(k + 1).last() == v@[k as int]);
            assert(decreases_to!(v@ => v@[k as int]));
        }
        v[k].collect_access(access);
        proof {
            assert(r0 + reads_of(v@.take(k as int)) + v@[k as int].spec_reads() == r0 + (reads_of(
                v@.take(k as int),
            ) + v@[k as int].spec_reads()));
        }
        k += 1;
    }
    proof {
        assert(v@.take(v@.len() as int) == v@);
    }
}

/// Whether `e` lies in the slice of some arm of `v`.
fn in_some_arm<V, U>(v: &Vec<Filter>, world: &World<V, U>, e: Entity) -> (r: bool)
    requires
        world.wf(),
    ensures
        r == in_some_slice(v@, world@, e),
{
    let mut k: usize = 0;
    while k < v.len()
        invariant
            world.wf(),
            k <= v@.len(),
            !in_some_slice(v@.take(k as int), world@, e),
        decreases v.len() - k,
    {
        proof {
            assert(v@.take(k + 1).drop_last() == v@.take(k as int));
            assert(v@.take(k + 1).last() == v@[k as int]);
        }
        if v[k].in_slice(world, e) {
            proof {
                lemma_in_some_slice_prefix(v@, world@, e, k + 1);
            }
            return true;
        }
        k += 1;
    }
    proof {
        assert(v@.take(v@.len() as int) == v@);
    }
    false
}

/// The entities of component `c`'s storage (empty when it has none).
fn storage_entities<V, U>(world: &World<V, U>, c: u32) -> (r: &[Entity])
    requires
        world.wf(),
    ensures
        r@ == world@.storage_at(c).entities,
{
    match world.storage(c) {
        Some(s) => s.entities(),
        None => {
            let empty: &[Entity] = &[];
            proof {
                assert(empty@ =~= Seq::<Entity>::empty());
            }
            empty
        },
    }
}

/// Whether `e` occurs in `s`.
pub fn slice_contains(s: &[Entity], e: Entity) -> (r: bool)
    ensures
        r == s@.contains(e),
{
    let mut k: usize = 0;
    while k < s.len()
        invariant
            k <= s@.len(),
            forall|j: int| 0 <= j < k ==> s@[j] != e,
        decreases s.len() - k,
    {
        if s[k] == e {
            proof {
                assert(s@[k as int] == e);
            }
            return true;
        }
        k += 1;
    }
    false
}

/// A failing filter within a prefix makes the whole conjunction fail.
proof fn lemma_all_match_prefix<V, U>(s: Seq<Filter>, w: WorldView<V, U>, e: Entity, k: int)
    requires
        0 < k <= s.len(),
        !all_match(s.take(k), w, e),
    ensures
        !all_match(s, w, e),
    decreases s.len() - k,
{
    if k < s.len() {
        assert(s.take(k + 1).drop_last() == s.take(k));
        lemma_all_match_prefix(s, w, e, k + 1);
    } else {
        assert(s.take(k) == s);
    }
}

/// A matching filter within a prefix makes the disjunction match.
proof fn lemma_any_match_prefix<V, U>(s: Seq<Filter>, w: WorldView<V, U>, e: Entity, k: int)
    requires
        0 < k <= s.len(),
        any_match(s.take(k), w, e),
    ensures
        any_match(s, w, e),
    decreases s.len() - k,
{
    if k < s.len() {
        assert(s.take(k + 1).drop_last() == s.take(k));
        lemma_any_match_prefix(s, w, e, k + 1);
    } else {
        assert(s.take(k) == s);
    }
}

/// A prefix without a slice means the whole sequence lacks one.
proof fn lemma_all_sliced_prefix<V, U>(s: Seq<Filter>, w: WorldView<V, U>, k: int)
    requires
        0 < k <= s.len(),
        !all_sliced(s.take(k), w),
    ensures
        !all_sliced(s, w),
    decreases s.len() - k,
{
    if k < s.len() {
        assert(s.take(k + 1).drop_last() == s.take(k));
        lemma_all_sliced_prefix(s, w, k + 1);
    } else {
        assert(s.take(k) == s);
    }
}

/// Membership in some slice of a prefix carries over to the whole.
proof fn lemma_in_some_slice_prefix<V, U>(s: Seq<Filter>, w: WorldView<V, U>, e: Entity, k: int)
    requires
        0 < k <= s.len(),
        in_some_slice(s.take(k), w, e),
    ensures
        in_some_slice(s, w, e),
    decreases s.len() - k,
{
    if k < s.len() {
        assert(s.take(k + 1).drop_last() == s.take(k));
        lemma_in_some_slice_prefix(s, w, e, k + 1);
    } else {
        assert(s.take(k) == s);
    }
}


/// The reads of a list of filters are exactly the reads of its members.
proof fn lemma_reads_of_members(s: Seq<Filter>, y: Entry)
    ensures
        reads_of(s).contains(y) <==> exists|i: int|
            0 <= i < s.len() && (#[trigger] s[i]).spec_reads().contains(y),
    decreases s.len(),
{
    if s.len() > 0 {
        let p = s.drop_last();
        lemma_reads_of_members(p, y);
        let a = reads_of(p);
        let b = s.last().spec_reads();
        assert(reads_of(s) == a + b);
        if reads_of(s).contains(y) {
            let t = choose|t: int| 0 <= t < (a + b).len() && (a + b)[t] == y;
            if t < a.len() {
                assert(a[t] == y);
                let i = choose|i: int| 0 <= i < p.len() && (#[trigger] p[i]).spec_reads().contains(y);
                assert(s[i] == p[i]);
            } else {
                assert(b[t - a.len()] == y);
                assert(s[s.len() - 1].spec_reads().contains(y));
            }
        }
        if exists|i: int| 0 <= i < s.len() && (#[trigger] s[i]).spec_reads().contains(y) {
            let i = choose|i: int| 0 <= i < s.len() && (#[trigger] s[i]).spec_reads().contains(y);
            if i < p.len() {
                assert(p[i] == s[i]);
                let t = choose|t: int| 0 <= t < a.len() && a[t] == y;
                assert((a + b)[t] == y);
            } else {
                let t = choose|t: int| 0 <= t < b.len() && b[t] == y;
                assert((a + b)[a.len() + t] == y);
            }
        }
    }
}

/// A filter declares a read of every component it names by presence or
/// change (`With`, `Changed`, `Added`), at any depth under `And` and
/// `Or`, and nothing else: `Without` and `All` declare nothing, and a
/// combination declares exactly what its members declare.
pub proof fn law_filter_declares_the_reads_it_names(x: Entry, v: Seq<Filter>, y: Entry)
    ensures
        Filter::With(x).spec_reads().contains(x),
        Filter::Changed(x).spec_reads().contains(x),
        Filter::Added(x).spec_reads().contains(x),
        Filter::With(x).spec_reads().len() == 1,
        Filter::Changed(x).spec_reads().len() == 1,
        Filter::Added(x).spec_reads().len() == 1,
        Filter::Without(x).spec_reads().len() == 0,
        Filter::All.spec_reads().len() == 0,
        reads_of(v).contains(y) <==> exists|i: int|
            0 <= i < v.len() && (#[trigger] v[i]).spec_reads().contains(y),
{
    assert(Filter::With(x).spec_reads()[0] == x);
    assert(Filter::Changed(x).spec_reads()[0] == x);
    assert(Filter::Added(x).spec_reads()[0] == x);
    lemma_reads_of_members(v, y);
}

/// `And` and `Or` declare the reads of their members, whatever those are.
pub proof fn law_combined_filter_declares_its_members_reads(f: Filter, y: Entry)
    ensures
        f matches Filter::And(v) ==> (f.spec_reads().contains(y) <==> exists|i: int|
            0 <= i < v@.len() && (#[trigger] v@[i]).spec_reads().contains(y)),
        f matches Filter::Or(v) ==> (f.spec_reads().contains(y) <==> exists|i: int|
            0 <= i < v@.len() && (#[trigger] v@[i]).spec_reads().contains(y)),
{
    match f {
        Filter::And(v) => lemma_reads_of_members(v@, y),
        Filter::Or(v) => lemma_reads_of_members(v@, y),
        _ => {},
    }
}

} // verus!
