//! The sequential scheduler: a [`Schedule`] groups systems into
//! conflict-free batches and runs them.
//!
//! Each system gets a rank: one more than the highest rank of any earlier
//! system it conflicts with, or 0 when it conflicts with none. Systems of
//! equal rank form one batch, in registration order. Equal rank proves
//! disjoint access, and a conflicting pair keeps registration order.
use vstd::prelude::*;

use crate::access::{Access, law_compatibility_is_symmetric};
use crate::system::IntoSystem;
use crate::world::{World, WorldView};

verus! {

/// Identifies a system within a [`Schedule`]: its registration index.
#[derive(Clone, Copy, Debug, PartialEq, Eq, Hash, Structural)]
pub struct SystemId(pub usize);

/// A registered system: its name, its declared access and its body.
pub struct BoxedSystem<S> {
    pub name: &'static str,
    pub access: Access,
    pub system: S,
}

/// The declared accesses of a run of registered systems.
pub open spec fn access_seq<S>(systems: Seq<BoxedSystem<S>>) -> Seq<Access> {
    systems.map_values(|b: BoxedSystem<S>| b.access)
}

/// System `j` and system `i` cannot share a batch.
pub open spec fn conflicts_at(accs: Seq<Access>, j: int, i: int) -> bool {
    !accs[j].compatible(&accs[i])
}

/// The rank of system `i`: one more than the highest rank of an earlier
/// system it conflicts with, or 0 when there is none.
pub open spec fn rank_of(accs: Seq<Access>, i: int) -> nat
    decreases i, 1int, 0int,
{
    if i < 0 {
        0
    } else {
        max_conflict_rank(accs, i, i)
    }
}

/// The highest `rank + 1` over the systems before `j` that conflict with
/// system `i`, or 0.
pub open spec fn max_conflict_rank(accs: Seq<Access>, i: int, j: int) -> nat
    decreases i, 0int, j,
{
    if j <= 0 || j > i {
        0
    } else {
        let prev = max_conflict_rank(accs, i, j - 1);
        if conflicts_at(accs, j - 1, i) {
            let cand = rank_of(accs, j - 1) + 1;
            if cand > prev {
                cand
            } else {
                prev
            }
        } else {
            prev
        }
    }
}

/// One more than the highest rank among the first `k` systems, or 0.
pub open spec fn batch_count(accs: Seq<Access>, k: int) -> nat
    decreases k,
{
    if k <= 0 {
        0
    } else {
        let prev = batch_count(accs, k - 1);
        let cand = rank_of(accs, k - 1) + 1;
        if cand > prev {
            cand
        } else {
            prev
        }
    }
}

/// The systems among the first `k` whose rank is `r`, in registration
/// order.
pub open spec fn members(accs: Seq<Access>, r: nat, k: int) -> Seq<SystemId>
    decreases k,
{
    if k <= 0 {
        Seq::empty()
    } else {
        let prev = members(accs, r, k - 1);
        if rank_of(accs, k - 1) == r {
            prev.push(SystemId((k - 1) as usize))
        } else {
            prev
        }
    }
}

/// The batch plan: batch `r` holds the systems of rank `r`.
pub open spec fn spec_batches(accs: Seq<Access>) -> Seq<Seq<SystemId>> {
    Seq::new(batch_count(accs, accs.len() as int), |r: int| members(accs, r as nat, accs.len() as int))
}

/// The order in which a plan runs its systems: batch by batch, each
/// batch in its own order.
pub open spec fn plan_order(b: Seq<Seq<SystemId>>) -> Seq<SystemId>
    decreases b.len(),
{
    if b.len() == 0 {
        Seq::empty()
    } else {
        plan_order(b.drop_last()) + b.last()
    }
}

/// Running the systems of `bodies` named by `order`, one after another,
/// takes the world from `before` to `after`.
pub open spec fn runs_in_order<V, U, S: IntoSystem<V, U>>(
    bodies: Seq<S>,
    order: Seq<SystemId>,
    before: WorldView<V, U>,
    after: WorldView<V, U>,
) -> bool
    decreases order.len(),
{
    if order.len() == 0 {
        after == before
    } else {
        exists|mid: WorldView<V, U>|
            #![trigger bodies[order.last().0 as int].spec_run(mid, after)]
            runs_in_order(bodies, order.drop_last(), before, mid) && bodies[order.last().0 as int].spec_run(
                mid,
                after,
            )
    }
}

/// Running one more system extends an ordered run.
proof fn lemma_runs_step<V, U, S: IntoSystem<V, U>>(
    bodies: Seq<S>,
    order: Seq<SystemId>,
    id: SystemId,
    before: WorldView<V, U>,
    mid: WorldView<V, U>,
    after: WorldView<V, U>,
)
    requires
        runs_in_order(bodies, order, before, mid),
        bodies[id.0 as int].spec_run(mid, after),
    ensures
        runs_in_order(bodies, order.push(id), before, after),
{
    let o = order.push(id);
    assert(o.drop_last() =~= order);
    assert(o.last() == id);
    assert(o.len() > 0);
    assert(runs_in_order(bodies, o.drop_last(), before, mid));
    assert(bodies[o.last().0 as int].spec_run(mid, after));
    assert(runs_in_order(bodies, o, before, after));
}

/// `r` is what a flush that stopped at `stop` reports: `Ok` when it ran
/// to the end, else the key it stopped at.
pub open spec fn flush_reports(r: Result<(), u32>, stop: Option<u32>) -> bool {
    &&& (r is Ok <==> stop is None)
    &&& (r matches Err(k) ==> stop == Some(k))
}

/// One run of a schedule whose systems have bodies `bodies` and accesses
/// `accs`: every system once, in plan order, then one flush of the
/// queued commands, whose outcome is `r`.
pub open spec fn schedule_ran<V, U: crate::commands::ResourceUpdate<V>, S: IntoSystem<V, U>>(
    bodies: Seq<S>,
    accs: Seq<Access>,
    before: WorldView<V, U>,
    after: WorldView<V, U>,
    r: Result<(), u32>,
) -> bool {
    exists|mid: WorldView<V, U>|
        #![trigger runs_in_order(bodies, plan_order(spec_batches(accs)), before, mid)]
        runs_in_order(bodies, plan_order(spec_batches(accs)), before, mid) && after
            == mid.flushed().0 && flush_reports(r, mid.flushed().1)
}

/// A plan held as vectors, read as sequences.
pub open spec fn plan_view(b: Seq<Vec<SystemId>>) -> Seq<Seq<SystemId>> {
    b.map_values(|v: Vec<SystemId>| v@)
}

/// `max_conflict_rank(i, j)` is at most `j`; so a rank is at most its
/// index.
proof fn lemma_rank_bound(accs: Seq<Access>, i: int, j: int)
    requires
        0 <= j <= i,
    ensures
        max_conflict_rank(accs, i, j) <= j,
        rank_of(accs, j) <= j,
    decreases i, j,
{
    if j > 0 {
        lemma_rank_bound(accs, i, j - 1);
        lemma_rank_bound(accs, j - 1, j - 1);
    }
    if j < i {
        lemma_rank_bound(accs, j, j);
    }
}

/// A conflicting earlier system `k` bounds `max_conflict_rank` from below.
proof fn lemma_conflict_raises(accs: Seq<Access>, i: int, j: int, k: int)
    requires
        0 <= k < j <= i,
        conflicts_at(accs, k, i),
    ensures
        max_conflict_rank(accs, i, j) >= rank_of(accs, k) + 1,
    decreases j,
{
    if k < j - 1 {
        lemma_conflict_raises(accs, i, j - 1, k);
    }
}

/// Every rank among the first `k` systems is below `batch_count(k)`.
proof fn lemma_batch_count_bound(accs: Seq<Access>, k: int, i: int)
    requires
        0 <= i < k,
    ensures
        rank_of(accs, i) < batch_count(accs, k),
    decreases k,
{
    if i < k - 1 {
        lemma_batch_count_bound(accs, k - 1, i);
    }
}

/// `batch_count(k)` is at most `k`.
proof fn lemma_batch_count_le(accs: Seq<Access>, k: int)
    requires
        0 <= k,
    ensures
        batch_count(accs, k) <= k,
    decreases k,
{
    if k > 0 {
        lemma_batch_count_le(accs, k - 1);
        lemma_rank_bound(accs, k - 1, k - 1);
    }
}

/// The members of a rank are systems of that rank, below `k`, in strictly
/// increasing registration order.
proof fn lemma_members_facts(accs: Seq<Access>, r: nat, k: int)
    requires
        0 <= k <= accs.len(),
        accs.len() <= usize::MAX,
    ensures
        forall|t: int|
            0 <= t < members(accs, r, k).len() ==> {
                &&& (#[trigger] members(accs, r, k)[t]).0 < k
                &&& rank_of(accs, members(accs, r, k)[t].0 as int) == r
            },
        forall|t: int, u: int|
            0 <= t < u < members(accs, r, k).len() ==> (#[trigger] members(accs, r, k)[t]).0 < (
            #[trigger] members(accs, r, k)[u]).0,
    decreases k,
{
    if k > 0 {
        lemma_members_facts(accs, r, k - 1);
        let prev = members(accs, r, k - 1);
        let cur = members(accs, r, k);
        if rank_of(accs, k - 1) == r {
            assert(cur == prev.push(SystemId((k - 1) as usize)));
            assert(cur[prev.len() as int].0 == k - 1);
            assert forall|t: int| 0 <= t < prev.len() implies #[trigger] cur[t] == prev[t] by {}
            assert forall|t: int, u: int| 0 <= t < u < cur.len() implies (#[trigger] cur[t]).0 < (
            #[trigger] cur[u]).0 by {
                if u < prev.len() {
                    assert(cur[t] == prev[t] && cur[u] == prev[u]);
                } else {
                    assert(cur[t] == prev[t]);
                }
            }
        }
    }
}

/// A system lies in the members of its own rank once `k` passes it, and
/// in no other.
proof fn lemma_member_of_own_rank(accs: Seq<Access>, r: nat, k: int, i: int)
    requires
        0 <= i < k <= accs.len(),
        accs.len() <= usize::MAX,
    ensures
        members(accs, r, k).contains(SystemId(i as usize)) == (rank_of(accs, i) == r),
    decreases k,
{
    lemma_members_facts(accs, r, k - 1);
    let prev = members(accs, r, k - 1);
    if i < k - 1 {
        lemma_member_of_own_rank(accs, r, k - 1, i);
        if rank_of(accs, k - 1) == r {
            let cur = prev.push(SystemId((k - 1) as usize));
            if prev.contains(SystemId(i as usize)) {
                let t = choose|t: int| 0 <= t < prev.len() && prev[t] == SystemId(i as usize);
                assert(cur[t] == SystemId(i as usize));
            }
            if cur.contains(SystemId(i as usize)) {
                let t = choose|t: int| 0 <= t < cur.len() && cur[t] == SystemId(i as usize);
                if t < prev.len() {
                    assert(prev[t] == SystemId(i as usize));
                } else {
                    assert(cur[t] == SystemId((k - 1) as usize));
                }
            }
        }
    } else {
        if rank_of(accs, i) == r {
            let cur = prev.push(SystemId(i as usize));
            assert(cur[prev.len() as int] == SystemId(i as usize));
        } else {
            if prev.contains(SystemId(i as usize)) {
                let t = choose|t: int| 0 <= t < prev.len() && prev[t] == SystemId(i as usize);
                assert(prev[t].0 < k - 1);
            }
        }
    }
}

/// A system that conflicts with an earlier one gets a strictly higher
/// rank: conflicting systems run in registration order, in different
/// batches.
pub proof fn law_conflicting_systems_keep_order(accs: Seq<Access>, j: int, i: int)
    requires
        0 <= j < i < accs.len(),
        !accs[j].compatible(&accs[i]),
    ensures
        rank_of(accs, j) < rank_of(accs, i),
{
    lemma_conflict_raises(accs, i, i, j);
}

/// Two systems in the same batch are compatible, in both directions:
/// a batch can run concurrently.
pub proof fn law_batch_members_are_compatible(accs: Seq<Access>, r: int, x: int, y: int)
    requires
        accs.len() <= usize::MAX,
        0 <= r < spec_batches(accs).len(),
        0 <= x < spec_batches(accs)[r].len(),
        0 <= y < spec_batches(accs)[r].len(),
        x != y,
    ensures
        accs[spec_batches(accs)[r][x].0 as int].compatible(&accs[spec_batches(accs)[r][y].0 as int]),
{
    let n = accs.len() as int;
    let m = members(accs, r as nat, n);
    assert(spec_batches(accs)[r] == m);
    lemma_members_facts(accs, r as nat, n);
    let a = m[x].0 as int;
    let b = m[y].0 as int;
    assert(rank_of(accs, a) == r && rank_of(accs, b) == r);
    if x < y {
        assert(a < b);
        if !accs[a].compatible(&accs[b]) {
            law_conflicting_systems_keep_order(accs, a, b);
        }
    } else {
        assert(b < a);
        if !accs[b].compatible(&accs[a]) {
            law_conflicting_systems_keep_order(accs, b, a);
        }
        law_compatibility_is_symmetric(accs[a].comps(), accs[b].comps());
        law_compatibility_is_symmetric(accs[a].res(), accs[b].res());
    }
}

/// The plan partitions the systems: each lies in the batch of its rank
/// and in no other, and batches list their systems in registration
/// order.
pub proof fn law_every_system_in_exactly_one_batch(accs: Seq<Access>, i: int)
    requires
        accs.len() <= usize::MAX,
        0 <= i < accs.len(),
    ensures
        rank_of(accs, i) < spec_batches(accs).len(),
        forall|r: int|
            0 <= r < spec_batches(accs).len() ==> (#[trigger] spec_batches(accs)[r]).contains(
                SystemId(i as usize),
            ) == (r == rank_of(accs, i)),
        forall|r: int, t: int, u: int|
            0 <= r < spec_batches(accs).len() && 0 <= t < u < spec_batches(accs)[r].len() ==> (
            #[trigger] spec_batches(accs)[r][t]).0 < (#[trigger] spec_batches(accs)[r][u]).0,
{
    let n = accs.len() as int;
    lemma_batch_count_bound(accs, n, i);
    assert forall|r: int|
        0 <= r < spec_batches(accs).len() implies (#[trigger] spec_batches(accs)[r]).contains(
        SystemId(i as usize),
    ) == (r == rank_of(accs, i)) by {
        lemma_member_of_own_rank(accs, r as nat, n, i);
    }
    assert forall|r: int, t: int, u: int|
        0 <= r < spec_batches(accs).len() && 0 <= t < u < spec_batches(accs)[r].len() implies (
        #[trigger] spec_batches(accs)[r][t]).0 < (#[trigger] spec_batches(accs)[r][u]).0 by {
        lemma_members_facts(accs, r as nat, n);
    }
}

/// The first `r` batches of the plan list no system twice, only systems
/// of rank below `r`, and every such system.
proof fn lemma_plan_prefix(accs: Seq<Access>, r: int)
    requires
        accs.len() <= usize::MAX,
        0 <= r <= spec_batches(accs).len(),
    ensures
        plan_order(spec_batches(accs).take(r)).no_duplicates(),
        forall|t: int|
            0 <= t < plan_order(spec_batches(accs).take(r)).len() ==> {
                &&& (#[trigger] plan_order(spec_batches(accs).take(r))[t]).0 < accs.len()
                &&& rank_of(accs, plan_order(spec_batches(accs).take(r))[t].0 as int) < r
            },
        forall|i: int|
            0 <= i < accs.len() && rank_of(accs, i) < r ==> plan_order(
                spec_batches(accs).take(r),
            ).contains(SystemId(i as usize)),
    decreases r,
{
    let b = spec_batches(accs);
    let n = accs.len() as int;
    if r == 0 {
        assert(b.take(0) =~= Seq::<Seq<SystemId>>::empty());
    } else {
        lemma_plan_prefix(accs, r - 1);
        let p = plan_order(b.take(r - 1));
        let m = b[r - 1];
        assert(b.take(r).drop_last() =~= b.take(r - 1));
        assert(b.take(r).last() == m);
        let q = plan_order(b.take(r));
        assert(q == p + m);
        assert(m == members(accs, (r - 1) as nat, n));
        lemma_members_facts(accs, (r - 1) as nat, n);
        assert forall|t: int| 0 <= t < q.len() implies {
            &&& (#[trigger] q[t]).0 < accs.len()
            &&& rank_of(accs, q[t].0 as int) < r
        } by {
            if t < p.len() {
                assert(q[t] == p[t]);
            } else {
                assert(q[t] == m[t - p.len()]);
            }
        }
        assert(q.no_duplicates()) by {
            assert forall|t1: int, t2: int| 0 <= t1 < q.len() && 0 <= t2 < q.len() && t1 != t2 implies q[t1]
                != q[t2] by {
                if t1 < p.len() && t2 < p.len() {
                    assert(q[t1] == p[t1] && q[t2] == p[t2]);
                } else if t1 >= p.len() && t2 >= p.len() {
                    assert(q[t1] == m[t1 - p.len()] && q[t2] == m[t2 - p.len()]);
                    if t1 < t2 {
                        assert(m[t1 - p.len()].0 < m[t2 - p.len()].0);
                    } else {
                        assert(m[t2 - p.len()].0 < m[t1 - p.len()].0);
                    }
                } else if t1 < p.len() {
                    assert(q[t1] == p[t1] && q[t2] == m[t2 - p.len()]);
                    assert(rank_of(accs, p[t1].0 as int) < r - 1);
                } else {
                    assert(q[t2] == p[t2] && q[t1] == m[t1 - p.len()]);
                    assert(rank_of(accs, p[t2].0 as int) < r - 1);
                }
            }
        }
        assert forall|i: int| 0 <= i < accs.len() && rank_of(accs, i) < r implies q.contains(
            SystemId(i as usize),
        ) by {
            if rank_of(accs, i) < r - 1 {
                let t = choose|t: int| 0 <= t < p.len() && p[t] == SystemId(i as usize);
                assert(q[t] == p[t]);
            } else {
                law_every_system_in_exactly_one_batch(accs, i);
                assert(b[r - 1].contains(SystemId(i as usize)));
                let t = choose|t: int| 0 <= t < m.len() && m[t] == SystemId(i as usize);
                assert(q[p.len() + t] == m[t]);
            }
        }
    }
}

/// The plan runs every registered system exactly once: its order lists
/// each of them, none twice, and nothing else.
pub proof fn law_plan_runs_each_system_once(accs: Seq<Access>)
    requires
        accs.len() <= usize::MAX,
    ensures
        plan_order(spec_batches(accs)).no_duplicates(),
        forall|i: int|
            #![trigger rank_of(accs, i)]
            0 <= i < accs.len() ==> rank_of(accs, i) < spec_batches(accs).len() && plan_order(
                spec_batches(accs),
            ).contains(SystemId(i as usize)),
        forall|t: int|
            0 <= t < plan_order(spec_batches(accs)).len() ==> (#[trigger] plan_order(
                spec_batches(accs),
            )[t]).0 < accs.len(),
{
    let b = spec_batches(accs);
    lemma_plan_prefix(accs, b.len() as int);
    assert(b.take(b.len() as int) =~= b);
    assert forall|i: int| 0 <= i < accs.len() implies rank_of(accs, i) < b.len() && plan_order(
        b,
    ).contains(SystemId(i as usize)) by {
        law_every_system_in_exactly_one_batch(accs, i);
    }
}

/// A positive `max_conflict_rank` is reached by some conflicting
/// earlier system.
proof fn lemma_max_witness(accs: Seq<Access>, i: int, j: int)
    requires
        0 <= j <= i,
        max_conflict_rank(accs, i, j) > 0,
    ensures
        exists|k: int|
            0 <= k < j && conflicts_at(accs, k, i) && #[trigger] rank_of(accs, k) + 1
                == max_conflict_rank(accs, i, j),
    decreases j,
{
    let prev = max_conflict_rank(accs, i, j - 1);
    if conflicts_at(accs, j - 1, i) && rank_of(accs, j - 1) + 1 > prev {
        assert(rank_of(accs, j - 1) + 1 == max_conflict_rank(accs, i, j));
    } else {
        lemma_max_witness(accs, i, j - 1);
    }
}

/// A system's rank is one more than the highest rank of an earlier system
/// it conflicts with: every such system ranks lower, and, when the rank is
/// not 0, one of them ranks exactly one lower.
pub proof fn law_rank_is_one_above_highest_conflict(accs: Seq<Access>, i: int)
    requires
        0 <= i < accs.len(),
    ensures
        forall|j: int|
            0 <= j < i && conflicts_at(accs, j, i) ==> #[trigger] rank_of(accs, j) < rank_of(accs, i),
        rank_of(accs, i) > 0 ==> exists|j: int|
            0 <= j < i && conflicts_at(accs, j, i) && #[trigger] rank_of(accs, j) + 1 == rank_of(
                accs,
                i,
            ),
{
    assert forall|j: int| 0 <= j < i && conflicts_at(accs, j, i) implies #[trigger] rank_of(accs, j)
        < rank_of(accs, i) by {
        lemma_conflict_raises(accs, i, i, j);
    }
    if rank_of(accs, i) > 0 {
        lemma_max_witness(accs, i, i);
    }
}

/// Every rank from 0 up to a system's own is held by some system at or
/// before it.
proof fn lemma_rank_reached(accs: Seq<Access>, i: int, r: int)
    requires
        0 <= i < accs.len(),
        0 <= r <= rank_of(accs, i),
    ensures
        exists|j: int| 0 <= j <= i && #[trigger] rank_of(accs, j) == r,
    decreases rank_of(accs, i) - r,
{
    if rank_of(accs, i) == r {
        assert(rank_of(accs, i) == r);
    } else {
        law_rank_is_one_above_highest_conflict(accs, i);
        let j = choose|j: int|
            0 <= j < i && conflicts_at(accs, j, i) && #[trigger] rank_of(accs, j) + 1 == rank_of(
                accs,
                i,
            );
        lemma_rank_reached(accs, j, r);
    }
}

/// `batch_count(k)`, when positive, is one more than some system's rank.
proof fn lemma_batch_count_witness(accs: Seq<Access>, k: int)
    requires
        0 < k,
    ensures
        exists|i: int| 0 <= i < k && #[trigger] rank_of(accs, i) + 1 == batch_count(accs, k),
    decreases k,
{
    if rank_of(accs, k - 1) + 1 > batch_count(accs, k - 1) {
        assert(rank_of(accs, k - 1) + 1 == batch_count(accs, k));
    } else {
        if k - 1 == 0 {
            assert(false);
        }
        lemma_batch_count_witness(accs, k - 1);
    }
}

/// No batch of the plan is empty.
pub proof fn law_no_batch_is_empty(accs: Seq<Access>, r: int)
    requires
        accs.len() <= usize::MAX,
        0 <= r < spec_batches(accs).len(),
    ensures
        spec_batches(accs)[r].len() > 0,
{
    let n = accs.len() as int;
    lemma_batch_count_le(accs, n);
    lemma_batch_count_witness(accs, n);
    let top = choose|i: int| 0 <= i < n && #[trigger] rank_of(accs, i) + 1 == batch_count(accs, n);
    lemma_rank_reached(accs, top, r);
    let j = choose|j: int| 0 <= j <= top && #[trigger] rank_of(accs, j) == r;
    lemma_member_of_own_rank(accs, r as nat, n, j);
    assert(spec_batches(accs)[r] == members(accs, r as nat, n));
}

/// A system's rank is 0 exactly when no earlier system conflicts with it:
/// batches are filled as early as possible.
pub proof fn law_unconflicted_system_joins_first_batch(accs: Seq<Access>, i: int)
    requires
        0 <= i < accs.len(),
    ensures
        (rank_of(accs, i) == 0) == (forall|j: int| 0 <= j < i ==> !conflicts_at(accs, j, i)),
{
    if exists|j: int| 0 <= j < i && conflicts_at(accs, j, i) {
        let j = choose|j: int| 0 <= j < i && conflicts_at(accs, j, i);
        lemma_conflict_raises(accs, i, i, j);
    } else {
        lemma_no_conflict_zero(accs, i, i);
    }
}

/// With no conflicting system before `j`, `max_conflict_rank` is 0.
proof fn lemma_no_conflict_zero(accs: Seq<Access>, i: int, j: int)
    requires
        0 <= j <= i,
        forall|k: int| 0 <= k < i ==> !conflicts_at(accs, k, i),
    ensures
        max_conflict_rank(accs, i, j) == 0,
    decreases j,
{
    if j > 0 {
        lemma_no_conflict_zero(accs, i, j - 1);
    }
}

/// Every id in the plan names a registered system.
proof fn lemma_plan_ids_in_range(accs: Seq<Access>, r: int, t: int)
    requires
        accs.len() <= usize::MAX,
        0 <= r < spec_batches(accs).len(),
        0 <= t < spec_batches(accs)[r].len(),
    ensures
        (spec_batches(accs)[r][t].0 as int) < accs.len(),
{
    assert(spec_batches(accs)[r] == members(accs, r as nat, accs.len() as int));
    lemma_members_facts(accs, r as nat, accs.len() as int);
}

/// Partitions systems into access-disjoint batches by rank.
fn build_batches<S>(systems: &Vec<BoxedSystem<S>>) -> (b: Vec<Vec<SystemId>>)
    ensures
        plan_view(b@) == spec_batches(access_seq(systems@)),
{
    let ghost accs = access_seq(systems@);
    let n = systems.len();
    let mut rank: Vec<usize> = Vec::new();
    let mut i: usize = 0;
    while i < n
        invariant
            n == systems@.len(),
            accs == access_seq(systems@),
            i <= n,
            rank@.len() == i,
            forall|k: int| 0 <= k < i ==> rank@[k] as nat == rank_of(accs, k),
        decreases n - i,
    {
        let mut r: usize = 0;
        let mut j: usize = 0;
        while j < i
            invariant
                n == systems@.len(),
                accs == access_seq(systems@),
                i < n,
                j <= i,
                rank@.len() == i,
                forall|k: int| 0 <= k < i ==> rank@[k] as nat == rank_of(accs, k),
                r as nat == max_conflict_rank(accs, i as int, j as int),
            decreases i - j,
        {
            proof {
                assert(accs[j as int] == systems@[j as int].access);
                assert(accs[i as int] == systems@[i as int].access);
                lemma_rank_bound(accs, j as int, j as int);
            }
            if !systems[j].access.compatible_with(&systems[i].access) {
                let cand = rank[j] + 1;
                if cand > r {
                    r = cand;
                }
            }
            j += 1;
        }
        rank.push(r);
        i += 1;
    }
    let mut count: usize = 0;
    let mut k: usize = 0;
    while k < n
        invariant
            n == systems@.len(),
            accs == access_seq(systems@),
            k <= n,
            rank@.len() == n,
            forall|t: int| 0 <= t < n ==> rank@[t] as nat == rank_of(accs, t),
            count as nat == batch_count(accs, k as int),
        decreases n - k,
    {
        proof {
            lemma_rank_bound(accs, k as int, k as int);
        }
        if rank[k] + 1 > count {
            count = rank[k] + 1;
        }
        k += 1;
    }
    let mut batches: Vec<Vec<SystemId>> = Vec::new();
    let mut r: usize = 0;
    while r < count
        invariant
            r <= count,
            batches@.len() == r,
            forall|q: int| 0 <= q < r ==> (#[trigger] batches@[q])@.len() == 0,
        decreases count - r,
    {
        batches.push(Vec::new());
        r += 1;
    }
    let mut i: usize = 0;
    while i < n
        invariant
            n == systems@.len(),
            accs == access_seq(systems@),
            i <= n,
            rank@.len() == n,
            forall|t: int| 0 <= t < n ==> rank@[t] as nat == rank_of(accs, t),
            count as nat == batch_count(accs, n as int),
            batches@.len() == count,
            forall|q: int| 0 <= q < count ==> (#[trigger] batches@[q])@ == members(accs, q as nat, i as int),
        decreases n - i,
    {
        proof {
            lemma_batch_count_bound(accs, n as int, i as int);
        }
        let q = rank[i];
        let ghost prev = batches@;
        batches[q].push(SystemId(i));
        proof {
            assert forall|p: int| 0 <= p < count implies (#[trigger] batches@[p])@ == members(accs, p as nat, i + 1) by {
                if p == q as int {
                    assert(batches@[p]@ == prev[p]@.push(SystemId(i)));
                } else {
                    assert(batches@[p] == prev[p]);
                }
            }
        }
        i += 1;
    }
    proof {
        assert(plan_view(batches@) =~= spec_batches(accs));
    }
    batches
}

/// A runnable group of systems, batched by access conflicts.
pub struct Schedule<S> {
    systems: Vec<BoxedSystem<S>>,
    batches: Option<Vec<Vec<SystemId>>>,
}

impl<S> Schedule<S> {
    /// The registered systems' accesses, in registration order.
    pub closed spec fn accesses(&self) -> Seq<Access> {
        access_seq(self.systems@)
    }

    /// The registered systems' names, in registration order.
    pub closed spec fn names(&self) -> Seq<&'static str> {
        self.systems@.map_values(|b: BoxedSystem<S>| b.name)
    }

    /// The registered systems' bodies, in registration order.
    pub closed spec fn bodies(&self) -> Seq<S> {
        self.systems@.map_values(|b: BoxedSystem<S>| b.system)
    }

    /// The cached plan is absent or is the plan of the current systems.
    pub closed spec fn wf(&self) -> bool {
        self.batches matches Some(b) ==> plan_view(b@) == spec_batches(self.accesses())
    }

    /// The cached plan, if one is built.
    pub closed spec fn cached(&self) -> Option<Seq<Seq<SystemId>>> {
        match self.batches {
            Some(b) => Some(plan_view(b@)),
            None => None,
        }
    }

    /// An empty schedule.
    pub fn new() -> (s: Self)
        ensures
            s.wf(),
            s.accesses().len() == 0,
            s.names().len() == 0,
            s.bodies().len() == 0,
            s.cached() is None,
    {
        Schedule { systems: Vec::new(), batches: None }
    }

    /// Number of registered systems.
    pub fn len(&self) -> (n: usize)
        ensures
            n == self.accesses().len(),
    {
        self.systems.len()
    }

    /// The declared access of system `i`.
    pub fn access_of(&self, i: usize) -> (a: &Access)
        requires
            (i as int) < self.accesses().len(),
        ensures
            *a == self.accesses()[i as int],
    {
        &self.systems[i].access
    }

    /// Registers `system` with the access it declares and marks the plan
    /// stale.
    pub fn add_system<V, U>(&mut self, system: S) -> (r: &mut Self) where S: IntoSystem<V, U>
        ensures
            r.wf(),
            r.accesses().len() == old(self).accesses().len() + 1,
            r.accesses().drop_last() == old(self).accesses(),
            r.bodies() == old(self).bodies().push(system),
            r.names() == old(self).names().push(system.spec_name()),
            r.accesses().last().comps() == system.spec_access().comps(),
            r.accesses().last().res() == system.spec_access().res(),
            r.cached() is None,
            *final(r) == *final(self),
    {
        let name = system.name();
        let access = system.access();
        let ghost prev = self.systems@;
        self.systems.push(BoxedSystem { name, access, system });
        self.batches = None;
        proof {
            assert(self.accesses().drop_last() =~= access_seq(prev));
            assert(self.names() =~= prev.map_values(|b: BoxedSystem<S>| b.name).push(name));
            assert(self.bodies() =~= prev.map_values(|b: BoxedSystem<S>| b.system).push(system));
        }
        self
    }

    /// The batch plan, rebuilt if a system was added since it was last
    /// built: batch `r` holds, in registration order, the systems of rank
    /// `r`.
    pub fn batches(&mut self) -> (b: &[Vec<SystemId>])
        requires
            old(self).wf(),
        ensures
            final(self).wf(),
            plan_view(b@) == spec_batches(old(self).accesses()),
            final(self).accesses() == old(self).accesses(),
            final(self).names() == old(self).names(),
            final(self).bodies() == old(self).bodies(),
            final(self).cached() == Some(spec_batches(old(self).accesses())),
    {
        if self.batches.is_none() {
            self.batches = Some(build_batches(&self.systems));
        }
        match &self.batches {
            Some(b) => b.as_slice(),
            None => {
                proof {
                    assert(false);
                }
                &[]
            },
        }
    }

    /// Names of the registered systems, in registration order.
    pub fn system_names(&self) -> (r: Vec<&'static str>)
        ensures
            r@ == self.names(),
    {
        let mut r: Vec<&'static str> = Vec::new();
        let mut i: usize = 0;
        while i < self.systems.len()
            invariant
                i <= self.systems@.len(),
                r@ == self.names().take(i as int),
            decreases self.systems.len() - i,
        {
            r.push(self.systems[i].name);
            proof {
                assert(self.names().take(i + 1) == self.names().take(i as int).push(
                    self.systems@[i as int].name,
                ));
            }
            i += 1;
        }
        proof {
            assert(self.names().take(self.names().len() as int) == self.names());
        }
        r
    }

    /// Runs every system once, batch by batch and in registration order
    /// within a batch, then applies the queued commands once. Reports the
    /// key of the first queued update that found its resource absent.
    pub fn run<V, U: crate::commands::ResourceUpdate<V>>(&mut self, world: &mut World<V, U>) -> (r:
        Result<(), u32>) where S: IntoSystem<V, U>
        requires
            old(self).wf(),
            old(world).wf(),
        ensures
            final(self).wf(),
            final(world).wf(),
            final(self).accesses() == old(self).accesses(),
            final(self).names() == old(self).names(),
            final(self).cached() == Some(spec_batches(old(self).accesses())),
            final(world)@.pending.len() == 0,
            schedule_ran(old(self).bodies(), old(self).accesses(), old(world)@, final(world)@, r),
            old(self).accesses().len() == 0 ==> {
                &&& final(world)@ == old(world)@.flushed().0
                &&& (r is Ok <==> old(world)@.flushed().1 is None)
                &&& r matches Err(k) ==> old(world)@.flushed().1 == Some(k)
            },
    {
        let plan = match self.batches.take() {
            Some(b) => b,
            None => build_batches(&self.systems),
        };
        let ghost accs = self.accesses();
        let ghost names = self.names();
        let ghost bodies = self.bodies();
        let ghost plan_s = spec_batches(accs);
        let ghost w0 = world@;
        let n0 = self.systems.len();
        proof {
            assert(accs.len() == n0);
            if accs.len() == 0 {
                assert(batch_count(accs, 0) == 0);
                assert(plan_view(plan@).len() == 0);
            }
            assert(plan_s.take(0) =~= Seq::<Seq<SystemId>>::empty());
        }
        let mut bi: usize = 0;
        while bi < plan.len()
            invariant
                accs.len() <= usize::MAX,
                world.wf(),
                self.accesses() == accs,
                self.names() == names,
                plan_view(plan@) == spec_batches(accs),
                plan_s == spec_batches(accs),
                bi <= plan@.len(),
                accs == old(self).accesses(),
                bodies == old(self).bodies(),
                w0 == old(world)@,
                self.bodies().len() == bodies.len(),
                bodies.len() == accs.len(),
                forall|i: int|
                    0 <= i < accs.len() && rank_of(accs, i) >= bi ==> #[trigger] self.bodies()[i]
                        == bodies[i],
                runs_in_order(bodies, plan_order(plan_s.take(bi as int)), w0, world@),
                accs.len() == 0 ==> plan@.len() == 0 && world@ == old(world)@,
            decreases plan.len() - bi,
        {
            let batch = &plan[bi];
            let ghost done0 = plan_order(plan_s.take(bi as int));
            proof {
                assert(plan_view(plan@)[bi as int] == batch@);
                assert(batch@.take(0) =~= Seq::<SystemId>::empty());
                assert(done0 + batch@.take(0) =~= done0);
            }
            let mut k: usize = 0;
            while k < batch.len()
                invariant
                    accs.len() <= usize::MAX,
                    world.wf(),
                    self.accesses() == accs,
                    self.names() == names,
                    plan_view(plan@) == spec_batches(accs),
                    plan_s == spec_batches(accs),
                    bi < plan@.len(),
                    batch == plan@[bi as int],
                    batch@ == plan_s[bi as int],
                    k <= batch@.len(),
                    bodies == old(self).bodies(),
                    self.bodies().len() == bodies.len(),
                    bodies.len() == accs.len(),
                    forall|i: int|
                        0 <= i < accs.len() && (rank_of(accs, i) > bi || (rank_of(accs, i) == bi
                            && !batch@.take(k as int).contains(SystemId(i as usize))))
                            ==> #[trigger] self.bodies()[i] == bodies[i],
                    runs_in_order(bodies, done0 + batch@.take(k as int), w0, world@),
                decreases batch.len() - k,
            {
                let idx = batch[k].0;
                proof {
                    lemma_plan_ids_in_range(accs, bi as int, k as int);
                    law_every_system_in_exactly_one_batch(accs, idx as int);
                    assert(plan_s[bi as int].contains(SystemId(idx)));
                    assert(rank_of(accs, idx as int) == bi);
                    if batch@.take(k as int).contains(SystemId(idx)) {
                        let t = choose|t: int|
                            0 <= t < k && batch@.take(k as int)[t] == SystemId(idx);
                        assert(plan_s[bi as int][t].0 < plan_s[bi as int][k as int].0);
                    }
                    assert(self.bodies()[idx as int] == bodies[idx as int]);
                }
                let ghost before = self.systems@;
                let ghost bb = self.bodies();
                let ghost wb = world@;
                self.systems[idx].system.run(world);
                proof {
                    assert(self.accesses() =~= access_seq(before));
                    assert(self.names() =~= before.map_values(|b: BoxedSystem<S>| b.name));
                    assert(self.systems@ == before.update(idx as int, self.systems@[idx as int]));
                    let done1 = done0 + batch@.take(k + 1);
                    assert(done1 =~= (done0 + batch@.take(k as int)).push(SystemId(idx)));
                    assert(done1.drop_last() =~= done0 + batch@.take(k as int));
                    assert(done1.last() == SystemId(idx));
                    assert(bodies[idx as int].spec_run(wb, world@));
                    lemma_runs_step(bodies, done0 + batch@.take(k as int), SystemId(idx), w0, wb, world@);
                    assert forall|i: int|
                        0 <= i < accs.len() && (rank_of(accs, i) > bi || (rank_of(accs, i) == bi
                            && !batch@.take(k + 1).contains(SystemId(i as usize)))) implies #[trigger] self.bodies()[i]
                        == bodies[i] by {
                        if i != idx as int {
                            assert(self.bodies()[i] == before[i].system);
                            assert(bb[i] == before[i].system);
                            if rank_of(accs, i) == bi && batch@.take(k as int).contains(SystemId(i as usize)) {
                                let t = choose|t: int|
                                    0 <= t < k && batch@.take(k as int)[t] == SystemId(i as usize);
                                assert(batch@.take(k + 1)[t] == SystemId(i as usize));
                            }
                        } else {
                            assert(batch@.take(k + 1)[k as int] == SystemId(idx));
                            assert(batch@.take(k + 1).contains(SystemId(idx)));
                        }
                    }
                }
                k += 1;
            }
            proof {
                let p1 = plan_s.take(bi + 1);
                assert(p1.drop_last() =~= plan_s.take(bi as int));
                assert(p1.last() == plan_s[bi as int]);
                assert(batch@.take(batch@.len() as int) =~= batch@);
                assert(plan_order(p1) == done0 + batch@);
                assert forall|i: int|
                    0 <= i < accs.len() && rank_of(accs, i) >= bi + 1 implies #[trigger] self.bodies()[i]
                        == bodies[i] by {
                    assert(rank_of(accs, i) > bi);
                }
            }
            bi += 1;
        }
        proof {
            assert(plan_s.take(plan@.len() as int) =~= plan_s);
        }
        self.batches = Some(plan);
        let ghost mid = world@;
        let r = world.flush_commands();
        proof {
            assert(flush_reports(r, mid.flushed().1));
            assert(plan_order(plan_s) == plan_order(spec_batches(old(self).accesses())));
            assert(runs_in_order(bodies, plan_order(spec_batches(old(self).accesses())), w0, mid));
        }
        r
    }
}

} // verus!
