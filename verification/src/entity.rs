//! Entity identity and the generational allocator that hands it out.
//!
//! An [`Entity`] names one thing for its lifetime: a slot `index` plus the
//! slot's `generation` at allocation time. Destroying an entity bumps its
//! slot's generation, so an old handle to a recycled slot no longer matches
//! and is rejected by [`EntityAllocator::is_alive`].
use vstd::prelude::*;

verus! {

/// Copyable handle that names one entity: a slot index and the slot's
/// generation at the time the entity was allocated.
#[derive(Copy, Clone, PartialEq, Eq, Structural, Debug, Hash)]
pub struct Entity {
    pub index: u32,
    pub generation: u32,
}

impl Entity {
    /// Builds a handle from its two parts. Only the allocator hands out
    /// handles that name live entities; a handle built here names nothing
    /// until the allocator agrees.
    pub fn from_parts(index: u32, generation: u32) -> (e: Entity)
        ensures
            e.index == index,
            e.generation == generation,
    {
        Entity { index, generation }
    }
}

/// The abstract state of an [`EntityAllocator`]: per-slot generation and
/// liveness, and the stack of free slots (last element is reused first).
pub struct AllocView {
    pub generation: Seq<u32>,
    pub alive: Seq<bool>,
    pub free: Seq<u32>,
}

impl AllocView {
    /// Number of slots ever handed out.
    pub open spec fn slot_count(self) -> nat {
        self.generation.len()
    }

    /// Well-formedness: parallel arrays, slot indices fit a `u32`, and the
    /// free stack holds exactly the dead slots, each once.
    pub open spec fn wf(self) -> bool {
        &&& self.generation.len() == self.alive.len()
        &&& self.generation.len() <= u32::MAX as nat + 1
        &&& self.free.no_duplicates()
        &&& forall|k: int| 0 <= k < self.free.len() ==> {
            &&& (#[trigger] self.free[k]) < self.generation.len()
            &&& !self.alive[self.free[k] as int]
        }
        &&& forall|i: int|
            0 <= i < self.alive.len() && !#[trigger] self.alive[i] ==> self.free.contains(
                i as u32,
            )
    }

    /// `e` names a currently-live entity: its slot is live and carries the
    /// same generation.
    pub open spec fn is_alive(self, e: Entity) -> bool {
        &&& (e.index as int) < self.alive.len()
        &&& self.alive[e.index as int]
        &&& self.generation[e.index as int] == e.generation
    }

    /// `allocate` can run without exhausting the `u32` index space.
    pub open spec fn can_allocate(self) -> bool {
        self.free.len() > 0 || self.generation.len() <= u32::MAX as nat
    }

    /// The state after `allocate`, and the handle it returns: pop the most
    /// recently freed slot and reuse it at its current generation, or append
    /// a fresh slot at generation 0.
    pub open spec fn after_allocate(self) -> (AllocView, Entity) {
        if self.free.len() > 0 {
            let index = self.free.last();
            (
                AllocView {
                    generation: self.generation,
                    alive: self.alive.update(index as int, true),
                    free: self.free.drop_last(),
                },
                Entity { index, generation: self.generation[index as int] },
            )
        } else {
            (
                AllocView {
                    generation: self.generation.push(0),
                    alive: self.alive.push(true),
                    free: self.free,
                },
                Entity { index: self.generation.len() as u32, generation: 0 },
            )
        }
    }

    /// The state after `destroy(e)`, and what it returns: on a live handle,
    /// bump the slot's generation (wrapping), clear its liveness and push the
    /// slot onto the free stack; on anything else, no change.
    pub open spec fn after_destroy(self, e: Entity) -> (AllocView, bool) {
        if self.is_alive(e) {
            let i = e.index as int;
            (
                AllocView {
                    generation: self.generation.update(
                        i,
                        if self.generation[i] == u32::MAX {
                            0u32
                        } else {
                            (self.generation[i] + 1) as u32
                        },
                    ),
                    alive: self.alive.update(i, false),
                    free: self.free.push(e.index),
                },
                true,
            )
        } else {
            (self, false)
        }
    }

    /// The set of live slot indices.
    pub open spec fn live_slots(self) -> Set<int> {
        Set::new(|i: int| 0 <= i < self.alive.len() && self.alive[i])
    }

    /// The live entities among the first `n` slots, in slot order.
    pub open spec fn live_prefix(self, n: int) -> Seq<Entity>
        decreases n,
    {
        if n <= 0 {
            Seq::empty()
        } else {
            let rest = self.live_prefix(n - 1);
            if self.alive[n - 1] {
                rest.push(Entity { index: (n - 1) as u32, generation: self.generation[n - 1] })
            } else {
                rest
            }
        }
    }

    /// Every live entity, in slot-index order.
    pub open spec fn live_seq(self) -> Seq<Entity> {
        self.live_prefix(self.alive.len() as int)
    }

    /// `h` has been handed out by this allocator: it is live, or its slot
    /// has since moved on to a later generation.
    pub open spec fn issued(self, h: Entity) -> bool {
        &&& (h.index as int) < self.generation.len()
        &&& (h.generation < self.generation[h.index as int] || (h.generation
            == self.generation[h.index as int] && self.alive[h.index as int]))
    }
}

/// Generational allocator for [`Entity`] handles.
///
/// `allocate` reuses the most recently freed slot at its current
/// generation, or appends a fresh slot at generation 0; `destroy` bumps the
/// slot's generation, clears its liveness and pushes it on the free stack.
#[derive(Debug)]
pub struct EntityAllocator {
    generation: Vec<u32>,
    free_list: Vec<u32>,
    alive: Vec<bool>,
}

impl View for EntityAllocator {
    type V = AllocView;

    closed spec fn view(&self) -> AllocView {
        AllocView { generation: self.generation@, alive: self.alive@, free: self.free_list@ }
    }
}

/// Removing the last element of a duplicate-free sequence leaves a
/// duplicate-free sequence without that element.
proof fn lemma_drop_last_no_dup(s: Seq<u32>)
    requires
        s.len() > 0,
        s.no_duplicates(),
    ensures
        s.drop_last().no_duplicates(),
        !s.drop_last().contains(s.last()),
        forall|x: u32| #[trigger] s.contains(x) ==> x == s.last() || s.drop_last().contains(x),
{
    assert forall|x: u32| #[trigger] s.contains(x) implies x == s.last() || s.drop_last().contains(
        x,
    ) by {
        let k = choose|k: int| 0 <= k < s.len() && s[k] == x;
        if k < s.len() - 1 {
            assert(s.drop_last()[k] == x);
        }
    }
}

/// The live prefix over `n` slots lists exactly the live slots below `n`,
/// each with its slot's generation, in strictly increasing index order.
pub proof fn lemma_live_prefix(v: AllocView, n: int)
    requires
        v.wf(),
        0 <= n <= v.alive.len(),
    ensures
        forall|k: int|
            0 <= k < v.live_prefix(n).len() ==> {
                let e = #[trigger] v.live_prefix(n)[k];
                &&& (e.index as int) < n
                &&& v.alive[e.index as int]
                &&& v.generation[e.index as int] == e.generation
            },
        forall|k1: int, k2: int|
            0 <= k1 < k2 < v.live_prefix(n).len() ==> (#[trigger] v.live_prefix(n)[k1]).index
                < (#[trigger] v.live_prefix(n)[k2]).index,
        forall|i: int|
            0 <= i < n && #[trigger] v.alive[i] ==> v.live_prefix(n).contains(
                Entity { index: i as u32, generation: v.generation[i] },
            ),
        v.live_prefix(n).len() <= n,
    decreases n,
{
    if n > 0 {
        lemma_live_prefix(v, n - 1);
        let rest = v.live_prefix(n - 1);
        if v.alive[n - 1] {
            let e = Entity { index: (n - 1) as u32, generation: v.generation[n - 1] };
            assert(v.live_prefix(n) == rest.push(e));
            assert forall|i: int| 0 <= i < n && #[trigger] v.alive[i] implies v.live_prefix(
                n,
            ).contains(Entity { index: i as u32, generation: v.generation[i] }) by {
                if i < n - 1 {
                    let w = Entity { index: i as u32, generation: v.generation[i] };
                    let k = choose|k: int| 0 <= k < rest.len() && rest[k] == w;
                    assert(v.live_prefix(n)[k] == w);
                } else {
                    assert(v.live_prefix(n)[rest.len() as int] == e);
                }
            }
        }
    }
}

impl EntityAllocator {
    /// Well-formedness of the allocator's parallel arrays and free stack.
    pub open spec fn wf(&self) -> bool {
        self@.wf()
    }

    /// Creates an empty allocator.
    pub fn new() -> (a: Self)
        ensures
            a.wf(),
            a@.generation.len() == 0,
            a@.alive.len() == 0,
            a@.free.len() == 0,
    {
        EntityAllocator { generation: Vec::new(), free_list: Vec::new(), alive: Vec::new() }
    }

    /// Hands out an entity, reusing the most recently freed slot when there
    /// is one. The returned handle was not live before and is live after;
    /// no other handle changes liveness.
    pub fn allocate(&mut self) -> (e: Entity)
        requires
            old(self).wf(),
            old(self)@.can_allocate(),
        ensures
            final(self).wf(),
            (final(self)@, e) == old(self)@.after_allocate(),
            !old(self)@.is_alive(e),
            final(self)@.is_alive(e),
            forall|x: Entity| x != e ==> final(self)@.is_alive(x) == old(self)@.is_alive(x),
    {
        let ghost v0 = self@;
        if self.free_list.len() > 0 {
            proof {
                lemma_drop_last_no_dup(v0.free);
            }
            let index = self.free_list.pop().unwrap();
            let slot = index as usize;
            self.alive.set(slot, true);
            let e = Entity { index, generation: self.generation[slot] };
            proof {
                let v1 = self@;
                assert(v1.free == v0.free.drop_last());
                assert forall|k: int| 0 <= k < v1.free.len() implies {
                    &&& (#[trigger] v1.free[k]) < v1.generation.len()
                    &&& !v1.alive[v1.free[k] as int]
                } by {
                    assert(v0.free[k] == v1.free[k]);
                    assert(v1.free[k] != index);
                }
                assert forall|i: int|
                    0 <= i < v1.alive.len() && !#[trigger] v1.alive[i] implies v1.free.contains(
                    i as u32,
                ) by {
                    assert(!v0.alive[i]);
                    assert(v0.free.contains(i as u32));
                    assert(i != slot);
                }
            }
            return e;
        }
        let index = self.generation.len() as u32;
        self.generation.push(0);
        self.alive.push(true);
        let e = Entity { index, generation: 0 };
        proof {
            let v1 = self@;
            assert forall|i: int|
                0 <= i < v1.alive.len() && !#[trigger] v1.alive[i] implies v1.free.contains(
                i as u32,
            ) by {
                assert(i < v0.alive.len());
                assert(!v0.alive[i]);
            }
            assert forall|k: int| 0 <= k < v1.free.len() implies {
                &&& (#[trigger] v1.free[k]) < v1.generation.len()
                &&& !v1.alive[v1.free[k] as int]
            } by {
                assert(v0.free[k] < v0.generation.len());
            }
        }
        e
    }

    /// Destroys a live entity, returning `true`; on a stale or unknown
    /// handle it changes nothing and returns `false`.
    pub fn destroy(&mut self, entity: Entity) -> (r: bool)
        requires
            old(self).wf(),
        ensures
            final(self).wf(),
            (final(self)@, r) == old(self)@.after_destroy(entity),
            r == old(self)@.is_alive(entity),
            !final(self)@.is_alive(entity),
            forall|x: Entity|
                x.index != entity.index ==> final(self)@.is_alive(x) == old(self)@.is_alive(x),
    {
        let ghost v0 = self@;
        if !self.is_alive(entity) {
            return false;
        }
        let slot = entity.index as usize;
        let g = self.generation[slot];
        self.generation.set(slot, g.wrapping_add(1));
        self.alive.set(slot, false);
        self.free_list.push(entity.index);
        proof {
            let v1 = self@;
            assert(!v0.free.contains(entity.index)) by {
                if v0.free.contains(entity.index) {
                    let k = choose|k: int| 0 <= k < v0.free.len() && v0.free[k] == entity.index;
                    assert(!v0.alive[v0.free[k] as int]);
                }
            }
            assert(v1.free.no_duplicates()) by {
                assert forall|a: int, b: int|
                    0 <= a < v1.free.len() && 0 <= b < v1.free.len() && a != b implies v1.free[a]
                    != v1.free[b] by {
                    if a < v0.free.len() && b < v0.free.len() {
                    } else if a < v0.free.len() {
                        assert(v0.free.contains(v1.free[a]));
                    } else {
                        assert(v0.free.contains(v1.free[b]));
                    }
                }
            }
            assert forall|k: int| 0 <= k < v1.free.len() implies {
                &&& (#[trigger] v1.free[k]) < v1.generation.len()
                &&& !v1.alive[v1.free[k] as int]
            } by {
                if k < v0.free.len() {
                    assert(v0.free[k] == v1.free[k]);
                }
            }
            assert forall|i: int|
                0 <= i < v1.alive.len() && !#[trigger] v1.alive[i] implies v1.free.contains(
                i as u32,
            ) by {
                if i == slot as int {
                    assert(v1.free[v1.free.len() - 1] == entity.index);
                } else {
                    assert(!v0.alive[i]);
                    let k = choose|k: int| 0 <= k < v0.free.len() && v0.free[k] == i as u32;
                    assert(v1.free[k] == i as u32);
                }
            }
            assert(g.wrapping_add(1) == (if g == u32::MAX {
                0u32
            } else {
                (g + 1) as u32
            }));
        }
        true
    }

    /// `true` iff this exact handle (index and generation) names a live
    /// entity.
    /// `allocate` can run: a slot is free, or the `u32` index space has
    /// room for one more.
    pub fn can_allocate(&self) -> (r: bool)
        requires
            self.wf(),
        ensures
            r == self@.can_allocate(),
    {
        self.free_list.len() > 0 || self.generation.len() <= u32::MAX as usize
    }

    pub fn is_alive(&self, entity: Entity) -> (r: bool)
        requires
            self.wf(),
        ensures
            r == self@.is_alive(entity),
    {
        let slot = entity.index as usize;
        slot < self.alive.len() && self.alive[slot] && self.generation[slot] == entity.generation
    }

    /// The number of live entities: slots handed out minus slots waiting
    /// on the free stack.
    pub fn len(&self) -> (n: usize)
        requires
            self.wf(),
        ensures
            n == self@.live_slots().len(),
            n == self@.live_seq().len(),
            n == self@.generation.len() - self@.free.len(),
    {
        proof {
            lemma_live_count(self@);
            law_len_counts_live_entities(self@);
        }
        self.generation.len() - self.free_list.len()
    }

    /// `true` iff no entity is live.
    pub fn is_empty(&self) -> (r: bool)
        requires
            self.wf(),
        ensures
            r == (self@.live_slots().len() == 0),
    {
        self.len() == 0
    }

    /// Every live entity, in slot-index order (not allocation order).
    pub fn live(&self) -> (v: Vec<Entity>)
        requires
            self.wf(),
        ensures
            v@ == self@.live_seq(),
    {
        let mut out: Vec<Entity> = Vec::new();
        let n = self.alive.len();
        let mut i: usize = 0;
        while i < n
            invariant
                self.wf(),
                n == self@.alive.len(),
                i <= n,
                out@ == self@.live_prefix(i as int),
            decreases n - i,
        {
            if self.alive[i] {
                out.push(Entity { index: i as u32, generation: self.generation[i] });
            }
            i += 1;
        }
        out
    }
}

/// The free stack of a well-formed allocator holds exactly the dead slots,
/// so the live count is the slot count minus the free-stack length.
proof fn lemma_live_count(v: AllocView)
    requires
        v.wf(),
    ensures
        v.live_slots().len() + v.free.len() == v.generation.len(),
        v.live_slots().finite(),
{
    let n = v.alive.len() as int;
    let all = Set::new(|i: int| 0 <= i < n);
    let dead = Set::new(|i: int| 0 <= i < n && !v.alive[i]);
    let live = v.live_slots();
    assert(all == vstd::set_lib::set_int_range(0, n));
    vstd::set_lib::lemma_int_range(0, n);
    let freeset = v.free.to_set();
    v.free.unique_seq_to_set();
    let fmap = freeset.map(|x: u32| x as int);
    assert(fmap == dead) by {
        assert forall|i: int| dead.contains(i) implies fmap.contains(i) by {
            assert(v.free.contains(i as u32));
            assert(freeset.contains(i as u32));
            assert((i as u32) as int == i);
        }
        assert forall|i: int| fmap.contains(i) implies dead.contains(i) by {
            let x = choose|x: u32| freeset.contains(x) && x as int == i;
            let k = choose|k: int| 0 <= k < v.free.len() && v.free[k] == x;
        }
    }
    assert(freeset.finite()) by {
        vstd::seq_lib::seq_to_set_is_finite(v.free);
    }
    assert(vstd::relations::injective_on(|x: u32| x as int, freeset));
    vstd::set_lib::lemma_map_size(freeset, fmap, |x: u32| x as int);
    assert(live.subset_of(all));
    vstd::set_lib::lemma_len_subset(live, all);
    assert(live.union(dead) == all);
    assert(live.disjoint(dead));
    vstd::set_lib::lemma_set_disjoint_lens(live, dead);
}

/// Destroying a live handle and allocating again reuses its slot under a
/// new generation: the stale handle stays dead and the fresh one differs
/// from it.
pub proof fn law_reused_slot_gets_fresh_handle(a: AllocView, e: Entity)
    requires
        a.wf(),
        a.is_alive(e),
    ensures
        a.after_destroy(e).1,
        !a.after_destroy(e).0.is_alive(e),
        a.after_destroy(e).0.can_allocate(),
        a.after_destroy(e).0.after_allocate().1.index == e.index,
        a.after_destroy(e).0.after_allocate().1 != e,
        !a.after_destroy(e).0.after_allocate().0.is_alive(e),
        a.after_destroy(e).0.after_allocate().0.is_alive(a.after_destroy(e).0.after_allocate().1),
{
}

/// A handle that was never allocated, or whose slot was destroyed since,
/// is not alive: liveness needs the slot's current generation.
/// The live entities among the first `n` slots number as many as the
/// live slots among them.
proof fn lemma_live_prefix_len(a: AllocView, n: int)
    requires
        0 <= n <= a.alive.len(),
    ensures
        Set::new(|i: int| 0 <= i < n && a.alive[i]).finite(),
        a.live_prefix(n).len() == Set::new(|i: int| 0 <= i < n && a.alive[i]).len(),
    decreases n,
{
    let s = Set::new(|i: int| 0 <= i < n && a.alive[i]);
    if n == 0 {
        assert(s =~= Set::empty());
    } else {
        lemma_live_prefix_len(a, n - 1);
        let p = Set::new(|i: int| 0 <= i < n - 1 && a.alive[i]);
        if a.alive[n - 1] {
            assert(s =~= p.insert(n - 1));
            assert(!p.contains(n - 1));
        } else {
            assert(s =~= p);
        }
    }
}

/// The live list has one handle per live slot: the live count and the
/// live list agree.
pub proof fn law_len_counts_live_entities(a: AllocView)
    requires
        a.wf(),
    ensures
        a.live_seq().len() == a.live_slots().len(),
{
    lemma_live_prefix_len(a, a.alive.len() as int);
    assert(Set::new(|i: int| 0 <= i < a.alive.len() as int && a.alive[i]) =~= a.live_slots());
}

/// A handle `allocate` returns differs from every handle handed out
/// before, which stays handed out; the new handle is handed out too.
pub proof fn law_allocate_returns_a_fresh_handle(a: AllocView, h: Entity)
    requires
        a.wf(),
        a.can_allocate(),
        a.issued(h),
    ensures
        a.after_allocate().1 != h,
        a.after_allocate().0.issued(h),
        a.after_allocate().0.issued(a.after_allocate().1),
{
    if a.free.len() > 0 {
        let idx = a.free.last();
        assert(a.free[a.free.len() - 1] == idx);
        assert(!a.alive[idx as int]);
    }
}

/// `destroy` keeps every handed-out handle handed out, as long as it does
/// not wrap the slot's generation back to 0. So, over any run of
/// `allocate` and `destroy` calls in which no generation wraps, each new
/// handle differs from every handle returned before it.
pub proof fn law_destroy_keeps_handles_retired(a: AllocView, e: Entity, h: Entity)
    requires
        a.wf(),
        a.issued(h),
        a.is_alive(e) ==> a.generation[e.index as int] < u32::MAX,
    ensures
        a.after_destroy(e).0.issued(h),
{
}

pub proof fn law_stale_generation_is_dead(a: AllocView, e: Entity)
    requires
        (e.index as int) < a.generation.len(),
        a.generation[e.index as int] != e.generation,
    ensures
        !a.is_alive(e),
{
}

} // verus!
