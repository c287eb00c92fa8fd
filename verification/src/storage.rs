//! Per-component sparse-set storage with its own change-detection clock.
//!
//! Each component type gets one [`ComponentStorage`]: `sparse[slot]` points
//! into the packed parallel arrays `dense` (values), `entity_index` (owning
//! entity), `changed_tick` and `added_tick`. Removal swap-removes across all
//! four arrays and patches the moved entity's sparse pointer.
use vstd::prelude::*;

use crate::entity::Entity;

verus! {

/// Marker for types that attach to entities as components.
pub trait Component: Sized {}

/// Marker for `World` singletons.
pub trait Resource: Sized {}

/// `tick + 1`, wrapping at `u32::MAX`.
pub open spec fn next_tick(tick: u32) -> u32 {
    if tick == u32::MAX {
        0u32
    } else {
        (tick + 1) as u32
    }
}

/// The abstract state of a [`ComponentStorage`].
pub struct StorageView<T> {
    pub sparse: Seq<Option<u32>>,
    pub entities: Seq<Entity>,
    pub values: Seq<T>,
    pub changed: Seq<u32>,
    pub added: Seq<u32>,
    pub tick: u32,
}

impl<T> StorageView<T> {
    /// The parallel arrays agree in length and `sparse` and `entities`
    /// point at each other.
    pub open spec fn wf(self) -> bool {
        &&& self.values.len() == self.entities.len()
        &&& self.changed.len() == self.entities.len()
        &&& self.added.len() == self.entities.len()
        &&& self.entities.len() <= u32::MAX as nat + 1
        &&& forall|d: int|
            0 <= d < self.entities.len() ==> {
                &&& ((#[trigger] self.entities[d]).index as int) < self.sparse.len()
                &&& self.sparse[self.entities[d].index as int] == Some(d as u32)
            }
        &&& forall|s: int|
            0 <= s < self.sparse.len() && (#[trigger] self.sparse[s]) is Some ==> {
                &&& (self.sparse[s]->0 as int) < self.entities.len()
                &&& self.entities[self.sparse[s]->0 as int].index as int == s
            }
    }

    /// The dense index of `e`'s component: the slot's sparse pointer, if
    /// it points at an entry owned by exactly this handle.
    pub open spec fn dense_index_of(self, e: Entity) -> Option<int> {
        if (e.index as int) < self.sparse.len() && self.sparse[e.index as int] is Some {
            let d = self.sparse[e.index as int]->0 as int;
            if 0 <= d < self.entities.len() && self.entities[d] == e {
                Some(d)
            } else {
                None
            }
        } else {
            None
        }
    }

    /// `e` holds a component here.
    pub open spec fn contains(self, e: Entity) -> bool {
        self.dense_index_of(e) is Some
    }

    /// `e`'s component value (meaningful when `contains(e)`).
    pub open spec fn value_of(self, e: Entity) -> T {
        self.values[self.dense_index_of(e)->0]
    }

    /// `e`'s last-write tick (meaningful when `contains(e)`).
    pub open spec fn changed_of(self, e: Entity) -> u32 {
        self.changed[self.dense_index_of(e)->0]
    }

    /// `e`'s attach tick (meaningful when `contains(e)`).
    pub open spec fn added_of(self, e: Entity) -> u32 {
        self.added[self.dense_index_of(e)->0]
    }

    /// `sparse` extended with empty slots so `slot` is in range.
    pub open spec fn sparse_covering(self, slot: int) -> Seq<Option<u32>> {
        if slot < self.sparse.len() {
            self.sparse
        } else {
            self.sparse + Seq::new((slot + 1 - self.sparse.len()) as nat, |i: int| None)
        }
    }

    /// `insert(e, _)` cannot exhaust the `u32` dense index space.
    pub open spec fn can_insert(self, e: Entity) -> bool {
        ||| self.entities.len() <= u32::MAX as nat
        ||| ((e.index as int) < self.sparse.len() && self.sparse[e.index as int] is Some)
    }

    /// The state after `insert(e, value)`: the clock advances, then an
    /// existing entry of `e` is overwritten (changed tick only), a stale
    /// tenant's entry in the same slot is taken over in place (both ticks),
    /// or a new entry is appended (both ticks).
    pub open spec fn after_insert(self, e: Entity, value: T) -> StorageView<T> {
        let tick = next_tick(self.tick);
        let sparse = self.sparse_covering(e.index as int);
        let s = e.index as int;
        if sparse[s] is Some {
            let d = sparse[s]->0 as int;
            if self.entities[d] == e {
                StorageView {
                    sparse,
                    entities: self.entities,
                    values: self.values.update(d, value),
                    changed: self.changed.update(d, tick),
                    added: self.added,
                    tick,
                }
            } else {
                StorageView {
                    sparse,
                    entities: self.entities.update(d, e),
                    values: self.values.update(d, value),
                    changed: self.changed.update(d, tick),
                    added: self.added.update(d, tick),
                    tick,
                }
            }
        } else {
            StorageView {
                sparse: sparse.update(s, Some(self.entities.len() as u32)),
                entities: self.entities.push(e),
                values: self.values.push(value),
                changed: self.changed.push(tick),
                added: self.added.push(tick),
                tick,
            }
        }
    }

    /// `seq` with index `d` swap-removed: the last element moves into `d`.
    pub open spec fn swap_removed<A>(seq: Seq<A>, d: int) -> Seq<A> {
        seq.update(d, seq.last()).drop_last()
    }

    /// The state after `remove(e)`: a present entry is swap-removed across
    /// the parallel arrays and the moved entity's sparse pointer patched;
    /// otherwise nothing changes.
    pub open spec fn after_remove(self, e: Entity) -> StorageView<T> {
        if self.contains(e) {
            let d = self.dense_index_of(e)->0;
            let last = self.entities.len() - 1;
            let moved = self.entities[last];
            let sparse1 = if d != last {
                self.sparse.update(moved.index as int, Some(d as u32))
            } else {
                self.sparse
            };
            StorageView {
                sparse: sparse1.update(e.index as int, None),
                entities: Self::swap_removed(self.entities, d),
                values: Self::swap_removed(self.values, d),
                changed: Self::swap_removed(self.changed, d),
                added: Self::swap_removed(self.added, d),
                tick: self.tick,
            }
        } else {
            self
        }
    }

    /// A fresh, empty storage whose clock reads 1.
    pub open spec fn empty() -> StorageView<T> {
        StorageView {
            sparse: Seq::empty(),
            entities: Seq::empty(),
            values: Seq::empty(),
            changed: Seq::empty(),
            added: Seq::empty(),
            tick: 1,
        }
    }

    /// The state with the entry at dense index `d` holding `value` and
    /// changed tick `changed`.
    pub open spec fn with_entry(self, d: int, value: T, changed: u32) -> StorageView<T> {
        StorageView {
            values: self.values.update(d, value),
            changed: self.changed.update(d, changed),
            ..self
        }
    }

    /// The state after a write to the entry at dense index `d`: new value,
    /// changed tick stamped with the current clock.
    pub open spec fn written(self, d: int, value: T) -> StorageView<T> {
        StorageView {
            values: self.values.update(d, value),
            changed: self.changed.update(d, self.tick),
            ..self
        }
    }
}

/// The entity sequence of a well-formed storage has no duplicates.
pub proof fn lemma_entities_distinct<T>(v: StorageView<T>)
    requires
        v.wf(),
    ensures
        v.entities.no_duplicates(),
        forall|d: int|
            0 <= d < v.entities.len() ==> v.dense_index_of(#[trigger] v.entities[d]) == Some(d),
        forall|e: Entity| v.contains(e) <==> v.entities.contains(e),
{
    assert forall|a: int, b: int|
        0 <= a < v.entities.len() && 0 <= b < v.entities.len() && a != b implies v.entities[a]
        != v.entities[b] by {
        if v.entities[a] == v.entities[b] {
            assert(v.sparse[v.entities[a].index as int] == Some(a as u32));
            assert(v.sparse[v.entities[b].index as int] == Some(b as u32));
        }
    }
    assert forall|e: Entity| v.contains(e) <==> v.entities.contains(e) by {
        if v.entities.contains(e) {
            let d = choose|d: int| 0 <= d < v.entities.len() && v.entities[d] == e;
            assert(v.sparse[v.entities[d].index as int] == Some(d as u32));
        }
        if v.contains(e) {
            assert(v.entities[v.dense_index_of(e)->0] == e);
        }
    }
}

/// A change-marking mutable handle to one component: reading through
/// [`get`](Mut::get) marks nothing; taking `&mut` through
/// [`get_mut`](Mut::get_mut) stamps the entry's changed tick with `tick`.
pub struct Mut<'a, T> {
    pub value: &'a mut T,
    pub changed_tick: &'a mut u32,
    pub tick: u32,
}

impl<'a, T> Mut<'a, T> {
    /// Wraps a component slot and its changed-tick slot.
    pub fn new(value: &'a mut T, changed_tick: &'a mut u32, current_tick: u32) -> (m: Self)
        ensures
            *m.value == *old(value),
            *final(m.value) == *final(value),
            *m.changed_tick == *old(changed_tick),
            *final(m.changed_tick) == *final(changed_tick),
            m.tick == current_tick,
    {
        Mut { value, changed_tick, tick: current_tick }
    }

    /// Shared access; marks nothing.
    pub fn get(&self) -> (r: &T)
        ensures
            *r == *old(self.value),
    {
        self.value
    }

    /// Exclusive access; stamps the entry's changed tick with the
    /// handle's tick.
    pub fn get_mut(&mut self) -> (r: &mut T)
        ensures
            *r == *old(self).value,
            *final(self).value == *final(r),
            *final(self).changed_tick == old(self).tick,
            final(self).tick == old(self).tick,
            *final(final(self).value) == *final(old(self).value),
            *final(final(self).changed_tick) == *final(old(self).changed_tick),
    {
        *self.changed_tick = self.tick;
        self.value
    }
}

/// Sparse-set storage for one component type, carrying its own
/// change-detection clock (starts at 1; `insert` advances it).
pub struct ComponentStorage<T> {
    sparse: Vec<Option<u32>>,
    dense: Vec<T>,
    entity_index: Vec<Entity>,
    changed_tick: Vec<u32>,
    added_tick: Vec<u32>,
    current_tick: u32,
}

impl<T> View for ComponentStorage<T> {
    type V = StorageView<T>;

    closed spec fn view(&self) -> StorageView<T> {
        StorageView {
            sparse: self.sparse@,
            entities: self.entity_index@,
            values: self.dense@,
            changed: self.changed_tick@,
            added: self.added_tick@,
            tick: self.current_tick,
        }
    }
}

impl<T> ComponentStorage<T> {
    /// Well-formedness of the sparse set.
    pub open spec fn wf(&self) -> bool {
        self@.wf()
    }

    /// An empty storage whose clock reads 1.
    pub fn new() -> (s: Self)
        ensures
            s.wf(),
            s@.entities.len() == 0,
            s@.sparse.len() == 0,
            s@.values.len() == 0,
            s@.changed.len() == 0,
            s@.added.len() == 0,
            s@.tick == 1,
            s@ == StorageView::<T>::empty(),
    {
        let s = ComponentStorage {
            sparse: Vec::new(),
            dense: Vec::new(),
            entity_index: Vec::new(),
            changed_tick: Vec::new(),
            added_tick: Vec::new(),
            current_tick: 1,
        };
        proof {
            assert(s@.sparse =~= Seq::empty());
            assert(s@.entities =~= Seq::empty());
            assert(s@.values =~= Seq::empty());
            assert(s@.changed =~= Seq::empty());
            assert(s@.added =~= Seq::empty());
        }
        s
    }

    /// The dense index of `entity`'s component, or `None` when it has none
    /// here (including a stale handle to a recycled slot).
    pub fn dense_idx_of(&self, entity: Entity) -> (r: Option<usize>)
        requires
            self.wf(),
        ensures
            r matches Some(d) ==> self@.dense_index_of(entity) == Some(d as int),
            r is None ==> self@.dense_index_of(entity) is None,
    {
        let slot = entity.index as usize;
        if slot >= self.sparse.len() {
            return None;
        }
        match self.sparse[slot] {
            None => None,
            Some(d) => {
                let di = d as usize;
                if self.entity_index[di] == entity {
                    Some(di)
                } else {
                    None
                }
            },
        }
    }

    /// Attaches `value` to `entity`, returning the value `entity` held
    /// before, if any. Advances this component's clock first.
    pub fn insert(&mut self, entity: Entity, value: T) -> (r: Option<T>)
        requires
            old(self).wf(),
            old(self)@.can_insert(entity),
        ensures
            final(self).wf(),
            final(self)@ == old(self)@.after_insert(entity, value),
            r matches Some(p) ==> old(self)@.contains(entity) && p == old(self)@.value_of(entity),
            r is None ==> !old(self)@.contains(entity),
            final(self)@.contains(entity),
            final(self)@.value_of(entity) == value,
            final(self)@.changed_of(entity) == final(self)@.tick,
            final(self)@.added_of(entity) == (if old(self)@.contains(entity) {
                old(self)@.added_of(entity)
            } else {
                final(self)@.tick
            }),
            forall|x: Entity|
                x.index != entity.index ==> {
                    &&& #[trigger] final(self)@.contains(x) == old(self)@.contains(x)
                    &&& old(self)@.contains(x) ==> final(self)@.value_of(x) == old(
                        self,
                    )@.value_of(x) && final(self)@.changed_of(x) == old(self)@.changed_of(x)
                        && final(self)@.added_of(x) == old(self)@.added_of(x)
                },
    {
        let ghost v0 = self@;
        self.current_tick = self.current_tick.wrapping_add(1);
        let tick = self.current_tick;
        let slot = entity.index as usize;
        while self.sparse.len() <= slot
            invariant
                v0.sparse.len() <= self.sparse@.len(),
                self.sparse@.len() <= slot + 1 || self.sparse@.len() == v0.sparse.len(),
                self.entity_index@ == v0.entities,
                self.dense@ == v0.values,
                self.changed_tick@ == v0.changed,
                self.added_tick@ == v0.added,
                self.current_tick == next_tick(v0.tick),
                v0.wf(),
                v0.can_insert(entity),
                forall|i: int| 0 <= i < v0.sparse.len() ==> self.sparse@[i] == v0.sparse[i],
                forall|i: int| v0.sparse.len() <= i < self.sparse@.len() ==> self.sparse@[i] is None,
            decreases slot + 1 - self.sparse.len(),
        {
            self.sparse.push(None);
        }
        proof {
            assert(self.sparse@ == v0.sparse_covering(slot as int));
        }
        let ghost v1 = self@;
        match self.sparse[slot] {
            Some(dense_idx) => {
                let di = dense_idx as usize;
                if self.entity_index[di] == entity {
                    self.changed_tick.set(di, tick);
                    let mut old_value = value;
                    std::mem::swap(&mut self.dense[di], &mut old_value);
                    proof {
                        lemma_insert_post(v0, entity, value, self@);
                    }
                    return Some(old_value);
                }
                self.entity_index.set(di, entity);
                self.dense.set(di, value);
                self.changed_tick.set(di, tick);
                self.added_tick.set(di, tick);
                proof {
                    lemma_insert_post(v0, entity, value, self@);
                }
                return None;
            },
            None => {},
        }
        let dense_idx = self.dense.len() as u32;
        self.sparse.set(slot, Some(dense_idx));
        self.dense.push(value);
        self.entity_index.push(entity);
        self.changed_tick.push(tick);
        self.added_tick.push(tick);
        proof {
            lemma_insert_post(v0, entity, value, self@);
        }
        None
    }

    /// Detaches `entity`'s component and returns it, or `None` when it has
    /// none (including a stale handle). Swap-removes across all four dense
    /// arrays.
    pub fn remove(&mut self, entity: Entity) -> (r: Option<T>)
        requires
            old(self).wf(),
        ensures
            final(self).wf(),
            final(self)@ == old(self)@.after_remove(entity),
            r matches Some(p) ==> old(self)@.contains(entity) && p == old(self)@.value_of(entity),
            r is None ==> !old(self)@.contains(entity),
            !final(self)@.contains(entity),
            final(self)@.tick == old(self)@.tick,
            forall|x: Entity|
                x != entity ==> {
                    &&& #[trigger] final(self)@.contains(x) == old(self)@.contains(x)
                    &&& old(self)@.contains(x) ==> final(self)@.value_of(x) == old(
                        self,
                    )@.value_of(x) && final(self)@.changed_of(x) == old(self)@.changed_of(x)
                        && final(self)@.added_of(x) == old(self)@.added_of(x)
                },
    {
        let ghost v0 = self@;
        let d = match self.dense_idx_of(entity) {
            None => {
                proof {
                    lemma_remove_post(v0, entity, self@);
                }
                return None;
            },
            Some(d) => d,
        };
        let slot = entity.index as usize;
        let last = self.dense.len() - 1;
        if d != last {
            let displaced = self.entity_index[last];
            self.sparse.set(displaced.index as usize, Some(d as u32));
        }
        self.sparse.set(slot, None);
        self.entity_index.swap_remove(d);
        self.changed_tick.swap_remove(d);
        self.added_tick.swap_remove(d);
        let out = self.dense.swap_remove(d);
        proof {
            lemma_remove_post(v0, entity, self@);
        }
        Some(out)
    }

    /// `entity`'s component, or `None`.
    pub fn get(&self, entity: Entity) -> (r: Option<&T>)
        requires
            self.wf(),
        ensures
            r is Some <==> self@.contains(entity),
            r matches Some(x) ==> *x == self@.value_of(entity),
    {
        match self.dense_idx_of(entity) {
            Some(d) => Some(&self.dense[d]),
            None => None,
        }
    }

    /// Mutable access to `entity`'s component, stamping its changed tick
    /// with the current clock (the clock itself does not advance).
    pub fn get_mut(&mut self, entity: Entity) -> (r: Option<&mut T>)
        requires
            old(self).wf(),
        ensures
            final(self).wf(),
            old(self)@.dense_index_of(entity) is None ==> r is None && final(self)@ == old(
                self,
            )@,
            old(self)@.dense_index_of(entity) matches Some(d) ==> {
                &&& r is Some
                &&& *r->0 == old(self)@.values[d]
                &&& final(self)@ == old(self)@.written(d, *final(r->0))
            },
    {
        match self.dense_idx_of(entity) {
            Some(d) => {
                let tick = self.current_tick;
                self.changed_tick.set(d, tick);
                Some(&mut self.dense[d])
            },
            None => None,
        }
    }

    /// A change-marking handle to `entity`'s component: the changed tick
    /// moves only if the caller writes through the handle.
    pub fn get_mut_handle(&mut self, entity: Entity) -> (r: Option<Mut<'_, T>>)
        requires
            old(self).wf(),
        ensures
            old(self)@.dense_index_of(entity) is None ==> r is None && final(self)@ == old(
                self,
            )@,
            old(self)@.dense_index_of(entity) matches Some(d) ==> {
                &&& r is Some
                &&& *r->0.value == old(self)@.values[d]
                &&& *r->0.changed_tick == old(self)@.changed[d]
                &&& r->0.tick == old(self)@.tick
                &&& final(self)@ == (StorageView {
                    values: old(self)@.values.update(d, *final(r->0.value)),
                    changed: old(self)@.changed.update(d, *final(r->0.changed_tick)),
                    ..old(self)@
                })
            },
            final(self).wf(),
    {
        match self.dense_idx_of(entity) {
            Some(d) => {
                let tick = self.current_tick;
                Some(Mut::new(&mut self.dense[d], &mut self.changed_tick[d], tick))
            },
            None => None,
        }
    }

    /// `(entity, &value)` pairs in dense order.
    pub fn iter(&self) -> (r: Vec<(Entity, &T)>)
        requires
            self.wf(),
        ensures
            r@.len() == self@.entities.len(),
            forall|k: int|
                0 <= k < r@.len() ==> (#[trigger] r@[k]).0 == self@.entities[k] && *r@[k].1
                    == self@.values[k],
    {
        let mut out: Vec<(Entity, &T)> = Vec::new();
        let n = self.dense.len();
        let mut k: usize = 0;
        while k < n
            invariant
                self.wf(),
                n == self@.entities.len(),
                k <= n,
                out@.len() == k,
                forall|j: int|
                    0 <= j < k ==> (#[trigger] out@[j]).0 == self@.entities[j] && *out@[j].1
                        == self@.values[j],
            decreases n - k,
        {
            out.push((self.entity_index[k], &self.dense[k]));
            k += 1;
        }
        out
    }

    /// Number of stored components.
    pub fn len(&self) -> (n: usize)
        requires
            self.wf(),
        ensures
            n == self@.entities.len(),
    {
        self.dense.len()
    }

    /// `true` iff no component is stored.
    pub fn is_empty(&self) -> (r: bool)
        requires
            self.wf(),
        ensures
            r == (self@.entities.len() == 0),
    {
        self.dense.len() == 0
    }

    /// `true` iff `entity` has a component here.
    pub fn contains(&self, entity: Entity) -> (r: bool)
        requires
            self.wf(),
        ensures
            r == self@.contains(entity),
    {
        self.dense_idx_of(entity).is_some()
    }

    /// The entities holding this component, in dense order (each once).
    pub fn entities(&self) -> (r: &[Entity])
        requires
            self.wf(),
        ensures
            r@ == self@.entities,
    {
        self.entity_index.as_slice()
    }

    /// The entities a mutable pass visits, in dense order. Each entry is
    /// written through [`get_mut_handle`](Self::get_mut_handle), which
    /// marks only the entries actually written; the pass itself changes
    /// nothing.
    pub fn iter_mut(&mut self) -> (r: Vec<Entity>)
        requires
            old(self).wf(),
        ensures
            r@ == old(self)@.entities,
            final(self)@ == old(self)@,
            final(self).wf(),
    {
        let mut out: Vec<Entity> = Vec::new();
        let n = self.entity_index.len();
        let mut k: usize = 0;
        while k < n
            invariant
                n == self@.entities.len(),
                k <= n,
                out@ == self@.entities.take(k as int),
            decreases n - k,
        {
            out.push(self.entity_index[k]);
            proof {
                assert(self@.entities.take(k + 1) == self@.entities.take(k as int).push(
                    self@.entities[k as int],
                ));
            }
            k += 1;
        }
        proof {
            assert(self@.entities.take(n as int) == self@.entities);
        }
        out
    }

    /// `entity`'s last-write tick, or `None`.
    pub fn changed_tick_for(&self, entity: Entity) -> (r: Option<u32>)
        requires
            self.wf(),
        ensures
            r is Some <==> self@.contains(entity),
            r matches Some(t) ==> t == self@.changed_of(entity),
    {
        match self.dense_idx_of(entity) {
            Some(d) => Some(self.changed_tick[d]),
            None => None,
        }
    }

    /// `entity`'s attach tick, or `None`.
    pub fn added_tick_for(&self, entity: Entity) -> (r: Option<u32>)
        requires
            self.wf(),
        ensures
            r is Some <==> self@.contains(entity),
            r matches Some(t) ==> t == self@.added_of(entity),
    {
        match self.dense_idx_of(entity) {
            Some(d) => Some(self.added_tick[d]),
            None => None,
        }
    }

    /// This component's clock.
    pub fn current_tick(&self) -> (t: u32)
        ensures
            t == self@.tick,
    {
        self.current_tick
    }

    /// Overrides this component's clock.
    pub fn set_current_tick(&mut self, tick: u32)
        requires
            old(self).wf(),
        ensures
            final(self).wf(),
            final(self)@ == (StorageView { tick, ..old(self)@ }),
    {
        self.current_tick = tick;
    }
}

/// Type-erased operations the world runs over every storage.
pub trait AnyStorage {
    /// The storage's internal invariant.
    spec fn storage_inv(&self) -> bool;

    /// Removes `entity` from this storage if present.
    fn remove_entity(&mut self, entity: Entity)
        requires
            old(self).storage_inv(),
        ensures
            final(self).storage_inv(),
    ;

    /// Advances this component's clock by one tick.
    fn advance_tick(&mut self)
        requires
            old(self).storage_inv(),
        ensures
            final(self).storage_inv(),
    ;

    /// This component's clock.
    fn current_tick(&self) -> u32;
}

impl<T> AnyStorage for ComponentStorage<T> {
    open spec fn storage_inv(&self) -> bool {
        self.wf()
    }

    fn remove_entity(&mut self, entity: Entity)
        ensures
            final(self)@ == old(self)@.after_remove(entity),
    {
        let _ = self.remove(entity);
    }

    fn advance_tick(&mut self)
        ensures
            final(self)@ == (StorageView { tick: next_tick(old(self)@.tick), ..old(self)@ }),
    {
        self.current_tick = self.current_tick.wrapping_add(1);
    }

    fn current_tick(&self) -> (t: u32)
        ensures
            t == self@.tick,
    {
        self.current_tick
    }
}

/// `insert`'s exec updates produce `after_insert` and the lookup facts.
proof fn lemma_insert_post<T>(v0: StorageView<T>, e: Entity, value: T, v1: StorageView<T>)
    requires
        v0.wf(),
        v0.can_insert(e),
        v1 == v0.after_insert(e, value),
    ensures
        v1.wf(),
        v1.contains(e),
        v1.value_of(e) == value,
        v1.changed_of(e) == v1.tick,
        v1.added_of(e) == (if v0.contains(e) {
            v0.added_of(e)
        } else {
            v1.tick
        }),
        forall|x: Entity|
            x.index != e.index ==> {
                &&& #[trigger] v1.contains(x) == v0.contains(x)
                &&& v0.contains(x) ==> v1.value_of(x) == v0.value_of(x) && v1.changed_of(x)
                    == v0.changed_of(x) && v1.added_of(x) == v0.added_of(x)
            },
{
    let s = e.index as int;
    let sparse = v0.sparse_covering(s);
    assert forall|i: int| 0 <= i < v0.sparse.len() implies sparse[i] == v0.sparse[i] by {}
    assert forall|i: int| v0.sparse.len() <= i < sparse.len() implies sparse[i] is None by {}
    if sparse[s] is Some {
        let d = sparse[s]->0 as int;
        assert(s < v0.sparse.len());
        assert(v0.entities[d].index as int == s);
    } else {
        let n = v0.entities.len() as int;
        assert forall|dd: int| 0 <= dd < v1.entities.len() implies {
            &&& ((#[trigger] v1.entities[dd]).index as int) < v1.sparse.len()
            &&& v1.sparse[v1.entities[dd].index as int] == Some(dd as u32)
        } by {
            if dd < n {
                assert(v0.entities[dd].index as int != s);
            }
        }
        assert forall|ss: int| 0 <= ss < v1.sparse.len() && (#[trigger] v1.sparse[ss]) is Some implies {
            &&& (v1.sparse[ss]->0 as int) < v1.entities.len()
            &&& v1.entities[v1.sparse[ss]->0 as int].index as int == ss
        } by {
            if ss != s {
                assert(ss < v0.sparse.len());
            }
        }
    }
}

/// `remove`'s exec updates produce `after_remove` and the lookup facts.
pub(crate) proof fn lemma_remove_post<T>(v0: StorageView<T>, e: Entity, v1: StorageView<T>)
    requires
        v0.wf(),
        v1 == v0.after_remove(e),
    ensures
        v1.wf(),
        !v1.contains(e),
        v1.tick == v0.tick,
        forall|x: Entity|
            x != e ==> {
                &&& #[trigger] v1.contains(x) == v0.contains(x)
                &&& v0.contains(x) ==> v1.value_of(x) == v0.value_of(x) && v1.changed_of(x)
                    == v0.changed_of(x) && v1.added_of(x) == v0.added_of(x)
            },
{
    if v0.contains(e) {
        let d = v0.dense_index_of(e)->0;
        let last = v0.entities.len() - 1;
        let moved = v0.entities[last];
        lemma_entities_distinct(v0);
        assert(v0.sparse[moved.index as int] == Some(last as u32));
        assert forall|dd: int| 0 <= dd < v1.entities.len() implies {
            &&& ((#[trigger] v1.entities[dd]).index as int) < v1.sparse.len()
            &&& v1.sparse[v1.entities[dd].index as int] == Some(dd as u32)
        } by {
            if dd == d {
                assert(v1.entities[dd] == moved);
                assert(moved.index != e.index) by {
                    assert(v0.sparse[e.index as int] == Some(d as u32));
                }
            } else {
                assert(v1.entities[dd] == v0.entities[dd]);
                assert(v0.sparse[v0.entities[dd].index as int] == Some(dd as u32));
                assert(v0.entities[dd].index != e.index);
                assert(v0.entities[dd].index != moved.index);
            }
        }
        assert forall|ss: int| 0 <= ss < v1.sparse.len() && (#[trigger] v1.sparse[ss]) is Some implies {
            &&& (v1.sparse[ss]->0 as int) < v1.entities.len()
            &&& v1.entities[v1.sparse[ss]->0 as int].index as int == ss
        } by {
            if d != last && ss == moved.index as int {
            } else {
                let dd = v0.sparse[ss]->0 as int;
                assert(v0.entities[dd].index as int == ss);
                if dd == last {
                    assert(ss == moved.index as int);
                }
                if dd == d {
                    assert(ss == e.index as int);
                }
            }
        }
        assert forall|x: Entity| x != e implies {
            &&& #[trigger] v1.contains(x) == v0.contains(x)
            &&& v0.contains(x) ==> v1.value_of(x) == v0.value_of(x) && v1.changed_of(x)
                == v0.changed_of(x) && v1.added_of(x) == v0.added_of(x)
        } by {
            if v0.contains(x) {
                let dx = v0.dense_index_of(x)->0;
                if dx == last {
                    assert(x == moved);
                    if d != last {
                        assert(v1.dense_index_of(x) == Some(d));
                    }
                } else {
                    assert(v1.entities[dx] == x);
                    assert(v1.sparse[x.index as int] == Some(dx as u32)) by {
                        assert(x.index != e.index);
                        assert(x.index != moved.index);
                    }
                }
            }
            if v1.contains(x) {
                let dx = v1.dense_index_of(x)->0;
                if dx == d {
                    assert(x == moved);
                    assert(v0.dense_index_of(x) == Some(last));
                } else {
                    assert(v0.entities[dx] == x);
                }
            }
        }
    }
}

/// The storage after a mutable pass that writes `writes` in order, each
/// through a change-marking handle (what [`ComponentStorage::get_mut`], or
/// `World::get_mut_handle` followed by [`Mut::get_mut`], does to one
/// entry): a write to an entity the storage holds replaces its value and
/// stamps the current clock; a write to any other entity finds no entry
/// and does nothing. Handles only read through mark nothing.
pub open spec fn pass_written<T>(s: StorageView<T>, writes: Seq<(Entity, T)>) -> StorageView<T>
    decreases writes.len(),
{
    if writes.len() == 0 {
        s
    } else {
        let p = pass_written(s, writes.drop_last());
        match p.dense_index_of(writes.last().0) {
            Some(d) => p.written(d, writes.last().1),
            None => p,
        }
    }
}

/// `writes` writes through `e` at least once.
pub open spec fn writes_to<T>(writes: Seq<(Entity, T)>, e: Entity) -> bool {
    exists|i: int| 0 <= i < writes.len() && (#[trigger] writes[i]).0 == e
}

/// A mutable pass marks exactly what it writes: afterwards every held
/// entity it wrote through carries the clock's value as its changed tick,
/// every other entity keeps its changed tick and value, no attach tick
/// changes, and the clock and the set of holders stay as they were.
pub proof fn law_mutable_pass_marks_exactly_the_written<T>(
    s: StorageView<T>,
    writes: Seq<(Entity, T)>,
    e: Entity,
)
    requires
        s.wf(),
    ensures
        pass_written(s, writes).wf(),
        pass_written(s, writes).tick == s.tick,
        pass_written(s, writes).entities == s.entities,
        pass_written(s, writes).sparse == s.sparse,
        pass_written(s, writes).added == s.added,
        pass_written(s, writes).contains(e) == s.contains(e),
        s.contains(e) ==> pass_written(s, writes).changed_of(e) == if writes_to(writes, e) {
            s.tick
        } else {
            s.changed_of(e)
        },
        s.contains(e) && !writes_to(writes, e) ==> pass_written(s, writes).value_of(e)
            == s.value_of(e),
    decreases writes.len(),
{
    if writes.len() > 0 {
        let ws = writes.drop_last();
        law_mutable_pass_marks_exactly_the_written(s, ws, e);
        let p = pass_written(s, ws);
        let (x, v) = writes.last();
        assert(writes_to(writes, e) == (writes_to(ws, e) || x == e)) by {
            if writes_to(writes, e) {
                let i = choose|i: int| 0 <= i < writes.len() && (#[trigger] writes[i]).0 == e;
                if i < ws.len() {
                    assert(ws[i] == writes[i]);
                }
            }
            if writes_to(ws, e) {
                let i = choose|i: int| 0 <= i < ws.len() && (#[trigger] ws[i]).0 == e;
                assert(writes[i] == ws[i]);
            }
            if x == e {
                assert(writes[writes.len() - 1].0 == e);
            }
        }
        match p.dense_index_of(x) {
            Some(d) => {
                let t = p.written(d, v);
                assert(t.values.len() == p.values.len());
                assert(t.changed.len() == p.changed.len());
                if s.contains(e) {
                    let de = p.dense_index_of(e)->0;
                    if x == e {
                        assert(de == d);
                    } else {
                        assert(p.entities[de] == e && p.entities[d] == x);
                        assert(de != d);
                    }
                }
            },
            None => {},
        }
    }
}

/// A read after a write gives back what was written, and removing it
/// again gives it back and leaves every other slot's entry as it was.
pub proof fn law_insert_then_remove_round_trips<T>(s: StorageView<T>, e: Entity, value: T)
    requires
        s.wf(),
        s.can_insert(e),
    ensures
        s.after_insert(e, value).wf(),
        s.after_insert(e, value).contains(e),
        s.after_insert(e, value).value_of(e) == value,
        !s.after_insert(e, value).after_remove(e).contains(e),
        forall|x: Entity|
            x.index != e.index ==> {
                &&& #[trigger] s.after_insert(e, value).after_remove(e).contains(x) == s.contains(x)
                &&& s.contains(x) ==> s.after_insert(e, value).after_remove(e).value_of(x)
                    == s.value_of(x)
            },
{
    let s1 = s.after_insert(e, value);
    lemma_insert_post(s, e, value, s1);
    lemma_remove_post(s1, e, s1.after_remove(e));
}

/// Every insert moves the clock forward by one tick and stamps the
/// written entry with it: a reader whose baseline predates the insert
/// sees the entry as changed.
pub proof fn law_insert_stamps_the_new_tick<T>(s: StorageView<T>, e: Entity, value: T)
    requires
        s.wf(),
        s.can_insert(e),
    ensures
        s.after_insert(e, value).tick == next_tick(s.tick),
        s.after_insert(e, value).changed_of(e) == next_tick(s.tick),
        crate::filter::spec_changed_since(next_tick(s.tick), s.after_insert(e, value).changed_of(e), s.tick),
{
    lemma_insert_post(s, e, value, s.after_insert(e, value));
}

/// Every entry's attach tick is at most its last-write tick, which is at
/// most the clock.
pub open spec fn ticks_ordered<T>(s: StorageView<T>) -> bool {
    forall|d: int|
        0 <= d < s.entities.len() ==> s.added[d] <= #[trigger] s.changed[d] && s.changed[d] <= s.tick
}

/// Until the clock wraps, an entry's last-write tick never falls below its
/// attach tick, whether it is inserted, overwritten, written through a
/// handle, or another entry is removed.
pub proof fn law_changed_never_below_added<T>(s: StorageView<T>, e: Entity, value: T, d: int)
    requires
        s.wf(),
        ticks_ordered(s),
        s.tick < u32::MAX,
        s.can_insert(e),
    ensures
        ticks_ordered(s.after_insert(e, value)),
        ticks_ordered(s.after_remove(e)),
        0 <= d < s.entities.len() ==> ticks_ordered(s.written(d, value)),
{
    let s1 = s.after_insert(e, value);
    lemma_insert_post(s, e, value, s1);
    let tick = next_tick(s.tick);
    assert(tick == s.tick + 1);
    let sparse = s.sparse_covering(e.index as int);
    let slot = e.index as int;
    assert forall|i: int| 0 <= i < s.sparse.len() implies sparse[i] == s.sparse[i] by {}
    if sparse[slot] is Some {
        let dd = sparse[slot]->0 as int;
        assert(slot < s.sparse.len());
        assert(0 <= dd < s.entities.len());
    }
    assert forall|k: int| 0 <= k < s1.entities.len() implies s1.added[k] <= #[trigger] s1.changed[k]
        && s1.changed[k] <= s1.tick by {
        if k < s.entities.len() {
            assert(s.added[k] <= s.changed[k] && s.changed[k] <= s.tick);
        }
    }
    if s.contains(e) {
        let dd = s.dense_index_of(e)->0;
        let last = s.entities.len() - 1;
        let r = s.after_remove(e);
        assert forall|k: int| 0 <= k < r.entities.len() implies r.added[k] <= #[trigger] r.changed[k]
            && r.changed[k] <= r.tick by {
            if k == dd {
                assert(s.added[last] <= s.changed[last] && s.changed[last] <= s.tick);
            } else {
                assert(s.added[k] <= s.changed[k] && s.changed[k] <= s.tick);
            }
        }
    }
    if 0 <= d < s.entities.len() {
        let w = s.written(d, value);
        assert forall|k: int| 0 <= k < w.entities.len() implies w.added[k] <= #[trigger] w.changed[k]
            && w.changed[k] <= w.tick by {
            assert(s.added[k] <= s.changed[k] && s.changed[k] <= s.tick);
        }
    }
}

} // verus!
