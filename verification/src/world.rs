//! The [`World`]: entities, one sparse-set storage per component key, one
//! slot per resource key, event channels, the deferred-command queue, and
//! the change-detection baselines parked for the running system.
//!
//! Component, resource and event values share one value type `V`; each
//! component type, resource type and event type is named by a `u32` key.
use vstd::prelude::*;

use crate::access::{Access, Entry};
use crate::commands::{Command, CommandQueue, Commands, ResourceUpdate};
use crate::entity::{AllocView, Entity, EntityAllocator, lemma_live_prefix};
use crate::events::{Events, EventsView};
use crate::storage::{AnyStorage, ComponentStorage, Mut, StorageView, next_tick};
use crate::system::IntoSystem;

verus! {

/// The abstract state of a [`World`].
pub struct WorldView<V, U> {
    pub alloc: AllocView,
    pub storages: Seq<StorageView<V>>,
    pub resources: Seq<Option<V>>,
    pub events: Seq<Option<EventsView<V>>>,
    pub pending: Seq<Command<V, U>>,
    pub baselines: Seq<(u32, u32)>,
}

/// A fresh, empty storage whose clock reads 1.
pub open spec fn empty_storage<V>() -> StorageView<V> {
    StorageView::<V>::empty()
}

/// The tick recorded for key `c` in a baseline list (the first entry
/// keyed `c`), or 0 when none is.
pub open spec fn baseline_of(baselines: Seq<(u32, u32)>, c: u32) -> u32
    decreases baselines.len(),
{
    if baselines.len() == 0 {
        0
    } else if baselines[0].0 == c {
        baselines[0].1
    } else {
        baseline_of(baselines.drop_first(), c)
    }
}

/// `list` with key `c` set to `tick`: the first entry keyed `c` is
/// updated, or a new entry appended.
pub open spec fn upsert(list: Seq<(u32, u32)>, c: u32, tick: u32) -> Seq<(u32, u32)>
    decreases list.len(),
{
    if list.len() == 0 {
        seq![(c, tick)]
    } else if list[0].0 == c {
        list.update(0, (c, tick))
    } else {
        seq![list[0]] + upsert(list.drop_first(), c, tick)
    }
}

/// Advances the clock of each storage named in `ids`, once per occurrence;
/// keys without a storage are skipped.
pub open spec fn advance_ticks<V>(storages: Seq<StorageView<V>>, ids: Seq<u32>) -> Seq<
    StorageView<V>,
>
    decreases ids.len(),
{
    if ids.len() == 0 {
        storages
    } else {
        let rest = advance_ticks(storages, ids.drop_last());
        let c = ids.last() as int;
        if c < rest.len() {
            rest.update(c, StorageView { tick: next_tick(rest[c].tick), ..rest[c] })
        } else {
            rest
        }
    }
}

/// Records, for each key in `ids` that has a storage, the storage's clock
/// into `list`.
pub open spec fn record_ticks<V>(list: Seq<(u32, u32)>, storages: Seq<StorageView<V>>, ids: Seq<
    u32,
>) -> Seq<(u32, u32)>
    decreases ids.len(),
{
    if ids.len() == 0 {
        list
    } else {
        let rest = record_ticks(list, storages, ids.drop_last());
        let c = ids.last();
        if (c as int) < storages.len() {
            upsert(rest, c, storages[c as int].tick)
        } else {
            rest
        }
    }
}

impl<V, U> WorldView<V, U> {
    /// The state a system starts from when the clocks of the components
    /// in `writes` advance (once per entry) and `last_seen` is parked as
    /// the change-detection baseline.
    pub open spec fn begun(self, writes: Seq<u32>, last_seen: Seq<(u32, u32)>) -> WorldView<V, U> {
        WorldView { storages: advance_ticks(self.storages, writes), baselines: last_seen, ..self }
    }

    /// The same state with `baselines` parked.
    pub open spec fn with_baselines(self, baselines: Seq<(u32, u32)>) -> WorldView<V, U> {
        WorldView { baselines, ..self }
    }

    /// The storage for key `c`, or a fresh empty one if none exists yet.
    pub open spec fn storage_at(self, c: u32) -> StorageView<V> {
        if (c as int) < self.storages.len() {
            self.storages[c as int]
        } else {
            empty_storage()
        }
    }

    /// `e` holds component `c`.
    pub open spec fn has(self, e: Entity, c: u32) -> bool {
        self.storage_at(c).contains(e)
    }

    /// The parked baseline for key `c`.
    pub open spec fn baseline(self, c: u32) -> u32 {
        baseline_of(self.baselines, c)
    }

    /// Every storage is a well-formed sparse set holding only live
    /// entities, and the allocator is well-formed.
    pub open spec fn wf(self) -> bool {
        &&& self.alloc.wf()
        &&& forall|c: int| 0 <= c < self.storages.len() ==> (#[trigger] self.storages[c]).wf()
        &&& forall|c: int, d: int|
            0 <= c < self.storages.len() && 0 <= d < self.storages[c].entities.len()
                ==> self.alloc.is_alive(#[trigger] self.storages[c].entities[d])
    }

    /// `storages` grown with fresh storages so key `c` exists.
    pub open spec fn storages_covering(self, c: u32) -> Seq<StorageView<V>> {
        if (c as int) < self.storages.len() {
            self.storages
        } else {
            self.storages + Seq::new(
                (c + 1 - self.storages.len()) as nat,
                |i: int| empty_storage(),
            )
        }
    }

    /// The state after `insert(e, c, value)`: a no-op on a dead handle.
    pub open spec fn after_insert(self, e: Entity, c: u32, value: V) -> WorldView<V, U> {
        if self.alloc.is_alive(e) {
            let st = self.storages_covering(c);
            WorldView {
                storages: st.update(c as int, st[c as int].after_insert(e, value)),
                ..self
            }
        } else {
            self
        }
    }

    /// The state after `remove(e, c)`: a no-op on a dead handle or an
    /// absent storage.
    pub open spec fn after_remove(self, e: Entity, c: u32) -> WorldView<V, U> {
        if self.alloc.is_alive(e) && (c as int) < self.storages.len() {
            WorldView {
                storages: self.storages.update(
                    c as int,
                    self.storages[c as int].after_remove(e),
                ),
                ..self
            }
        } else {
            self
        }
    }

    /// The state after `despawn(e)`: every storage drops `e`, then the
    /// allocator destroys it; a no-op on a dead handle.
    pub open spec fn after_despawn(self, e: Entity) -> WorldView<V, U> {
        if self.alloc.is_alive(e) {
            WorldView {
                alloc: self.alloc.after_destroy(e).0,
                storages: Seq::new(
                    self.storages.len(),
                    |c: int| self.storages[c].after_remove(e),
                ),
                ..self
            }
        } else {
            self
        }
    }

    /// The state after `add_resource(r, value)`: the slot is created or
    /// overwritten.
    pub open spec fn after_add_resource(self, r: u32, value: V) -> WorldView<V, U> {
        let res = if (r as int) < self.resources.len() {
            self.resources
        } else {
            self.resources + Seq::new((r + 1 - self.resources.len()) as nat, |i: int| None)
        };
        WorldView { resources: res.update(r as int, Some(value)), ..self }
    }

    /// Resource `r` is present.
    pub open spec fn has_resource(self, r: u32) -> bool {
        (r as int) < self.resources.len() && self.resources[r as int] is Some
    }

    /// The value of resource `r` (meaningful when present).
    pub open spec fn resource(self, r: u32) -> V {
        self.resources[r as int]->0
    }

    /// Event channel `ev` exists.
    pub open spec fn has_events(self, ev: u32) -> bool {
        (ev as int) < self.events.len() && self.events[ev as int] is Some
    }
}

impl<V, U: ResourceUpdate<V>> WorldView<V, U> {
    /// The state after applying one deferred command, and whether it
    /// applied (only an update of an absent resource fails).
    pub open spec fn after_command(self, cmd: Command<V, U>) -> (WorldView<V, U>, bool) {
        match cmd {
            Command::Despawn(e) => (self.after_despawn(e), true),
            Command::Insert(e, c, v) => (self.after_insert(e, c, v), true),
            Command::Remove(e, c) => (self.after_remove(e, c), true),
            Command::InsertResource(r, v) => (self.after_add_resource(r, v), true),
            Command::UpdateResource(r, u) => if self.has_resource(r) {
                (self.after_add_resource(r, u.spec_apply(self.resource(r))), true)
            } else {
                (self, false)
            },
        }
    }

    /// The state after the pending commands are applied, and the key of
    /// the update that stopped the flush, if one did.
    pub open spec fn flushed(self) -> (WorldView<V, U>, Option<u32>) {
        (WorldView { pending: Seq::empty(), ..self }).after_commands(self.pending)
    }

    /// The state after applying `ops` in order, stopping at the first
    /// update of an absent resource, whose key is then reported.
    pub open spec fn after_commands(self, ops: Seq<Command<V, U>>) -> (WorldView<V, U>, Option<
        u32,
    >)
        decreases ops.len(),
    {
        if ops.len() == 0 {
            (self, None)
        } else {
            let (w1, ok) = self.after_command(ops[0]);
            if ok {
                w1.after_commands(ops.drop_first())
            } else {
                (w1, Some(ops[0]->UpdateResource_0))
            }
        }
    }
}

/// Applying commands leaves the pending queue, the event channels and
/// the parked baselines as they were.
proof fn lemma_commands_keep_queue<V, U: ResourceUpdate<V>>(w: WorldView<V, U>, ops: Seq<Command<V, U>>)
    ensures
        w.after_commands(ops).0.pending == w.pending,
        w.after_commands(ops).0.events == w.events,
        w.after_commands(ops).0.baselines == w.baselines,
    decreases ops.len(),
{
    if ops.len() > 0 {
        let (w1, ok) = w.after_command(ops[0]);
        if ok {
            lemma_commands_keep_queue(w1, ops.drop_first());
        }
    }
}

/// A storage whose entities are live in `alloc`, with none in slot
/// `excluded` (itself a slot of `alloc`), holds fewer than `2^32`
/// components.
proof fn lemma_storage_room<V>(s: StorageView<V>, alloc: AllocView, excluded: int)
    requires
        s.wf(),
        alloc.wf(),
        forall|d: int| 0 <= d < s.entities.len() ==> alloc.is_alive(#[trigger] s.entities[d]),
        0 <= excluded < alloc.generation.len(),
        forall|d: int| 0 <= d < s.entities.len() ==> (#[trigger] s.entities[d]).index != excluded,
    ensures
        s.entities.len() <= u32::MAX,
{
    let n = alloc.generation.len() as int;
    let idx = Set::new(|i: int| exists|d: int| 0 <= d < s.entities.len() && s.entities[d].index == i);
    let dom = Set::new(|d: int| 0 <= d < s.entities.len());
    assert(dom == vstd::set_lib::set_int_range(0, s.entities.len() as int));
    vstd::set_lib::lemma_int_range(0, s.entities.len() as int);
    let f = |d: int| s.entities[d].index as int;
    assert(dom.map(f) == idx) by {
        assert forall|i: int| idx.contains(i) implies dom.map(f).contains(i) by {
            let d = choose|d: int| 0 <= d < s.entities.len() && s.entities[d].index == i;
            assert(dom.contains(d));
        }
    }
    assert(vstd::relations::injective_on(f, dom)) by {
        assert forall|a: int, b: int| dom.contains(a) && dom.contains(b) && f(a) == f(b) implies a
            == b by {
            assert(s.sparse[s.entities[a].index as int] == Some(a as u32));
            assert(s.sparse[s.entities[b].index as int] == Some(b as u32));
        }
    }
    vstd::set_lib::lemma_map_size(dom, idx, f);
    let range = vstd::set_lib::set_int_range(0, n).remove(excluded);
    vstd::set_lib::lemma_int_range(0, n);
    assert(idx.subset_of(range)) by {
        assert forall|i: int| idx.contains(i) implies range.contains(i) by {
            let d = choose|d: int| 0 <= d < s.entities.len() && s.entities[d].index == i;
            assert(alloc.is_alive(s.entities[d]));
        }
    }
    vstd::set_lib::lemma_len_subset(idx, range);
}

/// Entities, storages, resources, event channels, pending commands and
/// parked baselines.
pub struct World<V, U> {
    entities: EntityAllocator,
    storages: Vec<ComponentStorage<V>>,
    resources: Vec<Option<V>>,
    events: Vec<Option<Events<V>>>,
    pending: CommandQueue<V, U>,
    baselines: Vec<(u32, u32)>,
}

impl<V, U> View for World<V, U> {
    type V = WorldView<V, U>;

    closed spec fn view(&self) -> WorldView<V, U> {
        WorldView {
            alloc: self.entities@,
            storages: self.storages@.map_values(|s: ComponentStorage<V>| s@),
            resources: self.resources@,
            events: self.events@.map_values(
                |o: Option<Events<V>>|
                    match o {
                        Some(e) => Some(e@),
                        None => None,
                    },
            ),
            pending: self.pending@,
            baselines: self.baselines@,
        }
    }
}

/// A fresh world's clocks and tables are empty.
pub open spec fn is_empty_world<V, U>(w: WorldView<V, U>) -> bool {
    &&& w.alloc.generation.len() == 0
    &&& w.alloc.free.len() == 0
    &&& w.storages.len() == 0
    &&& w.resources.len() == 0
    &&& w.events.len() == 0
    &&& w.pending.len() == 0
    &&& w.baselines.len() == 0
}

impl<V, U> World<V, U> {
    /// The world's invariant.
    pub open spec fn wf(&self) -> bool {
        self@.wf()
    }

    /// An empty world.
    pub fn new() -> (w: Self)
        ensures
            w.wf(),
            is_empty_world(w@),
    {
        let w = World {
            entities: EntityAllocator::new(),
            storages: Vec::new(),
            resources: Vec::new(),
            events: Vec::new(),
            pending: CommandQueue::new(),
            baselines: Vec::new(),
        };
        proof {
            assert(w@.storages.len() == 0);
        }
        w
    }

    /// Allocates a fresh entity and returns a builder for attaching its
    /// components.
    pub fn spawn(&mut self) -> (r: EntityMut<'_, V, U>)
        requires
            old(self).wf(),
            old(self)@.alloc.can_allocate(),
        ensures
            (r.entity, (*r.world)@.alloc) == (old(self)@.alloc.after_allocate().1, old(
                self,
            )@.alloc.after_allocate().0),
            (*r.world)@ == (WorldView { alloc: old(self)@.alloc.after_allocate().0, ..old(self)@ }),
            (*r.world).wf(),
            (*r.world)@.alloc.is_alive(r.entity),
            !old(self)@.alloc.is_alive(r.entity),
            *final(r.world) == *final(self),
    {
        let e = self.spawn_entity();
        EntityMut { world: self, entity: e }
    }

    /// Allocates a fresh entity with no components.
    pub fn spawn_entity(&mut self) -> (e: Entity)
        requires
            old(self).wf(),
            old(self)@.alloc.can_allocate(),
        ensures
            final(self).wf(),
            (final(self)@.alloc, e) == old(self)@.alloc.after_allocate(),
            final(self)@ == (WorldView { alloc: final(self)@.alloc, ..old(self)@ }),
            final(self)@.alloc.is_alive(e),
            !old(self)@.alloc.is_alive(e),
    {
        let ghost w0 = self@;
        let e = self.entities.allocate();
        proof {
            assert(self@.storages == w0.storages);
        }
        e
    }

    /// `true` iff `e` names a live entity.
    pub fn is_alive(&self, e: Entity) -> (r: bool)
        requires
            self.wf(),
        ensures
            r == self@.alloc.is_alive(e),
    {
        self.entities.is_alive(e)
    }

    /// A new entity can be spawned: the allocator's index space is not
    /// exhausted.
    pub fn can_spawn(&self) -> (r: bool)
        requires
            self.wf(),
        ensures
            r == self@.alloc.can_allocate(),
    {
        self.entities.can_allocate()
    }

    /// Every live entity in slot order.
    pub fn live_entities(&self) -> (r: Vec<Entity>)
        requires
            self.wf(),
        ensures
            r@ == self@.alloc.live_seq(),
    {
        self.entities.live()
    }

    /// Number of storages created so far (component keys below this have
    /// one).
    pub fn storage_count(&self) -> (n: usize)
        ensures
            n == self@.storages.len(),
    {
        self.storages.len()
    }

    /// The storage for component `c`, if one was ever created.
    pub fn storage(&self, c: u32) -> (r: Option<&ComponentStorage<V>>)
        requires
            self.wf(),
        ensures
            r is Some <==> (c as int) < self@.storages.len(),
            r matches Some(s) ==> s@ == self@.storages[c as int] && s.wf(),
    {
        if (c as usize) < self.storages.len() {
            Some(&self.storages[c as usize])
        } else {
            None
        }
    }

    /// Attaches component `c` with `value` to a live `e`, returning the
    /// value it replaced; a no-op returning `None` on a dead handle.
    pub fn insert(&mut self, e: Entity, c: u32, value: V) -> (r: Option<V>)
        requires
            old(self).wf(),
        ensures
            final(self).wf(),
            final(self)@ == old(self)@.after_insert(e, c, value),
            r matches Some(p) ==> old(self)@.has(e, c) && p == old(self)@.storage_at(c).value_of(
                e,
            ),
            r is None ==> !old(self)@.has(e, c),
            old(self)@.alloc.is_alive(e) ==> final(self)@.has(e, c) && final(self)@.storage_at(
                c,
            ).value_of(e) == value,
    {
        let ghost w0 = self@;
        if !self.entities.is_alive(e) {
            proof {
                assert(!w0.storage_at(c).contains(e)) by {
                    if (c as int) < w0.storages.len() && w0.storages[c as int].contains(e) {
                        crate::storage::lemma_entities_distinct(w0.storages[c as int]);
                        let d = w0.storages[c as int].dense_index_of(e)->0;
                        assert(w0.alloc.is_alive(w0.storages[c as int].entities[d]));
                    }
                }
            }
            return None;
        }
        let ci = c as usize;
        while self.storages.len() <= ci
            invariant
                self.wf(),
                self@.alloc == w0.alloc,
                self@.resources == w0.resources,
                self@.events == w0.events,
                self@.pending == w0.pending,
                self@.baselines == w0.baselines,
                w0.storages.len() <= self@.storages.len(),
                self@.storages.len() <= ci + 1 || self@.storages.len() == w0.storages.len(),
                forall|i: int| 0 <= i < w0.storages.len() ==> self@.storages[i] == w0.storages[i],
                forall|i: int|
                    w0.storages.len() <= i < self@.storages.len() ==> self@.storages[i]
                        == empty_storage::<V>(),
            decreases ci + 1 - self.storages.len(),
        {
            let ghost prev = self@;
            let s = ComponentStorage::new();
            self.storages.push(s);
            proof {
                assert(self@.storages =~= prev.storages.push(empty_storage::<V>()));
            }
        }
        let ghost w1 = self@;
        proof {
            assert(w1.storages == w0.storages_covering(c));
            let s = w1.storages[c as int];
            assert(s.wf());
            if !((e.index as int) < s.sparse.len() && s.sparse[e.index as int] is Some) {
                assert forall|d: int| 0 <= d < s.entities.len() implies (
                #[trigger] s.entities[d]).index != e.index as int by {
                    assert(s.sparse[s.entities[d].index as int] == Some(d as u32));
                }
                lemma_storage_room(s, w1.alloc, e.index as int);
            }
        }
        let r = self.storages[ci].insert(e, value);
        proof {
            assert(self@.storages =~= w1.storages.update(c as int, w1.storages[c as int].after_insert(e, value)));
            let w2 = self@;
            assert(w2.storages == w1.storages.update(c as int, w1.storages[c as int].after_insert(e, value)));
            assert forall|cc: int, d: int|
                0 <= cc < w2.storages.len() && 0 <= d < w2.storages[cc].entities.len()
                    implies w2.alloc.is_alive(#[trigger] w2.storages[cc].entities[d]) by {
                if cc == c as int {
                    let sv = w1.storages[cc];
                    let x = w2.storages[cc].entities[d];
                    crate::storage::lemma_entities_distinct(w2.storages[cc]);
                    if x != e {
                        if x.index == e.index {
                            assert(w2.storages[cc].contains(x));
                            assert(w2.storages[cc].contains(e));
                            assert(w2.storages[cc].dense_index_of(x) == w2.storages[cc].dense_index_of(e));
                        } else {
                            assert(sv.contains(x));
                            crate::storage::lemma_entities_distinct(sv);
                            let dd = sv.dense_index_of(x)->0;
                            assert(sv.entities[dd] == x);
                        }
                    }
                }
            }
            if w0.storage_at(c).contains(e) {
                assert(w1.storages[c as int] == w0.storage_at(c));
            } else {
                assert(!w1.storages[c as int].contains(e));
            }
        }
        r
    }

    /// Detaches component `c` from a live `e` and returns it; `None` on a
    /// dead handle, an absent storage, or when `e` lacks `c`.
    pub fn remove(&mut self, e: Entity, c: u32) -> (r: Option<V>)
        requires
            old(self).wf(),
        ensures
            final(self).wf(),
            final(self)@ == old(self)@.after_remove(e, c),
            r matches Some(p) ==> old(self)@.has(e, c) && p == old(self)@.storage_at(c).value_of(
                e,
            ),
            r is None ==> !old(self)@.has(e, c),
            !final(self)@.has(e, c),
    {
        let ghost w0 = self@;
        proof {
            if (c as int) < w0.storages.len() && !w0.alloc.is_alive(e) {
                assert(!w0.storages[c as int].contains(e)) by {
                    if w0.storages[c as int].contains(e) {
                        let d = w0.storages[c as int].dense_index_of(e)->0;
                        assert(w0.alloc.is_alive(w0.storages[c as int].entities[d]));
                    }
                }
            }
        }
        if !self.entities.is_alive(e) || (c as usize) >= self.storages.len() {
            return None;
        }
        let r = self.storages[c as usize].remove(e);
        proof {
            assert(self@.storages =~= w0.storages.update(c as int, w0.storages[c as int].after_remove(e)));
            let w2 = self@;
            assert(w2.storages == w0.storages.update(c as int, w0.storages[c as int].after_remove(e)));
            assert forall|cc: int, d: int|
                0 <= cc < w2.storages.len() && 0 <= d < w2.storages[cc].entities.len()
                    implies w2.alloc.is_alive(#[trigger] w2.storages[cc].entities[d]) by {
                if cc == c as int {
                    let x = w2.storages[cc].entities[d];
                    crate::storage::lemma_entities_distinct(w2.storages[cc]);
                    assert(w2.storages[cc].contains(x));
                    assert(w0.storages[cc].contains(x));
                    crate::storage::lemma_entities_distinct(w0.storages[cc]);
                    let dd = w0.storages[cc].dense_index_of(x)->0;
                    assert(w0.storages[cc].entities[dd] == x);
                }
            }
        }
        r
    }

    /// Removes `e` from every storage and destroys it, returning `true`;
    /// a no-op returning `false` on a dead handle.
    pub fn despawn(&mut self, e: Entity) -> (r: bool)
        requires
            old(self).wf(),
        ensures
            final(self).wf(),
            final(self)@ == old(self)@.after_despawn(e),
            r == old(self)@.alloc.is_alive(e),
            !final(self)@.alloc.is_alive(e),
    {
        let ghost w0 = self@;
        if !self.entities.is_alive(e) {
            return false;
        }
        let n = self.storages.len();
        let mut i: usize = 0;
        while i < n
            invariant
                w0.wf(),
                w0.alloc.is_alive(e),
                n == w0.storages.len(),
                i <= n,
                self@.alloc == w0.alloc,
                self@.resources == w0.resources,
                self@.events == w0.events,
                self@.pending == w0.pending,
                self@.baselines == w0.baselines,
                self@.storages.len() == n,
                forall|c: int| 0 <= c < i ==> self@.storages[c] == w0.storages[c].after_remove(e),
                forall|c: int| i <= c < n ==> self@.storages[c] == w0.storages[c],
                self.wf(),
                forall|c: int| 0 <= c < i ==> !(#[trigger] self@.storages[c]).contains(e),
            decreases n - i,
        {
            let ghost s0 = self@.storages[i as int];
            let ghost prev = self@;
            self.storages[i].remove(e);
            proof {
                assert(self@.storages =~= prev.storages.update(i as int, s0.after_remove(e)));
                let w2 = self@;
                assert forall|cc: int, d: int|
                    0 <= cc < w2.storages.len() && 0 <= d < w2.storages[cc].entities.len()
                        implies w2.alloc.is_alive(#[trigger] w2.storages[cc].entities[d]) by {
                    if cc == i as int {
                        let x = w2.storages[cc].entities[d];
                        crate::storage::lemma_entities_distinct(w2.storages[cc]);
                        assert(w2.storages[cc].contains(x));
                        assert(s0.contains(x));
                        crate::storage::lemma_entities_distinct(s0);
                        let dd = s0.dense_index_of(x)->0;
                        assert(s0.entities[dd] == x);
                    }
                }
            }
            i += 1;
        }
        let ghost w1 = self@;
        self.entities.destroy(e);
        proof {
            let w2 = self@;
            assert(w2.storages == Seq::new(
                w0.storages.len(),
                |c: int| w0.storages[c].after_remove(e),
            ));
            assert forall|cc: int, d: int|
                0 <= cc < w2.storages.len() && 0 <= d < w2.storages[cc].entities.len()
                    implies w2.alloc.is_alive(#[trigger] w2.storages[cc].entities[d]) by {
                let x = w2.storages[cc].entities[d];
                assert(w1.alloc.is_alive(x));
                crate::storage::lemma_entities_distinct(w2.storages[cc]);
                assert(w2.storages[cc].contains(x));
                assert(x != e);
                if x.index == e.index {
                    assert(w1.alloc.generation[x.index as int] == x.generation);
                }
            }
        }
        true
    }

    /// `e`'s component `c`, or `None`.
    pub fn get(&self, e: Entity, c: u32) -> (r: Option<&V>)
        requires
            self.wf(),
        ensures
            r is Some <==> self@.has(e, c),
            r matches Some(x) ==> *x == self@.storage_at(c).value_of(e),
    {
        if (c as usize) < self.storages.len() {
            self.storages[c as usize].get(e)
        } else {
            None
        }
    }

    /// `true` iff `e` holds component `c`.
    pub fn contains(&self, e: Entity, c: u32) -> (r: bool)
        requires
            self.wf(),
        ensures
            r == self@.has(e, c),
    {
        if (c as usize) < self.storages.len() {
            self.storages[c as usize].contains(e)
        } else {
            false
        }
    }

    /// A change-marking handle to `e`'s component `c`: nothing moves unless
    /// the caller writes through [`Mut::get_mut`], and such a write is
    /// stamped with the component's current clock, which this call does
    /// not advance. Inside a running system every such write therefore
    /// shares the tick the system's start advanced the clock to.
    pub fn get_mut_handle(&mut self, e: Entity, c: u32) -> (r: Option<Mut<'_, V>>)
        requires
            old(self).wf(),
        ensures
            !old(self)@.has(e, c) ==> r is None && final(self)@ == old(self)@,
            old(self)@.has(e, c) ==> {
                let s0 = old(self)@.storages[c as int];
                let d = s0.dense_index_of(e)->0;
                &&& r is Some
                &&& *r->0.value == s0.values[d]
                &&& *r->0.changed_tick == s0.changed[d]
                &&& r->0.tick == s0.tick
                &&& final(self)@.storages.len() == old(self)@.storages.len()
                &&& final(self)@.storages[c as int] == s0.with_entry(
                    d,
                    *final(r->0.value),
                    *final(r->0.changed_tick),
                )
                &&& forall|i: int|
                    0 <= i < old(self)@.storages.len() && i != c ==> (#[trigger] final(self)@.storages[i]) == old(self)@.storages[i]
                &&& final(self)@ == (WorldView { storages: final(self)@.storages, ..old(self)@ })
            },
            forall|i: int|
                0 <= i < final(self)@.storages.len() ==> (#[trigger] final(self)@.storages[i]).entities
                    == old(self)@.storages[i].entities,
            forall|i: int|
                0 <= i < final(self)@.storages.len() ==> (#[trigger] final(self)@.storages[i]).wf(),
            final(self).wf(),
    {
        let ghost w0 = self@;
        let ci = c as usize;
        if ci >= self.storages.len() || !self.storages[ci].contains(e) {
            return None;
        }
        proof {
            let s0 = w0.storages[c as int];
            let d = s0.dense_index_of(e)->0;
            assert(s0 == self.storages@[c as int]@);
            assert forall|i: int| 0 <= i < self@.storages.len() implies (#[trigger] self.storages@[i])@.wf() by {
                assert(self@.storages[i] == self.storages@[i]@);
            }
            assert forall|i: int, j: int|
                0 <= i < self@.storages.len() && 0 <= j < self.storages@[i]@.entities.len()
                    implies self@.alloc.is_alive(#[trigger] self.storages@[i]@.entities[j]) by {
                assert(self@.storages[i] == self.storages@[i]@);
            }
            assert forall|x: V, t: u32| #![trigger s0.with_entry(d, x, t)] s0.with_entry(d, x, t).wf()
                && s0.with_entry(d, x, t).entities == s0.entities by {
                let sw = s0.with_entry(d, x, t);
                assert(sw.values.len() == s0.values.len());
                assert(sw.changed.len() == s0.changed.len());
            }
        }
        self.storages[ci].get_mut_handle(e)
    }

    /// Mutable access to `e`'s component `c`: advances the component's
    /// clock, then stamps the entry's changed tick with it.
    pub fn get_mut(&mut self, e: Entity, c: u32) -> (r: Option<&mut V>)
        requires
            old(self).wf(),
        ensures
            !old(self)@.has(e, c) ==> r is None && final(self)@ == old(self)@,
            old(self)@.has(e, c) ==> {
                let s0 = old(self)@.storages[c as int];
                let s1 = StorageView { tick: next_tick(s0.tick), ..s0 };
                let d = s0.dense_index_of(e)->0;
                &&& r is Some
                &&& *r->0 == s0.values[d]
                &&& final(self)@.storages.len() == old(self)@.storages.len()
                &&& final(self)@.storages[c as int] == s1.written(d, *final(r->0))
                &&& final(self)@.storages[c as int].wf()
                &&& forall|i: int|
                    0 <= i < old(self)@.storages.len() && i != c ==> (#[trigger] final(self)@.storages[i]).wf()
                &&& forall|i: int|
                    0 <= i < old(self)@.storages.len() && i != c ==> (#[trigger] final(self)@.storages[i]) == old(self)@.storages[i]
                &&& final(self)@ == (WorldView { storages: final(self)@.storages, ..old(self)@ })
            },
            forall|i: int|
                0 <= i < final(self)@.storages.len() ==> (#[trigger] final(self)@.storages[i]).entities
                    == old(self)@.storages[i].entities,
            forall|i: int|
                0 <= i < final(self)@.storages.len() ==> (#[trigger] final(self)@.storages[i]).wf(),
            final(self).wf(),
    {
        let ghost w0 = self@;
        let ci = c as usize;
        if ci >= self.storages.len() || !self.storages[ci].contains(e) {
            return None;
        }
        let t = self.storages[ci].current_tick();
        self.storages[ci].set_current_tick(t.wrapping_add(1));
        let ghost s1 = StorageView { tick: next_tick(t), ..w0.storages[c as int] };
        proof {
            assert(t.wrapping_add(1) == next_tick(t));
            assert(self@.storages =~= w0.storages.update(c as int, s1));
            let d = s1.dense_index_of(e)->0;
            assert(s1.wf());
            assert(0 <= d < s1.entities.len());
            assert forall|i: int| 0 <= i < self@.storages.len() implies (#[trigger] self.storages@[i])@.wf() by {
                if i != c as int {
                    assert(self@.storages[i] == w0.storages[i]);
                }
            }
            assert forall|i: int, j: int|
                0 <= i < self@.storages.len() && 0 <= j < self.storages@[i]@.entities.len()
                    implies self@.alloc.is_alive(#[trigger] self.storages@[i]@.entities[j]) by {
                assert(self@.storages[i].entities == w0.storages[i].entities);
            }
            assert forall|x: V| #![trigger s1.written(d, x)] s1.written(d, x).wf() && s1.written(
                d,
                x,
            ).entities == w0.storages[c as int].entities by {
                let sw = s1.written(d, x);
                assert(sw.values.len() == s1.values.len());
                assert(sw.changed.len() == s1.changed.len());
                assert(sw.sparse == s1.sparse);
                assert(sw.entities == s1.entities);
            }
        }
        self.storages[ci].get_mut(e)
    }

    /// Creates or overwrites resource `r`.
    pub fn add_resource(&mut self, r: u32, value: V)
        ensures
            final(self)@ == old(self)@.after_add_resource(r, value),
    {
        let ri = r as usize;
        let ghost w0 = self@;
        while self.resources.len() <= ri
            invariant
                w0.resources.len() <= self@.resources.len(),
                self@.resources.len() <= ri + 1 || self@.resources.len() == w0.resources.len(),
                forall|i: int| 0 <= i < w0.resources.len() ==> self@.resources[i] == w0.resources[i],
                forall|i: int| w0.resources.len() <= i < self@.resources.len() ==> self@.resources[i] is None,
                self@ == (WorldView { resources: self@.resources, ..w0 }),
            decreases ri + 1 - self.resources.len(),
        {
            self.resources.push(None);
        }
        self.resources.set(ri, Some(value));
        proof {
            let res = if (r as int) < w0.resources.len() {
                w0.resources
            } else {
                w0.resources + Seq::new((r + 1 - w0.resources.len()) as nat, |i: int| None)
            };
            assert(old(self)@.resources.len() <= ri ==> self@.resources == res.update(r as int, Some(value)));
            assert(self@.resources == res.update(r as int, Some(value)));
        }
    }

    /// `true` iff resource `r` is present.
    pub fn has_resource(&self, r: u32) -> (b: bool)
        ensures
            b == self@.has_resource(r),
    {
        (r as usize) < self.resources.len() && self.resources[r as usize].is_some()
    }

    /// Resource `r`, or `None` when it has not been inserted.
    pub fn get_resource(&self, r: u32) -> (o: Option<&V>)
        ensures
            o is Some <==> self@.has_resource(r),
            o matches Some(x) ==> *x == self@.resource(r),
    {
        if (r as usize) < self.resources.len() {
            match &self.resources[r as usize] {
                Some(v) => Some(v),
                None => None,
            }
        } else {
            None
        }
    }

    /// Resource `r`, which must have been inserted.
    pub fn resource(&self, r: u32) -> (v: &V)
        requires
            self@.has_resource(r),
        ensures
            *v == self@.resource(r),
    {
        match &self.resources[r as usize] {
            Some(v) => v,
            None => vstd::pervasive::unreached(),
        }
    }

    /// Mutable access to resource `r`, which must have been inserted.
    pub fn resource_mut(&mut self, r: u32) -> (v: &mut V)
        requires
            old(self)@.has_resource(r),
        ensures
            *v == old(self)@.resource(r),
            final(self)@ == (WorldView {
                resources: old(self)@.resources.update(r as int, Some(*final(v))),
                ..old(self)@
            }),
    {
        let ri = r as usize;
        let slot = &mut self.resources[ri];
        match slot {
            Some(v) => v,
            None => vstd::pervasive::unreached(),
        }
    }

    /// Creates event channel `ev` if it does not exist yet; returns
    /// whether it was created.
    pub fn add_events(&mut self, ev: u32) -> (created: bool)
        ensures
            created == !old(self)@.has_events(ev),
            final(self)@.has_events(ev),
            final(self)@.events.len() >= old(self)@.events.len(),
            forall|i: int|
                0 <= i < old(self)@.events.len() && i != ev ==> final(self)@.events[i] == old(
                    self,
                )@.events[i],
            old(self)@.has_events(ev) ==> final(self)@ == old(self)@,
            !old(self)@.has_events(ev) ==> final(self)@.events[ev as int] == Some(
                EventsView::<V> { previous: Seq::empty(), current: Seq::empty() },
            ),
            final(self)@ == (WorldView { events: final(self)@.events, ..old(self)@ }),
            forall|i: int|
                old(self)@.events.len() <= i < final(self)@.events.len() && i != ev
                    ==> final(self)@.events[i] is None,
    {
        let ei = ev as usize;
        let ghost w0 = self@;
        if ei < self.events.len() && self.events[ei].is_some() {
            return false;
        }
        while self.events.len() <= ei
            invariant
                w0.events.len() <= self@.events.len(),
                self@.events.len() <= ei + 1 || self@.events.len() == w0.events.len(),
                forall|i: int| 0 <= i < w0.events.len() ==> self@.events[i] == w0.events[i],
                forall|i: int| w0.events.len() <= i < self@.events.len() ==> self@.events[i] is None,
                self@ == (WorldView { events: self@.events, ..w0 }),
                !w0.has_events(ev),
            decreases ei + 1 - self.events.len(),
        {
            let ghost prev = self@;
            self.events.push(None);
            proof {
                assert(self@.events =~= prev.events.push(None));
            }
        }
        let ghost prev = self@;
        let fresh: Events<V> = Events::new();
        proof {
            assert(fresh@.previous =~= Seq::empty());
            assert(fresh@.current =~= Seq::empty());
        }
        self.events.set(ei, Some(fresh));
        proof {
            assert(self@.events =~= prev.events.update(ei as int, Some(fresh@)));
        }
        true
    }

    /// Event channel `ev`, if it exists.
    pub fn events(&self, ev: u32) -> (o: Option<&Events<V>>)
        ensures
            o is Some <==> self@.has_events(ev),
            o matches Some(x) ==> Some(x@) == self@.events[ev as int],
    {
        if (ev as usize) < self.events.len() {
            match &self.events[ev as usize] {
                Some(x) => Some(x),
                None => None,
            }
        } else {
            None
        }
    }

    /// Mutable access to event channel `ev`, if it exists.
    pub fn events_mut(&mut self, ev: u32) -> (o: Option<&mut Events<V>>)
        ensures
            !old(self)@.has_events(ev) ==> o is None && final(self)@ == old(self)@,
            old(self)@.has_events(ev) ==> {
                &&& o is Some
                &&& Some((*o->0)@) == old(self)@.events[ev as int]
                &&& final(self)@.events.len() == old(self)@.events.len()
                &&& final(self)@.events[ev as int] == Some((*final(o->0))@)
                &&& forall|i: int|
                    0 <= i < old(self)@.events.len() && i != ev ==> (#[trigger] final(self)@.events[i]) == old(self)@.events[i]
                &&& final(self)@ == (WorldView { events: final(self)@.events, ..old(self)@ })
            },
    {
        let ei = ev as usize;
        if ei >= self.events.len() || self.events[ei].is_none() {
            return None;
        }
        let ghost prev = self@;
        let slot = &mut self.events[ei];
        match slot {
            Some(x) => Some(x),
            None => None,
        }
    }

    /// The deferred-command front end over this world's allocator and
    /// queue. Spawns allocate immediately; everything else is queued.
    pub fn commands(&mut self) -> (c: Commands<'_, V, U>)
        requires
            old(self).wf(),
        ensures
            (*c.entities)@ == old(self)@.alloc,
            (*c.queue)@ == old(self)@.pending,
            (*c.entities).wf(),
            final(self)@ == (WorldView {
                alloc: (*final(c.entities))@,
                pending: (*final(c.queue))@,
                ..old(self)@
            }),
    {
        Commands { entities: &mut self.entities, queue: &mut self.pending }
    }

    /// The commands queued and not yet applied.
    pub fn pending_commands(&self) -> (q: &CommandQueue<V, U>)
        ensures
            q@ == self@.pending,
    {
        &self.pending
    }

    /// The baseline parked for component `c` (0 when none is).
    pub fn baseline_for(&self, c: u32) -> (t: u32)
        ensures
            t == self@.baseline(c),
    {
        let n = self.baselines.len();
        let mut i: usize = 0;
        proof {
            assert(self@.baselines.subrange(0, n as int) == self@.baselines);
        }
        while i < n
            invariant
                n == self@.baselines.len(),
                i <= n,
                baseline_of(self@.baselines, c) == baseline_of(self@.baselines.subrange(
                    i as int,
                    n as int,
                ), c),
            decreases n - i,
        {
            let ghost rest = self@.baselines.subrange(i as int, n as int);
            if self.baselines[i].0 == c {
                return self.baselines[i].1;
            }
            proof {
                assert(rest.drop_first() == self@.baselines.subrange(i + 1, n as int));
            }
            i += 1;
        }
        0
    }
}

/// The keys of a run of entries.
pub open spec fn entry_ids(s: Seq<Entry>) -> Seq<u32> {
    s.map_values(|e: Entry| e.id)
}

/// One change-detected run of `system` under `access` with baselines
/// `last_seen`, taking the world from `before` to `after`: the system ran
/// on the state [`begun`](WorldView::begun) from `before`, and the world's
/// own baselines were put back afterwards.
pub open spec fn system_step<V, U, S: IntoSystem<V, U>>(
    system: S,
    access: Access,
    last_seen: Seq<(u32, u32)>,
    before: WorldView<V, U>,
    after: WorldView<V, U>,
) -> bool {
    exists|mid: WorldView<V, U>|
        #![trigger mid.with_baselines(before.baselines)]
        system.spec_run(before.begun(entry_ids(access.comps().writes), last_seen), mid) && after
            == mid.with_baselines(before.baselines)
}

impl<V, U> World<V, U> {
    /// Opens a system run: advances the clock of every component the
    /// system writes (once per declared write) and parks `last_seen` as
    /// the change-detection baseline. Returns the baselines it displaced.
    pub fn begin_system(&mut self, access: &Access, last_seen: &Vec<(u32, u32)>) -> (outer: Vec<
        (u32, u32),
    >)
        requires
            old(self).wf(),
        ensures
            final(self).wf(),
            outer@ == old(self)@.baselines,
            final(self)@ == (WorldView {
                storages: advance_ticks(old(self)@.storages, entry_ids(access.comps().writes)),
                baselines: last_seen@,
                ..old(self)@
            }),
    {
        let ghost w0 = self@;
        let ids = access.component_write_ids();
        let mut k: usize = 0;
        while k < ids.len()
            invariant
                self.wf(),
                k <= ids@.len(),
                ids@ == entry_ids(access.comps().writes),
                self@ == (WorldView {
                    storages: advance_ticks(w0.storages, ids@.take(k as int)),
                    ..w0
                }),
            decreases ids.len() - k,
        {
            proof {
                assert(ids@.take(k + 1).drop_last() == ids@.take(k as int));
                assert(ids@.take(k + 1).last() == ids@[k as int]);
            }
            let c = ids[k] as usize;
            if c < self.storages.len() {
                let ghost prev = self@;
                proof {
                    assert(prev.storages[c as int] == self.storages@[c as int]@);
                    assert(self.storages@[c as int].storage_inv());
                }
                self.storages[c].advance_tick();
                proof {
                    let sv = prev.storages[c as int];
                    assert(self@.storages =~= prev.storages.update(
                        c as int,
                        StorageView { tick: next_tick(sv.tick), ..sv },
                    ));
                    assert forall|cc: int, d: int|
                        0 <= cc < self@.storages.len() && 0 <= d < self@.storages[cc].entities.len()
                            implies self@.alloc.is_alive(#[trigger] self@.storages[cc].entities[d]) by {
                        assert(self@.storages[cc].entities == prev.storages[cc].entities);
                    }
                }
            }
            k += 1;
        }
        proof {
            assert(ids@.take(ids@.len() as int) == ids@);
        }
        let mut outer = copy_pairs(last_seen);
        let ghost w1 = self@;
        std::mem::swap(&mut self.baselines, &mut outer);
        proof {
            assert(self@ == (WorldView { baselines: last_seen@, ..w1 }));
        }
        outer
    }

    /// Closes a system run: restores the displaced baselines and records,
    /// for every component the system reads or writes that has a storage,
    /// where its clock now stands.
    pub fn end_system(
        &mut self,
        access: &Access,
        outer: Vec<(u32, u32)>,
        last_seen: &mut Vec<(u32, u32)>,
    )
        requires
            old(self).wf(),
        ensures
            final(self).wf(),
            final(self)@ == (WorldView { baselines: outer@, ..old(self)@ }),
            final(last_seen)@ == record_ticks(
                old(last_seen)@,
                old(self)@.storages,
                entry_ids(access.comps().reads + access.comps().writes),
            ),
    {
        let ghost w0 = self@;
        let ghost l0 = last_seen@;
        let ids = access.component_access_ids();
        let mut k: usize = 0;
        while k < ids.len()
            invariant
                self@ == w0,
                self.wf(),
                k <= ids@.len(),
                ids@ == entry_ids(access.comps().reads + access.comps().writes),
                last_seen@ == record_ticks(l0, w0.storages, ids@.take(k as int)),
            decreases ids.len() - k,
        {
            proof {
                assert(ids@.take(k + 1).drop_last() == ids@.take(k as int));
                assert(ids@.take(k + 1).last() == ids@[k as int]);
            }
            let c = ids[k];
            let ghost before = last_seen@;
            proof {
                assert(record_ticks(l0, w0.storages, ids@.take(k + 1)) == if (c as int)
                    < w0.storages.len() {
                    upsert(before, c, w0.storages[c as int].tick)
                } else {
                    before
                });
            }
            if (c as usize) < self.storages.len() {
                let t = self.storages[c as usize].current_tick();
                proof {
                    assert(w0.storages[c as int] == self.storages@[c as int]@);
                }
                upsert_tick(last_seen, c, t);
            }
            k += 1;
        }
        proof {
            assert(ids@.take(ids@.len() as int) == ids@);
        }
        let mut outer = outer;
        let ghost w1 = self@;
        let ghost ov = outer@;
        std::mem::swap(&mut self.baselines, &mut outer);
        proof {
            assert(self@ == (WorldView { baselines: ov, ..w1 }));
        }
    }

    /// Runs `system` with per-component change detection: the clocks of
    /// the components it writes advance first, it sees `last_seen` as its
    /// baseline, and afterwards `last_seen` holds, for each component it
    /// touches, the clock that component reached. The world's own
    /// baselines are left as they were.
    pub fn run_system<S: IntoSystem<V, U>>(
        &mut self,
        access: &Access,
        last_seen: &mut Vec<(u32, u32)>,
        system: &mut S,
    )
        requires
            old(self).wf(),
        ensures
            final(self).wf(),
            final(self)@.baselines == old(self)@.baselines,
            system_step(*old(system), *access, old(last_seen)@, old(self)@, final(self)@),
            final(last_seen)@ == record_ticks(
                old(last_seen)@,
                final(self)@.storages,
                entry_ids(access.comps().reads + access.comps().writes),
            ),
            forall|c: u32|
                #![trigger baseline_of(final(last_seen)@, c)]
                entry_ids(access.comps().reads + access.comps().writes).contains(c) && (c as int)
                    < final(self)@.storages.len() ==> baseline_of(final(last_seen)@, c)
                    == final(self)@.storages[c as int].tick,
    {
        let ghost w0 = self@;
        let outer = self.begin_system(access, last_seen);
        proof {
            assert(self@ == w0.begun(entry_ids(access.comps().writes), old(last_seen)@));
        }
        system.run(self);
        let ghost mid = self@;
        self.end_system(access, outer, last_seen);
        proof {
            assert(self@ == mid.with_baselines(w0.baselines));
        }
        proof {
            let ids = entry_ids(access.comps().reads + access.comps().writes);
            assert forall|c: u32|
                #![trigger baseline_of(last_seen@, c)]
                ids.contains(c) && (c as int) < self@.storages.len() implies baseline_of(
                last_seen@,
                c,
            ) == self@.storages[c as int].tick by {
                lemma_record_ticks_baseline(old(last_seen)@, self@.storages, ids, c);
            }
        }
    }
}

/// A copy of a list of key/tick pairs.
fn copy_pairs(v: &Vec<(u32, u32)>) -> (r: Vec<(u32, u32)>)
    ensures
        r@ == v@,
{
    let mut r: Vec<(u32, u32)> = Vec::new();
    let mut i: usize = 0;
    while i < v.len()
        invariant
            i <= v@.len(),
            r@ == v@.take(i as int),
        decreases v.len() - i,
    {
        r.push(v[i]);
        proof {
            assert(v@.take(i + 1) == v@.take(i as int).push(v@[i as int]));
        }
        i += 1;
    }
    proof {
        assert(v@.take(v@.len() as int) == v@);
    }
    r
}

/// Sets key `c` to `tick` in `list`, as [`upsert`] describes.
fn upsert_tick(list: &mut Vec<(u32, u32)>, c: u32, tick: u32)
    ensures
        final(list)@ == upsert(old(list)@, c, tick),
{
    let ghost l0 = list@;
    let mut i: usize = 0;
    while i < list.len()
        invariant
            list@ == l0,
            l0 == old(list)@,
            i <= l0.len(),
            forall|j: int| 0 <= j < i ==> (#[trigger] l0[j]).0 != c,
        decreases list.len() - i,
    {
        if list[i].0 == c {
            proof {
                lemma_upsert_at(l0, c, tick, i as int);
            }
            list.set(i, (c, tick));
            proof {
                assert(list@ == l0.update(i as int, (c, tick)));
            }
            return;
        }
        i += 1;
    }
    proof {
        lemma_upsert_at(l0, c, tick, l0.len() as int);
    }
    list.push((c, tick));
}

/// `upsert` updates the first entry keyed `c`, or appends one.
proof fn lemma_upsert_at(list: Seq<(u32, u32)>, c: u32, tick: u32, i: int)
    requires
        0 <= i <= list.len(),
        forall|j: int| 0 <= j < i ==> (#[trigger] list[j]).0 != c,
        i < list.len() ==> list[i].0 == c,
    ensures
        upsert(list, c, tick) == if i < list.len() {
            list.update(i, (c, tick))
        } else {
            list.push((c, tick))
        },
    decreases i,
{
    if i == 0 {
        if list.len() == 0 {
            assert(seq![(c, tick)] =~= list.push((c, tick)));
        }
    } else {
        let rest = list.drop_first();
        assert forall|j: int| 0 <= j < i - 1 implies (#[trigger] rest[j]).0 != c by {
            assert(rest[j] == list[j + 1]);
        }
        lemma_upsert_at(rest, c, tick, i - 1);
        if i < list.len() {
            assert(seq![list[0]] + rest.update(i - 1, (c, tick)) =~= list.update(i, (c, tick)));
        } else {
            assert(seq![list[0]] + rest.push((c, tick)) =~= list.push((c, tick)));
        }
    }
}

/// What `record_ticks` leaves as the baseline of one key: the clock of
/// its storage when the key was recorded and has a storage, else what the
/// list held.
pub(crate) proof fn lemma_record_ticks_baseline<V>(
    list: Seq<(u32, u32)>,
    storages: Seq<StorageView<V>>,
    ids: Seq<u32>,
    k: u32,
)
    ensures
        baseline_of(record_ticks(list, storages, ids), k) == if ids.contains(k) && (k as int)
            < storages.len() {
            storages[k as int].tick
        } else {
            baseline_of(list, k)
        },
    decreases ids.len(),
{
    if ids.len() > 0 {
        let rest = ids.drop_last();
        let c = ids.last();
        lemma_record_ticks_baseline(list, storages, rest, k);
        let r = record_ticks(list, storages, rest);
        if (c as int) < storages.len() {
            lemma_upsert_baseline(r, c, storages[c as int].tick, k);
        }
        assert(ids == rest.push(c));
        if ids.contains(k) && k != c {
            let j = choose|j: int| 0 <= j < ids.len() && ids[j] == k;
            assert(rest[j] == k);
        }
        if rest.contains(k) {
            let j = choose|j: int| 0 <= j < rest.len() && rest[j] == k;
            assert(ids[j] == k);
        }
        if k == c {
            assert(ids[ids.len() - 1] == k);
        }
    }
}

impl<V, U: ResourceUpdate<V>> World<V, U> {
    /// Applies one deferred command; `false` only for an update of an
    /// absent resource, which changes nothing.
    pub fn apply_command(&mut self, cmd: Command<V, U>) -> (ok: bool)
        requires
            old(self).wf(),
        ensures
            final(self).wf(),
            (final(self)@, ok) == old(self)@.after_command(cmd),
    {
        match cmd {
            Command::Despawn(e) => {
                self.despawn(e);
                true
            },
            Command::Insert(e, c, v) => {
                self.insert(e, c, v);
                true
            },
            Command::Remove(e, c) => {
                self.remove(e, c);
                true
            },
            Command::InsertResource(r, v) => {
                self.add_resource(r, v);
                true
            },
            Command::UpdateResource(r, u) => {
                if !self.has_resource(r) {
                    return false;
                }
                let ghost w0 = self@;
                let slot = self.resource_mut(r);
                u.apply(slot);
                proof {
                    let res = w0.resources;
                    assert(self@.resources == res.update(r as int, Some(u.spec_apply(w0.resource(r)))));
                }
                true
            },
        }
    }

    /// Applies every pending command in queue order. Reports the key of
    /// the first update aimed at an absent resource; commands after it are
    /// dropped.
    pub fn flush_commands(&mut self) -> (r: Result<(), u32>)
        requires
            old(self).wf(),
        ensures
            final(self).wf(),
            final(self)@ == old(self)@.flushed().0,
            r matches Err(k) ==> old(self)@.flushed().1 == Some(k),
            r is Ok ==> old(self)@.flushed().1 is None,
            final(self)@.pending.len() == 0,
            final(self)@.baselines == old(self)@.baselines,
            final(self)@.events == old(self)@.events,
    {
        let ghost w0 = self@;
        let mut queue: CommandQueue<V, U> = CommandQueue::new();
        std::mem::swap(&mut queue, &mut self.pending);
        proof {
            assert(self@.pending =~= Seq::empty());
            assert(self@ == (WorldView { pending: Seq::empty(), ..w0 }));
        }
        let r = queue.flush(self);
        proof {
            lemma_commands_keep_queue(WorldView { pending: Seq::empty(), ..w0 }, w0.pending);
        }
        r
    }
}

/// A builder over a just-spawned (or existing) entity that attaches
/// components immediately.
pub struct EntityMut<'w, V, U> {
    pub world: &'w mut World<V, U>,
    pub entity: Entity,
}

impl<'w, V, U> EntityMut<'w, V, U> {
    /// Attaches component `c` with `value` to the entity.
    pub fn insert(self, c: u32, value: V) -> (r: Self)
        requires
            (*old(self.world)).wf(),
        ensures
            r.entity == self.entity,
            (*r.world)@ == (*old(self.world))@.after_insert(self.entity, c, value),
            (*r.world).wf(),
            *final(r.world) == *final(self.world),
    {
        let entity = self.entity;
        let world = self.world;
        world.insert(entity, c, value);
        EntityMut { world, entity }
    }

    /// The entity being built.
    pub fn id(&self) -> (e: Entity)
        ensures
            e == self.entity,
    {
        self.entity
    }
}

/// `baseline_of` over a list that is `list` with `c` upserted.
proof fn lemma_upsert_baseline(list: Seq<(u32, u32)>, c: u32, tick: u32, k: u32)
    ensures
        baseline_of(upsert(list, c, tick), k) == if k == c {
            tick
        } else {
            baseline_of(list, k)
        },
    decreases list.len(),
{
    reveal_with_fuel(baseline_of, 2);
    if list.len() == 0 {
        assert(upsert(list, c, tick).drop_first().len() == 0);
    } else if list[0].0 == c {
        let u = upsert(list, c, tick);
        assert(u[0] == (c, tick));
        assert(u.drop_first() =~= list.drop_first());
    } else {
        lemma_upsert_baseline(list.drop_first(), c, tick, k);
        let u = upsert(list, c, tick);
        assert(u[0] == list[0]);
        assert(u.drop_first() =~= upsert(list.drop_first(), c, tick));
    }
}

/// Despawning an entity leaves it holding no component at all, while
/// every other entity keeps exactly the components and values it had.
pub proof fn law_despawn_clears_every_component<V, U>(w: WorldView<V, U>, e: Entity)
    requires
        w.wf(),
    ensures
        !w.after_despawn(e).alloc.is_alive(e),
        forall|c: u32| !#[trigger] w.after_despawn(e).has(e, c),
        forall|x: Entity, c: u32|
            x != e ==> {
                &&& #[trigger] w.after_despawn(e).has(x, c) == w.has(x, c)
                &&& w.has(x, c) ==> w.after_despawn(e).storage_at(c).value_of(x) == w.storage_at(
                    c,
                ).value_of(x)
            },
{
    let w1 = w.after_despawn(e);
    if w.alloc.is_alive(e) {
        assert forall|c: u32| !#[trigger] w1.has(e, c) by {
            if (c as int) < w.storages.len() {
                crate::storage::lemma_remove_post(w.storages[c as int], e, w1.storages[c as int]);
            }
        }
        assert forall|x: Entity, c: u32| x != e implies {
            &&& #[trigger] w1.has(x, c) == w.has(x, c)
            &&& w.has(x, c) ==> w1.storage_at(c).value_of(x) == w.storage_at(c).value_of(x)
        } by {
            if (c as int) < w.storages.len() {
                crate::storage::lemma_remove_post(w.storages[c as int], e, w1.storages[c as int]);
            }
        }
    } else {
        assert forall|c: u32| !#[trigger] w1.has(e, c) by {
            if (c as int) < w.storages.len() && w.storages[c as int].contains(e) {
                let s = w.storages[c as int];
                let d = s.dense_index_of(e)->0;
                assert(w.alloc.is_alive(w.storages[c as int].entities[d]));
            }
        }
    }
}

/// A component attached to a live entity reads back as attached, and the
/// entity's other components, and every other entity's, are untouched.
pub proof fn law_insert_then_get<V, U>(w: WorldView<V, U>, e: Entity, c: u32, value: V, d: u32)
    requires
        w.wf(),
        w.alloc.is_alive(e),
        (c as int) < w.storages.len() ==> w.storages[c as int].can_insert(e),
        d != c,
    ensures
        w.after_insert(e, c, value).has(e, c),
        w.after_insert(e, c, value).storage_at(c).value_of(e) == value,
        w.after_insert(e, c, value).has(e, d) == w.has(e, d),
        w.after_insert(e, c, value).storage_at(d) == w.storage_at(d),
{
    let st = w.storages_covering(c);
    assert(st[c as int].wf()) by {
        if (c as int) >= w.storages.len() {
            assert(st[c as int] == empty_storage::<V>());
        }
    }
    assert(st[c as int].can_insert(e)) by {
        if (c as int) >= w.storages.len() {
            assert(st[c as int] == empty_storage::<V>());
        }
    }
    crate::storage::law_insert_then_remove_round_trips(st[c as int], e, value);
    if (d as int) < w.storages.len() {
        assert(w.after_insert(e, c, value).storages[d as int] == w.storages[d as int]);
    } else if (d as int) < st.len() {
        assert(st[d as int] == empty_storage::<V>());
    }
}

/// Queued resource inserts apply in push order: of two inserts of the
/// same resource, the later one wins.
pub proof fn law_later_queued_insert_wins<V, U: ResourceUpdate<V>>(
    w: WorldView<V, U>,
    r: u32,
    a: V,
    b: V,
)
    ensures
        w.after_commands(seq![Command::InsertResource(r, a), Command::InsertResource(r, b)]).1 is None,
        w.after_commands(
            seq![Command::InsertResource(r, a), Command::InsertResource(r, b)],
        ).0.has_resource(r),
        w.after_commands(
            seq![Command::InsertResource(r, a), Command::InsertResource(r, b)],
        ).0.resource(r) == b,
{
    let ops = seq![Command::<V, U>::InsertResource(r, a), Command::InsertResource(r, b)];
    reveal_with_fuel(WorldView::after_commands, 3);
    assert(ops.drop_first() =~= seq![Command::<V, U>::InsertResource(r, b)]);
    assert(ops.drop_first().drop_first() =~= Seq::<Command<V, U>>::empty());
}

/// A queued update sees what an earlier queued insert of the same
/// resource created, within one flush.
pub proof fn law_update_sees_earlier_insert<V, U: ResourceUpdate<V>>(
    w: WorldView<V, U>,
    r: u32,
    a: V,
    u: U,
)
    ensures
        w.after_commands(seq![Command::InsertResource(r, a), Command::UpdateResource(r, u)]).1 is None,
        w.after_commands(
            seq![Command::InsertResource(r, a), Command::UpdateResource(r, u)],
        ).0.resource(r) == u.spec_apply(a),
{
    let ops = seq![Command::<V, U>::InsertResource(r, a), Command::UpdateResource(r, u)];
    reveal_with_fuel(WorldView::after_commands, 3);
    assert(ops.drop_first() =~= seq![Command::<V, U>::UpdateResource(r, u)]);
    assert(ops.drop_first().drop_first() =~= Seq::<Command<V, U>>::empty());
}

/// An update queued for an absent resource stops the flush there: it is
/// reported, and it and everything queued after it are dropped.
pub proof fn law_update_of_absent_resource_stops_the_flush<V, U: ResourceUpdate<V>>(
    w: WorldView<V, U>,
    r: u32,
    u: U,
    rest: Seq<Command<V, U>>,
)
    requires
        !w.has_resource(r),
    ensures
        w.after_commands(seq![Command::UpdateResource(r, u)] + rest) == (w, Some(r)),
{
    let ops = seq![Command::UpdateResource(r, u)] + rest;
    assert(ops[0] == Command::<V, U>::UpdateResource(r, u));
}


/// Once `e` is dead, no queued command makes it live again: commands
/// never allocate.
proof fn lemma_dead_stays_dead<V, U: ResourceUpdate<V>>(
    w: WorldView<V, U>,
    ops: Seq<Command<V, U>>,
    e: Entity,
)
    requires
        !w.alloc.is_alive(e),
        w.alloc.generation.len() == w.alloc.alive.len(),
    ensures
        !w.after_commands(ops).0.alloc.is_alive(e),
    decreases ops.len(),
{
    if ops.len() > 0 {
        let (w1, ok) = w.after_command(ops[0]);
        match ops[0] {
            Command::Despawn(x) => {
                if w.alloc.is_alive(x) {
                    let a1 = w.alloc.after_destroy(x).0;
                    assert(w1.alloc == a1);
                    if e.index == x.index {
                        assert(!a1.alive[e.index as int]);
                    } else if (e.index as int) < w.alloc.alive.len() {
                        assert(a1.alive[e.index as int] == w.alloc.alive[e.index as int]);
                        assert(a1.generation[e.index as int] == w.alloc.generation[e.index as int]);
                    }
                }
            },
            _ => {},
        }
        assert(!w1.alloc.is_alive(e));
        assert(w1.alloc.generation.len() == w1.alloc.alive.len());
        if ok {
            lemma_dead_stays_dead(w1, ops.drop_first(), e);
        }
    }
}

/// A flush that runs past a queued `Despawn(e)` leaves `e` dead.
proof fn lemma_queued_despawn_kills<V, U: ResourceUpdate<V>>(
    w: WorldView<V, U>,
    ops: Seq<Command<V, U>>,
    k: int,
    e: Entity,
)
    requires
        w.alloc.generation.len() == w.alloc.alive.len(),
        0 <= k < ops.len(),
        ops[k] == Command::<V, U>::Despawn(e),
        w.after_commands(ops).1 is None,
    ensures
        !w.after_commands(ops).0.alloc.is_alive(e),
    decreases k,
{
    let (w1, ok) = w.after_command(ops[0]);
    assert(ok);
    assert(w1.alloc.generation.len() == w1.alloc.alive.len());
    if k == 0 {
        assert(!w1.alloc.is_alive(e));
        lemma_dead_stays_dead(w1, ops.drop_first(), e);
    } else {
        assert(ops.drop_first()[k - 1] == ops[k]);
        lemma_queued_despawn_kills(w1, ops.drop_first(), k - 1, e);
    }
}

/// A queued despawn is final: once a flush runs past a queued
/// `Despawn(e)` (however many times it was queued, whatever was queued on
/// `e` after it), `e` is dead, and in the well-formed world the flush
/// leaves (as [`World::flush_commands`] guarantees) it holds no
/// component.
pub proof fn law_queued_despawn_is_final<V, U: ResourceUpdate<V>>(
    w: WorldView<V, U>,
    ops: Seq<Command<V, U>>,
    k: int,
    e: Entity,
)
    requires
        w.wf(),
        0 <= k < ops.len(),
        ops[k] == Command::<V, U>::Despawn(e),
        w.after_commands(ops).1 is None,
    ensures
        !w.after_commands(ops).0.alloc.is_alive(e),
        w.after_commands(ops).0.wf() ==> forall|c: u32| !#[trigger] w.after_commands(ops).0.has(e, c),
{
    lemma_queued_despawn_kills(w, ops, k, e);
    let wf = w.after_commands(ops).0;
    if wf.wf() {
        assert forall|c: u32| !#[trigger] wf.has(e, c) by {
            if wf.has(e, c) {
                let st = wf.storages[c as int];
                let d = st.dense_index_of(e)->0;
                assert(wf.alloc.is_alive(st.entities[d]));
            }
        }
    }
}


/// Inserting resource `r` makes `r` present with exactly the inserted
/// value, and leaves every other resource as it was: present or absent,
/// and with the same value where present. Nothing else in the world
/// changes.
pub proof fn law_add_resource_touches_only_its_key<V, U>(w: WorldView<V, U>, r: u32, v: V, k: u32)
    ensures
        w.after_add_resource(r, v).has_resource(r),
        w.after_add_resource(r, v).resource(r) == v,
        k != r ==> w.after_add_resource(r, v).has_resource(k) == w.has_resource(k),
        k != r && w.has_resource(k) ==> w.after_add_resource(r, v).resource(k) == w.resource(k),
        w.after_add_resource(r, v).alloc == w.alloc,
        w.after_add_resource(r, v).storages == w.storages,
        w.after_add_resource(r, v).events == w.events,
        w.after_add_resource(r, v).pending == w.pending,
{
    let w1 = w.after_add_resource(r, v);
    if (k as int) < w.resources.len() && k != r {
        assert(w1.resources[k as int] == w.resources[k as int]);
    }
    if k != r && (k as int) < w1.resources.len() && (k as int) >= w.resources.len() {
        assert(w1.resources[k as int] is None);
    }
}

/// A queued update of resource `r` applied at a flush: when `r` is
/// present, `r` holds the update applied to its value at that point and
/// every other resource is left as it was; when `r` is absent, nothing
/// changes and the flush stops there.
pub proof fn law_update_resource_touches_only_its_key<V, U: ResourceUpdate<V>>(
    w: WorldView<V, U>,
    r: u32,
    u: U,
    k: u32,
)
    ensures
        w.after_command(Command::UpdateResource(r, u)).1 == w.has_resource(r),
        !w.has_resource(r) ==> w.after_command(Command::UpdateResource(r, u)).0 == w,
        w.has_resource(r) ==> {
            let w1 = w.after_command(Command::UpdateResource(r, u)).0;
            &&& w1.has_resource(r)
            &&& w1.resource(r) == u.spec_apply(w.resource(r))
            &&& k != r ==> w1.has_resource(k) == w.has_resource(k)
            &&& k != r && w.has_resource(k) ==> w1.resource(k) == w.resource(k)
            &&& w1.alloc == w.alloc && w1.storages == w.storages && w1.events == w.events
        },
{
    if w.has_resource(r) {
        law_add_resource_touches_only_its_key(w, r, u.spec_apply(w.resource(r)), k);
    }
}

} // verus!
