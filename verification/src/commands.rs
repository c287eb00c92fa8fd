//! Deferred entity, component and resource mutations.
//!
//! [`Commands`] queues structural changes into a [`CommandQueue`] that the
//! world applies at a flush point, in push order. Only `spawn` acts at
//! once: allocating a handle touches no storage, so the handle is usable
//! (for example by a queued `despawn`) within the same system.
use vstd::prelude::*;

use crate::entity::{AllocView, Entity, EntityAllocator};
use crate::world::{World, WorldView};

verus! {

/// A deferred edit of a component or resource key's content.
pub trait ResourceUpdate<V> {
    /// The value the update produces from `v`.
    spec fn spec_apply(&self, v: V) -> V;

    /// Applies the update in place.
    fn apply(&self, value: &mut V)
        ensures
            *final(value) == self.spec_apply(*old(value)),
    ;
}

/// Overwrites a resource with a fixed value.
pub struct SetTo<V> {
    pub value: V,
}

impl<V: Copy> ResourceUpdate<V> for SetTo<V> {
    open spec fn spec_apply(&self, v: V) -> V {
        self.value
    }

    fn apply(&self, value: &mut V) {
        *value = self.value;
    }
}

/// One deferred world edit.
pub enum Command<V, U> {
    Despawn(Entity),
    Insert(Entity, u32, V),
    Remove(Entity, u32),
    InsertResource(u32, V),
    UpdateResource(u32, U),
}

/// FIFO buffer of deferred world edits.
pub struct CommandQueue<V, U> {
    ops: Vec<Command<V, U>>,
}

impl<V, U> View for CommandQueue<V, U> {
    type V = Seq<Command<V, U>>;

    closed spec fn view(&self) -> Seq<Command<V, U>> {
        self.ops@
    }
}

impl<V, U> CommandQueue<V, U> {
    /// An empty queue.
    pub fn new() -> (q: Self)
        ensures
            q@.len() == 0,
    {
        CommandQueue { ops: Vec::new() }
    }

    /// Appends one command.
    pub fn push(&mut self, op: Command<V, U>)
        ensures
            final(self)@ == old(self)@.push(op),
    {
        self.ops.push(op);
    }

    /// `true` iff nothing is queued.
    pub fn is_empty(&self) -> (r: bool)
        ensures
            r == (self@.len() == 0),
    {
        self.ops.len() == 0
    }

    /// Number of queued commands.
    pub fn len(&self) -> (n: usize)
        ensures
            n == self@.len(),
    {
        self.ops.len()
    }
}

impl<V, U: ResourceUpdate<V>> CommandQueue<V, U> {
    /// Drains the queue into `world`, applying commands in push order.
    /// Reports the key of the first update aimed at an absent resource;
    /// the commands after it are dropped.
    pub fn flush(&mut self, world: &mut World<V, U>) -> (r: Result<(), u32>)
        requires
            old(world).wf(),
        ensures
            final(self)@.len() == 0,
            final(world).wf(),
            final(world)@ == old(world)@.after_commands(old(self)@).0,
            r matches Err(k) ==> old(world)@.after_commands(old(self)@).1 == Some(k),
            r is Ok ==> old(world)@.after_commands(old(self)@).1 is None,
    {
        let mut ops: Vec<Command<V, U>> = Vec::new();
        std::mem::swap(&mut ops, &mut self.ops);
        let ghost all = ops@;
        let ghost w0 = world@;
        let total_len = ops.len();
        let ghost total = total_len as nat;
        let mut done: usize = 0;
        proof {
            assert(all.subrange(0, total as int) == all);
        }
        while ops.len() > 0
            invariant
                world.wf(),
                self@.len() == 0,
                done + ops@.len() == total,
                total == all.len(),
                total <= usize::MAX,
                all == old(self)@,
                w0 == old(world)@,
                ops@ == all.subrange(done as int, total as int),
                w0.after_commands(all) == world@.after_commands(all.subrange(done as int, total as int)),
            decreases ops.len(),
        {
            let ghost rest = all.subrange(done as int, total as int);
            let op = ops.remove(0);
            proof {
                assert(op == rest[0]);
            }
            let key = match &op {
                Command::UpdateResource(k, _) => *k,
                _ => 0,
            };
            let ghost w1 = world@;
            let ok = world.apply_command(op);
            if !ok {
                proof {
                    assert(rest[0] is UpdateResource);
                    assert(key == rest[0]->UpdateResource_0);
                    assert(w1.after_command(rest[0]) == (world@, false));
                    assert(w1.after_commands(rest) == (world@, Some(key)));
                    assert(w0.after_commands(all) == (world@, Some(key)));
                    assert(all == old(self)@);
                    assert(w0 == old(world)@);
                }
                return Err(key);
            }
            proof {
                assert(rest.drop_first() == all.subrange(done + 1, total as int));
                assert(ops@ == all.subrange(done + 1, total as int));
            }
            done += 1;
        }
        proof {
            assert(all.subrange(done as int, total as int).len() == 0);
        }
        Ok(())
    }
}

/// Deferred-command front end for one system: allocates spawned handles at
/// once and queues everything else.
pub struct Commands<'w, V, U> {
    pub entities: &'w mut EntityAllocator,
    pub queue: &'w mut CommandQueue<V, U>,
}

impl<'w, V, U> Commands<'w, V, U> {
    /// Allocates a fresh entity now and returns a builder whose inserts
    /// and removes are queued.
    pub fn spawn(&mut self) -> (r: EntityCommands<'_, V, U>)
        requires
            (*old(self).entities).wf(),
            (*old(self).entities)@.can_allocate(),
        ensures
            (r.entity, (*final(self).entities)@) == ((*old(self).entities)@.after_allocate().1, (
            *old(self).entities)@.after_allocate().0),
            (*final(self).entities).wf(),
            (*final(self).entities)@.is_alive(r.entity),
            !(*old(self).entities)@.is_alive(r.entity),
            *r.queue == *old(self).queue,
            *final(r.queue) == *final(self).queue,
            *final(final(self).entities) == *final(old(self).entities),
            *final(final(self).queue) == *final(old(self).queue),
    {
        let entity = self.entities.allocate();
        EntityCommands { entity, queue: &mut *self.queue }
    }

    /// Queues a despawn of `entity`.
    pub fn despawn(&mut self, entity: Entity)
        ensures
            (*final(self).queue)@ == (*old(self).queue)@.push(Command::Despawn(entity)),
            *final(self).entities == *old(self).entities,
            *final(final(self).entities) == *final(old(self).entities),
            *final(final(self).queue) == *final(old(self).queue),
    {
        self.queue.push(Command::Despawn(entity));
    }

    /// A builder over an existing handle; its operations are all queued.
    pub fn entity(&mut self, entity: Entity) -> (r: EntityCommands<'_, V, U>)
        ensures
            r.entity == entity,
            *final(self).entities == *old(self).entities,
            *r.queue == *old(self).queue,
            *final(r.queue) == *final(self).queue,
            *final(final(self).entities) == *final(old(self).entities),
            *final(final(self).queue) == *final(old(self).queue),
    {
        EntityCommands { entity, queue: &mut *self.queue }
    }

    /// Queues a creation or overwrite of resource `r`.
    pub fn insert_resource(&mut self, r: u32, value: V)
        ensures
            (*final(self).queue)@ == (*old(self).queue)@.push(Command::InsertResource(r, value)),
            *final(self).entities == *old(self).entities,
            *final(final(self).entities) == *final(old(self).entities),
            *final(final(self).queue) == *final(old(self).queue),
    {
        self.queue.push(Command::InsertResource(r, value));
    }

    /// Queues an in-place update of resource `r`, applied at the flush.
    pub fn update_resource(&mut self, r: u32, update: U)
        ensures
            (*final(self).queue)@ == (*old(self).queue)@.push(Command::UpdateResource(r, update)),
            *final(self).entities == *old(self).entities,
            *final(final(self).entities) == *final(old(self).entities),
            *final(final(self).queue) == *final(old(self).queue),
    {
        self.queue.push(Command::UpdateResource(r, update));
    }
}

/// Builder over one entity whose component edits are queued.
pub struct EntityCommands<'a, V, U> {
    pub entity: Entity,
    pub queue: &'a mut CommandQueue<V, U>,
}

impl<'a, V, U> EntityCommands<'a, V, U> {
    /// Queues attaching component `c` with `value`.
    pub fn insert(self, c: u32, value: V) -> (r: Self)
        ensures
            r.entity == self.entity,
            (*r.queue)@ == (*old(self.queue))@.push(Command::Insert(self.entity, c, value)),
            *final(r.queue) == *final(self.queue),
    {
        let entity = self.entity;
        let queue = self.queue;
        queue.push(Command::Insert(entity, c, value));
        EntityCommands { entity, queue }
    }

    /// Queues detaching component `c`.
    pub fn remove(self, c: u32) -> (r: Self)
        ensures
            r.entity == self.entity,
            (*r.queue)@ == (*old(self.queue))@.push(Command::Remove(self.entity, c)),
            *final(r.queue) == *final(self.queue),
    {
        let entity = self.entity;
        let queue = self.queue;
        queue.push(Command::Remove(entity, c));
        EntityCommands { entity, queue }
    }

    /// The entity this builder edits.
    pub fn id(&self) -> (e: Entity)
        ensures
            e == self.entity,
    {
        self.entity
    }
}

} // verus!
