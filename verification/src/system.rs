//! Systems and their parameters.
//!
//! A system declares the [`Access`] it needs and runs against the world.
//! Each parameter kind records its access: `Res` a resource read, `ResMut`
//! a resource write, a query its component reads and writes, event readers
//! and writers a read or write of their channel, and `Commands` nothing at
//! all (it only allocates handles and queues edits).
use vstd::prelude::*;

use crate::access::{Access, Entry};
use crate::commands::Commands;
use crate::events::{EventReader, EventWriter};
use crate::query::{Query, shape_reads, shape_writes};
use crate::world::{World, WorldView};

verus! {

/// A runnable system: its declared access and its body.
pub trait IntoSystem<V, U> {
    /// The system's name, for diagnostics.
    spec fn spec_name(&self) -> &'static str;

    /// The system's name, for diagnostics.
    fn name(&self) -> (n: &'static str)
        ensures
            n == self.spec_name(),
    ;

    /// The access the system declares.
    spec fn spec_access(&self) -> Access;

    /// The access the system declares: its component and resource read
    /// and write sets are those of [`spec_access`](Self::spec_access).
    fn access(&self) -> (a: Access)
        ensures
            a.comps() == self.spec_access().comps(),
            a.res() == self.spec_access().res(),
    ;

    /// What one run of the system does: holds of the system as it was and
    /// of the world before and after the run.
    spec fn spec_run(&self, before: WorldView<V, U>, after: WorldView<V, U>) -> bool;

    /// Runs the system against the world.
    fn run(&mut self, world: &mut World<V, U>)
        requires
            old(world).wf(),
        ensures
            final(world).wf(),
            old(self).spec_run(old(world)@, final(world)@),
    ;
}

/// A system parameter that records what it reads and writes.
pub trait SystemParam {
    /// Folds the parameter's access into `access`.
    fn collect_access(&self, access: &mut Access);
}

/// Shared access to one resource.
pub struct Res<'w, V> {
    pub key: Entry,
    pub value: &'w V,
}

impl<'w, V> Res<'w, V> {
    /// Borrows resource `key`, which must have been inserted.
    pub fn from_world<U>(world: &'w World<V, U>, key: Entry) -> (r: Self)
        requires
            world@.has_resource(key.id),
        ensures
            r.key == key,
            *r.value == world@.resource(key.id),
    {
        Res { key, value: world.resource(key.id) }
    }
}

impl<'w, V> SystemParam for Res<'w, V> {
    fn collect_access(&self, access: &mut Access)
        ensures
            final(access).res().reads == old(access).res().reads.push(self.key),
            final(access).res().writes == old(access).res().writes,
            final(access).comps() == old(access).comps(),
    {
        access.add_resource_read(self.key.id, self.key.name);
    }
}

/// Exclusive access to one resource.
pub struct ResMut<'w, V> {
    pub key: Entry,
    pub value: &'w mut V,
}

impl<'w, V> ResMut<'w, V> {
    /// Borrows resource `key` mutably; it must have been inserted.
    pub fn from_world<U>(world: &'w mut World<V, U>, key: Entry) -> (r: Self)
        requires
            old(world)@.has_resource(key.id),
        ensures
            r.key == key,
            *r.value == old(world)@.resource(key.id),
            final(world)@ == (WorldView {
                resources: old(world)@.resources.update(key.id as int, Some(*final(r.value))),
                ..old(world)@
            }),
    {
        ResMut { key, value: world.resource_mut(key.id) }
    }
}

impl<'w, V> SystemParam for ResMut<'w, V> {
    fn collect_access(&self, access: &mut Access)
        ensures
            final(access).res().writes == old(access).res().writes.push(self.key),
            final(access).res().reads == old(access).res().reads,
            final(access).comps() == old(access).comps(),
    {
        access.add_resource_write(self.key.id, self.key.name);
    }
}

impl<'w, V, U> SystemParam for Commands<'w, V, U> {
    fn collect_access(&self, access: &mut Access)
        ensures
            final(access).comps() == old(access).comps(),
            final(access).res() == old(access).res(),
    {
    }
}

impl<'w, T> SystemParam for EventReader<'w, T> {
    fn collect_access(&self, access: &mut Access)
        ensures
            final(access).res().reads == old(access).res().reads.push(self.key),
            final(access).res().writes == old(access).res().writes,
            final(access).comps() == old(access).comps(),
    {
        access.add_resource_read(self.key.id, self.key.name);
    }
}

impl<'w, T> SystemParam for EventWriter<'w, T> {
    fn collect_access(&self, access: &mut Access)
        ensures
            final(access).res().writes == old(access).res().writes.push(self.key),
            final(access).res().reads == old(access).res().reads,
            final(access).comps() == old(access).comps(),
    {
        access.add_resource_write(self.key.id, self.key.name);
    }
}

impl<'w, V, U> SystemParam for Query<'w, V, U> {
    fn collect_access(&self, access: &mut Access)
        ensures
            final(access).comps().reads == old(access).comps().reads + shape_reads(
                self.shape_view(),
            ) + self.filter_view().spec_reads(),
            final(access).comps().writes == old(access).comps().writes + shape_writes(
                self.shape_view(),
            ),
            final(access).res() == old(access).res(),
    {
        let comps = access.components_mut();
        self.record_access(comps);
    }
}

} // verus!
