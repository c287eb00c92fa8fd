//! Double-buffered, frame-decoupled messaging between systems.
//!
//! Writers push to `current`; readers see `previous`; one swap per frame
//! rotates `current` into `previous` and empties `current`. Every reader
//! therefore observes each event exactly once, one frame after it was sent.
use vstd::prelude::*;

use crate::access::Entry;

verus! {

/// Two event buffers: the frame being written and the frame being read.
#[derive(Debug)]
pub struct Events<T> {
    previous: Vec<T>,
    current: Vec<T>,
}

/// The abstract state of [`Events`].
pub struct EventsView<T> {
    pub previous: Seq<T>,
    pub current: Seq<T>,
}

impl<T> EventsView<T> {
    /// The buffers after `event` is sent.
    pub open spec fn after_send(self, event: T) -> EventsView<T> {
        EventsView { previous: self.previous, current: self.current.push(event) }
    }

    /// The buffers after the frame-boundary rotation.
    pub open spec fn after_swap(self) -> EventsView<T> {
        EventsView { previous: self.current, current: Seq::empty() }
    }
}

/// An event sent during a frame is readable during the next frame, in
/// send order after the frame's earlier sends, and is gone the frame after
/// that unless sent again.
pub proof fn law_event_readable_for_exactly_one_frame<T>(v: EventsView<T>, event: T)
    ensures
        v.after_send(event).previous == v.previous,
        v.after_send(event).after_swap().previous == v.current.push(event),
        v.after_send(event).after_swap().previous.last() == event,
        v.after_send(event).after_swap().after_swap().previous.len() == 0,
{
}

impl<T> View for Events<T> {
    type V = EventsView<T>;

    closed spec fn view(&self) -> EventsView<T> {
        EventsView { previous: self.previous@, current: self.current@ }
    }
}

impl<T> Events<T> {
    /// Two empty buffers.
    pub fn new() -> (e: Self)
        ensures
            e@.previous == Seq::<T>::empty(),
            e@.current == Seq::<T>::empty(),
    {
        Events { previous: Vec::new(), current: Vec::new() }
    }

    /// Queues `event` for readers of the next frame.
    pub fn send(&mut self, event: T)
        ensures
            final(self)@ == old(self)@.after_send(event),
    {
        self.current.push(event);
    }

    /// The events sent during the previous frame, in send order.
    pub fn iter_previous(&self) -> (r: &[T])
        ensures
            r@ == self@.previous,
    {
        self.previous.as_slice()
    }

    /// Frame boundary: this frame's sends become readable and the
    /// write buffer empties; last frame's events age out.
    pub fn swap(&mut self)
        ensures
            final(self)@ == old(self)@.after_swap(),
    {
        std::mem::swap(&mut self.previous, &mut self.current);
        self.current.clear();
    }
}

/// The per-type swap step that runs once per frame.
pub fn swap_events<T>(events: &mut Events<T>)
    ensures
        final(events)@ == old(events)@.after_swap(),
{
    events.swap();
}

/// Write handle over one event channel.
pub struct EventWriter<'w, T> {
    pub key: Entry,
    pub events: &'w mut Events<T>,
}

impl<'w, T> EventWriter<'w, T> {
    /// A writer over `events`, the channel keyed `key`.
    pub fn new(key: Entry, events: &'w mut Events<T>) -> (w: Self)
        ensures
            w.key == key,
            (*w.events)@ == (*old(events))@,
            *final(w.events) == *final(events),
    {
        EventWriter { key, events }
    }

    /// Queues `event` for the next frame's readers.
    pub fn send(&mut self, event: T)
        ensures
            (*final(self).events)@ == (*old(self).events)@.after_send(event),
            *final(final(self).events) == *final(old(self).events),
            final(self).key == old(self).key,
    {
        self.events.send(event);
    }
}

/// Read handle over one event channel.
pub struct EventReader<'w, T> {
    pub key: Entry,
    pub events: &'w Events<T>,
}

impl<'w, T> EventReader<'w, T> {
    /// A reader over `events`, the channel keyed `key`.
    pub fn new(key: Entry, events: &'w Events<T>) -> (r: Self)
        ensures
            r.key == key,
            r.events == events,
    {
        EventReader { key, events }
    }

    /// The events sent during the previous frame.
    pub fn read(&self) -> (r: &[T])
        ensures
            r@ == self.events@.previous,
    {
        self.events.iter_previous()
    }
}

} // verus!
