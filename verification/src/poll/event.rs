//! What `epoll` reported.

use crate::poll::interest::{EPOLLERR, EPOLLIN, EPOLLOUT};
use vstd::prelude::*;

verus! {

/// One readiness event: the flags that are up, and the token that the
/// source was registered with.
#[derive(Copy, Clone, Debug, PartialEq, Eq, Structural)]
pub struct Event {
    pub events: u32,
    pub data: u64,
}

impl Default for Event {
    /// An event with no flag up and the token zero.
    fn default() -> (r: Event)
        ensures
            r == (Event { events: 0, data: 0 }),
    {
        Event { events: 0, data: 0 }
    }
}

impl Event {
    /// The token that the source was registered with.
    pub fn token(&self) -> (r: usize)
        ensures
            r == self.data as usize,
    {
        #[verifier::truncate]
        (self.data as usize)
    }

    /// Whether the source can be read.
    pub fn is_readable(&self) -> (r: bool)
        ensures
            r == (self.events & EPOLLIN != 0),
    {
        (self.events & EPOLLIN) != 0
    }

    /// Whether the source can be written.
    pub fn is_writable(&self) -> (r: bool)
        ensures
            r == (self.events & EPOLLOUT != 0),
    {
        (self.events & EPOLLOUT) != 0
    }

    /// Whether the source is in error.
    pub fn is_error(&self) -> (r: bool)
        ensures
            r == (self.events & EPOLLERR != 0),
    {
        (self.events & EPOLLERR) != 0
    }
}

/// Room for the events of one wait, and those that the last wait brought.
pub struct Events {
    vec: Vec<Event>,
    num_events: usize,
}

impl Events {
    /// The events that the last wait brought, in order.
    pub closed spec fn ready(&self) -> Seq<Event> {
        self.vec@.take(self.num_events as int)
    }

    /// How many events there is room for.
    pub closed spec fn room(&self) -> nat {
        self.vec@.len()
    }

    /// No more events than there is room for.
    pub closed spec fn wf(&self) -> bool {
        self.num_events <= self.vec@.len()
    }

    /// Room for `capacity` events, and none reported.
    pub fn with_capacity(capacity: usize) -> (r: Events)
        ensures
            r.wf(),
            r.room() == capacity,
            r.ready() == Seq::<Event>::empty(),
    {
        let mut vec: Vec<Event> = Vec::new();
        while vec.len() < capacity
            invariant
                vec@.len() <= capacity,
            decreases capacity - vec@.len(),
        {
            vec.push(Event::default());
        }
        let r = Events { vec, num_events: 0 };
        assert(r.ready() =~= Seq::<Event>::empty());
        r
    }

    /// The number of events that the last wait brought.
    pub fn len(&self) -> (r: usize)
        requires
            self.wf(),
        ensures
            r == self.ready().len(),
    {
        self.num_events
    }

    /// How many events there is room for.
    pub fn capacity(&self) -> (r: usize)
        ensures
            r == self.room(),
    {
        self.vec.len()
    }

    /// Forgets the events.
    pub fn clear(&mut self)
        ensures
            final(self).wf(),
            final(self).room() == old(self).room(),
            final(self).ready() == Seq::<Event>::empty(),
    {
        self.num_events = 0;
        assert(self.ready() =~= Seq::<Event>::empty());
    }

    /// Takes in what a wait brought: as many of `reported` as there is
    /// room for, from the first.
    pub fn fill(&mut self, reported: &[Event])
        ensures
            final(self).wf(),
            final(self).room() == old(self).room(),
            final(self).ready() == reported@.take(
                if reported@.len() <= old(self).room() {
                    reported@.len() as int
                } else {
                    old(self).room() as int
                },
            ),
    {
        let n = if reported.len() <= self.vec.len() {
            reported.len()
        } else {
            self.vec.len()
        };
        let mut i: usize = 0;
        while i < n
            invariant
                i <= n,
                n <= reported@.len(),
                n <= self.vec@.len(),
                self.vec@.len() == old(self).vec@.len(),
                forall|k: int| 0 <= k < i ==> self.vec@[k] == reported@[k],
            decreases n - i,
        {
            self.vec[i] = reported[i];
            i += 1;
        }
        self.num_events = n;
        assert(self.ready() =~= reported@.take(n as int));
    }

    /// The events that the last wait brought, in order.
    pub fn iter(&self) -> (r: &[Event])
        requires
            self.wf(),
        ensures
            r@ == self.ready(),
    {
        let r = vstd::slice::slice_subrange(self.vec.as_slice(), 0, self.num_events);
        assert(r@ =~= self.ready());
        r
    }
}

} // verus!
