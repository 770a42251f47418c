//! The MESI vocabulary: entry states, coherence events, and the cache entry
//! with its state-transition rule.

use vstd::prelude::*;

verus! {

/// The four MESI states of a cached entry.
///
/// An entry present in a cache map is never `Invalid`: an entry that turns
/// `Invalid` is removed from the map instead of being retained.
#[derive(Clone, Copy, PartialEq, Eq, Structural, Debug)]
pub enum Status {
    Modified,
    Exclusive,
    Shared,
    Invalid,
}

/// A coherence message.
///
/// The directory sends `RemoteRead`/`RemoteWrite` to peer holders of a key;
/// each peer's listener answers with `Confirmed(invalidated)`.
#[derive(Clone, Debug)]
pub enum Event {
    RemoteRead(String),
    RemoteWrite(String),
    Confirmed(bool),
}

impl Event {
    /// The key an event is about; meaningful only for the two remote events.
    pub open spec fn spec_key(self) -> Seq<char> {
        match self {
            Event::RemoteRead(id) => id@,
            Event::RemoteWrite(id) => id@,
            Event::Confirmed(_) => Seq::<char>::empty(),
        }
    }

    pub open spec fn is_confirmed(self) -> bool {
        self is Confirmed
    }

    pub open spec fn is_read(self) -> bool {
        self is RemoteRead
    }

    /// The key a remote event carries.  An acknowledgment carries none, and
    /// asking for one is a protocol violation.
    pub fn get_id(&self) -> (id: &String)
        requires
            !self.is_confirmed(),
        ensures
            id@ == self.spec_key(),
    {
        match self {
            Event::RemoteRead(id) => id,
            Event::RemoteWrite(id) => id,
            Event::Confirmed(_) => unreached(),
        }
    }
}

/// One cached entry: a key, its value, and its MESI status.
#[derive(Clone, Debug)]
pub struct Cache {
    pub id: String,
    pub value: String,
    pub status: Status,
}

impl Cache {
    pub fn new(id: String, value: String, status: Status) -> (c: Cache)
        ensures
            c.id == id,
            c.value == value,
            c.status == status,
    {
        Cache { id, value, status }
    }

    /// Whether this entry is about the given key.
    pub fn is(&self, id: &String) -> (r: bool)
        ensures
            r == (id@ == self.id@),
    {
        *id == self.id
    }

    pub fn get(&self) -> (value: String)
        ensures
            value@ == self.value@,
    {
        self.value.clone()
    }

    pub fn set(&mut self, val: String)
        ensures
            final(self).id == old(self).id,
            final(self).value == val,
            final(self).status == old(self).status,
    {
        self.value = val;
    }

    /// Apply a remote event to this entry and report whether the entry must
    /// be evicted from its cache map.
    ///
    /// A remote read downgrades the entry to `Shared`; a remote write turns
    /// it `Invalid`, which evicts it.  An entry that already was `Invalid`
    /// reports eviction without further transition.  Flushing a `Modified`
    /// value to the store is the caller's duty, before calling this.
    pub fn handle(&mut self, event: &Event) -> (evict: bool)
        requires
            !event.is_confirmed(),
        ensures
            final(self).id == old(self).id,
            final(self).value == old(self).value,
            evict == (old(self).status == Status::Invalid || !event.is_read()),
            final(self).status == (if old(self).status == Status::Invalid {
                Status::Invalid
            } else if event.is_read() {
                Status::Shared
            } else {
                Status::Invalid
            }),
    {
        if self.status == Status::Invalid {
            return true;
        }
        match event {
            Event::RemoteRead(_) => {
                self.status = Status::Shared;
                false
            },
            Event::RemoteWrite(_) => {
                self.status = Status::Invalid;
                true
            },
            Event::Confirmed(_) => unreached(),
        }
    }
}

} // verus!
