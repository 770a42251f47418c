//! The per-worker cache controller: client-facing `get`/`set` over a private
//! cache map, plus the background listener that serves coherence requests
//! from the directory.
//!
//! The cache map is guarded by a lock whose invariant ([`CachePred`]) the
//! verifier checks at every release: each key appears at most once, no
//! resident entry is `Invalid`, and the map never outgrows the high-water
//! mark — so memory stays bounded however the workload behaves.

use vstd::pervasive::VecAdditionalExecFns;
use vstd::prelude::*;
use vstd::rwlock::{RwLock, RwLockPredicate};

use crate::directory::{Directory, ThreadID};
use crate::protocol::{Cache, Event, Status};
use crate::thread_socket::ThreadSocket;
use crate::{CACHE_SIZE, FLUSH_SIZE};
use std::sync::Arc;

verus! {

/// The invariant of a worker's cache map: unique keys, no `Invalid`
/// resident, and never more entries than the high-water mark.
pub open spec fn cache_entries_ok(s: Seq<Cache>) -> bool {
    &&& forall|i: int, j: int| 0 <= i < j < s.len() ==> s[i].id@ != s[j].id@
    &&& forall|i: int| 0 <= i < s.len() ==> (#[trigger] s[i]).status != Status::Invalid
    &&& s.len() <= CACHE_SIZE
}

/// The lock invariant of a cache map.
pub struct CachePred {}

impl RwLockPredicate<Vec<Cache>> for CachePred {
    open spec fn inv(self, v: Vec<Cache>) -> bool {
        cache_entries_ok(v@)
    }
}

/// An operation counter bumped on every event, pinned at its maximum rather
/// than wrapping.
pub open spec fn spec_bump(n: u32) -> u32 {
    if n < u32::MAX {
        (n + 1) as u32
    } else {
        n
    }
}

fn bump(n: u32) -> (r: u32)
    ensures
        r == spec_bump(n),
{
    if n < u32::MAX {
        n + 1
    } else {
        n
    }
}

/// The position of the entry of `id`, if the map holds one.
pub(crate) fn find_entry(entries: &Vec<Cache>, id: &String) -> (r: Option<usize>)
    ensures
        match r {
            Some(i) => i < entries@.len() && entries@[i as int].id@ == id@,
            None => forall|p: int|
                0 <= p < entries@.len() ==> (#[trigger] entries@[p]).id@ != id@,
        },
{
    let mut i: usize = 0;
    while i < entries.len()
        invariant
            i <= entries@.len(),
            forall|p: int| 0 <= p < i ==> (#[trigger] entries@[p]).id@ != id@,
        decreases entries@.len() - i,
    {
        if entries[i].is(id) {
            return Some(i);
        }
        i += 1;
    }
    None
}

/// Removing one entry keeps a cache map well formed, even when that entry
/// was just turned `Invalid`.
proof fn lemma_remove_keeps_ok(s: Seq<Cache>, i: int)
    requires
        0 <= i < s.len(),
        s.len() <= CACHE_SIZE,
        forall|p: int, q: int| 0 <= p < q < s.len() ==> s[p].id@ != s[q].id@,
        forall|p: int| 0 <= p < s.len() && p != i ==> (#[trigger] s[p]).status != Status::Invalid,
    ensures
        cache_entries_ok(s.remove(i)),
{
    s.remove_ensures(i);
    let r = s.remove(i);
    assert forall|p: int, q: int| 0 <= p < q < r.len() implies r[p].id@ != r[q].id@ by {
        if q < i {
            assert(r[p] == s[p] && r[q] == s[q]);
        } else if p < i {
            assert(r[p] == s[p] && r[q] == s[q + 1]);
        } else {
            assert(r[p] == s[p + 1] && r[q] == s[q + 1]);
        }
    };
    assert forall|p: int| 0 <= p < r.len() implies (#[trigger] r[p]).status != Status::Invalid by {
        if p < i {
            assert(r[p] == s[p]);
        } else {
            assert(r[p] == s[p + 1]);
        }
    };
}

/// Drop the oldest eviction batch from a full cache map, flushing each
/// `Modified` value to the store first so no write is lost.
fn evict_batch(entries: &mut Vec<Cache>, dir: &Directory)
    requires
        cache_entries_ok(old(entries)@),
        old(entries)@.len() >= FLUSH_SIZE,
    ensures
        final(entries)@ == old(entries)@.skip(FLUSH_SIZE as int),
        cache_entries_ok(final(entries)@),
{
    let mut j: usize = 0;
    while j < FLUSH_SIZE
        invariant
            j <= FLUSH_SIZE,
            old(entries)@.len() >= FLUSH_SIZE,
            cache_entries_ok(old(entries)@),
            entries@ == old(entries)@.skip(j as int),
        decreases FLUSH_SIZE - j,
    {
        if entries[0].status == Status::Modified {
            dir.write_back(entries[0].id.clone(), entries[0].value.clone());
        }
        entries.remove(0);
        proof {
            assert(old(entries)@.skip(j as int).remove(0) =~= old(entries)@.skip(j + 1));
        }
        j += 1;
    }
}

/// Insert or update the entry of `id`.  A full map first evicts its oldest
/// batch, so the high-water mark is respected.  Returns whether an entry of
/// `id` was already resident.
fn upsert(
    entries: &mut Vec<Cache>,
    id: String,
    value: String,
    status: Status,
    dir: &Directory,
) -> (was_present: bool)
    requires
        cache_entries_ok(old(entries)@),
        status != Status::Invalid,
    ensures
        cache_entries_ok(final(entries)@),
        exists|i: int|
            0 <= i < final(entries)@.len() && (#[trigger] final(entries)@[i]).id@ == id@
                && final(entries)@[i].value@ == value@ && final(entries)@[i].status == status,
        was_present == (exists|i: int|
            0 <= i < old(entries)@.len() && (#[trigger] old(entries)@[i]).id@ == id@),
{
    match find_entry(entries, &id) {
        Some(i) => {
            proof {
                assert((old(entries)@[i as int]).id@ == id@);
            }
            entries.set(i, Cache::new(id, value, status));
            proof {
                assert((final(entries)@[i as int]).id@ == old(entries)@[i as int].id@);
            }
            true
        },
        None => {
            if entries.len() >= CACHE_SIZE {
                evict_batch(entries, dir);
            }
            entries.push(Cache::new(id, value, status));
            proof {
                let n = final(entries)@.len() - 1;
                assert((final(entries)@[n]).id@ == id@);
            }
            false
        },
    }
}

/// Relies on async_std::task::spawn_blocking: runs the listener loop on a
/// dedicated thread of the blocking pool, detached for the lifetime of the
/// process.
#[verifier::external_body]
fn spawn_listener(listener: Listener) {
    let _ = async_std::task::spawn_blocking(move || listener.run());
}

/// The state a worker's listener thread owns: its endpoint of the channel
/// to the directory, a handle on the worker's cache map, and a handle on
/// the directory (used only to flush values to the store).
pub struct Listener {
    pub thread_id: ThreadID,
    pub socket: ThreadSocket<Event>,
    pub caches: Arc<RwLock<Vec<Cache>, CachePred>>,
    pub directory: Arc<Directory>,
}

impl Listener {
    /// Receive one coherence event and serve it: flush a `Modified` value
    /// to the store, apply the state transition, evict the entry if it
    /// turned `Invalid`, acknowledge, and trim a full cache map.
    fn serve_one(&self) {
        let event = self.socket.receive();
        if matches!(&event, Event::Confirmed(_)) {
            // protocol violation: only remote events address a listener;
            // such a message is dropped
            return ;
        }
        let id = event.get_id().clone();
        let (mut entries, wh) = self.caches.acquire_write();
        let mut is_invalid = false;
        match find_entry(&entries, &id) {
            None => {
                is_invalid = true;
            },
            Some(i) => {
                if entries[i].status == Status::Modified {
                    self.directory.write_back(entries[i].id.clone(), entries[i].value.clone());
                }
                let c = &mut entries[i];
                is_invalid = c.handle(&event);
                if is_invalid {
                    proof {
                        lemma_remove_keeps_ok(entries@, i as int);
                    }
                    entries.remove(i);
                }
            },
        }
        self.socket.send(Event::Confirmed(is_invalid));
        if entries.len() >= CACHE_SIZE {
            evict_batch(&mut entries, &self.directory);
        }
        wh.release_write(entries);
    }

    /// Serve coherence events until the hosting process exits.  The loop
    /// carries a fuel counter only to state a decrease measure; no real run
    /// comes near exhausting it.
    pub fn run(self) {
        let mut fuel: u64 = u64::MAX;
        while 0 < fuel
            decreases fuel,
        {
            fuel = fuel - 1;
            self.serve_one();
        }
    }
}

/// The client-facing controller of one worker's cache.
pub struct CacheController {
    pub caches: Arc<RwLock<Vec<Cache>, CachePred>>,
    pub directory: Arc<Directory>,
    pub thread_id: ThreadID,
    pub op_cnt: u32,
    pub in_cache_cnt: u32,
}

impl CacheController {
    /// Register with the directory, start this worker's listener thread,
    /// and hand back a controller with fresh counters and an empty cache.
    pub fn new(directory: Arc<Directory>) -> (c: CacheController)
        ensures
            c.op_cnt == 0,
            c.in_cache_cnt == 0,
    {
        let (thread_id, socket) = directory.register();
        let caches: Arc<RwLock<Vec<Cache>, CachePred>> = Arc::new(
            RwLock::new(Vec::new(), Ghost(CachePred {  })),
        );
        let listener = Listener {
            thread_id,
            socket,
            caches: caches.clone(),
            directory: directory.clone(),
        };
        spawn_listener(listener);
        CacheController { caches, directory, thread_id, op_cnt: 0, in_cache_cnt: 0 }
    }

    /// Read `id`: from the local cache on a hit (an entry in the map is
    /// never `Invalid`, by the lock invariant), otherwise through the
    /// directory, caching the value as `Exclusive` when no other worker
    /// holds it and as `Shared` otherwise.
    pub fn get(&mut self, id: String) -> (value: String)
        ensures
            final(self).thread_id == old(self).thread_id,
            final(self).op_cnt == spec_bump(old(self).op_cnt),
            final(self).in_cache_cnt == old(self).in_cache_cnt || final(self).in_cache_cnt
                == spec_bump(old(self).in_cache_cnt),
    {
        self.op_cnt = bump(self.op_cnt);
        let rh = self.caches.acquire_read();
        let found = find_entry(rh.borrow(), &id);
        match found {
            Some(i) => {
                let v = rh.borrow()[i].get();
                rh.release_read();
                self.in_cache_cnt = bump(self.in_cache_cnt);
                return v;
            },
            None => {},
        }
        rh.release_read();
        let (v, n) = self.directory.read(self.thread_id, id.clone());
        let status = if n > 0 {
            Status::Shared
        } else {
            Status::Exclusive
        };
        let (mut entries, wh) = self.caches.acquire_write();
        upsert(&mut entries, id, v.clone(), status, &self.directory);
        wh.release_write(entries);
        v
    }

    /// Write `id`: the directory invalidates every other holder, then the
    /// local entry becomes the sole, `Modified` copy.
    pub fn set(&mut self, id: String, val: String)
        ensures
            final(self).thread_id == old(self).thread_id,
            final(self).op_cnt == spec_bump(old(self).op_cnt),
            final(self).in_cache_cnt == old(self).in_cache_cnt || final(self).in_cache_cnt
                == spec_bump(old(self).in_cache_cnt),
    {
        self.op_cnt = bump(self.op_cnt);
        self.directory.write_to_cache(self.thread_id, id.clone());
        let (mut entries, wh) = self.caches.acquire_write();
        let was_present = upsert(&mut entries, id, val, Status::Modified, &self.directory);
        wh.release_write(entries);
        if was_present {
            self.in_cache_cnt = bump(self.in_cache_cnt);
        }
    }

    /// The observability counters: cache hits and total operations.
    pub fn collect(&self) -> (r: (u32, u32))
        ensures
            r.0 == self.in_cache_cnt,
            r.1 == self.op_cnt,
    {
        (self.in_cache_cnt, self.op_cnt)
    }

    /// A snapshot of this worker's cache map, in residence order: unique
    /// keys, no `Invalid` entry, never more than the high-water mark.
    pub fn collect_caches(&self) -> (snapshot: Vec<Cache>)
        ensures
            cache_entries_ok(snapshot@),
    {
        let rh = self.caches.acquire_read();
        let entries = rh.borrow();
        let mut out: Vec<Cache> = Vec::new();
        let mut i: usize = 0;
        while i < entries.len()
            invariant
                i <= entries@.len(),
                out@.len() == i,
                forall|p: int| 0 <= p < i ==> out@[p] == entries@[p],
            decreases entries@.len() - i,
        {
            out.push(Cache::new(entries[i].id.clone(), entries[i].value.clone(), entries[i].status));
            i += 1;
        }
        proof {
            assert(out@ =~= entries@);
        }
        rh.release_read();
        out
    }
}

} // verus!
