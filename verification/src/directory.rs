//! The directory: the process-wide bookkeeper that registers workers,
//! tracks which workers hold each key, and mediates all coherence traffic.
//!
//! Every mutation of the directory happens under one writer lock whose
//! invariant ([`DirPred`]) is checked by the verifier at each release: a
//! holder list mentions each worker at most once, and mentions only
//! registered workers — so indexing the endpoint table is always in bounds.

use vstd::prelude::*;
use vstd::hash_map::StringHashMap;
use vstd::rwlock::{RwLock, RwLockPredicate};

use crate::db::DbSession;
use crate::protocol::Event;
use crate::thread_socket::{new_socket, ThreadSocket};

verus! {

/// A worker identity: a small, dense integer usable as an index.
pub type ThreadID = usize;

/// No worker appears twice in a holder list.
pub open spec fn distinct_ids(s: Seq<usize>) -> bool {
    forall|i: int, j: int| 0 <= i < j < s.len() ==> s[i] != s[j]
}

/// Every listed worker is a valid index into the endpoint table.
pub open spec fn ids_below(s: Seq<usize>, n: int) -> bool {
    forall|i: int| 0 <= i < s.len() ==> s[i] < n
}

/// The directory's guarded state: the holder list of each key, and the
/// directory-side channel endpoint of each registered worker.
pub struct DirState {
    pub map: StringHashMap<Vec<usize>>,
    pub sockets: Vec<ThreadSocket<Event>>,
}

/// The lock invariant of the directory state.
pub struct DirPred {}

impl RwLockPredicate<DirState> for DirPred {
    open spec fn inv(self, s: DirState) -> bool {
        forall|k: Seq<char>| #[trigger]
            s.map@.contains_key(k) ==> distinct_ids(s.map@[k]@) && ids_below(
                s.map@[k]@,
                s.sockets@.len() as int,
            )
    }
}

/// Copy a holder list out of the guarded state.
pub(crate) fn clone_ids(v: &Vec<usize>) -> (r: Vec<usize>)
    ensures
        r@ == v@,
{
    let mut r: Vec<usize> = Vec::new();
    let mut i: usize = 0;
    while i < v.len()
        invariant
            i <= v@.len(),
            r@.len() == i,
            forall|p: int| 0 <= p < i ==> r@[p] == v@[p],
        decreases v@.len() - i,
    {
        r.push(v[i]);
        i += 1;
    }
    proof {
        assert(r@ =~= v@);
    }
    r
}

/// Whether a holder list already mentions a worker.
fn contains_id(v: &Vec<usize>, x: usize) -> (r: bool)
    ensures
        r == v@.contains(x),
{
    let mut i: usize = 0;
    while i < v.len()
        invariant
            i <= v@.len(),
            forall|p: int| 0 <= p < i ==> v@[p] != x,
        decreases v@.len() - i,
    {
        if v[i] == x {
            proof {
                assert(v@.contains(x));
            }
            return true;
        }
        i += 1;
    }
    proof {
        assert(!v@.contains(x));
    }
    false
}

/// Drop one worker from a holder list, keeping every other entry.
fn remove_id(v: &mut Vec<usize>, x: usize)
    requires
        distinct_ids(old(v)@),
    ensures
        distinct_ids(final(v)@),
        forall|p: int| 0 <= p < final(v)@.len() ==> old(v)@.contains(#[trigger] final(v)@[p])
            && final(v)@[p] != x,
        forall|y: usize| old(v)@.contains(y) && y != x ==> final(v)@.contains(y),
{
    let mut i: usize = 0;
    while i < v.len()
        invariant
            i <= v@.len(),
            v@ == old(v)@,
            distinct_ids(v@),
            forall|p: int| 0 <= p < i ==> v@[p] != x,
        decreases v@.len() - i,
    {
        if v[i] == x {
            v.remove(i);
            proof {
                old(v)@.remove_ensures(i as int);
                assert forall|p: int| 0 <= p < v@.len() implies old(v)@.contains(#[trigger] v@[p])
                    && v@[p] != x by {
                    if p < i {
                        assert(v@[p] == old(v)@[p]);
                    } else {
                        assert(v@[p] == old(v)@[p + 1]);
                        assert(old(v)@[i as int] != old(v)@[p + 1]);
                    }
                };
                assert forall|p: int, q: int| 0 <= p < q < v@.len() implies v@[p] != v@[q] by {
                    if q < i {
                        assert(v@[p] == old(v)@[p] && v@[q] == old(v)@[q]);
                    } else if p < i {
                        assert(v@[p] == old(v)@[p] && v@[q] == old(v)@[q + 1]);
                    } else {
                        assert(v@[p] == old(v)@[p + 1] && v@[q] == old(v)@[q + 1]);
                    }
                };
                assert forall|y: usize| old(v)@.contains(y) && y != x implies v@.contains(
                    y,
                ) by {
                    let q = choose|q: int| 0 <= q < old(v)@.len() && old(v)@[q] == y;
                    if q < i {
                        assert(v@[q] == y);
                    } else {
                        assert(v@[q - 1] == y);
                    }
                };
            }
            return ;
        }
        i += 1;
    }
}

/// The directory.  Shared by every controller; internally synchronized.
pub struct Directory {
    state: RwLock<DirState, DirPred>,
    db: DbSession,
}

/// Send `event` to every listed holder other than `thread_id`, then collect
/// one acknowledgment from each, and return the holders whose acknowledgment
/// reported that their entry was invalidated.
///
/// All sends are issued before any receive, so the peer listeners process
/// the event in parallel.
fn broadcast(
    sockets: &Vec<ThreadSocket<Event>>,
    thread_id: ThreadID,
    event: &Event,
    ids: &Vec<usize>,
) -> (invalid_ids: Vec<usize>)
    requires
        ids_below(ids@, sockets@.len() as int),
    ensures
        forall|p: int| 0 <= p < invalid_ids@.len() ==> ids@.contains(#[trigger] invalid_ids@[p])
            && invalid_ids@[p] != thread_id,
{
    let mut i: usize = 0;
    while i < ids.len()
        invariant
            i <= ids@.len(),
            ids_below(ids@, sockets@.len() as int),
        decreases ids@.len() - i,
    {
        let h = ids[i];
        if h != thread_id {
            sockets[h].send(event.clone());
        }
        i += 1;
    }
    let mut invalid_ids: Vec<usize> = Vec::new();
    let mut i: usize = 0;
    while i < ids.len()
        invariant
            i <= ids@.len(),
            ids_below(ids@, sockets@.len() as int),
            forall|p: int| 0 <= p < invalid_ids@.len() ==> ids@.contains(
                #[trigger] invalid_ids@[p],
            ) && invalid_ids@[p] != thread_id,
        decreases ids@.len() - i,
    {
        let h = ids[i];
        if h != thread_id {
            let ack = sockets[h].receive();
            if matches!(ack, Event::Confirmed(b) if b) {
                proof {
                    assert(ids@.contains(h));
                }
                invalid_ids.push(h);
            }
        }
        i += 1;
    }
    invalid_ids
}

impl Directory {
    /// Open the store at `db_path` (clearing it) and start with no keys and
    /// no registered workers.
    pub fn new(db_path: &String) -> Directory {
        let map = StringHashMap::<Vec<usize>>::new();
        let sockets: Vec<ThreadSocket<Event>> = Vec::new();
        let db = DbSession::new(db_path);
        let state = RwLock::new(DirState { map, sockets }, Ghost(DirPred {}));
        Directory { state, db }
    }

    /// Assign the next dense worker identity, keep one endpoint of a fresh
    /// channel pair for it, and hand the other endpoint back to the worker.
    pub fn register(&self) -> (ThreadID, ThreadSocket<Event>) {
        let (s1, s2) = new_socket();
        let (mut st, handle) = self.state.acquire_write();
        st.sockets.push(s1);
        let id: ThreadID = st.sockets.len() - 1;
        handle.release_write(st);
        (id, s2)
    }

    /// Serve a read miss of `thread_id` on key `id`: downgrade every other
    /// holder with a `RemoteRead` broadcast, drop the holders whose entry
    /// turned out gone, record `thread_id` as a holder (at most once), and
    /// return the stored value together with the number of other holders.
    pub fn read(&self, thread_id: ThreadID, id: String) -> (res: (String, usize)) {
        let (mut st, handle) = self.state.acquire_write();
        let mut list: Vec<usize> = match st.map.get(id.as_str()) {
            Some(v) => clone_ids(v),
            None => Vec::new(),
        };
        if list.len() > 0 {
            let invalid_ids = broadcast(
                &st.sockets,
                thread_id,
                &Event::RemoteRead(id.clone()),
                &list,
            );
            let mut j: usize = 0;
            while j < invalid_ids.len()
                invariant
                    distinct_ids(list@),
                    ids_below(list@, st.sockets@.len() as int),
                decreases invalid_ids@.len() - j,
            {
                remove_id(&mut list, invalid_ids[j]);
                j += 1;
            }
        }
        // idempotent append: a worker already listed is not listed again,
        // and an identity the directory never issued is not tracked
        if thread_id < st.sockets.len() && !contains_id(&list, thread_id) {
            list.push(thread_id);
        }
        let n: usize = if list.len() > 0 {
            list.len() - 1
        } else {
            0
        };
        let value = self.db.get(id.clone());
        st.map.insert(id, list);
        handle.release_write(st);
        (value, n)
    }

    /// Flush a value to the store on behalf of a listener that is
    /// downgrading or evicting a `Modified` entry.  Touches no directory
    /// lock, so listeners may call it freely.
    pub fn write_back(&self, id: String, val: String) {
        self.db.set(id, val);
    }

    /// Serve a write of `thread_id` on key `id`: invalidate every other
    /// holder with a `RemoteWrite` broadcast, then make `thread_id` the only
    /// listed holder.
    pub fn write_to_cache(&self, thread_id: ThreadID, id: String) {
        let (mut st, handle) = self.state.acquire_write();
        match st.map.get(id.as_str()) {
            Some(v) => {
                if v.len() > 0 {
                    let list = clone_ids(v);
                    broadcast(&st.sockets, thread_id, &Event::RemoteWrite(id.clone()), &list);
                }
            },
            None => {},
        }
        let mut list: Vec<usize> = Vec::new();
        if thread_id < st.sockets.len() {
            list.push(thread_id);
        }
        st.map.insert(id, list);
        handle.release_write(st);
    }

    /// A snapshot of the holder list of `id`; a worker appears at most once.
    pub fn holders(&self, id: String) -> (r: Vec<usize>)
        ensures
            distinct_ids(r@),
    {
        let rh = self.state.acquire_read();
        let st = rh.borrow();
        let r = match st.map.get(id.as_str()) {
            Some(v) => clone_ids(v),
            None => Vec::new(),
        };
        rh.release_read();
        r
    }
}

} // verus!
