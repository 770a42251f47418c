//! The store adapter: single-key get/set over a durable key-value backend.
//!
//! The store is infrastructure: it is treated as infallible, it is cleared
//! when a session is opened, and a backend failure is fatal to the process.
//! Nothing about the bytes on disk can be promised here; the coherence
//! guarantees of the library are stated over its own state instead.

use vstd::prelude::*;

verus! {

#[verifier::external_type_specification]
#[verifier::external_body]
pub struct ExDb(sled::Db);

/// Relies on sled::open: opens (creating if missing) the database at `path`.
/// Aborts the process if the backend cannot be opened.
#[verifier::external_body]
fn open_backend(path: &String) -> sled::Db {
    sled::open(path).expect("open")
}

/// Relies on sled::Tree::clear: removes every key, so a session starts empty.
#[verifier::external_body]
fn clear_backend(db: &sled::Db) {
    db.clear().unwrap();
}

/// A handle on the durable store.
pub struct DbSession {
    db: sled::Db,
}

impl DbSession {
    /// Open the backend at `path` and clear it: every session starts empty.
    pub fn new(path: &String) -> DbSession {
        let db = open_backend(path);
        clear_backend(&db);
        DbSession { db }
    }

    /// Relies on sled::Tree::insert: associates `val` with `id`, replacing
    /// any previous value.
    #[verifier::external_body]
    pub fn set(&self, id: String, val: String) {
        self.db.insert(id, val.as_str()).unwrap();
    }

    /// Relies on sled::Tree::get: returns the value stored under `id`, or
    /// the empty string if the key is absent.  The store only ever holds
    /// values written by [`DbSession::set`], so they decode as UTF-8.
    #[verifier::external_body]
    pub fn get(&self, id: String) -> String {
        let res = self.db.get(id).unwrap();
        match res {
            None => String::new(),
            Some(val) => String::from_utf8(val.to_vec()).unwrap(),
        }
    }
}

} // verus!
