use mymesi::controller::CacheController;
use mymesi::directory::Directory;
use mymesi::protocol::{Cache, Status};
use std::sync::Arc;

fn status_of(snapshot: &[Cache], key: &str) -> Option<Status> {
    snapshot.iter().find(|c| c.id == key).map(|c| c.status)
}

/// Write then remote read, on the threaded engine: the reader sees the
/// written value, both copies end `Shared`, the directory lists both
/// holders, and the flushed value reaches the store.
#[test]
fn engine_write_then_remote_read() {
    let directory = Arc::new(Directory::new(&"/tmp/mymesi/db_wr".to_string()));
    let mut w0 = CacheController::new(directory.clone());
    let mut w1 = CacheController::new(directory.clone());
    assert_eq!(w0.thread_id, 0);
    assert_eq!(w1.thread_id, 1);

    w0.set("k".to_string(), "v2".to_string());
    assert_eq!(
        status_of(&w0.collect_caches(), "k"),
        Some(Status::Modified)
    );

    let val = w1.get("k".to_string());
    assert_eq!(val, "v2");

    assert_eq!(status_of(&w0.collect_caches(), "k"), Some(Status::Shared));
    assert_eq!(status_of(&w1.collect_caches(), "k"), Some(Status::Shared));

    let mut holders = directory.holders("k".to_string());
    holders.sort();
    assert_eq!(holders, vec![0, 1]);
}

/// Write invalidates shared, on the threaded engine.
#[test]
fn engine_write_invalidates_shared() {
    let directory = Arc::new(Directory::new(&"/tmp/mymesi/db_wi".to_string()));
    let mut w0 = CacheController::new(directory.clone());
    let mut w1 = CacheController::new(directory.clone());
    let mut w2 = CacheController::new(directory.clone());

    w0.set("k".to_string(), "x".to_string());
    assert_eq!(w0.get("k".to_string()), "x");
    assert_eq!(w1.get("k".to_string()), "x");
    assert_eq!(w2.get("k".to_string()), "x");

    assert_eq!(status_of(&w0.collect_caches(), "k"), Some(Status::Shared));
    assert_eq!(status_of(&w1.collect_caches(), "k"), Some(Status::Shared));
    assert_eq!(status_of(&w2.collect_caches(), "k"), Some(Status::Shared));

    w2.set("k".to_string(), "y".to_string());
    assert_eq!(status_of(&w0.collect_caches(), "k"), None);
    assert_eq!(status_of(&w1.collect_caches(), "k"), None);
    assert_eq!(
        status_of(&w2.collect_caches(), "k"),
        Some(Status::Modified)
    );
    assert_eq!(directory.holders("k".to_string()), vec![2]);
}

/// Read of an empty key, on the threaded engine: the empty string comes
/// back and the lone reader holds the key `Exclusive`.
#[test]
fn engine_read_of_empty_key() {
    let directory = Arc::new(Directory::new(&"/tmp/mymesi/db_empty".to_string()));
    let mut w0 = CacheController::new(directory.clone());

    assert_eq!(w0.get("missing".to_string()), "");
    assert_eq!(
        status_of(&w0.collect_caches(), "missing"),
        Some(Status::Exclusive)
    );
}

/// Eviction under load: one worker writes 2000 distinct keys; the cache
/// map never outgrows the high-water mark plus the eviction batch, and
/// every value remains fetchable with its original content.
#[test]
fn engine_eviction_under_load() {
    let directory = Arc::new(Directory::new(&"/tmp/mymesi/db_evict".to_string()));
    let mut w0 = CacheController::new(directory.clone());

    for i in 0..2000 {
        w0.set(format!("k{}", i), i.to_string());
        if i % 100 == 0 {
            assert!(w0.collect_caches().len() <= 1024 + 128);
        }
    }
    assert!(w0.collect_caches().len() <= 1024 + 128);

    for i in 0..2000 {
        assert_eq!(w0.get(format!("k{}", i)), i.to_string());
        if i % 100 == 0 {
            assert!(w0.collect_caches().len() <= 1024 + 128);
        }
    }
}

/// A stale directory entry repairs itself: after eviction dropped a key
/// from a worker's cache, the next read by a peer learns from the
/// acknowledgment that the holder is gone, removes it from the holder
/// list, and takes the key `Exclusive`.
#[test]
fn engine_stale_holder_repair() {
    let directory = Arc::new(Directory::new(&"/tmp/mymesi/db_stale".to_string()));
    let mut w0 = CacheController::new(directory.clone());
    let mut w1 = CacheController::new(directory.clone());

    for i in 0..2000 {
        w0.set(format!("k{}", i), i.to_string());
    }
    // the cache is bounded, so the oldest keys were evicted (and flushed)
    assert!(w0.collect_caches().len() <= 1024);
    assert_eq!(status_of(&w0.collect_caches(), "k0"), None);
    // yet the directory still lists the worker as a holder of them
    assert_eq!(directory.holders("k0".to_string()), vec![0]);

    // the next read repairs the list: the stale holder acknowledges that
    // its entry is gone, and the reader becomes the sole, Exclusive holder
    assert_eq!(w1.get("k0".to_string()), "0");
    assert_eq!(status_of(&w1.collect_caches(), "k0"), Some(Status::Exclusive));
    assert_eq!(directory.holders("k0".to_string()), vec![1]);
}

/// The observability counters: total operations and cache hits.
#[test]
fn engine_collect_counters() {
    let directory = Arc::new(Directory::new(&"/tmp/mymesi/db_cnt".to_string()));
    let mut w0 = CacheController::new(directory.clone());

    assert_eq!(w0.collect(), (0, 0));
    w0.set("k".to_string(), "v".to_string());
    // first write: no prior entry, so no hit
    assert_eq!(w0.collect(), (0, 1));
    let _ = w0.get("k".to_string());
    // served locally: one hit
    assert_eq!(w0.collect(), (1, 2));
    w0.set("k".to_string(), "v2".to_string());
    // the entry existed: counted as a hit
    assert_eq!(w0.collect(), (2, 3));
}

/// Coherence stress on the threaded engine: four controllers driven from
/// one thread over a small key space; after every operation completes, the
/// caches collectively satisfy the coherence invariants.
#[test]
fn engine_coherence_invariants() {
    let directory = Arc::new(Directory::new(&"/tmp/mymesi/db_stress".to_string()));
    let n = 4;
    let mut controllers: Vec<CacheController> = Vec::new();
    for _ in 0..n {
        controllers.push(CacheController::new(directory.clone()));
    }
    let keys: Vec<String> = (0..6).map(|i| format!("k{}", i)).collect();

    let mut seed: u64 = 0x853c49e6748fea9b;
    let mut next = || {
        seed = seed.wrapping_mul(6364136223846793005).wrapping_add(1442695040888963407);
        (seed >> 33) as usize
    };

    for round in 0..3000 {
        let w = next() % n;
        let key = keys[next() % keys.len()].clone();
        if next() % 2 == 0 {
            controllers[w].set(key, round.to_string());
        } else {
            let _ = controllers[w].get(key);
        }
    }

    for key in &keys {
        let mut holders: Vec<usize> = Vec::new();
        let mut exclusive_like = 0;
        let mut statuses: Vec<Status> = Vec::new();
        for (w, ct) in controllers.iter().enumerate() {
            if let Some(s) = status_of(&ct.collect_caches(), key) {
                assert!(!matches!(s, Status::Invalid));
                if matches!(s, Status::Modified | Status::Exclusive) {
                    exclusive_like += 1;
                }
                statuses.push(s);
                holders.push(w);
            }
        }
        assert!(exclusive_like <= 1);
        if exclusive_like == 1 {
            assert_eq!(holders.len(), 1);
        }
        if holders.len() >= 2 {
            for s in &statuses {
                assert!(matches!(s, Status::Shared));
            }
        }
        let mut listed = directory.holders(key.clone());
        listed.sort();
        assert_eq!(listed, holders);
    }
}
