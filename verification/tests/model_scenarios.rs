use mymesi::model::SystemModel;
use mymesi::protocol::Status;
use rand::Rng;
use std::collections::HashMap;

/// Registering N workers yields dense identities 0..N-1.
#[test]
fn dense_worker_identities() {
    let mut m = SystemModel::new();
    assert_eq!(m.worker_count(), 0);
    let a = m.register();
    let b = m.register();
    let c = m.register();
    assert_eq!(a, 0);
    assert_eq!(b, 1);
    assert_eq!(c, 2);
    assert_eq!(m.worker_count(), 3);
}

/// Write then remote read: the reader sees the written value, both copies
/// end `Shared`, the directory lists both holders, and the flushed value
/// is durable in the store.
#[test]
fn write_then_remote_read() {
    let mut m = SystemModel::new();
    let w0 = m.register();
    let w1 = m.register();

    m.set(w0, "k".to_string(), "v2".to_string());
    let c0 = m.lookup(w0, &"k".to_string()).unwrap();
    assert!(matches!(c0.status, Status::Modified));

    let v = m.get(w1, "k".to_string());
    assert_eq!(v, "v2");

    let c0 = m.lookup(w0, &"k".to_string()).unwrap();
    let c1 = m.lookup(w1, &"k".to_string()).unwrap();
    assert!(matches!(c0.status, Status::Shared));
    assert!(matches!(c1.status, Status::Shared));
    assert_eq!(m.holders_of(&"k".to_string()), vec![0, 1]);
    assert_eq!(m.store_value(&"k".to_string()), "v2");
}

/// Write invalidates shared: after three workers share a key, a write by
/// one removes the entries of the other two and leaves the writer as the
/// sole, `Modified` holder.
#[test]
fn write_invalidates_shared() {
    let mut m = SystemModel::new();
    let w0 = m.register();
    let w1 = m.register();
    let w2 = m.register();

    m.set(w0, "k".to_string(), "x".to_string());
    assert_eq!(m.get(w0, "k".to_string()), "x");
    assert_eq!(m.get(w1, "k".to_string()), "x");
    assert_eq!(m.get(w2, "k".to_string()), "x");

    for w in [w0, w1, w2] {
        let c = m.lookup(w, &"k".to_string()).unwrap();
        assert!(matches!(c.status, Status::Shared));
    }

    m.set(w2, "k".to_string(), "y".to_string());
    assert!(m.lookup(w0, &"k".to_string()).is_none());
    assert!(m.lookup(w1, &"k".to_string()).is_none());
    let c2 = m.lookup(w2, &"k".to_string()).unwrap();
    assert!(matches!(c2.status, Status::Modified));
    assert_eq!(c2.value, "y");
    assert_eq!(m.holders_of(&"k".to_string()), vec![2]);
}

/// Read of an empty key: a fresh system returns the empty string, the
/// reader holds the key `Exclusive`, and the store stays untouched.
#[test]
fn read_of_empty_key() {
    let mut m = SystemModel::new();
    let w0 = m.register();

    let v = m.get(w0, "missing".to_string());
    assert_eq!(v, "");

    let c0 = m.lookup(w0, &"missing".to_string()).unwrap();
    assert!(matches!(c0.status, Status::Exclusive));
    assert!(!m.store_contains(&"missing".to_string()));
}

/// Read-your-writes and the round trip: a get immediately after a set
/// returns the written value, also with unrelated operations on other keys
/// in between.
#[test]
fn round_trip_with_unrelated_ops() {
    let mut m = SystemModel::new();
    let w0 = m.register();
    let w1 = m.register();

    m.set(w0, "k".to_string(), "a1".to_string());
    assert_eq!(m.get(w0, "k".to_string()), "a1");

    m.set(w0, "k".to_string(), "a2".to_string());
    m.set(w1, "other".to_string(), "zzz".to_string());
    assert_eq!(m.get(w1, "other".to_string()), "zzz");
    assert_eq!(m.get(w0, "k".to_string()), "a2");

    m.set(w1, "k".to_string(), "a3".to_string());
    m.set(w0, "other".to_string(), "yyy".to_string());
    assert_eq!(m.get(w0, "k".to_string()), "a3");
    assert_eq!(m.get(w1, "k".to_string()), "a3");
}

/// Check the four coherence invariants of the model through its public
/// observers, for every key of a run.
fn check_invariants(m: &SystemModel, keys: &[String]) {
    let n = m.worker_count();
    for key in keys {
        let mut holders: Vec<usize> = Vec::new();
        let mut exclusive_like = 0;
        for w in 0..n {
            if let Some(c) = m.lookup(w, key) {
                assert!(!matches!(c.status, Status::Invalid));
                if matches!(c.status, Status::Modified | Status::Exclusive) {
                    exclusive_like += 1;
                }
                holders.push(w);
            }
        }
        // exclusivity: one Modified/Exclusive holder means one holder at all
        assert!(exclusive_like <= 1);
        if exclusive_like == 1 {
            assert_eq!(holders.len(), 1);
        }
        // shared coherence: two or more holders are all Shared
        if holders.len() >= 2 {
            for w in &holders {
                let c = m.lookup(*w, key).unwrap();
                assert!(matches!(c.status, Status::Shared));
            }
        }
        // directory agreement
        let mut listed = m.holders_of(key);
        listed.sort();
        assert_eq!(listed, holders);
    }
}

/// Random coherence stress on the model: four workers, random reads and
/// writes over a small key space, the invariants checked after every
/// operation and every read checked against a reference map.
#[test]
fn model_coherence_stress() {
    let mut m = SystemModel::new();
    for _ in 0..4 {
        m.register();
    }
    let keys: Vec<String> = (0..8).map(|i| format!("k{}", i)).collect();
    let mut reference: HashMap<String, String> = HashMap::new();
    let mut rng = rand::thread_rng();

    for i in 0..4000 {
        let w = rng.gen_range(0..4);
        let key = keys[rng.gen_range(0..keys.len())].clone();
        if rng.gen_range(0..2) == 0 {
            let val = format!("v{}", i);
            m.set(w, key.clone(), val.clone());
            reference.insert(key, val);
        } else {
            let got = m.get(w, key.clone());
            let expected = reference.get(&key).cloned().unwrap_or_default();
            assert_eq!(got, expected);
        }
        check_invariants(&m, &keys);
    }
}
