//! A sequential model of the whole system: every worker's cache map, the
//! directory's holder lists, and the store, held in one value and driven
//! one client operation at a time.
//!
//! The model performs exactly the protocol steps of the concurrent engine —
//! remote-read downgrades, remote-write invalidations, write-back of
//! `Modified` values, holder-list maintenance, status selection by sharer
//! count — through the same [`Cache::handle`] transition rule.  On this
//! value the verifier proves the coherence guarantees: exclusivity, shared
//! coherence, absence of `Invalid` residents, directory agreement, and that
//! every read observes the most recently written value.

use vstd::pervasive::VecAdditionalExecFns;
use vstd::prelude::*;
use vstd::hash_map::StringHashMap;

use crate::controller::find_entry;
use crate::directory::{clone_ids, distinct_ids, ids_below};
use crate::protocol::{Cache, Event, Status};

verus! {

/// Whether a cache map holds an entry for `k`.
pub open spec fn has_key(s: Seq<Cache>, k: Seq<char>) -> bool {
    exists|i: int| 0 <= i < s.len() && (#[trigger] s[i]).id@ == k
}

/// The position of the entry of `k`; meaningful when the keys of `s` are
/// distinct and `has_key(s, k)` holds.
pub open spec fn key_index(s: Seq<Cache>, k: Seq<char>) -> int {
    choose|i: int| 0 <= i < s.len() && (#[trigger] s[i]).id@ == k
}

/// The entry of `k`; meaningful under the same conditions as [`key_index`].
pub open spec fn entry_of(s: Seq<Cache>, k: Seq<char>) -> Cache {
    s[key_index(s, k)]
}

/// A well-formed cache map: each key at most once, no `Invalid` resident.
pub open spec fn row_ok(s: Seq<Cache>) -> bool {
    &&& forall|i: int, j: int| 0 <= i < j < s.len() ==> s[i].id@ != s[j].id@
    &&& forall|i: int| 0 <= i < s.len() ==> (#[trigger] s[i]).status != Status::Invalid
}

/// In a map with distinct keys, an entry of `k` at position `i` is the
/// entry of `k`.
proof fn lemma_key_at(s: Seq<Cache>, k: Seq<char>, i: int)
    requires
        forall|p: int, q: int| 0 <= p < q < s.len() ==> s[p].id@ != s[q].id@,
        0 <= i < s.len(),
        s[i].id@ == k,
    ensures
        has_key(s, k),
        key_index(s, k) == i,
        entry_of(s, k) == s[i],
{
    assert(has_key(s, k));
    let j = key_index(s, k);
    assert(0 <= j < s.len() && s[j].id@ == k);
    if i != j {
        assert(s[i].id@ != s[j].id@);
    }
}

/// Updating position `i` with an entry of the same key changes only the
/// entry of that key.
proof fn lemma_update_entry(s: Seq<Cache>, i: int, c: Cache, k2: Seq<char>)
    requires
        row_ok(s),
        0 <= i < s.len(),
        c.id@ == s[i].id@,
        c.status != Status::Invalid,
    ensures
        row_ok(s.update(i, c)),
        has_key(s.update(i, c), k2) == has_key(s, k2),
        has_key(s, k2) ==> entry_of(s.update(i, c), k2) == (if k2 == s[i].id@ {
            c
        } else {
            entry_of(s, k2)
        }),
{
    let b = s.update(i, c);
    assert forall|p: int, q: int| 0 <= p < q < b.len() implies b[p].id@ != b[q].id@ by {
        assert(s[p].id@ != s[q].id@);
    };
    if has_key(s, k2) {
        let j = key_index(s, k2);
        assert(b[j].id@ == k2);
        lemma_key_at(b, k2, j);
        if k2 == s[i].id@ {
            lemma_key_at(s, s[i].id@, i);
        }
    }
    if has_key(b, k2) {
        let j = key_index(b, k2);
        assert(s[j].id@ == k2);
        assert(has_key(s, k2));
    }
}

/// Removing position `i` removes exactly the entry of its key.
proof fn lemma_remove_entry(s: Seq<Cache>, i: int, k2: Seq<char>)
    requires
        0 <= i < s.len(),
        forall|p: int, q: int| 0 <= p < q < s.len() ==> s[p].id@ != s[q].id@,
    ensures
        has_key(s.remove(i), k2) == (has_key(s, k2) && k2 != s[i].id@),
        has_key(s, k2) && k2 != s[i].id@ ==> entry_of(s.remove(i), k2) == entry_of(s, k2),
        forall|p: int, q: int| 0 <= p < q < s.remove(i).len() ==> s.remove(i)[p].id@ != s.remove(
            i,
        )[q].id@,
        forall|p: int|
            0 <= p < s.remove(i).len() ==> ((#[trigger] s.remove(i)[p]) == s[p] || s.remove(i)[p]
                == s[p + 1]),
{
    s.remove_ensures(i);
    let b = s.remove(i);
    assert forall|p: int| 0 <= p < b.len() implies ((#[trigger] b[p]) == s[p] || b[p] == s[p
        + 1]) by {
        if p < i {
            assert(b[p] == s[p]);
        } else {
            assert(b[p] == s[p + 1]);
        }
    };
    assert forall|p: int, q: int| 0 <= p < q < b.len() implies b[p].id@ != b[q].id@ by {
        if q < i {
            assert(b[p] == s[p] && b[q] == s[q]);
        } else if p < i {
            assert(b[p] == s[p] && b[q] == s[q + 1]);
        } else {
            assert(b[p] == s[p + 1] && b[q] == s[q + 1]);
        }
    };
    if has_key(s, k2) && k2 != s[i].id@ {
        let j = key_index(s, k2);
        assert(s[j].id@ == k2);
        assert(j != i);
        if j < i {
            assert(b[j] == s[j]);
            lemma_key_at(b, k2, j);
        } else {
            assert(b[j - 1] == s[j]);
            lemma_key_at(b, k2, j - 1);
        }
        lemma_key_at(s, k2, j);
    }
    if has_key(b, k2) {
        let p = key_index(b, k2);
        assert(0 <= p < b.len() && b[p].id@ == k2);
        if p < i {
            assert(s[p].id@ == k2);
            assert(has_key(s, k2));
            assert(k2 != s[i].id@) by {
                if i < p {
                    assert(s[i].id@ != s[p].id@);
                } else if p < i {
                    assert(s[p].id@ != s[i].id@);
                }
            };
        } else {
            assert(s[p + 1].id@ == k2);
            assert(has_key(s, k2));
            assert(s[i].id@ != s[p + 1].id@);
        }
    }
}

/// Appending an entry with a fresh key adds exactly that entry.
proof fn lemma_push_entry(s: Seq<Cache>, c: Cache, k2: Seq<char>)
    requires
        forall|p: int, q: int| 0 <= p < q < s.len() ==> s[p].id@ != s[q].id@,
        !has_key(s, c.id@),
    ensures
        forall|p: int, q: int|
            0 <= p < q < s.push(c).len() ==> s.push(c)[p].id@ != s.push(c)[q].id@,
        has_key(s.push(c), k2) == (has_key(s, k2) || k2 == c.id@),
        k2 == c.id@ ==> entry_of(s.push(c), k2) == c,
        has_key(s, k2) && k2 != c.id@ ==> entry_of(s.push(c), k2) == entry_of(s, k2),
{
    let b = s.push(c);
    assert forall|p: int, q: int| 0 <= p < q < b.len() implies b[p].id@ != b[q].id@ by {
        if q == s.len() {
            assert(b[p] == s[p]);
            assert(b[q] == c);
            if s[p].id@ == c.id@ {
                assert(has_key(s, c.id@));
            }
        } else {
            assert(b[p] == s[p] && b[q] == s[q]);
        }
    };
    if k2 == c.id@ {
        assert(b[s.len() as int] == c);
        assert(has_key(b, k2));
        let j = key_index(b, k2);
        assert(0 <= j < b.len() && b[j].id@ == k2);
        if j != s.len() {
            assert(b[j] == s[j]);
            assert(has_key(s, c.id@));
        }
    } else {
        if has_key(s, k2) {
            let j = key_index(s, k2);
            assert(b[j].id@ == k2);
            assert(has_key(b, k2));
            let j2 = key_index(b, k2);
            if j2 == s.len() {
                assert(b[j2] == c);
            } else {
                assert(b[j2] == s[j2]);
                lemma_key_at_nodup(s, k2, j, j2);
            }
        }
        if has_key(b, k2) {
            let j = key_index(b, k2);
            if j == s.len() {
                assert(b[j] == c);
            } else {
                assert(s[j].id@ == k2);
                assert(has_key(s, k2));
            }
        }
    }
}

/// Two positions carrying the same key are the same position.
proof fn lemma_key_at_nodup(s: Seq<Cache>, k: Seq<char>, i: int, j: int)
    requires
        forall|p: int, q: int| 0 <= p < q < s.len() ==> s[p].id@ != s[q].id@,
        0 <= i < s.len(),
        0 <= j < s.len(),
        s[i].id@ == k,
        s[j].id@ == k,
    ensures
        i == j,
        key_index(s, k) == i,
        entry_of(s, k) == s[i],
        has_key(s, k),
{
    if i < j {
        assert(s[i].id@ != s[j].id@);
    } else if j < i {
        assert(s[j].id@ != s[i].id@);
    }
    assert(has_key(s, k));
    let p = key_index(s, k);
    assert(0 <= p < s.len() && s[p].id@ == k);
    if p < i {
        assert(s[p].id@ != s[i].id@);
    } else if i < p {
        assert(s[i].id@ != s[p].id@);
    }
}

/// Apply one remote event to the entry at position `j` of a worker's cache
/// map, flushing a `Modified` value to the store first, and removing the
/// entry when the transition invalidates it — the same flush-then-handle
/// rule the listener thread follows.
fn serve_remote(
    row: &mut Vec<Cache>,
    store: &mut StringHashMap<String>,
    j: usize,
    event: &Event,
) -> (evict: bool)
    requires
        !event.is_confirmed(),
        j < old(row)@.len(),
        old(row)@[j as int].status != Status::Invalid,
    ensures
        evict == !event.is_read(),
        old(row)@[j as int].status == Status::Modified ==> final(store)@ == old(store)@.insert(
            old(row)@[j as int].id@,
            old(row)@[j as int].value,
        ),
        old(row)@[j as int].status != Status::Modified ==> final(store)@ == old(store)@,
        event.is_read() ==> final(row)@ == old(row)@.update(
            j as int,
            (Cache {
                id: old(row)@[j as int].id,
                value: old(row)@[j as int].value,
                status: Status::Shared,
            }),
        ),
        !event.is_read() ==> final(row)@ == old(row)@.remove(j as int),
{
    if row[j].status == Status::Modified {
        store.insert(row[j].id.clone(), row[j].value.clone());
    }
    let mut c = Cache::new(row[j].id.clone(), row[j].value.clone(), row[j].status);
    let evict = c.handle(event);
    if evict {
        row.remove(j);
    } else {
        row.set(j, c);
    }
    evict
}

/// A `Modified` holder's copy is the key's current value.
proof fn lemma_cur_modified(s: SystemModel, x: int, k: Seq<char>)
    requires
        s.inv_excl(),
        s.holds(x, k),
        s.status_of(x, k) == Status::Modified,
    ensures
        s.cur(k) == s.value_of(x, k),
{
    assert(exists|w: int| #[trigger] s.holds(w, k) && s.status_of(w, k) == Status::Modified);
    let w = choose|w: int| #[trigger] s.holds(w, k) && s.status_of(w, k) == Status::Modified;
    if w != x {
        assert(s.status_of(x, k) == Status::Shared);
    }
}

/// With no `Modified` holder, the key's current value is the store's line.
proof fn lemma_cur_clean(s: SystemModel, k: Seq<char>)
    requires
        forall|x: int| #[trigger] s.holds(x, k) ==> s.status_of(x, k) != Status::Modified,
    ensures
        s.cur(k) == s.store_line(k),
{
}

/// The effect of one remote-read downgrade of worker `h`'s entry of `k`:
/// every invariant is preserved, no key's current value changes, and `h`
/// now holds `k` as `Shared`.
proof fn lemma_read_step(pre: SystemModel, post: SystemModel, h: int, j: int, k: Seq<char>)
    requires
        pre.inv_rows(),
        pre.inv_excl(),
        pre.inv_dir(),
        pre.inv_clean(),
        0 <= h < pre.n(),
        0 <= j < pre.row(h).len(),
        pre.row(h)[j].id@ == k,
        post.n() == pre.n(),
        post.dir@ == pre.dir@,
        forall|x: int| 0 <= x < pre.n() && x != h ==> #[trigger] post.row(x) == pre.row(x),
        post.row(h) == pre.row(h).update(
            j,
            (Cache {
                id: pre.row(h)[j].id,
                value: pre.row(h)[j].value,
                status: Status::Shared,
            }),
        ),
        pre.row(h)[j].status == Status::Modified ==> post.store@ == pre.store@.insert(
            k,
            pre.row(h)[j].value,
        ),
        pre.row(h)[j].status != Status::Modified ==> post.store@ == pre.store@,
    ensures
        post.inv_rows(),
        post.inv_excl(),
        post.inv_dir(),
        post.inv_clean(),
        forall|x: int, k2: Seq<char>| #[trigger] post.holds(x, k2) == pre.holds(x, k2),
        forall|x: int, k2: Seq<char>|
            k2 != k && #[trigger] pre.holds(x, k2) ==> post.status_of(x, k2) == pre.status_of(
                x,
                k2,
            ) && post.value_of(x, k2) == pre.value_of(x, k2),
        forall|x: int| #[trigger] pre.holds(x, k) ==> post.value_of(x, k) == pre.value_of(x, k),
        post.holds(h, k),
        post.status_of(h, k) == Status::Shared,
        forall|x: int|
            x != h && #[trigger] pre.holds(x, k) ==> post.status_of(x, k) == pre.status_of(x, k),
        forall|k2: Seq<char>| k2 != k ==> #[trigger] post.store_line(k2) == pre.store_line(k2),
        forall|k2: Seq<char>|
            k2 != k ==> #[trigger] post.store@.contains_key(k2) == pre.store@.contains_key(k2),
        forall|k2: Seq<char>| #[trigger] post.cur(k2) == pre.cur(k2),
{
    let c2 = Cache { id: pre.row(h)[j].id, value: pre.row(h)[j].value, status: Status::Shared };
    assert(row_ok(pre.row(h)));
    lemma_key_at(pre.row(h), k, j);
    lemma_update_entry(pre.row(h), j, c2, k);
    assert forall|x: int, k2: Seq<char>| #[trigger] post.holds(x, k2) == pre.holds(x, k2) by {
        if 0 <= x < pre.n() {
            if x == h {
                lemma_update_entry(pre.row(h), j, c2, k2);
            } else {
                assert(post.row(x) == pre.row(x));
            }
        }
    };
    assert forall|x: int| 0 <= x < post.n() implies row_ok(#[trigger] post.row(x)) by {
        if x == h {
            lemma_update_entry(pre.row(h), j, c2, k);
            assert forall|p: int| 0 <= p < post.row(h).len() implies (#[trigger] post.row(h)[p])
                .status != Status::Invalid by {
                if p != j {
                    assert(post.row(h)[p] == pre.row(h)[p]);
                }
            };
        } else {
            assert(post.row(x) == pre.row(x));
        }
    };
    assert forall|x: int, k2: Seq<char>|
        k2 != k && #[trigger] pre.holds(x, k2) implies post.status_of(x, k2) == pre.status_of(
        x,
        k2,
    ) && post.value_of(x, k2) == pre.value_of(x, k2) by {
        if x == h {
            lemma_update_entry(pre.row(h), j, c2, k2);
        } else {
            assert(post.row(x) == pre.row(x));
        }
    };
    assert forall|x: int| #[trigger]
        pre.holds(x, k) implies post.value_of(x, k) == pre.value_of(x, k) by {
        if x == h {
            lemma_update_entry(pre.row(h), j, c2, k);
        } else {
            assert(post.row(x) == pre.row(x));
        }
    };
    assert(post.holds(h, k) && post.status_of(h, k) == Status::Shared) by {
        lemma_update_entry(pre.row(h), j, c2, k);
    };
    assert forall|x: int|
        x != h && #[trigger] pre.holds(x, k) implies post.status_of(x, k) == pre.status_of(
        x,
        k,
    ) by {
        assert(post.row(x) == pre.row(x));
    };
    assert(post.inv_excl()) by {
        assert forall|k2: Seq<char>, w1: int, w2: int|
            w1 != w2 && #[trigger] post.holds(w1, k2) && #[trigger] post.holds(
                w2,
                k2,
            ) implies post.status_of(w1, k2) == Status::Shared && post.status_of(w2, k2)
            == Status::Shared by {
            assert(pre.holds(w1, k2) && pre.holds(w2, k2));
            assert(pre.status_of(w1, k2) == Status::Shared && pre.status_of(w2, k2)
                == Status::Shared);
            if k2 == k {
                if w1 != h {
                    assert(post.status_of(w1, k2) == pre.status_of(w1, k2));
                }
                if w2 != h {
                    assert(post.status_of(w2, k2) == pre.status_of(w2, k2));
                }
            }
        };
    };
    assert(post.inv_dir()) by {
        assert(forall|k2: Seq<char>| #[trigger] post.dir_list(k2) == pre.dir_list(k2));
    };
    let flushed = pre.row(h)[j].status == Status::Modified;
    if flushed {
        assert forall|x: int| x != h implies !(#[trigger] pre.holds(x, k)) by {
            if pre.holds(x, k) {
                assert(pre.status_of(h, k) == Status::Shared);
            }
        };
        assert(post.store_line(k) == pre.row(h)[j].value@);
        lemma_cur_modified(pre, h, k);
        assert(pre.cur(k) == pre.value_of(h, k));
        assert(pre.value_of(h, k) == pre.row(h)[j].value@);
    }
    assert(post.inv_clean()) by {
        assert forall|k2: Seq<char>, x: int|
            #[trigger] post.holds(x, k2) && post.status_of(x, k2)
                != Status::Modified implies post.value_of(x, k2) == post.store_line(k2) by {
            if k2 == k {
                if x == h {
                    if flushed {
                    } else {
                        assert(pre.status_of(h, k) != Status::Modified);
                        assert(pre.value_of(h, k) == pre.store_line(k));
                        assert(post.store_line(k) == pre.store_line(k));
                    }
                } else {
                    assert(pre.holds(x, k) && pre.holds(h, k));
                    assert(pre.status_of(x, k) == Status::Shared);
                    if flushed {
                        assert(false);
                    } else {
                        assert(post.store_line(k) == pre.store_line(k));
                    }
                }
            } else {
                assert(pre.holds(x, k2));
                if post.status_of(x, k2) != Status::Modified {
                    assert(pre.status_of(x, k2) == post.status_of(x, k2));
                }
            }
        };
    };
    assert forall|x: int| #[trigger]
        post.holds(x, k) implies post.status_of(x, k) != Status::Modified by {
        if x == h {
        } else {
            assert(pre.holds(x, k) && pre.holds(h, k));
            assert(pre.status_of(x, k) == Status::Shared);
            assert(post.status_of(x, k) == pre.status_of(x, k));
        }
    };
    assert forall|k2: Seq<char>| #[trigger] post.cur(k2) == pre.cur(k2) by {
        if k2 == k {
            lemma_cur_clean(post, k);
            if flushed {
                assert(post.cur(k) == pre.cur(k));
            } else {
                assert forall|x: int| #[trigger]
                    pre.holds(x, k) implies pre.status_of(x, k) != Status::Modified by {
                    if x != h {
                        assert(pre.status_of(x, k) == Status::Shared);
                    } else {
                        assert(!flushed);
                    }
                };
                lemma_cur_clean(pre, k);
                assert(post.store_line(k) == pre.store_line(k));
            }
        } else {
            post.lemma_same_cur(pre, k2);
        }
    };
}

/// The last phase of a read miss: worker `w` joins the holder list and
/// caches the store's line; every invariant holds again and no key's
/// current value changed against the state before the operation.
proof fn lemma_read_finish(
    mid: SystemModel,
    post: SystemModel,
    orig: SystemModel,
    w: int,
    k: Seq<char>,
    v: Seq<char>,
    status: Status,
    c: Cache,
    l: Vec<usize>,
)
    requires
        mid.inv_rows(),
        mid.inv_excl(),
        mid.inv_dir(),
        mid.inv_clean(),
        0 <= w < mid.n(),
        !mid.holds(w, k),
        forall|x: int| #[trigger] mid.holds(x, k) ==> mid.status_of(x, k) == Status::Shared,
        post.n() == mid.n(),
        forall|x: int| 0 <= x < mid.n() && x != w ==> #[trigger] post.row(x) == mid.row(x),
        post.row(w) == mid.row(w).push(c),
        c.id@ == k,
        c.value@ == v,
        c.status == status,
        status == Status::Shared || status == Status::Exclusive,
        status == Status::Exclusive ==> mid.dir_list(k).len() == 0,
        post.dir@ == mid.dir@.insert(k, l),
        l@ == mid.dir_list(k).push(w as usize),
        post.store@ == mid.store@,
        v == mid.store_line(k),
        mid.dir@ == orig.dir@,
        !orig.holds(w, k),
        orig.inv_dir(),
        forall|x: int, k2: Seq<char>| #[trigger] mid.holds(x, k2) == orig.holds(x, k2),
        forall|x: int, k2: Seq<char>|
            k2 != k && #[trigger] orig.holds(x, k2) ==> mid.status_of(x, k2) == orig.status_of(
                x,
                k2,
            ) && mid.value_of(x, k2) == orig.value_of(x, k2),
        forall|k2: Seq<char>| k2 != k ==> #[trigger] mid.store_line(k2) == orig.store_line(k2),
        forall|k2: Seq<char>|
            k2 != k ==> #[trigger] mid.store@.contains_key(k2) == orig.store@.contains_key(k2),
        forall|k2: Seq<char>| #[trigger] mid.cur(k2) == orig.cur(k2),
    ensures
        post.inv_rows(),
        post.inv_excl(),
        post.inv_dir(),
        post.inv_clean(),
        post.holds(w, k),
        post.status_of(w, k) == status,
        v == orig.cur(k),
        forall|k2: Seq<char>| #[trigger] post.cur(k2) == orig.cur(k2),
        post.dir_list(k) == orig.dir_list(k).push(w as usize),
        forall|x: int|
            x != w && #[trigger] orig.holds(x, k) ==> post.holds(x, k) && post.status_of(x, k)
                == Status::Shared,
        forall|x: int, k2: Seq<char>|
            k2 != k ==> #[trigger] post.holds(x, k2) == orig.holds(x, k2),
        forall|x: int, k2: Seq<char>|
            k2 != k && #[trigger] orig.holds(x, k2) ==> post.status_of(x, k2) == orig.status_of(
                x,
                k2,
            ) && post.value_of(x, k2) == orig.value_of(x, k2),
        forall|k2: Seq<char>|
            k2 != k ==> #[trigger] post.dir_list(k2) == orig.dir_list(k2),
        forall|k2: Seq<char>| k2 != k ==> #[trigger] post.store_line(k2) == orig.store_line(k2),
        forall|k2: Seq<char>|
            k2 != k ==> #[trigger] post.store@.contains_key(k2) == orig.store@.contains_key(k2),
{
    assert(mid.workers.len() == mid.workers@.len());
    assert(post.workers.len() == post.workers@.len());
    assert(row_ok(mid.row(w)));
    lemma_push_entry(mid.row(w), c, k);
    assert(post.holds(w, k) && post.status_of(w, k) == status && post.value_of(w, k) == v);
    assert forall|x: int, k2: Seq<char>| #[trigger]
        post.holds(x, k2) == (mid.holds(x, k2) || (x == w && k2 == k)) by {
        if 0 <= x < mid.n() {
            if x == w {
                lemma_push_entry(mid.row(w), c, k2);
            } else {
                assert(post.row(x) == mid.row(x));
            }
        }
    };
    assert forall|x: int, k2: Seq<char>|
        #[trigger] mid.holds(x, k2) implies post.status_of(x, k2) == mid.status_of(x, k2)
        && post.value_of(x, k2) == mid.value_of(x, k2) by {
        if x == w {
            lemma_push_entry(mid.row(w), c, k2);
            assert(k2 != c.id@);
        } else {
            assert(post.row(x) == mid.row(x));
        }
    };
    assert forall|x: int| 0 <= x < post.n() implies row_ok(#[trigger] post.row(x)) by {
        if x == w {
            lemma_push_entry(mid.row(w), c, k);
            assert forall|p: int| 0 <= p < post.row(w).len() implies (#[trigger] post.row(w)[p])
                .status != Status::Invalid by {
                if p < mid.row(w).len() {
                    assert(post.row(w)[p] == mid.row(w)[p]);
                } else {
                    assert(post.row(w)[p] == c);
                }
            };
        } else {
            assert(post.row(x) == mid.row(x));
        }
    };
    assert(post.inv_excl()) by {
        assert forall|k2: Seq<char>, w1: int, w2: int|
            w1 != w2 && #[trigger] post.holds(w1, k2) && #[trigger] post.holds(
                w2,
                k2,
            ) implies post.status_of(w1, k2) == Status::Shared && post.status_of(w2, k2)
            == Status::Shared by {
            if k2 == k {
                if w1 == w || w2 == w {
                    let other = if w1 == w {
                        w2
                    } else {
                        w1
                    };
                    assert(mid.holds(other, k));
                    assert(mid.dir_list(k).contains(other as usize));
                    if status == Status::Exclusive {
                        assert(false);
                    }
                    assert(mid.status_of(other, k) == Status::Shared);
                } else {
                    assert(mid.holds(w1, k2) && mid.holds(w2, k2));
                }
            } else {
                assert(mid.holds(w1, k2) && mid.holds(w2, k2));
            }
        };
    };
    assert(post.inv_dir()) by {
        assert forall|k2: Seq<char>|
            distinct_ids(#[trigger] post.dir_list(k2)) && ids_below(
                post.dir_list(k2),
                post.n(),
            ) by {
            if k2 == k {
                assert(post.dir_list(k) == mid.dir_list(k).push(w as usize));
                assert forall|p: int, q: int|
                    0 <= p < q < post.dir_list(k).len() implies post.dir_list(k)[p]
                    != post.dir_list(k)[q] by {
                    if q == mid.dir_list(k).len() {
                        if mid.dir_list(k)[p] == (w as usize) {
                            assert(mid.dir_list(k).contains(w as usize));
                            assert(mid.holds(w, k));
                        }
                    } else {
                        assert(post.dir_list(k)[p] == mid.dir_list(k)[p]);
                        assert(post.dir_list(k)[q] == mid.dir_list(k)[q]);
                        assert(distinct_ids(mid.dir_list(k)));
                    }
                };
                assert forall|p2: int|
                    0 <= p2 < post.dir_list(k).len() implies post.dir_list(k)[p2]
                    < post.n() by {
                    assert(ids_below(mid.dir_list(k), mid.n()));
                    if p2 < mid.dir_list(k).len() {
                        assert(post.dir_list(k)[p2] == mid.dir_list(k)[p2]);
                    } else {
                        assert(post.dir_list(k)[p2] == (w as usize));
                    }
                };
            } else {
                assert(post.dir_list(k2) == mid.dir_list(k2));
            }
        };
        assert forall|k2: Seq<char>, x: int|
            #[trigger] post.dir_list(k2).contains(x as usize) && 0 <= x
                < post.n() implies post.holds(x, k2) by {
            if k2 == k {
                assert(post.dir_list(k) == mid.dir_list(k).push(w as usize));
                let p = choose|p: int|
                    0 <= p < post.dir_list(k).len() && post.dir_list(k)[p] == (x as usize);
                if p < mid.dir_list(k).len() {
                    assert(post.dir_list(k)[p] == mid.dir_list(k)[p]);
                    assert(mid.dir_list(k).contains(x as usize));
                    assert(mid.holds(x, k));
                } else {
                    assert(post.dir_list(k)[p] == (w as usize));
                }
            } else {
                assert(mid.dir_list(k2).contains(x as usize));
                assert(mid.holds(x, k2));
            }
        };
        assert forall|k2: Seq<char>, x: int| #[trigger]
            post.holds(x, k2) implies post.dir_list(k2).contains(x as usize) by {
            if k2 == k && x == w {
                assert(post.dir_list(k) == mid.dir_list(k).push(w as usize));
                assert(post.dir_list(k)[post.dir_list(k).len() - 1] == (w as usize));
            } else {
                assert(mid.holds(x, k2));
                assert(mid.dir_list(k2).contains(x as usize));
                if k2 == k {
                    assert(post.dir_list(k) == mid.dir_list(k).push(w as usize));
                    let p = choose|p: int|
                        0 <= p < mid.dir_list(k).len() && mid.dir_list(k)[p] == (x as usize);
                    assert(post.dir_list(k)[p] == (x as usize));
                } else {
                    assert(post.dir_list(k2) == mid.dir_list(k2));
                }
            }
        };
    };
    assert(post.inv_clean()) by {
        assert forall|k2: Seq<char>, x: int|
            #[trigger] post.holds(x, k2) && post.status_of(x, k2)
                != Status::Modified implies post.value_of(x, k2) == post.store_line(k2) by {
            if x == w && k2 == k {
                assert(post.store_line(k) == mid.store_line(k));
            } else {
                assert(mid.holds(x, k2));
            }
        };
    };
    assert forall|k2: Seq<char>| #[trigger] post.cur(k2) == orig.cur(k2) by {
        if k2 == k {
            assert forall|x: int| #[trigger]
                post.holds(x, k) implies post.status_of(x, k) != Status::Modified by {
                if x != w {
                    assert(mid.holds(x, k));
                    assert(mid.status_of(x, k) == Status::Shared);
                }
            };
            lemma_cur_clean(post, k);
            assert forall|x: int| #[trigger]
                mid.holds(x, k) implies mid.status_of(x, k) != Status::Modified by {};
            lemma_cur_clean(mid, k);
            assert(post.store_line(k) == mid.store_line(k));
        } else {
            post.lemma_same_cur(mid, k2);
        }
    };
    assert(v == orig.cur(k)) by {
        assert forall|x: int| #[trigger]
            mid.holds(x, k) implies mid.status_of(x, k) != Status::Modified by {};
        lemma_cur_clean(mid, k);
    };
    assert forall|x: int|
        x != w && #[trigger] orig.holds(x, k) implies post.holds(x, k) && post.status_of(
        x,
        k,
    ) == Status::Shared by {
        assert(mid.holds(x, k));
        assert(mid.status_of(x, k) == Status::Shared);
    };
    assert forall|x: int, k2: Seq<char>| k2 != k implies #[trigger] post.holds(x, k2)
        == orig.holds(x, k2) by {
        assert(mid.holds(x, k2) == orig.holds(x, k2));
    };
    assert forall|x: int, k2: Seq<char>|
        k2 != k && #[trigger] orig.holds(x, k2) implies post.status_of(x, k2)
        == orig.status_of(x, k2) && post.value_of(x, k2) == orig.value_of(x, k2) by {
        assert(mid.holds(x, k2));
    };
    assert forall|k2: Seq<char>| k2 != k implies #[trigger] post.dir_list(k2)
        == orig.dir_list(k2) by {
        assert(post.dir_list(k2) == mid.dir_list(k2));
        assert(mid.dir_list(k2) == orig.dir_list(k2));
    };
    assert(post.dir_list(k) == orig.dir_list(k).push(w as usize)) by {
        assert(mid.dir_list(k) == orig.dir_list(k));
    };
    assert forall|k2: Seq<char>|
        k2 != k implies #[trigger] post.store_line(k2) == orig.store_line(k2)
        && post.store@.contains_key(k2) == orig.store@.contains_key(k2) by {
        assert(post.store@ == mid.store@);
        assert(post.store_line(k2) == mid.store_line(k2));
        assert(mid.store_line(k2) == orig.store_line(k2));
        assert(mid.store@.contains_key(k2) == orig.store@.contains_key(k2));
        assert(post.store@.contains_key(k2) == orig.store@.contains_key(k2));
    };
}

/// The effect of one remote-write invalidation of worker `h`'s entry of
/// `k`: the entry leaves `h`'s cache (after a flush if it was `Modified`),
/// every other entry is untouched, and no key's current value changes.
proof fn lemma_write_step(pre: SystemModel, post: SystemModel, h: int, j: int, k: Seq<char>)
    requires
        pre.inv_rows(),
        pre.inv_excl(),
        pre.inv_clean(),
        0 <= h < pre.n(),
        0 <= j < pre.row(h).len(),
        pre.row(h)[j].id@ == k,
        post.n() == pre.n(),
        post.dir@ == pre.dir@,
        forall|x: int| 0 <= x < pre.n() && x != h ==> #[trigger] post.row(x) == pre.row(x),
        post.row(h) == pre.row(h).remove(j),
        pre.row(h)[j].status == Status::Modified ==> post.store@ == pre.store@.insert(
            k,
            pre.row(h)[j].value,
        ),
        pre.row(h)[j].status != Status::Modified ==> post.store@ == pre.store@,
    ensures
        post.inv_rows(),
        post.inv_excl(),
        post.inv_clean(),
        forall|x: int, k2: Seq<char>| #[trigger]
            post.holds(x, k2) == (pre.holds(x, k2) && !(x == h && k2 == k)),
        forall|x: int, k2: Seq<char>|
            k2 != k && #[trigger] pre.holds(x, k2) ==> post.status_of(x, k2) == pre.status_of(
                x,
                k2,
            ) && post.value_of(x, k2) == pre.value_of(x, k2),
        forall|x: int|
            x != h && #[trigger] pre.holds(x, k) ==> post.status_of(x, k) == pre.status_of(
                x,
                k,
            ) && post.value_of(x, k) == pre.value_of(x, k),
        forall|k2: Seq<char>| k2 != k ==> #[trigger] post.store_line(k2) == pre.store_line(k2),
        forall|k2: Seq<char>|
            k2 != k ==> #[trigger] post.store@.contains_key(k2) == pre.store@.contains_key(k2),
        forall|k2: Seq<char>| #[trigger] post.cur(k2) == pre.cur(k2),
{
    assert(row_ok(pre.row(h)));
    lemma_key_at(pre.row(h), k, j);
    assert forall|x: int, k2: Seq<char>| #[trigger]
        post.holds(x, k2) == (pre.holds(x, k2) && !(x == h && k2 == k)) by {
        if 0 <= x < pre.n() {
            if x == h {
                lemma_remove_entry(pre.row(h), j, k2);
            } else {
                assert(post.row(x) == pre.row(x));
            }
        }
    };
    assert forall|x: int| 0 <= x < post.n() implies row_ok(#[trigger] post.row(x)) by {
        if x == h {
            lemma_remove_entry(pre.row(h), j, k);
            assert forall|p: int| 0 <= p < post.row(h).len() implies (#[trigger] post.row(h)[p])
                .status != Status::Invalid by {
                assert(post.row(h)[p] == pre.row(h)[p] || post.row(h)[p] == pre.row(h)[p + 1]);
            };
        } else {
            assert(post.row(x) == pre.row(x));
        }
    };
    assert forall|x: int, k2: Seq<char>|
        k2 != k && #[trigger] pre.holds(x, k2) implies post.status_of(x, k2) == pre.status_of(
        x,
        k2,
    ) && post.value_of(x, k2) == pre.value_of(x, k2) by {
        if x == h {
            lemma_remove_entry(pre.row(h), j, k2);
        } else {
            assert(post.row(x) == pre.row(x));
        }
    };
    assert forall|x: int|
        x != h && #[trigger] pre.holds(x, k) implies post.status_of(x, k) == pre.status_of(
        x,
        k,
    ) && post.value_of(x, k) == pre.value_of(x, k) by {
        assert(post.row(x) == pre.row(x));
    };
    assert(post.inv_excl()) by {
        assert forall|k2: Seq<char>, w1: int, w2: int|
            w1 != w2 && #[trigger] post.holds(w1, k2) && #[trigger] post.holds(
                w2,
                k2,
            ) implies post.status_of(w1, k2) == Status::Shared && post.status_of(w2, k2)
            == Status::Shared by {
            assert(pre.holds(w1, k2) && pre.holds(w2, k2));
        };
    };
    let flushed = pre.row(h)[j].status == Status::Modified;
    assert(pre.holds(h, k));
    if flushed {
        assert forall|x: int| x != h implies !(#[trigger] pre.holds(x, k)) by {
            if pre.holds(x, k) {
                assert(pre.holds(h, k));
                assert(pre.status_of(h, k) == Status::Shared);
            }
        };
        assert(post.store_line(k) == pre.row(h)[j].value@);
        lemma_cur_modified(pre, h, k);
    }
    assert(post.inv_clean()) by {
        assert forall|k2: Seq<char>, x: int|
            #[trigger] post.holds(x, k2) && post.status_of(x, k2)
                != Status::Modified implies post.value_of(x, k2) == post.store_line(k2) by {
            assert(pre.holds(x, k2));
            if k2 == k {
                assert(x != h);
                if flushed {
                    assert(false);
                } else {
                    assert(post.store_line(k) == pre.store_line(k));
                    assert(post.status_of(x, k) == pre.status_of(x, k));
                }
            } else {
                if post.status_of(x, k2) != Status::Modified {
                    assert(post.status_of(x, k2) == pre.status_of(x, k2));
                }
            }
        };
    };
    assert forall|k2: Seq<char>| #[trigger] post.cur(k2) == pre.cur(k2) by {
        if k2 == k {
            assert forall|x: int| #[trigger]
                post.holds(x, k) implies post.status_of(x, k) != Status::Modified by {
                assert(x != h && pre.holds(x, k));
                assert(pre.holds(h, k));
                assert(pre.status_of(x, k) == Status::Shared);
            };
            lemma_cur_clean(post, k);
            if flushed {
                assert(post.cur(k) == pre.cur(k));
            } else {
                assert forall|x: int| #[trigger]
                    pre.holds(x, k) implies pre.status_of(x, k) != Status::Modified by {
                    if x != h {
                        assert(pre.holds(h, k));
                        assert(pre.status_of(x, k) == Status::Shared);
                    } else {
                        assert(!flushed);
                    }
                };
                lemma_cur_clean(pre, k);
                assert(post.store_line(k) == pre.store_line(k));
            }
        } else {
            post.lemma_same_cur(pre, k2);
        }
    };
}

/// The last phase of a write: worker `w` becomes the sole holder of `k`,
/// `Modified` with the new value; the key's current value becomes that
/// value, and every other key keeps its current value.
proof fn lemma_write_finish(
    mid: SystemModel,
    post: SystemModel,
    orig: SystemModel,
    w: int,
    k: Seq<char>,
    v: Seq<char>,
    c: Cache,
    l: Vec<usize>,
)
    requires
        mid.inv_rows(),
        mid.inv_excl(),
        mid.inv_clean(),
        0 <= w < mid.n(),
        forall|x: int| x != w ==> !(#[trigger] mid.holds(x, k)),
        post.n() == mid.n(),
        forall|x: int| 0 <= x < mid.n() && x != w ==> #[trigger] post.row(x) == mid.row(x),
        c.id@ == k,
        c.value@ == v,
        c.status == Status::Modified,
        mid.holds(w, k) ==> post.row(w) == mid.row(w).update(key_index(mid.row(w), k), c),
        !mid.holds(w, k) ==> post.row(w) == mid.row(w).push(c),
        post.dir@ == mid.dir@.insert(k, l),
        l@ == Seq::<usize>::empty().push(w as usize),
        post.store@ == mid.store@,
        mid.dir@ == orig.dir@,
        orig.inv_dir(),
        orig.n() == mid.n(),
        forall|x: int, k2: Seq<char>|
            k2 != k ==> #[trigger] mid.holds(x, k2) == orig.holds(x, k2),
        forall|x: int, k2: Seq<char>|
            k2 != k && #[trigger] orig.holds(x, k2) ==> mid.status_of(x, k2) == orig.status_of(
                x,
                k2,
            ) && mid.value_of(x, k2) == orig.value_of(x, k2),
        forall|k2: Seq<char>| k2 != k ==> #[trigger] mid.store_line(k2) == orig.store_line(k2),
        forall|k2: Seq<char>|
            k2 != k ==> #[trigger] mid.store@.contains_key(k2) == orig.store@.contains_key(k2),
        forall|k2: Seq<char>| #[trigger] mid.cur(k2) == orig.cur(k2),
    ensures
        post.inv_rows(),
        post.inv_excl(),
        post.inv_dir(),
        post.inv_clean(),
        post.holds(w, k),
        post.status_of(w, k) == Status::Modified,
        post.value_of(w, k) == v,
        post.cur(k) == v,
        forall|x: int| x != w ==> !(#[trigger] post.holds(x, k)),
        post.dir_list(k) == Seq::<usize>::empty().push(w as usize),
        forall|k2: Seq<char>| k2 != k ==> #[trigger] post.cur(k2) == orig.cur(k2),
        forall|x: int, k2: Seq<char>|
            k2 != k ==> #[trigger] post.holds(x, k2) == orig.holds(x, k2),
        forall|x: int, k2: Seq<char>|
            k2 != k && #[trigger] orig.holds(x, k2) ==> post.status_of(x, k2) == orig.status_of(
                x,
                k2,
            ) && post.value_of(x, k2) == orig.value_of(x, k2),
        forall|k2: Seq<char>| k2 != k ==> #[trigger] post.dir_list(k2) == orig.dir_list(k2),
        forall|k2: Seq<char>| k2 != k ==> #[trigger] post.store_line(k2) == orig.store_line(k2),
        forall|k2: Seq<char>|
            k2 != k ==> #[trigger] post.store@.contains_key(k2) == orig.store@.contains_key(k2),
{
    assert(mid.workers.len() == mid.workers@.len());
    assert(row_ok(mid.row(w)));
    if mid.holds(w, k) {
        let j = key_index(mid.row(w), k);
        assert(0 <= j < mid.row(w).len() && mid.row(w)[j].id@ == k);
        assert forall|x: int, k2: Seq<char>| #[trigger]
            post.holds(x, k2) == (mid.holds(x, k2) || (x == w && k2 == k)) by {
            if 0 <= x < mid.n() {
                if x == w {
                    lemma_update_entry(mid.row(w), j, c, k2);
                } else {
                    assert(post.row(x) == mid.row(x));
                }
            }
        };
        assert forall|x: int, k2: Seq<char>|
            #[trigger] mid.holds(x, k2) && !(x == w && k2 == k) implies post.status_of(x, k2)
            == mid.status_of(x, k2) && post.value_of(x, k2) == mid.value_of(x, k2) by {
            if x == w {
                lemma_update_entry(mid.row(w), j, c, k2);
            } else {
                assert(post.row(x) == mid.row(x));
            }
        };
        assert(post.holds(w, k) && post.status_of(w, k) == Status::Modified && post.value_of(
            w,
            k,
        ) == v) by {
            lemma_update_entry(mid.row(w), j, c, k);
        };
        assert forall|x: int| 0 <= x < post.n() implies row_ok(#[trigger] post.row(x)) by {
            if x == w {
                lemma_update_entry(mid.row(w), j, c, k);
                assert forall|p: int|
                    0 <= p < post.row(w).len() implies (#[trigger] post.row(w)[p]).status
                    != Status::Invalid by {
                    if p != j {
                        assert(post.row(w)[p] == mid.row(w)[p]);
                    }
                };
            } else {
                assert(post.row(x) == mid.row(x));
            }
        };
    } else {
        assert forall|x: int, k2: Seq<char>| #[trigger]
            post.holds(x, k2) == (mid.holds(x, k2) || (x == w && k2 == k)) by {
            if 0 <= x < mid.n() {
                if x == w {
                    lemma_push_entry(mid.row(w), c, k2);
                } else {
                    assert(post.row(x) == mid.row(x));
                }
            }
        };
        assert forall|x: int, k2: Seq<char>|
            #[trigger] mid.holds(x, k2) && !(x == w && k2 == k) implies post.status_of(x, k2)
            == mid.status_of(x, k2) && post.value_of(x, k2) == mid.value_of(x, k2) by {
            if x == w {
                lemma_push_entry(mid.row(w), c, k2);
                assert(k2 != c.id@);
            } else {
                assert(post.row(x) == mid.row(x));
            }
        };
        assert(post.holds(w, k) && post.status_of(w, k) == Status::Modified && post.value_of(
            w,
            k,
        ) == v) by {
            lemma_push_entry(mid.row(w), c, k);
        };
        assert forall|x: int| 0 <= x < post.n() implies row_ok(#[trigger] post.row(x)) by {
            if x == w {
                lemma_push_entry(mid.row(w), c, k);
                assert forall|p: int|
                    0 <= p < post.row(w).len() implies (#[trigger] post.row(w)[p]).status
                    != Status::Invalid by {
                    if p < mid.row(w).len() {
                        assert(post.row(w)[p] == mid.row(w)[p]);
                    } else {
                        assert(post.row(w)[p] == c);
                    }
                };
            } else {
                assert(post.row(x) == mid.row(x));
            }
        };
    }
    assert forall|x: int| x != w implies !(#[trigger] post.holds(x, k)) by {
        assert(post.holds(x, k) == (mid.holds(x, k) || (x == w && k == k)));
    };
    assert(post.inv_excl()) by {
        assert forall|k2: Seq<char>, w1: int, w2: int|
            w1 != w2 && #[trigger] post.holds(w1, k2) && #[trigger] post.holds(
                w2,
                k2,
            ) implies post.status_of(w1, k2) == Status::Shared && post.status_of(w2, k2)
            == Status::Shared by {
            if k2 == k {
                assert(w1 == w && w2 == w);
            } else {
                assert(mid.holds(w1, k2) && mid.holds(w2, k2));
            }
        };
    };
    assert(post.dir@.contains_key(k));
    assert(post.dir@[k] == l);
    assert(post.dir_list(k) == l@);
    assert(post.dir_list(k) == Seq::<usize>::empty().push(w as usize));
    assert forall|k2: Seq<char>| k2 != k implies #[trigger] post.dir_list(k2) == orig.dir_list(
        k2,
    ) by {
        assert(post.dir@.contains_key(k2) == mid.dir@.contains_key(k2));
        assert(post.dir_list(k2) == mid.dir_list(k2));
    };
    assert(post.inv_dir()) by {
        assert forall|k2: Seq<char>|
            distinct_ids(#[trigger] post.dir_list(k2)) && ids_below(
                post.dir_list(k2),
                post.n(),
            ) by {
            if k2 == k {
                assert(post.dir_list(k).len() == 1);
            } else {
                assert(post.dir_list(k2) == orig.dir_list(k2));
                assert(distinct_ids(orig.dir_list(k2)) && ids_below(
                    orig.dir_list(k2),
                    orig.n(),
                ));
                assert(orig.n() == mid.n());
            }
        };
        assert forall|k2: Seq<char>, x: int|
            #[trigger] post.dir_list(k2).contains(x as usize) && 0 <= x
                < post.n() implies post.holds(x, k2) by {
            if k2 == k {
                let p = choose|p: int|
                    0 <= p < post.dir_list(k).len() && post.dir_list(k)[p] == (x as usize);
                assert(post.dir_list(k)[0] == (w as usize));
                assert(x == w);
            } else {
                assert(orig.dir_list(k2).contains(x as usize));
                assert(orig.holds(x, k2));
                assert(mid.holds(x, k2));
            }
        };
        assert forall|k2: Seq<char>, x: int| #[trigger]
            post.holds(x, k2) implies post.dir_list(k2).contains(x as usize) by {
            if k2 == k {
                assert(x == w);
                assert(post.dir_list(k)[0] == (w as usize));
            } else {
                assert(mid.holds(x, k2));
                assert(orig.holds(x, k2));
                assert(orig.dir_list(k2).contains(x as usize));
                assert(post.dir_list(k2) == orig.dir_list(k2));
            }
        };
    };
    assert(post.inv_clean()) by {
        assert forall|k2: Seq<char>, x: int|
            #[trigger] post.holds(x, k2) && post.status_of(x, k2)
                != Status::Modified implies post.value_of(x, k2) == post.store_line(k2) by {
            if k2 == k {
                assert(x == w);
                assert(false);
            } else {
                assert(mid.holds(x, k2));
                assert(post.status_of(x, k2) == mid.status_of(x, k2));
                assert(post.store_line(k2) == mid.store_line(k2));
            }
        };
    };
    assert(post.cur(k) == v) by {
        lemma_cur_modified(post, w, k);
    };
    assert forall|k2: Seq<char>| k2 != k implies #[trigger] post.cur(k2) == orig.cur(k2) by {
        assert forall|x: int| #[trigger] post.holds(x, k2) == mid.holds(x, k2) by {
            assert(post.holds(x, k2) == (mid.holds(x, k2) || (x == w && k2 == k)));
        };
        post.lemma_same_cur(mid, k2);
    };
    assert forall|x: int, k2: Seq<char>| k2 != k implies #[trigger] post.holds(x, k2)
        == orig.holds(x, k2) by {
        assert(post.holds(x, k2) == (mid.holds(x, k2) || (x == w && k2 == k)));
        assert(mid.holds(x, k2) == orig.holds(x, k2));
    };
    assert forall|x: int, k2: Seq<char>|
        k2 != k && #[trigger] orig.holds(x, k2) implies post.status_of(x, k2) == orig.status_of(
        x,
        k2,
    ) && post.value_of(x, k2) == orig.value_of(x, k2) by {
        assert(mid.holds(x, k2));
    };
    assert forall|k2: Seq<char>| k2 != k implies #[trigger] post.store_line(k2)
        == orig.store_line(k2) by {
        assert(post.store_line(k2) == mid.store_line(k2));
    };
    assert forall|k2: Seq<char>|
        k2 != k implies #[trigger] post.store@.contains_key(k2) == orig.store@.contains_key(
        k2,
    ) by {
        assert(post.store@.contains_key(k2) == mid.store@.contains_key(k2));
        assert(mid.store_line(k2) == orig.store_line(k2));
    };
}

/// The sequential system: every worker's cache map, the directory's holder
/// lists, and the store.
pub struct SystemModel {
    pub workers: Vec<Vec<Cache>>,
    pub dir: StringHashMap<Vec<usize>>,
    pub store: StringHashMap<String>,
}

impl SystemModel {
    /// How many workers are registered.
    pub open spec fn n(self) -> int {
        self.workers@.len() as int
    }

    /// Worker `w`'s cache map.
    pub open spec fn row(self, w: int) -> Seq<Cache> {
        self.workers@[w]@
    }

    /// Whether worker `w` holds key `k`.
    pub open spec fn holds(self, w: int, k: Seq<char>) -> bool {
        0 <= w < self.n() && has_key(self.row(w), k)
    }

    /// The status under which worker `w` holds `k`.
    pub open spec fn status_of(self, w: int, k: Seq<char>) -> Status {
        entry_of(self.row(w), k).status
    }

    /// The value worker `w` caches for `k`.
    pub open spec fn value_of(self, w: int, k: Seq<char>) -> Seq<char> {
        entry_of(self.row(w), k).value@
    }

    /// The directory's holder list for `k` (empty if the key is unknown).
    pub open spec fn dir_list(self, k: Seq<char>) -> Seq<usize> {
        if self.dir@.contains_key(k) {
            self.dir@[k]@
        } else {
            Seq::<usize>::empty()
        }
    }

    /// The store's line for `k` (the empty string if absent).
    pub open spec fn store_line(self, k: Seq<char>) -> Seq<char> {
        if self.store@.contains_key(k) {
            self.store@[k]@
        } else {
            Seq::<char>::empty()
        }
    }

    /// The value a read of `k` must observe: the unique `Modified` copy if
    /// one exists, else the store's line.
    pub open spec fn cur(self, k: Seq<char>) -> Seq<char> {
        if exists|w: int| #[trigger] self.holds(w, k) && self.status_of(w, k) == Status::Modified {
            let w = choose|w: int| #[trigger]
                self.holds(w, k) && self.status_of(w, k) == Status::Modified;
            self.value_of(w, k)
        } else {
            self.store_line(k)
        }
    }

    /// Every worker's cache map is well formed.
    pub open spec fn inv_rows(self) -> bool {
        forall|w: int| 0 <= w < self.n() ==> row_ok(#[trigger] self.row(w))
    }

    /// Exclusivity: two distinct holders of one key both hold it `Shared`.
    pub open spec fn inv_excl(self) -> bool {
        forall|k: Seq<char>, w1: int, w2: int|
            w1 != w2 && #[trigger] self.holds(w1, k) && #[trigger] self.holds(w2, k)
                ==> self.status_of(w1, k) == Status::Shared && self.status_of(w2, k)
                == Status::Shared
    }

    /// Directory agreement: the holder list of `k` names exactly the
    /// workers whose cache map contains `k`, each at most once.
    pub open spec fn inv_dir(self) -> bool {
        &&& forall|k: Seq<char>| distinct_ids(#[trigger] self.dir_list(k)) && ids_below(
            self.dir_list(k),
            self.n(),
        )
        &&& forall|k: Seq<char>, w: int|
            #[trigger] self.dir_list(k).contains(w as usize) && 0 <= w < self.n() ==> self.holds(
                w,
                k,
            )
        &&& forall|k: Seq<char>, w: int|
            #[trigger] self.holds(w, k) ==> self.dir_list(k).contains(w as usize)
    }

    /// Clean copies agree with the store: a holder that is not `Modified`
    /// caches exactly the store's line.
    pub open spec fn inv_clean(self) -> bool {
        forall|k: Seq<char>, w: int|
            #[trigger] self.holds(w, k) && self.status_of(w, k) != Status::Modified
                ==> self.value_of(w, k) == self.store_line(k)
    }

    /// All coherence invariants together.
    pub open spec fn wf(self) -> bool {
        self.inv_rows() && self.inv_excl() && self.inv_dir() && self.inv_clean()
    }

    /// A fresh system: no workers, no holder lists, an empty store.
    pub fn new() -> (s: SystemModel)
        ensures
            s.wf(),
            s.n() == 0,
            forall|k: Seq<char>| #[trigger] s.cur(k) == Seq::<char>::empty(),
            forall|k: Seq<char>| !(#[trigger] s.store@.contains_key(k)),
    {
        let s = SystemModel {
            workers: Vec::new(),
            dir: StringHashMap::new(),
            store: StringHashMap::new(),
        };
        proof {
            assert forall|k: Seq<char>| #[trigger] s.cur(k) == Seq::<char>::empty() by {
                assert(!s.dir@.contains_key(k));
                assert(!s.store@.contains_key(k));
            };
        }
        s
    }

    /// Register one more worker: identities are dense, `0` up to the count
    /// of registrations, in order.
    pub fn register(&mut self) -> (w: usize)
        requires
            old(self).wf(),
            old(self).n() < usize::MAX,
        ensures
            final(self).wf(),
            w == old(self).n(),
            final(self).n() == old(self).n() + 1,
            final(self).dir@ == old(self).dir@,
            final(self).store@ == old(self).store@,
            forall|k: Seq<char>| #[trigger] final(self).cur(k) == old(self).cur(k),
            forall|k: Seq<char>| !(#[trigger] final(self).holds(w as int, k)),
            forall|x: int, k: Seq<char>| #[trigger]
                final(self).holds(x, k) == (old(self).holds(x, k) && 0 <= x < old(self).n()),
            forall|x: int, k: Seq<char>|
                old(self).holds(x, k) ==> final(self).status_of(x, k) == old(self).status_of(
                    x,
                    k,
                ) && final(self).value_of(x, k) == old(self).value_of(x, k),
    {
        let w = self.workers.len();
        self.workers.push(Vec::new());
        proof {
            assert(forall|x: int| 0 <= x < old(self).n() ==> #[trigger] self.row(x) == old(
                self,
            ).row(x));
            assert forall|x: int, k: Seq<char>| #[trigger]
                self.holds(x, k) == (old(self).holds(x, k) && 0 <= x < old(self).n()) by {
                if 0 <= x < old(self).n() {
                    assert(self.row(x) == old(self).row(x));
                } else if x == old(self).n() {
                    assert(self.row(x).len() == 0);
                }
            };
            assert forall|w2: int| 0 <= w2 < self.n() implies row_ok(
                #[trigger] self.row(w2),
            ) by {
                if w2 < old(self).n() {
                    assert(self.row(w2) == old(self).row(w2));
                }
            };
            assert(self.inv_rows());
            assert(self.inv_excl());
            assert forall|k: Seq<char>|
                distinct_ids(#[trigger] self.dir_list(k)) && ids_below(
                    self.dir_list(k),
                    self.n(),
                ) by {
                assert(self.dir_list(k) == old(self).dir_list(k));
                assert(ids_below(old(self).dir_list(k), old(self).n()));
                assert forall|i: int| 0 <= i < self.dir_list(k).len() implies self.dir_list(
                    k,
                )[i] < self.n() by {
                    assert(old(self).dir_list(k)[i] < old(self).n());
                };
            };
            assert forall|k: Seq<char>, w2: int|
                #[trigger] self.dir_list(k).contains(w2 as usize) && 0 <= w2 < self.n() implies
                self.holds(w2, k) by {
                assert(old(self).dir_list(k).contains(w2 as usize));
                let i = choose|i: int|
                    0 <= i < old(self).dir_list(k).len() && old(self).dir_list(k)[i] == (
                    w2 as usize);
                assert(old(self).dir_list(k)[i] < old(self).n());
                assert(old(self).holds(w2, k));
            };
            assert forall|k: Seq<char>, w2: int| #[trigger] self.holds(w2, k) implies self
                .dir_list(k).contains(w2 as usize) by {
                assert(old(self).holds(w2, k));
            };
            assert(self.inv_dir());
            assert(self.inv_clean());
            assert forall|k: Seq<char>| #[trigger] self.cur(k) == old(self).cur(k) by {
                self.lemma_same_cur(*old(self), k);
            };
        }
        w
    }

    /// Read `id` as worker `w`.  A hit answers from the local entry; a
    /// miss runs the protocol: every other holder is downgraded to
    /// `Shared` (flushing the one possible `Modified` copy to the store),
    /// the worker joins the holder list, and the value comes from the
    /// store.  Either way the result is the key's current value, and no
    /// key's current value changes — reads never lose writes.
    pub fn get(&mut self, w: usize, id: String) -> (value: String)
        requires
            old(self).wf(),
            (w as int) < old(self).n(),
        ensures
            final(self).wf(),
            value@ == old(self).cur(id@),
            forall|k: Seq<char>| #[trigger] final(self).cur(k) == old(self).cur(k),
            final(self).n() == old(self).n(),
            final(self).holds(w as int, id@),
            old(self).holds(w as int, id@) ==> *final(self) == *old(self),
            !old(self).holds(w as int, id@) ==> final(self).status_of(w as int, id@) == (
            if old(self).dir_list(id@).len() > 0 {
                Status::Shared
            } else {
                Status::Exclusive
            }),
            !old(self).holds(w as int, id@) ==> final(self).dir_list(id@) == old(
                self,
            ).dir_list(id@).push(w),
            forall|x: int|
                x != w && !old(self).holds(w as int, id@) && #[trigger] old(self).holds(x, id@)
                    ==> final(self).holds(x, id@) && final(self).status_of(x, id@)
                    == Status::Shared,
            forall|x: int, k: Seq<char>|
                k != id@ ==> #[trigger] final(self).holds(x, k) == old(self).holds(x, k),
            forall|x: int, k: Seq<char>|
                k != id@ && #[trigger] old(self).holds(x, k) ==> final(self).status_of(x, k)
                    == old(self).status_of(x, k) && final(self).value_of(x, k) == old(
                    self,
                ).value_of(x, k),
            forall|k: Seq<char>|
                k != id@ ==> #[trigger] final(self).dir_list(k) == old(self).dir_list(k),
            forall|k: Seq<char>|
                k != id@ ==> #[trigger] final(self).store_line(k) == old(self).store_line(k),
            forall|k: Seq<char>|
                k != id@ ==> #[trigger] final(self).store@.contains_key(k) == old(
                    self,
                ).store@.contains_key(k),
    {
        let hit = find_entry(&self.workers[w], &id);
        match hit {
            Some(i) => {
                let row = &self.workers[w];
                let value = row[i].get();
                proof {
                    lemma_key_at(old(self).row(w as int), id@, i as int);
                    assert(old(self).holds(w as int, id@));
                    if old(self).status_of(w as int, id@) == Status::Modified {
                        lemma_cur_modified(*old(self), w as int, id@);
                    } else {
                        assert forall|x: int| #[trigger]
                            old(self).holds(x, id@) implies old(self).status_of(x, id@)
                            != Status::Modified by {
                            if x != w {
                                assert(old(self).status_of(x, id@) == Status::Shared);
                            }
                        };
                        lemma_cur_clean(*old(self), id@);
                    }
                }
                return value;
            },
            None => {},
        }
        let holders: Vec<usize> = match self.dir.get(id.as_str()) {
            Some(v) => clone_ids(v),
            None => Vec::new(),
        };
        proof {
            assert(holders@ == old(self).dir_list(id@));
            if holders@.contains(w) {
                assert(old(self).dir_list(id@).contains(((w as int)) as usize));
                assert(old(self).holds(w as int, id@));
            }
        }
        let ev = Event::RemoteRead(id.clone());
        let mut i: usize = 0;
        while i < holders.len()
            invariant
                old(self).wf(),
                (w as int) < old(self).n(),
                i <= holders@.len(),
                holders@ == old(self).dir_list(id@),
                !old(self).holds(w as int, id@),
                !holders@.contains(w),
                !ev.is_confirmed(),
                ev.is_read(),
                ev.spec_key() == id@,
                self.n() == old(self).n(),
                self.dir@ == old(self).dir@,
                self.inv_rows(),
                self.inv_excl(),
                self.inv_dir(),
                self.inv_clean(),
                forall|x: int, k: Seq<char>| #[trigger]
                    self.holds(x, k) == old(self).holds(x, k),
                forall|x: int, k: Seq<char>|
                    k != id@ && #[trigger] old(self).holds(x, k) ==> self.status_of(x, k)
                        == old(self).status_of(x, k) && self.value_of(x, k) == old(
                        self,
                    ).value_of(x, k),
                forall|x: int|
                    #[trigger] old(self).holds(x, id@) ==> self.value_of(x, id@) == old(
                        self,
                    ).value_of(x, id@),
                forall|p: int|
                    0 <= p < i ==> self.status_of(#[trigger] holders@[p] as int, id@)
                        == Status::Shared,
                forall|x: int|
                    #[trigger] old(self).holds(x, id@) ==> (self.status_of(x, id@) == old(
                        self,
                    ).status_of(x, id@) || self.status_of(x, id@) == Status::Shared),
                forall|k: Seq<char>|
                    k != id@ ==> #[trigger] self.store_line(k) == old(self).store_line(k),
                forall|k: Seq<char>|
                    k != id@ ==> #[trigger] self.store@.contains_key(k) == old(
                        self,
                    ).store@.contains_key(k),
                forall|k: Seq<char>| #[trigger] self.cur(k) == old(self).cur(k),
            decreases holders@.len() - i,
        {
            let h = holders[i];
            proof {
                assert(holders@[i as int] == h);
                assert(holders@.contains(h));
                assert(self.dir_list(id@) == holders@);
                assert(self.dir_list(id@).contains(((h as int)) as usize));
                assert(self.holds(h as int, id@));
                assert(distinct_ids(holders@));
            }
            if h != w {
                let ghost pre = *self;
                let j = match find_entry(&self.workers[h], &id) {
                    Some(j) => j,
                    None => {
                        proof {
                            let q = key_index(pre.row(h as int), id@);
                            assert(pre.row(h as int)[q].id@ == id@);
                            assert(false);
                        }
                        unreached()
                    },
                };
                proof {
                    lemma_key_at(pre.row(h as int), id@, j as int);
                }
                serve_remote(&mut self.workers[h], &mut self.store, j, &ev);
                proof {
                    lemma_read_step(pre, *self, h as int, j as int, id@);
                    assert forall|x: int, k: Seq<char>|
                        k != id@ && #[trigger] old(self).holds(x, k) implies self.status_of(
                        x,
                        k,
                    ) == old(self).status_of(x, k) && self.value_of(x, k) == old(
                        self,
                    ).value_of(x, k) by {
                        assert(pre.holds(x, k) == old(self).holds(x, k));
                        assert(pre.holds(x, k));
                    };
                    assert forall|x: int| #[trigger]
                        old(self).holds(x, id@) implies self.value_of(x, id@) == old(
                        self,
                    ).value_of(x, id@) by {
                        assert(pre.holds(x, id@));
                    };
                    assert forall|p: int|
                        0 <= p < i + 1 implies self.status_of(
                        #[trigger] holders@[p] as int,
                        id@,
                    ) == Status::Shared by {
                        if p < i {
                            assert(holders@[p] != holders@[i as int]);
                            assert(pre.status_of(holders@[p] as int, id@) == Status::Shared);
                            assert(pre.dir_list(id@).contains(
                                ((holders@[p] as int)) as usize,
                            ));
                            assert(pre.holds(holders@[p] as int, id@));
                        } else {
                            assert(holders@[p] == h);
                        }
                    };
                    assert forall|x: int| #[trigger]
                        old(self).holds(x, id@) implies (self.status_of(x, id@) == old(
                        self,
                    ).status_of(x, id@) || self.status_of(x, id@) == Status::Shared) by {
                        assert(pre.holds(x, id@));
                    };
                }
            }
            i += 1;
        }
        proof {
            assert forall|x: int|
                x != w && old(self).holds(x, id@) implies self.status_of(x, id@)
                == Status::Shared by {
                assert(old(self).workers.len() == old(self).workers@.len());
                assert(0 <= x < old(self).n());
                assert(old(self).dir_list(id@).contains(x as usize));
                assert(holders@.contains(x as usize));
                let p = choose|p: int| 0 <= p < holders@.len() && holders@[p] == (x as usize);
                assert(0 <= p < holders@.len() && holders@[p] == (x as usize));
                assert(holders@[p] as int == x);
                assert(self.status_of(holders@[p] as int, id@) == Status::Shared);
            };
            assert forall|x: int| #[trigger]
                self.holds(x, id@) implies self.status_of(x, id@) != Status::Modified by {
                assert(old(self).holds(x, id@));
                if x == w {
                    assert(false);
                }
            };
            lemma_cur_clean(*self, id@);
        }
        let ghost mid = *self;
        let n_other = holders.len();
        let mut list = holders;
        list.push(w);
        let ghost gl = list;
        self.dir.insert(id.clone(), list);
        let value = match self.store.get(id.as_str()) {
            Some(s) => s.clone(),
            None => String::new(),
        };
        let status = if n_other > 0 {
            Status::Shared
        } else {
            Status::Exclusive
        };
        let entry = Cache::new(id, value.clone(), status);
        let ghost gc = entry;
        let row = &mut self.workers[w];
        row.push(entry);
        proof {
            lemma_read_finish(mid, *self, *old(self), w as int, id@, value@, status, gc, gl);
        }
        value
    }

    /// Write `val` under `id` as worker `w`: every other holder's entry is
    /// invalidated (flushing the one possible `Modified` copy first), the
    /// holder list shrinks to `w` alone, and `w` caches the sole `Modified`
    /// copy.  The key's current value becomes `val`; no other key's
    /// current value changes — together with `get`'s contract this is the
    /// round-trip law.
    pub fn set(&mut self, w: usize, id: String, val: String)
        requires
            old(self).wf(),
            (w as int) < old(self).n(),
        ensures
            final(self).wf(),
            final(self).n() == old(self).n(),
            final(self).cur(id@) == val@,
            forall|k: Seq<char>| k != id@ ==> #[trigger] final(self).cur(k) == old(self).cur(k),
            final(self).holds(w as int, id@),
            final(self).status_of(w as int, id@) == Status::Modified,
            final(self).value_of(w as int, id@) == val@,
            forall|x: int| x != w ==> !(#[trigger] final(self).holds(x, id@)),
            final(self).dir_list(id@) == Seq::<usize>::empty().push(w),
            forall|x: int, k: Seq<char>|
                k != id@ ==> #[trigger] final(self).holds(x, k) == old(self).holds(x, k),
            forall|x: int, k: Seq<char>|
                k != id@ && #[trigger] old(self).holds(x, k) ==> final(self).status_of(x, k)
                    == old(self).status_of(x, k) && final(self).value_of(x, k) == old(
                    self,
                ).value_of(x, k),
            forall|k: Seq<char>|
                k != id@ ==> #[trigger] final(self).dir_list(k) == old(self).dir_list(k),
            forall|k: Seq<char>|
                k != id@ ==> #[trigger] final(self).store_line(k) == old(self).store_line(k),
            forall|k: Seq<char>|
                k != id@ ==> #[trigger] final(self).store@.contains_key(k) == old(
                    self,
                ).store@.contains_key(k),
    {
        let holders: Vec<usize> = match self.dir.get(id.as_str()) {
            Some(v) => clone_ids(v),
            None => Vec::new(),
        };
        proof {
            assert(holders@ == old(self).dir_list(id@));
            assert(old(self).workers.len() == old(self).workers@.len());
            assert forall|p: int|
                0 <= p < holders@.len() && holders@[p] != w implies old(self).holds(
                #[trigger] holders@[p] as int,
                id@,
            ) by {
                assert(old(self).dir_list(id@).contains(
                    ((holders@[p] as int)) as usize,
                ));
            };
        }
        let ev = Event::RemoteWrite(id.clone());
        let mut i: usize = 0;
        while i < holders.len()
            invariant
                old(self).wf(),
                (w as int) < old(self).n(),
                i <= holders@.len(),
                holders@ == old(self).dir_list(id@),
                distinct_ids(holders@),
                !ev.is_confirmed(),
                !ev.is_read(),
                ev.spec_key() == id@,
                self.n() == old(self).n(),
                self.dir@ == old(self).dir@,
                self.inv_rows(),
                self.inv_excl(),
                self.inv_clean(),
                forall|x: int, k: Seq<char>| #[trigger]
                    self.holds(x, k) ==> old(self).holds(x, k),
                forall|x: int, k: Seq<char>|
                    k != id@ ==> #[trigger] self.holds(x, k) == old(self).holds(x, k),
                forall|x: int, k: Seq<char>|
                    k != id@ && #[trigger] old(self).holds(x, k) ==> self.status_of(x, k)
                        == old(self).status_of(x, k) && self.value_of(x, k) == old(
                        self,
                    ).value_of(x, k),
                forall|x: int|
                    #[trigger] self.holds(x, id@) ==> self.status_of(x, id@) == old(
                        self,
                    ).status_of(x, id@) && self.value_of(x, id@) == old(self).value_of(
                        x,
                        id@,
                    ),
                forall|p: int|
                    0 <= p < i && holders@[p] != w ==> !self.holds(
                        #[trigger] holders@[p] as int,
                        id@,
                    ),
                forall|p: int|
                    i <= p < holders@.len() && holders@[p] != w ==> self.holds(
                        #[trigger] holders@[p] as int,
                        id@,
                    ),
                forall|k: Seq<char>|
                    k != id@ ==> #[trigger] self.store_line(k) == old(self).store_line(k),
                forall|k: Seq<char>|
                    k != id@ ==> #[trigger] self.store@.contains_key(k) == old(
                        self,
                    ).store@.contains_key(k),
                forall|k: Seq<char>| #[trigger] self.cur(k) == old(self).cur(k),
            decreases holders@.len() - i,
        {
            let h = holders[i];
            proof {
                assert(holders@[i as int] == h);
            }
            if h != w {
                let ghost pre = *self;
                proof {
                    assert(pre.holds(h as int, id@));
                }
                let j = match find_entry(&self.workers[h], &id) {
                    Some(j) => j,
                    None => {
                        proof {
                            let q = key_index(pre.row(h as int), id@);
                            assert(pre.row(h as int)[q].id@ == id@);
                            assert(false);
                        }
                        unreached()
                    },
                };
                proof {
                    lemma_key_at(pre.row(h as int), id@, j as int);
                }
                serve_remote(&mut self.workers[h], &mut self.store, j, &ev);
                proof {
                    lemma_write_step(pre, *self, h as int, j as int, id@);
                    assert forall|x: int, k: Seq<char>|
                        k != id@ && #[trigger] old(self).holds(x, k) implies self.status_of(
                        x,
                        k,
                    ) == old(self).status_of(x, k) && self.value_of(x, k) == old(
                        self,
                    ).value_of(x, k) by {
                        assert(pre.holds(x, k) == old(self).holds(x, k));
                        assert(pre.holds(x, k));
                    };
                    assert forall|x: int| #[trigger]
                        self.holds(x, id@) implies self.status_of(x, id@) == old(
                        self,
                    ).status_of(x, id@) && self.value_of(x, id@) == old(self).value_of(
                        x,
                        id@,
                    ) by {
                        assert(pre.holds(x, id@));
                        assert(x != h);
                    };
                    assert forall|p: int|
                        0 <= p < i + 1 && holders@[p] != w implies !self.holds(
                        #[trigger] holders@[p] as int,
                        id@,
                    ) by {
                        if p < i {
                            assert(!pre.holds(holders@[p] as int, id@));
                        } else {
                            assert(holders@[p] == h);
                        }
                    };
                    assert forall|p: int|
                        i + 1 <= p < holders@.len() && holders@[p] != w implies self.holds(
                        #[trigger] holders@[p] as int,
                        id@,
                    ) by {
                        assert(pre.holds(holders@[p] as int, id@));
                        assert(holders@[p] != holders@[i as int]);
                    };
                }
            }
            i += 1;
        }
        proof {
            assert(self.workers.len() == self.workers@.len());
            assert forall|x: int| x != w implies !(#[trigger] self.holds(x, id@)) by {
                if self.holds(x, id@) {
                    assert(old(self).holds(x, id@));
                    assert(old(self).dir_list(id@).contains(x as usize));
                    assert(holders@.contains(x as usize));
                    let p = choose|p: int|
                        0 <= p < holders@.len() && holders@[p] == (x as usize);
                    assert(0 <= p < holders@.len() && holders@[p] == (x as usize));
                    assert(holders@[p] as int == x);
                    assert(!self.holds(holders@[p] as int, id@));
                }
            };
        }
        let ghost gk = id@;
        let mut list: Vec<usize> = Vec::new();
        list.push(w);
        let ghost gl = list;
        let ghost mid = *self;
        self.dir.insert(id.clone(), list);
        let row = &mut self.workers[w];
        let found = find_entry(row, &id);
        let entry = Cache::new(id, val, Status::Modified);
        let ghost gc = entry;
        match found {
            Some(j) => {
                proof {
                    lemma_key_at(mid.row(w as int), gk, j as int);
                }
                row.set(j, entry);
            },
            None => {
                row.push(entry);
            },
        }
        proof {
            lemma_write_finish(mid, *self, *old(self), w as int, gk, val@, gc, gl);
        }
    }

    /// How many workers are registered.
    pub fn worker_count(&self) -> (n: usize)
        ensures
            n == self.n(),
    {
        self.workers.len()
    }

    /// The entry worker `w` holds for `id`, if any.
    pub fn lookup(&self, w: usize, id: &String) -> (r: Option<Cache>)
        requires
            self.wf(),
            (w as int) < self.n(),
        ensures
            match r {
                Some(c) => self.holds(w as int, id@) && c == entry_of(self.row(w as int), id@),
                None => !self.holds(w as int, id@),
            },
    {
        let row = &self.workers[w];
        match find_entry(row, id) {
            Some(i) => {
                proof {
                    lemma_key_at(self.row(w as int), id@, i as int);
                }
                Some(Cache::new(row[i].id.clone(), row[i].value.clone(), row[i].status))
            },
            None => None,
        }
    }

    /// The directory's holder list for `id`.
    pub fn holders_of(&self, id: &String) -> (r: Vec<usize>)
        ensures
            r@ == self.dir_list(id@),
    {
        match self.dir.get(id.as_str()) {
            Some(v) => clone_ids(v),
            None => Vec::new(),
        }
    }

    /// The store's line for `id`: what a write-back has made durable.
    pub fn store_value(&self, id: &String) -> (r: String)
        ensures
            r@ == self.store_line(id@),
    {
        match self.store.get(id.as_str()) {
            Some(s) => s.clone(),
            None => String::new(),
        }
    }

    /// Whether the store has a line for `id` at all.
    pub fn store_contains(&self, id: &String) -> (r: bool)
        ensures
            r == self.store@.contains_key(id@),
    {
        match self.store.get(id.as_str()) {
            Some(_) => true,
            None => false,
        }
    }

    /// Two states with the same holders, statuses, values and store lines
    /// for `k` agree on `cur(k)`.
    proof fn lemma_same_cur(self, other: SystemModel, k: Seq<char>)
        requires
            self.inv_excl(),
            forall|w: int| #[trigger] self.holds(w, k) == other.holds(w, k),
            forall|w: int|
                other.holds(w, k) ==> self.status_of(w, k) == other.status_of(w, k)
                    && self.value_of(w, k) == other.value_of(w, k),
            self.store_line(k) == other.store_line(k),
        ensures
            self.cur(k) == other.cur(k),
    {
        if exists|w: int| #[trigger] self.holds(w, k) && self.status_of(w, k)
            == Status::Modified {
            let w = choose|w: int| #[trigger]
                self.holds(w, k) && self.status_of(w, k) == Status::Modified;
            assert(other.holds(w, k) && other.status_of(w, k) == Status::Modified);
            let w2 = choose|w2: int| #[trigger]
                other.holds(w2, k) && other.status_of(w2, k) == Status::Modified;
            assert(self.holds(w2, k) && self.status_of(w2, k) == Status::Modified);
            if w != w2 {
                assert(self.status_of(w, k) == Status::Shared);
            }
        } else {
            if exists|w: int| #[trigger] other.holds(w, k) && other.status_of(w, k)
                == Status::Modified {
                let w = choose|w: int| #[trigger]
                    other.holds(w, k) && other.status_of(w, k) == Status::Modified;
                assert(self.holds(w, k) && self.status_of(w, k) == Status::Modified);
            }
        }
    }
}


/// Exclusivity: a worker that holds a key `Modified` or `Exclusive` is the
/// key's only holder.
pub proof fn lemma_exclusivity(s: SystemModel, w1: int, w2: int, k: Seq<char>)
    requires
        s.wf(),
        w1 != w2,
        s.holds(w1, k),
        s.status_of(w1, k) == Status::Modified || s.status_of(w1, k) == Status::Exclusive,
    ensures
        !s.holds(w2, k),
{
    if s.holds(w2, k) {
        assert(s.status_of(w1, k) == Status::Shared);
    }
}

/// Shared coherence: when two workers hold one key, each holds it `Shared`.
pub proof fn lemma_shared_coherence(s: SystemModel, w1: int, w2: int, k: Seq<char>)
    requires
        s.wf(),
        w1 != w2,
        s.holds(w1, k),
        s.holds(w2, k),
    ensures
        s.status_of(w1, k) == Status::Shared,
        s.status_of(w2, k) == Status::Shared,
{
}

/// No `Invalid` residents: an entry present in a cache map never carries
/// the `Invalid` status.
pub proof fn lemma_no_invalid_resident(s: SystemModel, w: int, k: Seq<char>)
    requires
        s.wf(),
        s.holds(w, k),
    ensures
        s.status_of(w, k) != Status::Invalid,
{
    let i = key_index(s.row(w), k);
    assert(0 <= i < s.row(w).len() && s.row(w)[i].id@ == k);
    assert(s.row(w)[i].status != Status::Invalid);
}

/// Directory agreement: the directory lists a worker under a key exactly
/// when that worker's cache map contains the key.
pub proof fn lemma_directory_agreement(s: SystemModel, w: int, k: Seq<char>)
    requires
        s.wf(),
        0 <= w < s.n(),
    ensures
        s.dir_list(k).contains(w as usize) <==> s.holds(w, k),
{
}

/// Write-back durability: a value is flushed to the store before its entry
/// leaves the `Modified` state, so a holder that is not `Modified` caches
/// exactly the store's line — no written value is ever lost.
pub proof fn lemma_clean_copies_match_store(s: SystemModel, w: int, k: Seq<char>)
    requires
        s.wf(),
        s.holds(w, k),
        s.status_of(w, k) != Status::Modified,
    ensures
        s.value_of(w, k) == s.store_line(k),
{
}

/// Reading an unset key: with no line in the store and no holder, a key's
/// current value — what `get` returns — is the empty string.
pub proof fn lemma_empty_read(s: SystemModel, k: Seq<char>)
    requires
        s.wf(),
        !s.store@.contains_key(k),
        forall|x: int| !(#[trigger] s.holds(x, k)),
    ensures
        s.cur(k) == Seq::<char>::empty(),
{
    lemma_cur_clean(s, k);
}

/// The round-trip law: once a write has made `v` the current value of `k`,
/// operations that leave `k`'s current value alone cannot disturb it, so a
/// later read of `k` — which returns the current value — observes `v`.
pub proof fn lemma_round_trip(
    after_write: SystemModel,
    later: SystemModel,
    k: Seq<char>,
    v: Seq<char>,
)
    requires
        after_write.cur(k) == v,
        later.cur(k) == after_write.cur(k),
    ensures
        later.cur(k) == v,
{
}

} // verus!
