//! Local storage: key groups of values with expiration times and republish
//! flags.
use vstd::prelude::*;
use crate::hash::{closer, lemma_raw_ext, SubotaiHash};
use crate::node::Configuration;

verus! {

/// Seconds in an hour.
pub const SECONDS_PER_HOUR: i64 = 3600;

/// The data type that can be stored and retrieved in the network, consisting
/// of either another hash or a binary blob.
#[derive(Debug, Clone, Eq)]
pub enum StorageEntry {
    Value(SubotaiHash),
    Blob(Vec<u8>),
}

/// Two entries hold the same hash, or the same bytes.
pub open spec fn same_entry(a: StorageEntry, b: StorageEntry) -> bool {
    match (a, b) {
        (StorageEntry::Value(x), StorageEntry::Value(y)) => x == y,
        (StorageEntry::Blob(x), StorageEntry::Blob(y)) => x@ == y@,
        _ => false,
    }
}

impl StorageEntry {
    /// A copy that holds the same hash or the same bytes.
    pub fn duplicate(&self) -> (r: StorageEntry)
        ensures
            same_entry(r, *self),
    {
        match self {
            StorageEntry::Value(h) => StorageEntry::Value(*h),
            StorageEntry::Blob(v) => {
                let mut w: Vec<u8> = Vec::new();
                let mut i: usize = 0;
                while i < v.len()
                    invariant
                        i <= v@.len(),
                        w@ == v@.take(i as int),
                    decreases v@.len() - i,
                {
                    w.push(v[i]);
                    i += 1;
                    proof {
                        assert(w@ =~= v@.take(i as int));
                    }
                }
                proof {
                    assert(w@ =~= v@);
                }
                StorageEntry::Blob(w)
            },
        }
    }
}

impl PartialEq for StorageEntry {
    fn eq(&self, other: &StorageEntry) -> (r: bool)
        ensures
            r == same_entry(*self, *other),
    {
        match (self, other) {
            (StorageEntry::Value(x), StorageEntry::Value(y)) => {
                let r = *x == *y;
                proof {
                    if r {
                        lemma_raw_ext(*x, *y);
                    }
                }
                r
            },
            (StorageEntry::Blob(x), StorageEntry::Blob(y)) => {
                if x.len() != y.len() {
                    return false;
                }
                let mut i: usize = 0;
                while i < x.len()
                    invariant
                        i <= x@.len(),
                        x@.len() == y@.len(),
                        same_entry(*self, *other) == (x@ == y@),
                        forall|j: int| 0 <= j < i ==> x@[j] == y@[j],
                    decreases x@.len() - i,
                {
                    if x[i] != y[i] {
                        proof {
                            assert(x@[i as int] != y@[i as int]);
                            assert(x@ != y@);
                        }
                        return false;
                    }
                    i += 1;
                }
                proof {
                    assert(x@ =~= y@);
                }
                true
            },
            _ => false,
        }
    }
}

impl vstd::std_specs::cmp::PartialEqSpecImpl for StorageEntry {
    open spec fn obeys_eq_spec() -> bool {
        true
    }

    open spec fn eq_spec(&self, other: &StorageEntry) -> bool {
        same_entry(*self, *other)
    }
}

/// Outcome of a store operation.
#[derive(Debug, Clone, Copy, Eq, PartialEq, Structural)]
pub enum StoreResult {
    Success,
    StorageFull,
    BlobTooBig,
    MassStoreFailed,
}

/// Storage entry wrapper that includes management information.
#[derive(Debug)]
pub struct ExtendedEntry {
    pub entry: StorageEntry,
    pub expiration: i64,
    pub republish_ready: bool,
}

/// All entries stored under one key.
#[derive(Debug)]
struct KeyGroup {
    key: SubotaiHash,
    entries: Vec<ExtendedEntry>,
}

/// The abstract contents of a storage: a sequence of key groups.
pub type Groups = Seq<(SubotaiHash, Seq<ExtendedEntry>)>;

/// Key groups of entries with expiration dates, bounded in number and blob
/// size by the configuration.
pub struct Storage {
    key_groups: Vec<KeyGroup>,
    parent_id: SubotaiHash,
    configuration: Configuration,
}

/// The last group with a key is found at its position.
pub proof fn lemma_group_index_at(gs: Groups, key: SubotaiHash, i: int)
    requires
        0 <= i < gs.len(),
        gs[i].0 == key,
        forall|q: int| i < q < gs.len() ==> (#[trigger] gs[q]).0 != key,
    ensures
        group_index(gs, key) == Some(i),
    decreases gs.len(),
{
    if i < gs.len() - 1 {
        assert(gs.last() == gs[gs.len() - 1]);
        let d = gs.drop_last();
        assert(d[i] == gs[i]);
        assert forall|q: int| i < q < d.len() implies (#[trigger] d[q]).0 != key by {
            assert(d[q] == gs[q]);
        }
        lemma_group_index_at(d, key, i);
    }
}

/// The last pair equal to an entry is found at its position.
pub proof fn lemma_entry_index_at(es: Seq<ExtendedEntry>, e: StorageEntry, i: int)
    requires
        0 <= i < es.len(),
        same_entry(es[i].entry, e),
        forall|q: int| i < q < es.len() ==> !same_entry((#[trigger] es[q]).entry, e),
    ensures
        entry_index(es, e) == Some(i),
    decreases es.len(),
{
    if i < es.len() - 1 {
        assert(es.last() == es[es.len() - 1]);
        let d = es.drop_last();
        assert(d[i] == es[i]);
        assert forall|q: int| i < q < d.len() implies !same_entry((#[trigger] d[q]).entry, e) by {
            assert(d[q] == es[q]);
        }
        lemma_entry_index_at(d, e, i);
    }
}

/// A store keeps the groups well formed and within the entry bound: keys
/// stay distinct, entries within a group stay distinct, and no blob above
/// the size bound gets in.
pub proof fn lemma_store_preserves_wf(
    gs: Groups,
    key: SubotaiHash,
    entry: StorageEntry,
    expiration: i64,
    now: i64,
    cfg: Configuration,
)
    requires
        groups_wf(gs, cfg.max_storage_blob_size),
        total(gs) <= cfg.max_storage,
    ensures
        groups_wf(store_outcome(gs, key, entry, expiration, now, cfg).0, cfg.max_storage_blob_size),
        total(store_outcome(gs, key, entry, expiration, now, cfg).0) <= cfg.max_storage,
{
    let ng = store_outcome(gs, key, entry, expiration, now, cfg).0;
    let eff = effective_expiration(expiration, now, cfg.base_expiration_time_hrs);
    lemma_group_index(gs, key);
    if is_big_blob(entry, cfg.max_storage_blob_size) {
    } else {
        match group_index(gs, key) {
            Some(gi) => {
                let es = gs[gi].1;
                lemma_entry_index(es, entry);
                match entry_index(es, entry) {
                    Some(ei) => {
                        let exp = if es[ei].expiration >= eff {
                            es[ei].expiration
                        } else {
                            eff as i64
                        };
                        let upd = ExtendedEntry { entry: es[ei].entry, expiration: exp, republish_ready: false };
                        lemma_total_update(gs, gi, (key, es.update(ei, upd)));
                        assert forall|i: int, a: int, b: int|
                            0 <= i < ng.len() && 0 <= a < b < ng[i].1.len() implies !same_entry(
                            (#[trigger] ng[i].1[a]).entry,
                            (#[trigger] ng[i].1[b]).entry,
                        ) by {
                            assert(ng[i].1[a].entry == gs[i].1[a].entry);
                            assert(ng[i].1[b].entry == gs[i].1[b].entry);
                        }
                        assert forall|i: int, a: int|
                            0 <= i < ng.len() && 0 <= a < ng[i].1.len() implies !is_big_blob(
                            (#[trigger] ng[i].1[a]).entry,
                            cfg.max_storage_blob_size,
                        ) by {
                            assert(ng[i].1[a].entry == gs[i].1[a].entry);
                        }
                    },
                    None => {
                        if total(gs) < cfg.max_storage {
                            let ga = ExtendedEntry { entry, expiration: eff as i64, republish_ready: false };
                            lemma_total_update(gs, gi, (key, es.push(ga)));
                            assert forall|i: int, a: int, b: int|
                                0 <= i < ng.len() && 0 <= a < b < ng[i].1.len() implies !same_entry(
                                (#[trigger] ng[i].1[a]).entry,
                                (#[trigger] ng[i].1[b]).entry,
                            ) by {
                                if i == gi && b == es.len() {
                                    assert(ng[i].1[a] == es[a]);
                                } else {
                                    assert(ng[i].1[a] == gs[i].1[a]);
                                    assert(ng[i].1[b] == gs[i].1[b]);
                                }
                            }
                            assert forall|i: int, a: int|
                                0 <= i < ng.len() && 0 <= a < ng[i].1.len() implies !is_big_blob(
                                (#[trigger] ng[i].1[a]).entry,
                                cfg.max_storage_blob_size,
                            ) by {
                                if !(i == gi && a == es.len()) {
                                    assert(ng[i].1[a] == gs[i].1[a]);
                                }
                            }
                        }
                    },
                }
            },
            None => {
                if total(gs) < cfg.max_storage {
                    let ga = ExtendedEntry { entry, expiration: eff as i64, republish_ready: false };
                    lemma_total_push(gs, (key, seq![ga]));
                    assert forall|i: int, k: int| 0 <= i < k < ng.len() implies (#[trigger] ng[i]).0 != (
                    #[trigger] ng[k]).0 by {
                        if k == gs.len() {
                            assert(ng[i] == gs[i]);
                        } else {
                            assert(ng[i] == gs[i] && ng[k] == gs[k]);
                        }
                    }
                    assert forall|i: int, a: int, b: int|
                        0 <= i < ng.len() && 0 <= a < b < ng[i].1.len() implies !same_entry(
                        (#[trigger] ng[i].1[a]).entry,
                        (#[trigger] ng[i].1[b]).entry,
                    ) by {
                        assert(i < gs.len());
                        assert(ng[i] == gs[i]);
                    }
                    assert forall|i: int, a: int|
                        0 <= i < ng.len() && 0 <= a < ng[i].1.len() implies !is_big_blob(
                        (#[trigger] ng[i].1[a]).entry,
                        cfg.max_storage_blob_size,
                    ) by {
                        if i < gs.len() {
                            assert(ng[i] == gs[i]);
                        }
                    }
                    assert forall|i: int| 0 <= i < ng.len() implies (#[trigger] ng[i]).1.len() > 0 by {
                        if i < gs.len() {
                            assert(ng[i] == gs[i]);
                        }
                    }
                }
            },
        }
    }
}

/// Every pair that a store at `now` writes expires at most
/// `base_expiration_time_hrs` after `now`: when all stored pairs were within
/// that bound before the store, they still are after it.
pub proof fn lemma_store_expiration_bound(
    gs: Groups,
    key: SubotaiHash,
    entry: StorageEntry,
    expiration: i64,
    now: i64,
    cfg: Configuration,
)
    requires
        cfg.base_expiration_time_hrs >= 0,
        expirations_bounded(gs, expiration_limit(now, cfg.base_expiration_time_hrs)),
    ensures
        expirations_bounded(
            store_outcome(gs, key, entry, expiration, now, cfg).0,
            expiration_limit(now, cfg.base_expiration_time_hrs),
        ),
{
    let ng = store_outcome(gs, key, entry, expiration, now, cfg).0;
    let limit = expiration_limit(now, cfg.base_expiration_time_hrs);
    let eff = effective_expiration(expiration, now, cfg.base_expiration_time_hrs);
    assert(i64::MIN <= eff <= limit);
    lemma_group_index(gs, key);
    if !is_big_blob(entry, cfg.max_storage_blob_size) {
        match group_index(gs, key) {
            Some(gi) => {
                let es = gs[gi].1;
                lemma_entry_index(es, entry);
                assert forall|i: int, a: int| 0 <= i < ng.len() && 0 <= a < ng[i].1.len() implies (
                #[trigger] ng[i].1[a]).expiration <= limit by {
                    if i != gi {
                        assert(ng[i] == gs[i]);
                    } else {
                        match entry_index(es, entry) {
                            Some(ei) => {
                                if a != ei {
                                    assert(ng[i].1[a] == es[a]);
                                }
                            },
                            None => {
                                if a < es.len() {
                                    assert(ng[i].1[a] == es[a]);
                                }
                            },
                        }
                    }
                }
            },
            None => {
                assert forall|i: int, a: int| 0 <= i < ng.len() && 0 <= a < ng[i].1.len() implies (
                #[trigger] ng[i].1[a]).expiration <= limit by {
                    if i < gs.len() {
                        assert(ng[i] == gs[i]);
                    }
                }
            },
        }
    }
}

/// A pair that has not expired at `now` survives the purge.
pub proof fn lemma_live_keeps(es: Seq<ExtendedEntry>, now: i64, a: int)
    requires
        0 <= a < es.len(),
        es[a].expiration >= now,
    ensures
        live_entries(es, now).contains(es[a]),
    decreases es.len(),
{
    if a == es.len() - 1 {
        assert(live_entries(es, now).last() == es[a]);
    } else {
        lemma_live_keeps(es.drop_last(), now, a);
        assert(es.drop_last()[a] == es[a]);
        let l = live_entries(es.drop_last(), now);
        if es.last().expiration >= now {
            let k = choose|k: int| 0 <= k < l.len() && l[k] == es[a];
            assert(l.push(es.last())[k] == es[a]);
        }
    }
}

/// With distinct keys, the group a key has after a purge holds the pairs of
/// its group before the purge that had not expired; it is gone when none
/// had.
pub proof fn lemma_purged_lookup(gs: Groups, now: i64, key: SubotaiHash)
    requires
        forall|i: int, j: int| 0 <= i < j < gs.len() ==> (#[trigger] gs[i]).0 != (#[trigger] gs[j]).0,
    ensures
        match group_index(gs, key) {
            Some(gi) => if live_entries(gs[gi].1, now).len() > 0 {
                group_index(purged(gs, now), key) is Some && purged(gs, now)[group_index(
                    purged(gs, now),
                    key,
                )->Some_0].1 == live_entries(gs[gi].1, now)
            } else {
                group_index(purged(gs, now), key) is None
            },
            None => group_index(purged(gs, now), key) is None,
        },
    decreases gs.len(),
{
    if gs.len() > 0 {
        let d = gs.drop_last();
        assert forall|i: int, j: int| 0 <= i < j < d.len() implies (#[trigger] d[i]).0 != (#[trigger] d[j]).0 by {
            assert(d[i] == gs[i] && d[j] == gs[j]);
        }
        lemma_purged_lookup(d, now, key);
        let p = purged(d, now);
        let g = gs.last();
        assert(g == gs[gs.len() - 1]);
        let kept = live_entries(g.1, now);
        assert(purged(gs, now) == if kept.len() > 0 {
            p.push((g.0, kept))
        } else {
            p
        });
        if kept.len() > 0 {
            assert(p.push((g.0, kept)).drop_last() =~= p);
            assert(p.push((g.0, kept)).last() == (g.0, kept));
        }
        if g.0 == key {
            lemma_group_index(d, key);
            assert forall|q: int| 0 <= q < d.len() implies (#[trigger] d[q]).0 != key by {
                assert(d[q] == gs[q]);
            }
            assert(group_index(d, key) is None);
        } else {
            assert(group_index(gs, key) == group_index(d, key));
            lemma_group_index(d, key);
            match group_index(d, key) {
                Some(gi) => {
                    assert(gs[gi] == d[gi]);
                    if kept.len() > 0 {
                        lemma_group_index(p, key);
                        match group_index(p, key) {
                            Some(pi) => {
                                assert(p.push((g.0, kept))[pi] == p[pi]);
                            },
                            None => {},
                        }
                    }
                },
                None => {},
            }
        }
    }
}

/// A successful store followed by a retrieval of the key, while the stored
/// expiration has not passed, finds the stored value.
pub proof fn lemma_store_then_retrieve(
    gs: Groups,
    key: SubotaiHash,
    entry: StorageEntry,
    expiration: i64,
    now: i64,
    later: i64,
    cfg: Configuration,
)
    requires
        groups_wf(gs, cfg.max_storage_blob_size),
        total(gs) <= cfg.max_storage,
        store_outcome(gs, key, entry, expiration, now, cfg).1 == StoreResult::Success,
        later <= effective_expiration(expiration, now, cfg.base_expiration_time_hrs),
    ensures
        ({
            let p = purged(store_outcome(gs, key, entry, expiration, now, cfg).0, later);
            &&& group_index(p, key) is Some
            &&& exists|k: int|
                0 <= k < p[group_index(p, key)->Some_0].1.len() && same_entry(
                    (#[trigger] p[group_index(p, key)->Some_0].1[k]).entry,
                    entry,
                )
        }),
{
    let ng = store_outcome(gs, key, entry, expiration, now, cfg).0;
    lemma_store_preserves_wf(gs, key, entry, expiration, now, cfg);
    lemma_group_index(gs, key);
    lemma_group_index(ng, key);
    let gi = group_index(ng, key)->Some_0;
    let es = ng[gi].1;
    let eff = effective_expiration(expiration, now, cfg.base_expiration_time_hrs);
    let a = match group_index(gs, key) {
        Some(g0) => {
            lemma_entry_index(gs[g0].1, entry);
            assert forall|q: int| g0 < q < ng.len() implies (#[trigger] ng[q]).0 != key by {
                assert(ng[q] == gs[q]);
            }
            lemma_group_index_at(ng, key, g0);
            match entry_index(gs[g0].1, entry) {
                Some(ei) => ei,
                None => gs[g0].1.len() as int,
            }
        },
        None => {
            lemma_group_index_at(ng, key, gs.len() as int);
            0
        },
    };
    assert(same_entry(es[a].entry, entry) && es[a].expiration >= later);
    lemma_live_keeps(es, later, a);
    lemma_purged_lookup(ng, later, key);
    let p = purged(ng, later);
    let l = live_entries(es, later);
    let k = choose|k: int| 0 <= k < l.len() && l[k] == es[a];
    assert(p[group_index(p, key)->Some_0].1[k] == es[a]);
}

/// Storing the same value twice under a key that did not hold it (the
/// second time possibly as a copy, at a later clock) leaves one pair for it,
/// not ready for republishing, expiring at the later of the two capped
/// expirations; the number of pairs does not change with the second store.
/// At a single clock value that is the later requested time, capped at
/// `base_expiration_time_hrs` from it.
pub proof fn lemma_store_twice(
    gs: Groups,
    key: SubotaiHash,
    entry: StorageEntry,
    again: StorageEntry,
    t1: i64,
    now1: i64,
    t2: i64,
    now2: i64,
    cfg: Configuration,
)
    requires
        groups_wf(gs, cfg.max_storage_blob_size),
        total(gs) <= cfg.max_storage,
        cfg.base_expiration_time_hrs >= 0,
        same_entry(again, entry),
        match group_index(gs, key) {
            Some(gi) => entry_index(gs[gi].1, entry) is None,
            None => true,
        },
        store_outcome(gs, key, entry, t1, now1, cfg).1 == StoreResult::Success,
    ensures
        ({
            let g1 = store_outcome(gs, key, entry, t1, now1, cfg).0;
            let (g2, r2) = store_outcome(g1, key, again, t2, now2, cfg);
            let es = g2[group_index(g2, key)->Some_0].1;
            let e1 = effective_expiration(t1, now1, cfg.base_expiration_time_hrs);
            let e2 = effective_expiration(t2, now2, cfg.base_expiration_time_hrs);
            let top = if t1 >= t2 {
                t1
            } else {
                t2
            };
            &&& r2 == StoreResult::Success
            &&& total(g2) == total(g1)
            &&& group_index(g2, key) is Some
            &&& entry_index(es, entry) is Some
            &&& es[entry_index(es, entry)->Some_0].expiration == if e1 >= e2 {
                e1
            } else {
                e2
            }
            &&& now1 == now2 ==> es[entry_index(es, entry)->Some_0].expiration == effective_expiration(
                top,
                now1,
                cfg.base_expiration_time_hrs,
            )
            &&& !es[entry_index(es, entry)->Some_0].republish_ready
            &&& forall|a: int| 0 <= a < es.len() && same_entry((#[trigger] es[a]).entry, entry) ==> a
                == entry_index(es, entry)->Some_0
        }),
{
    let g1 = store_outcome(gs, key, entry, t1, now1, cfg).0;
    let eff1 = effective_expiration(t1, now1, cfg.base_expiration_time_hrs);
    let eff2 = effective_expiration(t2, now2, cfg.base_expiration_time_hrs);
    lemma_group_index(gs, key);
    let (gi, es0) = match group_index(gs, key) {
        Some(g0) => {
            assert forall|q: int| g0 < q < g1.len() implies (#[trigger] g1[q]).0 != key by {
                assert(g1[q] == gs[q]);
            }
            lemma_group_index_at(g1, key, g0);
            (g0, gs[g0].1)
        },
        None => {
            lemma_group_index_at(g1, key, gs.len() as int);
            (gs.len() as int, Seq::<ExtendedEntry>::empty())
        },
    };
    lemma_entry_index(es0, entry);
    let e1 = g1[gi].1;
    let ei = es0.len() as int;
    assert(e1 =~= es0.push(e1[ei]));
    assert(i64::MIN <= eff1 <= i64::MAX);
    assert(i64::MIN <= eff2 <= i64::MAX);
    assert(e1[ei].expiration == eff1);
    lemma_entry_index_at(e1, entry, ei);
    assert forall|q: int| ei < q < e1.len() implies !same_entry((#[trigger] e1[q]).entry, again) by {}
    lemma_entry_index_at(e1, again, ei);
    let (g2, r2) = store_outcome(g1, key, again, t2, now2, cfg);
    assert forall|q: int| gi < q < g2.len() implies (#[trigger] g2[q]).0 != key by {
        assert(g2[q] == g1[q]);
    }
    lemma_group_index_at(g2, key, gi);
    let es = g2[gi].1;
    lemma_entry_index_at(es, entry, ei);
    assert forall|a: int| 0 <= a < es.len() && same_entry((#[trigger] es[a]).entry, entry) implies a == ei by {
        if a != ei {
            assert(es[a] == es0[a]);
        }
    }
    lemma_total_update(g1, gi, (key, es));
}

/// Groups of the same lengths hold the same number of pairs.
pub proof fn lemma_total_same_shape(a: Groups, b: Groups)
    requires
        a.len() == b.len(),
        forall|i: int| 0 <= i < a.len() ==> (#[trigger] a[i]).1.len() == b[i].1.len(),
    ensures
        total(a) == total(b),
    decreases a.len(),
{
    if a.len() > 0 {
        let da = a.drop_last();
        let db = b.drop_last();
        assert forall|i: int| 0 <= i < da.len() implies (#[trigger] da[i]).1.len() == db[i].1.len() by {
            assert(da[i] == a[i] && db[i] == b[i]);
        }
        lemma_total_same_shape(da, db);
    }
}

spec fn view_groups(v: Seq<KeyGroup>) -> Groups {
    v.map_values(|g: KeyGroup| (g.key, g.entries@))
}

/// Index of the last group with this key.
pub open spec fn group_index(gs: Groups, key: SubotaiHash) -> Option<int>
    decreases gs.len(),
{
    if gs.len() == 0 {
        None
    } else if gs.last().0 == key {
        Some(gs.len() - 1)
    } else {
        group_index(gs.drop_last(), key)
    }
}

/// Index of the last pair holding an entry equal to `e`.
pub open spec fn entry_index(es: Seq<ExtendedEntry>, e: StorageEntry) -> Option<int>
    decreases es.len(),
{
    if es.len() == 0 {
        None
    } else if same_entry(es.last().entry, e) {
        Some(es.len() - 1)
    } else {
        entry_index(es.drop_last(), e)
    }
}

pub proof fn lemma_group_index(gs: Groups, key: SubotaiHash)
    ensures
        match group_index(gs, key) {
            Some(i) => 0 <= i < gs.len() && gs[i].0 == key && forall|q: int|
                i < q < gs.len() ==> (#[trigger] gs[q]).0 != key,
            None => forall|q: int| 0 <= q < gs.len() ==> (#[trigger] gs[q]).0 != key,
        },
    decreases gs.len(),
{
    if gs.len() > 0 && gs.last().0 != key {
        lemma_group_index(gs.drop_last(), key);
        assert(forall|q: int| 0 <= q < gs.len() - 1 ==> gs.drop_last()[q] == gs[q]);
        assert(gs.last() == gs[gs.len() - 1]);
    }
}

pub proof fn lemma_entry_index(es: Seq<ExtendedEntry>, e: StorageEntry)
    ensures
        match entry_index(es, e) {
            Some(i) => 0 <= i < es.len() && same_entry(es[i].entry, e) && forall|q: int|
                i < q < es.len() ==> !same_entry((#[trigger] es[q]).entry, e),
            None => forall|q: int| 0 <= q < es.len() ==> !same_entry((#[trigger] es[q]).entry, e),
        },
    decreases es.len(),
{
    if es.len() > 0 && !same_entry(es.last().entry, e) {
        lemma_entry_index(es.drop_last(), e);
        assert(forall|q: int| 0 <= q < es.len() - 1 ==> es.drop_last()[q] == es[q]);
        assert(es.last() == es[es.len() - 1]);
    }
}

/// Number of pairs across all groups.
pub open spec fn total(gs: Groups) -> nat
    decreases gs.len(),
{
    if gs.len() == 0 {
        0
    } else {
        total(gs.drop_last()) + gs.last().1.len()
    }
}

/// The blob is larger than the configuration allows.
pub open spec fn is_big_blob(e: StorageEntry, max: usize) -> bool {
    match e {
        StorageEntry::Blob(v) => v@.len() > max,
        StorageEntry::Value(_) => false,
    }
}

/// Latest expiration that a store at `now` may keep.
pub open spec fn expiration_limit(now: i64, base_hours: i64) -> int {
    now + base_hours * 3600
}

/// The requested expiration, capped at the limit.
pub open spec fn effective_expiration(expiration: i64, now: i64, base_hours: i64) -> int {
    if expiration <= expiration_limit(now, base_hours) {
        expiration as int
    } else {
        expiration_limit(now, base_hours)
    }
}

/// Pairs that have not expired at `now`.
pub open spec fn live_entries(es: Seq<ExtendedEntry>, now: i64) -> Seq<ExtendedEntry>
    decreases es.len(),
{
    if es.len() == 0 {
        es
    } else if es.last().expiration >= now {
        live_entries(es.drop_last(), now).push(es.last())
    } else {
        live_entries(es.drop_last(), now)
    }
}

/// Groups with their expired pairs removed, and without the groups that
/// are left empty.
pub open spec fn purged(gs: Groups, now: i64) -> Groups
    decreases gs.len(),
{
    if gs.len() == 0 {
        gs
    } else {
        let g = gs.last();
        let kept = live_entries(g.1, now);
        if kept.len() > 0 {
            purged(gs.drop_last(), now).push((g.0, kept))
        } else {
            purged(gs.drop_last(), now)
        }
    }
}

/// Keys are distinct, no group is empty, the entries of a group are
/// distinct, and blobs respect the size bound.
pub open spec fn groups_wf(gs: Groups, max_blob: usize) -> bool {
    &&& forall|i: int, j: int| 0 <= i < j < gs.len() ==> (#[trigger] gs[i]).0 != (#[trigger] gs[j]).0
    &&& forall|i: int| 0 <= i < gs.len() ==> (#[trigger] gs[i]).1.len() > 0
    &&& forall|i: int, a: int, b: int|
        0 <= i < gs.len() && 0 <= a < b < gs[i].1.len() ==> !same_entry(
            (#[trigger] gs[i].1[a]).entry,
            (#[trigger] gs[i].1[b]).entry,
        )
    &&& forall|i: int, a: int|
        0 <= i < gs.len() && 0 <= a < gs[i].1.len() ==> !is_big_blob(
            (#[trigger] gs[i].1[a]).entry,
            max_blob,
        )
}

/// Every stored pair expires no later than `limit`.
pub open spec fn expirations_bounded(gs: Groups, limit: int) -> bool {
    forall|i: int, a: int|
        0 <= i < gs.len() && 0 <= a < gs[i].1.len() ==> (#[trigger] gs[i].1[a]).expiration <= limit
}

/// What a store of `entry` under `key` at `now` leaves, and what it reports.
pub open spec fn store_outcome(
    gs: Groups,
    key: SubotaiHash,
    entry: StorageEntry,
    expiration: i64,
    now: i64,
    cfg: Configuration,
) -> (Groups, StoreResult) {
    let eff = effective_expiration(expiration, now, cfg.base_expiration_time_hrs);
    if is_big_blob(entry, cfg.max_storage_blob_size) {
        (gs, StoreResult::BlobTooBig)
    } else {
        match group_index(gs, key) {
            Some(gi) => match entry_index(gs[gi].1, entry) {
                Some(ei) => {
                    let old = gs[gi].1[ei];
                    let exp = if old.expiration >= eff {
                        old.expiration
                    } else {
                        eff as i64
                    };
                    let updated = ExtendedEntry {
                        entry: old.entry,
                        expiration: exp,
                        republish_ready: false,
                    };
                    (gs.update(gi, (key, gs[gi].1.update(ei, updated))), StoreResult::Success)
                },
                None => if total(gs) >= cfg.max_storage {
                    (gs, StoreResult::StorageFull)
                } else {
                    let added = ExtendedEntry {
                        entry,
                        expiration: eff as i64,
                        republish_ready: false,
                    };
                    (gs.update(gi, (key, gs[gi].1.push(added))), StoreResult::Success)
                },
            },
            None => if total(gs) >= cfg.max_storage {
                (gs, StoreResult::StorageFull)
            } else {
                let added = ExtendedEntry { entry, expiration: eff as i64, republish_ready: false };
                (gs.push((key, seq![added])), StoreResult::Success)
            },
        }
    }
}

/// `r` lists, in order, the entries of the pairs `es`.
pub open spec fn same_values(r: Seq<StorageEntry>, es: Seq<ExtendedEntry>) -> bool {
    r.len() == es.len() && forall|k: int| 0 <= k < r.len() ==> same_entry(#[trigger] r[k], es[k].entry)
}

/// Pairs flagged as ready for republishing.
pub open spec fn ready_entries(es: Seq<ExtendedEntry>) -> Seq<ExtendedEntry>
    decreases es.len(),
{
    if es.len() == 0 {
        es
    } else if es.last().republish_ready {
        ready_entries(es.drop_last()).push(es.last())
    } else {
        ready_entries(es.drop_last())
    }
}

/// Groups restricted to their ready pairs, without the groups left empty.
pub open spec fn ready_groups(gs: Groups) -> Groups
    decreases gs.len(),
{
    if gs.len() == 0 {
        gs
    } else {
        let kept = ready_entries(gs.last().1);
        if kept.len() > 0 {
            ready_groups(gs.drop_last()).push((gs.last().0, kept))
        } else {
            ready_groups(gs.drop_last())
        }
    }
}

/// The same groups, with every pair flagged as ready.
pub open spec fn all_marked_ready(gs: Groups) -> Groups {
    gs.map_values(
        |g: (SubotaiHash, Seq<ExtendedEntry>)|
            (
                g.0,
                g.1.map_values(
                    |e: ExtendedEntry|
                        ExtendedEntry {
                            entry: e.entry,
                            expiration: e.expiration,
                            republish_ready: true,
                        },
                ),
            ),
    )
}

/// The groups whose key is closer to `target` than to `parent`.
pub open spec fn groups_closer_to(gs: Groups, parent: SubotaiHash, target: SubotaiHash) -> Groups
    decreases gs.len(),
{
    if gs.len() == 0 {
        gs
    } else if closer(gs.last().0, target, parent) {
        groups_closer_to(gs.drop_last(), parent, target).push(gs.last())
    } else {
        groups_closer_to(gs.drop_last(), parent, target)
    }
}

/// `r` lists, in order, the entries and expirations of the pairs `es`.
pub open spec fn same_pairs(r: Seq<(StorageEntry, i64)>, es: Seq<ExtendedEntry>) -> bool {
    r.len() == es.len() && forall|k: int|
        0 <= k < r.len() ==> same_entry((#[trigger] r[k]).0, es[k].entry) && r[k].1 == es[k].expiration
}

/// `r` lists, in order, the keys of `gs` with their entries and expirations.
pub open spec fn same_groups(r: Seq<(SubotaiHash, Vec<(StorageEntry, i64)>)>, gs: Groups) -> bool {
    r.len() == gs.len() && forall|i: int|
        0 <= i < r.len() ==> (#[trigger] r[i]).0 == gs[i].0 && same_pairs(r[i].1@, gs[i].1)
}

pub proof fn lemma_total_push(gs: Groups, g: (SubotaiHash, Seq<ExtendedEntry>))
    ensures
        total(gs.push(g)) == total(gs) + g.1.len(),
{
    assert(gs.push(g).drop_last() =~= gs);
}

pub proof fn lemma_total_update(gs: Groups, i: int, g: (SubotaiHash, Seq<ExtendedEntry>))
    requires
        0 <= i < gs.len(),
    ensures
        total(gs.update(i, g)) == total(gs) - gs[i].1.len() + g.1.len(),
    decreases gs.len(),
{
    if i == gs.len() - 1 {
        assert(gs.update(i, g).drop_last() =~= gs.drop_last());
    } else {
        lemma_total_update(gs.drop_last(), i, g);
        assert(gs.update(i, g).drop_last() =~= gs.drop_last().update(i, g));
    }
}

pub proof fn lemma_total_prefix(gs: Groups, j: int)
    requires
        0 <= j <= gs.len(),
    ensures
        total(gs.take(j)) <= total(gs),
    decreases gs.len(),
{
    if j < gs.len() {
        assert(gs.drop_last().take(j) =~= gs.take(j));
        lemma_total_prefix(gs.drop_last(), j);
    } else {
        assert(gs.take(j) =~= gs);
    }
}

/// Position of the last group with this key.
fn find_group(groups: &Vec<KeyGroup>, key: &SubotaiHash) -> (r: Option<usize>)
    ensures
        match r {
            Some(i) => group_index(view_groups(groups@), *key) == Some(i as int),
            None => group_index(view_groups(groups@), *key) is None,
        },
{
    let ghost gs = view_groups(groups@);
    let mut i: usize = groups.len();
    proof {
        assert(gs.take(i as int) =~= gs);
    }
    while i > 0
        invariant
            gs == view_groups(groups@),
            i <= gs.len(),
            group_index(gs, *key) == group_index(gs.take(i as int), *key),
        decreases i,
    {
        proof {
            assert(gs.take(i as int).drop_last() =~= gs.take(i - 1));
            assert(gs.take(i as int).last() == gs[i - 1]);
        }
        if groups[i - 1].key == *key {
            proof {
                lemma_raw_ext(groups@[i - 1].key, *key);
            }
            return Some(i - 1);
        }
        i -= 1;
    }
    None
}

/// Position of the last pair holding an entry equal to `e`.
fn find_entry(entries: &Vec<ExtendedEntry>, e: &StorageEntry) -> (r: Option<usize>)
    ensures
        match r {
            Some(i) => entry_index(entries@, *e) == Some(i as int),
            None => entry_index(entries@, *e) is None,
        },
{
    let ghost es = entries@;
    let mut i: usize = entries.len();
    proof {
        assert(es.take(i as int) =~= es);
    }
    while i > 0
        invariant
            es == entries@,
            i <= es.len(),
            entry_index(es, *e) == entry_index(es.take(i as int), *e),
        decreases i,
    {
        proof {
            assert(es.take(i as int).drop_last() =~= es.take(i - 1));
            assert(es.take(i as int).last() == es[i - 1]);
        }
        if entries[i - 1].entry == *e {
            return Some(i - 1);
        }
        i -= 1;
    }
    None
}

/// Whether the entry is a blob above `max` bytes.
fn big_blob(e: &StorageEntry, max: usize) -> (r: bool)
    ensures
        r == is_big_blob(*e, max),
{
    match e {
        StorageEntry::Blob(v) => v.len() > max,
        StorageEntry::Value(_) => false,
    }
}

impl Storage {
    /// The stored key groups.
    pub closed spec fn groups(&self) -> Groups {
        view_groups(self.key_groups@)
    }

    /// The configuration the storage was built with.
    pub closed spec fn config(&self) -> Configuration {
        self.configuration
    }

    /// The ID of the node that owns the storage.
    pub closed spec fn parent(&self) -> SubotaiHash {
        self.parent_id
    }

    pub open spec fn wf(&self) -> bool {
        &&& groups_wf(self.groups(), self.config().max_storage_blob_size)
        &&& total(self.groups()) <= self.config().max_storage
        &&& self.config().base_expiration_time_hrs >= 0
    }

    /// An empty storage for the node `parent_id`.
    pub fn new(parent_id: SubotaiHash, configuration: Configuration) -> (r: Storage)
        requires
            configuration.base_expiration_time_hrs >= 0,
        ensures
            r.wf(),
            r.groups().len() == 0,
            r.config() == configuration,
            r.parent() == parent_id,
    {
        let r = Storage { key_groups: Vec::new(), parent_id, configuration };
        proof {
            assert(r.groups() =~= Seq::<(SubotaiHash, Seq<ExtendedEntry>)>::empty());
        }
        r
    }

    /// Returns number of entries.
    pub fn len(&self) -> (r: usize)
        requires
            self.wf(),
        ensures
            r == total(self.groups()),
    {
        let ghost gs = self.groups();
        let mut acc: usize = 0;
        let mut i: usize = 0;
        while i < self.key_groups.len()
            invariant
                gs == self.groups(),
                self.wf(),
                i <= gs.len(),
                acc == total(gs.take(i as int)),
            decreases gs.len() - i,
        {
            proof {
                assert(gs.take(i + 1).drop_last() =~= gs.take(i as int));
                lemma_total_prefix(gs, i + 1);
            }
            acc = acc + self.key_groups[i].entries.len();
            i += 1;
        }
        proof {
            assert(gs.take(i as int) =~= gs);
        }
        acc
    }

    pub fn is_empty(&self) -> (r: bool)
        requires
            self.wf(),
        ensures
            r == (total(self.groups()) == 0),
    {
        self.len() == 0
    }

    /// Removes every pair whose expiration is before `now`, and the groups
    /// left empty.
    pub fn clear_expired_entries(&mut self, now: i64)
        requires
            old(self).wf(),
        ensures
            final(self).wf(),
            final(self).config() == old(self).config(),
            final(self).parent() == old(self).parent(),
            final(self).groups() == purged(old(self).groups(), now),
            forall|limit: int|
                expirations_bounded(old(self).groups(), limit) ==> expirations_bounded(
                    final(self).groups(),
                    limit,
                ),
    {
        let ghost gs = self.groups();
        let ghost max_blob = self.configuration.max_storage_blob_size;
        let mut rest: Vec<KeyGroup> = Vec::new();
        std::mem::swap(&mut rest, &mut self.key_groups);
        let mut res: Vec<KeyGroup> = Vec::new();
        let ghost mut j: int = 0;
        let ghost mut gidx: Seq<int> = Seq::empty();
        proof {
            assert(view_groups(rest@) == gs);
            assert(view_groups(res@) =~= purged(gs.take(0), now));
        }
        while rest.len() > 0
            invariant
                groups_wf(gs, max_blob),
                0 <= j <= gs.len(),
                view_groups(rest@) =~= gs.skip(j),
                view_groups(res@) == purged(gs.take(j), now),
                gidx.len() == res@.len(),
                forall|i: int| 0 <= i < res@.len() ==> 0 <= #[trigger] gidx[i] < j && gs[gidx[i]].0 == res@[i].key,
                forall|a: int, b: int| 0 <= a < b < res@.len() ==> #[trigger] gidx[a] < #[trigger] gidx[b],
                forall|i: int| 0 <= i < res@.len() ==> (#[trigger] res@[i]).entries@.len() > 0,
                forall|i: int, a: int, b: int|
                    0 <= i < res@.len() && 0 <= a < b < res@[i].entries@.len() ==> !same_entry(
                        (#[trigger] res@[i].entries@[a]).entry,
                        (#[trigger] res@[i].entries@[b]).entry,
                    ),
                forall|i: int, a: int|
                    0 <= i < res@.len() && 0 <= a < res@[i].entries@.len() ==> gs[gidx[i]].1.contains(
                        #[trigger] res@[i].entries@[a],
                    ),
                total(purged(gs.take(j), now)) <= total(gs.take(j)),
            decreases rest@.len(),
        {
            let ghost r0 = rest@;
            proof {
                assert(view_groups(r0).len() == gs.len() - j);
                assert(view_groups(r0)[0] == gs[j]);
            }
            let g = rest.remove(0);
            let ghost es = g.entries@;
            let ghost key = g.key;
            proof {
                assert(r0[0] == g);
                assert(gs[j] == (key, es));
                assert(rest@ =~= r0.remove(0));
                let m0 = view_groups(r0);
                assert forall|i: int| 0 <= i < rest@.len() implies #[trigger] view_groups(rest@)[i] == gs.skip(j + 1)[i] by {
                    assert(rest@[i] == r0[i + 1]);
                    assert(m0[i + 1] == gs.skip(j)[i + 1]);
                }
                assert(view_groups(rest@) =~= gs.skip(j + 1));
            }
            let mut pending = g.entries;
            let mut kept: Vec<ExtendedEntry> = Vec::new();
            let ghost mut t: int = 0;
            let ghost mut idx: Seq<int> = Seq::empty();
            proof {
                assert(pending@ =~= es.skip(0));
                assert(kept@ =~= live_entries(es.take(0), now));
            }
            while pending.len() > 0
                invariant
                    0 <= t <= es.len(),
                    pending@ =~= es.skip(t),
                    kept@ == live_entries(es.take(t), now),
                    kept@.len() <= t,
                    idx.len() == kept@.len(),
                    forall|a: int| 0 <= a < kept@.len() ==> 0 <= #[trigger] idx[a] < t && es[idx[a]] == kept@[a],
                    forall|a: int, b: int| 0 <= a < b < kept@.len() ==> #[trigger] idx[a] < #[trigger] idx[b],
                    forall|i: int, a: int|
                        0 <= i < res@.len() && 0 <= a < res@[i].entries@.len() ==> gs[gidx[i]].1.contains(
                            #[trigger] res@[i].entries@[a],
                        ),
                decreases pending@.len(),
            {
                let e = pending.remove(0);
                proof {
                    assert(es[t] == e);
                    assert(es.take(t + 1).drop_last() =~= es.take(t));
                    assert(es.take(t + 1).last() == e);
                }
                if e.expiration >= now {
                    kept.push(e);
                    proof {
                        idx = idx.push(t);
                    }
                }
                proof {
                    t = t + 1;
                }
            }
            proof {
                assert(es.take(t) =~= es);
                assert(gs.take(j + 1).drop_last() =~= gs.take(j));
                assert(gs.take(j + 1).last() == gs[j]);
                lemma_total_push(gs.take(j), gs[j]);
            }
            if kept.len() > 0 {
                let ghost r0 = res@;
                let ghost gidx0 = gidx;
                let ng = KeyGroup { key: g.key, entries: kept };
                proof {
                    lemma_total_push(purged(gs.take(j), now), (key, ng.entries@));
                    assert forall|a: int, b: int| 0 <= a < b < ng.entries@.len() implies !same_entry(
                        (#[trigger] ng.entries@[a]).entry,
                        (#[trigger] ng.entries@[b]).entry,
                    ) by {
                        assert(idx[a] < idx[b]);
                        assert(gs[j].1[idx[a]] == ng.entries@[a]);
                        assert(gs[j].1[idx[b]] == ng.entries@[b]);
                    }
                    gidx = gidx.push(j);
                }
                res.push(ng);
                proof {
                    assert(res@[r0.len() as int] == ng);
                    assert forall|i: int| 0 <= i < r0.len() implies #[trigger] res@[i] == r0[i] by {}
                    assert forall|i: int, a: int|
                        0 <= i < res@.len() && 0 <= a < res@[i].entries@.len() implies gs[gidx[i]].1.contains(
                            #[trigger] res@[i].entries@[a],
                        ) by {
                        if i == r0.len() {
                            assert(res@[i].entries@[a] == ng.entries@[a]);
                            assert(gidx[i] == j);
                            assert(gs[j].1[idx[a]] == ng.entries@[a]);
                        } else {
                            assert(res@[i] == r0[i]);
                            assert(gidx[i] == gidx0[i]);
                            assert(gs[gidx0[i]].1.contains(r0[i].entries@[a]));
                        }
                    }
                    assert(view_groups(res@) =~= view_groups(r0).push((key, ng.entries@)));
                }
            }
            proof {
                j = j + 1;
            }
        }
        proof {
            assert(gs.skip(j).len() == 0);
            assert(gs.take(j) =~= gs);
        }
        self.key_groups = res;
        proof {
            let ng = self.groups();
            assert forall|i: int, k: int| 0 <= i < k < ng.len() implies (#[trigger] ng[i]).0 != (#[trigger] ng[k]).0 by {
                assert(gidx[i] < gidx[k]);
            }
            assert forall|i: int, a: int|
                0 <= i < ng.len() && 0 <= a < ng[i].1.len() implies !is_big_blob(
                (#[trigger] ng[i].1[a]).entry,
                max_blob,
            ) && (forall|limit: int| expirations_bounded(gs, limit) ==> ng[i].1[a].expiration <= limit) by {
                assert(ng[i].1[a] == res@[i].entries@[a]);
                assert(gs[gidx[i]].1.contains(res@[i].entries@[a]));
                let n = choose|n: int| 0 <= n < gs[gidx[i]].1.len() && gs[gidx[i]].1[n] == res@[i].entries@[a];
            }
        }
    }

    /// Stores an entry under a key with an expiration date, capped at
    /// `base_expiration_time_hrs` from `now`. When the key already holds an
    /// equal entry, that pair keeps the later of the two expirations and is
    /// marked as not ready for republishing.
    pub fn store(&mut self, key: &SubotaiHash, entry: StorageEntry, expiration: i64, now: i64) -> (r:
        StoreResult)
        requires
            old(self).wf(),
        ensures
            final(self).wf(),
            final(self).config() == old(self).config(),
            final(self).parent() == old(self).parent(),
            (final(self).groups(), r) == store_outcome(
                old(self).groups(),
                *key,
                entry,
                expiration,
                now,
                old(self).config(),
            ),
    {
        let ghost gs = self.groups();
        let ghost cfg = self.configuration;
        if big_blob(&entry, self.configuration.max_storage_blob_size) {
            return StoreResult::BlobTooBig;
        }
        let limit: i128 = now as i128 + (self.configuration.base_expiration_time_hrs as i128) * 3600;
        let eff: i64 = if (expiration as i128) <= limit {
            expiration
        } else {
            limit as i64
        };
        proof {
            assert(eff == effective_expiration(expiration, now, cfg.base_expiration_time_hrs));
        }
        let found = find_group(&self.key_groups, key);
        match found {
            Some(gi) => {
                proof {
                    lemma_group_index(gs, *key);
                }
                let ghost es = gs[gi as int].1;
                match find_entry(&self.key_groups[gi].entries, &entry) {
                    Some(ei) => {
                        proof {
                            lemma_entry_index(es, entry);
                        }
                        let ghost r0 = self.key_groups@;
                        let old_exp = self.key_groups[gi].entries[ei].expiration;
                        let exp = if old_exp >= eff {
                            old_exp
                        } else {
                            eff
                        };
                        self.key_groups[gi].entries[ei].expiration = exp;
                        self.key_groups[gi].entries[ei].republish_ready = false;
                        proof {
                            let ng = self.groups();
                            let upd = ExtendedEntry {
                                entry: es[ei as int].entry,
                                expiration: exp,
                                republish_ready: false,
                            };
                            assert(self.key_groups@[gi as int].entries@ =~= es.update(ei as int, upd));
                            assert(ng =~= gs.update(gi as int, (*key, es.update(ei as int, upd))));
                            lemma_total_update(gs, gi as int, (*key, es.update(ei as int, upd)));
                            assert forall|i: int, a: int, b: int|
                                0 <= i < ng.len() && 0 <= a < b < ng[i].1.len() implies !same_entry(
                                (#[trigger] ng[i].1[a]).entry,
                                (#[trigger] ng[i].1[b]).entry,
                            ) by {
                                assert(ng[i].1[a].entry == gs[i].1[a].entry);
                                assert(ng[i].1[b].entry == gs[i].1[b].entry);
                            }
                            assert forall|i: int, a: int|
                                0 <= i < ng.len() && 0 <= a < ng[i].1.len() implies !is_big_blob(
                                (#[trigger] ng[i].1[a]).entry,
                                cfg.max_storage_blob_size,
                            ) by {
                                assert(ng[i].1[a].entry == gs[i].1[a].entry);
                            }
                        }
                        StoreResult::Success
                    },
                    None => {
                        proof {
                            lemma_entry_index(es, entry);
                        }
                        let count = self.len();
                        if count >= self.configuration.max_storage {
                            return StoreResult::StorageFull;
                        }
                        let added = ExtendedEntry { entry, expiration: eff, republish_ready: false };
                        let ghost ga = added;
                        self.key_groups[gi].entries.push(added);
                        proof {
                            let ng = self.groups();
                            assert(ng =~= gs.update(gi as int, (*key, es.push(ga))));
                            lemma_total_update(gs, gi as int, (*key, es.push(ga)));
                            assert forall|i: int, a: int, b: int|
                                0 <= i < ng.len() && 0 <= a < b < ng[i].1.len() implies !same_entry(
                                (#[trigger] ng[i].1[a]).entry,
                                (#[trigger] ng[i].1[b]).entry,
                            ) by {
                                if i == gi && b == es.len() {
                                    assert(ng[i].1[a] == es[a]);
                                    if same_entry(es[a].entry, ga.entry) {
                                    }
                                } else {
                                    assert(ng[i].1[a] == gs[i].1[a]);
                                    assert(ng[i].1[b] == gs[i].1[b]);
                                }
                            }
                            assert forall|i: int, a: int|
                                0 <= i < ng.len() && 0 <= a < ng[i].1.len() implies !is_big_blob(
                                (#[trigger] ng[i].1[a]).entry,
                                cfg.max_storage_blob_size,
                            ) by {
                                if !(i == gi && a == es.len()) {
                                    assert(ng[i].1[a] == gs[i].1[a]);
                                }
                            }
                        }
                        StoreResult::Success
                    },
                }
            },
            None => {
                proof {
                    lemma_group_index(gs, *key);
                }
                let count = self.len();
                if count >= self.configuration.max_storage {
                    return StoreResult::StorageFull;
                }
                let added = ExtendedEntry { entry, expiration: eff, republish_ready: false };
                let ghost ga = added;
                let mut entries: Vec<ExtendedEntry> = Vec::new();
                entries.push(added);
                self.key_groups.push(KeyGroup { key: *key, entries });
                proof {
                    let ng = self.groups();
                    assert(ng =~= gs.push((*key, seq![ga])));
                    lemma_total_push(gs, (*key, seq![ga]));
                    assert forall|i: int, k: int| 0 <= i < k < ng.len() implies (#[trigger] ng[i]).0 != (
                    #[trigger] ng[k]).0 by {
                        if k == gs.len() {
                            assert(ng[i] == gs[i]);
                        } else {
                            assert(ng[i] == gs[i] && ng[k] == gs[k]);
                        }
                    }
                    assert forall|i: int, a: int, b: int|
                        0 <= i < ng.len() && 0 <= a < b < ng[i].1.len() implies !same_entry(
                        (#[trigger] ng[i].1[a]).entry,
                        (#[trigger] ng[i].1[b]).entry,
                    ) by {
                        assert(i < gs.len());
                        assert(ng[i] == gs[i]);
                    }
                    assert forall|i: int, a: int|
                        0 <= i < ng.len() && 0 <= a < ng[i].1.len() implies !is_big_blob(
                        (#[trigger] ng[i].1[a]).entry,
                        cfg.max_storage_blob_size,
                    ) by {
                        if i < gs.len() {
                            assert(ng[i] == gs[i]);
                        }
                    }
                    assert forall|i: int| 0 <= i < ng.len() implies (#[trigger] ng[i]).1.len() > 0 by {
                        if i < gs.len() {
                            assert(ng[i] == gs[i]);
                        }
                    }
                }
                StoreResult::Success
            },
        }
    }

    /// Retrieves all entries stored under a key, after purging the expired
    /// ones; `None` when the key holds nothing.
    pub fn retrieve(&mut self, key: &SubotaiHash, now: i64) -> (r: Option<Vec<StorageEntry>>)
        requires
            old(self).wf(),
        ensures
            final(self).wf(),
            final(self).config() == old(self).config(),
            final(self).parent() == old(self).parent(),
            final(self).groups() == purged(old(self).groups(), now),
            forall|limit: int|
                expirations_bounded(old(self).groups(), limit) ==> expirations_bounded(
                    final(self).groups(),
                    limit,
                ),
            match r {
                Some(v) => group_index(final(self).groups(), *key) is Some && same_values(
                    v@,
                    final(self).groups()[group_index(final(self).groups(), *key)->Some_0].1,
                ),
                None => group_index(final(self).groups(), *key) is None,
            },
    {
        self.clear_expired_entries(now);
        match find_group(&self.key_groups, key) {
            Some(gi) => {
                proof {
                    lemma_group_index(self.groups(), *key);
                }
                let ghost es = self.groups()[gi as int].1;
                let mut v: Vec<StorageEntry> = Vec::new();
                let mut k: usize = 0;
                while k < self.key_groups[gi].entries.len()
                    invariant
                        gi < self.key_groups@.len(),
                        es == self.key_groups@[gi as int].entries@,
                        k <= es.len(),
                        v@.len() == k,
                        forall|q: int| 0 <= q < k ==> same_entry(#[trigger] v@[q], es[q].entry),
                    decreases es.len() - k,
                {
                    v.push(self.key_groups[gi].entries[k].entry.duplicate());
                    k += 1;
                }
                Some(v)
            },
            None => None,
        }
    }

    /// Marks all entries as ready for republishing.
    pub fn mark_all_as_ready(&mut self)
        requires
            old(self).wf(),
        ensures
            final(self).wf(),
            final(self).config() == old(self).config(),
            final(self).parent() == old(self).parent(),
            final(self).groups() == all_marked_ready(old(self).groups()),
    {
        let ghost gs = self.groups();
        let mut i: usize = 0;
        while i < self.key_groups.len()
            invariant
                self.configuration == old(self).configuration,
                self.parent_id == old(self).parent_id,
                gs == old(self).groups(),
                self.key_groups@.len() == gs.len(),
                i <= gs.len(),
                forall|q: int| 0 <= q < i ==> #[trigger] self.groups()[q] == all_marked_ready(gs)[q],
                forall|q: int| i <= q < gs.len() ==> #[trigger] self.groups()[q] == gs[q],
            decreases gs.len() - i,
        {
            let mut k: usize = 0;
            let ghost es = gs[i as int].1;
            proof {
                assert(self.groups()[i as int] == gs[i as int]);
            }
            while k < self.key_groups[i].entries.len()
                invariant
                    self.configuration == old(self).configuration,
                    self.parent_id == old(self).parent_id,
                    self.key_groups@.len() == gs.len(),
                    i < gs.len(),
                    es == gs[i as int].1,
                    self.key_groups@[i as int].key == gs[i as int].0,
                    self.key_groups@[i as int].entries@.len() == es.len(),
                    k <= es.len(),
                    forall|a: int|
                        0 <= a < k ==> #[trigger] self.key_groups@[i as int].entries@[a] == (ExtendedEntry {
                            entry: es[a].entry,
                            expiration: es[a].expiration,
                            republish_ready: true,
                        }),
                    forall|a: int|
                        k <= a < es.len() ==> #[trigger] self.key_groups@[i as int].entries@[a] == es[a],
                    forall|q: int| 0 <= q < i ==> #[trigger] self.groups()[q] == all_marked_ready(gs)[q],
                    forall|q: int| i < q < gs.len() ==> #[trigger] self.groups()[q] == gs[q],
                decreases es.len() - k,
            {
                let ghost before = self.key_groups@;
                let ghost before_self = *self;
                self.key_groups[i].entries[k].republish_ready = true;
                proof {
                    assert forall|q: int| 0 <= q < gs.len() && q != i implies #[trigger] self.key_groups@[q]
                        == before[q] by {}
                    assert forall|q: int| 0 <= q < i implies #[trigger] self.groups()[q] == all_marked_ready(gs)[q] by {
                        assert(self.key_groups@[q] == before[q]);
                        assert(before_self.groups()[q] == self.groups()[q]);
                    }
                    assert forall|q: int| i < q < gs.len() implies #[trigger] self.groups()[q] == gs[q] by {
                        assert(self.key_groups@[q] == before[q]);
                        assert(before_self.groups()[q] == self.groups()[q]);
                    }
                }
                k += 1;
            }
            proof {
                assert(self.groups()[i as int].1 =~= all_marked_ready(gs)[i as int].1);
            }
            i += 1;
        }
        proof {
            assert(self.groups() =~= all_marked_ready(gs));
            let ng = self.groups();
            assert forall|q: int, a: int| 0 <= q < ng.len() && 0 <= a < ng[q].1.len() implies (#[trigger] ng[q].1[a]).entry
                == gs[q].1[a].entry by {}
            assert(total(ng) == total(gs)) by {
                lemma_total_same_shape(ng, gs);
            }
        }
    }

    /// Retrieves, after purging the expired entries, all keys with the
    /// entries ready for republishing and their expirations.
    pub fn get_all_ready_entries(&mut self, now: i64) -> (r: Vec<(SubotaiHash, Vec<(StorageEntry, i64)>)>)
        requires
            old(self).wf(),
        ensures
            final(self).wf(),
            final(self).config() == old(self).config(),
            final(self).parent() == old(self).parent(),
            final(self).groups() == purged(old(self).groups(), now),
            same_groups(r@, ready_groups(final(self).groups())),
    {
        self.clear_expired_entries(now);
        let ghost gs = self.groups();
        let mut r: Vec<(SubotaiHash, Vec<(StorageEntry, i64)>)> = Vec::new();
        let mut i: usize = 0;
        proof {
            assert(gs.take(0) =~= Seq::<(SubotaiHash, Seq<ExtendedEntry>)>::empty());
        }
        while i < self.key_groups.len()
            invariant
                gs == self.groups(),
                i <= gs.len(),
                same_groups(r@, ready_groups(gs.take(i as int))),
            decreases gs.len() - i,
        {
            let ghost es = gs[i as int].1;
            let mut pairs: Vec<(StorageEntry, i64)> = Vec::new();
            let mut k: usize = 0;
            proof {
                assert(es.take(0) =~= Seq::<ExtendedEntry>::empty());
            }
            while k < self.key_groups[i].entries.len()
                invariant
                    gs == self.groups(),
                    i < gs.len(),
                    es == gs[i as int].1,
                    k <= es.len(),
                    same_pairs(pairs@, ready_entries(es.take(k as int))),
                decreases es.len() - k,
            {
                proof {
                    assert(es.take(k + 1).drop_last() =~= es.take(k as int));
                    assert(es.take(k + 1).last() == es[k as int]);
                }
                if self.key_groups[i].entries[k].republish_ready {
                    let e = self.key_groups[i].entries[k].entry.duplicate();
                    let x = self.key_groups[i].entries[k].expiration;
                    let ghost p0 = pairs@;
                    pairs.push((e, x));
                    proof {
                        let re = ready_entries(es.take(k + 1));
                        assert(re == ready_entries(es.take(k as int)).push(es[k as int]));
                        assert forall|q: int| 0 <= q < pairs@.len() implies same_entry((#[trigger] pairs@[q]).0, re[q].entry)
                            && pairs@[q].1 == re[q].expiration by {
                            if q < p0.len() {
                                assert(pairs@[q] == p0[q]);
                            }
                        }
                    }
                }
                k += 1;
            }
            proof {
                assert(es.take(es.len() as int) =~= es);
                assert(gs.take(i + 1).drop_last() =~= gs.take(i as int));
                assert(gs.take(i + 1).last() == gs[i as int]);
            }
            if pairs.len() > 0 {
                let ghost r0 = r@;
                r.push((self.key_groups[i].key, pairs));
                proof {
                    let rg = ready_groups(gs.take(i + 1));
                    assert forall|q: int| 0 <= q < r@.len() implies (#[trigger] r@[q]).0 == rg[q].0 && same_pairs(
                        r@[q].1@,
                        rg[q].1,
                    ) by {
                        if q < r0.len() {
                            assert(r@[q] == r0[q]);
                        }
                    }
                }
            }
            i += 1;
        }
        proof {
            assert(gs.take(i as int) =~= gs);
        }
        r
    }

    /// All keys, with their entries and expirations, that are closer to
    /// `target` than to this node: what to hand over to a new node there.
    pub fn get_entries_closer_to(&self, target: &SubotaiHash) -> (r: Vec<(SubotaiHash, Vec<(StorageEntry, i64)>)>)
        requires
            self.wf(),
        ensures
            same_groups(r@, groups_closer_to(self.groups(), self.parent(), *target)),
    {
        let ghost gs = self.groups();
        let mut r: Vec<(SubotaiHash, Vec<(StorageEntry, i64)>)> = Vec::new();
        let mut i: usize = 0;
        proof {
            assert(gs.take(0) =~= Seq::<(SubotaiHash, Seq<ExtendedEntry>)>::empty());
        }
        while i < self.key_groups.len()
            invariant
                gs == self.groups(),
                i <= gs.len(),
                same_groups(r@, groups_closer_to(gs.take(i as int), self.parent(), *target)),
            decreases gs.len() - i,
        {
            proof {
                assert(gs.take(i + 1).drop_last() =~= gs.take(i as int));
                assert(gs.take(i + 1).last() == gs[i as int]);
            }
            let key = self.key_groups[i].key;
            if crate::routing::is_closer(&key, target, &self.parent_id) {
                let ghost es = gs[i as int].1;
                let mut pairs: Vec<(StorageEntry, i64)> = Vec::new();
                let mut k: usize = 0;
                while k < self.key_groups[i].entries.len()
                    invariant
                        gs == self.groups(),
                        i < gs.len(),
                        es == gs[i as int].1,
                        k <= es.len(),
                        same_pairs(pairs@, es.take(k as int)),
                    decreases es.len() - k,
                {
                    let e = self.key_groups[i].entries[k].entry.duplicate();
                    let x = self.key_groups[i].entries[k].expiration;
                    let ghost p0 = pairs@;
                    pairs.push((e, x));
                    proof {
                        assert forall|q: int| 0 <= q < pairs@.len() implies same_entry((#[trigger] pairs@[q]).0, es.take(k + 1)[q].entry)
                            && pairs@[q].1 == es.take(k + 1)[q].expiration by {
                            if q < p0.len() {
                                assert(pairs@[q] == p0[q]);
                            }
                        }
                    }
                    k += 1;
                }
                proof {
                    assert(es.take(es.len() as int) =~= es);
                }
                let ghost r0 = r@;
                r.push((key, pairs));
                proof {
                    let rg = groups_closer_to(gs.take(i + 1), self.parent(), *target);
                    assert forall|q: int| 0 <= q < r@.len() implies (#[trigger] r@[q]).0 == rg[q].0 && same_pairs(
                        r@[q].1@,
                        rg[q].1,
                    ) by {
                        if q < r0.len() {
                            assert(r@[q] == r0[q]);
                        }
                    }
                }
            }
            i += 1;
        }
        proof {
            assert(gs.take(i as int) =~= gs);
        }
        r
    }
}

} // verus!
