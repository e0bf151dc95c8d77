//! The versioned state-storage store: for every key, a history of values
//! ordered by version, with `None` encoding a tombstone. A lookup at version
//! `v` resolves to the entry with the greatest version at most `v`; a range
//! scan yields, in ascending key order, every key whose resolved value at
//! `v` is present and within bounds.

use vstd::prelude::*;
use crate::assoc::{assoc_get, unique_keys, lemma_assoc_get_at, lemma_assoc_get_insert,
    lemma_assoc_get_none, lemma_assoc_get_update};
use crate::batch::Batch;
use crate::batch::Op;
use crate::bytes::{clone_bytes, clone_opt_bytes, eq_bytes, lemma_lex_lt_transitive,
    lemma_lex_lt_trichotomy, lex_lt, lt_bytes};

verus! {

/// One key's history: (version, optional value) records, versions strictly
/// increasing.
struct Item {
    key: Vec<u8>,
    entries: Vec<(u64, Option<Vec<u8>>)>,
}

/// The history of one key, at the specification level.
pub type Hist = Seq<(u64, Option<Seq<u8>>)>;

/// The whole store at the specification level: keys with their histories,
/// in ascending key order.
pub type MapView = Seq<(Seq<u8>, Hist)>;

impl Item {
    spec fn hist_view(&self) -> Hist {
        self.entries@.map_values(|e: (u64, Option<Vec<u8>>)| (e.0, e.1.deep_view()))
    }

    spec fn item_view(&self) -> (Seq<u8>, Hist) {
        (self.key@, self.hist_view())
    }
}

/// Versions within a history are strictly increasing.
pub open spec fn hist_increasing(h: Hist) -> bool {
    forall|p: int, q: int| #![trigger h[p], h[q]] 0 <= p < q < h.len() ==> h[p].0 < h[q].0
}

/// Every version in the history is below the bound.
pub open spec fn hist_lt(h: Hist, bound: int) -> bool {
    forall|p: int| 0 <= p < h.len() ==> #[trigger] h[p].0 < bound
}

/// Every version anywhere in the store is below the bound.
pub open spec fn versions_lt(m: MapView, bound: int) -> bool {
    forall|i: int, p: int|
        #![trigger m[i].1[p]]
        0 <= i < m.len() && 0 <= p < m[i].1.len() ==> m[i].1[p].0 < bound
}

/// Keys appear in strictly ascending lexicographic order.
pub open spec fn sorted_keys(m: MapView) -> bool {
    forall|i: int, j: int|
        #![trigger m[i].0, m[j].0]
        0 <= i < j < m.len() ==> lex_lt(m[i].0, m[j].0)
}

/// Strictly ascending keys are pairwise distinct.
pub proof fn lemma_sorted_unique(m: MapView)
    requires
        sorted_keys(m),
    ensures
        unique_keys(m),
{
    assert forall|i: int, j: int|
        #![trigger m[i].0, m[j].0]
        0 <= i < j < m.len() implies m[i].0 != m[j].0 by {
        lemma_lex_lt_trichotomy(m[i].0, m[j].0);
    }
}

/// The history recorded for `k`, or the empty history if none is.
pub open spec fn hist_or_empty(m: MapView, k: Seq<u8>) -> Hist {
    match assoc_get(m, k) {
        Some(h) => h,
        None => Seq::empty(),
    }
}

/// The record a lookup at version `v` resolves to: the entry with the
/// greatest version at most `v`, if any.
pub open spec fn hist_at(h: Hist, v: u64) -> Option<Option<Seq<u8>>>
    decreases h.len(),
{
    if h.len() == 0 {
        None
    } else if h.last().0 <= v {
        Some(h.last().1)
    } else {
        hist_at(h.drop_last(), v)
    }
}

/// The value visible for key `k` at version `v`: absent if the key has no
/// history, no entry is old enough, or the resolved entry is a tombstone.
pub open spec fn visible(m: MapView, k: Seq<u8>, v: u64) -> Option<Seq<u8>> {
    match assoc_get(m, k) {
        Some(h) => match hist_at(h, v) {
            Some(Some(val)) => Some(val),
            _ => None,
        },
        None => None,
    }
}

/// The view of an optional borrowed key.
pub open spec fn opt_key_view(o: Option<&Vec<u8>>) -> Option<Seq<u8>> {
    match o {
        Some(v) => Some(v@),
        None => None,
    }
}

/// Whether `k` lies within `[min, max)`; an absent bound is no bound.
pub open spec fn in_range(k: Seq<u8>, min: Option<Seq<u8>>, max: Option<Seq<u8>>) -> bool {
    &&& match min {
        Some(lo) => !lex_lt(k, lo),
        None => true,
    }
    &&& match max {
        Some(hi) => lex_lt(k, hi),
        None => true,
    }
}

/// The records a scan of `m` at version `v` over `[min, max)` yields, in
/// the store's own (ascending) key order.
pub open spec fn scan_spec(m: MapView, min: Option<Seq<u8>>, max: Option<Seq<u8>>, v: u64) -> Seq<
    (Seq<u8>, Seq<u8>),
>
    decreases m.len(),
{
    if m.len() == 0 {
        Seq::empty()
    } else {
        let rest = scan_spec(m.drop_last(), min, max, v);
        if in_range(m.last().0, min, max) {
            match hist_at(m.last().1, v) {
                Some(Some(val)) => rest.push((m.last().0, val)),
                _ => rest,
            }
        } else {
            rest
        }
    }
}

/// A per-key history store: key to version-ordered (version, value) records.
pub struct VersionedMap {
    items: Vec<Item>,
}

impl View for VersionedMap {
    type V = MapView;

    closed spec fn view(&self) -> MapView {
        self.items@.map_values(|it: Item| it.item_view())
    }
}

impl VersionedMap {
    /// Keys strictly ascending; versions within each history strictly
    /// increasing.
    pub open spec fn wf(&self) -> bool {
        &&& sorted_keys(self@)
        &&& forall|i: int| 0 <= i < self@.len() ==> hist_increasing(#[trigger] self@[i].1)
    }

    /// An empty store.
    pub fn new() -> (r: Self)
        ensures
            r.wf(),
            r@ == Seq::<(Seq<u8>, Hist)>::empty(),
    {
        let r = Self { items: Vec::new() };
        proof {
            assert(r@ =~= Seq::<(Seq<u8>, Hist)>::empty());
        }
        r
    }

    /// Resolve a history at a version: the record with the greatest version
    /// at most `version`, freshly copied.
    fn resolve_hist(entries: &Vec<(u64, Option<Vec<u8>>)>, version: u64) -> (r: Option<
        Option<Vec<u8>>,
    >)
        ensures
            r.deep_view() == hist_at(
                entries@.map_values(|e: (u64, Option<Vec<u8>>)| (e.0, e.1.deep_view())),
                version,
            ),
    {
        let ghost h = entries@.map_values(|e: (u64, Option<Vec<u8>>)| (e.0, e.1.deep_view()));
        let mut i: usize = entries.len();
        proof {
            assert(h.take(i as int) =~= h);
        }
        while i > 0
            invariant
                i <= entries.len(),
                h == entries@.map_values(|e: (u64, Option<Vec<u8>>)| (e.0, e.1.deep_view())),
                h.len() == entries@.len(),
                hist_at(h, version) == hist_at(h.take(i as int), version),
            decreases i,
        {
            let e = &entries[i - 1];
            proof {
                assert(h.take(i as int).last() == h[i - 1]);
                assert(h.take(i as int).drop_last() =~= h.take(i - 1));
            }
            if e.0 <= version {
                return Some(clone_opt_bytes(&e.1));
            }
            i -= 1;
        }
        proof {
            assert(h.take(0) =~= Seq::<(u64, Option<Seq<u8>>)>::empty());
        }
        None
    }

    /// Point lookup: the value visible for `key` at `version`, copied.
    pub fn get(&self, key: &Vec<u8>, version: u64) -> (r: Option<Vec<u8>>)
        requires
            self.wf(),
        ensures
            r.deep_view() == visible(self@, key@, version),
    {
        proof {
            lemma_sorted_unique(self@);
        }
        let mut i: usize = 0;
        while i < self.items.len()
            invariant
                self.wf(),
                i <= self.items.len(),
                self@.len() == self.items@.len(),
                forall|j: int| 0 <= j < i ==> self@[j].0 != key@,
            decreases self.items.len() - i,
        {
            if eq_bytes(&self.items[i].key, key) {
                proof {
                    lemma_sorted_unique(self@);
                    lemma_assoc_get_at(self@, i as int);
                }
                let resolved = Self::resolve_hist(&self.items[i].entries, version);
                return match resolved {
                    Some(Some(v)) => Some(v),
                    _ => None,
                };
            }
            i += 1;
        }
        proof {
            lemma_assoc_get_none(self@, key@);
        }
        None
    }

    /// Append one record to one key's history, creating the key in sorted
    /// position if it is new.
    fn write(&mut self, key: Vec<u8>, value: Option<Vec<u8>>, version: u64)
        requires
            old(self).wf(),
            hist_lt(hist_or_empty(old(self)@, key@), version as int),
        ensures
            final(self).wf(),
            assoc_get(final(self)@, key@) == Some(
                hist_or_empty(old(self)@, key@).push((version, value.deep_view())),
            ),
            forall|k2: Seq<u8>|
                k2 != key@ ==> #[trigger] assoc_get(final(self)@, k2) == assoc_get(
                    old(self)@,
                    k2,
                ),
            versions_lt(old(self)@, version as int + 1) ==> versions_lt(
                final(self)@,
                version as int + 1,
            ),
    {
        let ghost pre = self@;
        let ghost gkey = key@;
        let ghost gval = value.deep_view();
        proof {
            lemma_sorted_unique(pre);
        }
        let mut i: usize = 0;
        while i < self.items.len() && lt_bytes(&self.items[i].key, &key)
            invariant
                pre == old(self)@,
                self@ == pre,
                self.wf(),
                gkey == key@,
                i <= self.items.len(),
                self@.len() == self.items@.len(),
                forall|j: int| 0 <= j < i ==> lex_lt(self@[j].0, gkey),
            decreases self.items.len() - i,
        {
            i += 1;
        }
        if i < self.items.len() && eq_bytes(&self.items[i].key, &key) {
            // The key already has a history: append to it.
            proof {
                assert(pre[i as int].0 == gkey);
                lemma_assoc_get_at(pre, i as int);
            }
            let mut it = self.items.remove(i);
            it.entries.push((version, value));
            proof {
                assert(it.hist_view() =~= pre[i as int].1.push((version, gval)));
            }
            self.items.insert(i, it);
            proof {
                let post = pre.update(i as int, (gkey, pre[i as int].1.push((version, gval))));
                assert(self@ =~= post);
                assert forall|k2: Seq<u8>|
                    #[trigger] assoc_get(post, k2) == if k2 == gkey {
                        Some(pre[i as int].1.push((version, gval)))
                    } else {
                        assoc_get(pre, k2)
                    } by {
                    lemma_assoc_get_update(pre, i as int, pre[i as int].1.push((version, gval)), k2);
                }
                assert(sorted_keys(post)) by {
                    assert(forall|p: int| 0 <= p < post.len() ==> post[p].0 == pre[p].0);
                }
                assert(hist_or_empty(pre, gkey) == pre[i as int].1);
                let oh = pre[i as int].1;
                let nh = oh.push((version, gval));
                assert(forall|p: int| 0 <= p < oh.len() ==> #[trigger] oh[p].0 < version);
                assert forall|i2: int| 0 <= i2 < post.len() implies hist_increasing(
                    #[trigger] post[i2].1,
                ) by {
                    if i2 == i {
                        assert(forall|p: int| 0 <= p < nh.len() - 1 ==> nh[p] == oh[p]);
                        assert(nh[nh.len() - 1].0 == version);
                    } else {
                        assert(post[i2].1 == pre[i2].1);
                    }
                }
                if versions_lt(pre, version as int + 1) {
                    assert forall|i2: int, p: int|
                        0 <= i2 < post.len() && 0 <= p < post[i2].1.len() implies #[trigger] post[i2].1[p].0
                        < version as int + 1 by {
                        if i2 == i {
                            if p < oh.len() {
                                assert(post[i2].1[p] == oh[p]);
                            } else {
                                assert(post[i2].1[p].0 == version);
                            }
                        } else {
                            assert(post[i2].1 == pre[i2].1);
                        }
                    }
                }
            }
        } else {
            // The key is new: insert it in sorted position.
            proof {
                if i < self.items.len() {
                    lemma_lex_lt_trichotomy(pre[i as int].0, gkey);
                }
                assert forall|j: int| 0 <= j < pre.len() implies pre[j].0 != gkey by {
                    if j < i {
                        lemma_lex_lt_trichotomy(pre[j].0, gkey);
                    } else if j == i {
                    } else {
                        lemma_lex_lt_transitive(gkey, pre[i as int].0, pre[j].0);
                        lemma_lex_lt_trichotomy(pre[j].0, gkey);
                    }
                }
                lemma_assoc_get_none(pre, gkey);
            }
            let it = Item { key, entries: vec![(version, value)] };
            proof {
                assert(it.hist_view() =~= seq![(version, gval)]);
            }
            self.items.insert(i, it);
            proof {
                let hist0 = seq![(version, gval)];
                let post = pre.insert(i as int, (gkey, hist0));
                assert(self@ =~= post);
                assert forall|k2: Seq<u8>|
                    #[trigger] assoc_get(post, k2) == if k2 == gkey {
                        Some(hist0)
                    } else {
                        assoc_get(pre, k2)
                    } by {
                    lemma_assoc_get_insert(pre, i as int, gkey, hist0, k2);
                }
                assert(sorted_keys(post)) by {
                    assert(forall|p: int|
                        0 <= p < post.len() ==> post[p] == (if p < i {
                            pre[p]
                        } else if p == i {
                            (gkey, hist0)
                        } else {
                            pre[p - 1]
                        }));
                    assert forall|p: int, q: int|
                        0 <= p < q < post.len() implies lex_lt(post[p].0, post[q].0) by {
                        if p == i && q > i + 1 {
                            lemma_lex_lt_transitive(gkey, pre[i as int].0, pre[q - 1].0);
                        }
                    }
                }
                assert(hist_or_empty(pre, gkey) =~= Seq::<(u64, Option<Seq<u8>>)>::empty());
                assert(hist_or_empty(pre, gkey).push((version, gval)) =~= hist0);
                assert forall|i2: int| 0 <= i2 < post.len() implies hist_increasing(
                    #[trigger] post[i2].1,
                ) by {
                    if i2 < i {
                        assert(post[i2].1 == pre[i2].1);
                    } else if i2 > i {
                        assert(post[i2].1 == pre[i2 - 1].1);
                    }
                }
                if versions_lt(pre, version as int + 1) {
                    assert forall|i2: int, p: int|
                        0 <= i2 < post.len() && 0 <= p < post[i2].1.len() implies #[trigger] post[i2].1[p].0
                        < version as int + 1 by {
                        if i2 < i {
                            assert(post[i2].1 == pre[i2].1);
                        } else if i2 > i {
                            assert(post[i2].1 == pre[i2 - 1].1);
                        } else {
                            assert(post[i2].1[p].0 == version);
                        }
                    }
                }
            }
        }
    }

    /// Apply a whole batch at one version: every entry appends one record to
    /// its key's history, all records carrying the same version.
    pub fn write_batch(&mut self, batch: &Batch, version: u64)
        requires
            old(self).wf(),
            batch.wf(),
            versions_lt(old(self)@, version as int),
        ensures
            final(self).wf(),
            forall|k: Seq<u8>|
                #[trigger] assoc_get(final(self)@, k) == match assoc_get(batch@, k) {
                    Some(v) => Some(hist_or_empty(old(self)@, k).push((version, v))),
                    None => assoc_get(old(self)@, k),
                },
            versions_lt(final(self)@, version as int + 1),
    {
        let ghost pre = self@;
        let ghost b = batch@;
        proof {
            crate::assoc::lemma_unique_take(b, 0);
            assert(b.take(0) =~= Seq::<(Seq<u8>, Option<Seq<u8>>)>::empty());
            assert(versions_lt(pre, version as int + 1));
        }
        let n = batch.len();
        let mut i: usize = 0;
        while i < n
            invariant
                pre == old(self)@,
                b == batch@,
                batch.wf(),
                versions_lt(pre, version as int),
                n == b.len(),
                i <= n,
                self.wf(),
                forall|k: Seq<u8>|
                    #[trigger] assoc_get(self@, k) == match assoc_get(b.take(i as int), k) {
                        Some(v) => Some(hist_or_empty(pre, k).push((version, v))),
                        None => assoc_get(pre, k),
                    },
                versions_lt(self@, version as int + 1),
            decreases n - i,
        {
            let entry = batch.entry_at(i);
            let key = clone_bytes(&entry.0);
            let value = match &entry.1 {
                Op::Insert(v) => Some(clone_bytes(v)),
                Op::Delete => None,
            };
            proof {
                // The key at position i is untouched so far: its history is
                // still the one from before the loop, whose versions are low
                // enough for the coming write.
                crate::assoc::lemma_unique_take(b, i as int);
                lemma_assoc_get_none(b.take(i as int), b[i as int].0);
                assert(forall|j: int| 0 <= j < i ==> b.take(i as int)[j] == b[j]);
                assert(assoc_get(b.take(i as int), b[i as int].0) is None);
                assert(assoc_get(self@, key@) == assoc_get(pre, key@));
                crate::assoc::lemma_assoc_get_some_index(pre, key@);
                if assoc_get(pre, key@) is Some {
                    let idx = choose|idx: int|
                        0 <= idx < pre.len() && pre[idx] == (key@, assoc_get(pre, key@).unwrap());
                    assert(forall|p: int|
                        0 <= p < pre[idx].1.len() ==> #[trigger] pre[idx].1[p].0 < version);
                }
                assert(hist_lt(hist_or_empty(self@, key@), version as int));
            }
            let ghost mid = self@;
            self.write(key, value, version);
            proof {
                assert forall|k: Seq<u8>|
                    #[trigger] assoc_get(self@, k) == match assoc_get(b.take(i + 1), k) {
                        Some(v) => Some(hist_or_empty(pre, k).push((version, v))),
                        None => assoc_get(pre, k),
                    } by {
                    crate::assoc::lemma_assoc_get_take_step(b, i as int, k);
                    if k == b[i as int].0 {
                        assert(hist_or_empty(mid, k) == hist_or_empty(pre, k));
                        assert(b[i as int].1 == value.deep_view());
                    }
                }
            }
            i += 1;
        }
        proof {
            assert(b.take(n as int) =~= b);
        }
    }

    /// Range scan: all records visible at `version` with keys in
    /// `[min, max)`, in ascending key order, freshly copied.
    pub fn range(&self, min: Option<&Vec<u8>>, max: Option<&Vec<u8>>, version: u64) -> (r: Vec<
        (Vec<u8>, Vec<u8>),
    >)
        requires
            self.wf(),
        ensures
            r.deep_view() == scan_spec(self@, opt_key_view(min), opt_key_view(max), version),
    {
        let ghost m = self@;
        let ghost gmin = opt_key_view(min);
        let ghost gmax = opt_key_view(max);
        let mut r: Vec<(Vec<u8>, Vec<u8>)> = Vec::new();
        proof {
            assert(m.take(0) =~= Seq::<(Seq<u8>, Hist)>::empty());
            assert(r.deep_view() =~= scan_spec(m.take(0), gmin, gmax, version));
        }
        let mut i: usize = 0;
        while i < self.items.len()
            invariant
                m == self@,
                self.wf(),
                gmin == opt_key_view(min),
                gmax == opt_key_view(max),
                i <= self.items.len(),
                m.len() == self.items@.len(),
                r.deep_view() == scan_spec(m.take(i as int), gmin, gmax, version),
            decreases self.items.len() - i,
        {
            let it = &self.items[i];
            let lo_ok = match min {
                Some(lo) => !lt_bytes(&it.key, lo),
                None => true,
            };
            let hi_ok = match max {
                Some(hi) => lt_bytes(&it.key, hi),
                None => true,
            };
            proof {
                assert(m.take(i + 1).drop_last() =~= m.take(i as int));
                assert(m.take(i + 1).last() == m[i as int]);
                assert(it.key@ == m[i as int].0);
                assert(lo_ok == match gmin {
                    Some(lo) => !lex_lt(m[i as int].0, lo),
                    None => true,
                });
                assert(hi_ok == match gmax {
                    Some(hi) => lex_lt(m[i as int].0, hi),
                    None => true,
                });
                assert((lo_ok && hi_ok) == in_range(m[i as int].0, gmin, gmax));
            }
            if lo_ok && hi_ok {
                let resolved = Self::resolve_hist(&it.entries, version);
                match resolved {
                    Some(Some(v)) => {
                        let ghost prev = r.deep_view();
                        let ghost gv = v@;
                        proof {
                            assert(hist_at(m[i as int].1, version) == Some(Some(gv)));
                        }
                        let ck = clone_bytes(&it.key);
                        r.push((ck, v));
                        proof {
                            assert(r.deep_view() =~~= prev.push((m[i as int].0, gv)));
                        }
                    },
                    _ => {},
                }
            }
            i += 1;
        }
        proof {
            assert(m.take(m.len() as int) =~= m);
        }
        r
    }
}

} // verus!
