//! Laws of the commit protocol, stated and proved over the engine's
//! specification-level state. Each one holds for every engine state the
//! contracts of `flush_but_not_commit` and `commit` can produce.

use vstd::prelude::*;
use crate::assoc::{assoc_get, lemma_assoc_get_none, lemma_assoc_get_take_step, unique_keys};
use crate::batch::Order;
use crate::db::{root_at, scan_in_order, storage_updated};
use crate::versioned_map::{hist_at, hist_or_empty, in_range, lemma_sorted_unique, scan_spec,
    sorted_keys, visible, MapView};

verus! {

/// Law: a scan yields exactly the visible records within bounds. Every
/// record the scan yields is in range and is what a point lookup of its
/// key sees, and every key that is in range and has a visible value
/// appears in the scan with that value.
pub proof fn lemma_scan_yields_exactly_visible(
    m: MapView,
    min: Option<Seq<u8>>,
    max: Option<Seq<u8>>,
    v: u64,
)
    requires
        sorted_keys(m),
    ensures
        forall|i: int|
            0 <= i < scan_spec(m, min, max, v).len() ==> {
                let rec = #[trigger] scan_spec(m, min, max, v)[i];
                in_range(rec.0, min, max) && visible(m, rec.0, v) == Some(rec.1)
            },
        forall|k: Seq<u8>|
            in_range(k, min, max) && (#[trigger] visible(m, k, v)) is Some ==> exists|i: int|
                0 <= i < scan_spec(m, min, max, v).len() && scan_spec(m, min, max, v)[i] == (
                k,
                visible(m, k, v).unwrap(),
                ),
    decreases m.len(),
{
    lemma_sorted_unique(m);
    if m.len() > 0 {
        let s = scan_spec(m, min, max, v);
        let rest = scan_spec(m.drop_last(), min, max, v);
        let last = m.last();
        assert(sorted_keys(m.drop_last())) by {
            assert(forall|p: int|
                0 <= p < m.drop_last().len() ==> m.drop_last()[p] == m[p]);
        }
        lemma_scan_yields_exactly_visible(m.drop_last(), min, max, v);
        assert(m.take(m.len() as int) =~= m);
        assert(m.take(m.len() - 1) =~= m.drop_last());
        lemma_assoc_get_none(m.drop_last(), last.0);
        assert(assoc_get(m.drop_last(), last.0) is None);
        assert forall|k: Seq<u8>|
            #[trigger] assoc_get(m, k) == if k == last.0 {
                Some(last.1)
            } else {
                assoc_get(m.drop_last(), k)
            } by {
            lemma_assoc_get_take_step(m, m.len() - 1, k);
        }
        // Every record of `rest` keeps its meaning in the full store: its
        // key is one of the dropped prefix, never the last key.
        assert forall|i: int|
            0 <= i < rest.len() implies {
            let rec = #[trigger] rest[i];
            rec.0 != last.0 && visible(m, rec.0, v) == Some(rec.1)
        } by {
            assert(in_range(rest[i].0, min, max) && visible(m.drop_last(), rest[i].0, v) == Some(
                rest[i].1,
            ));
            assert(assoc_get(m.drop_last(), rest[i].0) is Some);
        }
        // Soundness: the scan is `rest`, possibly followed by the last key.
        assert forall|i: int|
            0 <= i < s.len() implies {
            let rec = #[trigger] s[i];
            in_range(rec.0, min, max) && visible(m, rec.0, v) == Some(rec.1)
        } by {
            if i < rest.len() {
                assert(s[i] == rest[i]);
            }
        }
        // Completeness: an in-range visible key is either the last one,
        // yielded by this step, or found in `rest` by induction.
        assert forall|k: Seq<u8>|
            in_range(k, min, max) && (#[trigger] visible(m, k, v)) is Some implies exists|i: int|
            0 <= i < s.len() && s[i] == (k, visible(m, k, v).unwrap()) by {
            let val = visible(m, k, v).unwrap();
            if k == last.0 {
                assert(hist_at(last.1, v) == Some(Some(val)));
                assert(s[s.len() - 1] == (k, val));
            } else {
                assert(visible(m.drop_last(), k, v) == Some(val));
                let i = choose|i: int|
                    0 <= i < rest.len() && rest[i] == (k, visible(m.drop_last(), k, v).unwrap());
                assert(s[i] == (k, val));
            }
        }
    }
}

/// Law: a scan yields its records in strictly ascending key order.
pub proof fn lemma_scan_sorted(m: MapView, min: Option<Seq<u8>>, max: Option<Seq<u8>>, v: u64)
    requires
        sorted_keys(m),
    ensures
        forall|i: int, j: int|
            #![trigger scan_spec(m, min, max, v)[i], scan_spec(m, min, max, v)[j]]
            0 <= i < j < scan_spec(m, min, max, v).len() ==> crate::bytes::lex_lt(
                scan_spec(m, min, max, v)[i].0,
                scan_spec(m, min, max, v)[j].0,
            ),
    decreases m.len(),
{
    lemma_sorted_unique(m);
    if m.len() > 0 {
        let s = scan_spec(m, min, max, v);
        let rest = scan_spec(m.drop_last(), min, max, v);
        let last = m.last();
        assert(sorted_keys(m.drop_last())) by {
            assert(forall|p: int| 0 <= p < m.drop_last().len() ==> m.drop_last()[p] == m[p]);
        }
        lemma_scan_sorted(m.drop_last(), min, max, v);
        lemma_scan_yields_exactly_visible(m.drop_last(), min, max, v);
        // Every key in `rest` is a key of the dropped prefix, so it sorts
        // strictly before the last key.
        assert forall|i: int|
            0 <= i < rest.len() implies crate::bytes::lex_lt(#[trigger] rest[i].0, last.0) by {
            assert(visible(m.drop_last(), rest[i].0, v) == Some(rest[i].1));
            assert(assoc_get(m.drop_last(), rest[i].0) is Some);
            crate::assoc::lemma_assoc_get_some_index(m.drop_last(), rest[i].0);
            let idx = choose|idx: int|
                0 <= idx < m.drop_last().len() && m.drop_last()[idx] == (
                rest[i].0,
                assoc_get(m.drop_last(), rest[i].0).unwrap(),
                );
            assert(m[idx].0 == rest[i].0);
            assert(crate::bytes::lex_lt(m[idx].0, m[m.len() - 1].0));
        }
        assert forall|i: int, j: int|
            0 <= i < j < s.len() implies crate::bytes::lex_lt(s[i].0, s[j].0) by {
            if j < rest.len() {
                assert(s[i] == rest[i] && s[j] == rest[j]);
            } else if i < rest.len() {
                assert(s[i] == rest[i]);
            }
        }
    }
}

/// Law: after committing a batch that inserts `v` under `k` at version
/// `n`, a read of `k` pinned to version `n` sees exactly `v`, and a read
/// pinned to any earlier version sees exactly what it saw before the
/// commit: version pinning is exact.
pub proof fn lemma_insert_visible_at_version(
    pre: MapView,
    post: MapView,
    batch: Seq<(Seq<u8>, Option<Seq<u8>>)>,
    n: u64,
    k: Seq<u8>,
    v: Seq<u8>,
)
    requires
        storage_updated(pre, post, batch, n),
        assoc_get(batch, k) == Some(Some(v)),
    ensures
        visible(post, k, n) == Some(v),
        forall|u: u64| u < n ==> visible(post, k, u) == visible(pre, k, u),
{
    let h = hist_or_empty(pre, k);
    let nh = h.push((n, Some(v)));
    assert(assoc_get(post, k) == Some(nh));
    assert(nh.drop_last() =~= h);
    assert(hist_at(nh, n) == Some(Some(v)));
    assert forall|u: u64| u < n implies visible(post, k, u) == visible(pre, k, u) by {
        assert(hist_at(nh, u) == hist_at(h, u));
    }
}

/// Law: after committing a batch that deletes `k` at version `n`, a read
/// of `k` pinned to version `n` sees nothing, while a read pinned to any
/// earlier version still sees the prior value: tombstones do not rewrite
/// history.
pub proof fn lemma_delete_hides_at_version(
    pre: MapView,
    post: MapView,
    batch: Seq<(Seq<u8>, Option<Seq<u8>>)>,
    n: u64,
    k: Seq<u8>,
)
    requires
        storage_updated(pre, post, batch, n),
        assoc_get(batch, k) == Some(None::<Seq<u8>>),
    ensures
        visible(post, k, n) is None,
        forall|u: u64| u < n ==> visible(post, k, u) == visible(pre, k, u),
{
    let h = hist_or_empty(pre, k);
    let nh = h.push((n, None::<Seq<u8>>));
    assert(assoc_get(post, k) == Some(nh));
    assert(nh.drop_last() =~= h);
    assert(hist_at(nh, n) == Some(None::<Seq<u8>>));
    assert forall|u: u64| u < n implies visible(post, k, u) == visible(pre, k, u) by {
        assert(hist_at(nh, u) == hist_at(h, u));
    }
}

/// Law: a scan in descending order yields the exact reverse of the same
/// scan in ascending order.
pub proof fn lemma_scan_descending_is_reverse(
    m: MapView,
    min: Option<Seq<u8>>,
    max: Option<Seq<u8>>,
    v: u64,
)
    ensures
        scan_in_order(m, min, max, v, Order::Descending) == scan_in_order(
            m,
            min,
            max,
            v,
            Order::Ascending,
        ).reverse(),
{
}

/// Law: committing records the staged root hash under the committed
/// version, so the root hash queried for that version afterwards is
/// exactly the one `flush_but_not_commit` returned.
pub proof fn lemma_commit_records_root(roots: Seq<Option<Seq<u8>>>, root: Option<Seq<u8>>)
    requires
        roots.len() < u64::MAX,
    ensures
        root_at(roots.push(root), (roots.len() as u64)) == root,
{
    assert(roots.push(root)[roots.len() as int] == root);
}

} // verus!
