//! The governing laws of the store, stated over its mathematical model.
//!
//! The executable operations promise, in their contracts, that they effect
//! `spec_put`, `spec_delete` and `spec_compact` on the map view and that
//! `range` returns `spec_range` of the ordered models.  The lemmas here
//! state the store-wide laws those transitions obey.

use vstd::prelude::*;

use crate::order::lemma_lex_lt_trichotomy;
use crate::store::has_key;
use crate::store::in_range;
use crate::store::keys_strictly_ascending;
use crate::store::lemma_ascending_models_canonical;
use crate::store::lemma_filter_all_true;
use crate::store::lemma_filter_ascending;
use crate::store::live_entries;
use crate::store::live_pred;
use crate::store::range_pred;
use crate::store::spec_compact;
use crate::store::spec_delete;
use crate::store::spec_put;
use crate::store::spec_range;
use crate::store::Store;

verus! {

/// One write to a key: `Some(v)` models `put` of the value `v`, `None`
/// models `delete`.
pub open spec fn apply_writes(
    m: Map<Seq<u8>, Option<Seq<u8>>>,
    k: Seq<u8>,
    ws: Seq<Option<Seq<u8>>>,
) -> Map<Seq<u8>, Option<Seq<u8>>>
    decreases ws.len(),
{
    if ws.len() == 0 {
        m
    } else {
        let prev = apply_writes(m, k, ws.drop_last());
        match ws.last() {
            Some(v) => spec_put(prev, k, v),
            None => spec_delete(prev, k),
        }
    }
}

/// Last-write-wins: after any nonempty sequence of `put`/`delete` writes
/// to a key, a lookup of that key reflects exactly the final write — the
/// value of the last `put`, or a tombstone if the last write was a
/// `delete`.
pub proof fn lemma_last_write_wins(
    m: Map<Seq<u8>, Option<Seq<u8>>>,
    k: Seq<u8>,
    ws: Seq<Option<Seq<u8>>>,
)
    requires
        ws.len() > 0,
    ensures
        apply_writes(m, k, ws).dom().contains(k),
        apply_writes(m, k, ws)[k] == ws.last(),
{
}

/// Deletion is unconditional: deleting a key that was never inserted
/// still leaves the key present, as a tombstone — not absent.
pub proof fn lemma_delete_unconditional(m: Map<Seq<u8>, Option<Seq<u8>>>, k: Seq<u8>)
    requires
        !m.dom().contains(k),
    ensures
        spec_delete(m, k).dom().contains(k),
        spec_delete(m, k)[k] is None,
{
}

/// Range scans are ordered and complete: over strictly ascending models,
/// a scan yields keys in strictly ascending order with no duplicates, and
/// every stored key inside the interval appears in the scan.
pub proof fn lemma_range_ordered(s: Seq<(Seq<u8>, Option<Seq<u8>>)>, lo: Seq<u8>, hi: Seq<u8>)
    requires
        keys_strictly_ascending(s),
    ensures
        keys_strictly_ascending(spec_range(s, lo, hi)),
        forall|i: int, j: int|
            0 <= i < spec_range(s, lo, hi).len() && 0 <= j < spec_range(s, lo, hi).len() && i != j
                ==> #[trigger] spec_range(s, lo, hi)[i].0 != #[trigger] spec_range(s, lo, hi)[j].0,
        forall|k: Seq<u8>|
            has_key(s, k) && in_range(lo, hi, k) ==> #[trigger] has_key(spec_range(s, lo, hi), k),
{
    let pred = range_pred(lo, hi);
    let r = spec_range(s, lo, hi);
    lemma_filter_ascending(s, pred);
    assert forall|i: int, j: int|
        0 <= i < r.len() && 0 <= j < r.len() && i != j implies #[trigger] r[i].0
        != #[trigger] r[j].0 by {
        if i < j {
            lemma_lex_lt_trichotomy(r[i].0, r[j].0);
        } else {
            lemma_lex_lt_trichotomy(r[j].0, r[i].0);
        }
    }
    assert forall|k: Seq<u8>| has_key(s, k) && in_range(lo, hi, k) implies #[trigger] has_key(
        r,
        k,
    ) by {
        let w = choose|w: int| 0 <= w < s.len() && s[w].0 == k;
        assert(pred(s[w]));
        s.lemma_filter_contains(pred, w);
        assert(r.contains(s[w]));
        let j = choose|j: int| 0 <= j < r.len() && r[j] == s[w];
        assert(r[j].0 == k);
    }
}

/// Compaction preserves live data and erases exactly the tombstones: a
/// live key keeps its value, a tombstoned key becomes absent, and an
/// absent key stays absent.
pub proof fn lemma_compact_preserves_live(m: Map<Seq<u8>, Option<Seq<u8>>>, k: Seq<u8>)
    ensures
        m.dom().contains(k) && m[k] is Some ==> spec_compact(m).dom().contains(k)
            && spec_compact(m)[k] == m[k],
        m.dom().contains(k) && m[k] is None ==> !spec_compact(m).dom().contains(k),
        !m.dom().contains(k) ==> !spec_compact(m).dom().contains(k),
{
}

/// Compaction is idempotent: a second compaction, run immediately after a
/// first, changes nothing in the map view.
pub proof fn lemma_compact_idempotent(m: Map<Seq<u8>, Option<Seq<u8>>>)
    ensures
        spec_compact(spec_compact(m)) == spec_compact(m),
{
    assert(spec_compact(spec_compact(m)) =~= spec_compact(m));
}

/// Compaction is idempotent on the ordered contents too: a second pass
/// keeps exactly the pairs the first pass kept, so even range scans are
/// unchanged.
pub proof fn lemma_compact_models_idempotent(s: Seq<(Seq<u8>, Option<Seq<u8>>)>)
    ensures
        live_entries(live_entries(s)) == live_entries(s),
{
    let t = live_entries(s);
    assert forall|i: int| 0 <= i < t.len() implies live_pred()(t[i]) by {
        s.lemma_filter_pred(live_pred(), i);
    }
    lemma_filter_all_true(t, live_pred());
}

/// Iteration order is canonical and stable: two well-formed stores with
/// the same map view have the same ordered contents, so the order `range`
/// yields is fully determined by what the store holds.
pub proof fn lemma_models_canonical(a: Store, b: Store)
    requires
        a.wf(),
        b.wf(),
        a@ == b@,
    ensures
        a.models() == b.models(),
{
    a.lemma_view_is_map_of_models();
    b.lemma_view_is_map_of_models();
    a.lemma_wf_models_ascending();
    b.lemma_wf_models_ascending();
    lemma_ascending_models_canonical(a.models(), b.models());
}

/// Round trip: immediately after `put(k, v)`, the key `k` is present and
/// live with exactly the value `v` — for any byte strings `k` and `v`,
/// the empty ones included.
pub proof fn lemma_put_round_trip(m: Map<Seq<u8>, Option<Seq<u8>>>, k: Seq<u8>, v: Seq<u8>)
    ensures
        spec_put(m, k, v).dom().contains(k),
        spec_put(m, k, v)[k] == Some(v),
{
}

} // verus!
