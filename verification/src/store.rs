//! The ordered key-value store with tombstone deletion and compaction.
//!
//! A `Store` keeps (key, entry) pairs in a vector sorted by strictly
//! ascending lexicographic key order, so every key occurs at most once.
//! Its mathematical model is twofold: `models()` is the ordered sequence of
//! (key, optional value) pairs, and the view `self@` is the finite map that
//! sequence induces (`Some` for a live value, `None` for a tombstone).

use vstd::prelude::*;

use crate::order::key_lt;
use crate::order::lemma_lex_lt_transitive;
use crate::order::lemma_lex_lt_trichotomy;
use crate::order::lex_le;
use crate::order::lex_lt;

verus! {

/// What a key maps to while it occupies a slot in the store.
#[derive(Debug, PartialEq, Eq)]
pub enum Entry {
    /// The current value of the key.
    Live(Vec<u8>),
    /// The key was deleted; the slot survives until compaction.
    Tombstone,
}

impl View for Entry {
    type V = Option<Seq<u8>>;

    open spec fn view(&self) -> Option<Seq<u8>> {
        match self {
            Entry::Live(v) => Some(v@),
            Entry::Tombstone => None,
        }
    }
}

/// The three-way outcome of a point lookup: a live value, a tombstone, or
/// no slot at all.  Keeping `Tombstoned` distinct from `Absent` lets a
/// caller tell "deleted" apart from "never written".
#[derive(Debug, PartialEq, Eq)]
pub enum GetResult {
    Found(Vec<u8>),
    Tombstoned,
    Absent,
}

/// The model of one stored pair: the key and `Some(value)` or `None` for a
/// tombstone.
pub open spec fn pair_models(s: Seq<(Vec<u8>, Entry)>) -> Seq<(Seq<u8>, Option<Seq<u8>>)> {
    Seq::new(s.len(), |i: int| (s[i].0@, s[i].1@))
}

/// The keys of `s` are in strictly ascending lexicographic order (hence
/// pairwise distinct).
pub open spec fn keys_strictly_ascending(s: Seq<(Seq<u8>, Option<Seq<u8>>)>) -> bool {
    forall|i: int, j: int|
        0 <= i < j < s.len() ==> lex_lt(#[trigger] s[i].0, #[trigger] s[j].0)
}

/// Some pair of `s` carries the key `k`.
pub open spec fn has_key(s: Seq<(Seq<u8>, Option<Seq<u8>>)>, k: Seq<u8>) -> bool {
    exists|i: int| 0 <= i < s.len() && s[i].0 == k
}

/// An index of `s` that carries the key `k` (meaningful when `has_key`).
pub open spec fn index_of_key(s: Seq<(Seq<u8>, Option<Seq<u8>>)>, k: Seq<u8>) -> int {
    choose|i: int| 0 <= i < s.len() && s[i].0 == k
}

/// The finite map induced by a sequence of (key, entry) models.
pub open spec fn map_of(s: Seq<(Seq<u8>, Option<Seq<u8>>)>) -> Map<Seq<u8>, Option<Seq<u8>>> {
    Map::new(|k: Seq<u8>| has_key(s, k), |k: Seq<u8>| s[index_of_key(s, k)].1)
}

/// Effect of `put` on the map model.
pub open spec fn spec_put(
    m: Map<Seq<u8>, Option<Seq<u8>>>,
    k: Seq<u8>,
    v: Seq<u8>,
) -> Map<Seq<u8>, Option<Seq<u8>>> {
    m.insert(k, Some(v))
}

/// Effect of `delete` on the map model: the key stays, marked as a
/// tombstone.
pub open spec fn spec_delete(
    m: Map<Seq<u8>, Option<Seq<u8>>>,
    k: Seq<u8>,
) -> Map<Seq<u8>, Option<Seq<u8>>> {
    m.insert(k, None)
}

/// The keys of `m` that carry a live value.
pub open spec fn live_keys(m: Map<Seq<u8>, Option<Seq<u8>>>) -> Set<Seq<u8>> {
    Set::new(|k: Seq<u8>| m.dom().contains(k) && m[k] is Some)
}

/// Effect of `compact` on the map model: tombstones disappear, live values
/// are untouched.
pub open spec fn spec_compact(
    m: Map<Seq<u8>, Option<Seq<u8>>>,
) -> Map<Seq<u8>, Option<Seq<u8>>> {
    m.restrict(live_keys(m))
}

/// `k` lies in the half-open key interval `[lo, hi)`.
pub open spec fn in_range(lo: Seq<u8>, hi: Seq<u8>, k: Seq<u8>) -> bool {
    lex_le(lo, k) && lex_lt(k, hi)
}

/// Predicate selecting the pairs whose keys lie in `[lo, hi)`.
pub open spec fn range_pred(lo: Seq<u8>, hi: Seq<u8>) -> spec_fn(
    (Seq<u8>, Option<Seq<u8>>),
) -> bool {
    (|p: (Seq<u8>, Option<Seq<u8>>)| in_range(lo, hi, p.0))
}

/// Predicate selecting the pairs that carry a live value.
pub open spec fn live_pred() -> spec_fn((Seq<u8>, Option<Seq<u8>>)) -> bool {
    (|p: (Seq<u8>, Option<Seq<u8>>)| p.1 is Some)
}

/// The pairs of `s` whose keys lie in `[lo, hi)`, in order.
pub open spec fn spec_range(
    s: Seq<(Seq<u8>, Option<Seq<u8>>)>,
    lo: Seq<u8>,
    hi: Seq<u8>,
) -> Seq<(Seq<u8>, Option<Seq<u8>>)> {
    s.filter(range_pred(lo, hi))
}

/// The pairs of `s` that carry a live value, in order.
pub open spec fn live_entries(
    s: Seq<(Seq<u8>, Option<Seq<u8>>)>,
) -> Seq<(Seq<u8>, Option<Seq<u8>>)> {
    s.filter(live_pred())
}

/// The ordered key-value store.
pub struct Store {
    entries: Vec<(Vec<u8>, Entry)>,
}

impl View for Store {
    type V = Map<Seq<u8>, Option<Seq<u8>>>;

    closed spec fn view(&self) -> Map<Seq<u8>, Option<Seq<u8>>> {
        map_of(pair_models(self.entries@))
    }
}

impl Store {
    /// The ordered sequence of (key, optional value) models.
    pub closed spec fn models(self) -> Seq<(Seq<u8>, Option<Seq<u8>>)> {
        pair_models(self.entries@)
    }

    /// Structural invariant: keys strictly ascend, so each key is unique.
    pub closed spec fn wf(self) -> bool {
        keys_strictly_ascending(self.models())
    }

    /// The view is exactly the map induced by the ordered models.
    pub proof fn lemma_view_is_map_of_models(self)
        ensures
            self@ == map_of(self.models()),
    {
    }

    /// A well-formed store has strictly ascending models.
    pub proof fn lemma_wf_models_ascending(self)
        requires
            self.wf(),
        ensures
            keys_strictly_ascending(self.models()),
    {
    }

    /// An empty store: no keys, no entries.
    pub fn new() -> (s: Store)
        ensures
            s.wf(),
            s.models() == Seq::<(Seq<u8>, Option<Seq<u8>>)>::empty(),
            s@ == Map::<Seq<u8>, Option<Seq<u8>>>::empty(),
    {
        let s = Store { entries: Vec::new() };
        proof {
            assert(s.models() =~= Seq::<(Seq<u8>, Option<Seq<u8>>)>::empty());
            assert(s@ =~= Map::<Seq<u8>, Option<Seq<u8>>>::empty());
        }
        s
    }

    /// Number of slots the store occupies, tombstones included.
    pub fn len(&self) -> (n: usize)
        ensures
            n == self.models().len(),
    {
        self.entries.len()
    }

    /// Binary search for `key`.  Returns `(idx, true)` when slot `idx`
    /// carries `key`, and otherwise `(idx, false)` where `idx` is the
    /// position at which `key` would have to be inserted to keep the keys
    /// ascending.
    fn locate(&self, key: &Vec<u8>) -> (r: (usize, bool))
        requires
            self.wf(),
        ensures
            r.1 ==> r.0 < self.models().len() && self.models()[r.0 as int].0 == key@,
            !r.1 ==> r.0 <= self.models().len()
                && (forall|j: int| 0 <= j < r.0 ==> lex_lt(#[trigger] self.models()[j].0, key@))
                && (forall|j: int|
                    r.0 <= j < self.models().len() ==> lex_lt(key@, #[trigger] self.models()[j].0)),
    {
        let ghost s = self.models();
        let mut lo: usize = 0;
        let mut hi: usize = self.entries.len();
        while lo < hi
            invariant
                self.wf(),
                s == self.models(),
                s.len() == self.entries@.len(),
                lo <= hi <= s.len(),
                forall|j: int| 0 <= j < lo ==> lex_lt(#[trigger] s[j].0, key@),
                forall|j: int| hi <= j < s.len() ==> lex_le(key@, #[trigger] s[j].0),
            decreases hi - lo,
        {
            let mid = lo + (hi - lo) / 2;
            if key_lt(&self.entries[mid].0, key) {
                proof {
                    assert forall|j: int| 0 <= j < mid + 1 implies lex_lt(#[trigger] s[j].0, key@) by {
                        if j < mid {
                            lemma_lex_lt_transitive(s[j].0, s[mid as int].0, key@);
                        }
                    }
                }
                lo = mid + 1;
            } else {
                proof {
                    lemma_lex_lt_trichotomy(key@, s[mid as int].0);
                    assert forall|j: int| mid <= j < s.len() implies lex_le(key@, #[trigger] s[j].0) by {
                        if j > mid {
                            if key@ == s[mid as int].0 {
                                assert(lex_lt(key@, s[j].0));
                            } else {
                                lemma_lex_lt_transitive(key@, s[mid as int].0, s[j].0);
                            }
                        }
                    }
                }
                hi = mid;
            }
        }
        if lo < self.entries.len() && !key_lt(key, &self.entries[lo].0) {
            proof {
                lemma_lex_lt_trichotomy(key@, s[lo as int].0);
            }
            (lo, true)
        } else {
            proof {
                assert forall|j: int| lo <= j < s.len() implies lex_lt(key@, #[trigger] s[j].0) by {
                    assert(lex_lt(key@, s[lo as int].0));
                    if j > lo {
                        lemma_lex_lt_transitive(key@, s[lo as int].0, s[j].0);
                    }
                }
            }
            (lo, false)
        }
    }

    /// Writes `entry` into the slot for `key`, overwriting any previous
    /// entry or creating the slot at its sorted position.
    fn upsert(&mut self, key: Vec<u8>, entry: Entry)
        requires
            old(self).wf(),
        ensures
            final(self).wf(),
            final(self)@ == old(self)@.insert(key@, entry@),
    {
        let ghost e0 = self.entries@;
        let ghost s0 = self.models();
        let ghost k = key@;
        let ghost v = entry@;
        let (idx, found) = self.locate(&key);
        if found {
            self.entries.set(idx, (key, entry));
            proof {
                assert(self.models() =~= s0.update(idx as int, (k, v)));
                lemma_update_entry(s0, idx as int, k, v);
            }
        } else {
            self.entries.insert(idx, (key, entry));
            proof {
                e0.insert_ensures(idx as int, (key, entry));
                s0.insert_ensures(idx as int, (k, v));
                assert(self.models() =~= s0.insert(idx as int, (k, v)));
                lemma_insert_entry(s0, idx as int, k, v);
            }
        }
    }

    /// Inserts or overwrites: after the call the key is live with exactly
    /// this value.  Always succeeds, including re-insertion of an existing
    /// key.
    pub fn put(&mut self, key: Vec<u8>, value: Vec<u8>)
        requires
            old(self).wf(),
        ensures
            final(self).wf(),
            final(self)@ == spec_put(old(self)@, key@, value@),
    {
        self.upsert(key, Entry::Live(value));
    }

    /// Soft deletion: unconditionally overwrites the slot for `key` with a
    /// tombstone, whether or not the key was ever inserted.  The key stays
    /// visible as `Tombstoned` until compaction.
    pub fn delete(&mut self, key: Vec<u8>)
        requires
            old(self).wf(),
        ensures
            final(self).wf(),
            final(self)@ == spec_delete(old(self)@, key@),
    {
        self.upsert(key, Entry::Tombstone);
    }

    /// Point lookup.  The three-way result mirrors the map model exactly:
    /// a live value is `Found`, a tombstone is `Tombstoned`, and a key
    /// never written (or already compacted away) is `Absent`.
    pub fn get(&self, key: &Vec<u8>) -> (r: GetResult)
        requires
            self.wf(),
        ensures
            match r {
                GetResult::Found(v) => self@.dom().contains(key@) && self@[key@] == Some(v@),
                GetResult::Tombstoned => self@.dom().contains(key@) && self@[key@] is None,
                GetResult::Absent => !self@.dom().contains(key@),
            },
    {
        let ghost s = self.models();
        let (idx, found) = self.locate(key);
        if found {
            proof {
                lemma_index_of_key(s, idx as int);
            }
            match &self.entries[idx].1 {
                Entry::Live(v) => GetResult::Found(copy_bytes(v)),
                Entry::Tombstone => GetResult::Tombstoned,
            }
        } else {
            proof {
                assert forall|i: int| 0 <= i < s.len() implies s[i].0 != key@ by {
                    lemma_lex_lt_trichotomy(s[i].0, key@);
                }
                assert(!has_key(s, key@));
            }
            GetResult::Absent
        }
    }

    /// Ordered scan of the keys in `[start, end)`.  The result is exactly
    /// the stored pairs whose keys lie in the interval, tombstones
    /// included, in ascending key order.
    pub fn range(&self, start: &Vec<u8>, end: &Vec<u8>) -> (r: Vec<(Vec<u8>, Entry)>)
        requires
            self.wf(),
        ensures
            pair_models(r@) == spec_range(self.models(), start@, end@),
    {
        let ghost s0 = self.models();
        let ghost pred = range_pred(start@, end@);
        let mut out: Vec<(Vec<u8>, Entry)> = Vec::new();
        proof {
            lemma_filter_empty(pred);
            assert(s0.take(0) =~= Seq::<(Seq<u8>, Option<Seq<u8>>)>::empty());
            assert(pair_models(out@) =~= Seq::<(Seq<u8>, Option<Seq<u8>>)>::empty());
        }
        let mut i: usize = 0;
        while i < self.entries.len()
            invariant
                s0 == self.models(),
                s0.len() == self.entries@.len(),
                i <= s0.len(),
                pred == range_pred(start@, end@),
                pair_models(out@) == spec_range(s0.take(i as int), start@, end@),
            decreases s0.len() - i,
        {
            let ghost prev = out@;
            let ge_start = !key_lt(&self.entries[i].0, start);
            let lt_end = key_lt(&self.entries[i].0, end);
            proof {
                lemma_lex_lt_trichotomy(start@, s0[i as int].0);
                lemma_lex_lt_trichotomy(s0[i as int].0, start@);
                assert(pred(s0[i as int]) == (ge_start && lt_end));
            }
            if ge_start && lt_end {
                let p = copy_pair(&self.entries[i]);
                out.push(p);
                proof {
                    assert(pair_models(out@) =~= pair_models(prev).push(s0[i as int]));
                }
            }
            proof {
                s0.take(i as int).lemma_filter_push(s0[i as int], pred);
                assert(s0.take(i + 1 as int) =~= s0.take(i as int).push(s0[i as int]));
            }
            i = i + 1;
        }
        proof {
            assert(s0.take(s0.len() as int) =~= s0);
        }
        out
    }

    /// Compaction: erases every tombstoned slot and nothing else.  Live
    /// keys keep their values; compacted keys read back as `Absent`.
    pub fn compact(&mut self)
        requires
            old(self).wf(),
        ensures
            final(self).wf(),
            final(self).models() == live_entries(old(self).models()),
            final(self)@ == spec_compact(old(self)@),
    {
        let ghost s0 = self.models();
        let ghost pred = live_pred();
        let mut kept: Vec<(Vec<u8>, Entry)> = Vec::new();
        proof {
            lemma_filter_empty(pred);
            assert(s0.take(0) =~= Seq::<(Seq<u8>, Option<Seq<u8>>)>::empty());
            assert(pair_models(kept@) =~= Seq::<(Seq<u8>, Option<Seq<u8>>)>::empty());
        }
        let mut i: usize = 0;
        while i < self.entries.len()
            invariant
                s0 == self.models(),
                s0.len() == self.entries@.len(),
                i <= s0.len(),
                pred == live_pred(),
                pair_models(kept@) == live_entries(s0.take(i as int)),
            decreases s0.len() - i,
        {
            let ghost prev = kept@;
            let is_live = match &self.entries[i].1 {
                Entry::Live(_) => true,
                Entry::Tombstone => false,
            };
            proof {
                assert(pred(s0[i as int]) == is_live);
            }
            if is_live {
                let p = copy_pair(&self.entries[i]);
                kept.push(p);
                proof {
                    assert(pair_models(kept@) =~= pair_models(prev).push(s0[i as int]));
                }
            }
            proof {
                s0.take(i as int).lemma_filter_push(s0[i as int], pred);
                assert(s0.take(i + 1 as int) =~= s0.take(i as int).push(s0[i as int]));
            }
            i = i + 1;
        }
        self.entries = kept;
        proof {
            assert(s0.take(s0.len() as int) =~= s0);
            assert(self.models() == live_entries(s0));
            lemma_filter_ascending(s0, pred);
            lemma_map_of_live_filter(s0);
        }
    }
}

/// Replacing the entry of the slot that already carries `k` updates the
/// induced map at `k` and keeps the keys ascending.
proof fn lemma_update_entry(
    s: Seq<(Seq<u8>, Option<Seq<u8>>)>,
    i: int,
    k: Seq<u8>,
    v: Option<Seq<u8>>,
)
    requires
        keys_strictly_ascending(s),
        0 <= i < s.len(),
        s[i].0 == k,
    ensures
        keys_strictly_ascending(s.update(i, (k, v))),
        map_of(s.update(i, (k, v))) == map_of(s).insert(k, v),
{
    let t = s.update(i, (k, v));
    assert(forall|j: int| 0 <= j < s.len() ==> #[trigger] t[j].0 == s[j].0);
    assert(keys_strictly_ascending(t));
    assert forall|q: Seq<u8>|
        map_of(t).dom().contains(q) == map_of(s).insert(k, v).dom().contains(q) by {
        if has_key(t, q) {
            let w = choose|w: int| 0 <= w < t.len() && t[w].0 == q;
            assert(s[w].0 == q);
            assert(has_key(s, q));
        }
        if has_key(s, q) {
            let w = choose|w: int| 0 <= w < s.len() && s[w].0 == q;
            assert(t[w].0 == q);
            assert(has_key(t, q));
        }
    }
    assert forall|q: Seq<u8>| map_of(t).dom().contains(q) implies map_of(t)[q] == map_of(s).insert(
        k,
        v,
    )[q] by {
        if q == k {
            lemma_index_of_key(t, i);
        } else {
            let w = choose|w: int| 0 <= w < t.len() && t[w].0 == q;
            assert(w != i);
            lemma_index_of_key(t, w);
            lemma_index_of_key(s, w);
        }
    }
    assert(map_of(t) =~= map_of(s).insert(k, v));
}

/// Inserting a fresh key at its sorted position inserts it into the
/// induced map and keeps the keys ascending.
proof fn lemma_insert_entry(
    s: Seq<(Seq<u8>, Option<Seq<u8>>)>,
    i: int,
    k: Seq<u8>,
    v: Option<Seq<u8>>,
)
    requires
        keys_strictly_ascending(s),
        0 <= i <= s.len(),
        forall|j: int| 0 <= j < i ==> lex_lt(#[trigger] s[j].0, k),
        forall|j: int| i <= j < s.len() ==> lex_lt(k, #[trigger] s[j].0),
    ensures
        keys_strictly_ascending(s.insert(i, (k, v))),
        map_of(s.insert(i, (k, v))) == map_of(s).insert(k, v),
{
    let t = s.insert(i, (k, v));
    s.insert_ensures(i, (k, v));
    assert forall|a: int, b: int| 0 <= a < b < t.len() implies lex_lt(t[a].0, t[b].0) by {
        if a < i && b < i {
            assert(t[a] == s[a] && t[b] == s[b]);
        } else if a < i && b == i {
            assert(t[a] == s[a]);
        } else if a < i && b > i {
            assert(t[a] == s[a] && t[b] == s[b - 1]);
            lemma_lex_lt_transitive(s[a].0, k, s[b - 1].0);
        } else if a == i {
            assert(t[b] == s[b - 1]);
        } else {
            assert(t[a] == s[a - 1] && t[b] == s[b - 1]);
        }
    }
    assert forall|q: Seq<u8>|
        map_of(t).dom().contains(q) == map_of(s).insert(k, v).dom().contains(q) by {
        if has_key(t, q) {
            let w = choose|w: int| 0 <= w < t.len() && t[w].0 == q;
            if w == i {
                assert(q == k);
            } else if w < i {
                assert(s[w].0 == q);
                assert(has_key(s, q));
            } else {
                assert(s[w - 1].0 == q);
                assert(has_key(s, q));
            }
        }
        if q == k {
            assert(t[i].0 == q);
            assert(has_key(t, q));
        }
        if has_key(s, q) {
            let w = choose|w: int| 0 <= w < s.len() && s[w].0 == q;
            if w < i {
                assert(t[w].0 == q);
            } else {
                assert(t[w + 1].0 == q);
            }
            assert(has_key(t, q));
        }
    }
    assert forall|q: Seq<u8>| map_of(t).dom().contains(q) implies map_of(t)[q] == map_of(s).insert(
        k,
        v,
    )[q] by {
        if q == k {
            lemma_index_of_key(t, i);
        } else {
            let w = choose|w: int| 0 <= w < t.len() && t[w].0 == q;
            assert(w != i);
            lemma_index_of_key(t, w);
            if w < i {
                lemma_index_of_key(s, w);
                assert(s[w].0 == q);
            } else {
                lemma_index_of_key(s, w - 1);
                assert(s[w - 1].0 == q);
            }
        }
    }
    assert(map_of(t) =~= map_of(s).insert(k, v));
}

/// With pairwise-distinct keys, the slot carrying a key is unique, so the
/// induced map reads back exactly that slot's entry.
pub proof fn lemma_index_of_key(s: Seq<(Seq<u8>, Option<Seq<u8>>)>, i: int)
    requires
        keys_strictly_ascending(s),
        0 <= i < s.len(),
    ensures
        has_key(s, s[i].0),
        index_of_key(s, s[i].0) == i,
        map_of(s).dom().contains(s[i].0),
        map_of(s)[s[i].0] == s[i].1,
{
    assert(has_key(s, s[i].0));
    let j = index_of_key(s, s[i].0);
    if j != i {
        if j < i {
            lemma_lex_lt_trichotomy(s[j].0, s[i].0);
        } else {
            lemma_lex_lt_trichotomy(s[i].0, s[j].0);
        }
    }
}

/// Filtering the empty sequence yields the empty sequence.
proof fn lemma_filter_empty(pred: spec_fn((Seq<u8>, Option<Seq<u8>>)) -> bool)
    ensures
        Seq::<(Seq<u8>, Option<Seq<u8>>)>::empty().filter(pred)
            == Seq::<(Seq<u8>, Option<Seq<u8>>)>::empty(),
{
    reveal(Seq::filter);
}

/// Every pair of a filtered sequence occurs in the sequence it was
/// filtered from.
proof fn lemma_filter_elem(
    s: Seq<(Seq<u8>, Option<Seq<u8>>)>,
    pred: spec_fn((Seq<u8>, Option<Seq<u8>>)) -> bool,
    i: int,
)
    requires
        0 <= i < s.filter(pred).len(),
    ensures
        exists|j: int| 0 <= j < s.len() && s[j] == s.filter(pred)[i],
    decreases s.len(),
{
    reveal(Seq::filter);
    if s.len() > 0 {
        let d = s.drop_last();
        if pred(s.last()) && i == d.filter(pred).len() {
            assert(s[s.len() - 1] == s.filter(pred)[i]);
        } else {
            lemma_filter_elem(d, pred, i);
            let j = choose|j: int| 0 <= j < d.len() && d[j] == d.filter(pred)[i];
            assert(s[j] == s.filter(pred)[i]);
        }
    }
}

/// Filtering keeps the keys strictly ascending: the survivors appear in
/// their original relative order.
pub proof fn lemma_filter_ascending(
    s: Seq<(Seq<u8>, Option<Seq<u8>>)>,
    pred: spec_fn((Seq<u8>, Option<Seq<u8>>)) -> bool,
)
    requires
        keys_strictly_ascending(s),
    ensures
        keys_strictly_ascending(s.filter(pred)),
    decreases s.len(),
{
    reveal(Seq::filter);
    if s.len() > 0 {
        let d = s.drop_last();
        let f = s.filter(pred);
        let fd = d.filter(pred);
        assert(keys_strictly_ascending(d));
        lemma_filter_ascending(d, pred);
        if pred(s.last()) {
            assert forall|a: int, b: int| 0 <= a < b < f.len() implies lex_lt(f[a].0, f[b].0) by {
                if b == fd.len() {
                    lemma_filter_elem(d, pred, a);
                    let j = choose|j: int| 0 <= j < d.len() && d[j] == fd[a];
                    assert(lex_lt(s[j].0, s[s.len() - 1].0));
                }
            }
        }
    }
}

/// Dropping the first pair of an ascending sequence removes exactly its
/// key from the induced map.
proof fn lemma_map_of_drop_first(s: Seq<(Seq<u8>, Option<Seq<u8>>)>)
    requires
        keys_strictly_ascending(s),
        s.len() > 0,
    ensures
        keys_strictly_ascending(s.drop_first()),
        map_of(s.drop_first()) == map_of(s).remove(s[0].0),
{
    let d = s.drop_first();
    assert(forall|i: int| 0 <= i < d.len() ==> #[trigger] d[i] == s[i + 1]);
    assert(keys_strictly_ascending(d));
    assert forall|q: Seq<u8>|
        map_of(d).dom().contains(q) == map_of(s).remove(s[0].0).dom().contains(q) by {
        if has_key(d, q) {
            let w = choose|w: int| 0 <= w < d.len() && d[w].0 == q;
            assert(s[w + 1].0 == q);
            assert(has_key(s, q));
            lemma_lex_lt_trichotomy(s[0].0, s[w + 1].0);
        }
        if has_key(s, q) && q != s[0].0 {
            let w = choose|w: int| 0 <= w < s.len() && s[w].0 == q;
            assert(w != 0);
            assert(d[w - 1].0 == q);
            assert(has_key(d, q));
        }
    }
    assert forall|q: Seq<u8>| map_of(d).dom().contains(q) implies map_of(d)[q] == map_of(s).remove(
        s[0].0,
    )[q] by {
        let w = index_of_key(d, q);
        assert(0 <= w < d.len() && d[w].0 == q);
        lemma_index_of_key(d, w);
        lemma_index_of_key(s, w + 1);
    }
    assert(map_of(d) =~= map_of(s).remove(s[0].0));
}

/// Strictly ascending contents are canonical: two ascending sequences
/// inducing the same map are the same sequence.
pub proof fn lemma_ascending_models_canonical(
    s: Seq<(Seq<u8>, Option<Seq<u8>>)>,
    t: Seq<(Seq<u8>, Option<Seq<u8>>)>,
)
    requires
        keys_strictly_ascending(s),
        keys_strictly_ascending(t),
        map_of(s) == map_of(t),
    ensures
        s == t,
    decreases s.len(),
{
    if s.len() == 0 {
        if t.len() > 0 {
            assert(has_key(t, t[0].0));
            assert(map_of(s).dom().contains(t[0].0));
            assert(false);
        }
        assert(s =~= t);
    } else {
        assert(has_key(s, s[0].0));
        assert(map_of(t).dom().contains(s[0].0));
        assert(t.len() > 0);
        assert(s[0].0 == t[0].0) by {
            if lex_lt(t[0].0, s[0].0) {
                assert(has_key(t, t[0].0));
                assert(map_of(s).dom().contains(t[0].0));
                let w = choose|w: int| 0 <= w < s.len() && s[w].0 == t[0].0;
                if w == 0 {
                    lemma_lex_lt_trichotomy(t[0].0, s[0].0);
                } else {
                    lemma_lex_lt_transitive(t[0].0, s[0].0, s[w].0);
                    lemma_lex_lt_trichotomy(t[0].0, s[w].0);
                }
            }
            if lex_lt(s[0].0, t[0].0) {
                let w = choose|w: int| 0 <= w < t.len() && t[w].0 == s[0].0;
                if w == 0 {
                    lemma_lex_lt_trichotomy(s[0].0, t[0].0);
                } else {
                    lemma_lex_lt_transitive(s[0].0, t[0].0, t[w].0);
                    lemma_lex_lt_trichotomy(s[0].0, t[w].0);
                }
            }
            lemma_lex_lt_trichotomy(s[0].0, t[0].0);
        }
        lemma_index_of_key(s, 0);
        lemma_index_of_key(t, 0);
        assert(s[0].1 == t[0].1);
        lemma_map_of_drop_first(s);
        lemma_map_of_drop_first(t);
        lemma_ascending_models_canonical(s.drop_first(), t.drop_first());
        assert forall|i: int| 0 <= i < s.len() implies s[i] == t[i] by {
            if i > 0 {
                assert(s[i] == s.drop_first()[i - 1]);
                assert(t[i] == t.drop_first()[i - 1]);
            }
        }
        assert(s =~= t);
    }
}

/// Filtering keeps everything when every pair already satisfies the
/// predicate.
pub proof fn lemma_filter_all_true(
    s: Seq<(Seq<u8>, Option<Seq<u8>>)>,
    pred: spec_fn((Seq<u8>, Option<Seq<u8>>)) -> bool,
)
    requires
        forall|i: int| 0 <= i < s.len() ==> pred(#[trigger] s[i]),
    ensures
        s.filter(pred) == s,
    decreases s.len(),
{
    reveal(Seq::filter);
    if s.len() == 0 {
        assert(s.filter(pred) =~= s);
    } else {
        let d = s.drop_last();
        lemma_filter_all_true(d, pred);
        assert(pred(s.last()));
        assert(s.filter(pred) =~= s);
    }
}

/// Compacting the ordered models and then reading them as a map is the
/// same as restricting the map to its live keys.
pub proof fn lemma_map_of_live_filter(s: Seq<(Seq<u8>, Option<Seq<u8>>)>)
    requires
        keys_strictly_ascending(s),
    ensures
        map_of(live_entries(s)) == spec_compact(map_of(s)),
{
    let pred = live_pred();
    let t = live_entries(s);
    lemma_filter_ascending(s, pred);
    assert forall|q: Seq<u8>|
        map_of(t).dom().contains(q) == spec_compact(map_of(s)).dom().contains(q) by {
        if has_key(t, q) {
            let w = choose|w: int| 0 <= w < t.len() && t[w].0 == q;
            s.lemma_filter_pred(pred, w);
            lemma_filter_elem(s, pred, w);
            let j = choose|j: int| 0 <= j < s.len() && s[j] == t[w];
            lemma_index_of_key(s, j);
            assert(map_of(s).dom().contains(q) && map_of(s)[q] is Some);
        }
        if map_of(s).dom().contains(q) && map_of(s)[q] is Some {
            let w = index_of_key(s, q);
            assert(0 <= w < s.len() && s[w].0 == q);
            assert(pred(s[w]));
            s.lemma_filter_contains(pred, w);
            assert(t.contains(s[w]));
            let j = choose|j: int| 0 <= j < t.len() && t[j] == s[w];
            assert(t[j].0 == q);
            assert(has_key(t, q));
        }
    }
    assert forall|q: Seq<u8>| map_of(t).dom().contains(q) implies map_of(t)[q] == spec_compact(
        map_of(s),
    )[q] by {
        let w = index_of_key(t, q);
        assert(0 <= w < t.len() && t[w].0 == q);
        lemma_filter_elem(s, pred, w);
        let j = choose|j: int| 0 <= j < s.len() && s[j] == t[w];
        lemma_index_of_key(s, j);
        lemma_index_of_key(t, w);
    }
    assert(map_of(t) =~= spec_compact(map_of(s)));
}

/// A verified byte-for-byte copy of a byte string.
pub fn copy_bytes(src: &Vec<u8>) -> (r: Vec<u8>)
    ensures
        r@ == src@,
{
    let mut out: Vec<u8> = Vec::new();
    let mut i: usize = 0;
    while i < src.len()
        invariant
            i <= src@.len(),
            out@ == src@.subrange(0, i as int),
        decreases src@.len() - i,
    {
        out.push(src[i]);
        proof {
            assert(out@ =~= src@.subrange(0, i + 1 as int));
        }
        i = i + 1;
    }
    proof {
        assert(src@.subrange(0, src@.len() as int) =~= src@);
    }
    out
}

/// A verified copy of one stored pair, preserving its model.
fn copy_pair(p: &(Vec<u8>, Entry)) -> (r: (Vec<u8>, Entry))
    ensures
        r.0@ == p.0@,
        r.1@ == p.1@,
{
    let k = copy_bytes(&p.0);
    let e = match &p.1 {
        Entry::Live(v) => Entry::Live(copy_bytes(v)),
        Entry::Tombstone => Entry::Tombstone,
    };
    (k, e)
}

} // verus!
