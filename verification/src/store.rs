//! The key-value store the indexer persists into: entries kept strictly
//! sorted by byte-lexicographic key order, overwrite-by-key semantics.
//!
//! Its abstract value is a `Map<Seq<u8>, Seq<u8>>`; scans walk the entries
//! in ascending key order, as the range queries rely on.
use vstd::prelude::*;

use crate::digits::{bytes_lt, lemma_lex_irrefl, lemma_lex_total, lemma_lex_trans, lex_lt};
use crate::keys::bytes_eq;

verus! {

/// Entries strictly ascend by key: every earlier key precedes every later one.
pub open spec fn entries_sorted(e: Seq<(Seq<u8>, Seq<u8>)>) -> bool {
    forall|i: int, j: int|
        0 <= i < j < e.len() ==> lex_lt((#[trigger] e[i]).0, (#[trigger] e[j]).0)
}

/// The finite map an entry list stands for: later entries win.
pub open spec fn map_of(e: Seq<(Seq<u8>, Seq<u8>)>) -> Map<Seq<u8>, Seq<u8>>
    decreases e.len(),
{
    if e.len() == 0 {
        Map::empty()
    } else {
        map_of(e.drop_last()).insert(e.last().0, e.last().1)
    }
}

/// In a sorted entry list, a key appears at most once.
pub proof fn lemma_sorted_key_unique(e: Seq<(Seq<u8>, Seq<u8>)>, i: int, j: int)
    requires
        entries_sorted(e),
        0 <= i < e.len(),
        0 <= j < e.len(),
        e[i].0 == e[j].0,
    ensures
        i == j,
{
    if i < j {
        lemma_lex_irrefl(e[i].0);
    } else if j < i {
        lemma_lex_irrefl(e[i].0);
    }
}

/// A prefix of a sorted entry list is sorted.
proof fn lemma_sorted_drop_last(e: Seq<(Seq<u8>, Seq<u8>)>)
    requires
        entries_sorted(e),
        e.len() > 0,
    ensures
        entries_sorted(e.drop_last()),
{
    assert(forall|i: int| 0 <= i < e.len() - 1 ==> #[trigger] e.drop_last()[i] == e[i]);
}

/// Sorted entries and their map agree: membership and value.
pub proof fn lemma_map_of_entry(e: Seq<(Seq<u8>, Seq<u8>)>, i: int)
    requires
        entries_sorted(e),
        0 <= i < e.len(),
    ensures
        map_of(e).dom().contains(e[i].0),
        map_of(e)[e[i].0] == e[i].1,
    decreases e.len(),
{
    if i == e.len() - 1 {
    } else {
        lemma_sorted_drop_last(e);
        assert(e.drop_last()[i] == e[i]);
        lemma_map_of_entry(e.drop_last(), i);
        if e.last().0 == e[i].0 {
            lemma_sorted_key_unique(e, i, e.len() - 1);
        }
    }
}

/// A key on no entry is not in the map.
pub proof fn lemma_map_of_none(e: Seq<(Seq<u8>, Seq<u8>)>, k: Seq<u8>)
    requires
        forall|j: int| 0 <= j < e.len() ==> (#[trigger] e[j]).0 != k,
    ensures
        !map_of(e).dom().contains(k),
    decreases e.len(),
{
    if e.len() > 0 {
        assert(forall|j: int| 0 <= j < e.len() - 1 ==> #[trigger] e.drop_last()[j] == e[j]);
        lemma_map_of_none(e.drop_last(), k);
        assert(e.last().0 != k);
    }
}

/// Inserting under distinct keys commutes.
proof fn lemma_insert_commute(
    m: Map<Seq<u8>, Seq<u8>>,
    a: Seq<u8>,
    x: Seq<u8>,
    b: Seq<u8>,
    y: Seq<u8>,
)
    requires
        a != b,
    ensures
        m.insert(a, x).insert(b, y) == m.insert(b, y).insert(a, x),
{
    assert(m.insert(a, x).insert(b, y) =~= m.insert(b, y).insert(a, x));
}

/// Re-inserting a key overwrites the earlier insert.
proof fn lemma_insert_absorb(m: Map<Seq<u8>, Seq<u8>>, a: Seq<u8>, x: Seq<u8>, y: Seq<u8>)
    ensures
        m.insert(a, x).insert(a, y) == m.insert(a, y),
{
    assert(m.insert(a, x).insert(a, y) =~= m.insert(a, y));
}

/// Bridges the deep view of the entry vector to the per-entry views.
proof fn lemma_entries_deep_view(v: Vec<(Vec<u8>, Vec<u8>)>)
    ensures
        v.deep_view().len() == v@.len(),
        forall|i: int|
            0 <= i < v@.len() ==> (#[trigger] v.deep_view()[i]) == (v@[i].0@, v@[i].1@),
{
    assert forall|i: int|
        0 <= i < v@.len() implies (#[trigger] v.deep_view()[i]) == (v@[i].0@, v@[i].1@) by {
        assert(v@[i].0.deep_view() =~= v@[i].0@);
        assert(v@[i].1.deep_view() =~= v@[i].1@);
    }
}

/// The sorted key-value store.
pub struct KvStore {
    entries: Vec<(Vec<u8>, Vec<u8>)>,
}

impl View for KvStore {
    type V = Map<Seq<u8>, Seq<u8>>;

    open spec fn view(&self) -> Map<Seq<u8>, Seq<u8>> {
        map_of(self.entries_view())
    }
}

impl KvStore {
    /// The entries, as the ordered sequence of (key, value) byte strings.
    pub closed spec fn entries_view(self) -> Seq<(Seq<u8>, Seq<u8>)> {
        self.entries.deep_view()
    }

    /// Well-formed: entries strictly sorted by key.
    pub open spec fn wf(self) -> bool {
        entries_sorted(self.entries_view())
    }

    /// An empty store.
    pub fn new() -> (r: KvStore)
        ensures
            r.wf(),
            r@ == Map::<Seq<u8>, Seq<u8>>::empty(),
            r.entries_view() == Seq::<(Seq<u8>, Seq<u8>)>::empty(),
    {
        let r = KvStore { entries: Vec::new() };
        proof {
            assert(r.entries_view() =~= Seq::<(Seq<u8>, Seq<u8>)>::empty());
            assert(r@ =~= Map::<Seq<u8>, Seq<u8>>::empty());
        }
        r
    }

    /// How many entries the store holds.
    pub fn num_entries(&self) -> (r: usize)
        ensures
            r == self.entries_view().len(),
    {
        self.entries.len()
    }

    /// The key of the `i`th entry in ascending key order.
    pub fn key_at(&self, i: usize) -> (r: &Vec<u8>)
        requires
            i < self.entries_view().len(),
        ensures
            r@ == self.entries_view()[i as int].0,
    {
        proof {
            lemma_entries_deep_view(self.entries);
        }
        &self.entries[i].0
    }

    /// The value of the `i`th entry in ascending key order.
    pub fn value_at(&self, i: usize) -> (r: &Vec<u8>)
        requires
            i < self.entries_view().len(),
        ensures
            r@ == self.entries_view()[i as int].1,
    {
        proof {
            lemma_entries_deep_view(self.entries);
        }
        &self.entries[i].1
    }

    /// Looks a key up.
    pub fn get(&self, key: &[u8]) -> (r: Option<&Vec<u8>>)
        requires
            self.wf(),
        ensures
            match r {
                Some(v) => self@.dom().contains(key@) && self@[key@] == v@,
                None => !self@.dom().contains(key@),
            },
    {
        let n = self.entries.len();
        let mut i: usize = 0;
        while i < n
            invariant
                0 <= i <= n,
                n == self.entries_view().len(),
                self.wf(),
                forall|j: int| 0 <= j < i ==> (#[trigger] self.entries_view()[j]).0 != key@,
            decreases n - i,
        {
            proof {
                lemma_entries_deep_view(self.entries);
            }
            if bytes_eq(self.entries[i].0.as_slice(), key) {
                proof {
                    lemma_map_of_entry(self.entries_view(), i as int);
                }
                return Some(&self.entries[i].1);
            }
            i = i + 1;
        }
        proof {
            lemma_map_of_none(self.entries_view(), key@);
        }
        None
    }

    /// Stores `value` under `key`, overwriting any previous value: a pure
    /// overwrite-by-key, so re-writing the same pair changes nothing.
    pub fn put(&mut self, key: Vec<u8>, value: Vec<u8>)
        requires
            old(self).wf(),
        ensures
            final(self).wf(),
            final(self)@ == old(self)@.insert(key@, value@),
    {
        let ghost e = self.entries_view();
        proof {
            lemma_entries_deep_view(self.entries);
        }
        let i = find_slot(&self.entries, &key);
        let n = self.entries.len();
        if i < n && bytes_eq(self.entries[i].0.as_slice(), key.as_slice()) {
            self.entries.remove(i);
            self.entries.insert(i, (key, value));
            proof {
                lemma_entries_deep_view(self.entries);
                let e2 = self.entries_view();
                assert(e2 =~= e.update(i as int, (key@, value@)));
                assert(entries_sorted(e2));
                lemma_map_update(e, i as int, key@, value@);
            }
        } else {
            proof {
                if i < n {
                    assert(e[i as int].0 != key@);
                    lemma_lex_total(e[i as int].0, key@);
                    assert(lex_lt(key@, e[i as int].0));
                }
                assert forall|j: int| 0 <= j < e.len() implies (#[trigger] e[j]).0 != key@ by {
                    if j < i {
                        if e[j].0 == key@ {
                            lemma_lex_irrefl(key@);
                        }
                    } else if j > i {
                        if e[j].0 == key@ {
                            lemma_lex_trans(key@, e[i as int].0, e[j].0);
                            lemma_lex_irrefl(key@);
                        }
                    }
                }
            }
            self.entries.insert(i, (key, value));
            proof {
                lemma_entries_deep_view(self.entries);
                let e2 = self.entries_view();
                assert(e2 =~= e.insert(i as int, (key@, value@)));
                e.insert_ensures(i as int, (key@, value@));
                assert forall|x: int, y: int| 0 <= x < y < e2.len() implies lex_lt(
                    (#[trigger] e2[x]).0,
                    (#[trigger] e2[y]).0,
                ) by {
                    if y < i {
                    } else if y == i {
                        assert(e2[x] == e[x]);
                        assert(e2[y].0 == key@);
                    } else if x < i {
                        assert(e2[x] == e[x]);
                        assert(e2[y] == e[y - 1]);
                        if y - 1 == i {
                            lemma_lex_trans(e[x].0, key@, e[i as int].0);
                        } else {
                            lemma_lex_trans(key@, e[i as int].0, e[y - 1].0);
                            lemma_lex_trans(e[x].0, key@, e[y - 1].0);
                        }
                    } else if x == i {
                        assert(e2[x].0 == key@);
                        assert(e2[y] == e[y - 1]);
                        if y - 1 > i {
                            lemma_lex_trans(key@, e[i as int].0, e[y - 1].0);
                        }
                    } else {
                        assert(e2[x] == e[x - 1]);
                        assert(e2[y] == e[y - 1]);
                    }
                }
                lemma_map_insert(e, i as int, key@, value@);
            }
        }
    }
}

/// The first position whose key is not below `key`.
fn find_slot(entries: &Vec<(Vec<u8>, Vec<u8>)>, key: &Vec<u8>) -> (i: usize)
    ensures
        i <= entries.deep_view().len(),
        forall|j: int| 0 <= j < i ==> lex_lt((#[trigger] entries.deep_view()[j]).0, key@),
        i < entries.deep_view().len() ==> !lex_lt(entries.deep_view()[i as int].0, key@),
{
    let n = entries.len();
    let mut i: usize = 0;
    while i < n
        invariant
            0 <= i <= n,
            n == entries.deep_view().len(),
            forall|j: int| 0 <= j < i ==> lex_lt((#[trigger] entries.deep_view()[j]).0, key@),
        decreases n - i,
    {
        proof {
            lemma_entries_deep_view(*entries);
        }
        if !bytes_lt(entries[i].0.as_slice(), key.as_slice()) {
            return i;
        }
        i = i + 1;
    }
    i
}

/// Updating the entry that already holds `k` updates the map at `k`.
proof fn lemma_map_update(e: Seq<(Seq<u8>, Seq<u8>)>, i: int, k: Seq<u8>, v: Seq<u8>)
    requires
        entries_sorted(e),
        0 <= i < e.len(),
        e[i].0 == k,
    ensures
        map_of(e.update(i, (k, v))) == map_of(e).insert(k, v),
    decreases e.len(),
{
    let e2 = e.update(i, (k, v));
    if i == e.len() - 1 {
        assert(e2.drop_last() =~= e.drop_last());
        assert(e2.last() == (k, v));
        lemma_insert_absorb(map_of(e.drop_last()), k, e.last().1, v);
    } else {
        assert(e2.drop_last() =~= e.drop_last().update(i, (k, v)));
        assert(e2.last() == e.last());
        lemma_sorted_drop_last(e);
        assert(e.drop_last()[i] == e[i]);
        lemma_map_update(e.drop_last(), i, k, v);
        if k == e.last().0 {
            lemma_sorted_key_unique(e, i, e.len() - 1);
        }
        lemma_insert_commute(map_of(e.drop_last()), k, v, e.last().0, e.last().1);
    }
}

/// Inserting a key no entry holds inserts it into the map.
proof fn lemma_map_insert(e: Seq<(Seq<u8>, Seq<u8>)>, i: int, k: Seq<u8>, v: Seq<u8>)
    requires
        0 <= i <= e.len(),
        forall|j: int| 0 <= j < e.len() ==> (#[trigger] e[j]).0 != k,
    ensures
        map_of(e.insert(i, (k, v))) == map_of(e).insert(k, v),
    decreases e.len(),
{
    let e2 = e.insert(i, (k, v));
    e.insert_ensures(i, (k, v));
    if i == e.len() {
        assert(e2.drop_last() =~= e);
        assert(e2.last() == (k, v));
    } else {
        assert(e2.last() == e.last());
        assert(forall|j: int| 0 <= j < e.len() - 1 ==> #[trigger] e.drop_last()[j] == e[j]);
        e.drop_last().insert_ensures(i, (k, v));
        assert(e2.drop_last() =~= e.drop_last().insert(i, (k, v)));
        lemma_map_insert(e.drop_last(), i, k, v);
        assert(e.last().0 != k);
        lemma_insert_commute(map_of(e.drop_last()), k, v, e.last().0, e.last().1);
    }
}


/// The store's value after writing a record list in order: each record a
/// pure overwrite under its key, later records winning.
pub open spec fn store_after(
    m: Map<Seq<u8>, Seq<u8>>,
    recs: Seq<(Seq<u8>, Seq<u8>)>,
) -> Map<Seq<u8>, Seq<u8>>
    decreases recs.len(),
{
    if recs.len() == 0 {
        m
    } else {
        store_after(m, recs.drop_last()).insert(recs.last().0, recs.last().1)
    }
}


/// The value of the last record of `recs` keyed `k`, if any.
pub open spec fn last_record_value(recs: Seq<(Seq<u8>, Seq<u8>)>, k: Seq<u8>) -> Option<Seq<u8>>
    decreases recs.len(),
{
    if recs.len() == 0 {
        None
    } else if recs.last().0 == k {
        Some(recs.last().1)
    } else {
        last_record_value(recs.drop_last(), k)
    }
}

/// What a key maps to after a record list is written: the last record under
/// that key wins; keys no record holds keep their old value.
pub proof fn lemma_store_after_get(
    m: Map<Seq<u8>, Seq<u8>>,
    recs: Seq<(Seq<u8>, Seq<u8>)>,
    k: Seq<u8>,
)
    ensures
        store_after(m, recs).dom().contains(k) == (m.dom().contains(k) || last_record_value(
            recs,
            k,
        ) is Some),
        (last_record_value(recs, k) matches Some(v)) ==> store_after(m, recs)[k]
            == last_record_value(recs, k)->Some_0,
        (last_record_value(recs, k) is None && m.dom().contains(k)) ==> store_after(m, recs)[k]
            == m[k],
    decreases recs.len(),
{
    if recs.len() > 0 {
        lemma_store_after_get(m, recs.drop_last(), k);
    }
}

/// Idempotence: writing the same record list twice leaves the store exactly
/// as writing it once does.
pub proof fn lemma_write_records_idempotent(
    m: Map<Seq<u8>, Seq<u8>>,
    recs: Seq<(Seq<u8>, Seq<u8>)>,
)
    ensures
        store_after(store_after(m, recs), recs) == store_after(m, recs),
{
    let m1 = store_after(m, recs);
    let m2 = store_after(m1, recs);
    assert forall|k: Seq<u8>| true implies #[trigger] m2.dom().contains(k) == m1.dom().contains(
        k,
    ) by {
        lemma_store_after_get(m, recs, k);
        lemma_store_after_get(m1, recs, k);
    }
    assert forall|k: Seq<u8>| m2.dom().contains(k) implies m2[k] == m1[k] by {
        lemma_store_after_get(m, recs, k);
        lemma_store_after_get(m1, recs, k);
    }
    assert(m2 =~= m1);
}

} // verus!
