use vstd::prelude::*;
use crate::order::{
    field_lt, field_cmp, key_le, key_lt, key_view, key_cmp, KeyOrdering,
    lemma_key_lt_trichotomy, lemma_key_le_trans,
};
use crate::types::{FieldValue, FieldValueV};

verus! {

/// One sub-store of a secondary index: entries from a composite key (the
/// record's values at the index's declared fields, in declared order) to the
/// internal id of a record.  Duplicate keys are permitted: several records
/// may share a sort key.  Entries are kept in non-decreasing key order under
/// the installed comparator, so iteration order matches multi-field
/// ascending comparison of the field values.
#[derive(Clone)]
pub struct IndexStore {
    pub entries: Vec<(Vec<FieldValue>, u64)>,
}

/// The model of a stored entry's key.
pub open spec fn entry_key(e: (Vec<FieldValue>, u64)) -> Seq<FieldValueV> {
    key_view(e.0@)
}

/// The entries stand in non-decreasing key order.
pub open spec fn store_sorted(s: Seq<(Vec<FieldValue>, u64)>) -> bool {
    forall|i: int, j: int|
        0 <= i < j < s.len() ==> key_le(entry_key(s[i]), entry_key(s[j]))
}

/// How many entries carry the given key and id.
pub open spec fn entry_count(s: Seq<(Vec<FieldValue>, u64)>, k: Seq<FieldValueV>, id: u64) -> nat
    decreases s.len(),
{
    if s.len() == 0 {
        0
    } else {
        entry_count(s.drop_last(), k, id)
            + if entry_key(s.last()) == k && s.last().1 == id { 1nat } else { 0nat }
    }
}

/// How many entries carry the given id.
pub open spec fn id_count(s: Seq<(Vec<FieldValue>, u64)>, id: u64) -> nat
    decreases s.len(),
{
    if s.len() == 0 {
        0
    } else {
        id_count(s.drop_last(), id) + if s.last().1 == id { 1nat } else { 0nat }
    }
}

/// The entries that remain when every entry of one record is removed.
pub open spec fn remove_id(s: Seq<(Vec<FieldValue>, u64)>, id: u64) -> Seq<(Vec<FieldValue>, u64)>
    decreases s.len(),
{
    if s.len() == 0 {
        s
    } else if s.last().1 == id {
        remove_id(s.drop_last(), id)
    } else {
        remove_id(s.drop_last(), id).push(s.last())
    }
}

/// Whether an entry's key falls in the inclusive range `[lo, hi]` on its
/// first field.
pub open spec fn entry_matches(e: (Vec<FieldValue>, u64), lo: FieldValueV, hi: FieldValueV) -> bool {
    &&& entry_key(e).len() > 0
    &&& !field_lt(entry_key(e)[0], lo)
    &&& !field_lt(hi, entry_key(e)[0])
}

/// The entries whose first key field falls in `[lo, hi]`, in store order.
pub open spec fn scan_entries(s: Seq<(Vec<FieldValue>, u64)>, lo: FieldValueV, hi: FieldValueV)
    -> Seq<(Vec<FieldValue>, u64)>
    decreases s.len(),
{
    if s.len() == 0 {
        s
    } else if entry_matches(s.last(), lo, hi) {
        scan_entries(s.drop_last(), lo, hi).push(s.last())
    } else {
        scan_entries(s.drop_last(), lo, hi)
    }
}

/// The ids of the entries whose first key field falls in `[lo, hi]`, in
/// store order.
pub open spec fn scan_ids(s: Seq<(Vec<FieldValue>, u64)>, lo: FieldValueV, hi: FieldValueV)
    -> Seq<u64>
    decreases s.len(),
{
    if s.len() == 0 {
        Seq::<u64>::empty()
    } else if entry_matches(s.last(), lo, hi) {
        scan_ids(s.drop_last(), lo, hi).push(s.last().1)
    } else {
        scan_ids(s.drop_last(), lo, hi)
    }
}

/// Counting is compatible with insertion at any position.
pub proof fn lemma_count_insert(
    s: Seq<(Vec<FieldValue>, u64)>,
    p: int,
    e: (Vec<FieldValue>, u64),
    k: Seq<FieldValueV>,
    id: u64,
)
    requires
        0 <= p <= s.len(),
    ensures
        entry_count(s.insert(p, e), k, id) == entry_count(s, k, id)
            + if entry_key(e) == k && e.1 == id { 1nat } else { 0nat },
        id_count(s.insert(p, e), id) == id_count(s, id) + if e.1 == id { 1nat } else { 0nat },
    decreases s.len(),
{
    if p == s.len() {
        assert(s.insert(p, e).drop_last() =~= s);
        assert(s.insert(p, e).last() == e);
    } else {
        assert(s.insert(p, e).drop_last() =~= s.drop_last().insert(p, e));
        assert(s.insert(p, e).last() == s.last());
        lemma_count_insert(s.drop_last(), p, e, k, id);
    }
}

/// Removal by id empties that id's entries, leaves every other entry's
/// count unchanged, and shortens the store by exactly the removed count.
pub proof fn lemma_remove_id_counts(s: Seq<(Vec<FieldValue>, u64)>, id: u64)
    ensures
        id_count(remove_id(s, id), id) == 0,
        forall|id2: u64| id2 != id ==> id_count(remove_id(s, id), id2) == id_count(s, id2),
        forall|k: Seq<FieldValueV>, id2: u64|
            id2 != id ==> entry_count(remove_id(s, id), k, id2) == entry_count(s, k, id2),
        forall|k: Seq<FieldValueV>| entry_count(remove_id(s, id), k, id) == 0,
        remove_id(s, id).len() + id_count(s, id) == s.len(),
    decreases s.len(),
{
    if s.len() > 0 {
        lemma_remove_id_counts(s.drop_last(), id);
        let inner = remove_id(s.drop_last(), id);
        if s.last().1 != id {
            assert(remove_id(s, id).drop_last() =~= inner);
            assert(remove_id(s, id).last() == s.last());
        }
        assert forall|k: Seq<FieldValueV>, id2: u64| id2 != id
            implies entry_count(remove_id(s, id), k, id2) == entry_count(s, k, id2) by {
            assert(entry_count(s, k, id2) == entry_count(s.drop_last(), k, id2)
                + if entry_key(s.last()) == k && s.last().1 == id2 { 1nat } else { 0nat });
            assert(entry_count(inner, k, id2) == entry_count(s.drop_last(), k, id2));
            if s.last().1 != id {
                assert(entry_count(remove_id(s, id), k, id2) == entry_count(inner, k, id2)
                    + if entry_key(s.last()) == k && s.last().1 == id2 { 1nat } else { 0nat });
            } else {
                assert(remove_id(s, id) == inner);
            }
        }
        assert forall|k: Seq<FieldValueV>|
            entry_count(remove_id(s, id), k, id) == 0 by {
            if s.last().1 != id {
                assert(entry_count(remove_id(s, id), k, id) == entry_count(inner, k, id) + 0nat);
            }
        }
        assert forall|id2: u64| id2 != id
            implies id_count(remove_id(s, id), id2) == id_count(s, id2) by {
            assert(id_count(s, id2) == id_count(s.drop_last(), id2)
                + if s.last().1 == id2 { 1nat } else { 0nat });
            assert(id_count(inner, id2) == id_count(s.drop_last(), id2));
            if s.last().1 != id {
                assert(id_count(remove_id(s, id), id2) == id_count(inner, id2)
                    + if s.last().1 == id2 { 1nat } else { 0nat });
            } else {
                assert(remove_id(s, id) == inner);
            }
        }
    }
}

/// Every entry of `remove_id(s, id)` respects a bound that every entry of
/// `s` respects.
proof fn lemma_remove_id_bounded(s: Seq<(Vec<FieldValue>, u64)>, id: u64, bound: Seq<FieldValueV>)
    requires
        forall|i: int| 0 <= i < s.len() ==> key_le(entry_key(s[i]), bound),
    ensures
        forall|i: int|
            0 <= i < remove_id(s, id).len() ==> key_le(entry_key(remove_id(s, id)[i]), bound),
    decreases s.len(),
{
    if s.len() > 0 {
        assert(forall|i: int| 0 <= i < s.drop_last().len() ==> key_le(entry_key(s.drop_last()[i]), bound));
        lemma_remove_id_bounded(s.drop_last(), id, bound);
        if s.last().1 != id {
            let r = remove_id(s.drop_last(), id).push(s.last());
            assert(key_le(entry_key(s.last()), bound));
            assert(forall|i: int| 0 <= i < r.len() - 1 ==> r[i] == remove_id(s.drop_last(), id)[i]);
        }
    }
}

/// Removal by id preserves the sort order.
pub proof fn lemma_remove_id_sorted(s: Seq<(Vec<FieldValue>, u64)>, id: u64)
    requires
        store_sorted(s),
    ensures
        store_sorted(remove_id(s, id)),
    decreases s.len(),
{
    if s.len() > 0 {
        let t = s.drop_last();
        assert(forall|i: int| 0 <= i < t.len() ==> t[i] == s[i]);
        assert(store_sorted(t));
        lemma_remove_id_sorted(t, id);
        if s.last().1 != id {
            let inner = remove_id(t, id);
            let r = inner.push(s.last());
            assert(forall|i: int| 0 <= i < t.len() ==> key_le(entry_key(t[i]), entry_key(s.last())));
            lemma_remove_id_bounded(t, id, entry_key(s.last()));
            assert(forall|i: int| 0 <= i < r.len() - 1 ==> r[i] == inner[i]);
            assert(store_sorted(r));
        }
    }
}

/// Every entry of `scan_entries(s, lo, hi)` respects a bound that every
/// entry of `s` respects.
proof fn lemma_scan_bounded(
    s: Seq<(Vec<FieldValue>, u64)>,
    lo: FieldValueV,
    hi: FieldValueV,
    bound: Seq<FieldValueV>,
)
    requires
        forall|i: int| 0 <= i < s.len() ==> key_le(entry_key(s[i]), bound),
    ensures
        forall|i: int|
            0 <= i < scan_entries(s, lo, hi).len()
                ==> key_le(entry_key(scan_entries(s, lo, hi)[i]), bound),
    decreases s.len(),
{
    if s.len() > 0 {
        assert(forall|i: int| 0 <= i < s.drop_last().len() ==> key_le(entry_key(s.drop_last()[i]), bound));
        lemma_scan_bounded(s.drop_last(), lo, hi, bound);
        if entry_matches(s.last(), lo, hi) {
            let r = scan_entries(s.drop_last(), lo, hi).push(s.last());
            assert(key_le(entry_key(s.last()), bound));
            assert(forall|i: int| 0 <= i < r.len() - 1 ==> r[i] == scan_entries(s.drop_last(), lo, hi)[i]);
        }
    }
}

/// A range scan of a sorted sub-store yields its matching entries in
/// non-decreasing key order, and the scanned ids are exactly those entries'
/// ids in that order: inserting records in arbitrary order and then
/// range-scanning the index observes ids in ascending key order.
pub proof fn lemma_scan_respects_order(s: Seq<(Vec<FieldValue>, u64)>, lo: FieldValueV, hi: FieldValueV)
    requires
        store_sorted(s),
    ensures
        store_sorted(scan_entries(s, lo, hi)),
        scan_ids(s, lo, hi) == scan_entries(s, lo, hi).map_values(|e: (Vec<FieldValue>, u64)| e.1),
    decreases s.len(),
{
    if s.len() > 0 {
        let t = s.drop_last();
        assert(forall|i: int| 0 <= i < t.len() ==> t[i] == s[i]);
        assert(store_sorted(t));
        lemma_scan_respects_order(t, lo, hi);
        if entry_matches(s.last(), lo, hi) {
            let inner = scan_entries(t, lo, hi);
            let r = inner.push(s.last());
            assert(forall|i: int| 0 <= i < t.len() ==> key_le(entry_key(t[i]), entry_key(s.last())));
            lemma_scan_bounded(t, lo, hi, entry_key(s.last()));
            assert(forall|i: int| 0 <= i < r.len() - 1 ==> r[i] == inner[i]);
            assert(store_sorted(r));
            assert(scan_ids(s, lo, hi) =~= r.map_values(|e: (Vec<FieldValue>, u64)| e.1));
        } else {
            assert(scan_ids(s, lo, hi) =~= scan_entries(s, lo, hi).map_values(|e: (Vec<FieldValue>, u64)| e.1));
        }
    }
}

/// `remove_id` distributes over concatenation.
proof fn lemma_remove_id_concat(a: Seq<(Vec<FieldValue>, u64)>, b: Seq<(Vec<FieldValue>, u64)>, id: u64)
    ensures
        remove_id(a + b, id) == remove_id(a, id) + remove_id(b, id),
    decreases b.len(),
{
    if b.len() == 0 {
        assert(a + b =~= a);
        assert(remove_id(a, id) + remove_id(b, id) =~= remove_id(a, id));
    } else {
        assert((a + b).drop_last() =~= a + b.drop_last());
        assert((a + b).last() == b.last());
        lemma_remove_id_concat(a, b.drop_last(), id);
        if b.last().1 == id {
        } else {
            assert(remove_id(a, id) + remove_id(b.drop_last(), id).push(b.last())
                =~= (remove_id(a, id) + remove_id(b.drop_last(), id)).push(b.last()));
        }
    }
}

/// Peels the first entry off a `remove_id` computation.
proof fn lemma_remove_id_front(s: Seq<(Vec<FieldValue>, u64)>, id: u64)
    requires
        s.len() > 0,
    ensures
        s[0].1 == id ==> remove_id(s, id) == remove_id(s.drop_first(), id),
        s[0].1 != id ==> remove_id(s, id) == seq![s[0]] + remove_id(s.drop_first(), id),
{
    let single = seq![s[0]];
    assert(s =~= single + s.drop_first());
    lemma_remove_id_concat(single, s.drop_first(), id);
    assert(single.last() == s[0]);
    assert(single.drop_last() =~= Seq::<(Vec<FieldValue>, u64)>::empty());
    assert(remove_id(Seq::<(Vec<FieldValue>, u64)>::empty(), id).len() == 0);
    if s[0].1 == id {
        assert(remove_id(single, id) =~= Seq::<(Vec<FieldValue>, u64)>::empty());
        assert(remove_id(single, id) + remove_id(s.drop_first(), id)
            =~= remove_id(s.drop_first(), id));
    } else {
        assert(remove_id(single, id)
            =~= remove_id(Seq::<(Vec<FieldValue>, u64)>::empty(), id).push(s[0]));
        assert(remove_id(single, id) =~= single);
    }
}

impl IndexStore {
    /// The model of this sub-store: its entry sequence.
    pub open spec fn view_entries(self) -> Seq<(Vec<FieldValue>, u64)> {
        self.entries@
    }

    /// Creates an empty sub-store.
    pub fn new() -> (r: IndexStore)
        ensures
            r.entries@.len() == 0,
            store_sorted(r.entries@),
    {
        IndexStore { entries: Vec::new() }
    }

    /// Inserts one entry at its sorted position.
    pub fn add(&mut self, key: Vec<FieldValue>, id: u64)
        requires
            store_sorted(old(self).entries@),
        ensures
            store_sorted(final(self).entries@),
            final(self).entries@.len() == old(self).entries@.len() + 1,
            entry_count(final(self).entries@, key_view(key@), id)
                == entry_count(old(self).entries@, key_view(key@), id) + 1,
            forall|k: Seq<FieldValueV>, id2: u64|
                k != key_view(key@) || id2 != id
                    ==> entry_count(final(self).entries@, k, id2)
                        == entry_count(old(self).entries@, k, id2),
            id_count(final(self).entries@, id) == id_count(old(self).entries@, id) + 1,
            forall|id2: u64|
                id2 != id ==> id_count(final(self).entries@, id2) == id_count(old(self).entries@, id2),
    {
        let ghost s = self.entries@;
        let ghost keyv = key_view(key@);
        let mut p: usize = self.entries.len();
        let mut i: usize = 0;
        while i < self.entries.len()
            invariant
                self.entries@ == s,
                keyv == key_view(key@),
                i <= s.len(),
                p as int <= s.len(),
                p == s.len() ==> forall|j: int| 0 <= j < i ==> key_lt(entry_key(s[j]), keyv),
                p < s.len() ==> key_le(keyv, entry_key(s[p as int]))
                    && (forall|j: int| 0 <= j < p ==> key_lt(entry_key(s[j]), keyv)),
            decreases s.len() - i,
        {
            if p == self.entries.len() {
                let c = key_cmp(&key, &self.entries[i].0);
                if !(c == KeyOrdering::Greater) {
                    p = i;
                }
            }
            i = i + 1;
        }
        let ghost e = (key@, id);
        self.entries.insert(p, (key, id));
        proof {
            let t = self.entries@;
            let newe = t[p as int];
            assert(t =~= s.insert(p as int, newe));
            assert(entry_key(newe) == keyv);
            assert forall|i2: int, j2: int| 0 <= i2 < j2 < t.len()
                implies key_le(entry_key(t[i2]), entry_key(t[j2])) by {
                let pi = p as int;
                if i2 < pi && j2 == pi {
                    lemma_key_lt_trichotomy(entry_key(s[i2]), keyv);
                } else if i2 == pi && j2 > pi {
                    if j2 - 1 > pi {
                        assert(key_le(entry_key(s[pi]), entry_key(s[j2 - 1])));
                        lemma_key_le_trans(keyv, entry_key(s[pi]), entry_key(s[j2 - 1]));
                    }
                } else if i2 < pi && j2 > pi {
                    assert(key_le(entry_key(s[i2]), entry_key(s[j2 - 1])));
                } else if i2 > pi && j2 > pi {
                    assert(key_le(entry_key(s[i2 - 1]), entry_key(s[j2 - 1])));
                }
            }
            lemma_count_insert(s, p as int, newe, keyv, id);
            assert forall|k: Seq<FieldValueV>, id2: u64|
                k != keyv || id2 != id
                    implies entry_count(t, k, id2) == entry_count(s, k, id2) by {
                lemma_count_insert(s, p as int, newe, k, id2);
            }
            assert forall|id2: u64| id2 != id
                implies id_count(t, id2) == id_count(s, id2) by {
                lemma_count_insert(s, p as int, newe, keyv, id2);
            }
        }
    }

    /// Removes every entry that carries the given record id.
    pub fn remove_record(&mut self, id: u64)
        ensures
            final(self).entries@ == remove_id(old(self).entries@, id),
    {
        let ghost orig = self.entries@;
        proof {
            assert(self.entries@.skip(0) =~= self.entries@);
            assert(self.entries@.subrange(0, 0) + remove_id(self.entries@, id)
                =~= remove_id(self.entries@, id));
        }
        let mut i: usize = 0;
        while i < self.entries.len()
            invariant
                i <= self.entries@.len(),
                forall|j: int| 0 <= j < i ==> self.entries@[j].1 != id,
                remove_id(orig, id) == self.entries@.subrange(0, i as int)
                    + remove_id(self.entries@.skip(i as int), id),
            decreases self.entries@.len() - i,
        {
            let ghost cur = self.entries@;
            let ghost rest = cur.skip(i as int);
            proof {
                assert(rest.len() > 0);
                assert(rest[0] == cur[i as int]);
                assert(rest.drop_first() =~= cur.skip(i as int + 1));
                lemma_remove_id_front(rest, id);
            }
            if self.entries[i].1 == id {
                let _ = self.entries.remove(i);
                proof {
                    assert(self.entries@.subrange(0, i as int) =~= cur.subrange(0, i as int));
                    assert(self.entries@.skip(i as int) =~= cur.skip(i as int + 1));
                }
            } else {
                i = i + 1;
                proof {
                    assert(cur.subrange(0, (i - 1) as int) + remove_id(rest, id)
                        =~= cur.subrange(0, i as int) + remove_id(cur.skip(i as int), id));
                }
            }
        }
        proof {
            assert(remove_id(self.entries@.skip(self.entries@.len() as int), id).len() == 0);
            assert(remove_id(orig, id) =~= self.entries@);
        }
    }

    /// Returns the ids of the entries whose first key field lies in the
    /// inclusive range `[lo, hi]`, in store order.
    pub fn scan(&self, lo: &FieldValue, hi: &FieldValue) -> (r: Vec<u64>)
        ensures
            r@ == scan_ids(self.entries@, lo@, hi@),
    {
        let mut out: Vec<u64> = Vec::new();
        let mut i: usize = 0;
        while i < self.entries.len()
            invariant
                i <= self.entries@.len(),
                out@ == scan_ids(self.entries@.subrange(0, i as int), lo@, hi@),
            decreases self.entries@.len() - i,
        {
            let ghost prefix = self.entries@.subrange(0, i as int);
            let e = &self.entries[i];
            let matched = if e.0.len() == 0 {
                false
            } else {
                let c_lo = field_cmp(&e.0[0], lo);
                let c_hi = field_cmp(&e.0[0], hi);
                !(c_lo == KeyOrdering::Less) && !(c_hi == KeyOrdering::Greater)
            };
            proof {
                assert(entry_key(self.entries@[i as int]).len() == self.entries@[i as int].0@.len());
                if self.entries@[i as int].0@.len() > 0 {
                    assert(entry_key(self.entries@[i as int])[0] == self.entries@[i as int].0@[0]@);
                }
                assert(matched == entry_matches(self.entries@[i as int], lo@, hi@));
            }
            if matched {
                out.push(e.1);
            }
            i = i + 1;
            proof {
                let prefix2 = self.entries@.subrange(0, i as int);
                assert(prefix2.drop_last() =~= prefix);
                assert(prefix2.last() == self.entries@[i - 1]);
            }
        }
        proof {
            assert(self.entries@.subrange(0, self.entries@.len() as int) =~= self.entries@);
        }
        out
    }
}

} // verus!
