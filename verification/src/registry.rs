use vstd::prelude::*;
use crate::index::{
    entry_count, id_count, remove_id, store_sorted, IndexStore,
    lemma_remove_id_sorted,
};
use crate::order::key_view;
use crate::types::{FieldValue, FieldValueV};

verus! {

/// Names one secondary-index sub-store: the schema id it belongs to and the
/// ordinal of the index definition within that schema's declaration list.
/// An explicit two-field key, so distinct schemas and ordinals can never
/// collide.
#[derive(Clone, Copy, PartialEq, Eq, Structural, Debug)]
pub struct IndexHandle {
    pub schema_id: u32,
    pub ordinal: usize,
}

/// The directory from index handles to index sub-stores.  It is populated
/// only at schema registration and consulted on every mutation and query;
/// an explicitly owned, constructed-once component passed to its
/// dependents.
#[derive(Clone)]
pub struct IndexRegistry {
    pub entries: Vec<(IndexHandle, IndexStore)>,
}

/// The sub-store bound to a handle; the first binding wins.
pub open spec fn reg_find(s: Seq<(IndexHandle, IndexStore)>, h: IndexHandle) -> Option<IndexStore>
    decreases s.len(),
{
    if s.len() == 0 {
        None
    } else if s[0].0 == h {
        Some(s[0].1)
    } else {
        reg_find(s.drop_first(), h)
    }
}

/// Every registered sub-store is sorted, and no handle is bound twice.
pub open spec fn registry_wf(s: Seq<(IndexHandle, IndexStore)>) -> bool {
    &&& forall|j: int| 0 <= j < s.len() ==> store_sorted(#[trigger] s[j].1.entries@)
    &&& forall|i: int, j: int| 0 <= i < j < s.len() ==> s[i].0 != s[j].0
}

proof fn lemma_reg_find_skip(s: Seq<(IndexHandle, IndexStore)>, h: IndexHandle, i: int)
    requires
        0 <= i <= s.len(),
        forall|j: int| 0 <= j < i ==> s[j].0 != h,
    ensures
        reg_find(s, h) == reg_find(s.skip(i), h),
    decreases i,
{
    if i > 0 {
        assert(s.drop_first().skip(i - 1) =~= s.skip(i));
        assert(forall|j: int| 0 <= j < i - 1 ==> s.drop_first()[j].0 != h);
        lemma_reg_find_skip(s.drop_first(), h, i - 1);
    } else {
        assert(s.skip(0) =~= s);
    }
}

proof fn lemma_reg_find_push(s: Seq<(IndexHandle, IndexStore)>, e: (IndexHandle, IndexStore), h: IndexHandle)
    ensures
        reg_find(s.push(e), h) == if reg_find(s, h) is Some {
            reg_find(s, h)
        } else if e.0 == h {
            Some(e.1)
        } else {
            None::<IndexStore>
        },
    decreases s.len(),
{
    if s.len() == 0 {
        assert(s.push(e)[0] == e);
        assert(s.push(e).drop_first() =~= s);
    } else {
        assert(s.push(e)[0] == s[0]);
        assert(s.push(e).drop_first() =~= s.drop_first().push(e));
        lemma_reg_find_push(s.drop_first(), e, h);
    }
}

/// With distinct handles, any binding of a handle is the one `reg_find`
/// returns.
pub proof fn lemma_reg_find_index(s: Seq<(IndexHandle, IndexStore)>, h: IndexHandle)
    requires
        forall|i: int, j: int| 0 <= i < j < s.len() ==> s[i].0 != s[j].0,
    ensures
        forall|j: int| 0 <= j < s.len() && (#[trigger] s[j]).0 == h ==> reg_find(s, h) == Some(s[j].1),
        reg_find(s, h) is None ==> forall|j: int| 0 <= j < s.len() ==> (#[trigger] s[j]).0 != h,
    decreases s.len(),
{
    if s.len() > 0 {
        assert(forall|i: int, j: int|
            0 <= i < j < s.drop_first().len() ==> s.drop_first()[i].0 != s.drop_first()[j].0);
        lemma_reg_find_index(s.drop_first(), h);
        assert(forall|j: int| 1 <= j < s.len() ==> #[trigger] s[j] == s.drop_first()[j - 1]);
    }
}

impl IndexRegistry {
    /// Creates an empty registry.
    pub fn new() -> (r: IndexRegistry)
        ensures
            r.entries@.len() == 0,
            registry_wf(r.entries@),
    {
        IndexRegistry { entries: Vec::new() }
    }

    /// Finds the position of the sub-store bound to a handle.
    pub fn position(&self, h: IndexHandle) -> (r: Option<usize>)
        ensures
            match r {
                Some(p) => {
                    &&& p < self.entries@.len()
                    &&& self.entries@[p as int].0 == h
                    &&& forall|j: int| 0 <= j < p ==> self.entries@[j].0 != h
                    &&& reg_find(self.entries@, h) == Some(self.entries@[p as int].1)
                },
                None => {
                    &&& reg_find(self.entries@, h) is None
                    &&& forall|j: int| 0 <= j < self.entries@.len() ==> self.entries@[j].0 != h
                },
            },
    {
        let ghost s = self.entries@;
        let mut i: usize = 0;
        while i < self.entries.len()
            invariant
                s == self.entries@,
                i <= s.len(),
                forall|j: int| 0 <= j < i ==> s[j].0 != h,
            decreases s.len() - i,
        {
            if self.entries[i].0 == h {
                proof {
                    lemma_reg_find_skip(s, h, i as int);
                    assert(s.skip(i as int)[0] == s[i as int]);
                }
                return Some(i);
            }
            i = i + 1;
        }
        proof {
            lemma_reg_find_skip(s, h, s.len() as int);
            assert(s.skip(s.len() as int).len() == 0);
        }
        None
    }

    /// Registers a sub-store for a handle.  Registration is idempotent: a
    /// handle that is already bound keeps its existing sub-store.
    pub fn register(&mut self, h: IndexHandle, store: IndexStore)
        requires
            registry_wf(old(self).entries@),
            store_sorted(store.entries@),
        ensures
            registry_wf(final(self).entries@),
            reg_find(old(self).entries@, h) is Some ==> final(self).entries@ == old(self).entries@,
            reg_find(old(self).entries@, h) is None ==> {
                &&& final(self).entries@ == old(self).entries@.push((h, store))
                &&& reg_find(final(self).entries@, h) == Some(store)
            },
            reg_find(final(self).entries@, h) is Some,
            forall|h2: IndexHandle| h2 != h
                ==> reg_find(final(self).entries@, h2) == reg_find(old(self).entries@, h2),
    {
        let ghost s = self.entries@;
        let pos = self.position(h);
        match pos {
            Some(_) => {},
            None => {
                self.entries.push((h, store));
                proof {
                    let e = self.entries@.last();
                    assert(self.entries@ =~= s.push(e));
                    assert(e.0 == h);
                    lemma_reg_find_push(s, e, h);
                    assert forall|h2: IndexHandle| h2 != h
                        implies reg_find(self.entries@, h2) == reg_find(s, h2) by {
                        lemma_reg_find_push(s, e, h2);
                    }
                    assert(forall|j: int| 0 <= j < s.len() ==> #[trigger] self.entries@[j] == s[j]);
                    assert forall|j: int| 0 <= j < self.entries@.len()
                        implies store_sorted((#[trigger] self.entries@[j]).1.entries@) by {
                        if j < s.len() {
                            assert(store_sorted(s[j].1.entries@));
                        }
                    }
                }
            },
        }
    }

    /// Adds one entry to the sub-store at the given position, keeping it
    /// sorted.
    pub fn add_entry(&mut self, pos: usize, key: Vec<FieldValue>, id: u64)
        requires
            registry_wf(old(self).entries@),
            pos < old(self).entries@.len(),
        ensures
            registry_wf(final(self).entries@),
            final(self).entries@.len() == old(self).entries@.len(),
            forall|j: int| 0 <= j < old(self).entries@.len()
                ==> (#[trigger] final(self).entries@[j]).0 == old(self).entries@[j].0,
            forall|j: int| 0 <= j < old(self).entries@.len() && j != pos
                ==> (#[trigger] final(self).entries@[j]).1 == old(self).entries@[j].1,
            final(self).entries@[pos as int].1.entries@.len()
                == old(self).entries@[pos as int].1.entries@.len() + 1,
            entry_count(final(self).entries@[pos as int].1.entries@, key_view(key@), id)
                == entry_count(old(self).entries@[pos as int].1.entries@, key_view(key@), id) + 1,
            forall|k: Seq<FieldValueV>, id2: u64|
                k != key_view(key@) || id2 != id
                    ==> entry_count(final(self).entries@[pos as int].1.entries@, k, id2)
                        == entry_count(old(self).entries@[pos as int].1.entries@, k, id2),
            id_count(final(self).entries@[pos as int].1.entries@, id)
                == id_count(old(self).entries@[pos as int].1.entries@, id) + 1,
            forall|id2: u64| id2 != id
                ==> id_count(final(self).entries@[pos as int].1.entries@, id2)
                    == id_count(old(self).entries@[pos as int].1.entries@, id2),
    {
        let ghost s = self.entries@;
        let (h, mut store) = self.entries.remove(pos);
        proof {
            assert(store_sorted(s[pos as int].1.entries@));
        }
        store.add(key, id);
        self.entries.insert(pos, (h, store));
        proof {
            let t = self.entries@;
            assert(forall|j: int| 0 <= j < pos ==> #[trigger] t[j] == s[j]);
            assert(forall|j: int| pos < j < t.len() ==> #[trigger] t[j] == s[j]);
            assert(t[pos as int].0 == s[pos as int].0);
            assert forall|j: int| 0 <= j < t.len()
                implies store_sorted((#[trigger] t[j]).1.entries@) by {
                if j != pos {
                    assert(store_sorted(s[j].1.entries@));
                }
            }
        }
    }

    /// Removes every entry of one record id from every registered
    /// sub-store: the per-record index cleanup of a delete.
    pub fn remove_record_entries(&mut self, id: u64)
        requires
            registry_wf(old(self).entries@),
        ensures
            registry_wf(final(self).entries@),
            final(self).entries@.len() == old(self).entries@.len(),
            forall|j: int| 0 <= j < old(self).entries@.len()
                ==> (#[trigger] final(self).entries@[j]).0 == old(self).entries@[j].0,
            forall|j: int| 0 <= j < old(self).entries@.len()
                ==> (#[trigger] final(self).entries@[j]).1.entries@
                    == remove_id(old(self).entries@[j].1.entries@, id),
    {
        let ghost s = self.entries@;
        let mut i: usize = 0;
        while i < self.entries.len()
            invariant
                self.entries@.len() == s.len(),
                i <= s.len(),
                registry_wf(s),
                forall|j: int| 0 <= j < s.len() ==> (#[trigger] self.entries@[j]).0 == s[j].0,
                forall|j: int| 0 <= j < i
                    ==> (#[trigger] self.entries@[j]).1.entries@ == remove_id(s[j].1.entries@, id),
                forall|j: int| i <= j < s.len() ==> (#[trigger] self.entries@[j]).1 == s[j].1,
            decreases s.len() - i,
        {
            let ghost cur = self.entries@;
            let (h, mut store) = self.entries.remove(i);
            store.remove_record(id);
            self.entries.insert(i, (h, store));
            proof {
                let t = self.entries@;
                assert(forall|j: int| 0 <= j < i ==> #[trigger] t[j] == cur[j]);
                assert(forall|j: int| i < j < t.len() ==> #[trigger] t[j] == cur[j]);
                assert(t[i as int].0 == cur[i as int].0);
                assert(t[i as int].1.entries@ == remove_id(cur[i as int].1.entries@, id));
            }
            i = i + 1;
        }
        proof {
            assert forall|j: int| 0 <= j < self.entries@.len()
                implies store_sorted((#[trigger] self.entries@[j]).1.entries@) by {
                assert(store_sorted(s[j].1.entries@));
                lemma_remove_id_sorted(s[j].1.entries@, id);
            }
        }
    }
}

} // verus!
