use vstd::prelude::*;
use crate::index::{entry_count, id_count, IndexStore};
use crate::order::key_view;
use crate::registry::{reg_find, registry_wf, IndexHandle, IndexRegistry, lemma_reg_find_index};
use crate::types::{
    copy_field_value, index_fields, FieldValue, FieldValueV, IndexDefinition, IndexDefinitionV,
};

verus! {

/// The composite key an index definition derives from a record's values:
/// the values at the named field positions, in declared order.
pub open spec fn secondary_key_v(d: IndexDefinitionV, vals: Seq<FieldValueV>) -> Seq<FieldValueV> {
    index_fields(d).map_values(|f: usize| vals[f as int])
}

/// The handle of one secondary-index sub-store.
pub open spec fn handle_of(schema_id: u32, ordinal: int) -> IndexHandle {
    IndexHandle { schema_id, ordinal: ordinal as usize }
}

/// The entry sequence of the sub-store bound to a handle, empty when none
/// is bound.
pub open spec fn store_entries_at(s: Seq<(IndexHandle, IndexStore)>, h: IndexHandle)
    -> Seq<(Vec<FieldValue>, u64)>
{
    match reg_find(s, h) {
        Some(st) => st.entries@,
        None => Seq::<(Vec<FieldValue>, u64)>::empty(),
    }
}

/// Every field position an index definition names lies below the given
/// value count.
pub open spec fn defs_in_bounds(ds: Seq<IndexDefinition>, n: int) -> bool {
    forall|ord: int, i: int|
        0 <= ord < ds.len() && 0 <= i < index_fields(ds[ord]@).len()
            ==> #[trigger] index_fields(ds[ord]@)[i] < n
}

/// Extracts and concatenates the named field values from a record in
/// declared order: the composite key of one secondary-index entry.
pub fn secondary_key(def: &IndexDefinition, values: &Vec<FieldValue>) -> (r: Vec<FieldValue>)
    requires
        forall|i: int|
            0 <= i < index_fields(def@).len() ==> index_fields(def@)[i] < values@.len(),
    ensures
        key_view(r@) == secondary_key_v(def@, values@.map_values(|v: FieldValue| v@)),
        r@.len() == index_fields(def@).len(),
{
    let ghost vals = values@.map_values(|v: FieldValue| v@);
    let fs = match def {
        IndexDefinition::SortedInverted(fs) => fs,
    };
    proof {
        assert forall|j: int| 0 <= j < fs@.len() implies fs@[j] < values@.len() by {
            assert(index_fields(def@)[j] < values@.len());
        }
    }
    let mut out: Vec<FieldValue> = Vec::new();
    let mut i: usize = 0;
    while i < fs.len()
        invariant
            i <= fs@.len(),
            fs@ == index_fields(def@),
            vals == values@.map_values(|v: FieldValue| v@),
            vals.len() == values@.len(),
            forall|j: int| 0 <= j < fs@.len() ==> fs@[j] < values@.len(),
            out@.len() == i,
            forall|j: int| 0 <= j < i ==> out@[j]@ == vals[fs@[j] as int],
        decreases fs@.len() - i,
    {
        let f = fs[i];
        out.push(copy_field_value(&values[f]));
        i = i + 1;
    }
    proof {
        assert(key_view(out@) =~= secondary_key_v(def@, vals));
    }
    out
}

/// Builds the index entries of one freshly stored record: writes the
/// primary-key index entry for its lookup key, and one entry per declared
/// secondary index, each at its sorted position in that index's sub-store.
/// Runs inside the caller's mutation, so it participates in the same
/// all-or-nothing state change.
pub fn build_indexes(
    primary_index: &mut Vec<(Vec<u8>, u64)>,
    registry: &mut IndexRegistry,
    lookup_key: Vec<u8>,
    schema_id: u32,
    secondary_indexes: &Vec<IndexDefinition>,
    values: &Vec<FieldValue>,
    id: u64,
)
    requires
        registry_wf(old(registry).entries@),
        defs_in_bounds(secondary_indexes@, values@.len() as int),
        forall|ord: int| 0 <= ord < secondary_indexes@.len()
            ==> reg_find(old(registry).entries@, handle_of(schema_id, ord)) is Some,
    ensures
        final(primary_index)@ == old(primary_index)@.push((lookup_key, id)),
        registry_wf(final(registry).entries@),
        final(registry).entries@.len() == old(registry).entries@.len(),
        forall|j: int| 0 <= j < old(registry).entries@.len()
            ==> (#[trigger] final(registry).entries@[j]).0 == old(registry).entries@[j].0,
        forall|h2: IndexHandle|
            !(h2.schema_id == schema_id && (h2.ordinal as int) < secondary_indexes@.len())
                ==> reg_find(final(registry).entries@, h2) == reg_find(old(registry).entries@, h2),
        forall|ord: int| 0 <= ord < secondary_indexes@.len()
            ==> #[trigger] store_entries_at(final(registry).entries@, handle_of(schema_id, ord)).len()
                == store_entries_at(old(registry).entries@, handle_of(schema_id, ord)).len() + 1,
        forall|ord: int| 0 <= ord < secondary_indexes@.len()
            ==> entry_count(
                    #[trigger] store_entries_at(final(registry).entries@, handle_of(schema_id, ord)),
                    secondary_key_v(secondary_indexes@[ord]@, values@.map_values(|v: FieldValue| v@)),
                    id,
                ) == entry_count(
                    store_entries_at(old(registry).entries@, handle_of(schema_id, ord)),
                    secondary_key_v(secondary_indexes@[ord]@, values@.map_values(|v: FieldValue| v@)),
                    id,
                ) + 1,
        forall|ord: int, k: Seq<FieldValueV>, id2: u64|
            0 <= ord < secondary_indexes@.len()
                && (k != secondary_key_v(
                        secondary_indexes@[ord]@,
                        values@.map_values(|v: FieldValue| v@),
                    ) || id2 != id)
                ==> #[trigger] entry_count(
                        store_entries_at(final(registry).entries@, handle_of(schema_id, ord)),
                        k,
                        id2,
                    ) == entry_count(
                        store_entries_at(old(registry).entries@, handle_of(schema_id, ord)),
                        k,
                        id2,
                    ),
        forall|ord: int, id2: u64|
            0 <= ord < secondary_indexes@.len() && id2 != id
                ==> #[trigger] id_count(
                        store_entries_at(final(registry).entries@, handle_of(schema_id, ord)),
                        id2,
                    ) == id_count(
                        store_entries_at(old(registry).entries@, handle_of(schema_id, ord)),
                        id2,
                    ),
        forall|ord: int|
            0 <= ord < secondary_indexes@.len()
                ==> id_count(
                        #[trigger] store_entries_at(final(registry).entries@, handle_of(schema_id, ord)),
                        id,
                    ) == id_count(
                        store_entries_at(old(registry).entries@, handle_of(schema_id, ord)),
                        id,
                    ) + 1,
{
    primary_index.push((lookup_key, id));
    let ghost orig = registry.entries@;
    let ghost vals = values@.map_values(|v: FieldValue| v@);
    let mut ord: usize = 0;
    while ord < secondary_indexes.len()
        invariant
            vals == values@.map_values(|v: FieldValue| v@),
            defs_in_bounds(secondary_indexes@, values@.len() as int),
            vals.len() == values@.len(),
            ord <= secondary_indexes@.len(),
            registry_wf(registry.entries@),
            registry.entries@.len() == orig.len(),
            forall|i: int, j: int| 0 <= i < j < orig.len() ==> orig[i].0 != orig[j].0,
            forall|j: int| 0 <= j < orig.len()
                ==> (#[trigger] registry.entries@[j]).0 == orig[j].0,
            forall|ord2: int| 0 <= ord2 < secondary_indexes@.len()
                ==> reg_find(orig, handle_of(schema_id, ord2)) is Some,
            forall|h2: IndexHandle|
                !(h2.schema_id == schema_id && (h2.ordinal as int) < ord)
                    ==> reg_find(registry.entries@, h2) == reg_find(orig, h2),
            forall|ord2: int| 0 <= ord2 < ord
                ==> #[trigger] store_entries_at(registry.entries@, handle_of(schema_id, ord2)).len()
                    == store_entries_at(orig, handle_of(schema_id, ord2)).len() + 1,
            forall|ord2: int| 0 <= ord2 < ord
                ==> entry_count(
                        #[trigger] store_entries_at(registry.entries@, handle_of(schema_id, ord2)),
                        secondary_key_v(secondary_indexes@[ord2]@, vals),
                        id,
                    ) == entry_count(
                        store_entries_at(orig, handle_of(schema_id, ord2)),
                        secondary_key_v(secondary_indexes@[ord2]@, vals),
                        id,
                    ) + 1,
            forall|ord2: int, k: Seq<FieldValueV>, id2: u64|
                0 <= ord2 < ord
                    && (k != secondary_key_v(secondary_indexes@[ord2]@, vals) || id2 != id)
                    ==> #[trigger] entry_count(
                            store_entries_at(registry.entries@, handle_of(schema_id, ord2)),
                            k,
                            id2,
                        ) == entry_count(store_entries_at(orig, handle_of(schema_id, ord2)), k, id2),
            forall|ord2: int, id2: u64|
                0 <= ord2 < ord && id2 != id
                    ==> #[trigger] id_count(
                            store_entries_at(registry.entries@, handle_of(schema_id, ord2)),
                            id2,
                        ) == id_count(store_entries_at(orig, handle_of(schema_id, ord2)), id2),
            forall|ord2: int|
                0 <= ord2 < ord
                    ==> id_count(
                            #[trigger] store_entries_at(registry.entries@, handle_of(schema_id, ord2)),
                            id,
                        ) == id_count(store_entries_at(orig, handle_of(schema_id, ord2)), id) + 1,
        decreases secondary_indexes@.len() - ord,
    {
        let ghost cur = registry.entries@;
        let key = secondary_key(&secondary_indexes[ord], values);
        let h = IndexHandle { schema_id, ordinal: ord };
        proof {
            assert(h == handle_of(schema_id, ord as int));
            assert(reg_find(cur, h) == reg_find(orig, h));
            assert(reg_find(orig, h) is Some);
        }
        let p = match registry.position(h) {
            Some(p) => p,
            None => {
                proof {
                    assert(false);
                }
                0
            },
        };
        registry.add_entry(p, key, id);
        proof {
            let t = registry.entries@;
            lemma_reg_find_index(cur, h);
            lemma_reg_find_index(t, h);
            assert(reg_find(t, h) == Some(t[p as int].1));
            assert(store_entries_at(t, h) == t[p as int].1.entries@);
            assert(store_entries_at(cur, h) == cur[p as int].1.entries@);
            assert forall|h2: IndexHandle| h2 != h
                implies reg_find(t, h2) == reg_find(cur, h2) by {
                lemma_reg_find_index(cur, h2);
                lemma_reg_find_index(t, h2);
                if reg_find(cur, h2) is Some {
                    lemma_reg_find_member(cur, h2);
                    let j = choose|j: int|
                        0 <= j < cur.len() && (#[trigger] cur[j]).0 == h2;
                    assert(cur[j].0 == h2);
                    assert(t[j].0 == h2);
                    assert(j != p);
                    assert(t[j].1 == cur[j].1);
                    assert(reg_find(t, h2) == Some(t[j].1));
                } else {
                    lemma_reg_find_member(cur, h2);
                    assert(forall|j: int| 0 <= j < cur.len() ==> (#[trigger] cur[j]).0 != h2);
                    assert(forall|j: int| 0 <= j < t.len() ==> (#[trigger] t[j]).0 != h2);
                    if reg_find(t, h2) is Some {
                        lemma_reg_find_member(t, h2);
                        assert(false);
                    }
                }
            }
            assert(forall|ord2: int| 0 <= ord2 < secondary_indexes@.len() && ord2 != ord
                ==> handle_of(schema_id, ord2) != h);
            assert forall|ord2: int| 0 <= ord2 < ord
                implies #[trigger] store_entries_at(t, handle_of(schema_id, ord2))
                    == store_entries_at(cur, handle_of(schema_id, ord2)) by {
                assert(handle_of(schema_id, ord2) != h);
                assert(reg_find(t, handle_of(schema_id, ord2))
                    == reg_find(cur, handle_of(schema_id, ord2)));
            }
            assert(key_view(key@) == secondary_key_v(secondary_indexes@[ord as int]@, vals));
            assert(store_entries_at(t, handle_of(schema_id, ord as int)) == t[p as int].1.entries@);
            assert(reg_find(cur, h) == reg_find(orig, h));
            assert(store_entries_at(orig, handle_of(schema_id, ord as int))
                == cur[p as int].1.entries@);
        }
        ord = ord + 1;
    }
}

/// Removes the index entries of one record: the primary-key index entry for
/// its lookup key (handled by the caller, which owns that table's shape)
/// has its counterpart here in clearing every secondary sub-store of the
/// record's id.  Runs inside the caller's mutation.
pub fn delete_indexes(registry: &mut IndexRegistry, id: u64)
    requires
        registry_wf(old(registry).entries@),
    ensures
        registry_wf(final(registry).entries@),
        final(registry).entries@.len() == old(registry).entries@.len(),
        forall|j: int| 0 <= j < old(registry).entries@.len()
            ==> (#[trigger] final(registry).entries@[j]).0 == old(registry).entries@[j].0,
        forall|j: int| 0 <= j < old(registry).entries@.len()
            ==> (#[trigger] final(registry).entries@[j]).1.entries@
                == crate::index::remove_id(old(registry).entries@[j].1.entries@, id),
{
    registry.remove_record_entries(id);
}

/// A bound handle stems from some registry position.
pub proof fn lemma_reg_find_member(s: Seq<(IndexHandle, IndexStore)>, h: IndexHandle)
    ensures
        reg_find(s, h) is Some ==> exists|j: int| 0 <= j < s.len() && (#[trigger] s[j]).0 == h,
    decreases s.len(),
{
    if s.len() > 0 && !(s[0].0 == h) {
        lemma_reg_find_member(s.drop_first(), h);
        if reg_find(s, h) is Some {
            let j = choose|j: int| 0 <= j < s.drop_first().len() && (#[trigger] s.drop_first()[j]).0 == h;
            assert(s[j + 1].0 == h);
        }
    }
}

} // verus!
