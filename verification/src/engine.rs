use vstd::prelude::*;
use crate::catalog::{
    cat_find, catalog_wf, name_find, schema_find, CatalogValue, SchemaCatalog,
};
use crate::errors::CacheError;
use crate::index::{
    entry_count, id_count, remove_id, IndexStore, lemma_remove_id_counts,
};
use crate::indexer::{
    build_indexes, defs_in_bounds, handle_of, secondary_key_v, store_entries_at,
};
use crate::keys::{get_primary_key, get_schema_key, primary_key_bytes};
use crate::indexer::lemma_reg_find_member;
use crate::registry::{
    reg_find, registry_wf, IndexHandle, IndexRegistry, lemma_reg_find_index,
};
use crate::types::{
    bytes_eq, copy_index_definitions, copy_record, copy_schema, index_fields, index_def_valid,
    schema_valid, FieldValue, FieldValueV, IndexDefinition, Record, RecordV, Schema,
    SchemaIdentifier,
};

verus! {

/// The immutable configuration the engine is constructed with.  The storage
/// location, sub-store limits and durability mode of an on-disk environment
/// belong to the surrounding process; the engine itself consumes only the
/// evaluation bound below.
pub struct CacheOptions {
    /// How many candidate ids a query intersects per batch (see
    /// [`StorageEngine::query`]); bounds peak memory of intersection.
    pub intersection_chunk_size: usize,
}

/// The transactional storage-and-indexing engine: the primary record store,
/// the primary-key index, the schema catalog and the secondary-index
/// registry, moved together by every operation.  Mutating operations either
/// fully apply or leave the engine unchanged; a caller that clones the
/// engine before a mutation holds a fully isolated snapshot.
#[derive(Clone)]
pub struct StorageEngine {
    /// Primary store: internal record id to record.
    pub records: Vec<(u64, Record)>,
    /// Primary-key index: caller lookup key to internal record id.
    pub primary_index: Vec<(Vec<u8>, u64)>,
    /// Versioned schemas and the name-based reverse lookup.
    pub catalog: SchemaCatalog,
    /// The secondary-index sub-stores, one per registered definition.
    pub registry: IndexRegistry,
    /// The next internal record id: ids are assigned monotonically at
    /// insert time and never reused, which is sound because the engine
    /// serializes its mutations (a single active writer).
    pub next_id: u64,
    /// The configured intersection batch size.
    pub intersection_chunk_size: usize,
}

/// The id bound to a lookup key; the first binding wins.
pub open spec fn pk_find(s: Seq<(Vec<u8>, u64)>, k: Seq<u8>) -> Option<u64>
    decreases s.len(),
{
    if s.len() == 0 {
        None
    } else if s[0].0@ == k {
        Some(s[0].1)
    } else {
        pk_find(s.drop_first(), k)
    }
}

/// The record stored under an internal id; the first binding wins.
pub open spec fn rec_find(s: Seq<(u64, Record)>, id: u64) -> Option<Record>
    decreases s.len(),
{
    if s.len() == 0 {
        None
    } else if s[0].0 == id {
        Some(s[0].1)
    } else {
        rec_find(s.drop_first(), id)
    }
}

proof fn lemma_pk_find_skip(s: Seq<(Vec<u8>, u64)>, k: Seq<u8>, i: int)
    requires
        0 <= i <= s.len(),
        forall|j: int| 0 <= j < i ==> s[j].0@ != k,
    ensures
        pk_find(s, k) == pk_find(s.skip(i), k),
    decreases i,
{
    if i > 0 {
        assert(s.drop_first().skip(i - 1) =~= s.skip(i));
        assert(forall|j: int| 0 <= j < i - 1 ==> s.drop_first()[j].0@ != k);
        lemma_pk_find_skip(s.drop_first(), k, i - 1);
    } else {
        assert(s.skip(0) =~= s);
    }
}

proof fn lemma_pk_find_absent(s: Seq<(Vec<u8>, u64)>, k: Seq<u8>)
    requires
        forall|j: int| 0 <= j < s.len() ==> s[j].0@ != k,
    ensures
        pk_find(s, k) is None,
    decreases s.len(),
{
    if s.len() > 0 {
        assert(forall|j: int| 0 <= j < s.drop_first().len() ==> s.drop_first()[j].0@ != k);
        lemma_pk_find_absent(s.drop_first(), k);
    }
}

proof fn lemma_pk_find_push(s: Seq<(Vec<u8>, u64)>, e: (Vec<u8>, u64), k: Seq<u8>)
    ensures
        pk_find(s.push(e), k) == if pk_find(s, k) is Some {
            pk_find(s, k)
        } else if e.0@ == k {
            Some(e.1)
        } else {
            None::<u64>
        },
    decreases s.len(),
{
    if s.len() == 0 {
        assert(s.push(e)[0] == e);
        assert(s.push(e).drop_first() =~= s);
    } else {
        assert(s.push(e)[0] == s[0]);
        assert(s.push(e).drop_first() =~= s.drop_first().push(e));
        lemma_pk_find_push(s.drop_first(), e, k);
    }
}

proof fn lemma_pk_find_remove(s: Seq<(Vec<u8>, u64)>, p: int, k: Seq<u8>)
    requires
        0 <= p < s.len(),
        forall|j: int| 0 <= j < s.len() && j != p ==> s[j].0@ != s[p].0@,
    ensures
        pk_find(s.remove(p), k) == if k == s[p].0@ {
            None::<u64>
        } else {
            pk_find(s, k)
        },
    decreases p,
{
    if k == s[p].0@ {
        assert(forall|j: int| 0 <= j < s.remove(p).len() ==> s.remove(p)[j].0@ != k);
        lemma_pk_find_absent(s.remove(p), k);
    } else {
        if p == 0 {
            assert(s.remove(0) =~= s.drop_first());
        } else {
            assert(s.remove(p)[0] == s[0]);
            assert(s.remove(p).drop_first() =~= s.drop_first().remove(p - 1));
            assert(forall|j: int|
                0 <= j < s.drop_first().len() && j != p - 1
                    ==> (#[trigger] s.drop_first()[j]).0@ != s.drop_first()[p - 1].0@);
            lemma_pk_find_remove(s.drop_first(), p - 1, k);
        }
    }
}

proof fn lemma_rec_find_skip(s: Seq<(u64, Record)>, id: u64, i: int)
    requires
        0 <= i <= s.len(),
        forall|j: int| 0 <= j < i ==> s[j].0 != id,
    ensures
        rec_find(s, id) == rec_find(s.skip(i), id),
    decreases i,
{
    if i > 0 {
        assert(s.drop_first().skip(i - 1) =~= s.skip(i));
        assert(forall|j: int| 0 <= j < i - 1 ==> s.drop_first()[j].0 != id);
        lemma_rec_find_skip(s.drop_first(), id, i - 1);
    } else {
        assert(s.skip(0) =~= s);
    }
}

proof fn lemma_rec_find_absent(s: Seq<(u64, Record)>, id: u64)
    requires
        forall|j: int| 0 <= j < s.len() ==> s[j].0 != id,
    ensures
        rec_find(s, id) is None,
    decreases s.len(),
{
    if s.len() > 0 {
        assert(forall|j: int| 0 <= j < s.drop_first().len() ==> s.drop_first()[j].0 != id);
        lemma_rec_find_absent(s.drop_first(), id);
    }
}

proof fn lemma_rec_find_none_means_absent(s: Seq<(u64, Record)>, id: u64)
    requires
        rec_find(s, id) is None,
    ensures
        forall|j: int| 0 <= j < s.len() ==> (#[trigger] s[j]).0 != id,
    decreases s.len(),
{
    if s.len() > 0 {
        lemma_rec_find_none_means_absent(s.drop_first(), id);
        assert(forall|j: int| 1 <= j < s.len() ==> #[trigger] s[j] == s.drop_first()[j - 1]);
    }
}

proof fn lemma_rec_find_push(s: Seq<(u64, Record)>, e: (u64, Record), id: u64)
    ensures
        rec_find(s.push(e), id) == if rec_find(s, id) is Some {
            rec_find(s, id)
        } else if e.0 == id {
            Some(e.1)
        } else {
            None::<Record>
        },
    decreases s.len(),
{
    if s.len() == 0 {
        assert(s.push(e)[0] == e);
        assert(s.push(e).drop_first() =~= s);
    } else {
        assert(s.push(e)[0] == s[0]);
        assert(s.push(e).drop_first() =~= s.drop_first().push(e));
        lemma_rec_find_push(s.drop_first(), e, id);
    }
}

proof fn lemma_rec_find_remove(s: Seq<(u64, Record)>, p: int, id: u64)
    requires
        0 <= p < s.len(),
        forall|j: int| 0 <= j < s.len() && j != p ==> s[j].0 != s[p].0,
    ensures
        rec_find(s.remove(p), id) == if id == s[p].0 {
            None::<Record>
        } else {
            rec_find(s, id)
        },
    decreases p,
{
    if id == s[p].0 {
        assert(forall|j: int| 0 <= j < s.remove(p).len() ==> s.remove(p)[j].0 != id);
        lemma_rec_find_absent(s.remove(p), id);
    } else {
        if p == 0 {
            assert(s.remove(0) =~= s.drop_first());
        } else {
            assert(s.remove(p)[0] == s[0]);
            assert(s.remove(p).drop_first() =~= s.drop_first().remove(p - 1));
            assert(forall|j: int|
                0 <= j < s.drop_first().len() && j != p - 1
                    ==> (#[trigger] s.drop_first()[j]).0 != s.drop_first()[p - 1].0);
            lemma_rec_find_remove(s.drop_first(), p - 1, id);
        }
    }
}

/// Every registered schema revision is internally valid, its index
/// definitions stay inside its field list, and every declared secondary
/// index has a registered sub-store: looking one up during a mutation can
/// never fail once registration succeeded.
pub open spec fn schemas_wf(
    cat: Seq<(Vec<u8>, CatalogValue)>,
    reg: Seq<(IndexHandle, IndexStore)>,
) -> bool {
    forall|sid: SchemaIdentifier| #[trigger] schema_find(cat, sid) matches Some(p) ==> {
        &&& schema_valid(p.0@)
        &&& record_shape_of(p.0@) == p.0@.fields.len()
        &&& forall|ord: int| 0 <= ord < p.1@.len() ==> index_def_valid((#[trigger] p.1@[ord])@, p.0@)
        &&& forall|ord: int| 0 <= ord < p.1@.len()
            ==> #[trigger] reg_find(reg, handle_of(sid.id, ord)) is Some
    }
}

/// The number of values a record of this schema carries.
pub open spec fn record_shape_of(s: crate::types::SchemaV) -> int {
    s.fields.len() as int
}

impl StorageEngine {
    /// The engine's well-formedness: distinct lookup keys and record ids,
    /// every assigned id below the allocation counter, and every registered
    /// schema resolvable to valid definitions with live sub-stores.
    pub open spec fn wf(self) -> bool {
        &&& catalog_wf(self.catalog.entries@)
        &&& registry_wf(self.registry.entries@)
        &&& forall|i: int, j: int| 0 <= i < j < self.primary_index@.len()
            ==> self.primary_index@[i].0@ != self.primary_index@[j].0@
        &&& forall|i: int, j: int| 0 <= i < j < self.records@.len()
            ==> self.records@[i].0 != self.records@[j].0
        &&& forall|k: Seq<u8>| #[trigger] pk_find(self.primary_index@, k) matches Some(i)
            ==> i < self.next_id
        &&& forall|i: u64| i >= self.next_id ==> #[trigger] rec_find(self.records@, i) is None
        &&& forall|h: IndexHandle, id2: u64| id2 >= self.next_id
            ==> #[trigger] id_count(store_entries_at(self.registry.entries@, h), id2) == 0
        &&& schemas_wf(self.catalog.entries@, self.registry.entries@)
    }

    /// The record a lookup key resolves to.
    pub open spec fn lookup(self, k: Seq<u8>) -> Option<RecordV> {
        match pk_find(self.primary_index@, k) {
            None => None,
            Some(id) => match rec_find(self.records@, id) {
                Some(r) => Some(r@),
                None => None,
            },
        }
    }

    /// Which error an insert of this record reports, if any: a record
    /// without a schema identifier or with an unregistered one is rejected
    /// with `SchemaNotFound`; one whose value count disagrees with its
    /// schema with `SerializationError`; a missing sub-store (impossible
    /// once registration succeeded) with `IndexLookupInvariantViolation`;
    /// an exhausted id counter with `StoreError`.
    pub open spec fn insert_check(self, rec: RecordV) -> Option<CacheError> {
        if rec.schema_id is None {
            Some(CacheError::SchemaNotFound)
        } else if schema_find(self.catalog.entries@, rec.schema_id.unwrap()) is None {
            Some(CacheError::SchemaNotFound)
        } else {
            let sid = rec.schema_id.unwrap();
            let p = schema_find(self.catalog.entries@, sid).unwrap();
            if rec.values.len() != p.0@.fields.len() {
                Some(CacheError::SerializationError)
            } else if exists|ord: int|
                0 <= ord < p.1@.len()
                    && !(#[trigger] reg_find(self.registry.entries@, handle_of(sid.id, ord)) is Some) {
                Some(CacheError::IndexLookupInvariantViolation)
            } else if self.next_id == u64::MAX {
                Some(CacheError::StoreError)
            } else {
                None
            }
        }
    }

    /// The lookup key an insert of this record uses, built from its
    /// schema's primary-key fields.
    pub open spec fn insert_key(self, rec: RecordV) -> Seq<u8> {
        primary_key_bytes(
            schema_find(self.catalog.entries@, rec.schema_id.unwrap()).unwrap().0@.primary_index,
            rec.values,
        )
    }
}

/// `post` is `pre` with the record of internal id `id` and its lookup key
/// fully removed: the primary entry, the primary-key index entry, and every
/// secondary-index entry of that id, all together; everything else is
/// unchanged.
pub open spec fn removed_state(pre: StorageEngine, post: StorageEngine, key: Seq<u8>, id: u64) -> bool {
    &&& post.next_id == pre.next_id
    &&& post.catalog == pre.catalog
    &&& post.intersection_chunk_size == pre.intersection_chunk_size
    &&& pk_find(post.primary_index@, key) is None
    &&& forall|k2: Seq<u8>| k2 != key
        ==> #[trigger] pk_find(post.primary_index@, k2) == pk_find(pre.primary_index@, k2)
    &&& rec_find(post.records@, id) is None
    &&& forall|i2: u64| i2 != id
        ==> #[trigger] rec_find(post.records@, i2) == rec_find(pre.records@, i2)
    &&& post.registry.entries@.len() == pre.registry.entries@.len()
    &&& forall|j: int| 0 <= j < pre.registry.entries@.len()
        ==> (#[trigger] post.registry.entries@[j]).0 == pre.registry.entries@[j].0
    &&& forall|j: int| 0 <= j < pre.registry.entries@.len()
        ==> (#[trigger] post.registry.entries@[j]).1.entries@
            == remove_id(pre.registry.entries@[j].1.entries@, id)
}

/// `post` is `pre` with the record freshly stored under internal id `id`
/// and lookup key `key`: the primary entry and primary-key entry exist, one
/// secondary entry per declared index definition was added at its sorted
/// position, and everything else is unchanged.
pub open spec fn inserted_state(
    pre: StorageEngine,
    post: StorageEngine,
    rec: RecordV,
    key: Seq<u8>,
    id: u64,
) -> bool {
    let sid = rec.schema_id.unwrap();
    let ds = schema_find(pre.catalog.entries@, sid).unwrap().1;
    &&& id == pre.next_id
    &&& post.next_id as int == pre.next_id as int + 1
    &&& post.catalog == pre.catalog
    &&& post.intersection_chunk_size == pre.intersection_chunk_size
    &&& pk_find(post.primary_index@, key) == Some(id)
    &&& forall|k2: Seq<u8>| k2 != key
        ==> #[trigger] pk_find(post.primary_index@, k2) == pk_find(pre.primary_index@, k2)
    &&& rec_find(post.records@, id) matches Some(rc) && rc@ == rec
    &&& forall|i2: u64| i2 != id
        ==> #[trigger] rec_find(post.records@, i2) == rec_find(pre.records@, i2)
    &&& post.registry.entries@.len() == pre.registry.entries@.len()
    &&& forall|h2: IndexHandle|
        !(h2.schema_id == sid.id && (h2.ordinal as int) < ds@.len())
            ==> #[trigger] reg_find(post.registry.entries@, h2)
                == reg_find(pre.registry.entries@, h2)
    &&& forall|ord: int| 0 <= ord < ds@.len()
        ==> entry_count(
                #[trigger] store_entries_at(post.registry.entries@, handle_of(sid.id, ord)),
                secondary_key_v(ds@[ord]@, rec.values),
                id,
            ) == entry_count(
                store_entries_at(pre.registry.entries@, handle_of(sid.id, ord)),
                secondary_key_v(ds@[ord]@, rec.values),
                id,
            ) + 1
    &&& forall|ord: int, k: Seq<FieldValueV>, id2: u64|
        0 <= ord < ds@.len() && (k != secondary_key_v(ds@[ord]@, rec.values) || id2 != id)
            ==> #[trigger] entry_count(
                    store_entries_at(post.registry.entries@, handle_of(sid.id, ord)),
                    k,
                    id2,
                ) == entry_count(store_entries_at(pre.registry.entries@, handle_of(sid.id, ord)), k, id2)
    &&& forall|ord: int, id2: u64| 0 <= ord < ds@.len() && id2 != id
        ==> #[trigger] id_count(
                store_entries_at(post.registry.entries@, handle_of(sid.id, ord)),
                id2,
            ) == id_count(store_entries_at(pre.registry.entries@, handle_of(sid.id, ord)), id2)
}

/// The full effect of storing a record: if its lookup key was unbound, the
/// fresh insertion alone; if it was bound, the previous record is replaced
/// (removed with all of its index entries) and the fresh insertion follows.
pub open spec fn insert_effect(pre: StorageEngine, post: StorageEngine, rec: RecordV) -> bool {
    let key = pre.insert_key(rec);
    match pk_find(pre.primary_index@, key) {
        None => inserted_state(pre, post, rec, key, pre.next_id),
        Some(oldid) => exists|mid: StorageEngine|
            #[trigger] removed_state(pre, mid, key, oldid)
                && inserted_state(mid, post, rec, key, pre.next_id),
    }
}


proof fn lemma_pk_find_none_means_absent(s: Seq<(Vec<u8>, u64)>, k: Seq<u8>)
    requires
        pk_find(s, k) is None,
    ensures
        forall|j: int| 0 <= j < s.len() ==> (#[trigger] s[j]).0@ != k,
    decreases s.len(),
{
    if s.len() > 0 {
        lemma_pk_find_none_means_absent(s.drop_first(), k);
        assert(forall|j: int| 1 <= j < s.len() ==> #[trigger] s[j] == s.drop_first()[j - 1]);
    }
}

impl StorageEngine {
    /// Creates an empty engine with the given configuration.
    pub fn new(options: CacheOptions) -> (r: StorageEngine)
        ensures
            r.wf(),
            r.records@.len() == 0,
            r.primary_index@.len() == 0,
            r.catalog.entries@.len() == 0,
            r.registry.entries@.len() == 0,
            r.next_id == 0,
            r.intersection_chunk_size == options.intersection_chunk_size,
    {
        let r = StorageEngine {
            records: Vec::new(),
            primary_index: Vec::new(),
            catalog: SchemaCatalog::new(),
            registry: IndexRegistry::new(),
            next_id: 0,
            intersection_chunk_size: options.intersection_chunk_size,
        };
        proof {
            assert forall|k: Seq<u8>| !(#[trigger] pk_find(r.primary_index@, k) is Some) by {}
            assert forall|i: u64| #[trigger] rec_find(r.records@, i) is None by {}
            assert forall|h: IndexHandle, id2: u64|
                #[trigger] id_count(store_entries_at(r.registry.entries@, h), id2) == 0 by {
                assert(reg_find(r.registry.entries@, h) is None);
            }
            assert forall|sid: SchemaIdentifier|
                !(#[trigger] schema_find(r.catalog.entries@, sid) is Some) by {}
        }
        r
    }

    /// Finds the position of a lookup key in the primary-key index.
    fn pk_position(&self, key: &Vec<u8>) -> (r: Option<usize>)
        ensures
            match r {
                Some(p) => {
                    &&& p < self.primary_index@.len()
                    &&& self.primary_index@[p as int].0@ == key@
                    &&& forall|j: int| 0 <= j < p ==> self.primary_index@[j].0@ != key@
                    &&& pk_find(self.primary_index@, key@) == Some(self.primary_index@[p as int].1)
                },
                None => {
                    &&& pk_find(self.primary_index@, key@) is None
                    &&& forall|j: int| 0 <= j < self.primary_index@.len()
                        ==> self.primary_index@[j].0@ != key@
                },
            },
    {
        let ghost s = self.primary_index@;
        let mut i: usize = 0;
        while i < self.primary_index.len()
            invariant
                s == self.primary_index@,
                i <= s.len(),
                forall|j: int| 0 <= j < i ==> s[j].0@ != key@,
            decreases s.len() - i,
        {
            if bytes_eq(&self.primary_index[i].0, key) {
                proof {
                    lemma_pk_find_skip(s, key@, i as int);
                    assert(s.skip(i as int)[0] == s[i as int]);
                }
                return Some(i);
            }
            i = i + 1;
        }
        proof {
            lemma_pk_find_skip(s, key@, s.len() as int);
            assert(s.skip(s.len() as int).len() == 0);
        }
        None
    }

    /// Finds the position of an internal id in the primary store.
    pub(crate) fn rec_position(&self, id: u64) -> (r: Option<usize>)
        ensures
            match r {
                Some(p) => {
                    &&& p < self.records@.len()
                    &&& self.records@[p as int].0 == id
                    &&& forall|j: int| 0 <= j < p ==> self.records@[j].0 != id
                    &&& rec_find(self.records@, id) == Some(self.records@[p as int].1)
                },
                None => {
                    &&& rec_find(self.records@, id) is None
                    &&& forall|j: int| 0 <= j < self.records@.len() ==> self.records@[j].0 != id
                },
            },
    {
        let ghost s = self.records@;
        let mut i: usize = 0;
        while i < self.records.len()
            invariant
                s == self.records@,
                i <= s.len(),
                forall|j: int| 0 <= j < i ==> s[j].0 != id,
            decreases s.len() - i,
        {
            if self.records[i].0 == id {
                proof {
                    lemma_rec_find_skip(s, id, i as int);
                    assert(s.skip(i as int)[0] == s[i as int]);
                }
                return Some(i);
            }
            i = i + 1;
        }
        proof {
            lemma_rec_find_skip(s, id, s.len() as int);
            assert(s.skip(s.len() as int).len() == 0);
        }
        None
    }

    /// Resolves a lookup key through the primary-key index and returns the
    /// stored record; `KeyNotFound` when the key is absent.
    pub fn get(&self, key: &Vec<u8>) -> (r: Result<Record, CacheError>)
        ensures
            match pk_find(self.primary_index@, key@) {
                None => r == Err::<Record, CacheError>(CacheError::KeyNotFound),
                Some(id) => match rec_find(self.records@, id) {
                    Some(rec) => r matches Ok(out) && out@ == rec@,
                    None => r == Err::<Record, CacheError>(CacheError::StoreError),
                },
            },
            r matches Ok(out) ==> self.lookup(key@) == Some(out@),
    {
        let p = match self.pk_position(key) {
            Some(p) => p,
            None => {
                return Err(CacheError::KeyNotFound);
            },
        };
        let id = self.primary_index[p].1;
        let rp = match self.rec_position(id) {
            Some(rp) => rp,
            None => {
                return Err(CacheError::StoreError);
            },
        };
        Ok(copy_record(&self.records[rp].1))
    }

    /// Removes the record bound to `key` together with its primary-key
    /// entry and every secondary-index entry of its id, in one state
    /// change.
    fn remove_by_key(&mut self, key: &Vec<u8>)
        requires
            old(self).wf(),
            pk_find(old(self).primary_index@, key@) is Some,
        ensures
            final(self).wf(),
            removed_state(
                *old(self),
                *final(self),
                key@,
                pk_find(old(self).primary_index@, key@).unwrap(),
            ),
    {
        let ghost pre = *old(self);
        let p = match self.pk_position(key) {
            Some(p) => p,
            None => {
                proof {
                    assert(false);
                }
                0
            },
        };
        let id = self.primary_index[p].1;
        proof {
            assert(pk_find(pre.primary_index@, key@) == Some(id));
            assert(forall|j: int|
                0 <= j < pre.primary_index@.len() && j != p
                    ==> pre.primary_index@[j].0@ != pre.primary_index@[p as int].0@);
        }
        let _ = self.primary_index.remove(p);
        proof {
            lemma_pk_find_remove(pre.primary_index@, p as int, key@);
            assert forall|k2: Seq<u8>| k2 != key@
                implies #[trigger] pk_find(self.primary_index@, k2)
                    == pk_find(pre.primary_index@, k2) by {
                lemma_pk_find_remove(pre.primary_index@, p as int, k2);
            }
            assert(forall|x: int| 0 <= x < p ==> self.primary_index@[x] == pre.primary_index@[x]);
            assert(forall|x: int|
                p <= x < self.primary_index@.len()
                    ==> self.primary_index@[x] == pre.primary_index@[x + 1]);
        }
        match self.rec_position(id) {
            Some(rp) => {
                let ghost rs = self.records@;
                proof {
                    assert(forall|j: int|
                        0 <= j < rs.len() && j != rp ==> rs[j].0 != rs[rp as int].0);
                }
                let _ = self.records.remove(rp);
                proof {
                    lemma_rec_find_remove(rs, rp as int, id);
                    assert forall|i2: u64| i2 != id
                        implies #[trigger] rec_find(self.records@, i2) == rec_find(rs, i2) by {
                        lemma_rec_find_remove(rs, rp as int, i2);
                    }
                    assert(forall|x: int| 0 <= x < rp ==> self.records@[x] == rs[x]);
                    assert(forall|x: int|
                        rp <= x < self.records@.len() ==> self.records@[x] == rs[x + 1]);
                }
            },
            None => {},
        }
        crate::indexer::delete_indexes(&mut self.registry, id);
        proof {
            let post = *self;
            assert(id < pre.next_id);
            // distinctness of the shortened tables
            assert forall|i: int, j: int| 0 <= i < j < post.primary_index@.len()
                implies post.primary_index@[i].0@ != post.primary_index@[j].0@ by {}
            assert forall|i: int, j: int| 0 <= i < j < post.records@.len()
                implies post.records@[i].0 != post.records@[j].0 by {}
            // id bounds survive removal
            assert forall|k: Seq<u8>| (#[trigger] pk_find(post.primary_index@, k)) is Some
                implies pk_find(post.primary_index@, k).unwrap() < post.next_id by {
                if k != key@ {
                    assert(pk_find(pre.primary_index@, k) == pk_find(post.primary_index@, k));
                }
            }
            assert forall|i: u64| i >= post.next_id
                implies #[trigger] rec_find(post.records@, i) is None by {
                if i != id {
                    assert(rec_find(pre.records@, i) is None);
                }
            }
            // secondary stores hold no id at or above the counter
            assert forall|h: IndexHandle, id2: u64| id2 >= post.next_id
                implies #[trigger] id_count(store_entries_at(post.registry.entries@, h), id2)
                    == 0 by {
                lemma_reg_find_index(pre.registry.entries@, h);
                lemma_reg_find_index(post.registry.entries@, h);
                if reg_find(post.registry.entries@, h) is Some {
                    lemma_reg_find_member(post.registry.entries@, h);
                    let j = choose|j: int|
                        0 <= j < post.registry.entries@.len()
                            && (#[trigger] post.registry.entries@[j]).0 == h;
                    assert(pre.registry.entries@[j].0 == h);
                    assert(reg_find(pre.registry.entries@, h) == Some(pre.registry.entries@[j].1));
                    assert(id_count(store_entries_at(pre.registry.entries@, h), id2) == 0);
                    lemma_remove_id_counts(pre.registry.entries@[j].1.entries@, id);
                }
            }
            // registered schemas keep their sub-stores
            assert(post.catalog == pre.catalog);
            assert forall|sid: SchemaIdentifier, ord: int|
                schema_find(post.catalog.entries@, sid) is Some
                    && 0 <= ord < schema_find(post.catalog.entries@, sid).unwrap().1@.len()
                implies #[trigger] reg_find(post.registry.entries@, handle_of(sid.id, ord))
                    is Some by {
                let h = handle_of(sid.id, ord);
                assert(reg_find(pre.registry.entries@, h) is Some);
                lemma_reg_find_member(pre.registry.entries@, h);
                let j = choose|j: int|
                    0 <= j < pre.registry.entries@.len()
                        && (#[trigger] pre.registry.entries@[j]).0 == h;
                assert(post.registry.entries@[j].0 == h);
                lemma_reg_find_index(post.registry.entries@, h);
            }
        }
    }

    /// Deletes the record bound to `key`: the primary entry, the
    /// primary-key entry and every secondary-index entry are removed
    /// together.  Fails with `KeyNotFound`, leaving the engine unchanged,
    /// when the key is absent.
    pub fn delete(&mut self, key: &Vec<u8>) -> (r: Result<(), CacheError>)
        requires
            old(self).wf(),
        ensures
            final(self).wf(),
            pk_find(old(self).primary_index@, key@) is None
                ==> r == Err::<(), CacheError>(CacheError::KeyNotFound)
                    && *final(self) == *old(self),
            pk_find(old(self).primary_index@, key@) matches Some(id)
                ==> r is Ok && removed_state(*old(self), *final(self), key@, id),
    {
        match self.pk_position(key) {
            Some(_) => {
                self.remove_by_key(key);
                Ok(())
            },
            None => Err(CacheError::KeyNotFound),
        }
    }
}



/// Which error a schema registration reports, if any: a schema without an
/// identifier is rejected with `SchemaNotFound`; one whose primary-key
/// fields or index definitions point outside its field list, or an index
/// over no fields, with `SerializationError`.
pub open spec fn schema_check(s: crate::types::SchemaV, ds: Seq<crate::types::IndexDefinitionV>) -> Option<CacheError> {
    if s.identifier is None {
        Some(CacheError::SchemaNotFound)
    } else if !schema_valid(s) {
        Some(CacheError::SerializationError)
    } else if exists|ord: int| 0 <= ord < ds.len() && !index_def_valid(#[trigger] ds[ord], s) {
        Some(CacheError::SerializationError)
    } else {
        None
    }
}

/// Two definition lists with equal models agree element by element.
proof fn lemma_defs_views_equal(a: Seq<IndexDefinition>, b: Seq<IndexDefinition>)
    requires
        a.map_values(|d: IndexDefinition| d@) == b.map_values(|d: IndexDefinition| d@),
    ensures
        a.len() == b.len(),
        forall|i: int| 0 <= i < a.len() ==> (#[trigger] a[i])@ == b[i]@,
{
    assert(a.map_values(|d: IndexDefinition| d@).len() == a.len());
    assert(b.map_values(|d: IndexDefinition| d@).len() == b.len());
    assert forall|i: int| 0 <= i < a.len() implies (#[trigger] a[i])@ == b[i]@ by {
        assert(a.map_values(|d: IndexDefinition| d@)[i] == a[i]@);
        assert(b.map_values(|d: IndexDefinition| d@)[i] == b[i]@);
    }
}

impl StorageEngine {
    /// Resolves a record's schema and index definitions and checks the
    /// record against them, without changing anything.
    fn validate(&self, record: &Record) -> (r: Result<(SchemaIdentifier, Schema, Vec<IndexDefinition>), CacheError>)
        ensures
            match r {
                Ok(t) => {
                    &&& self.insert_check(record@) is None
                    &&& record@.schema_id == Some(t.0)
                    &&& schema_find(self.catalog.entries@, t.0) matches Some(p)
                        && p.0@ == t.1@
                        && p.1@.map_values(|d: IndexDefinition| d@)
                            == t.2@.map_values(|d: IndexDefinition| d@)
                },
                Err(e) => self.insert_check(record@) == Some(e),
            },
    {
        let sid = match record.schema_id {
            Some(s) => s,
            None => {
                return Err(CacheError::SchemaNotFound);
            },
        };
        let skey = get_schema_key(&sid);
        let (schema, defs) = match self.catalog.find(&skey) {
            Some(CatalogValue::SchemaEntry(sch, ds)) => {
                let sc = copy_schema(sch);
                let dc = copy_index_definitions(ds);
                proof {
                    assert(cat_find(self.catalog.entries@, skey@).unwrap()
                        matches CatalogValue::SchemaEntry(s0, d0)
                        && s0 == *sch
                        && d0 == *ds
                        && schema_find(self.catalog.entries@, sid) == Some((s0, d0)));
                }
                (sc, dc)
            },
            _ => {
                return Err(CacheError::SchemaNotFound);
            },
        };
        proof {
            assert(schema_find(self.catalog.entries@, sid) is Some);
            assert(schema_find(self.catalog.entries@, sid).unwrap().0@ == schema@);
        }
        if record.values.len() != schema.fields.len() {
            return Err(CacheError::SerializationError);
        }
        let ghost p = schema_find(self.catalog.entries@, sid).unwrap();
        proof {
            lemma_defs_views_equal(p.1@, defs@);
        }
        let mut ord: usize = 0;
        while ord < defs.len()
            invariant
                record@.schema_id == Some(sid),
                schema_find(self.catalog.entries@, sid) == Some(p),
                p.0@ == schema@,
                record@.values.len() == schema@.fields.len(),
                defs@.len() == p.1@.len(),
                ord <= defs@.len(),
                forall|o: int| 0 <= o < ord
                    ==> #[trigger] reg_find(self.registry.entries@, handle_of(sid.id, o)) is Some,
            decreases defs@.len() - ord,
        {
            let h = IndexHandle { schema_id: sid.id, ordinal: ord };
            match self.registry.position(h) {
                Some(_) => {},
                None => {
                    proof {
                        assert(!(reg_find(self.registry.entries@, handle_of(sid.id, ord as int)) is Some));
                        assert(exists|ord2: int|
                            0 <= ord2 < p.1@.len()
                                && !(#[trigger] reg_find(self.registry.entries@, handle_of(sid.id, ord2)) is Some));
                    }
                    return Err(CacheError::IndexLookupInvariantViolation);
                },
            }
            proof {
                assert(reg_find(self.registry.entries@, handle_of(sid.id, ord as int)) is Some);
            }
            ord = ord + 1;
        }
        if self.next_id == u64::MAX {
            return Err(CacheError::StoreError);
        }
        Ok((sid, schema, defs))
    }

    /// Stores a record under a lookup key that is not yet bound.
    #[verifier::rlimit(50)]
    fn fresh_insert(
        &mut self,
        record: &Record,
        sid: SchemaIdentifier,
        schema: &Schema,
        defs: &Vec<IndexDefinition>,
    )
        requires
            old(self).wf(),
            record@.schema_id == Some(sid),
            schema_find(old(self).catalog.entries@, sid) matches Some(p)
                && p.0@ == schema@
                && p.1@.map_values(|d: IndexDefinition| d@)
                    == defs@.map_values(|d: IndexDefinition| d@),
            record@.values.len() == schema@.fields.len(),
            old(self).next_id < u64::MAX,
            pk_find(
                old(self).primary_index@,
                primary_key_bytes(schema@.primary_index, record@.values),
            ) is None,
        ensures
            final(self).wf(),
            inserted_state(
                *old(self),
                *final(self),
                record@,
                primary_key_bytes(schema@.primary_index, record@.values),
                old(self).next_id,
            ),
    {
        let ghost pre = *old(self);
        let ghost p = schema_find(pre.catalog.entries@, sid).unwrap();
        proof {
            assert(schema_valid(p.0@));
            assert(schema_valid(schema@));
            lemma_defs_views_equal(p.1@, defs@);
            assert forall|ord: int, i: int|
                0 <= ord < defs@.len() && 0 <= i < index_fields(defs@[ord]@).len()
                implies #[trigger] index_fields(defs@[ord]@)[i] < record@.values.len() by {
                assert(index_def_valid(p.1@[ord]@, p.0@));
                assert(defs@[ord]@ == p.1@[ord]@);
            }
            assert(defs_in_bounds(defs@, record.values@.len() as int));
            assert forall|ord: int| 0 <= ord < defs@.len()
                implies reg_find(pre.registry.entries@, handle_of(sid.id, ord)) is Some by {
                assert(reg_find(pre.registry.entries@, handle_of(sid.id, ord)) is Some);
            }
        }
        let key = get_primary_key(&schema.primary_index, &record.values);
        let id = self.next_id;
        self.next_id = self.next_id + 1;
        let ghost rs = self.records@;
        self.records.push((id, copy_record(record)));
        proof {
            assert(rec_find(pre.records@, id) is None);
            let re = self.records@.last();
            assert(self.records@ =~= rs.push(re));
            lemma_rec_find_push(rs, re, id);
            assert forall|i2: u64| i2 != id
                implies #[trigger] rec_find(self.records@, i2) == rec_find(rs, i2) by {
                lemma_rec_find_push(rs, re, i2);
            }
            lemma_rec_find_none_means_absent(rs, id);
        }
        let ghost pk0 = self.primary_index@;
        build_indexes(&mut self.primary_index, &mut self.registry, key, sid.id, defs, &record.values, id);
        proof {
            let post = *self;
            let keyb = primary_key_bytes(schema@.primary_index, record@.values);
            assert(key@ == keyb);
            let pe = post.primary_index@.last();
            assert(post.primary_index@ =~= pk0.push(pe));
            assert(pe.0@ == keyb && pe.1 == id);
            lemma_pk_find_push(pk0, pe, keyb);
            assert(pk_find(post.primary_index@, keyb) == Some(id));
            assert forall|k2: Seq<u8>| k2 != keyb
                implies #[trigger] pk_find(post.primary_index@, k2) == pk_find(pk0, k2) by {
                lemma_pk_find_push(pk0, pe, k2);
            }
            lemma_pk_find_none_means_absent(pk0, keyb);
            // the definitions seen by the index layer are the stored ones
            lemma_defs_views_equal(p.1@, defs@);
            assert(record@.values =~= record.values@.map_values(|v: FieldValue| v@));
            assert forall|ord: int| 0 <= ord < p.1@.len()
                implies secondary_key_v((#[trigger] p.1@[ord])@, record@.values)
                    == secondary_key_v(defs@[ord]@, record.values@.map_values(|v: FieldValue| v@)) by {}
            // well-formedness of the new state
            assert forall|i: int, j: int| 0 <= i < j < post.primary_index@.len()
                implies post.primary_index@[i].0@ != post.primary_index@[j].0@ by {}
            assert forall|i: int, j: int| 0 <= i < j < post.records@.len()
                implies post.records@[i].0 != post.records@[j].0 by {}
            assert forall|k: Seq<u8>| (#[trigger] pk_find(post.primary_index@, k)) is Some
                implies pk_find(post.primary_index@, k).unwrap() < post.next_id by {
                lemma_pk_find_push(pk0, pe, k);
            }
            assert forall|i: u64| i >= post.next_id
                implies #[trigger] rec_find(post.records@, i) is None by {
                assert(rec_find(pre.records@, i) is None);
            }
            assert forall|h: IndexHandle, id2: u64| id2 >= post.next_id
                implies #[trigger] id_count(store_entries_at(post.registry.entries@, h), id2)
                    == 0 by {
                assert(id_count(store_entries_at(pre.registry.entries@, h), id2) == 0);
                if h.schema_id == sid.id && (h.ordinal as int) < defs@.len() {
                    let ordx = h.ordinal as int;
                    assert(handle_of(sid.id, ordx) == h);
                    assert(id2 != id);
                } else {
                    assert(reg_find(post.registry.entries@, h) == reg_find(pre.registry.entries@, h));
                }
            }
            assert(post.catalog == pre.catalog);
            assert forall|sid3: SchemaIdentifier, ord3: int|
                schema_find(post.catalog.entries@, sid3) is Some
                    && 0 <= ord3 < schema_find(post.catalog.entries@, sid3).unwrap().1@.len()
                implies #[trigger] reg_find(post.registry.entries@, handle_of(sid3.id, ord3))
                    is Some by {
                let h3 = handle_of(sid3.id, ord3);
                assert(reg_find(pre.registry.entries@, h3) is Some);
                lemma_reg_find_member(pre.registry.entries@, h3);
                let j = choose|j: int|
                    0 <= j < pre.registry.entries@.len()
                        && (#[trigger] pre.registry.entries@[j]).0 == h3;
                assert(post.registry.entries@[j].0 == h3);
                lemma_reg_find_index(post.registry.entries@, h3);
            }
        }
    }

    /// Stores a record: replaces the previous record of the same lookup key
    /// if one exists, then inserts afresh.
    #[verifier::rlimit(50)]
    fn apply_insert(
        &mut self,
        record: &Record,
        sid: SchemaIdentifier,
        schema: &Schema,
        defs: &Vec<IndexDefinition>,
    )
        requires
            old(self).wf(),
            old(self).insert_check(record@) is None,
            record@.schema_id == Some(sid),
            schema_find(old(self).catalog.entries@, sid) matches Some(p)
                && p.0@ == schema@
                && p.1@.map_values(|d: IndexDefinition| d@)
                    == defs@.map_values(|d: IndexDefinition| d@),
        ensures
            final(self).wf(),
            insert_effect(*old(self), *final(self), record@),
    {
        let ghost pre = *old(self);
        proof {
            assert(record@.values.len() == schema@.fields.len());
            assert(pre.insert_key(record@) == primary_key_bytes(schema@.primary_index, record@.values));
        }
        let key = get_primary_key(&schema.primary_index, &record.values);
        proof {
            assert(schema_valid(schema@));
        }
        match self.pk_position(&key) {
            Some(_) => {
                let ghost oldid = pk_find(pre.primary_index@, key@).unwrap();
                self.remove_by_key(&key);
                let ghost mid = *self;
                self.fresh_insert(record, sid, schema, defs);
                proof {
                    assert(removed_state(pre, mid, key@, oldid));
                    assert(inserted_state(mid, *self, record@, key@, pre.next_id));
                    assert(insert_effect(pre, *self, record@));
                }
            },
            None => {
                self.fresh_insert(record, sid, schema, defs);
            },
        }
    }

    /// Stores a record under a registered schema: resolves the schema from
    /// the record's identifier, allocates the next internal id, writes the
    /// record, and builds the primary-key and all secondary-index entries,
    /// all in one state change; on any failure nothing changes.
    pub fn insert(&mut self, record: &Record) -> (r: Result<(), CacheError>)
        requires
            old(self).wf(),
        ensures
            final(self).wf(),
            old(self).insert_check(record@) matches Some(e)
                ==> r == Err::<(), CacheError>(e) && *final(self) == *old(self),
            old(self).insert_check(record@) is None
                ==> r is Ok && insert_effect(*old(self), *final(self), record@),
    {
        let (sid, schema, defs) = match self.validate(record) {
            Ok(t) => t,
            Err(e) => {
                return Err(e);
            },
        };
        self.apply_insert(record, sid, &schema, &defs);
        Ok(())
    }

    /// Replaces the record bound to `key` by `record`: composed strictly as
    /// a delete of the old record followed by an insert of the new one in
    /// one state change, never as an in-place patch, since index entries
    /// are derived from full field values.  Fails with `KeyNotFound`,
    /// changing nothing, when the key is absent; on any failure nothing
    /// changes.
    #[verifier::rlimit(50)]
    pub fn update(&mut self, key: &Vec<u8>, record: &Record) -> (r: Result<(), CacheError>)
        requires
            old(self).wf(),
        ensures
            final(self).wf(),
            pk_find(old(self).primary_index@, key@) is None
                ==> r == Err::<(), CacheError>(CacheError::KeyNotFound) && *final(self) == *old(self),
            pk_find(old(self).primary_index@, key@) matches Some(oldid) ==> {
                &&& old(self).insert_check(record@) matches Some(e)
                    ==> r == Err::<(), CacheError>(e) && *final(self) == *old(self)
                &&& old(self).insert_check(record@) is None
                    ==> r is Ok && exists|mid: StorageEngine|
                        #[trigger] removed_state(*old(self), mid, key@, oldid)
                            && insert_effect(mid, *final(self), record@)
            },
    {
        let ghost pre = *old(self);
        match self.pk_position(key) {
            Some(_) => {},
            None => {
                return Err(CacheError::KeyNotFound);
            },
        }
        let (sid, schema, defs) = match self.validate(record) {
            Ok(t) => t,
            Err(e) => {
                return Err(e);
            },
        };
        self.remove_by_key(key);
        let ghost mid = *self;
        proof {
            // the checks still pass on the intermediate state
            assert(mid.catalog == pre.catalog);
            assert(mid.insert_check(record@) is None) by {
                let p = schema_find(pre.catalog.entries@, sid).unwrap();
                assert forall|ord: int|
                    0 <= ord < p.1@.len()
                    implies #[trigger] reg_find(mid.registry.entries@, handle_of(sid.id, ord))
                        is Some by {
                    let h = handle_of(sid.id, ord);
                    assert(reg_find(pre.registry.entries@, h) is Some);
                    lemma_reg_find_member(pre.registry.entries@, h);
                    let j = choose|j: int|
                        0 <= j < pre.registry.entries@.len()
                            && (#[trigger] pre.registry.entries@[j]).0 == h;
                    assert(mid.registry.entries@[j].0 == h);
                    lemma_reg_find_index(mid.registry.entries@, h);
                }
            }
        }
        self.apply_insert(record, sid, &schema, &defs);
        proof {
            let oldid = pk_find(pre.primary_index@, key@).unwrap();
            assert(removed_state(pre, mid, key@, oldid) && insert_effect(mid, *self, record@));
        }
        Ok(())
    }
}



impl StorageEngine {
    /// Registers a schema revision under a name: creates and registers one
    /// sub-store per index definition (idempotently, and strictly before
    /// any record of the schema can be inserted), then writes the schema
    /// record and the name reverse entry.  Re-registering a name overwrites
    /// only the name pointer; schema revisions themselves are immutable.
    #[verifier::rlimit(50)]
    pub fn insert_schema(
        &mut self,
        name: &Vec<u8>,
        schema: &Schema,
        secondary_indexes: &Vec<IndexDefinition>,
    ) -> (r: Result<(), CacheError>)
        requires
            old(self).wf(),
        ensures
            final(self).wf(),
            schema_check(schema@, secondary_indexes@.map_values(|d: IndexDefinition| d@))
                matches Some(e) ==> r == Err::<(), CacheError>(e) && *final(self) == *old(self),
            schema_check(schema@, secondary_indexes@.map_values(|d: IndexDefinition| d@))
                is None ==> {
                let sid = schema@.identifier.unwrap();
                &&& r is Ok
                &&& schema_find(final(self).catalog.entries@, sid) matches Some(p)
                    && p.0@ == schema@
                    && p.1@.map_values(|d: IndexDefinition| d@)
                        == secondary_indexes@.map_values(|d: IndexDefinition| d@)
                &&& name_find(final(self).catalog.entries@, name@) == Some(sid)
                &&& forall|sid2: SchemaIdentifier| sid2 != sid
                    ==> #[trigger] schema_find(final(self).catalog.entries@, sid2)
                        == schema_find(old(self).catalog.entries@, sid2)
                &&& forall|n2: Seq<u8>| n2 != name@
                    ==> #[trigger] name_find(final(self).catalog.entries@, n2)
                        == name_find(old(self).catalog.entries@, n2)
                &&& forall|ord: int| 0 <= ord < secondary_indexes@.len()
                    ==> #[trigger] reg_find(final(self).registry.entries@, handle_of(sid.id, ord))
                        is Some
                &&& forall|h: IndexHandle| reg_find(old(self).registry.entries@, h) is Some
                    ==> #[trigger] reg_find(final(self).registry.entries@, h)
                        == reg_find(old(self).registry.entries@, h)
                &&& final(self).records == old(self).records
                &&& final(self).primary_index == old(self).primary_index
                &&& final(self).next_id == old(self).next_id
                &&& final(self).intersection_chunk_size == old(self).intersection_chunk_size
            },
    {
        let ghost pre = *old(self);
        let ghost dsv = secondary_indexes@.map_values(|d: IndexDefinition| d@);
        let sid = match schema.identifier {
            Some(s) => s,
            None => {
                return Err(CacheError::SchemaNotFound);
            },
        };
        // validate the schema's own primary-key field references
        let mut i: usize = 0;
        while i < schema.primary_index.len()
            invariant
                *self == *old(self),
                old(self).wf(),
                schema@.identifier == Some(sid),
                i <= schema@.primary_index.len(),
                forall|j: int| 0 <= j < i
                    ==> #[trigger] schema@.primary_index[j] < schema@.fields.len(),
            decreases schema@.primary_index.len() - i,
        {
            if schema.primary_index[i] >= schema.fields.len() {
                proof {
                    assert(!schema_valid(schema@));
                }
                return Err(CacheError::SerializationError);
            }
            i = i + 1;
        }
        proof {
            assert(schema@.fields.len() == schema.fields@.len());
            assert(schema_valid(schema@));
        }
        // validate every index definition against the field list
        let mut ord: usize = 0;
        while ord < secondary_indexes.len()
            invariant
                *self == *old(self),
                old(self).wf(),
                schema@.identifier == Some(sid),
                dsv == secondary_indexes@.map_values(|d: IndexDefinition| d@),
                dsv.len() == secondary_indexes@.len(),
                schema_valid(schema@),
                schema@.fields.len() == schema.fields@.len(),
                ord <= secondary_indexes@.len(),
                forall|o: int| 0 <= o < ord ==> index_def_valid(#[trigger] dsv[o], schema@),
            decreases secondary_indexes@.len() - ord,
        {
            let fs = match &secondary_indexes[ord] {
                IndexDefinition::SortedInverted(fs) => fs,
            };
            proof {
                assert(dsv[ord as int] == (secondary_indexes@[ord as int])@);
                assert(index_fields(dsv[ord as int]) == fs@);
            }
            if fs.len() == 0 {
                proof {
                    assert(!index_def_valid(dsv[ord as int], schema@));
                }
                return Err(CacheError::SerializationError);
            }
            let mut j: usize = 0;
            while j < fs.len()
                invariant
                    *self == *old(self),
                    old(self).wf(),
                    schema@.identifier == Some(sid),
                    dsv == secondary_indexes@.map_values(|d: IndexDefinition| d@),
                    dsv.len() == secondary_indexes@.len(),
                    0 <= ord < dsv.len(),
                    schema_valid(schema@),
                    index_fields(dsv[ord as int]) == fs@,
                    schema@.fields.len() == schema.fields@.len(),
                    j <= fs@.len(),
                    forall|x: int| 0 <= x < j ==> #[trigger] fs@[x] < schema.fields@.len(),
                decreases fs@.len() - j,
            {
                if fs[j] >= schema.fields.len() {
                    proof {
                        assert(index_fields(dsv[ord as int])[j as int] >= schema@.fields.len());
                        assert(!index_def_valid(dsv[ord as int], schema@));
                    }
                    return Err(CacheError::SerializationError);
                }
                j = j + 1;
            }
            proof {
                assert(index_def_valid(dsv[ord as int], schema@));
            }
            ord = ord + 1;
        }
        proof {
            assert(schema_check(schema@, dsv) is None);
        }
        // create and register the sub-stores, idempotently
        let ghost reg0 = self.registry.entries@;
        let mut ord2: usize = 0;
        while ord2 < secondary_indexes.len()
            invariant
                self.catalog == old(self).catalog,
                self.records == old(self).records,
                self.primary_index == old(self).primary_index,
                self.next_id == old(self).next_id,
                self.intersection_chunk_size == old(self).intersection_chunk_size,
                old(self).wf(),
                reg0 == old(self).registry.entries@,
                ord2 <= secondary_indexes@.len(),
                registry_wf(self.registry.entries@),
                forall|o: int| 0 <= o < ord2
                    ==> #[trigger] reg_find(self.registry.entries@, handle_of(sid.id, o)) is Some,
                forall|h: IndexHandle| reg_find(reg0, h) is Some
                    ==> #[trigger] reg_find(self.registry.entries@, h) == reg_find(reg0, h),
                forall|h: IndexHandle|
                    reg_find(self.registry.entries@, h) is Some && reg_find(reg0, h) is None
                        ==> (#[trigger] reg_find(self.registry.entries@, h))
                            .unwrap().entries@.len() == 0,
                forall|h: IndexHandle| reg_find(reg0, h) is None
                        && !(h.schema_id == sid.id && (h.ordinal as int) < ord2)
                    ==> #[trigger] reg_find(self.registry.entries@, h) is None,
            decreases secondary_indexes@.len() - ord2,
        {
            let ghost cur = self.registry.entries@;
            let h = IndexHandle { schema_id: sid.id, ordinal: ord2 };
            self.registry.register(h, IndexStore::new());
            proof {
                assert(h == handle_of(sid.id, ord2 as int));
                assert(reg_find(self.registry.entries@, h) is Some);
                assert forall|o: int| 0 <= o < ord2 + 1
                    implies #[trigger] reg_find(self.registry.entries@, handle_of(sid.id, o))
                        is Some by {
                    if o < ord2 {
                        assert(handle_of(sid.id, o) != h);
                        assert(reg_find(self.registry.entries@, handle_of(sid.id, o))
                            == reg_find(cur, handle_of(sid.id, o)));
                    }
                }
            }
            ord2 = ord2 + 1;
        }
        // write the schema record and the name reverse entry
        self.catalog.insert_schema(sid, schema, name, secondary_indexes);
        proof {
            let post = *self;
            assert(post.records == pre.records && post.primary_index == pre.primary_index);
            // well-formedness of the new state
            assert forall|h: IndexHandle, id2: u64| id2 >= post.next_id
                implies #[trigger] id_count(store_entries_at(post.registry.entries@, h), id2)
                    == 0 by {
                assert(id_count(store_entries_at(pre.registry.entries@, h), id2) == 0);
                if reg_find(pre.registry.entries@, h) is Some {
                    assert(reg_find(post.registry.entries@, h) == reg_find(pre.registry.entries@, h));
                } else {
                    if reg_find(post.registry.entries@, h) is Some {
                        assert(reg_find(post.registry.entries@, h).unwrap().entries@.len() == 0);
                        assert(store_entries_at(post.registry.entries@, h).len() == 0);
                    } else {
                        assert(store_entries_at(post.registry.entries@, h)
                            == Seq::<(Vec<FieldValue>, u64)>::empty());
                    }
                }
            }
            assert forall|sid3: SchemaIdentifier, ord3: int|
                schema_find(post.catalog.entries@, sid3) is Some
                    && 0 <= ord3 < schema_find(post.catalog.entries@, sid3).unwrap().1@.len()
                implies #[trigger] reg_find(post.registry.entries@, handle_of(sid3.id, ord3))
                    is Some by {
                if sid3 == sid {
                    let p3 = schema_find(post.catalog.entries@, sid3).unwrap();
                    lemma_defs_views_equal(p3.1@, secondary_indexes@);
                    assert(reg_find(post.registry.entries@, handle_of(sid.id, ord3)) is Some);
                } else {
                    assert(schema_find(post.catalog.entries@, sid3)
                        == schema_find(pre.catalog.entries@, sid3));
                    assert(reg_find(pre.registry.entries@, handle_of(sid3.id, ord3)) is Some);
                }
            }
            assert forall|sid3: SchemaIdentifier|
                (#[trigger] schema_find(post.catalog.entries@, sid3)) is Some
                implies {
                    let p3 = schema_find(post.catalog.entries@, sid3).unwrap();
                    schema_valid(p3.0@)
                        && (forall|o: int| 0 <= o < p3.1@.len()
                            ==> index_def_valid((#[trigger] p3.1@[o])@, p3.0@))
                } by {
                if sid3 == sid {
                    let p3 = schema_find(post.catalog.entries@, sid3).unwrap();
                    lemma_defs_views_equal(p3.1@, secondary_indexes@);
                    assert forall|o: int| 0 <= o < p3.1@.len()
                        implies index_def_valid((#[trigger] p3.1@[o])@, p3.0@) by {
                        assert(p3.1@[o]@ == dsv[o]);
                        assert(index_def_valid(dsv[o], schema@));
                    }
                } else {
                    assert(schema_find(post.catalog.entries@, sid3)
                        == schema_find(pre.catalog.entries@, sid3));
                }
            }
        }
        Ok(())
    }

    /// Read-only resolution of a schema revision by exact identifier;
    /// `SchemaNotFound` when the identifier was never registered.
    pub fn get_schema(&self, schema_identifier: &SchemaIdentifier) -> (r: Result<Schema, CacheError>)
        ensures
            match schema_find(self.catalog.entries@, *schema_identifier) {
                Some(p) => r matches Ok(s) && s@ == p.0@,
                None => r == Err::<Schema, CacheError>(CacheError::SchemaNotFound),
            },
    {
        let skey = get_schema_key(schema_identifier);
        match self.catalog.find(&skey) {
            Some(CatalogValue::SchemaEntry(sch, _)) => Ok(copy_schema(sch)),
            _ => Err(CacheError::SchemaNotFound),
        }
    }

    /// Read-only two-step resolution by name: the name resolves to the
    /// most recently registered identifier, which resolves to its schema
    /// and index definitions; `SchemaNotFound` when either step fails.
    pub fn get_schema_and_indexes_by_name(&self, name: &Vec<u8>)
        -> (r: Result<(Schema, Vec<IndexDefinition>), CacheError>)
        ensures
            match name_find(self.catalog.entries@, name@) {
                None => r == Err::<(Schema, Vec<IndexDefinition>), CacheError>(CacheError::SchemaNotFound),
                Some(sid) => match schema_find(self.catalog.entries@, sid) {
                    Some(p) => r matches Ok(t) && t.0@ == p.0@
                        && t.1@.map_values(|d: IndexDefinition| d@)
                            == p.1@.map_values(|d: IndexDefinition| d@),
                    None => r == Err::<(Schema, Vec<IndexDefinition>), CacheError>(CacheError::SchemaNotFound),
                },
            },
    {
        let nkey = crate::keys::get_schema_name_key(name);
        let sid = match self.catalog.find(&nkey) {
            Some(CatalogValue::NameEntry(sid)) => *sid,
            _ => {
                return Err(CacheError::SchemaNotFound);
            },
        };
        let skey = get_schema_key(&sid);
        match self.catalog.find(&skey) {
            Some(CatalogValue::SchemaEntry(sch, ds)) => {
                Ok((copy_schema(sch), copy_index_definitions(ds)))
            },
            _ => Err(CacheError::SchemaNotFound),
        }
    }

    /// Resolves the schema and index definitions a record refers to;
    /// `SchemaNotFound` when the record carries no identifier or an
    /// unregistered one.
    pub fn get_schema_and_indexes_from_record(&self, record: &Record)
        -> (r: Result<(Schema, Vec<IndexDefinition>), CacheError>)
        ensures
            match record@.schema_id {
                None => r == Err::<(Schema, Vec<IndexDefinition>), CacheError>(CacheError::SchemaNotFound),
                Some(sid) => match schema_find(self.catalog.entries@, sid) {
                    Some(p) => r matches Ok(t) && t.0@ == p.0@
                        && t.1@.map_values(|d: IndexDefinition| d@)
                            == p.1@.map_values(|d: IndexDefinition| d@),
                    None => r == Err::<(Schema, Vec<IndexDefinition>), CacheError>(CacheError::SchemaNotFound),
                },
            },
    {
        let sid = match record.schema_id {
            Some(s) => s,
            None => {
                return Err(CacheError::SchemaNotFound);
            },
        };
        let skey = get_schema_key(&sid);
        match self.catalog.find(&skey) {
            Some(CatalogValue::SchemaEntry(sch, ds)) => {
                Ok((copy_schema(sch), copy_index_definitions(ds)))
            },
            _ => Err(CacheError::SchemaNotFound),
        }
    }
}

/// Round trip: storing a valid record under a registered schema and
/// resolving its lookup key afterwards observes exactly that record.
pub proof fn lemma_insert_get_round_trip(pre: StorageEngine, post: StorageEngine, rec: RecordV)
    requires
        pre.insert_check(rec) is None,
        insert_effect(pre, post, rec),
    ensures
        post.lookup(pre.insert_key(rec)) == Some(rec),
{
    let key = pre.insert_key(rec);
    match pk_find(pre.primary_index@, key) {
        None => {
            assert(inserted_state(pre, post, rec, key, pre.next_id));
        },
        Some(oldid) => {
            let mid = choose|mid: StorageEngine|
                #[trigger] removed_state(pre, mid, key, oldid)
                    && inserted_state(mid, post, rec, key, pre.next_id);
            assert(inserted_state(mid, post, rec, key, pre.next_id));
        },
    }
}

/// Update atomicity: after an update, no secondary-index entry of the old
/// record's id remains in any sub-store, the entries derived from the new
/// record's values are present, and the primary-key index points at a
/// fresh internal id.
#[verifier::rlimit(60)]
pub proof fn lemma_update_atomicity(
    pre: StorageEngine,
    post: StorageEngine,
    key: Seq<u8>,
    oldid: u64,
    rec: RecordV,
)
    requires
        pre.wf(),
        pk_find(pre.primary_index@, key) == Some(oldid),
        pre.insert_check(rec) is None,
        exists|mid: StorageEngine|
            #[trigger] removed_state(pre, mid, key, oldid) && insert_effect(mid, post, rec),
    ensures
        forall|h: IndexHandle|
            #[trigger] id_count(store_entries_at(post.registry.entries@, h), oldid) == 0,
        ({
            let sid = rec.schema_id.unwrap();
            let ds = schema_find(pre.catalog.entries@, sid).unwrap().1;
            forall|ord: int| 0 <= ord < ds@.len()
                ==> entry_count(
                        #[trigger] store_entries_at(post.registry.entries@, handle_of(sid.id, ord)),
                        secondary_key_v(ds@[ord]@, rec.values),
                        pre.next_id,
                    ) >= 1
        }),
        pk_find(post.primary_index@, pre.insert_key(rec)) == Some(pre.next_id),
        oldid != pre.next_id,
{
    assert(oldid < pre.next_id);
    let mid = choose|mid: StorageEngine|
        #[trigger] removed_state(pre, mid, key, oldid) && insert_effect(mid, post, rec);
    assert(forall|i1: int, i2: int|
        0 <= i1 < i2 < mid.registry.entries@.len()
            ==> (#[trigger] mid.registry.entries@[i1]).0 != (#[trigger] mid.registry.entries@[i2]).0);
    // no entry of the old id survives into the intermediate state
    assert forall|h: IndexHandle|
        #[trigger] id_count(store_entries_at(mid.registry.entries@, h), oldid) == 0 by {
        lemma_reg_find_member(mid.registry.entries@, h);
        if reg_find(mid.registry.entries@, h) is Some {
            let j = choose|j: int|
                0 <= j < mid.registry.entries@.len()
                    && (#[trigger] mid.registry.entries@[j]).0 == h;
            assert(mid.registry.entries@[j].1.entries@
                == remove_id(pre.registry.entries@[j].1.entries@, oldid));
            lemma_remove_id_counts(pre.registry.entries@[j].1.entries@, oldid);
            lemma_reg_find_index(mid.registry.entries@, h);
            assert(reg_find(mid.registry.entries@, h) == Some(mid.registry.entries@[j].1));
        }
    }
    let key2 = mid.insert_key(rec);
    assert(mid.catalog == pre.catalog);
    assert(mid.insert_key(rec) == pre.insert_key(rec));
    let sid = rec.schema_id.unwrap();
    let ds = schema_find(pre.catalog.entries@, sid).unwrap().1;
    match pk_find(mid.primary_index@, key2) {
        None => {
            assert(inserted_state(mid, post, rec, key2, mid.next_id));
            assert forall|h: IndexHandle|
                #[trigger] id_count(store_entries_at(post.registry.entries@, h), oldid) == 0 by {
                assert(oldid != mid.next_id);
                assert(schema_find(mid.catalog.entries@, sid) == schema_find(pre.catalog.entries@, sid));
                assert(id_count(store_entries_at(mid.registry.entries@, h), oldid) == 0);
                if h.schema_id == sid.id && (h.ordinal as int) < ds@.len() {
                    let ordx = h.ordinal as int;
                    assert(handle_of(sid.id, ordx) == h);
                    assert(id_count(
                        store_entries_at(post.registry.entries@, handle_of(sid.id, ordx)),
                        oldid,
                    ) == id_count(
                        store_entries_at(mid.registry.entries@, handle_of(sid.id, ordx)),
                        oldid,
                    ));
                } else {
                    assert(reg_find(post.registry.entries@, h) == reg_find(mid.registry.entries@, h));
                }
            }
        },
        Some(oid2) => {
            let mid2 = choose|m: StorageEngine|
                #[trigger] removed_state(mid, m, key2, oid2)
                    && inserted_state(m, post, rec, key2, mid.next_id);
            assert(forall|i1: int, i2: int|
                0 <= i1 < i2 < mid2.registry.entries@.len()
                    ==> (#[trigger] mid2.registry.entries@[i1]).0 != (#[trigger] mid2.registry.entries@[i2]).0);
            assert forall|h: IndexHandle|
                #[trigger] id_count(store_entries_at(mid2.registry.entries@, h), oldid) == 0 by {
                lemma_reg_find_member(mid2.registry.entries@, h);
                if reg_find(mid2.registry.entries@, h) is Some {
                    let j = choose|j: int|
                        0 <= j < mid2.registry.entries@.len()
                            && (#[trigger] mid2.registry.entries@[j]).0 == h;
                    assert(mid2.registry.entries@[j].1.entries@
                        == remove_id(mid.registry.entries@[j].1.entries@, oid2));
                    lemma_remove_id_counts(mid.registry.entries@[j].1.entries@, oid2);
                    lemma_reg_find_index(mid2.registry.entries@, h);
                    assert(reg_find(mid2.registry.entries@, h) == Some(mid2.registry.entries@[j].1));
                    assert(mid.registry.entries@[j].0 == h);
                    lemma_reg_find_index(mid.registry.entries@, h);
                    assert(store_entries_at(mid.registry.entries@, h)
                        == mid.registry.entries@[j].1.entries@);
                    assert(id_count(mid.registry.entries@[j].1.entries@, oldid) == 0);
                }
            }
            assert(inserted_state(mid2, post, rec, key2, mid.next_id));
            assert forall|h: IndexHandle|
                #[trigger] id_count(store_entries_at(post.registry.entries@, h), oldid) == 0 by {
                assert(oldid != mid.next_id);
                assert(mid2.catalog == mid.catalog);
                assert(mid2.next_id == mid.next_id);
                assert(schema_find(mid2.catalog.entries@, sid) == schema_find(pre.catalog.entries@, sid));
                assert(id_count(store_entries_at(mid2.registry.entries@, h), oldid) == 0);
                if h.schema_id == sid.id && (h.ordinal as int) < ds@.len() {
                    let ordx = h.ordinal as int;
                    assert(handle_of(sid.id, ordx) == h);
                    assert(id_count(
                        store_entries_at(post.registry.entries@, handle_of(sid.id, ordx)),
                        oldid,
                    ) == id_count(
                        store_entries_at(mid2.registry.entries@, handle_of(sid.id, ordx)),
                        oldid,
                    ));
                } else {
                    assert(reg_find(post.registry.entries@, h) == reg_find(mid2.registry.entries@, h));
                }
            }
        },
    }
}

/// Isolation across sub-stores: a stored record is visible in every
/// sub-store at once.  After an insert takes effect, the primary store
/// holds the record, the primary-key index resolves its lookup key to its
/// id, and every declared secondary index holds an entry derived from its
/// field values: there is no state in which the primary store reflects
/// the write but an index does not.  On a failed mutation the operations'
/// contracts state the complement: the engine is unchanged in every
/// sub-store.
pub proof fn lemma_insert_moves_all_stores_together(pre: StorageEngine, post: StorageEngine, rec: RecordV)
    requires
        pre.insert_check(rec) is None,
        insert_effect(pre, post, rec),
    ensures
        post.lookup(pre.insert_key(rec)) == Some(rec),
        pk_find(post.primary_index@, pre.insert_key(rec)) == Some(pre.next_id),
        ({
            let sid = rec.schema_id.unwrap();
            let ds = schema_find(pre.catalog.entries@, sid).unwrap().1;
            forall|ord: int| 0 <= ord < ds@.len()
                ==> entry_count(
                        #[trigger] store_entries_at(post.registry.entries@, handle_of(sid.id, ord)),
                        secondary_key_v(ds@[ord]@, rec.values),
                        pre.next_id,
                    ) >= 1
        }),
{
    lemma_insert_get_round_trip(pre, post, rec);
    let key = pre.insert_key(rec);
    match pk_find(pre.primary_index@, key) {
        None => {
            assert(inserted_state(pre, post, rec, key, pre.next_id));
        },
        Some(oldid) => {
            let mid = choose|mid: StorageEngine|
                #[trigger] removed_state(pre, mid, key, oldid)
                    && inserted_state(mid, post, rec, key, pre.next_id);
            assert(inserted_state(mid, post, rec, key, pre.next_id));
            assert(mid.catalog == pre.catalog);
        },
    }
}

/// Schema versioning: registering a second version of a schema id leaves
/// the first version independently retrievable by exact identifier, and
/// name-based lookup resolves to whichever revision was registered most
/// recently under that name.
pub proof fn lemma_schema_versioning(
    e1: StorageEngine,
    e2: StorageEngine,
    name: Seq<u8>,
    sid1: SchemaIdentifier,
    sid2: SchemaIdentifier,
    p1: (Schema, Vec<IndexDefinition>),
    p2: (Schema, Vec<IndexDefinition>),
)
    requires
        sid1 != sid2,
        schema_find(e1.catalog.entries@, sid1) == Some(p1),
        name_find(e1.catalog.entries@, name) == Some(sid1),
        schema_find(e2.catalog.entries@, sid2) == Some(p2),
        name_find(e2.catalog.entries@, name) == Some(sid2),
        forall|sid3: SchemaIdentifier| sid3 != sid2
            ==> #[trigger] schema_find(e2.catalog.entries@, sid3)
                == schema_find(e1.catalog.entries@, sid3),
    ensures
        schema_find(e2.catalog.entries@, sid1) == Some(p1),
        schema_find(e2.catalog.entries@, sid2) == Some(p2),
        name_find(e2.catalog.entries@, name) == Some(sid2),
{
}


} // verus!
