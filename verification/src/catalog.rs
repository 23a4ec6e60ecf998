use vstd::prelude::*;
use crate::keys::{
    get_schema_key, get_schema_name_key, schema_key_bytes, schema_name_key_bytes,
    lemma_schema_key_injective, lemma_schema_name_key_injective, lemma_schema_namespaces_disjoint,
};
use crate::types::{
    bytes_eq, copy_index_definitions, copy_schema, IndexDefinition, Schema, SchemaIdentifier,
};

verus! {

/// One value of the schema store: either a schema revision with its index
/// definitions, or the name-based reverse pointer to the most recently
/// registered identifier under a name.
#[derive(Clone)]
pub enum CatalogValue {
    SchemaEntry(Schema, Vec<IndexDefinition>),
    NameEntry(SchemaIdentifier),
}

/// The schema catalog: one byte-keyed store holding schema revisions and
/// name reverse entries in disjoint key namespaces.  Schema revisions are
/// immutable once written; a name entry is overwritten on re-registration
/// (last write wins).
#[derive(Clone)]
pub struct SchemaCatalog {
    pub entries: Vec<(Vec<u8>, CatalogValue)>,
}

/// The value bound to a byte key; the first binding wins.
pub open spec fn cat_find(s: Seq<(Vec<u8>, CatalogValue)>, k: Seq<u8>) -> Option<CatalogValue>
    decreases s.len(),
{
    if s.len() == 0 {
        None
    } else if s[0].0@ == k {
        Some(s[0].1)
    } else {
        cat_find(s.drop_first(), k)
    }
}

/// The schema revision and index definitions registered under an
/// identifier.
pub open spec fn schema_find(s: Seq<(Vec<u8>, CatalogValue)>, sid: SchemaIdentifier)
    -> Option<(Schema, Vec<IndexDefinition>)>
{
    match cat_find(s, schema_key_bytes(sid)) {
        Some(CatalogValue::SchemaEntry(sch, ds)) => Some((sch, ds)),
        _ => None,
    }
}

/// The identifier most recently registered under a name.
pub open spec fn name_find(s: Seq<(Vec<u8>, CatalogValue)>, name: Seq<u8>) -> Option<SchemaIdentifier> {
    match cat_find(s, schema_name_key_bytes(name)) {
        Some(CatalogValue::NameEntry(sid)) => Some(sid),
        _ => None,
    }
}

/// No byte key is bound twice.
pub open spec fn catalog_wf(s: Seq<(Vec<u8>, CatalogValue)>) -> bool {
    forall|i: int, j: int| 0 <= i < j < s.len() ==> s[i].0@ != s[j].0@
}

proof fn lemma_cat_find_skip(s: Seq<(Vec<u8>, CatalogValue)>, k: Seq<u8>, i: int)
    requires
        0 <= i <= s.len(),
        forall|j: int| 0 <= j < i ==> s[j].0@ != k,
    ensures
        cat_find(s, k) == cat_find(s.skip(i), k),
    decreases i,
{
    if i > 0 {
        assert(s.drop_first().skip(i - 1) =~= s.skip(i));
        assert(forall|j: int| 0 <= j < i - 1 ==> s.drop_first()[j].0@ != k);
        lemma_cat_find_skip(s.drop_first(), k, i - 1);
    } else {
        assert(s.skip(0) =~= s);
    }
}

proof fn lemma_cat_find_push(s: Seq<(Vec<u8>, CatalogValue)>, e: (Vec<u8>, CatalogValue), k: Seq<u8>)
    ensures
        cat_find(s.push(e), k) == if cat_find(s, k) is Some {
            cat_find(s, k)
        } else if e.0@ == k {
            Some(e.1)
        } else {
            None::<CatalogValue>
        },
    decreases s.len(),
{
    if s.len() == 0 {
        assert(s.push(e)[0] == e);
        assert(s.push(e).drop_first() =~= s);
    } else {
        assert(s.push(e)[0] == s[0]);
        assert(s.push(e).drop_first() =~= s.drop_first().push(e));
        lemma_cat_find_push(s.drop_first(), e, k);
    }
}

proof fn lemma_cat_find_update(s: Seq<(Vec<u8>, CatalogValue)>, p: int, v: CatalogValue, k: Seq<u8>)
    requires
        0 <= p < s.len(),
        forall|j: int| 0 <= j < p ==> s[j].0@ != s[p].0@,
    ensures
        cat_find(s.update(p, (s[p].0, v)), k) == if s[p].0@ == k {
            Some(v)
        } else {
            cat_find(s, k)
        },
    decreases p,
{
    let t = s.update(p, (s[p].0, v));
    if p == 0 {
        assert(t[0] == (s[0].0, v));
        assert(t.drop_first() =~= s.drop_first());
    } else {
        assert(t[0] == s[0]);
        assert(t.drop_first() =~= s.drop_first().update(p - 1, (s.drop_first()[p - 1].0, v)));
        assert(forall|j: int| 0 <= j < p - 1 ==> (#[trigger] s.drop_first()[j]).0@ != s.drop_first()[p - 1].0@);
        lemma_cat_find_update(s.drop_first(), p - 1, v, k);
        assert(s[p].0@ != s[0].0@);
    }
}

impl SchemaCatalog {
    /// Creates an empty catalog.
    pub fn new() -> (r: SchemaCatalog)
        ensures
            r.entries@.len() == 0,
            catalog_wf(r.entries@),
    {
        SchemaCatalog { entries: Vec::new() }
    }

    /// Finds the position of the entry under a byte key.
    fn position(&self, key: &Vec<u8>) -> (r: Option<usize>)
        ensures
            match r {
                Some(p) => {
                    &&& p < self.entries@.len()
                    &&& self.entries@[p as int].0@ == key@
                    &&& forall|j: int| 0 <= j < p ==> self.entries@[j].0@ != key@
                    &&& cat_find(self.entries@, key@) == Some(self.entries@[p as int].1)
                },
                None => {
                    &&& cat_find(self.entries@, key@) is None
                    &&& forall|j: int| 0 <= j < self.entries@.len() ==> self.entries@[j].0@ != key@
                },
            },
    {
        let ghost s = self.entries@;
        let mut i: usize = 0;
        while i < self.entries.len()
            invariant
                s == self.entries@,
                i <= s.len(),
                forall|j: int| 0 <= j < i ==> s[j].0@ != key@,
            decreases s.len() - i,
        {
            if bytes_eq(&self.entries[i].0, key) {
                proof {
                    lemma_cat_find_skip(s, key@, i as int);
                    assert(s.skip(i as int)[0] == s[i as int]);
                }
                return Some(i);
            }
            i = i + 1;
        }
        proof {
            lemma_cat_find_skip(s, key@, s.len() as int);
            assert(s.skip(s.len() as int).len() == 0);
        }
        None
    }

    /// Looks up the value under a byte key.
    pub fn find(&self, key: &Vec<u8>) -> (r: Option<&CatalogValue>)
        ensures
            match r {
                Some(v) => cat_find(self.entries@, key@) == Some(*v),
                None => cat_find(self.entries@, key@) is None,
            },
    {
        match self.position(key) {
            Some(p) => Some(&self.entries[p].1),
            None => None,
        }
    }

    /// Binds a byte key to a value, overwriting any previous binding.
    pub fn put(&mut self, key: Vec<u8>, value: CatalogValue)
        requires
            catalog_wf(old(self).entries@),
        ensures
            catalog_wf(final(self).entries@),
            cat_find(final(self).entries@, key@) == Some(value),
            forall|k2: Seq<u8>| k2 != key@
                ==> cat_find(final(self).entries@, k2) == cat_find(old(self).entries@, k2),
    {
        let ghost s = self.entries@;
        match self.position(&key) {
            Some(p) => {
                let (k0, _) = self.entries.remove(p);
                self.entries.insert(p, (k0, value));
                proof {
                    let t = self.entries@;
                    assert(t =~= s.update(p as int, (s[p as int].0, t[p as int].1)));
                    lemma_cat_find_update(s, p as int, t[p as int].1, key@);
                    assert forall|k2: Seq<u8>| k2 != key@
                        implies cat_find(t, k2) == cat_find(s, k2) by {
                        lemma_cat_find_update(s, p as int, t[p as int].1, k2);
                    }
                    assert(forall|j: int| 0 <= j < t.len() ==> #[trigger] t[j].0@ == s[j].0@);
                }
            },
            None => {
                self.entries.push((key, value));
                proof {
                    let e = self.entries@.last();
                    assert(self.entries@ =~= s.push(e));
                    lemma_cat_find_push(s, e, e.0@);
                    assert forall|k2: Seq<u8>| k2 != e.0@
                        implies cat_find(self.entries@, k2) == cat_find(s, k2) by {
                        lemma_cat_find_push(s, e, k2);
                    }
                    assert(forall|j: int| 0 <= j < s.len() ==> #[trigger] self.entries@[j] == s[j]);
                }
            },
        }
    }

    /// Writes the schema revision under its composite key and the reverse
    /// name entry under the disjoint name namespace, in one step: after it,
    /// the identifier resolves to this schema and the name resolves to this
    /// identifier, and every other binding is unchanged.
    pub fn insert_schema(
        &mut self,
        sid: SchemaIdentifier,
        schema: &Schema,
        name: &Vec<u8>,
        secondary_indexes: &Vec<IndexDefinition>,
    )
        requires
            catalog_wf(old(self).entries@),
        ensures
            catalog_wf(final(self).entries@),
            schema_find(final(self).entries@, sid) is Some,
            (schema_find(final(self).entries@, sid) matches Some((sch, ds)) ==> {
                &&& sch@ == schema@
                &&& ds@.map_values(|d: IndexDefinition| d@)
                    == secondary_indexes@.map_values(|d: IndexDefinition| d@)
            }),
            name_find(final(self).entries@, name@) == Some(sid),
            forall|sid2: SchemaIdentifier| sid2 != sid
                ==> schema_find(final(self).entries@, sid2) == schema_find(old(self).entries@, sid2),
            forall|n2: Seq<u8>| n2 != name@
                ==> name_find(final(self).entries@, n2) == name_find(old(self).entries@, n2),
    {
        let skey = get_schema_key(&sid);
        let sval = CatalogValue::SchemaEntry(copy_schema(schema), copy_index_definitions(secondary_indexes));
        self.put(skey, sval);
        let nkey = get_schema_name_key(name);
        let nval = CatalogValue::NameEntry(sid);
        let ghost mid = self.entries@;
        self.put(nkey, nval);
        proof {
            lemma_schema_namespaces_disjoint(sid, name@);
            assert(cat_find(self.entries@, schema_key_bytes(sid)) == cat_find(mid, schema_key_bytes(sid)));
            assert forall|sid2: SchemaIdentifier| sid2 != sid
                implies schema_find(self.entries@, sid2) == schema_find(old(self).entries@, sid2) by {
                lemma_schema_namespaces_disjoint(sid2, name@);
                if schema_key_bytes(sid2) == schema_key_bytes(sid) {
                    lemma_schema_key_injective(sid2, sid);
                }
            }
            assert forall|n2: Seq<u8>| n2 != name@
                implies name_find(self.entries@, n2) == name_find(old(self).entries@, n2) by {
                lemma_schema_namespaces_disjoint(sid, n2);
                if schema_name_key_bytes(n2) == schema_name_key_bytes(name@) {
                    lemma_schema_name_key_injective(n2, name@);
                }
            }
        }
    }
}

} // verus!
