use vstd::prelude::*;
use crate::catalog::{name_find, schema_find, CatalogValue};
use crate::engine::{rec_find, StorageEngine};
use crate::errors::CacheError;
use crate::index::scan_ids;
use crate::indexer::handle_of;
use crate::keys::{get_schema_key, get_schema_name_key};
use crate::registry::reg_find;
use crate::types::{
    copy_index_definitions, copy_record, index_fields, FieldValue, FieldValueV, IndexDefinition,
    IndexDefinitionV, Record, RecordV,
};

verus! {

/// The operation of one filter clause: an exact match or an inclusive
/// range on a field's value.
pub enum Op {
    Eq(FieldValue),
    Range(FieldValue, FieldValue),
}

/// One clause of a structured predicate: a field position and the
/// operation its values must satisfy.
pub struct Clause {
    pub field: usize,
    pub op: Op,
}

/// The model of a clause: an inclusive value range on one field (an exact
/// match is the degenerate range).
pub struct ClauseV {
    pub field: usize,
    pub lo: FieldValueV,
    pub hi: FieldValueV,
}

impl View for Clause {
    type V = ClauseV;

    open spec fn view(&self) -> ClauseV {
        match self.op {
            Op::Eq(v) => ClauseV { field: self.field, lo: v@, hi: v@ },
            Op::Range(lo, hi) => ClauseV { field: self.field, lo: lo@, hi: hi@ },
        }
    }
}

/// A structured predicate: the conjunction of its clauses.
pub struct QueryExpression {
    pub clauses: Vec<Clause>,
}

impl View for QueryExpression {
    type V = Seq<ClauseV>;

    open spec fn view(&self) -> Seq<ClauseV> {
        self.clauses@.map_values(|c: Clause| c@)
    }
}

/// The first index definition whose leading field is the given field, at
/// or after position `i`.
pub open spec fn clause_index_ord(ds: Seq<IndexDefinitionV>, field: usize, i: int) -> Option<int>
    decreases ds.len() - i,
{
    if i < 0 || i >= ds.len() {
        None
    } else if index_fields(ds[i]).len() > 0 && index_fields(ds[i])[0] == field {
        Some(i)
    } else {
        clause_index_ord(ds, field, i + 1)
    }
}

/// The candidate ids of one clause: a range scan of the first registered
/// index whose leading field is the clause's field; `None` when no such
/// index is registered (the clause is not indexable).
pub open spec fn clause_ids(
    reg: Seq<(crate::registry::IndexHandle, crate::index::IndexStore)>,
    schema_id: u32,
    ds: Seq<IndexDefinitionV>,
    c: ClauseV,
) -> Option<Seq<u64>> {
    match clause_index_ord(ds, c.field, 0) {
        None => None,
        Some(ord) => match reg_find(reg, handle_of(schema_id, ord)) {
            Some(st) => Some(scan_ids(st.entries@, c.lo, c.hi)),
            None => None,
        },
    }
}

/// The ids of `a`, in order, that also occur in `b`.
pub open spec fn intersect_ids(a: Seq<u64>, b: Seq<u64>) -> Seq<u64>
    decreases a.len(),
{
    if a.len() == 0 {
        Seq::<u64>::empty()
    } else if b.contains(a.last()) {
        intersect_ids(a.drop_last(), b).push(a.last())
    } else {
        intersect_ids(a.drop_last(), b)
    }
}

/// Folds the remaining clauses into the accumulated candidate set.
pub open spec fn eval_clauses(
    reg: Seq<(crate::registry::IndexHandle, crate::index::IndexStore)>,
    schema_id: u32,
    ds: Seq<IndexDefinitionV>,
    cs: Seq<ClauseV>,
    i: int,
    acc: Seq<u64>,
) -> Option<Seq<u64>>
    decreases cs.len() - i,
{
    if i < 0 || i >= cs.len() {
        Some(acc)
    } else {
        match clause_ids(reg, schema_id, ds, cs[i]) {
            None => None,
            Some(ids) => eval_clauses(reg, schema_id, ds, cs, i + 1, intersect_ids(acc, ids)),
        }
    }
}

/// The candidate ids of a whole predicate: the incremental intersection of
/// its clauses' candidate sets, in the first clause's index order; `None`
/// when the predicate has no clause or an unindexable one.
pub open spec fn query_ids(
    reg: Seq<(crate::registry::IndexHandle, crate::index::IndexStore)>,
    schema_id: u32,
    ds: Seq<IndexDefinitionV>,
    cs: Seq<ClauseV>,
) -> Option<Seq<u64>> {
    if cs.len() == 0 {
        None
    } else {
        match clause_ids(reg, schema_id, ds, cs[0]) {
            None => None,
            Some(ids0) => eval_clauses(reg, schema_id, ds, cs, 1, ids0),
        }
    }
}

/// The records behind a list of ids, in order; `None` when an id is not in
/// the primary store.
pub open spec fn fetch_all(recs: Seq<(u64, Record)>, ids: Seq<u64>) -> Option<Seq<RecordV>>
    decreases ids.len(),
{
    if ids.len() == 0 {
        Some(Seq::<RecordV>::empty())
    } else {
        match fetch_all(recs, ids.drop_last()) {
            None => None,
            Some(pre) => match rec_find(recs, ids.last()) {
                Some(r) => Some(pre.push(r@)),
                None => None,
            },
        }
    }
}

/// What a query returns, for every engine state, name and predicate:
/// name resolution, schema resolution, per-clause index scans, chunked
/// intersection, and record materialization, with the first failure's
/// error.
pub open spec fn query_spec(e: StorageEngine, name: Seq<u8>, cs: Seq<ClauseV>)
    -> Result<Seq<RecordV>, CacheError>
{
    match name_find(e.catalog.entries@, name) {
        None => Err(CacheError::SchemaNotFound),
        Some(sid) => match schema_find(e.catalog.entries@, sid) {
            None => Err(CacheError::SchemaNotFound),
            Some(p) => {
                match query_ids(
                    e.registry.entries@,
                    sid.id,
                    p.1@.map_values(|d: IndexDefinition| d@),
                    cs,
                ) {
                    None => Err(CacheError::IndexLookupInvariantViolation),
                    Some(ids) => match fetch_all(e.records@, ids) {
                        None => Err(CacheError::StoreError),
                        Some(rs) => Ok(rs),
                    },
                }
            },
        },
    }
}

proof fn lemma_contains_push(s: Seq<u64>, e: u64, x: u64)
    ensures
        s.push(e).contains(x) == (s.contains(x) || e == x),
{
    if s.push(e).contains(x) {
        let i = choose|i: int| 0 <= i < s.push(e).len() && s.push(e)[i] == x;
        if i < s.len() {
            assert(s[i] == x);
        }
    }
    if s.contains(x) {
        let i = choose|i: int| 0 <= i < s.len() && s[i] == x;
        assert(s.push(e)[i] == x);
    }
    if e == x {
        assert(s.push(e)[s.len() as int] == x);
    }
}

/// Intersection correctness: an id occurs in the intersection of two
/// candidate lists exactly when it occurs in both, so the returned set
/// equals the set-intersection of each clause's individually evaluated
/// matches.
pub proof fn lemma_intersect_membership(a: Seq<u64>, b: Seq<u64>)
    ensures
        forall|x: u64| #[trigger] intersect_ids(a, b).contains(x) == (a.contains(x) && b.contains(x)),
    decreases a.len(),
{
    if a.len() == 0 {
        assert forall|x: u64| !(#[trigger] intersect_ids(a, b).contains(x)) by {
            if intersect_ids(a, b).contains(x) {
                let i = choose|i: int| 0 <= i < intersect_ids(a, b).len() && intersect_ids(a, b)[i] == x;
            }
        }
        assert forall|x: u64| !(a.contains(x)) by {
            if a.contains(x) {
                let i = choose|i: int| 0 <= i < a.len() && a[i] == x;
            }
        }
    } else {
        let t = a.drop_last();
        lemma_intersect_membership(t, b);
        assert forall|x: u64|
            #[trigger] intersect_ids(a, b).contains(x) == (a.contains(x) && b.contains(x)) by {
            assert(a =~= t.push(a.last()));
            lemma_contains_push(t, a.last(), x);
            if b.contains(a.last()) {
                lemma_contains_push(intersect_ids(t, b), a.last(), x);
            }
        }
    }
}

proof fn lemma_fetch_all_missing(recs: Seq<(u64, Record)>, ids: Seq<u64>, i: int)
    requires
        0 <= i < ids.len(),
        rec_find(recs, ids[i]) is None,
    ensures
        fetch_all(recs, ids) is None,
    decreases ids.len(),
{
    if i == ids.len() - 1 {
        assert(ids.last() == ids[i]);
    } else {
        assert(ids.drop_last()[i] == ids[i]);
        lemma_fetch_all_missing(recs, ids.drop_last(), i);
    }
}

/// Membership check in a candidate list.
fn ids_contain(b: &Vec<u64>, x: u64) -> (r: bool)
    ensures
        r == b@.contains(x),
{
    let mut i: usize = 0;
    while i < b.len()
        invariant
            i <= b@.len(),
            forall|j: int| 0 <= j < i ==> b@[j] != x,
        decreases b@.len() - i,
    {
        if b[i] == x {
            return true;
        }
        i = i + 1;
    }
    proof {
        if b@.contains(x) {
            let j = choose|j: int| 0 <= j < b@.len() && b@[j] == x;
        }
    }
    false
}

/// Intersects two candidate lists, walking the first in batches of
/// `chunk` ids so that peak memory stays bounded when one clause matches
/// very many records.  The result does not depend on the batch size:
/// it is always exactly the ids of `a`, in order, that occur in `b`.
fn intersect_chunked(a: &Vec<u64>, b: &Vec<u64>, chunk: usize) -> (r: Vec<u64>)
    ensures
        r@ == intersect_ids(a@, b@),
{
    let step: usize = if chunk == 0 { 1 } else { chunk };
    let mut out: Vec<u64> = Vec::new();
    let mut i: usize = 0;
    proof {
        assert(a@.subrange(0, 0) =~= Seq::<u64>::empty());
    }
    while i < a.len()
        invariant
            step >= 1,
            i <= a@.len(),
            out@ == intersect_ids(a@.subrange(0, i as int), b@),
        decreases a@.len() - i,
    {
        let batch_end = if a.len() - i < step { a.len() } else { i + step };
        while i < batch_end
            invariant
                i <= batch_end,
                batch_end <= a@.len(),
                out@ == intersect_ids(a@.subrange(0, i as int), b@),
            decreases batch_end - i,
        {
            if ids_contain(b, a[i]) {
                out.push(a[i]);
            }
            i = i + 1;
            proof {
                let pre = a@.subrange(0, i - 1);
                let curp = a@.subrange(0, i as int);
                assert(curp.drop_last() =~= pre);
                assert(curp.last() == a@[i - 1]);
            }
        }
    }
    proof {
        assert(a@.subrange(0, a@.len() as int) =~= a@);
    }
    out
}

impl StorageEngine {
    /// Evaluates one clause against the registered indexes: scans the
    /// first index whose leading field is the clause's field.
    fn eval_clause(&self, schema_id: u32, defs: &Vec<IndexDefinition>, c: &Clause)
        -> (r: Result<Vec<u64>, CacheError>)
        ensures
            match clause_ids(
                self.registry.entries@,
                schema_id,
                defs@.map_values(|d: IndexDefinition| d@),
                c@,
            ) {
                Some(ids) => r matches Ok(v) && v@ == ids,
                None => r == Err::<Vec<u64>, CacheError>(CacheError::IndexLookupInvariantViolation),
            },
    {
        let ghost dsv = defs@.map_values(|d: IndexDefinition| d@);
        proof {
            assert(dsv.len() == defs@.len());
        }
        let mut ord: usize = 0;
        let mut found: Option<usize> = None;
        while ord < defs.len()
            invariant_except_break
                dsv == defs@.map_values(|d: IndexDefinition| d@),
                dsv.len() == defs@.len(),
                ord <= defs@.len(),
                found is None,
                clause_index_ord(dsv, c@.field, 0) == clause_index_ord(dsv, c@.field, ord as int),
            ensures
                match found {
                    Some(o) => o < defs@.len()
                        && clause_index_ord(dsv, c@.field, 0) == Some(o as int),
                    None => clause_index_ord(dsv, c@.field, 0) is None,
                },
            decreases defs@.len() - ord,
        {
            let fs = match &defs[ord] {
                IndexDefinition::SortedInverted(fs) => fs,
            };
            proof {
                assert(dsv[ord as int] == (defs@[ord as int])@);
                assert(index_fields(dsv[ord as int]) == fs@);
            }
            if fs.len() > 0 && fs[0] == c.field {
                proof {
                    assert(c@.field == c.field);
                    assert(clause_index_ord(dsv, c@.field, ord as int) == Some(ord as int));
                }
                found = Some(ord);
                break;
            }
            ord = ord + 1;
        }
        let ord = match found {
            Some(o) => o,
            None => {
                return Err(CacheError::IndexLookupInvariantViolation);
            },
        };
        let h = crate::registry::IndexHandle { schema_id, ordinal: ord };
        let pos = match self.registry.position(h) {
            Some(p) => p,
            None => {
                proof {
                    assert(h == handle_of(schema_id, ord as int));
                }
                return Err(CacheError::IndexLookupInvariantViolation);
            },
        };
        let (lo, hi) = match &c.op {
            Op::Eq(v) => (v, v),
            Op::Range(lo, hi) => (lo, hi),
        };
        let ids = self.registry.entries[pos].1.scan(lo, hi);
        proof {
            assert(h == handle_of(schema_id, ord as int));
            assert(reg_find(self.registry.entries@, h)
                == Some(self.registry.entries@[pos as int].1));
        }
        Ok(ids)
    }

    /// Evaluates a structured predicate against a schema's secondary
    /// indexes: resolves schema and indexes by name, scans one index per
    /// clause, intersects the candidate sets in bounded batches of the
    /// configured chunk size, and materializes the surviving records from
    /// the primary store.  A predicate with no clause, or with a clause no
    /// registered index can answer, is reported as an error, never
    /// silently full-scanned.  Under a single clause the output preserves
    /// that index's order.
    pub fn query(&self, name: &Vec<u8>, query: &QueryExpression)
        -> (r: Result<Vec<Record>, CacheError>)
        ensures
            match query_spec(*self, name@, query@) {
                Ok(rs) => r matches Ok(out) && out@.map_values(|x: Record| x@) == rs,
                Err(e) => r == Err::<Vec<Record>, CacheError>(e),
            },
    {
        let nkey = get_schema_name_key(name);
        let sid = match self.catalog.find(&nkey) {
            Some(CatalogValue::NameEntry(sid)) => *sid,
            _ => {
                return Err(CacheError::SchemaNotFound);
            },
        };
        let skey = get_schema_key(&sid);
        let defs = match self.catalog.find(&skey) {
            Some(CatalogValue::SchemaEntry(_, ds)) => copy_index_definitions(ds),
            _ => {
                return Err(CacheError::SchemaNotFound);
            },
        };
        let ghost p = schema_find(self.catalog.entries@, sid).unwrap();
        let ghost dsv = p.1@.map_values(|d: IndexDefinition| d@);
        proof {
            assert(defs@.map_values(|d: IndexDefinition| d@) == dsv);
        }
        let ghost csv = query@;
        if query.clauses.len() == 0 {
            proof {
                assert(csv.len() == 0);
            }
            return Err(CacheError::IndexLookupInvariantViolation);
        }
        proof {
            assert(csv.len() == query.clauses@.len());
            assert(csv[0] == (query.clauses@[0])@);
        }
        let mut acc = match self.eval_clause(sid.id, &defs, &query.clauses[0]) {
            Ok(v) => v,
            Err(e) => {
                return Err(e);
            },
        };
        let mut ci: usize = 1;
        while ci < query.clauses.len()
            invariant
                csv == query@,
                csv.len() == query.clauses@.len(),
                dsv == defs@.map_values(|d: IndexDefinition| d@),
                name_find(self.catalog.entries@, name@) == Some(sid),
                schema_find(self.catalog.entries@, sid) == Some(p),
                dsv == p.1@.map_values(|d: IndexDefinition| d@),
                1 <= ci <= csv.len(),
                query_ids(self.registry.entries@, sid.id, dsv, csv)
                    == eval_clauses(self.registry.entries@, sid.id, dsv, csv, ci as int, acc@),
            decreases csv.len() - ci,
        {
            proof {
                assert(csv[ci as int] == (query.clauses@[ci as int])@);
            }
            let ids = match self.eval_clause(sid.id, &defs, &query.clauses[ci]) {
                Ok(v) => v,
                Err(e) => {
                    return Err(e);
                },
            };
            acc = intersect_chunked(&acc, &ids, self.intersection_chunk_size);
            ci = ci + 1;
        }
        proof {
            assert(query_ids(self.registry.entries@, sid.id, dsv, csv) == Some(acc@));
        }
        // materialize the surviving records from the primary store
        let mut out: Vec<Record> = Vec::new();
        let mut i: usize = 0;
        proof {
            assert(acc@.subrange(0, 0) =~= Seq::<u64>::empty());
            assert(fetch_all(self.records@, acc@.subrange(0, 0)) =~= Some(Seq::<RecordV>::empty()));
            assert(out@.map_values(|x: Record| x@) =~= Seq::<RecordV>::empty());
        }
        while i < acc.len()
            invariant
                csv == query@,
                name_find(self.catalog.entries@, name@) == Some(sid),
                schema_find(self.catalog.entries@, sid) == Some(p),
                dsv == p.1@.map_values(|d: IndexDefinition| d@),
                query_ids(self.registry.entries@, sid.id, dsv, csv) == Some(acc@),
                i <= acc@.len(),
                fetch_all(self.records@, acc@.subrange(0, i as int))
                    == Some(out@.map_values(|x: Record| x@)),
            decreases acc@.len() - i,
        {
            let rp = match self.rec_position(acc[i]) {
                Some(rp) => rp,
                None => {
                    proof {
                        lemma_fetch_all_missing(self.records@, acc@, i as int);
                    }
                    return Err(CacheError::StoreError);
                },
            };
            out.push(copy_record(&self.records[rp].1));
            i = i + 1;
            proof {
                let pre = acc@.subrange(0, i - 1);
                let curp = acc@.subrange(0, i as int);
                assert(curp.drop_last() =~= pre);
                assert(curp.last() == acc@[i - 1]);
                assert(out@.map_values(|x: Record| x@)
                    =~= out@.drop_last().map_values(|x: Record| x@).push(out@.last()@));
            }
        }
        proof {
            assert(acc@.subrange(0, acc@.len() as int) =~= acc@);
        }
        Ok(out)
    }
}

} // verus!
