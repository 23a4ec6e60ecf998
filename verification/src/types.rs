use vstd::prelude::*;

verus! {

/// Identifies one committed schema revision.  A `(id, version)` pair is
/// immutable once registered: a new version is a new entity, never an
/// in-place edit.
#[derive(Clone, Copy, PartialEq, Eq, Structural, Debug)]
pub struct SchemaIdentifier {
    pub id: u32,
    pub version: u32,
}

/// The type a field of a schema may carry.
#[derive(Clone, Copy, PartialEq, Eq, Structural, Debug)]
pub enum FieldType {
    Int,
    Text,
}

/// One field value of a record: a signed integer or a byte string
/// (the UTF-8 bytes of a text value).
#[derive(Clone, Debug)]
pub enum FieldValue {
    Int(i64),
    Text(Vec<u8>),
}

/// Mathematical model of a [`FieldValue`].
pub enum FieldValueV {
    Int(i64),
    Text(Seq<u8>),
}

impl View for FieldValue {
    type V = FieldValueV;

    open spec fn view(&self) -> FieldValueV {
        match self {
            FieldValue::Int(x) => FieldValueV::Int(*x),
            FieldValue::Text(b) => FieldValueV::Text(b@),
        }
    }
}

/// One field of a schema: a human-readable name (as UTF-8 bytes) and a type.
#[derive(Clone, Debug)]
pub struct FieldDefinition {
    pub name: Vec<u8>,
    pub typ: FieldType,
}

/// Mathematical model of a [`FieldDefinition`].
pub struct FieldDefinitionV {
    pub name: Seq<u8>,
    pub typ: FieldType,
}

impl View for FieldDefinition {
    type V = FieldDefinitionV;

    open spec fn view(&self) -> FieldDefinitionV {
        FieldDefinitionV { name: self.name@, typ: self.typ }
    }
}

/// An ordered list of field definitions plus the identifier of the revision
/// it belongs to, and the list of field positions that form the primary key.
#[derive(Clone, Debug)]
pub struct Schema {
    pub identifier: Option<SchemaIdentifier>,
    pub fields: Vec<FieldDefinition>,
    pub primary_index: Vec<usize>,
}

/// Mathematical model of a [`Schema`].
pub struct SchemaV {
    pub identifier: Option<SchemaIdentifier>,
    pub fields: Seq<FieldDefinitionV>,
    pub primary_index: Seq<usize>,
}

impl View for Schema {
    type V = SchemaV;

    open spec fn view(&self) -> SchemaV {
        SchemaV {
            identifier: self.identifier,
            fields: self.fields@.map_values(|f: FieldDefinition| f@),
            primary_index: self.primary_index@,
        }
    }
}

/// A schema-typed, field-valued unit of stored data.
#[derive(Clone, Debug)]
pub struct Record {
    pub schema_id: Option<SchemaIdentifier>,
    pub values: Vec<FieldValue>,
}

/// Mathematical model of a [`Record`].
pub struct RecordV {
    pub schema_id: Option<SchemaIdentifier>,
    pub values: Seq<FieldValueV>,
}

impl View for Record {
    type V = RecordV;

    open spec fn view(&self) -> RecordV {
        RecordV {
            schema_id: self.schema_id,
            values: self.values@.map_values(|v: FieldValue| v@),
        }
    }
}

/// The kind of a secondary index, a closed tagged union that is open for
/// extension: new kinds may be added without changing the registry's key
/// scheme.  `SortedInverted` is a composite, order-sensitive index over the
/// listed field positions, compared field by field in ascending order.
#[derive(Clone, Debug)]
pub enum IndexDefinition {
    SortedInverted(Vec<usize>),
}

/// Mathematical model of an [`IndexDefinition`].
pub enum IndexDefinitionV {
    SortedInverted(Seq<usize>),
}

impl View for IndexDefinition {
    type V = IndexDefinitionV;

    open spec fn view(&self) -> IndexDefinitionV {
        match self {
            IndexDefinition::SortedInverted(fs) => IndexDefinitionV::SortedInverted(fs@),
        }
    }
}

/// The field positions an index definition names, in declared order.
pub open spec fn index_fields(d: IndexDefinitionV) -> Seq<usize> {
    match d {
        IndexDefinitionV::SortedInverted(fs) => fs,
    }
}

/// A record conforms to a schema when it carries one value per declared field.
pub open spec fn record_conforms(r: RecordV, s: SchemaV) -> bool {
    r.values.len() == s.fields.len()
}

/// An index definition is valid for a schema when it names at least one
/// field and every named position lies inside the schema's field list.
pub open spec fn index_def_valid(d: IndexDefinitionV, s: SchemaV) -> bool {
    &&& index_fields(d).len() > 0
    &&& forall|i: int| 0 <= i < index_fields(d).len() ==> index_fields(d)[i] < s.fields.len()
}

/// A schema is well formed when it carries an identifier and every
/// primary-key field position lies inside its field list.
pub open spec fn schema_valid(s: SchemaV) -> bool {
    &&& s.identifier is Some
    &&& forall|i: int| 0 <= i < s.primary_index.len() ==> s.primary_index[i] < s.fields.len()
}

/// Copies a byte vector.
pub fn copy_bytes(v: &Vec<u8>) -> (r: Vec<u8>)
    ensures
        r@ == v@,
{
    let mut out: Vec<u8> = Vec::new();
    let mut i: usize = 0;
    while i < v.len()
        invariant
            i <= v.len(),
            out@ == v@.subrange(0, i as int),
        decreases v.len() - i,
    {
        out.push(v[i]);
        i = i + 1;
        proof {
            assert(out@ =~= v@.subrange(0, i as int));
        }
    }
    proof {
        assert(out@ =~= v@);
    }
    out
}

/// Copies one field value.
pub fn copy_field_value(v: &FieldValue) -> (r: FieldValue)
    ensures
        r@ == v@,
{
    match v {
        FieldValue::Int(x) => FieldValue::Int(*x),
        FieldValue::Text(b) => FieldValue::Text(copy_bytes(b)),
    }
}

/// Copies a list of field values.
pub fn copy_field_values(vs: &Vec<FieldValue>) -> (r: Vec<FieldValue>)
    ensures
        r@.map_values(|v: FieldValue| v@) == vs@.map_values(|v: FieldValue| v@),
{
    let mut out: Vec<FieldValue> = Vec::new();
    let mut i: usize = 0;
    while i < vs.len()
        invariant
            i <= vs.len(),
            out@.len() == i,
            forall|j: int| 0 <= j < i ==> out@[j]@ == vs@[j]@,
        decreases vs.len() - i,
    {
        out.push(copy_field_value(&vs[i]));
        i = i + 1;
    }
    proof {
        assert(out@.map_values(|v: FieldValue| v@) =~= vs@.map_values(|v: FieldValue| v@));
    }
    out
}

/// Copies a record.
pub fn copy_record(r: &Record) -> (c: Record)
    ensures
        c@ == r@,
{
    let c = Record { schema_id: r.schema_id, values: copy_field_values(&r.values) };
    c
}

/// Copies a list of field positions.
pub fn copy_positions(v: &Vec<usize>) -> (r: Vec<usize>)
    ensures
        r@ == v@,
{
    let mut out: Vec<usize> = Vec::new();
    let mut i: usize = 0;
    while i < v.len()
        invariant
            i <= v.len(),
            out@ == v@.subrange(0, i as int),
        decreases v.len() - i,
    {
        out.push(v[i]);
        i = i + 1;
        proof {
            assert(out@ =~= v@.subrange(0, i as int));
        }
    }
    proof {
        assert(out@ =~= v@);
    }
    out
}

/// Copies a field definition.
pub fn copy_field_definition(f: &FieldDefinition) -> (r: FieldDefinition)
    ensures
        r@ == f@,
{
    FieldDefinition { name: copy_bytes(&f.name), typ: f.typ }
}

/// Copies a schema.
pub fn copy_schema(s: &Schema) -> (r: Schema)
    ensures
        r@ == s@,
{
    let mut fields: Vec<FieldDefinition> = Vec::new();
    let mut i: usize = 0;
    while i < s.fields.len()
        invariant
            i <= s.fields.len(),
            fields@.len() == i,
            forall|j: int| 0 <= j < i ==> fields@[j]@ == s.fields@[j]@,
        decreases s.fields.len() - i,
    {
        fields.push(copy_field_definition(&s.fields[i]));
        i = i + 1;
    }
    proof {
        assert(fields@.map_values(|f: FieldDefinition| f@)
            =~= s.fields@.map_values(|f: FieldDefinition| f@));
    }
    Schema {
        identifier: s.identifier,
        fields,
        primary_index: copy_positions(&s.primary_index),
    }
}

/// Copies an index definition.
pub fn copy_index_definition(d: &IndexDefinition) -> (r: IndexDefinition)
    ensures
        r@ == d@,
{
    match d {
        IndexDefinition::SortedInverted(fs) => IndexDefinition::SortedInverted(copy_positions(fs)),
    }
}

/// Copies a list of index definitions.
pub fn copy_index_definitions(ds: &Vec<IndexDefinition>) -> (r: Vec<IndexDefinition>)
    ensures
        r@.map_values(|d: IndexDefinition| d@) == ds@.map_values(|d: IndexDefinition| d@),
{
    let mut out: Vec<IndexDefinition> = Vec::new();
    let mut i: usize = 0;
    while i < ds.len()
        invariant
            i <= ds.len(),
            out@.len() == i,
            forall|j: int| 0 <= j < i ==> out@[j]@ == ds@[j]@,
        decreases ds.len() - i,
    {
        out.push(copy_index_definition(&ds[i]));
        i = i + 1;
    }
    proof {
        assert(out@.map_values(|d: IndexDefinition| d@) =~= ds@.map_values(|d: IndexDefinition| d@));
    }
    out
}

/// Byte-vector equality.
pub fn bytes_eq(a: &Vec<u8>, b: &Vec<u8>) -> (r: bool)
    ensures
        r == (a@ == b@),
{
    if a.len() != b.len() {
        proof {
            assert(a@.len() != b@.len());
        }
        return false;
    }
    let mut i: usize = 0;
    while i < a.len()
        invariant
            i <= a.len(),
            a@.len() == b@.len(),
            forall|j: int| 0 <= j < i ==> a@[j] == b@[j],
        decreases a.len() - i,
    {
        if a[i] != b[i] {
            return false;
        }
        i = i + 1;
    }
    proof {
        assert(a@ =~= b@);
    }
    true
}

impl PartialEq for FieldValue {
    fn eq(&self, o: &FieldValue) -> (r: bool) {
        match (self, o) {
            (FieldValue::Int(a), FieldValue::Int(b)) => *a == *b,
            (FieldValue::Text(a), FieldValue::Text(b)) => bytes_eq(a, b),
            _ => false,
        }
    }
}

impl vstd::std_specs::cmp::PartialEqSpecImpl for FieldValue {
    open spec fn obeys_eq_spec() -> bool {
        true
    }

    open spec fn eq_spec(&self, o: &FieldValue) -> bool {
        self@ == o@
    }
}

/// Field-value-list equality, compared by the values' models.
pub fn field_values_eq(a: &Vec<FieldValue>, b: &Vec<FieldValue>) -> (r: bool)
    ensures
        r == (a@.map_values(|v: FieldValue| v@) == b@.map_values(|v: FieldValue| v@)),
{
    let ghost am = a@.map_values(|v: FieldValue| v@);
    let ghost bm = b@.map_values(|v: FieldValue| v@);
    if a.len() != b.len() {
        proof {
            assert(am.len() != bm.len());
        }
        return false;
    }
    let mut i: usize = 0;
    while i < a.len()
        invariant
            i <= a.len(),
            a@.len() == b@.len(),
            am == a@.map_values(|v: FieldValue| v@),
            bm == b@.map_values(|v: FieldValue| v@),
            forall|j: int| 0 <= j < i ==> am[j] == bm[j],
        decreases a.len() - i,
    {
        if !(a[i] == b[i]) {
            proof {
                assert(am[i as int] != bm[i as int]);
            }
            return false;
        }
        i = i + 1;
    }
    proof {
        assert(am =~= bm);
    }
    true
}

impl PartialEq for Record {
    fn eq(&self, o: &Record) -> (r: bool) {
        let ids_equal = match (self.schema_id, o.schema_id) {
            (Some(a), Some(b)) => a == b,
            (None, None) => true,
            _ => false,
        };
        ids_equal && field_values_eq(&self.values, &o.values)
    }
}

impl vstd::std_specs::cmp::PartialEqSpecImpl for Record {
    open spec fn obeys_eq_spec() -> bool {
        true
    }

    open spec fn eq_spec(&self, o: &Record) -> bool {
        self@ == o@
    }
}

} // verus!
