use vstd::prelude::*;
use crate::types::{FieldValue, FieldValueV, SchemaIdentifier};

verus! {

/// The eight big-endian bytes of a 64-bit integer.
pub open spec fn u64_be_bytes(x: u64) -> Seq<u8> {
    seq![
        (x >> 56) as u8,
        (x >> 48) as u8,
        (x >> 40) as u8,
        (x >> 32) as u8,
        (x >> 24) as u8,
        (x >> 16) as u8,
        (x >> 8) as u8,
        x as u8,
    ]
}

/// Writes a 64-bit integer as eight big-endian bytes.
pub fn u64_to_be_bytes(x: u64) -> (r: Vec<u8>)
    ensures
        r@ == u64_be_bytes(x),
{
    let mut out: Vec<u8> = Vec::new();
    out.push((x >> 56) as u8);
    out.push((x >> 48) as u8);
    out.push((x >> 40) as u8);
    out.push((x >> 32) as u8);
    out.push((x >> 24) as u8);
    out.push((x >> 16) as u8);
    out.push((x >> 8) as u8);
    out.push(x as u8);
    proof {
        assert(out@ =~= u64_be_bytes(x));
    }
    out
}

/// Two integers with the same big-endian bytes are equal.
pub proof fn lemma_u64_be_bytes_injective(x: u64, y: u64)
    requires
        u64_be_bytes(x) == u64_be_bytes(y),
    ensures
        x == y,
{
    assert(u64_be_bytes(x)[0] == u64_be_bytes(y)[0]);
    assert(u64_be_bytes(x)[1] == u64_be_bytes(y)[1]);
    assert(u64_be_bytes(x)[2] == u64_be_bytes(y)[2]);
    assert(u64_be_bytes(x)[3] == u64_be_bytes(y)[3]);
    assert(u64_be_bytes(x)[4] == u64_be_bytes(y)[4]);
    assert(u64_be_bytes(x)[5] == u64_be_bytes(y)[5]);
    assert(u64_be_bytes(x)[6] == u64_be_bytes(y)[6]);
    assert(u64_be_bytes(x)[7] == u64_be_bytes(y)[7]);
    assert(x == y) by (bit_vector)
        requires
            (x >> 56) as u8 == (y >> 56) as u8,
            (x >> 48) as u8 == (y >> 48) as u8,
            (x >> 40) as u8 == (y >> 40) as u8,
            (x >> 32) as u8 == (y >> 32) as u8,
            (x >> 24) as u8 == (y >> 24) as u8,
            (x >> 16) as u8 == (y >> 16) as u8,
            (x >> 8) as u8 == (y >> 8) as u8,
            x as u8 == y as u8,
    ;
}

/// The catalog key of a schema revision:
/// `"sc" || '#' || big-endian(id) || '#' || big-endian(version)`.
pub open spec fn schema_key_bytes(schema_id: SchemaIdentifier) -> Seq<u8> {
    seq![115u8, 99u8, 35u8] + u64_be_bytes(schema_id.id as u64) + seq![35u8]
        + u64_be_bytes(schema_id.version as u64)
}

/// Builds the catalog key under which a schema revision is stored.
pub fn get_schema_key(schema_id: &SchemaIdentifier) -> (r: Vec<u8>)
    ensures
        r@ == schema_key_bytes(*schema_id),
{
    let mut out: Vec<u8> = Vec::new();
    out.push(115);
    out.push(99);
    out.push(35);
    let mut id_bytes = u64_to_be_bytes(schema_id.id as u64);
    out.append(&mut id_bytes);
    out.push(35);
    let mut version_bytes = u64_to_be_bytes(schema_id.version as u64);
    out.append(&mut version_bytes);
    proof {
        assert(out@ =~= schema_key_bytes(*schema_id));
    }
    out
}

/// Distinct identifiers get distinct catalog keys.
pub proof fn lemma_schema_key_injective(a: SchemaIdentifier, b: SchemaIdentifier)
    requires
        schema_key_bytes(a) == schema_key_bytes(b),
    ensures
        a == b,
{
    assert(u64_be_bytes(a.id as u64) =~= u64_be_bytes(b.id as u64)) by {
        assert(forall|j: int| 0 <= j < 8 ==> schema_key_bytes(a)[3 + j] == #[trigger] u64_be_bytes(a.id as u64)[j]);
        assert(forall|j: int| 0 <= j < 8 ==> schema_key_bytes(b)[3 + j] == #[trigger] u64_be_bytes(b.id as u64)[j]);
    }
    lemma_u64_be_bytes_injective(a.id as u64, b.id as u64);
    assert(u64_be_bytes(a.version as u64) =~= u64_be_bytes(b.version as u64)) by {
        assert(forall|j: int| 0 <= j < 8 ==> schema_key_bytes(a)[12 + j] == #[trigger] u64_be_bytes(a.version as u64)[j]);
        assert(forall|j: int| 0 <= j < 8 ==> schema_key_bytes(b)[12 + j] == #[trigger] u64_be_bytes(b.version as u64)[j]);
    }
    lemma_u64_be_bytes_injective(a.version as u64, b.version as u64);
}

/// The catalog key of the name-based reverse entry:
/// `"sn" || '#' || name`, a namespace disjoint from schema-revision keys.
pub open spec fn schema_name_key_bytes(name: Seq<u8>) -> Seq<u8> {
    seq![115u8, 110u8, 35u8] + name
}

/// Builds the catalog key of the reverse entry for a schema name.
pub fn get_schema_name_key(name: &Vec<u8>) -> (r: Vec<u8>)
    ensures
        r@ == schema_name_key_bytes(name@),
{
    let mut out: Vec<u8> = Vec::new();
    out.push(115);
    out.push(110);
    out.push(35);
    let mut tail = crate::types::copy_bytes(name);
    out.append(&mut tail);
    proof {
        assert(out@ =~= schema_name_key_bytes(name@));
    }
    out
}

/// The two catalog namespaces never collide: a schema-revision key differs
/// from every name key at the second byte.
pub proof fn lemma_schema_namespaces_disjoint(schema_id: SchemaIdentifier, name: Seq<u8>)
    ensures
        schema_key_bytes(schema_id) != schema_name_key_bytes(name),
{
    assert(schema_key_bytes(schema_id)[1] == 99u8);
    assert(schema_name_key_bytes(name)[1] == 110u8);
}

/// Distinct names get distinct reverse-entry keys.
pub proof fn lemma_schema_name_key_injective(a: Seq<u8>, b: Seq<u8>)
    requires
        schema_name_key_bytes(a) == schema_name_key_bytes(b),
    ensures
        a == b,
{
    assert(schema_name_key_bytes(a).len() == 3 + a.len());
    assert(schema_name_key_bytes(b).len() == 3 + b.len());
    assert(forall|j: int| 0 <= j < a.len() ==> #[trigger] a[j] == schema_name_key_bytes(a)[3 + j]);
    assert(forall|j: int| 0 <= j < b.len() ==> #[trigger] b[j] == schema_name_key_bytes(b)[3 + j]);
    assert(a =~= b);
}

/// The byte encoding of one field value inside a primary lookup key: a tag
/// byte, then for integers the eight big-endian bytes of the two's-complement
/// value, for text the big-endian length followed by the bytes.
pub open spec fn field_value_bytes(v: FieldValueV) -> Seq<u8> {
    match v {
        FieldValueV::Int(x) => seq![0u8] + u64_be_bytes(x as u64),
        FieldValueV::Text(b) => seq![1u8] + u64_be_bytes(b.len() as u64) + b,
    }
}

/// The primary lookup key of a record: the encodings of the primary-key
/// fields, concatenated in declared order.
pub open spec fn primary_key_bytes(pk_fields: Seq<usize>, values: Seq<FieldValueV>) -> Seq<u8>
    decreases pk_fields.len(),
{
    if pk_fields.len() == 0 {
        Seq::<u8>::empty()
    } else {
        primary_key_bytes(pk_fields.drop_last(), values)
            + field_value_bytes(values[pk_fields.last() as int])
    }
}

/// Encodes one field value as lookup-key bytes.
fn encode_field_value(v: &FieldValue) -> (r: Vec<u8>)
    ensures
        r@ == field_value_bytes(v@),
{
    let mut out: Vec<u8> = Vec::new();
    match v {
        FieldValue::Int(x) => {
            out.push(0);
            let mut payload = u64_to_be_bytes(#[verifier::truncate] (*x as u64));
            out.append(&mut payload);
        },
        FieldValue::Text(b) => {
            out.push(1);
            let mut len_bytes = u64_to_be_bytes(b.len() as u64);
            out.append(&mut len_bytes);
            let mut payload = crate::types::copy_bytes(b);
            out.append(&mut payload);
        },
    }
    proof {
        assert(out@ =~= field_value_bytes(v@));
    }
    out
}

/// Builds the caller-facing lookup key of a record from the field positions
/// that its schema declares as the primary key.
pub fn get_primary_key(pk_fields: &Vec<usize>, values: &Vec<FieldValue>) -> (r: Vec<u8>)
    requires
        forall|i: int| 0 <= i < pk_fields@.len() ==> pk_fields@[i] < values@.len(),
    ensures
        r@ == primary_key_bytes(pk_fields@, values@.map_values(|v: FieldValue| v@)),
{
    let ghost vals = values@.map_values(|v: FieldValue| v@);
    let mut out: Vec<u8> = Vec::new();
    let mut i: usize = 0;
    while i < pk_fields.len()
        invariant
            i <= pk_fields@.len(),
            vals == values@.map_values(|v: FieldValue| v@),
            vals.len() == values@.len(),
            forall|j: int| 0 <= j < pk_fields@.len() ==> pk_fields@[j] < values@.len(),
            out@ == primary_key_bytes(pk_fields@.subrange(0, i as int), vals),
        decreases pk_fields@.len() - i,
    {
        let f = pk_fields[i];
        let mut piece = encode_field_value(&values[f]);
        out.append(&mut piece);
        i = i + 1;
        proof {
            let prefix = pk_fields@.subrange(0, i as int);
            assert(prefix.drop_last() =~= pk_fields@.subrange(0, i - 1));
            assert(prefix.last() == pk_fields@[i - 1]);
        }
    }
    proof {
        assert(pk_fields@.subrange(0, pk_fields@.len() as int) =~= pk_fields@);
    }
    out
}

} // verus!
