use vstd::prelude::*;
use crate::types::{FieldValue, FieldValueV};

verus! {

/// Strict lexicographic order on byte strings: a shorter string precedes
/// every string it is a proper prefix of.
pub open spec fn bytes_lt(a: Seq<u8>, b: Seq<u8>) -> bool
    decreases a.len() + b.len(),
{
    if b.len() == 0 {
        false
    } else if a.len() == 0 {
        true
    } else if a[0] < b[0] {
        true
    } else if b[0] < a[0] {
        false
    } else {
        bytes_lt(a.drop_first(), b.drop_first())
    }
}

/// Strict order on single field values: integers by signed value, text by
/// byte order, and every integer before every text value.
pub open spec fn field_lt(a: FieldValueV, b: FieldValueV) -> bool {
    match (a, b) {
        (FieldValueV::Int(x), FieldValueV::Int(y)) => x < y,
        (FieldValueV::Int(_), FieldValueV::Text(_)) => true,
        (FieldValueV::Text(_), FieldValueV::Int(_)) => false,
        (FieldValueV::Text(x), FieldValueV::Text(y)) => bytes_lt(x, y),
    }
}

/// Strict lexicographic order on composite keys: multi-field ascending
/// comparison in declared field order.  This is the ordering installed on
/// every `SortedInverted` sub-store.
pub open spec fn key_lt(a: Seq<FieldValueV>, b: Seq<FieldValueV>) -> bool
    decreases a.len() + b.len(),
{
    if b.len() == 0 {
        false
    } else if a.len() == 0 {
        true
    } else if field_lt(a[0], b[0]) {
        true
    } else if field_lt(b[0], a[0]) {
        false
    } else {
        key_lt(a.drop_first(), b.drop_first())
    }
}

/// Non-strict composite-key order.
pub open spec fn key_le(a: Seq<FieldValueV>, b: Seq<FieldValueV>) -> bool {
    !key_lt(b, a)
}

pub proof fn lemma_bytes_lt_trichotomy(a: Seq<u8>, b: Seq<u8>)
    ensures
        bytes_lt(a, b) || bytes_lt(b, a) || a == b,
        !(bytes_lt(a, b) && bytes_lt(b, a)),
    decreases a.len() + b.len(),
{
    if a.len() > 0 && b.len() > 0 && a[0] == b[0] {
        lemma_bytes_lt_trichotomy(a.drop_first(), b.drop_first());
        if a.drop_first() == b.drop_first() {
            assert(forall|i: int| 1 <= i < a.len() ==> #[trigger] a[i] == a.drop_first()[i - 1]);
            assert(forall|i: int| 1 <= i < b.len() ==> #[trigger] b[i] == b.drop_first()[i - 1]);
            assert(a =~= b);
        }
    }
}

pub proof fn lemma_bytes_lt_trans(a: Seq<u8>, b: Seq<u8>, c: Seq<u8>)
    requires
        bytes_lt(a, b),
        bytes_lt(b, c),
    ensures
        bytes_lt(a, c),
    decreases a.len() + b.len() + c.len(),
{
    if a.len() > 0 && b.len() > 0 && c.len() > 0 && a[0] == b[0] && b[0] == c[0] {
        lemma_bytes_lt_trans(a.drop_first(), b.drop_first(), c.drop_first());
    }
}

pub proof fn lemma_field_lt_trichotomy(a: FieldValueV, b: FieldValueV)
    ensures
        field_lt(a, b) || field_lt(b, a) || a == b,
        !(field_lt(a, b) && field_lt(b, a)),
{
    match (a, b) {
        (FieldValueV::Text(x), FieldValueV::Text(y)) => {
            lemma_bytes_lt_trichotomy(x, y);
        },
        _ => {},
    }
}

pub proof fn lemma_field_lt_trans(a: FieldValueV, b: FieldValueV, c: FieldValueV)
    requires
        field_lt(a, b),
        field_lt(b, c),
    ensures
        field_lt(a, c),
{
    match (a, b, c) {
        (FieldValueV::Text(x), FieldValueV::Text(y), FieldValueV::Text(z)) => {
            lemma_bytes_lt_trans(x, y, z);
        },
        _ => {},
    }
}

pub proof fn lemma_key_lt_trichotomy(a: Seq<FieldValueV>, b: Seq<FieldValueV>)
    ensures
        key_lt(a, b) || key_lt(b, a) || a == b,
        !(key_lt(a, b) && key_lt(b, a)),
    decreases a.len() + b.len(),
{
    if a.len() > 0 && b.len() > 0 {
        lemma_field_lt_trichotomy(a[0], b[0]);
        if !field_lt(a[0], b[0]) && !field_lt(b[0], a[0]) {
            lemma_key_lt_trichotomy(a.drop_first(), b.drop_first());
            if a.drop_first() == b.drop_first() && a[0] == b[0] {
                assert(forall|i: int| 1 <= i < a.len() ==> #[trigger] a[i] == a.drop_first()[i - 1]);
                assert(forall|i: int| 1 <= i < b.len() ==> #[trigger] b[i] == b.drop_first()[i - 1]);
                assert(a =~= b);
            }
        }
    }
}

pub proof fn lemma_key_lt_trans(a: Seq<FieldValueV>, b: Seq<FieldValueV>, c: Seq<FieldValueV>)
    requires
        key_lt(a, b),
        key_lt(b, c),
    ensures
        key_lt(a, c),
    decreases a.len() + b.len() + c.len(),
{
    if a.len() > 0 && b.len() > 0 && c.len() > 0 {
        lemma_field_lt_trichotomy(a[0], b[0]);
        lemma_field_lt_trichotomy(b[0], c[0]);
        if !field_lt(a[0], b[0]) && !field_lt(b[0], a[0])
            && !field_lt(b[0], c[0]) && !field_lt(c[0], b[0]) {
            lemma_key_lt_trans(a.drop_first(), b.drop_first(), c.drop_first());
        } else if field_lt(a[0], b[0]) && field_lt(b[0], c[0]) {
            lemma_field_lt_trans(a[0], b[0], c[0]);
        }
    }
}

/// Non-strict order is transitive.
pub proof fn lemma_key_le_trans(a: Seq<FieldValueV>, b: Seq<FieldValueV>, c: Seq<FieldValueV>)
    requires
        key_le(a, b),
        key_le(b, c),
    ensures
        key_le(a, c),
{
    if key_lt(c, a) {
        lemma_key_lt_trichotomy(a, b);
        lemma_key_lt_trichotomy(b, c);
        lemma_key_lt_trichotomy(c, a);
        if key_lt(a, b) && key_lt(b, c) {
            lemma_key_lt_trans(a, b, c);
        }
    }
}

/// The outcome of a three-way key comparison.
#[derive(Clone, Copy, PartialEq, Eq, Structural, Debug)]
pub enum KeyOrdering {
    Less,
    Equal,
    Greater,
}

proof fn lemma_bytes_lt_common_prefix(a: Seq<u8>, b: Seq<u8>, i: int)
    requires
        0 <= i <= a.len(),
        i <= b.len(),
        forall|j: int| 0 <= j < i ==> a[j] == b[j],
    ensures
        bytes_lt(a, b) == bytes_lt(a.skip(i), b.skip(i)),
    decreases i,
{
    if i > 0 {
        lemma_bytes_lt_common_prefix(a.drop_first(), b.drop_first(), i - 1);
        assert(a.drop_first().skip(i - 1) =~= a.skip(i));
        assert(b.drop_first().skip(i - 1) =~= b.skip(i));
    } else {
        assert(a.skip(0) =~= a);
        assert(b.skip(0) =~= b);
    }
}

/// Three-way comparison of two byte strings under [`bytes_lt`].
pub fn bytes_cmp(a: &Vec<u8>, b: &Vec<u8>) -> (r: KeyOrdering)
    ensures
        r == KeyOrdering::Less <==> bytes_lt(a@, b@),
        r == KeyOrdering::Greater <==> bytes_lt(b@, a@),
        r == KeyOrdering::Equal <==> a@ == b@,
{
    proof {
        lemma_bytes_lt_trichotomy(a@, b@);
    }
    let n = if a.len() < b.len() { a.len() } else { b.len() };
    let mut i: usize = 0;
    while i < n
        invariant
            n <= a@.len(),
            n <= b@.len(),
            n == if a@.len() < b@.len() { a@.len() } else { b@.len() },
            i <= n,
            forall|j: int| 0 <= j < i ==> a@[j] == b@[j],
        decreases n - i,
    {
        if a[i] < b[i] {
            proof {
                lemma_bytes_lt_common_prefix(a@, b@, i as int);
                lemma_bytes_lt_trichotomy(a@, b@);
            }
            return KeyOrdering::Less;
        }
        if b[i] < a[i] {
            proof {
                lemma_bytes_lt_common_prefix(b@, a@, i as int);
                lemma_bytes_lt_trichotomy(a@, b@);
            }
            return KeyOrdering::Greater;
        }
        i = i + 1;
    }
    if a.len() < b.len() {
        proof {
            lemma_bytes_lt_common_prefix(a@, b@, i as int);
            lemma_bytes_lt_trichotomy(a@, b@);
        }
        KeyOrdering::Less
    } else if b.len() < a.len() {
        proof {
            lemma_bytes_lt_common_prefix(b@, a@, i as int);
            lemma_bytes_lt_trichotomy(a@, b@);
        }
        KeyOrdering::Greater
    } else {
        proof {
            assert(a@ =~= b@);
            lemma_bytes_lt_trichotomy(a@, b@);
        }
        KeyOrdering::Equal
    }
}

/// Three-way comparison of two field values under [`field_lt`].
pub fn field_cmp(a: &FieldValue, b: &FieldValue) -> (r: KeyOrdering)
    ensures
        r == KeyOrdering::Less <==> field_lt(a@, b@),
        r == KeyOrdering::Greater <==> field_lt(b@, a@),
        r == KeyOrdering::Equal <==> a@ == b@,
{
    match (a, b) {
        (FieldValue::Int(x), FieldValue::Int(y)) => {
            if *x < *y {
                KeyOrdering::Less
            } else if *y < *x {
                KeyOrdering::Greater
            } else {
                KeyOrdering::Equal
            }
        },
        (FieldValue::Int(_), FieldValue::Text(_)) => KeyOrdering::Less,
        (FieldValue::Text(_), FieldValue::Int(_)) => KeyOrdering::Greater,
        (FieldValue::Text(x), FieldValue::Text(y)) => bytes_cmp(x, y),
    }
}

/// The model of a composite key held as a list of field values.
pub open spec fn key_view(k: Seq<FieldValue>) -> Seq<FieldValueV> {
    k.map_values(|v: FieldValue| v@)
}

proof fn lemma_key_lt_common_prefix(a: Seq<FieldValueV>, b: Seq<FieldValueV>, i: int)
    requires
        0 <= i <= a.len(),
        i <= b.len(),
        forall|j: int| 0 <= j < i ==> a[j] == b[j],
    ensures
        key_lt(a, b) == key_lt(a.skip(i), b.skip(i)),
    decreases i,
{
    if i > 0 {
        lemma_field_lt_trichotomy(a[0], b[0]);
        lemma_key_lt_common_prefix(a.drop_first(), b.drop_first(), i - 1);
        assert(a.drop_first().skip(i - 1) =~= a.skip(i));
        assert(b.drop_first().skip(i - 1) =~= b.skip(i));
    } else {
        assert(a.skip(0) =~= a);
        assert(b.skip(0) =~= b);
    }
}

/// Three-way comparison of two composite keys: the custom ordering function
/// for `SortedInverted` sub-stores.  Iteration in this order matches
/// multi-field ascending comparison of the field values.
pub fn key_cmp(a: &Vec<FieldValue>, b: &Vec<FieldValue>) -> (r: KeyOrdering)
    ensures
        r == KeyOrdering::Less <==> key_lt(key_view(a@), key_view(b@)),
        r == KeyOrdering::Greater <==> key_lt(key_view(b@), key_view(a@)),
        r == KeyOrdering::Equal <==> key_view(a@) == key_view(b@),
{
    let ghost av = key_view(a@);
    let ghost bv = key_view(b@);
    proof {
        lemma_key_lt_trichotomy(av, bv);
    }
    let n = if a.len() < b.len() { a.len() } else { b.len() };
    let mut i: usize = 0;
    while i < n
        invariant
            av == key_view(a@),
            bv == key_view(b@),
            av.len() == a@.len(),
            bv.len() == b@.len(),
            n <= a@.len(),
            n <= b@.len(),
            n == if a@.len() < b@.len() { a@.len() } else { b@.len() },
            i <= n,
            forall|j: int| 0 <= j < i ==> av[j] == bv[j],
        decreases n - i,
    {
        let c = field_cmp(&a[i], &b[i]);
        if c == KeyOrdering::Less {
            proof {
                lemma_key_lt_common_prefix(av, bv, i as int);
                lemma_key_lt_trichotomy(av, bv);
            }
            return KeyOrdering::Less;
        }
        if c == KeyOrdering::Greater {
            proof {
                lemma_key_lt_common_prefix(bv, av, i as int);
                lemma_key_lt_trichotomy(av, bv);
            }
            return KeyOrdering::Greater;
        }
        i = i + 1;
    }
    if a.len() < b.len() {
        proof {
            lemma_key_lt_common_prefix(av, bv, i as int);
            lemma_key_lt_trichotomy(av, bv);
        }
        KeyOrdering::Less
    } else if b.len() < a.len() {
        proof {
            lemma_key_lt_common_prefix(bv, av, i as int);
            lemma_key_lt_trichotomy(av, bv);
        }
        KeyOrdering::Greater
    } else {
        proof {
            assert(av =~= bv);
            lemma_key_lt_trichotomy(av, bv);
        }
        KeyOrdering::Equal
    }
}

} // verus!
