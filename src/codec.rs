//! Encoding a record to the single-datum format and reading it back.
use vstd::prelude::*;
use crate::record::{RecordModel, TypedRecord};
use crate::schema::{Schema, SchemaModel, text_eq};
use crate::value::{
    FieldKind, TypedValue, ValueModel, kind_of, lemma_value_at_end, read_value, value_at, value_bytes, writable, write_value,
};
use crate::wire::DecodeError;

verus! {

/// Why a record could not be encoded.
#[derive(PartialEq, Eq, Structural, Clone, Copy, Debug)]
pub enum EncodeError {
    /// A declared field has no value in the record.
    MissingField,
    /// A field's value is not of its declared type.
    WrongType,
}

/// The value of the first entry named `name`.
pub open spec fn lookup(r: RecordModel, name: Seq<char>) -> Option<ValueModel>
    decreases r.len(),
{
    if r.len() == 0 {
        None
    } else if r[0].0 == name {
        Some(r[0].1)
    } else {
        lookup(r.drop_first(), name)
    }
}

/// The encoding of a record: each declared field's value, in declaration
/// order, with nothing between them.
pub open spec fn encode_spec(s: SchemaModel, r: RecordModel) -> Result<Seq<u8>, EncodeError>
    decreases s.len(),
{
    if s.len() == 0 {
        Ok(seq![])
    } else {
        match encode_spec(s.drop_last(), r) {
            Err(e) => Err(e),
            Ok(pre) => match lookup(r, s.last().0) {
                None => Err(EncodeError::MissingField),
                Some(v) => if kind_of(v) != s.last().1 {
                    Err(EncodeError::WrongType)
                } else {
                    Ok(pre + value_bytes(v))
                },
            },
        }
    }
}

/// Reads each declared field in order from `p`: the record and the position
/// just past it.
pub open spec fn decode_spec(s: SchemaModel, b: Seq<u8>, p: int) -> Result<(RecordModel, int), DecodeError>
    decreases s.len(),
{
    if s.len() == 0 {
        Ok((seq![], p))
    } else {
        match decode_spec(s.drop_last(), b, p) {
            Err(e) => Err(e),
            Ok((r, q)) => match value_at(s.last().1, b, q) {
                Err(e) => Err(e),
                Ok((v, e)) => Ok((r.push((s.last().0, v)), e)),
            },
        }
    }
}

/// The byte of line feed, the one padding byte a caller may tolerate.
pub const LINE_FEED: u8 = 10;

/// Whether bytes left after a datum are acceptable: none, or a single line
/// feed where padding is tolerated.
pub open spec fn trailing_ok(t: Seq<u8>, allow_padding: bool) -> bool {
    t.len() == 0 || (allow_padding && t == seq![LINE_FEED])
}

/// The outcome of reading a whole buffer as one record.
pub open spec fn decode_result(s: SchemaModel, b: Seq<u8>, allow_padding: bool) -> Result<RecordModel, DecodeError> {
    match decode_spec(s, b, 0) {
        Err(e) => Err(e),
        Ok((r, e)) => if trailing_ok(b.subrange(e, b.len() as int), allow_padding) {
            Ok(r)
        } else {
            Err(DecodeError::TrailingData)
        },
    }
}

/// Every text in the record can be written.
pub open spec fn record_writable(r: RecordModel) -> bool {
    forall|i: int| 0 <= i < r.len() ==> writable(#[trigger] r[i].1)
}

proof fn lemma_encode_prefix(s: SchemaModel, r: RecordModel, k: int)
    requires
        0 <= k <= s.len(),
        encode_spec(s.take(k), r) is Err,
    ensures
        encode_spec(s, r) == encode_spec(s.take(k), r),
    decreases s.len() - k,
{
    if k < s.len() {
        assert(s.take(k + 1).drop_last() =~= s.take(k));
        lemma_encode_prefix(s, r, k + 1);
    } else {
        assert(s.take(k) =~= s);
    }
}

proof fn lemma_decode_prefix(s: SchemaModel, b: Seq<u8>, k: int)
    requires
        0 <= k <= s.len(),
        decode_spec(s.take(k), b, 0) is Err,
    ensures
        decode_spec(s, b, 0) == decode_spec(s.take(k), b, 0),
    decreases s.len() - k,
{
    if k < s.len() {
        assert(s.take(k + 1).drop_last() =~= s.take(k));
        lemma_decode_prefix(s, b, k + 1);
    } else {
        assert(s.take(k) =~= s);
    }
}

/// Index of the first entry named `name`, with its value.
fn find_entry(record: &TypedRecord, name: &str) -> (r: Option<usize>)
    ensures
        match lookup(record@, name@) {
            None => r is None,
            Some(v) => r matches Some(i) && i < record@.len() && record@[i as int].1 == v,
        },
{
    let mut i: usize = 0;
    assert(record@.subrange(0, record@.len() as int) =~= record@);
    while i < record.len()
        invariant
            i <= record@.len(),
            lookup(record@, name@) == lookup(record@.subrange(i as int, record@.len() as int), name@),
        decreases record@.len() - i,
    {
        let ghost rest = record@.subrange(i as int, record@.len() as int);
        proof {
            assert(rest.drop_first() =~= record@.subrange(i + 1, record@.len() as int));
        }
        let e = record.entry(i);
        if text_eq(e.0.as_str(), name) {
            return Some(i);
        }
        i = i + 1;
    }
    None
}

/// Encodes `record` against `schema`: every declared field's value, in
/// declaration order. Refused when a declared field is absent, or holds a
/// value of another type.
pub fn encode(schema: &Schema, record: &TypedRecord) -> (r: Result<Vec<u8>, EncodeError>)
    requires
        record_writable(record@),
    ensures
        match encode_spec(schema@, record@) {
            Ok(b) => r matches Ok(v) && v@ == b,
            Err(e) => r == Err::<Vec<u8>, EncodeError>(e),
        },
{
    let ghost s = schema@;
    let mut out: Vec<u8> = Vec::new();
    let mut i: usize = 0;
    while i < schema.len()
        invariant
            i <= s.len(),
            s == schema@,
            record_writable(record@),
            encode_spec(s.take(i as int), record@) == Ok::<Seq<u8>, EncodeError>(out@),
        decreases s.len() - i,
    {
        proof {
            assert(s.take(i + 1).drop_last() =~= s.take(i as int));
            assert(s.take(i + 1).last() == s[i as int]);
        }
        let d = schema.decl(i);
        match find_entry(record, d.name.as_str()) {
            None => {
                proof {
                    lemma_encode_prefix(s, record@, i + 1);
                }
                return Err(EncodeError::MissingField);
            },
            Some(j) => {
                let v = &record.entry(j).1;
                if !kind_matches(v, d.kind) {
                    proof {
                        lemma_encode_prefix(s, record@, i + 1);
                    }
                    return Err(EncodeError::WrongType);
                }
                write_value(&mut out, v);
            },
        }
        i = i + 1;
    }
    proof {
        assert(s.take(i as int) =~= s);
    }
    Ok(out)
}

/// Whether `v` is of the declared kind.
fn kind_matches(v: &TypedValue, kind: FieldKind) -> (r: bool)
    ensures
        r == (kind_of(v@) == kind),
{
    match (v, kind) {
        (TypedValue::Int32(_), FieldKind::Int32) => true,
        (TypedValue::Int64(_), FieldKind::Int64) => true,
        (TypedValue::Double(_), FieldKind::Double) => true,
        (TypedValue::Utf8String(_), FieldKind::Utf8String) => true,
        _ => false,
    }
}

/// Reads one record of `schema` from the start of `bytes`: the record, with
/// every declared field, and the bytes left after it.
pub fn decode_datum(schema: &Schema, bytes: &[u8]) -> (r: Result<(TypedRecord, Vec<u8>), DecodeError>)
    ensures
        match decode_spec(schema@, bytes@, 0) {
            Ok((m, e)) => r matches Ok((rec, rest)) && rec@ == m && rest@ == bytes@.subrange(
                e,
                bytes@.len() as int,
            ),
            Err(x) => r == Err::<(TypedRecord, Vec<u8>), DecodeError>(x),
        },
{
    let ghost s = schema@;
    let mut rec = TypedRecord::empty();
    let mut p: usize = 0;
    let mut i: usize = 0;
    while i < schema.len()
        invariant
            i <= s.len(),
            s == schema@,
            p <= bytes@.len(),
            decode_spec(s.take(i as int), bytes@, 0) == Ok::<(RecordModel, int), DecodeError>(
                (rec@, p as int),
            ),
        decreases s.len() - i,
    {
        proof {
            assert(s.take(i + 1).drop_last() =~= s.take(i as int));
            assert(s.take(i + 1).last() == s[i as int]);
        }
        let d = schema.decl(i);
        match read_value(d.kind, bytes, p) {
            Err(x) => {
                proof {
                    lemma_decode_prefix(s, bytes@, i + 1);
                }
                return Err(x);
            },
            Ok((v, e)) => {
                proof {
                    lemma_value_at_end(d.kind, bytes@, p as int);
                }
                rec.push_entry(d.name.clone(), v);
                p = e;
            },
        }
        i = i + 1;
    }
    proof {
        assert(s.take(i as int) =~= s);
    }
    let rest = vstd::slice::slice_to_vec(vstd::slice::slice_subrange(bytes, p, bytes.len()));
    Ok((rec, rest))
}

/// Reads `bytes` as exactly one record of `schema`. Bytes left after the
/// record are refused, but for a single line feed where `allow_padding`.
pub fn decode(schema: &Schema, bytes: &[u8], allow_padding: bool) -> (r: Result<TypedRecord, DecodeError>)
    ensures
        match decode_result(schema@, bytes@, allow_padding) {
            Ok(m) => r matches Ok(rec) && rec@ == m,
            Err(x) => r == Err::<TypedRecord, DecodeError>(x),
        },
{
    match decode_datum(schema, bytes) {
        Err(x) => Err(x),
        Ok((rec, rest)) => {
            if rest.len() == 0 || (allow_padding && rest.len() == 1 && rest[0] == LINE_FEED) {
                proof {
                    if rest@.len() == 1 {
                        assert(rest@ =~= seq![LINE_FEED]);
                    }
                }
                Ok(rec)
            } else {
                Err(DecodeError::TrailingData)
            }
        },
    }
}

} // verus!
