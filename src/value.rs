//! Typed values, host values, and the dispatch between them and the bytes.
use vstd::prelude::*;
use vstd::utf8::{decode_utf8, encode_utf8, valid_utf8};
use crate::wire::{
    DecodeError, le_bytes, le_value, long_at, long_bytes, pow256, read_le, read_long,
    write_le64, write_long, lemma_le_round_trip, lemma_long_read, lemma_long_at_range,
    append_bytes,
};

verus! {

broadcast use vstd::utf8::group_utf8_lib;

/// The declared type of a field.
#[derive(PartialEq, Eq, Structural, Clone, Copy, Debug)]
pub enum FieldKind {
    Int32,
    Int64,
    Double,
    Utf8String,
    /// Any declared type this codec neither writes nor reads.
    Unsupported,
}

/// A value tagged with one of the four supported kinds. A double is held as
/// its IEEE-754 binary64 bit pattern.
#[derive(Clone, Debug, PartialEq)]
pub enum TypedValue {
    Int32(i32),
    Int64(i64),
    Double(u64),
    Utf8String(String),
}

impl TypedValue {
    /// A copy of this value.
    pub fn duplicate(&self) -> (r: TypedValue)
        ensures
            r@ == self@,
    {
        match self {
            TypedValue::Int32(n) => TypedValue::Int32(*n),
            TypedValue::Int64(n) => TypedValue::Int64(*n),
            TypedValue::Double(x) => TypedValue::Double(*x),
            TypedValue::Utf8String(s) => TypedValue::Utf8String(s.clone()),
        }
    }
}

/// The mathematical content of a `TypedValue`.
pub enum ValueModel {
    Int32(i32),
    Int64(i64),
    Double(u64),
    Utf8String(Seq<char>),
}

impl View for TypedValue {
    type V = ValueModel;

    open spec fn view(&self) -> ValueModel {
        match self {
            TypedValue::Int32(n) => ValueModel::Int32(*n),
            TypedValue::Int64(n) => ValueModel::Int64(*n),
            TypedValue::Double(x) => ValueModel::Double(*x),
            TypedValue::Utf8String(s) => ValueModel::Utf8String(s@),
        }
    }
}

/// A loosely typed value as the host hands it over: an integer, a double
/// (as its bit pattern), a text, or anything else.
#[derive(Clone, Debug, PartialEq)]
pub enum HostValue {
    Integer(i64),
    Float(u64),
    Text(String),
    Other,
}

/// The mathematical content of a `HostValue`.
pub enum HostModel {
    Integer(i64),
    Float(u64),
    Text(Seq<char>),
    Other,
}

impl View for HostValue {
    type V = HostModel;

    open spec fn view(&self) -> HostModel {
        match self {
            HostValue::Integer(n) => HostModel::Integer(*n),
            HostValue::Float(x) => HostModel::Float(*x),
            HostValue::Text(s) => HostModel::Text(s@),
            HostValue::Other => HostModel::Other,
        }
    }
}

/// Why a host value was refused for a field.
#[derive(PartialEq, Eq, Structural, Clone, Copy, Debug)]
pub enum FieldError {
    WrongType,
}

pub open spec fn kind_of(v: ValueModel) -> FieldKind {
    match v {
        ValueModel::Int32(_) => FieldKind::Int32,
        ValueModel::Int64(_) => FieldKind::Int64,
        ValueModel::Double(_) => FieldKind::Double,
        ValueModel::Utf8String(_) => FieldKind::Utf8String,
    }
}

/// The typed value a host value converts to under a declared kind, if any:
/// integers go to either integer kind where they fit, doubles to doubles,
/// texts to strings; nothing else converts.
pub open spec fn typed_of(kind: FieldKind, h: HostModel) -> Option<ValueModel> {
    match (kind, h) {
        (FieldKind::Int32, HostModel::Integer(n)) => if i32::MIN <= n <= i32::MAX {
            Some(ValueModel::Int32(n as i32))
        } else {
            None
        },
        (FieldKind::Int64, HostModel::Integer(n)) => Some(ValueModel::Int64(n)),
        (FieldKind::Double, HostModel::Float(x)) => Some(ValueModel::Double(x)),
        (FieldKind::Utf8String, HostModel::Text(s)) => Some(ValueModel::Utf8String(s)),
        _ => None,
    }
}

/// The host value a typed value converts back to.
pub open spec fn host_of(v: ValueModel) -> HostModel {
    match v {
        ValueModel::Int32(n) => HostModel::Integer(n as i64),
        ValueModel::Int64(n) => HostModel::Integer(n),
        ValueModel::Double(x) => HostModel::Float(x),
        ValueModel::Utf8String(s) => HostModel::Text(s),
    }
}

/// Converts a host value into the typed value of the declared kind.
pub fn to_typed(kind: FieldKind, input: &HostValue) -> (r: Result<TypedValue, FieldError>)
    ensures
        match typed_of(kind, input@) {
            Some(v) => r matches Ok(t) && t@ == v,
            None => r == Err::<TypedValue, FieldError>(FieldError::WrongType),
        },
{
    match (kind, input) {
        (FieldKind::Int32, HostValue::Integer(n)) => {
            if i32::MIN as i64 <= *n && *n <= i32::MAX as i64 {
                Ok(TypedValue::Int32(*n as i32))
            } else {
                Err(FieldError::WrongType)
            }
        },
        (FieldKind::Int64, HostValue::Integer(n)) => Ok(TypedValue::Int64(*n)),
        (FieldKind::Double, HostValue::Float(x)) => Ok(TypedValue::Double(*x)),
        (FieldKind::Utf8String, HostValue::Text(s)) => Ok(TypedValue::Utf8String(s.clone())),
        _ => Err(FieldError::WrongType),
    }
}

/// Converts a typed value back into a host value.
pub fn from_typed(value: &TypedValue) -> (r: HostValue)
    ensures
        r@ == host_of(value@),
{
    match value {
        TypedValue::Int32(n) => HostValue::Integer(*n as i64),
        TypedValue::Int64(n) => HostValue::Integer(*n),
        TypedValue::Double(x) => HostValue::Float(*x),
        TypedValue::Utf8String(s) => HostValue::Text(s.clone()),
    }
}

/// Whether a value can be written: a text's UTF-8 length must fit a 64-bit
/// signed integer.
pub open spec fn writable(v: ValueModel) -> bool {
    match v {
        ValueModel::Utf8String(s) => encode_utf8(s).len() <= i64::MAX,
        _ => true,
    }
}

/// The bytes of one value: integers as zig-zag varints, doubles as eight
/// little-endian bytes, texts as their UTF-8 length then their UTF-8 bytes.
pub open spec fn value_bytes(v: ValueModel) -> Seq<u8> {
    match v {
        ValueModel::Int32(n) => long_bytes(n as int),
        ValueModel::Int64(n) => long_bytes(n as int),
        ValueModel::Double(x) => le_bytes(x as nat, 8),
        ValueModel::Utf8String(s) => long_bytes(encode_utf8(s).len() as int) + encode_utf8(s),
    }
}

/// Reads one value of the declared kind at `p`: the value and the position
/// just past it.
pub open spec fn value_at(kind: FieldKind, b: Seq<u8>, p: int) -> Result<(ValueModel, int), DecodeError> {
    match kind {
        FieldKind::Int32 => match long_at(b, p) {
            Ok((n, e)) => if i32::MIN <= n <= i32::MAX {
                Ok((ValueModel::Int32(n as i32), e))
            } else {
                Err(DecodeError::Malformed)
            },
            Err(x) => Err(x),
        },
        FieldKind::Int64 => match long_at(b, p) {
            Ok((n, e)) => Ok((ValueModel::Int64(n as i64), e)),
            Err(x) => Err(x),
        },
        FieldKind::Double => if 0 <= p && p + 8 <= b.len() {
            Ok((ValueModel::Double(le_value(b.subrange(p, p + 8)) as u64), p + 8))
        } else {
            Err(DecodeError::Truncated)
        },
        FieldKind::Utf8String => match long_at(b, p) {
            Ok((n, e)) => if n < 0 {
                Err(DecodeError::Malformed)
            } else if e + n > b.len() {
                Err(DecodeError::Truncated)
            } else if !valid_utf8(b.subrange(e, e + n)) {
                Err(DecodeError::Malformed)
            } else {
                Ok((ValueModel::Utf8String(decode_utf8(b.subrange(e, e + n))), e + n))
            },
            Err(x) => Err(x),
        },
        FieldKind::Unsupported => Err(DecodeError::Malformed),
    }
}

/// Relies on String::from_utf8: it succeeds exactly on well-formed UTF-8,
/// and the string then holds the characters those bytes encode.
#[verifier::external_body]
fn utf8_to_string(bytes: Vec<u8>) -> (r: Option<String>)
    ensures
        r is Some <==> valid_utf8(bytes@),
        r matches Some(s) ==> s@ == decode_utf8(bytes@),
{
    String::from_utf8(bytes).ok()
}

/// Appends the bytes of `v` to `out`.
pub fn write_value(out: &mut Vec<u8>, v: &TypedValue)
    requires
        writable(v@),
    ensures
        final(out)@ == old(out)@ + value_bytes(v@),
{
    match v {
        TypedValue::Int32(n) => write_long(out, *n as i64),
        TypedValue::Int64(n) => write_long(out, *n),
        TypedValue::Double(x) => write_le64(out, *x),
        TypedValue::Utf8String(s) => {
            let bytes = s.as_str().as_bytes();
            write_long(out, bytes.len() as i64);
            append_bytes(out, bytes);
            assert(final(out)@ =~= old(out)@ + value_bytes(v@));
        },
    }
}

/// Reads one value of the declared kind from `b` at `p`.
pub fn read_value(kind: FieldKind, b: &[u8], p: usize) -> (r: Result<(TypedValue, usize), DecodeError>)
    ensures
        match value_at(kind, b@, p as int) {
            Ok((v, e)) => r matches Ok((t, f)) && t@ == v && f == e,
            Err(x) => r == Err::<(TypedValue, usize), DecodeError>(x),
        },
{
    // Positions below stay within the slice, whose length fits a usize.
    let _len = b.len();
    proof {
        lemma_long_at_range(b@, p as int);
    }
    match kind {
        FieldKind::Int32 => match read_long(b, p) {
            Ok((n, e)) => if i32::MIN as i64 <= n && n <= i32::MAX as i64 {
                Ok((TypedValue::Int32(n as i32), e))
            } else {
                Err(DecodeError::Malformed)
            },
            Err(x) => Err(x),
        },
        FieldKind::Int64 => match read_long(b, p) {
            Ok((n, e)) => Ok((TypedValue::Int64(n), e)),
            Err(x) => Err(x),
        },
        FieldKind::Double => if p <= b.len() && 8 <= b.len() - p {
            Ok((TypedValue::Double(read_le(b, p, 8)), p + 8))
        } else {
            Err(DecodeError::Truncated)
        },
        FieldKind::Utf8String => match read_long(b, p) {
            Ok((n, e)) => if n < 0 {
                Err(DecodeError::Malformed)
            } else if n as u64 > (b.len() - e) as u64 {
                Err(DecodeError::Truncated)
            } else {
                let end = e + n as usize;
                let bytes = vstd::slice::slice_to_vec(vstd::slice::slice_subrange(b, e, end));
                match utf8_to_string(bytes) {
                    Some(s) => Ok((TypedValue::Utf8String(s), end)),
                    None => Err(DecodeError::Malformed),
                }
            },
            Err(x) => Err(x),
        },
        FieldKind::Unsupported => Err(DecodeError::Malformed),
    }
}

/// A value that reads ends past its start and within the buffer.
pub proof fn lemma_value_at_end(kind: FieldKind, b: Seq<u8>, p: int)
    ensures
        value_at(kind, b, p) matches Ok((v, e)) ==> p < e <= b.len(),
{
    lemma_long_at_range(b, p);
}

/// Reading back a value written at `p` gives the value and its end.
pub proof fn lemma_value_read(v: ValueModel, b: Seq<u8>, p: int)
    requires
        writable(v),
        0 <= p,
        p + value_bytes(v).len() <= b.len(),
        b.subrange(p, p + value_bytes(v).len()) == value_bytes(v),
    ensures
        value_at(kind_of(v), b, p) == Ok::<(ValueModel, int), DecodeError>((v, p + value_bytes(v).len())),
{
    match v {
        ValueModel::Int32(n) => {
            lemma_long_read(n as int, b, p);
        },
        ValueModel::Int64(n) => {
            lemma_long_read(n as int, b, p);
        },
        ValueModel::Double(x) => {
            reveal_with_fuel(pow256, 9);
            lemma_le_round_trip(x as nat, 8);
        },
        ValueModel::Utf8String(s) => {
            let u = encode_utf8(s);
            let l = long_bytes(u.len() as int);
            let w = value_bytes(v);
            assert(b.subrange(p, p + l.len()) =~= w.subrange(0, l.len() as int));
            assert(w.subrange(0, l.len() as int) =~= l);
            lemma_long_read(u.len() as int, b, p);
            let e = p + l.len();
            assert(b.subrange(e, e + u.len()) =~= w.subrange(l.len() as int, w.len() as int));
            assert(w.subrange(l.len() as int, w.len() as int) =~= u);
        },
    }
}

} // verus!
