//! Properties that relate the codec's operations to one another.
use vstd::prelude::*;
use crate::codec::{EncodeError, LINE_FEED, decode_result, decode_spec, encode_spec, lookup};
use crate::project::{select, some_missing};
use crate::record::{
    BuildError, MappingModel, RecordModel, build_error, built, entry_names_unique,
};
use crate::schema::{SchemaError, SchemaModel, field_pos, names_unique, read_schema_spec};
use crate::value::{ValueModel, kind_of, lemma_value_read, value_bytes, writable};
use crate::wire::DecodeError;

verus! {

/// A record holds, in declaration order, a value of the declared type for
/// every field of the schema, each of them writable.
pub open spec fn populated(s: SchemaModel, r: RecordModel) -> bool {
    &&& r.len() == s.len()
    &&& forall|k: int|
        0 <= k < s.len() ==> #[trigger] r[k].0 == s[k].0 && kind_of(r[k].1) == s[k].1 && writable(
            r[k].1,
        )
}

/// The bytes of a record's values, one after another.
pub open spec fn values_bytes(r: RecordModel) -> Seq<u8>
    decreases r.len(),
{
    if r.len() == 0 {
        seq![]
    } else {
        values_bytes(r.drop_last()) + value_bytes(r.last().1)
    }
}

proof fn lemma_lookup_at(r: RecordModel, k: int)
    requires
        0 <= k < r.len(),
        forall|j: int| 0 <= j < k ==> r[j].0 != r[k].0,
    ensures
        lookup(r, r[k].0) == Some(r[k].1),
    decreases k,
{
    if k > 0 {
        assert(r[0].0 != r[k].0);
        let t = r.drop_first();
        assert forall|j: int| 0 <= j < k - 1 implies #[trigger] t[j].0 != t[k - 1].0 by {
            assert(t[j] == r[j + 1]);
        }
        lemma_lookup_at(t, k - 1);
    }
}

proof fn lemma_encode_populated(s: SchemaModel, r: RecordModel, k: int)
    requires
        names_unique(s),
        populated(s, r),
        0 <= k <= s.len(),
    ensures
        encode_spec(s.take(k), r) == Ok::<Seq<u8>, EncodeError>(values_bytes(r.take(k))),
    decreases k,
{
    if k > 0 {
        assert(s.take(k).drop_last() =~= s.take(k - 1));
        assert(r.take(k).drop_last() =~= r.take(k - 1));
        lemma_encode_populated(s, r, k - 1);
        assert forall|j: int| 0 <= j < k - 1 implies #[trigger] r[j].0 != r[k - 1].0 by {
            assert(r[j].0 == s[j].0);
            assert(r[k - 1].0 == s[k - 1].0);
        }
        lemma_lookup_at(r, k - 1);
        assert(r[k - 1].0 == s[k - 1].0);
    }
}

proof fn lemma_decode_populated(s: SchemaModel, r: RecordModel, b: Seq<u8>)
    requires
        populated(s, r),
        values_bytes(r).len() <= b.len(),
        b.subrange(0, values_bytes(r).len() as int) == values_bytes(r),
    ensures
        decode_spec(s, b, 0) == Ok::<(RecordModel, int), DecodeError>(
            (r, values_bytes(r).len() as int),
        ),
    decreases s.len(),
{
    if s.len() > 0 {
        let s1 = s.drop_last();
        let r1 = r.drop_last();
        let n = s.len() - 1;
        assert(populated(s1, r1)) by {
            assert forall|k: int| 0 <= k < s1.len() implies #[trigger] r1[k].0 == s1[k].0 && kind_of(
                r1[k].1,
            ) == s1[k].1 && writable(r1[k].1) by {
                assert(r[k].0 == s[k].0);
            }
        }
        let p = values_bytes(r1);
        let w = value_bytes(r.last().1);
        assert(values_bytes(r) == p + w);
        assert(b.subrange(0, p.len() as int) =~= values_bytes(r).subrange(0, p.len() as int));
        assert(values_bytes(r).subrange(0, p.len() as int) =~= p);
        lemma_decode_populated(s1, r1, b);
        assert(r[n].0 == s[n].0);
        assert(b.subrange(p.len() as int, (p.len() + w.len()) as int) =~= values_bytes(r).subrange(
            p.len() as int,
            (p.len() + w.len()) as int,
        ));
        assert(values_bytes(r).subrange(p.len() as int, (p.len() + w.len()) as int) =~= w);
        lemma_value_read(r.last().1, b, p.len() as int);
        assert(r1.push((s.last().0, r.last().1)) =~= r);
    } else {
        assert(r =~= Seq::<(Seq<char>, ValueModel)>::empty());
    }
}

/// Round trip: a record that holds every declared field, with a value of its
/// declared type, encodes, and its bytes decode back to that same record
/// with nothing left over.
pub proof fn law_round_trip(s: SchemaModel, r: RecordModel, allow_padding: bool)
    requires
        names_unique(s),
        populated(s, r),
    ensures
        encode_spec(s, r) == Ok::<Seq<u8>, EncodeError>(values_bytes(r)),
        decode_spec(s, values_bytes(r), 0) == Ok::<(RecordModel, int), DecodeError>(
            (r, values_bytes(r).len() as int),
        ),
        decode_result(s, values_bytes(r), allow_padding) == Ok::<RecordModel, DecodeError>(r),
{
    lemma_encode_populated(s, r, s.len() as int);
    assert(s.take(s.len() as int) =~= s);
    assert(r.take(s.len() as int) =~= r);
    let b = values_bytes(r);
    assert(b.subrange(0, b.len() as int) =~= b);
    lemma_decode_populated(s, r, b);
    assert(b.subrange(b.len() as int, b.len() as int) =~= Seq::<u8>::empty());
}

/// Trailing bytes: an encoded record followed by one line feed decodes where
/// padding is tolerated; followed by any other single byte, or by two bytes,
/// it is refused with `TrailingData`.
pub proof fn law_trailing_bytes(s: SchemaModel, r: RecordModel, x: u8, y: u8)
    requires
        names_unique(s),
        populated(s, r),
    ensures
        encode_spec(s, r) == Ok::<Seq<u8>, EncodeError>(values_bytes(r)),
        decode_result(s, values_bytes(r).push(LINE_FEED), true) == Ok::<RecordModel, DecodeError>(
            r,
        ),
        x != LINE_FEED ==> decode_result(s, values_bytes(r).push(x), true) == Err::<
            RecordModel,
            DecodeError,
        >(DecodeError::TrailingData),
        decode_result(s, values_bytes(r) + seq![x, y], true) == Err::<RecordModel, DecodeError>(
            DecodeError::TrailingData,
        ),
{
    law_round_trip(s, r, true);
    let b = values_bytes(r);
    let n = b.len() as int;
    let b1 = b.push(LINE_FEED);
    assert(b1.subrange(0, n) =~= b);
    lemma_decode_populated(s, r, b1);
    assert(b1.subrange(n, b1.len() as int) =~= seq![LINE_FEED]);
    let b2 = b.push(x);
    assert(b2.subrange(0, n) =~= b);
    lemma_decode_populated(s, r, b2);
    assert(b2.subrange(n, b2.len() as int) =~= seq![x]);
    if x != LINE_FEED {
        assert(seq![x][0] != seq![LINE_FEED][0]);
    }
    let b3 = b + seq![x, y];
    assert(b3.subrange(0, n) =~= b);
    lemma_decode_populated(s, r, b3);
    assert(b3.subrange(n, b3.len() as int).len() == 2);
}

/// Schema reuse: two schemas parsed from the same text are the same schema,
/// and so build, encode and decode alike on the same inputs.
pub proof fn law_schema_reuse(
    text: Seq<char>,
    a: SchemaModel,
    b: SchemaModel,
    m: MappingModel,
    r: RecordModel,
    bytes: Seq<u8>,
    allow_padding: bool,
)
    requires
        read_schema_spec(text) == Ok::<SchemaModel, SchemaError>(a),
        read_schema_spec(text) == Ok::<SchemaModel, SchemaError>(b),
    ensures
        a == b,
        build_error(a, m) == build_error(b, m),
        built(a, m) == built(b, m),
        encode_spec(a, r) == encode_spec(b, r),
        decode_result(a, bytes, allow_padding) == decode_result(b, bytes, allow_padding),
{
}

/// Rejection: pairs with a name that the schema does not declare are refused
/// with `FieldNotFound`, whatever the other pairs hold.
pub proof fn law_unknown_name_rejected(s: SchemaModel, m: MappingModel, k: int)
    requires
        0 <= k < m.len(),
        field_pos(s, m[k].0) is None,
    ensures
        build_error(s, m) == Some(BuildError::FieldNotFound),
{
}

/// Projection of one name: for a name the record holds, exactly that entry;
/// for a name it does not hold, a refusal.
pub proof fn law_project_single(r: RecordModel, f: Seq<char>)
    requires
        entry_names_unique(r),
    ensures
        lookup(r, f) matches Some(v) ==> select(r, seq![f]) == seq![(f, v)],
        lookup(r, f) is None ==> some_missing(r, seq![f]),
{
    assert(seq![f][0] == f);
    if lookup(r, f) is Some {
        lemma_select_single(r, f);
    }
}

proof fn lemma_select_single(r: RecordModel, f: Seq<char>)
    requires
        entry_names_unique(r),
    ensures
        match lookup(r, f) {
            Some(v) => select(r, seq![f]) == seq![(f, v)],
            None => select(r, seq![f]) == Seq::<(Seq<char>, ValueModel)>::empty(),
        },
    decreases r.len(),
{
    if r.len() > 0 {
        let r1 = r.drop_last();
        let n = r.len() - 1;
        let q = seq![f];
        assert(q[0] == f);
        assert(entry_names_unique(r1));
        lemma_select_single(r1, f);
        lemma_lookup_last(r, f);
        if r.last().0 == f {
            assert(q.contains(r.last().0));
            assert forall|i: int| 0 <= i < r1.len() implies #[trigger] r1[i].0 != f by {
                assert(r[i].0 != r[n].0);
            }
            lemma_lookup_none(r1, f);
            assert(select(r, q) =~= seq![(f, r.last().1)]);
        } else {
            assert(!q.contains(r.last().0));
        }
    }
}

proof fn lemma_lookup_none(r: RecordModel, f: Seq<char>)
    requires
        forall|i: int| 0 <= i < r.len() ==> r[i].0 != f,
    ensures
        lookup(r, f) is None,
    decreases r.len(),
{
    if r.len() > 0 {
        assert(r[0].0 != f);
        assert forall|i: int| 0 <= i < r.drop_first().len() implies #[trigger] r.drop_first()[i].0 != f by {
            assert(r.drop_first()[i] == r[i + 1]);
        }
        lemma_lookup_none(r.drop_first(), f);
    }
}

proof fn lemma_lookup_last(r: RecordModel, f: Seq<char>)
    requires
        r.len() > 0,
    ensures
        lookup(r, f) == match lookup(r.drop_last(), f) {
            Some(v) => Some(v),
            None => if r.last().0 == f {
                Some(r.last().1)
            } else {
                None
            },
        },
    decreases r.len(),
{
    if r.len() > 1 && r[0].0 != f {
        let t = r.drop_first();
        lemma_lookup_last(t, f);
        assert(t.drop_last() =~= r.drop_last().drop_first());
        assert(r.drop_last()[0] == r[0]);
        assert(t.last() == r.last());
    } else if r.len() > 1 {
        assert(r.drop_last()[0] == r[0]);
        assert(lookup(r.drop_last(), f) == Some(r[0].1));
    } else {
        assert(r.drop_last().len() == 0);
        assert(r.drop_first().len() == 0);
        assert(lookup(r.drop_first(), f) is None);
        assert(lookup(r.drop_last(), f) is None);
        assert(r.last() == r[0]);
    }
}

} // verus!
