//! Reading only some fields of a record.
use vstd::prelude::*;
use crate::codec::lookup;
use crate::record::{RecordModel, TypedRecord};
use crate::schema::text_eq;
use crate::value::TypedValue;

verus! {

/// Why a projection was refused.
#[derive(PartialEq, Eq, Structural, Clone, Copy, Debug)]
pub enum ProjectionError {
    /// A requested name is not a field of the record.
    FieldNotFound,
}

pub open spec fn names_model(v: Seq<String>) -> Seq<Seq<char>> {
    v.map_values(|s: String| s@)
}

/// The entries of `r` whose names are among `q`, in record order.
pub open spec fn select(r: RecordModel, q: Seq<Seq<char>>) -> RecordModel
    decreases r.len(),
{
    if r.len() == 0 {
        seq![]
    } else if q.contains(r.last().0) {
        select(r.drop_last(), q).push(r.last())
    } else {
        select(r.drop_last(), q)
    }
}

/// Some requested name is not a field of the record.
pub open spec fn some_missing(r: RecordModel, q: Seq<Seq<char>>) -> bool {
    exists|k: int| 0 <= k < q.len() && lookup(r, #[trigger] q[k]) is None
}

fn contains_name(names: &Vec<String>, name: &str) -> (r: bool)
    ensures
        r == names_model(names@).contains(name@),
{
    let mut i: usize = 0;
    while i < names.len()
        invariant
            i <= names@.len(),
            forall|k: int| 0 <= k < i ==> names@[k]@ != name@,
        decreases names@.len() - i,
    {
        if text_eq(names[i].as_str(), name) {
            assert(names_model(names@)[i as int] == name@);
            return true;
        }
        i = i + 1;
    }
    proof {
        if names_model(names@).contains(name@) {
            let k = choose|k: int| 0 <= k < names@.len() && names_model(names@)[k] == name@;
            assert(names@[k]@ == name@);
        }
    }
    false
}

/// The record's entries whose names are requested, in record order.
/// Refused when some requested name is not a field of the record.
pub fn project(record: &TypedRecord, requested: &Vec<String>) -> (r: Result<TypedRecord, ProjectionError>)
    ensures
        some_missing(record@, names_model(requested@)) ==> r == Err::<TypedRecord, ProjectionError>(
            ProjectionError::FieldNotFound,
        ),
        !some_missing(record@, names_model(requested@)) ==> (r matches Ok(out) && out@ == select(
            record@,
            names_model(requested@),
        )),
{
    let ghost q = names_model(requested@);
    let mut k: usize = 0;
    while k < requested.len()
        invariant
            k <= requested@.len(),
            q == names_model(requested@),
            forall|j: int| 0 <= j < k ==> lookup(record@, #[trigger] q[j]) is Some,
        decreases requested@.len() - k,
    {
        if project_one(record, requested[k].as_str()).is_err() {
            assert(lookup(record@, q[k as int]) is None);
            return Err(ProjectionError::FieldNotFound);
        }
        k = k + 1;
    }
    let mut out = TypedRecord::empty();
    let mut i: usize = 0;
    while i < record.len()
        invariant
            i <= record@.len(),
            q == names_model(requested@),
            out@ == select(record@.take(i as int), q),
        decreases record@.len() - i,
    {
        proof {
            assert(record@.take(i + 1).drop_last() =~= record@.take(i as int));
            assert(record@.take(i + 1).last() == record@[i as int]);
        }
        let e = record.entry(i);
        if contains_name(requested, e.0.as_str()) {
            out.push_entry(e.0.clone(), e.1.duplicate());
        }
        i = i + 1;
    }
    proof {
        assert(record@.take(i as int) =~= record@);
    }
    Ok(out)
}

/// The value of the field named `name`. Refused when the record has no such
/// field.
pub fn project_one(record: &TypedRecord, name: &str) -> (r: Result<TypedValue, ProjectionError>)
    ensures
        match lookup(record@, name@) {
            Some(v) => r matches Ok(t) && t@ == v,
            None => r == Err::<TypedValue, ProjectionError>(ProjectionError::FieldNotFound),
        },
{
    let mut i: usize = 0;
    assert(record@.subrange(0, record@.len() as int) =~= record@);
    while i < record.len()
        invariant
            i <= record@.len(),
            lookup(record@, name@) == lookup(record@.subrange(i as int, record@.len() as int), name@),
        decreases record@.len() - i,
    {
        let ghost rest = record@.subrange(i as int, record@.len() as int);
        proof {
            assert(rest.drop_first() =~= record@.subrange(i + 1, record@.len() as int));
        }
        let e = record.entry(i);
        if text_eq(e.0.as_str(), name) {
            return Ok(e.1.duplicate());
        }
        i = i + 1;
    }
    Err(ProjectionError::FieldNotFound)
}

} // verus!
