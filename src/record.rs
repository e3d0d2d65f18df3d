//! Typed records and the builder that fills one from host values.
use vstd::prelude::*;
use crate::schema::{Schema, SchemaModel, field_pos, names_unique};
use crate::value::{
    FieldError, HostModel, HostValue, TypedValue, ValueModel, from_typed, host_of, to_typed,
    typed_of,
};

verus! {

/// The content of a record: names with values, in schema order.
pub type RecordModel = Seq<(Seq<char>, ValueModel)>;

/// No two entries of a record share a name.
pub open spec fn entry_names_unique(r: RecordModel) -> bool {
    forall|i: int, j: int| 0 <= i < j < r.len() ==> r[i].0 != r[j].0
}

/// A record of typed values, each under its field's name, in schema order.
#[derive(Clone, Debug, PartialEq)]
pub struct TypedRecord {
    entries: Vec<(String, TypedValue)>,
}

pub open spec fn entries_model(e: Seq<(String, TypedValue)>) -> RecordModel {
    e.map_values(|p: (String, TypedValue)| (p.0@, p.1@))
}

impl View for TypedRecord {
    type V = RecordModel;

    closed spec fn view(&self) -> RecordModel {
        entries_model(self.entries@)
    }
}

impl TypedRecord {
    /// Number of entries.
    pub fn len(&self) -> (r: usize)
        ensures
            r == self@.len(),
    {
        self.entries.len()
    }

    /// The `i`-th entry.
    pub fn entry(&self, i: usize) -> (r: &(String, TypedValue))
        requires
            i < self@.len(),
        ensures
            (r.0@, r.1@) == self@[i as int],
    {
        &self.entries[i]
    }

    /// The record holding `entries`, in their order.
    pub fn from_entries(entries: Vec<(String, TypedValue)>) -> (r: TypedRecord)
        ensures
            r@ == entries_model(entries@),
    {
        TypedRecord { entries }
    }

    /// Appends an entry.
    pub(crate) fn push_entry(&mut self, name: String, value: TypedValue)
        ensures
            final(self)@ == old(self)@.push((name@, value@)),
    {
        self.entries.push((name, value));
        assert(final(self)@ =~= old(self)@.push((name@, value@)));
    }

    /// An empty record.
    pub fn empty() -> (r: TypedRecord)
        ensures
            r@ == Seq::<(Seq<char>, ValueModel)>::empty(),
    {
        let r = TypedRecord { entries: Vec::new() };
        assert(r@ =~= Seq::<(Seq<char>, ValueModel)>::empty());
        r
    }
}

/// The entries for the filled slots, in schema order.
pub open spec fn present(s: SchemaModel, slots: Seq<Option<ValueModel>>) -> RecordModel
    decreases slots.len(),
{
    if slots.len() == 0 {
        seq![]
    } else {
        let rest = present(s, slots.drop_last());
        match slots.last() {
            Some(v) => rest.push((s[slots.len() - 1].0, v)),
            None => rest,
        }
    }
}

/// Every name in `present(s, slots)` is one of the first `slots.len()`
/// declared names; with unique declarations, the entries' names are unique.
pub proof fn lemma_present_names(s: SchemaModel, slots: Seq<Option<ValueModel>>)
    requires
        names_unique(s),
        slots.len() <= s.len(),
    ensures
        forall|j: int|
            0 <= j < present(s, slots).len() ==> exists|k: int|
                0 <= k < slots.len() && #[trigger] present(s, slots)[j].0 == s[k].0,
        entry_names_unique(present(s, slots)),
    decreases slots.len(),
{
    if slots.len() > 0 {
        let n = slots.len() - 1;
        lemma_present_names(s, slots.drop_last());
        let prev = present(s, slots.drop_last());
        if slots.last() is Some {
            assert forall|j: int| 0 <= j < prev.len() implies prev[j].0 != s[n].0 by {
                let k = choose|k: int| 0 <= k < n && prev[j].0 == s[k].0;
            }
        }
    }
}

/// Why a host value could not be put into a record.
#[derive(PartialEq, Eq, Structural, Clone, Copy, Debug)]
pub enum BuildError {
    /// No field of that name is declared.
    FieldNotFound,
    /// The value does not convert to the field's declared type.
    WrongType,
}

/// Fills a record against a schema, one field at a time; a later value for
/// a field replaces an earlier one.
pub struct RecordBuilder<'a> {
    schema: &'a Schema,
    slots: Vec<Option<TypedValue>>,
}

pub open spec fn slots_model(v: Seq<Option<TypedValue>>) -> Seq<Option<ValueModel>> {
    v.map_values(|o: Option<TypedValue>| match o {
        Some(t) => Some(t@),
        None => None,
    })
}

impl<'a> RecordBuilder<'a> {
    /// The schema being filled.
    pub closed spec fn schema_model(&self) -> SchemaModel {
        self.schema@
    }

    /// The value set for each declared field so far.
    pub closed spec fn slots(&self) -> Seq<Option<ValueModel>> {
        slots_model(self.slots@)
    }

    pub closed spec fn wf(&self) -> bool {
        &&& self.schema.wf()
        &&& self.slots@.len() == self.schema@.len()
    }

    /// A builder for `schema` with no field set.
    pub fn start(schema: &'a Schema) -> (r: RecordBuilder<'a>)
        requires
            schema.wf(),
        ensures
            r.wf(),
            r.schema_model() == schema@,
            r.slots() == Seq::new(schema@.len(), |i: int| None::<ValueModel>),
    {
        let mut slots: Vec<Option<TypedValue>> = Vec::new();
        let n = schema.len();
        let mut i: usize = 0;
        while i < n
            invariant
                i <= n,
                n == schema@.len(),
                slots@.len() == i,
                forall|k: int| 0 <= k < i ==> slots@[k] is None,
            decreases n - i,
        {
            slots.push(None);
            i = i + 1;
        }
        let r = RecordBuilder { schema, slots };
        assert(r.slots() =~= Seq::new(schema@.len(), |i: int| None::<ValueModel>));
        r
    }

    /// Sets the field named `field` from a host value. Refused, with nothing
    /// changed, when no such field is declared or the value does not convert.
    pub fn set(&mut self, field: &str, value: &HostValue) -> (r: Result<(), BuildError>)
        requires
            old(self).wf(),
        ensures
            final(self).wf(),
            final(self).schema_model() == old(self).schema_model(),
            match field_pos(old(self).schema_model(), field@) {
                None => r == Err::<(), BuildError>(BuildError::FieldNotFound) && final(self).slots()
                    == old(self).slots(),
                Some(i) => match typed_of(old(self).schema_model()[i].1, value@) {
                    None => r == Err::<(), BuildError>(BuildError::WrongType) && final(self).slots()
                        == old(self).slots(),
                    Some(v) => r is Ok && final(self).slots() == old(self).slots().update(
                        i,
                        Some(v),
                    ),
                },
            },
    {
        match self.schema.index_of(field) {
            None => Err(BuildError::FieldNotFound),
            Some(i) => {
                let kind = self.schema.decl(i).kind;
                match to_typed(kind, value) {
                    Err(FieldError::WrongType) => Err(BuildError::WrongType),
                    Ok(t) => {
                        let ghost before = self.slots@;
                        self.slots.set(i, Some(t));
                        assert(slots_model(self.slots@) =~= slots_model(before).update(
                            i as int,
                            Some(t@),
                        ));
                        Ok(())
                    },
                }
            },
        }
    }

    /// The record of the fields set so far, in schema order.
    pub fn finish(self) -> (r: TypedRecord)
        requires
            self.wf(),
        ensures
            r@ == present(self.schema_model(), self.slots()),
            entry_names_unique(r@),
    {
        let mut rec = TypedRecord::empty();
        let n = self.slots.len();
        let mut i: usize = 0;
        while i < n
            invariant
                i <= n,
                n == self.slots@.len(),
                self.wf(),
                rec@ == present(self.schema_model(), self.slots().take(i as int)),
            decreases n - i,
        {
            proof {
                assert(self.slots().take(i + 1).drop_last() =~= self.slots().take(i as int));
            }
            match &self.slots[i] {
                Some(t) => {
                    let name = self.schema.decl(i).name.clone();
                    rec.push_entry(name, t.duplicate());
                },
                None => {},
            }
            i = i + 1;
        }
        proof {
            assert(self.slots().take(n as int) =~= self.slots());
            lemma_present_names(self.schema_model(), self.slots());
        }
        rec
    }
}

/// Host key/value pairs as names and host values, in the order given.
pub type MappingModel = Seq<(Seq<char>, HostModel)>;

pub open spec fn mapping_model(m: Seq<(String, HostValue)>) -> MappingModel {
    m.map_values(|p: (String, HostValue)| (p.0@, p.1@))
}

/// Why a list of pairs is refused, if it is: a name that no field declares
/// comes before a value that does not convert.
pub open spec fn build_error(s: SchemaModel, m: MappingModel) -> Option<BuildError> {
    if exists|k: int| 0 <= k < m.len() && field_pos(s, #[trigger] m[k].0) is None {
        Some(BuildError::FieldNotFound)
    } else if exists|k: int|
        0 <= k < m.len() && typed_of(s[field_pos(s, #[trigger] m[k].0)->0].1, m[k].1) is None {
        Some(BuildError::WrongType)
    } else {
        None
    }
}

/// The value of each declared field after setting the pairs in order.
pub open spec fn assigned(s: SchemaModel, m: MappingModel) -> Seq<Option<ValueModel>>
    decreases m.len(),
{
    if m.len() == 0 {
        Seq::new(s.len(), |i: int| None::<ValueModel>)
    } else {
        let prev = assigned(s, m.drop_last());
        match field_pos(s, m.last().0) {
            Some(i) => match typed_of(s[i].1, m.last().1) {
                Some(v) => prev.update(i, Some(v)),
                None => prev,
            },
            None => prev,
        }
    }
}

/// The record the pairs build: declared fields that were given a value,
/// each with the last value given.
pub open spec fn built(s: SchemaModel, m: MappingModel) -> RecordModel {
    present(s, assigned(s, m))
}

/// Builds a record of `schema` from host pairs, set in order; a later pair
/// for a field replaces an earlier one. Refused, with `FieldNotFound` first,
/// when a pair names no declared field or holds a value that does not convert.
pub fn create_msg(map: &Vec<(String, HostValue)>, schema: &Schema) -> (r: Result<
    TypedRecord,
    BuildError,
>)
    requires
        schema.wf(),
    ensures
        match build_error(schema@, mapping_model(map@)) {
            Some(e) => r == Err::<TypedRecord, BuildError>(e),
            None => r matches Ok(rec) && rec@ == built(schema@, mapping_model(map@))
                && entry_names_unique(rec@),
        },
{
    let ghost m = mapping_model(map@);
    let mut i: usize = 0;
    while i < map.len()
        invariant
            i <= map@.len(),
            m == mapping_model(map@),
            schema.wf(),
            forall|k: int| 0 <= k < i ==> field_pos(schema@, #[trigger] m[k].0) is Some,
        decreases map@.len() - i,
    {
        if schema.index_of(map[i].0.as_str()).is_none() {
            assert(field_pos(schema@, m[i as int].0) is None);
            return Err(BuildError::FieldNotFound);
        }
        i = i + 1;
    }
    let mut b = RecordBuilder::start(schema);
    let mut i: usize = 0;
    while i < map.len()
        invariant
            i <= map@.len(),
            m == mapping_model(map@),
            forall|k: int| 0 <= k < m.len() ==> field_pos(schema@, #[trigger] m[k].0) is Some,
            b.wf(),
            b.schema_model() == schema@,
            forall|k: int|
                0 <= k < i ==> typed_of(schema@[field_pos(schema@, #[trigger] m[k].0)->0].1, m[k].1) is Some,
            b.slots() == assigned(schema@, m.take(i as int)),
        decreases map@.len() - i,
    {
        proof {
            assert(m.take(i + 1).drop_last() =~= m.take(i as int));
            assert(m.take(i + 1).last() == m[i as int]);
        }
        let (k, v) = &map[i];
        if b.set(k.as_str(), v).is_err() {
            assert(typed_of(schema@[field_pos(schema@, m[i as int].0)->0].1, m[i as int].1) is None);
            return Err(BuildError::WrongType);
        }
        i = i + 1;
    }
    proof {
        assert(m.take(i as int) =~= m);
    }
    Ok(b.finish())
}

/// The host pairs of a record, in its order.
pub fn to_map(record: &TypedRecord) -> (r: Vec<(String, HostValue)>)
    ensures
        mapping_model(r@) == record@.map_values(|e: (Seq<char>, ValueModel)| (e.0, host_of(e.1))),
{
    let mut out: Vec<(String, HostValue)> = Vec::new();
    let mut i: usize = 0;
    while i < record.len()
        invariant
            i <= record@.len(),
            out@.len() == i,
            forall|k: int|
                0 <= k < i ==> (out@[k].0@, out@[k].1@) == (record@[k].0, host_of(record@[k].1)),
        decreases record@.len() - i,
    {
        let e = record.entry(i);
        out.push((e.0.clone(), from_typed(&e.1)));
        i = i + 1;
    }
    assert(mapping_model(out@) =~= record@.map_values(
        |e: (Seq<char>, ValueModel)| (e.0, host_of(e.1)),
    ));
    out
}

} // verus!
