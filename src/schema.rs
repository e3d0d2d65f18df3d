//! Record schemas: an ordered list of uniquely named, typed fields.
use vstd::prelude::*;
use crate::value::FieldKind;
use vstd::utf8::encode_utf8;

verus! {

broadcast use vstd::utf8::group_utf8_lib;

/// Whether two texts are equal, compared byte by byte.
pub fn text_eq(a: &str, b: &str) -> (r: bool)
    ensures
        r == (a@ == b@),
{
    let x = a.as_bytes();
    let y = b.as_bytes();
    proof {
        vstd::utf8::encode_utf8_decode_utf8(a@);
        vstd::utf8::encode_utf8_decode_utf8(b@);
    }
    if x.len() != y.len() {
        return false;
    }
    let mut i: usize = 0;
    while i < x.len()
        invariant
            i <= x@.len(),
            x@.len() == y@.len(),
            forall|k: int| 0 <= k < i ==> x@[k] == y@[k],
            x@ == encode_utf8(a@),
            y@ == encode_utf8(b@),
        decreases x@.len() - i,
    {
        if x[i] != y[i] {
            return false;
        }
        i = i + 1;
    }
    assert(x@ =~= y@);
    assert(encode_utf8(a@) == encode_utf8(b@));
    true
}

/// A field declaration: its name and declared type.
#[derive(Clone, Debug)]
pub struct FieldDecl {
    pub name: String,
    pub kind: FieldKind,
}

/// The declarations of a record schema, as names and kinds.
pub type SchemaModel = Seq<(Seq<char>, FieldKind)>;

pub open spec fn decls_model(d: Seq<FieldDecl>) -> SchemaModel {
    d.map_values(|f: FieldDecl| (f.name@, f.kind))
}

/// No two declarations share a name.
pub open spec fn names_unique(s: SchemaModel) -> bool {
    forall|i: int, j: int| 0 <= i < j < s.len() ==> s[i].0 != s[j].0
}

/// Position of the declaration named `name`, if there is one.
pub open spec fn field_pos(s: SchemaModel, name: Seq<char>) -> Option<int> {
    if exists|i: int| 0 <= i < s.len() && s[i].0 == name {
        Some(choose|i: int| 0 <= i < s.len() && s[i].0 == name)
    } else {
        None
    }
}

/// Why schema text was refused.
#[derive(PartialEq, Eq, Structural, Clone, Copy, Debug)]
pub enum SchemaError {
    BadSchema,
}

/// A parsed record schema. Immutable once built; its field names are unique.
#[derive(Clone, Debug)]
pub struct Schema {
    fields: Vec<FieldDecl>,
}

impl View for Schema {
    type V = SchemaModel;

    closed spec fn view(&self) -> SchemaModel {
        decls_model(self.fields@)
    }
}

impl Schema {
    /// Well-formed: field names are unique. Every constructor ensures it.
    pub open spec fn wf(&self) -> bool {
        names_unique(self@)
    }

    /// Number of declared fields.
    pub fn len(&self) -> (r: usize)
        ensures
            r == self@.len(),
    {
        self.fields.len()
    }

    /// The `i`-th declaration.
    pub fn decl(&self, i: usize) -> (r: &FieldDecl)
        requires
            i < self@.len(),
        ensures
            (r.name@, r.kind) == self@[i as int],
    {
        &self.fields[i]
    }

    /// Position of the field named `name`.
    pub fn index_of(&self, name: &str) -> (r: Option<usize>)
        requires
            self.wf(),
        ensures
            match field_pos(self@, name@) {
                Some(i) => r == Some(i as usize),
                None => r is None,
            },
            r matches Some(i) ==> i < self@.len() && self@[i as int].0 == name@,
    {
        let mut i: usize = 0;
        while i < self.fields.len()
            invariant
                i <= self@.len(),
                self.wf(),
                self@.len() == self.fields@.len(),
                forall|k: int| 0 <= k < i ==> self@[k].0 != name@,
            decreases self@.len() - i,
        {
            if text_eq(self.fields[i].name.as_str(), name) {
                proof {
                    assert(self@[i as int] == (self.fields@[i as int].name@, self.fields@[i as int].kind));
                    assert(self@[i as int].0 == name@);
                    assert(exists|k: int| 0 <= k < self@.len() && self@[k].0 == name@);
                    let c = choose|k: int| 0 <= k < self@.len() && self@[k].0 == name@;
                    assert(0 <= c < self@.len() && self@[c].0 == name@);
                    if c < i {
                        assert(self@[c].0 != self@[i as int].0);
                    } else if c > i {
                        assert(self@[i as int].0 != self@[c].0);
                    }
                }
                return Some(i);
            }
            i = i + 1;
        }
        None
    }

    /// The declared type of the field named `name`.
    pub fn field_type(&self, name: &str) -> (r: Option<FieldKind>)
        requires
            self.wf(),
        ensures
            match field_pos(self@, name@) {
                Some(i) => r == Some(self@[i].1),
                None => r is None,
            },
    {
        match self.index_of(name) {
            Some(i) => {
                assert(self@[i as int] == (self.fields@[i as int].name@, self.fields@[i as int].kind));
                Some(self.fields[i].kind)
            },
            None => None,
        }
    }
}

/// The fields of `schema`, in declaration order.
pub fn schema_fields(schema: &Schema) -> (r: Vec<FieldDecl>)
    ensures
        decls_model(r@) == schema@,
{
    let mut r: Vec<FieldDecl> = Vec::new();
    let mut i: usize = 0;
    while i < schema.fields.len()
        invariant
            i <= schema.fields@.len(),
            r@.len() == i,
            forall|k: int|
                0 <= k < i ==> r@[k].name@ == schema.fields@[k].name@ && r@[k].kind
                    == schema.fields@[k].kind,
        decreases schema.fields@.len() - i,
    {
        let f = &schema.fields[i];
        r.push(FieldDecl { name: f.name.clone(), kind: f.kind });
        i = i + 1;
    }
    assert(decls_model(r@) =~= schema@);
    r
}

/// Builds a schema from declarations; refused when two share a name.
pub fn schema_from_fields(fields: Vec<FieldDecl>) -> (r: Result<Schema, SchemaError>)
    ensures
        names_unique(decls_model(fields@)) ==> (r matches Ok(s) && s@ == decls_model(fields@)
            && s.wf()),
        !names_unique(decls_model(fields@)) ==> r == Err::<Schema, SchemaError>(
            SchemaError::BadSchema,
        ),
{
    let ghost m = decls_model(fields@);
    let mut i: usize = 0;
    while i < fields.len()
        invariant
            i <= fields@.len(),
            m == decls_model(fields@),
            forall|a: int, b: int| 0 <= a < b < i ==> m[a].0 != m[b].0,
        decreases fields@.len() - i,
    {
        let mut j: usize = 0;
        while j < i
            invariant
                j <= i < fields@.len(),
                m == decls_model(fields@),
                forall|a: int| 0 <= a < j ==> m[a].0 != m[i as int].0,
            decreases i - j,
        {
            if text_eq(fields[j].name.as_str(), fields[i].name.as_str()) {
                assert(m[j as int].0 == m[i as int].0);
                return Err(SchemaError::BadSchema);
            }
            j = j + 1;
        }
        i = i + 1;
    }
    Ok(Schema { fields })
}

/// The declarations apache_avro reads from schema text: `None` where the text
/// is not a schema, or is a schema but not a record.
pub uninterp spec fn avro_record_fields(text: Seq<char>) -> Option<SchemaModel>;

/// Relies on apache_avro::Schema::parse_str: the declarations of the record
/// schema that the JSON text defines, field types told apart by variant.
#[verifier::external_body]
fn parse_record_fields(text: &str) -> (r: Option<Vec<FieldDecl>>)
    ensures
        match avro_record_fields(text@) {
            Some(m) => r matches Some(d) && decls_model(d@) == m,
            None => r is None,
        },
{
    match apache_avro::Schema::parse_str(text) {
        Ok(apache_avro::Schema::Record(rec)) => Some(rec.fields.into_iter().map(|f| {
            let kind = match f.schema {
                apache_avro::Schema::Int => FieldKind::Int32,
                apache_avro::Schema::Long => FieldKind::Int64,
                apache_avro::Schema::Double => FieldKind::Double,
                apache_avro::Schema::String => FieldKind::Utf8String,
                _ => FieldKind::Unsupported,
            };
            FieldDecl { name: f.name, kind }
        }).collect()),
        _ => None,
    }
}

/// The schema that text parses to: refused when it is not a record schema or
/// declares one name twice.
pub open spec fn read_schema_spec(text: Seq<char>) -> Result<SchemaModel, SchemaError> {
    match avro_record_fields(text) {
        Some(m) => if names_unique(m) {
            Ok(m)
        } else {
            Err(SchemaError::BadSchema)
        },
        None => Err(SchemaError::BadSchema),
    }
}

/// Parses record schema text. Refused when the text is not a record schema
/// or declares one name twice.
pub fn read_schema(text: &str) -> (r: Result<Schema, SchemaError>)
    ensures
        match read_schema_spec(text@) {
            Ok(m) => r matches Ok(s) && s@ == m && s.wf(),
            Err(e) => r == Err::<Schema, SchemaError>(e),
        },
{
    match parse_record_fields(text) {
        Some(d) => schema_from_fields(d),
        None => Err(SchemaError::BadSchema),
    }
}

} // verus!
