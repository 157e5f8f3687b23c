//! Column data types, fields, and the ordered schema.
//!
//! A schema is an ordered sequence of named, typed fields.  Order is
//! significant (it defines output column order) and names are expected to be
//! unique; lookups resolve to the first field carrying the requested name.

use vstd::prelude::*;

use crate::error::PlanError;

verus! {

use vstd::string::StringExecFns;

/// The closed set of column data types this planning layer distinguishes.
#[derive(Clone, Copy, PartialEq, Eq, Structural, Debug, Hash)]
pub enum DataType {
    Boolean,
    UInt32,
    Int32,
    Int64,
    Float64,
    Utf8,
    List,
}

/// A named, typed column.
#[derive(Debug)]
pub struct Field {
    pub name: String,
    pub dtype: DataType,
}

impl Field {
    pub fn new(name: &str, dtype: DataType) -> (r: Field)
        ensures
            r.name@ == name@,
            r.dtype == dtype,
    {
        Field { name: name.to_owned(), dtype }
    }

    pub fn name(&self) -> (r: &String)
        ensures
            r == &self.name,
    {
        &self.name
    }

    pub fn data_type(&self) -> (r: DataType)
        ensures
            r == self.dtype,
    {
        self.dtype
    }
}

impl Clone for Field {
    fn clone(&self) -> (r: Field)
        ensures
            r == *self,
    {
        Field { name: self.name.clone(), dtype: self.dtype }
    }
}

/// The first index at or after `i` whose field is named `name`.
pub open spec fn first_with_name(fields: Seq<Field>, name: Seq<char>, i: int) -> Option<int>
    decreases fields.len() - i,
{
    if i < 0 || i >= fields.len() {
        None
    } else if fields[i].name@ == name {
        Some(i)
    } else {
        first_with_name(fields, name, i + 1)
    }
}

/// What a `first_with_name` result means, spelled out: the returned index is
/// in range, carries the name, and nothing between `i` and it does.
pub proof fn lemma_first_with_name(fields: Seq<Field>, name: Seq<char>, i: int)
    requires
        0 <= i,
    ensures
        match first_with_name(fields, name, i) {
            Some(j) => i <= j < fields.len() && fields[j].name@ == name && forall|k: int|
                i <= k < j ==> fields[k].name@ != name,
            None => forall|k: int| i <= k < fields.len() ==> fields[k].name@ != name,
        },
    decreases fields.len() - i,
{
    if i < 0 || i >= fields.len() {
    } else if fields[i].name@ == name {
    } else {
        lemma_first_with_name(fields, name, i + 1);
        match first_with_name(fields, name, i + 1) {
            Some(j) => {
                assert forall|k: int| i <= k < j implies fields[k].name@ != name by {
                    if k != i {
                        assert(fields[k].name@ != name);
                    }
                }
            }
            None => {
                assert forall|k: int| i <= k < fields.len() implies fields[k].name@ != name by {
                    if k != i {
                        assert(fields[k].name@ != name);
                    }
                }
            }
        }
    }
}

/// Whether some field of `fields` is named `name`.
pub open spec fn fields_have_name(fields: Seq<Field>, name: Seq<char>) -> bool {
    first_with_name(fields, name, 0) is Some
}

/// The type of the first field of `fields` named `name`, if any.
pub open spec fn fields_lookup(fields: Seq<Field>, name: Seq<char>) -> Option<DataType> {
    match first_with_name(fields, name, 0) {
        Some(i) => Some(fields[i].dtype),
        None => None,
    }
}

/// Merging one field into an accumulated field list: a fresh name is
/// appended, a repeated name must carry the same type, and a repeated name
/// with a different type refuses the merge.
pub open spec fn spec_merge_push(acc: Seq<Field>, f: Field) -> Option<Seq<Field>> {
    match first_with_name(acc, f.name@, 0) {
        None => Some(acc.push(f)),
        Some(i) => if acc[i].dtype == f.dtype {
            Some(acc)
        } else {
            None
        },
    }
}

/// Folds `spec_merge_push` over the fields of `fs` starting at index `j`.
pub open spec fn spec_merge_fields(acc: Seq<Field>, fs: Seq<Field>, j: int) -> Option<Seq<Field>>
    decreases fs.len() - j,
{
    if j < 0 || j >= fs.len() {
        Some(acc)
    } else {
        match spec_merge_push(acc, fs[j]) {
            None => None,
            Some(a) => spec_merge_fields(a, fs, j + 1),
        }
    }
}

/// Folds whole schemas into an accumulated field list, schema by schema.
pub open spec fn spec_merge_schemas(acc: Seq<Field>, ss: Seq<Schema>, k: int) -> Option<
    Seq<Field>,
>
    decreases ss.len() - k,
{
    if k < 0 || k >= ss.len() {
        Some(acc)
    } else {
        match spec_merge_fields(acc, ss[k].spec_fields(), 0) {
            None => None,
            Some(a) => spec_merge_schemas(a, ss, k + 1),
        }
    }
}

/// Ordered, name-addressed list of fields describing an operator's output.
#[derive(Debug)]
pub struct Schema {
    fields: Vec<Field>,
}

impl Schema {
    /// The abstract value of the schema: its fields, in order.
    pub closed spec fn spec_fields(&self) -> Seq<Field> {
        self.fields@
    }

    pub open spec fn spec_len(&self) -> nat {
        self.spec_fields().len()
    }

    /// The name of the field at `i`.
    pub open spec fn name_at(&self, i: int) -> Seq<char> {
        self.spec_fields()[i].name@
    }

    pub open spec fn has_name(&self, name: Seq<char>) -> bool {
        fields_have_name(self.spec_fields(), name)
    }

    /// The type of the first field named `name`, if any.
    pub open spec fn spec_lookup(&self, name: Seq<char>) -> Option<DataType> {
        fields_lookup(self.spec_fields(), name)
    }

    pub fn new(fields: Vec<Field>) -> (r: Schema)
        ensures
            r.spec_fields() == fields@,
    {
        Schema { fields }
    }

    pub fn fields(&self) -> (r: &Vec<Field>)
        ensures
            r@ == self.spec_fields(),
    {
        &self.fields
    }

    pub fn len(&self) -> (r: usize)
        ensures
            r == self.spec_len(),
    {
        self.fields.len()
    }

    /// The index of the first field named `name`.
    pub fn index_of(&self, name: &String) -> (r: Option<usize>)
        ensures
            match r {
                Some(i) => first_with_name(self.spec_fields(), name@, 0) == Some(i as int),
                None => first_with_name(self.spec_fields(), name@, 0) is None,
            },
    {
        let n = self.fields.len();
        let mut i: usize = 0;
        while i < n
            invariant
                i <= n,
                n == self.spec_len(),
                first_with_name(self.spec_fields(), name@, 0) == first_with_name(
                    self.spec_fields(),
                    name@,
                    i as int,
                ),
            decreases n - i,
        {
            if self.fields[i].name.eq(name) {
                return Some(i);
            }
            i += 1;
        }
        None
    }

    /// The first field named `name`.
    pub fn field_with_name(&self, name: &String) -> (r: Option<&Field>)
        ensures
            match r {
                Some(f) => match first_with_name(self.spec_fields(), name@, 0) {
                    Some(i) => *f == self.spec_fields()[i],
                    None => false,
                },
                None => first_with_name(self.spec_fields(), name@, 0) is None,
            },
    {
        proof {
            lemma_first_with_name(self.spec_fields(), name@, 0);
        }
        match self.index_of(name) {
            Some(i) => Some(&self.fields[i]),
            None => None,
        }
    }

    /// Merges `schemas` left to right into one schema.  A repeated column
    /// name with a matching type is kept once; a repeated name with an
    /// incompatible type refuses the whole merge.
    pub fn try_merge(schemas: &[Schema]) -> (r: Result<Schema, PlanError>)
        ensures
            match r {
                Ok(s) => spec_merge_schemas(Seq::empty(), schemas@, 0) == Some(s.spec_fields()),
                Err(e) => spec_merge_schemas(Seq::empty(), schemas@, 0) is None && e
                    is ShapeMismatch,
            },
    {
        let mut acc: Vec<Field> = Vec::new();
        let n = schemas.len();
        let mut k: usize = 0;
        while k < n
            invariant
                k <= n,
                n == schemas@.len(),
                spec_merge_schemas(Seq::empty(), schemas@, 0) == spec_merge_schemas(
                    acc@,
                    schemas@,
                    k as int,
                ),
            decreases n - k,
        {
            let fs = &schemas[k].fields;
            let m = fs.len();
            let mut j: usize = 0;
            while j < m
                invariant
                    j <= m,
                    k < n,
                    n == schemas@.len(),
                    m == schemas@[k as int].spec_fields().len(),
                    fs@ == schemas@[k as int].spec_fields(),
                    spec_merge_schemas(Seq::empty(), schemas@, 0) == match spec_merge_fields(
                        acc@,
                        fs@,
                        j as int,
                    ) {
                        None => None::<Seq<Field>>,
                        Some(a) => spec_merge_schemas(a, schemas@, k + 1),
                    },
                decreases m - j,
            {
                let f = &fs[j];
                match self_merge_push(&mut acc, f) {
                    Ok(()) => {}
                    Err(e) => {
                        return Err(e);
                    }
                }
                j += 1;
            }
            k += 1;
        }
        Ok(Schema { fields: acc })
    }
}

impl Clone for Schema {
    fn clone(&self) -> (r: Schema)
        ensures
            r.spec_fields() == self.spec_fields(),
    {
        let n = self.fields.len();
        let mut out: Vec<Field> = Vec::new();
        let mut i: usize = 0;
        while i < n
            invariant
                i <= n,
                n == self.spec_len(),
                out@.len() == i,
                forall|j: int| 0 <= j < i ==> out@[j] == self.spec_fields()[j],
            decreases n - i,
        {
            let f = self.fields[i].clone();
            out.push(f);
            i += 1;
        }
        proof {
            assert(out@ =~= self.spec_fields());
        }
        Schema { fields: out }
    }
}

/// Merges one field into the accumulated field vector, mirroring
/// [`spec_merge_push`].
fn self_merge_push(acc: &mut Vec<Field>, f: &Field) -> (r: Result<(), PlanError>)
    ensures
        match r {
            Ok(()) => spec_merge_push(old(acc)@, *f) == Some(final(acc)@),
            Err(e) => spec_merge_push(old(acc)@, *f) is None && final(acc)@ == old(acc)@ && e
                is ShapeMismatch,
        },
{
    let n = acc.len();
    let mut i: usize = 0;
    while i < n
        invariant
            i <= n,
            n == acc@.len(),
            acc@ == old(acc)@,
            first_with_name(acc@, f.name@, 0) == first_with_name(acc@, f.name@, i as int),
        decreases n - i,
    {
        if acc[i].name.eq(&f.name) {
            if acc[i].data_type() == f.data_type() {
                return Ok(());
            } else {
                return Err(
                    PlanError::ShapeMismatch(
                        String::from_str("cannot merge fields of one name but two types"),
                    ),
                );
            }
        }
        i += 1;
    }
    acc.push(f.clone());
    Ok(())
}

} // verus!
