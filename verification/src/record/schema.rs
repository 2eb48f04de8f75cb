use vstd::prelude::*;

verus! {

/// The type code of an integer field.
pub const INTEGER: u64 = 4;

/// The type code of a string field.
pub const VARCHAR: u64 = 12;

/// The type of a field and, for a string, the most bytes that it may take.
#[derive(Clone, Copy, Debug)]
pub struct FiledInfo {
    pub field_type: u64,
    pub length: u64,
}

/// One call of `add_field`, as a value.
pub struct FieldSpec {
    pub name: Seq<char>,
    pub info: FiledInfo,
}

struct Field {
    name: String,
    info: FiledInfo,
}

/// The position in `fields` of the field that was added last under `name`; -1
/// where none was.
pub open spec fn last_index_of(fields: Seq<FieldSpec>, name: Seq<char>) -> int
    decreases fields.len(),
{
    if fields.len() == 0 {
        -1
    } else if fields.last().name == name {
        fields.len() - 1
    } else {
        last_index_of(fields.drop_last(), name)
    }
}

/// Whether a field was added under `name`.
pub open spec fn has_field(fields: Seq<FieldSpec>, name: Seq<char>) -> bool {
    last_index_of(fields, name) >= 0
}

/// What was last said of the field `name`.
pub open spec fn info_of(fields: Seq<FieldSpec>, name: Seq<char>) -> FiledInfo {
    fields[last_index_of(fields, name)].info
}

/// The field that was added last under a name has that name, and no field
/// after it has.
pub proof fn lemma_last_index_of(fields: Seq<FieldSpec>, name: Seq<char>)
    ensures
        -1 <= last_index_of(fields, name) < fields.len(),
        last_index_of(fields, name) >= 0 ==> fields[last_index_of(fields, name)].name == name,
        forall|i: int|
            last_index_of(fields, name) < i < fields.len() ==> (#[trigger] fields[i]).name != name,
    decreases fields.len(),
{
    if fields.len() > 0 && fields.last().name != name {
        lemma_last_index_of(fields.drop_last(), name);
        assert forall|i: int| last_index_of(fields, name) < i < fields.len() implies (
        #[trigger] fields[i]).name != name by {
            if i < fields.len() - 1 {
                assert(fields.drop_last()[i] == fields[i]);
            }
        }
    }
}

/// The fields of a table: their names in the order in which they were added, and
/// for each name what was last said of it.
pub struct Schema {
    fields: Vec<Field>,
}

impl View for Schema {
    type V = Seq<FieldSpec>;

    closed spec fn view(&self) -> Seq<FieldSpec> {
        Seq::new(
            self.fields@.len(),
            |i: int| FieldSpec { name: self.fields@[i].name@, info: self.fields@[i].info },
        )
    }
}

impl Clone for Schema {
    fn clone(&self) -> (res: Self)
        ensures
            res@ == self@,
    {
        let mut fields: Vec<Field> = Vec::new();
        let mut i: usize = 0;
        while i < self.fields.len()
            invariant
                i <= self.fields@.len(),
                fields@.len() == i,
                forall|j: int|
                    0 <= j < i ==> (#[trigger] fields@[j]).name@ == self.fields@[j].name@
                        && fields@[j].info == self.fields@[j].info,
            decreases self.fields@.len() - i,
        {
            fields.push(Field { name: self.fields[i].name.clone(), info: self.fields[i].info });
            i = i + 1;
        }
        let res = Schema { fields };
        assert(res@ =~= self@);
        res
    }
}

impl Schema {
    /// A schema without fields.
    pub fn new() -> (schema: Self)
        ensures
            schema@ == Seq::<FieldSpec>::empty(),
    {
        let schema = Schema { fields: Vec::new() };
        assert(schema@ =~= Seq::<FieldSpec>::empty());
        schema
    }

    /// Adds a field with the given name, type and length.
    pub fn add_field(&mut self, field_name: &str, field_type: u64, length: u64)
        ensures
            final(self)@ == old(self)@.push(
                (FieldSpec { name: field_name@, info: FiledInfo { field_type, length } }),
            ),
    {
        self.fields.push(Field { name: field_name.to_owned(), info: FiledInfo { field_type, length } });
        assert(self@ =~= old(self)@.push(
            (FieldSpec { name: field_name@, info: FiledInfo { field_type, length } }),
        ));
    }

    /// Adds a string field of at most `length` bytes.
    pub fn add_string_field(&mut self, field_name: &str, length: u64)
        ensures
            final(self)@ == old(self)@.push(
                (FieldSpec { name: field_name@, info: FiledInfo { field_type: VARCHAR, length } }),
            ),
    {
        self.add_field(field_name, VARCHAR, length)
    }

    /// Adds an integer field.
    pub fn add_int_field(&mut self, field_name: &str)
        ensures
            final(self)@ == old(self)@.push(
                (FieldSpec { name: field_name@, info: FiledInfo { field_type: INTEGER, length: 0 } }),
            ),
    {
        self.add_field(field_name, INTEGER, 0)
    }

    /// The names of the fields, in the order in which they were added.
    pub fn fields(&self) -> (names: Vec<String>)
        ensures
            names@.len() == self@.len(),
            forall|i: int| 0 <= i < names@.len() ==> (#[trigger] names@[i])@ == self@[i].name,
    {
        let mut names: Vec<String> = Vec::new();
        let mut i: usize = 0;
        while i < self.fields.len()
            invariant
                i <= self.fields@.len(),
                names@.len() == i,
                forall|j: int| 0 <= j < i ==> (#[trigger] names@[j])@ == self.fields@[j].name@,
            decreases self.fields@.len() - i,
        {
            names.push(self.fields[i].name.clone());
            i = i + 1;
        }
        names
    }

    /// Where the field `field_name` was last added, if it was.
    pub fn find(&self, field_name: &str) -> (r: Option<usize>)
        ensures
            r is Some <==> has_field(self@, field_name@),
            r matches Some(i) ==> i == last_index_of(self@, field_name@) && i < self@.len(),
    {
        let name = field_name.to_owned();
        let mut i: usize = self.fields.len();
        while i > 0
            invariant
                i <= self.fields@.len(),
                name@ == field_name@,
                forall|j: int| i <= j < self.fields@.len() ==> (#[trigger] self@[j]).name != field_name@,
            decreases i,
        {
            i = i - 1;
            if self.fields[i].name == name {
                proof {
                    assert(self@[i as int].name == field_name@);
                    lemma_last_index_of(self@, field_name@);
                }
                return Some(i);
            }
        }
        proof {
            lemma_last_index_of(self@, field_name@);
        }
        None
    }

    /// Whether a field was added under `field_name`.
    pub fn has_field(&self, field_name: &str) -> (found: bool)
        ensures
            found == has_field(self@, field_name@),
    {
        self.find(field_name).is_some()
    }

    /// The type code of the field `field_name`.
    pub fn get_type(&self, field_name: &str) -> (field_type: u64)
        requires
            has_field(self@, field_name@),
        ensures
            field_type == info_of(self@, field_name@).field_type,
    {
        match self.find(field_name) {
            Some(i) => {
                assert(self@[i as int].info == self.fields@[i as int].info);
                self.fields[i].info.field_type
            },
            None => 0,
        }
    }

    /// The length that the field `field_name` was added with.
    pub fn length(&self, field_name: &str) -> (length: u64)
        requires
            has_field(self@, field_name@),
        ensures
            length == info_of(self@, field_name@).length,
    {
        match self.find(field_name) {
            Some(i) => {
                assert(self@[i as int].info == self.fields@[i as int].info);
                self.fields[i].info.length
            },
            None => 0,
        }
    }
}

} // verus!
