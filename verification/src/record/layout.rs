use vstd::prelude::*;
use crate::record::schema::{
    has_field, info_of, last_index_of, lemma_last_index_of, FieldSpec, Schema, INTEGER,
};

verus! {

/// The bytes that the field at position `i` takes in a record: 8 for an integer,
/// else 4 and the length of the string.
pub open spec fn width_at(fields: Seq<FieldSpec>, i: int) -> int {
    let info = info_of(fields, fields[i].name);
    if info.field_type == INTEGER {
        8
    } else {
        4 + info.length
    }
}

/// The offset in a record of the field at position `i`: the fields follow one
/// another behind a flag of 4 bytes.
pub open spec fn offset_at(fields: Seq<FieldSpec>, i: int) -> int
    decreases i,
{
    if i <= 0 {
        4
    } else {
        offset_at(fields, i - 1) + width_at(fields, i - 1)
    }
}

/// The size of a record: the offset behind its last field.
pub open spec fn slot_size_of(fields: Seq<FieldSpec>) -> int {
    offset_at(fields, fields.len() as int)
}

/// The offset in a record of the field `name`.
pub open spec fn offset_of(fields: Seq<FieldSpec>, name: Seq<char>) -> int {
    offset_at(fields, last_index_of(fields, name))
}

/// A field ends where the next begins, and the last before the end of the
/// record.
pub proof fn lemma_field_fits(fields: Seq<FieldSpec>, i: int)
    requires
        0 <= i < fields.len(),
    ensures
        4 <= offset_at(fields, i),
        offset_at(fields, i) + width_at(fields, i) <= slot_size_of(fields),
{
    lemma_offsets_grow(fields, i + 1, fields.len() as int);
    lemma_offsets_grow(fields, i, i);
}

proof fn lemma_offsets_grow(fields: Seq<FieldSpec>, i: int, j: int)
    requires
        0 <= i <= j,
    ensures
        4 <= offset_at(fields, i) <= offset_at(fields, j),
    decreases j,
{
    if i < j {
        lemma_offsets_grow(fields, i, j - 1);
    } else if i > 0 {
        lemma_offsets_grow(fields, i - 1, i - 1);
    }
}

/// Where each field of a schema lies in a record, and how long a record is.
pub struct Layout {
    schema: Schema,
    offsets: Vec<u64>,
    slot_size: u64,
}

impl Clone for Layout {
    fn clone(&self) -> (res: Self)
        ensures
            res.fields() == self.fields(),
    {
        proof {
            use_type_invariant(self);
        }
        let mut offsets: Vec<u64> = Vec::new();
        let mut i: usize = 0;
        while i < self.offsets.len()
            invariant
                i <= self.offsets@.len(),
                offsets@ == self.offsets@.subrange(0, i as int),
            decreases self.offsets@.len() - i,
        {
            offsets.push(self.offsets[i]);
            i = i + 1;
            assert(offsets@ =~= self.offsets@.subrange(0, i as int));
        }
        assert(offsets@ =~= self.offsets@);
        Layout { schema: self.schema.clone(), offsets, slot_size: self.slot_size }
    }
}

impl Layout {
    #[verifier::type_invariant]
    spec fn consistent(self) -> bool {
        &&& self.offsets@.len() == self.schema@.len()
        &&& forall|i: int|
            0 <= i < self.offsets@.len() ==> #[trigger] self.offsets@[i] == offset_at(self.schema@, i)
        &&& self.slot_size == slot_size_of(self.schema@)
    }

    /// The fields that the layout was made for.
    pub closed spec fn fields(&self) -> Seq<FieldSpec> {
        self.schema@
    }

    /// The layout of the records of `schema`.
    pub fn new(schema: &Schema) -> (layout: Self)
        requires
            slot_size_of(schema@) <= u64::MAX,
        ensures
            layout.fields() == schema@,
    {
        let names = schema.fields();
        let mut offsets: Vec<u64> = Vec::new();
        let mut pos: u64 = 4;
        let mut i: usize = 0;
        while i < names.len()
            invariant
                i <= names@.len(),
                names@.len() == schema@.len(),
                forall|k: int| 0 <= k < names@.len() ==> (#[trigger] names@[k])@ == schema@[k].name,
                offsets@.len() == i,
                forall|k: int| 0 <= k < i ==> #[trigger] offsets@[k] == offset_at(schema@, k),
                pos == offset_at(schema@, i as int),
                slot_size_of(schema@) <= u64::MAX,
            decreases names@.len() - i,
        {
            proof {
                lemma_last_index_of(schema@, names@[i as int]@);
                lemma_offsets_grow(schema@, i + 1, schema@.len() as int);
            }
            offsets.push(pos);
            let field_type = schema.get_type(names[i].as_str());
            if field_type == INTEGER {
                pos = pos + 8;
            } else {
                pos = pos + 4 + schema.length(names[i].as_str());
            }
            i = i + 1;
        }
        Layout { schema: schema.clone(), offsets, slot_size: pos }
    }

    /// A copy of the schema that the layout was made for.
    pub fn schema(&self) -> (schema: Schema)
        ensures
            schema@ == self.fields(),
    {
        self.schema.clone()
    }

    /// Whether the layout has a field `field_name`.
    pub fn has_field(&self, field_name: &str) -> (found: bool)
        ensures
            found == has_field(self.fields(), field_name@),
    {
        self.schema.has_field(field_name)
    }

    /// The offset in a record of the field `field_name`.
    pub fn offset(&self, field_name: &str) -> (offset: u64)
        requires
            has_field(self.fields(), field_name@),
        ensures
            offset == offset_of(self.fields(), field_name@),
    {
        proof {
            use_type_invariant(self);
        }
        match self.schema.find(field_name) {
            Some(i) => self.offsets[i],
            None => 0,
        }
    }

    /// The size of a record.
    pub fn slot_size(&self) -> (size: u64)
        ensures
            size == slot_size_of(self.fields()),
    {
        proof {
            use_type_invariant(self);
        }
        self.slot_size
    }
}

} // verus!
