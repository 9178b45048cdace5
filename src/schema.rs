use vstd::prelude::*;

use crate::strmap::StrMap;

verus! {

/// Where the values of a field are stored.
#[derive(Clone, Copy, Debug, PartialEq, Eq, Structural)]
pub enum StorageClass {
    Default,
    Blob,
}

/// One field of a schema. Nested fields name their parent by `parent_id`
/// (`-1` for a top-level field).
#[derive(Clone, Debug)]
pub struct Field {
    pub name: String,
    pub id: i32,
    pub parent_id: i32,
    pub logical_type: String,
    pub nullable: bool,
    pub storage_class: StorageClass,
    pub metadata: StrMap,
}

pub ghost struct FieldView {
    pub name: Seq<char>,
    pub id: i32,
    pub parent_id: i32,
    pub logical_type: Seq<char>,
    pub nullable: bool,
    pub storage_class: StorageClass,
    pub metadata: Seq<(Seq<char>, Seq<char>)>,
}

impl View for Field {
    type V = FieldView;

    open spec fn view(&self) -> FieldView {
        FieldView {
            name: self.name@,
            id: self.id,
            parent_id: self.parent_id,
            logical_type: self.logical_type@,
            nullable: self.nullable,
            storage_class: self.storage_class,
            metadata: self.metadata.entry_views(),
        }
    }
}

impl Field {
    pub open spec fn wf(&self) -> bool {
        self.metadata.wf()
    }

    /// An independent copy of the field.
    pub fn duplicate(&self) -> (r: Field)
        ensures
            r@ == self@,
            r.wf() == self.wf(),
    {
        Field {
            name: self.name.clone(),
            id: self.id,
            parent_id: self.parent_id,
            logical_type: self.logical_type.clone(),
            nullable: self.nullable,
            storage_class: self.storage_class,
            metadata: self.metadata.duplicate(),
        }
    }
}

/// The views of a list of fields.
pub open spec fn field_views(fs: Seq<Field>) -> Seq<FieldView> {
    fs.map_values(|f: Field| f@)
}

/// A schema: its fields in order (parents before children) and its metadata.
#[derive(Clone, Debug)]
pub struct Schema {
    pub fields: Vec<Field>,
    pub metadata: StrMap,
}

pub ghost struct SchemaView {
    pub fields: Seq<FieldView>,
    pub metadata: Seq<(Seq<char>, Seq<char>)>,
}

/// The fields of `fs` whose storage class is `class`, in order.
pub open spec fn retain_class(fs: Seq<FieldView>, class: StorageClass) -> Seq<FieldView> {
    fs.filter(|f: FieldView| f.storage_class == class)
}

/// The largest id among `fs`, or `None` where there is none.
pub open spec fn max_id_of(fs: Seq<FieldView>) -> Option<i32>
    decreases fs.len(),
{
    if fs.len() == 0 {
        None
    } else {
        match max_id_of(fs.drop_last()) {
            None => Some(fs.last().id),
            Some(m) => Some(if m >= fs.last().id { m } else { fs.last().id }),
        }
    }
}

impl SchemaView {
    pub open spec fn retain(self, class: StorageClass) -> SchemaView {
        SchemaView { fields: retain_class(self.fields, class), metadata: self.metadata }
    }
}

impl View for Schema {
    type V = SchemaView;

    open spec fn view(&self) -> SchemaView {
        SchemaView { fields: field_views(self.fields@), metadata: self.metadata.entry_views() }
    }
}

impl Schema {
    pub open spec fn wf(&self) -> bool {
        &&& self.metadata.wf()
        &&& forall|i: int| 0 <= i < self.fields@.len() ==> (#[trigger] self.fields@[i]).wf()
    }

    /// An independent copy of the schema.
    pub fn duplicate(&self) -> (r: Schema)
        requires
            self.wf(),
        ensures
            r@ == self@,
            r.wf(),
    {
        let mut fields: Vec<Field> = Vec::new();
        let mut i: usize = 0;
        while i < self.fields.len()
            invariant
                self.wf(),
                i <= self.fields.len(),
                fields@.len() == i,
                forall|a: int| 0 <= a < i ==> (#[trigger] fields@[a])@ == self.fields@[a]@ && fields@[a].wf(),
            decreases self.fields.len() - i,
        {
            fields.push(self.fields[i].duplicate());
            i = i + 1;
        }
        let r = Schema { fields, metadata: self.metadata.duplicate() };
        assert(field_views(r.fields@) =~= field_views(self.fields@));
        r
    }

    /// The largest field id of the schema, `None` for a schema without fields.
    pub fn max_field_id(&self) -> (r: Option<i32>)
        ensures
            r == max_id_of(self@.fields),
    {
        let mut best: Option<i32> = None;
        let mut i: usize = 0;
        while i < self.fields.len()
            invariant
                i <= self.fields.len(),
                best == max_id_of(field_views(self.fields@).subrange(0, i as int)),
            decreases self.fields.len() - i,
        {
            let ghost pre = field_views(self.fields@).subrange(0, i as int);
            let id = self.fields[i].id;
            best = match best {
                None => Some(id),
                Some(m) => Some(if m >= id { m } else { id }),
            };
            proof {
                let next = field_views(self.fields@).subrange(0, i as int + 1);
                assert(next.drop_last() =~= pre);
            }
            i = i + 1;
        }
        assert(field_views(self.fields@).subrange(0, i as int) =~= field_views(self.fields@));
        best
    }

    /// The schema restricted to the fields of storage class `class`.
    pub fn retain_storage_class(&self, class: StorageClass) -> (r: Schema)
        requires
            self.wf(),
        ensures
            r@ == self@.retain(class),
            r.wf(),
    {
        let ghost keep = |f: FieldView| f.storage_class == class;
        let mut fields: Vec<Field> = Vec::new();
        let mut i: usize = 0;
        while i < self.fields.len()
            invariant
                self.wf(),
                i <= self.fields.len(),
                keep == (|f: FieldView| f.storage_class == class),
                field_views(fields@) == field_views(self.fields@).subrange(0, i as int).filter(keep),
                forall|a: int| 0 <= a < fields@.len() ==> (#[trigger] fields@[a]).wf(),
            decreases self.fields.len() - i,
        {
            let ghost pre = field_views(self.fields@).subrange(0, i as int);
            let ghost next = field_views(self.fields@).subrange(0, i as int + 1);
            proof {
                reveal(Seq::filter);
                assert(next.drop_last() =~= pre);
                assert(next.last() == self.fields@[i as int]@);
            }
            if self.fields[i].storage_class == class {
                let ghost before = fields@;
                let f = self.fields[i].duplicate();
                fields.push(f);
                proof {
                    reveal(Seq::filter);
                    assert(field_views(fields@) =~= field_views(before).push(f@));
                }
            }
            proof {
                reveal(Seq::filter);
            }
            i = i + 1;
        }
        assert(field_views(self.fields@).subrange(0, i as int) =~= field_views(self.fields@));
        Schema { fields, metadata: self.metadata.duplicate() }
    }

    /// Replaces the metadata of the field with id `id`; `false` where no field has it.
    pub fn set_field_metadata(&mut self, id: i32, metadata: StrMap) -> (found: bool)
        requires
            old(self).wf(),
            metadata.wf(),
        ensures
            final(self).wf(),
            found == exists|i: int| 0 <= i < old(self).fields@.len() && (#[trigger] old(self).fields@[i]).id == id,
            !found ==> *final(self) == *old(self),
            found ==> exists|i: int| #![trigger old(self).fields@[i]]
                0 <= i < old(self).fields@.len() && old(self).fields@[i].id == id
                && final(self)@ == (SchemaView {
                    fields: old(self)@.fields.update(i, FieldView { metadata: metadata.entry_views(), ..old(self)@.fields[i] }),
                    metadata: old(self)@.metadata,
                }),
    {
        let mut i: usize = 0;
        while i < self.fields.len()
            invariant
                i <= self.fields.len(),
                self == old(self),
                old(self).wf(),
                metadata.wf(),
                forall|a: int| 0 <= a < i ==> (#[trigger] self.fields@[a]).id != id,
            decreases self.fields.len() - i,
        {
            if self.fields[i].id == id {
                let ghost before = self.fields@;
                let mut f = self.fields[i].duplicate();
                f.metadata = metadata;
                self.fields.set(i, f);
                proof {
                    assert(field_views(self.fields@) =~= old(self)@.fields.update(i as int, FieldView { metadata: f.metadata.entry_views(), ..old(self)@.fields[i as int] }));
                    assert(old(self).fields@[i as int].id == id);
                    assert forall|a: int| 0 <= a < self.fields@.len() implies (#[trigger] self.fields@[a]).wf() by {
                        if a != i {
                            assert(self.fields@[a] == old(self).fields@[a]);
                        }
                    }
                }
                return true;
            }
            i = i + 1;
        }
        false
    }
}

} // verus!
