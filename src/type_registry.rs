//! The schema catalogue: registered property types, each an ordered list of
//! field descriptors, and validation of submitted properties against them.
use vstd::prelude::*;

use crate::availability_manager::max_bits;
use crate::id::IDIntoUSize;
use crate::store::Store;

verus! {

/// The closed set of field types.
#[derive(PartialEq, Eq, Structural, Clone, Copy, Debug)]
pub enum FieldType {
    Integer,
    Float,
    String,
    Boolean,
}

/// The value of one field. A float is held as its IEEE-754 bit pattern
/// (`f64::to_bits`), which is all this library stores or compares of it.
#[derive(Clone, Debug)]
pub enum PropertyFieldContents {
    Integer(i64),
    Float(u64),
    String(String),
    Boolean(bool),
}

/// The type of a field value.
pub open spec fn value_type(v: PropertyFieldContents) -> FieldType {
    match v {
        PropertyFieldContents::Integer(_) => FieldType::Integer,
        PropertyFieldContents::Float(_) => FieldType::Float,
        PropertyFieldContents::String(_) => FieldType::String,
        PropertyFieldContents::Boolean(_) => FieldType::Boolean,
    }
}

/// A copy of a field value.
pub fn copy_contents(v: &PropertyFieldContents) -> (r: PropertyFieldContents)
    ensures
        r == *v,
{
    match v {
        PropertyFieldContents::Integer(i) => PropertyFieldContents::Integer(*i),
        PropertyFieldContents::Float(bits) => PropertyFieldContents::Float(*bits),
        PropertyFieldContents::String(s) => PropertyFieldContents::String(s.clone()),
        PropertyFieldContents::Boolean(b) => PropertyFieldContents::Boolean(*b),
    }
}

/// The name of a field.
#[derive(Clone, Debug)]
pub struct PropertyName(pub String);

impl PropertyName {
    /// The name as a string.
    pub fn to_string(&self) -> (r: String)
        ensures
            r@ == self.0@,
    {
        self.0.clone()
    }
}

impl From<String> for PropertyName {
    fn from(name: String) -> (r: PropertyName) {
        PropertyName(name)
    }
}

impl vstd::std_specs::convert::FromSpecImpl<String> for PropertyName {
    open spec fn obeys_from_spec() -> bool {
        true
    }

    open spec fn from_spec(name: String) -> PropertyName {
        PropertyName(name)
    }
}

/// One submitted field: its name and value.
pub struct PropertyField {
    pub name: PropertyName,
    pub value: PropertyFieldContents,
}

/// One declared field of a property type.
pub struct FieldDescriptor {
    pub name: PropertyName,
    pub field_type: FieldType,
    pub nullable: bool,
}

/// A registered property type: its identifier and its fields, in order.
pub struct TypeDescriptor<TypeId> {
    id: TypeId,
    fields: Vec<FieldDescriptor>,
}

impl<TypeId> TypeDescriptor<TypeId> {
    pub closed spec fn field_seq(&self) -> Seq<FieldDescriptor> {
        self.fields@
    }

    pub closed spec fn type_id(&self) -> TypeId {
        self.id
    }

    pub fn field_count(&self) -> (r: usize)
        ensures
            r == self.field_seq().len(),
    {
        self.fields.len()
    }
}

/// Field `f` is what descriptor `d` declares: same name, value of the declared type.
pub open spec fn field_conforms(d: FieldDescriptor, f: PropertyField) -> bool {
    d.name.0@ == f.name.0@ && d.field_type == value_type(f.value)
}

/// Position `i` is the first where `fields` departs from `decl`.
pub open spec fn first_mismatch(decl: Seq<FieldDescriptor>, fields: Seq<PropertyField>, i: int) -> bool {
    &&& 0 <= i < decl.len()
    &&& i < fields.len()
    &&& !field_conforms(decl[i], fields[i])
    &&& forall|j: int| 0 <= j < i ==> field_conforms(#[trigger] decl[j], fields[j])
}

/// Why a submitted property does not fit its type.
#[derive(Debug)]
pub enum PropertyValidationError {
    /// Declared name, submitted name.
    InvalidFieldName(PropertyName, PropertyName),
    /// Declared type, submitted type.
    InvalidFieldType(FieldType, FieldType),
    /// Declared field count, submitted field count.
    InvalidFieldAmmount(usize, usize),
}

/// The outcome that validating `fields` against `decl` must have: a count
/// mismatch first, then the first field whose name or type differs, else success.
pub open spec fn validation_matches(
    decl: Seq<FieldDescriptor>,
    fields: Seq<PropertyField>,
    r: Result<(), PropertyValidationError>,
) -> bool {
    match r {
        Ok(()) => fields.len() == decl.len() && forall|i: int|
            0 <= i < decl.len() ==> field_conforms(#[trigger] decl[i], fields[i]),
        Err(PropertyValidationError::InvalidFieldAmmount(expected, provided)) => {
            &&& fields.len() != decl.len()
            &&& expected == decl.len()
            &&& provided == fields.len()
        },
        Err(PropertyValidationError::InvalidFieldName(expected, provided)) => {
            &&& fields.len() == decl.len()
            &&& exists|i: int| #[trigger] first_mismatch(decl, fields, i) && decl[i].name.0@ != fields[i].name.0@
                && expected.0@ == decl[i].name.0@ && provided.0@ == fields[i].name.0@
        },
        Err(PropertyValidationError::InvalidFieldType(expected, provided)) => {
            &&& fields.len() == decl.len()
            &&& exists|i: int| #[trigger] first_mismatch(decl, fields, i) && decl[i].name.0@ == fields[i].name.0@
                && expected == decl[i].field_type && provided == value_type(fields[i].value)
        },
    }
}

/// A property that has passed validation against its type.
pub struct ValidatedProperty<'a> {
    fields: &'a [PropertyField],
}

impl<'a> ValidatedProperty<'a> {
    pub closed spec fn field_seq(&self) -> Seq<PropertyField> {
        self.fields@
    }

    /// Checks `fields` against the declared fields `decl`, field by field in
    /// declaration order; the first mismatch is reported.
    fn new(decl: &Vec<FieldDescriptor>, fields: &'a [PropertyField]) -> (r: Result<Self, PropertyValidationError>)
        ensures
            validation_matches(decl@, fields@, match r {
                Ok(_) => Ok(()),
                Err(e) => Err(e),
            }),
            r is Ok ==> r->Ok_0.field_seq() == fields@,
    {
        if fields.len() != decl.len() {
            return Err(PropertyValidationError::InvalidFieldAmmount(decl.len(), fields.len()));
        }
        let mut idx: usize = 0;
        while idx < fields.len()
            invariant
                fields@.len() == decl@.len(),
                idx <= fields@.len(),
                forall|j: int| 0 <= j < idx ==> field_conforms(#[trigger] decl@[j], fields@[j]),
            decreases fields@.len() - idx,
        {
            let field = &fields[idx];
            let declared = &decl[idx];
            if field.name.0 != declared.name.0 {
                assert(first_mismatch(decl@, fields@, idx as int));
                return Err(
                    PropertyValidationError::InvalidFieldName(
                        PropertyName(declared.name.0.clone()),
                        PropertyName(field.name.0.clone()),
                    ),
                );
            }
            let provided = match &field.value {
                PropertyFieldContents::Integer(_) => FieldType::Integer,
                PropertyFieldContents::Float(_) => FieldType::Float,
                PropertyFieldContents::String(_) => FieldType::String,
                PropertyFieldContents::Boolean(_) => FieldType::Boolean,
            };
            if declared.field_type != provided {
                assert(first_mismatch(decl@, fields@, idx as int));
                return Err(PropertyValidationError::InvalidFieldType(declared.field_type, provided));
            }
            idx = idx + 1;
        }
        Ok(ValidatedProperty { fields })
    }

    /// The validated fields, in declaration order.
    pub fn fields(&self) -> (r: &'a [PropertyField])
        ensures
            r@ == self.field_seq(),
    {
        self.fields
    }
}

/// The registered property types, addressed by identifiers of type `TypeId`.
/// Types are never removed, and a type's field list never changes.
pub struct TypeRegistry<TypeId> {
    types: Store<TypeDescriptor<TypeId>, TypeId>,
    names: Vec<String>,
}

impl<TypeId: IDIntoUSize> TypeRegistry<TypeId> {
    /// The declared fields of each registered type, by type index.
    pub closed spec fn types_view(&self) -> Map<nat, Seq<FieldDescriptor>> {
        self.types@.map_values(|d: TypeDescriptor<TypeId>| d.field_seq())
    }

    /// The names of the registered types, in registration order.
    pub closed spec fn names_view(&self) -> Seq<Seq<char>> {
        self.names@.map_values(|s: String| s@)
    }

    pub closed spec fn wf(&self) -> bool {
        &&& self.types.wf()
        &&& self.types.extent() == self.names@.len()
        &&& forall|i: nat| i < self.types.extent() ==> #[trigger] self.types@.dom().contains(i)
        &&& forall|i: nat| #[trigger] self.types@.dom().contains(i) ==> self.types@[i].type_id().index() == i
    }

    /// The number of registered types.
    pub open spec fn type_count(&self) -> nat {
        self.names_view().len()
    }

    pub proof fn lemma_types_dom(&self)
        requires
            self.wf(),
        ensures
            forall|i: nat| #[trigger] self.types_view().dom().contains(i) <==> i < self.type_count(),
    {
        self.types.lemma_wf();
    }

    pub fn new() -> (r: Self)
        ensures
            r.wf(),
            r.types_view() == Map::<nat, Seq<FieldDescriptor>>::empty(),
            r.names_view() == Seq::<Seq<char>>::empty(),
    {
        let r = TypeRegistry { types: Store::new(), names: Vec::new() };
        assert(r.types_view() =~= Map::<nat, Seq<FieldDescriptor>>::empty());
        assert(r.names_view() =~= Seq::<Seq<char>>::empty());
        r
    }

    /// Registers a type under `name`; it gets the next type index.
    pub fn add_type(&mut self, name: String, fields: Vec<FieldDescriptor>) -> (r: TypeId)
        requires
            old(self).wf(),
            old(self).type_count() + 1 <= max_bits(),
        ensures
            final(self).wf(),
            r.index() == old(self).type_count(),
            final(self).types_view() == old(self).types_view().insert(r.index(), fields@),
            final(self).names_view() == old(self).names_view().push(name@),
    {
        let ghost old_self = *self;
        let ghost old_fields = fields@;
        proof {
            self.types.lemma_wf();
        }
        let id = TypeId::from_usize(self.names.len());
        let id_copy = id;
        let descriptor = TypeDescriptor { id, fields };
        let slot = self.types.add(descriptor);
        self.names.push(name);
        proof {
            assert(slot.index() == old_self.types.extent()) by {
                if slot.index() < old_self.types.extent() {
                    assert(old_self.types@.dom().contains(slot.index()));
                }
            }
            TypeId::lemma_index_injective(slot, id_copy);
            assert(self.types_view() =~= old_self.types_view().insert(slot.index(), old_fields));
            assert(self.names_view() =~= old_self.names_view().push(name@));
        }
        slot
    }

    /// The declared fields of a registered type.
    pub fn get_type(&self, id: TypeId) -> (r: &TypeDescriptor<TypeId>)
        requires
            self.wf(),
            self.types_view().dom().contains(id.index()),
        ensures
            r.field_seq() == self.types_view()[id.index()],
            r.type_id() == id,
    {
        let r = self.types.get(id);
        proof {
            TypeId::lemma_index_injective(r.type_id(), id);
        }
        r
    }

    /// Checks a submitted property against registered type `id`.
    pub fn validate_property<'a>(&self, id: TypeId, fields: &'a [PropertyField]) -> (r: Result<ValidatedProperty<'a>, PropertyValidationError>)
        requires
            self.wf(),
            self.types_view().dom().contains(id.index()),
        ensures
            validation_matches(self.types_view()[id.index()], fields@, match r {
                Ok(_) => Ok(()),
                Err(e) => Err(e),
            }),
            r is Ok ==> r->Ok_0.field_seq() == fields@,
    {
        let descriptor = self.get_type(id);
        ValidatedProperty::new(&descriptor.fields, fields)
    }
}

} // verus!
