//! A type registry and a property store kept in step: types are registered in
//! both, and a property is stored only after it validates against its type.
use vstd::prelude::*;

use crate::availability_manager::max_bits;
use crate::id::IDIntoUSize;
use crate::property::{with_row, PropertyStore};
use crate::type_registry::{
    validation_matches, FieldDescriptor, PropertyField, PropertyFieldContents,
    PropertyValidationError, TypeRegistry,
};

verus! {

pub struct PropertyManager<PropertyId, PropertyTypeId> {
    type_registry: TypeRegistry<PropertyTypeId>,
    property_store: PropertyStore<PropertyId, PropertyTypeId>,
}

impl<PropertyId: IDIntoUSize, PropertyTypeId: IDIntoUSize> PropertyManager<PropertyId, PropertyTypeId> {
    /// The declared fields of each registered type, by type index.
    pub closed spec fn types_view(&self) -> Map<nat, Seq<FieldDescriptor>> {
        self.type_registry.types_view()
    }

    /// The stored columns of each registered type.
    pub closed spec fn columns(&self) -> Map<nat, Seq<Map<nat, PropertyFieldContents>>> {
        self.property_store.columns()
    }

    /// The taken rows of type `t`.
    pub closed spec fn rows(&self, t: nat) -> Set<nat> {
        self.property_store.rows(t)
    }

    /// Row slots ever allocated for type `t`.
    pub closed spec fn row_extent(&self, t: nat) -> nat {
        self.property_store.row_extent(t)
    }

    /// The number of registered types; their indices are `0..type_count()`.
    pub closed spec fn type_count(&self) -> nat {
        self.type_registry.type_count()
    }

    pub closed spec fn wf(&self) -> bool {
        &&& self.type_registry.wf()
        &&& self.property_store.wf()
        &&& self.type_registry.type_count() == self.property_store.type_count()
        &&& forall|t: nat| t < self.type_count() ==> #[trigger] self.columns()[t].len() == 0
            || self.columns()[t].len() == self.types_view()[t].len()
    }

    /// All columns of a registered type hold the same rows, exactly `0..row_extent(t)`.
    pub proof fn lemma_rows(&self, t: nat)
        requires
            self.wf(),
            t < self.type_count(),
        ensures
            forall|c: int| 0 <= c < self.columns()[t].len() ==> (#[trigger] self.columns()[t][c]).dom() == self.rows(t),
            forall|i: nat| #[trigger] self.rows(t).contains(i) <==> i < self.row_extent(t),
            self.rows(t).finite(),
            self.rows(t).len() == self.row_extent(t),
    {
        self.property_store.lemma_rows(t);
    }

    pub fn new() -> (r: Self)
        ensures
            r.wf(),
            r.type_count() == 0,
    {
        PropertyManager { type_registry: TypeRegistry::new(), property_store: PropertyStore::new() }
    }

    /// Registers a type under the next type index; it has no properties yet.
    pub fn register_type(&mut self, name: String, fields: Vec<FieldDescriptor>) -> (r: PropertyTypeId)
        requires
            old(self).wf(),
            old(self).type_count() + 1 <= max_bits(),
        ensures
            final(self).wf(),
            r.index() == old(self).type_count(),
            final(self).type_count() == old(self).type_count() + 1,
            final(self).types_view() == old(self).types_view().insert(r.index(), fields@),
            final(self).rows(r.index()) == Set::<nat>::empty(),
            final(self).row_extent(r.index()) == 0,
            forall|t: nat| t != r.index() ==> final(self).rows(t) == old(self).rows(t) && final(self).row_extent(t)
                == old(self).row_extent(t),
    {
        let ghost old_self = *self;
        let ghost declared = fields@;
        proof {
            self.type_registry.lemma_types_dom();
            self.property_store.lemma_types_dom();
        }
        let registered = self.type_registry.add_type(name, fields);
        let descriptor = self.type_registry.get_type(registered);
        let id = self.property_store.add_type(descriptor);
        proof {
            self.type_registry.lemma_types_dom();
            assert forall|t: nat| t < self.type_count() implies #[trigger] self.columns()[t].len() == 0
                || self.columns()[t].len() == self.types_view()[t].len() by {
                if t != id.index() {
                    assert(old_self.columns()[t] == self.columns()[t]);
                    assert(old_self.types_view()[t] == self.types_view()[t]);
                }
            }
        }
        id
    }

    /// Validates `field_contents` against registered type `id` and, only if it
    /// conforms, stores it as a new row of that type.
    pub fn add_node_property(&mut self, id: PropertyTypeId, field_contents: &[PropertyField]) -> (r: Result<Option<PropertyId>, PropertyValidationError>)
        requires
            old(self).wf(),
            id.index() < old(self).type_count(),
            old(self).row_extent(id.index()) + 1 <= max_bits(),
        ensures
            final(self).wf(),
            final(self).type_count() == old(self).type_count(),
            final(self).types_view() == old(self).types_view(),
            validation_matches(old(self).types_view()[id.index()], field_contents@, match r {
                Ok(_) => Ok(()),
                Err(e) => Err(e),
            }),
            r is Err ==> final(self).columns() == old(self).columns() && forall|t: nat|
                final(self).rows(t) == old(self).rows(t) && final(self).row_extent(t) == old(self).row_extent(t),
            forall|t: nat| t != id.index() ==> final(self).rows(t) == old(self).rows(t) && final(self).row_extent(t)
                == old(self).row_extent(t),
            forall|c: int|
                0 <= c < final(self).columns()[id.index()].len() ==> (#[trigger] final(self).columns()[id.index()][c]).dom()
                    == final(self).rows(id.index()),
            match r {
                Ok(None) => field_contents@.len() == 0 && final(self).columns() == old(self).columns()
                    && final(self).row_extent(id.index()) == old(self).row_extent(id.index()),
                Ok(Some(row)) => {
                    &&& row.index() == old(self).row_extent(id.index())
                    &&& final(self).row_extent(id.index()) == old(self).row_extent(id.index()) + 1
                    &&& final(self).columns()[id.index()].len() == field_contents@.len()
                    &&& !old(self).rows(id.index()).contains(row.index())
                    &&& forall|j: nat| j < row.index() ==> old(self).rows(id.index()).contains(j)
                    &&& final(self).rows(id.index()) == old(self).rows(id.index()).insert(row.index())
                    &&& final(self).columns() == old(self).columns().insert(
                        id.index(),
                        with_row(old(self).columns()[id.index()], row.index(), field_contents@),
                    )
                },
                Err(_) => true,
            },
    {
        proof {
            self.type_registry.lemma_types_dom();
            self.property_store.lemma_types_dom();
        }
        let validated = match self.type_registry.validate_property(id, field_contents) {
            Ok(v) => v,
            Err(e) => {
                proof {
                    self.lemma_rows(id.index());
                }
                return Err(e);
            },
        };
        let ghost old_self = *self;
        assert(validated.field_seq().len() == self.types_view()[id.index()].len());
        assert(self.columns()[id.index()].len() == 0 || self.columns()[id.index()].len() == self.types_view()[id.index()].len());
        let row = self.property_store.add_property(id, &validated);
        proof {
            self.property_store.lemma_types_dom();
            assert forall|t: nat| t < self.type_count() implies #[trigger] self.columns()[t].len() == 0
                || self.columns()[t].len() == self.types_view()[t].len() by {
                if t != id.index() {
                    assert(old_self.columns()[t] == self.columns()[t]);
                } else if row is Some {
                    assert(self.columns()[t].len() == field_contents@.len());
                }
            }
        }
        Ok(row)
    }
}

} // verus!
