//! The database: one graph, and one property manager each for node and edge properties.
use vstd::prelude::*;

use crate::availability_manager::max_bits;
use crate::graph::Graph;
use crate::id::{EdgePropertyID, EdgePropertyTypeID, IDIntoUSize, NodePropertyID, NodePropertyTypeID};
use crate::property::PropertyIdentifier;
use crate::property_manager::PropertyManager;
use crate::type_registry::{
    field_conforms, FieldDescriptor, FieldType, PropertyField, PropertyFieldContents, PropertyName,
    PropertyValidationError,
};

verus! {

/// What a node holds as its property: a node property type and a row of it.
pub type NodeProperty = PropertyIdentifier<NodePropertyID, NodePropertyTypeID>;

/// What an edge holds as its property: an edge property type and a row of it.
pub type EdgeProperty = PropertyIdentifier<EdgePropertyID, EdgePropertyTypeID>;

pub struct Database {
    graph: Graph<NodeProperty, EdgeProperty>,
    node_properties: PropertyManager<NodePropertyID, NodePropertyTypeID>,
    edge_properties: PropertyManager<EdgePropertyID, EdgePropertyTypeID>,
}

/// The declared fields of the sample node type: `field1: Integer`, `field2: String`.
pub open spec fn is_sample_type(decl: Seq<FieldDescriptor>) -> bool {
    &&& decl.len() == 2
    &&& decl[0].name.0@ == "field1"@
    &&& decl[0].field_type == FieldType::Integer
    &&& decl[1].name.0@ == "field2"@
    &&& decl[1].field_type == FieldType::String
}

impl Database {
    pub closed spec fn wf(&self) -> bool {
        &&& self.node_properties.wf()
        &&& self.edge_properties.wf()
    }

    /// The node property types registered so far.
    pub closed spec fn node_types(&self) -> Map<nat, Seq<FieldDescriptor>> {
        self.node_properties.types_view()
    }

    pub closed spec fn node_type_count(&self) -> nat {
        self.node_properties.type_count()
    }

    /// Row slots ever allocated for node property type `t`.
    pub closed spec fn node_row_extent(&self, t: nat) -> nat {
        self.node_properties.row_extent(t)
    }

    /// The taken rows of node property type `t`.
    pub closed spec fn node_rows(&self, t: nat) -> Set<nat> {
        self.node_properties.rows(t)
    }

    pub fn new() -> (r: Self)
        ensures
            r.wf(),
            r.node_type_count() == 0,
    {
        Database {
            graph: Graph::new(),
            node_properties: PropertyManager::new(),
            edge_properties: PropertyManager::new(),
        }
    }

    /// Registers the sample node type `test_type` (see `is_sample_type`).
    pub fn import_type(&mut self) -> (r: NodePropertyTypeID)
        requires
            old(self).wf(),
            old(self).node_type_count() + 1 <= max_bits(),
        ensures
            final(self).wf(),
            r.index() == old(self).node_type_count(),
            final(self).node_type_count() == old(self).node_type_count() + 1,
            is_sample_type(final(self).node_types()[r.index()]),
            final(self).node_row_extent(r.index()) == 0,
            forall|t: nat| t != r.index() ==> final(self).node_types().dom().contains(t) == old(self).node_types().dom().contains(t)
                && final(self).node_rows(t) == old(self).node_rows(t) && final(self).node_row_extent(t)
                == old(self).node_row_extent(t),
    {
        proof {
            reveal_strlit("field1");
            reveal_strlit("field2");
        }
        let fields = vec![
            FieldDescriptor {
                name: PropertyName("field1".to_owned()),
                field_type: FieldType::Integer,
                nullable: false,
            },
            FieldDescriptor {
                name: PropertyName("field2".to_owned()),
                field_type: FieldType::String,
                nullable: false,
            },
        ];
        self.node_properties.register_type("test_type".to_owned(), fields)
    }

    /// Stores the sample node property `field1 = 1`, `field2 = "test"` under
    /// node property type `id`, after validating it against that type.
    pub fn add_node_property(&mut self, id: NodePropertyTypeID) -> (r: Result<Option<NodePropertyID>, PropertyValidationError>)
        requires
            old(self).wf(),
            id.index() < old(self).node_type_count(),
            old(self).node_row_extent(id.index()) + 1 <= max_bits(),
        ensures
            final(self).wf(),
            final(self).node_type_count() == old(self).node_type_count(),
            r is Ok <==> is_sample_type(old(self).node_types()[id.index()]),
            r is Ok ==> r->Ok_0 is Some,
            r matches Ok(Some(row)) ==> !old(self).node_rows(id.index()).contains(row.index())
                && final(self).node_rows(id.index()) == old(self).node_rows(id.index()).insert(row.index())
                && row.index() == old(self).node_row_extent(id.index())
                && final(self).node_row_extent(id.index()) == old(self).node_row_extent(id.index()) + 1,
            r is Err ==> final(self).node_rows(id.index()) == old(self).node_rows(id.index())
                && final(self).node_row_extent(id.index()) == old(self).node_row_extent(id.index()),
            forall|t: nat| t != id.index() ==> final(self).node_rows(t) == old(self).node_rows(t)
                && final(self).node_row_extent(t) == old(self).node_row_extent(t),
    {
        proof {
            reveal_strlit("field1");
            reveal_strlit("field2");
        }
        let fields = vec![
            PropertyField {
                name: PropertyName("field1".to_owned()),
                value: PropertyFieldContents::Integer(1),
            },
            PropertyField {
                name: PropertyName("field2".to_owned()),
                value: PropertyFieldContents::String("test".to_owned()),
            },
        ];
        self.node_properties.add_node_property(id, fields.as_slice())
    }
}

} // verus!
