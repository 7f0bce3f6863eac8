use raptor_db::database::Database;
use raptor_db::id::{NodePropertyID, NodePropertyTypeID};
use raptor_db::property_manager::PropertyManager;
use raptor_db::type_registry::{
    FieldDescriptor, FieldType, PropertyField, PropertyFieldContents, PropertyValidationError,
};

fn get_manager() -> PropertyManager<NodePropertyID, NodePropertyTypeID> {
    PropertyManager::<NodePropertyID, NodePropertyTypeID>::new()
}

fn descriptor(name: &str, field_type: FieldType) -> FieldDescriptor {
    FieldDescriptor { name: String::from(name).into(), field_type, nullable: false }
}

fn field(name: &str, value: PropertyFieldContents) -> PropertyField {
    PropertyField { name: String::from(name).into(), value }
}

#[test]
fn database_import_type_test() {
    let mut db = Database::new();
    let id = db.import_type();

    let stored = db.add_node_property(id);
    assert!(stored.is_ok());
}

#[test]
fn property_manager_import_type_test() {
    let mut manager = get_manager();
    let id = manager.register_type(
        "test_type".into(),
        vec![descriptor("field1", FieldType::Integer), descriptor("field2", FieldType::String)],
    );

    let result = manager.add_node_property(
        id,
        &[
            field("field1", PropertyFieldContents::Integer(1)),
            field("field2", PropertyFieldContents::String("test".into())),
        ],
    );

    assert!(result.is_ok());
}

#[test]
fn import_invalid_type_test() {
    let mut manager = get_manager();
    let id = manager.register_type(
        "test_type".into(),
        vec![descriptor("field1", FieldType::Integer), descriptor("field2", FieldType::String)],
    );

    let result = manager.add_node_property(
        id,
        &[field("field1", PropertyFieldContents::Integer(1)), field("field2", PropertyFieldContents::Integer(1))],
    );

    assert!(matches!(
        result,
        Err(PropertyValidationError::InvalidFieldType(FieldType::String, FieldType::Integer))
    ));
}

#[test]
fn import_invalid_field_count_test() {
    let mut manager = get_manager();
    let id = manager.register_type(
        "count_test".into(),
        vec![
            descriptor("a", FieldType::Integer),
            descriptor("b", FieldType::String),
            descriptor("c", FieldType::Boolean),
        ],
    );

    let result = manager.add_node_property(
        id,
        &[field("a", PropertyFieldContents::Integer(1)), field("b", PropertyFieldContents::String("x".into()))],
    );

    assert!(matches!(result, Err(PropertyValidationError::InvalidFieldAmmount(3, 2))));
}

#[test]
fn import_invalid_field_name_test() {
    let mut manager = get_manager();
    let id = manager.register_type(
        "name_test".into(),
        vec![descriptor("field1", FieldType::Integer), descriptor("field2", FieldType::String)],
    );

    let result = manager.add_node_property(
        id,
        &[
            field("field1", PropertyFieldContents::Integer(1)),
            field("wrong_name", PropertyFieldContents::String("test".into())),
        ],
    );

    assert!(matches!(
        result,
        Err(PropertyValidationError::InvalidFieldName(expected, provided))
        if expected.to_string() == "field2" && provided.to_string() == "wrong_name"
    ));
}

#[test]
fn validation_reports_first_mismatch_in_declaration_order() {
    let mut manager = get_manager();
    let id = manager.register_type(
        "pair".into(),
        vec![descriptor("a", FieldType::Integer), descriptor("b", FieldType::String)],
    );

    let wrong_type = manager.add_node_property(
        id,
        &[field("a", PropertyFieldContents::Integer(1)), field("b", PropertyFieldContents::Integer(7))],
    );
    assert!(matches!(
        wrong_type,
        Err(PropertyValidationError::InvalidFieldType(FieldType::String, FieldType::Integer))
    ));

    let wrong_name = manager.add_node_property(
        id,
        &[
            field("a", PropertyFieldContents::Integer(1)),
            field("wrong_name", PropertyFieldContents::String("x".into())),
        ],
    );
    assert!(matches!(
        wrong_name,
        Err(PropertyValidationError::InvalidFieldName(expected, provided))
        if expected.to_string() == "b" && provided.to_string() == "wrong_name"
    ));

    let both_wrong = manager.add_node_property(
        id,
        &[field("x", PropertyFieldContents::Boolean(true)), field("y", PropertyFieldContents::Boolean(true))],
    );
    assert!(matches!(
        both_wrong,
        Err(PropertyValidationError::InvalidFieldName(expected, provided))
        if expected.to_string() == "a" && provided.to_string() == "x"
    ));

    let too_many = manager.add_node_property(
        id,
        &[
            field("a", PropertyFieldContents::Integer(1)),
            field("b", PropertyFieldContents::String("x".into())),
            field("c", PropertyFieldContents::Integer(2)),
        ],
    );
    assert!(matches!(too_many, Err(PropertyValidationError::InvalidFieldAmmount(2, 3))));
}

#[test]
fn stored_properties_get_consecutive_rows() {
    let mut manager = get_manager();
    let first_type = manager.register_type("empty".into(), vec![]);
    let id = manager.register_type(
        "point".into(),
        vec![descriptor("x", FieldType::Float), descriptor("visible", FieldType::Boolean)],
    );
    assert_eq!(first_type, NodePropertyTypeID(0));
    assert_eq!(id, NodePropertyTypeID(1));

    let row = |manager: &mut PropertyManager<NodePropertyID, NodePropertyTypeID>, x: f64| {
        manager.add_node_property(
            id,
            &[field("x", PropertyFieldContents::Float(x.to_bits())), field("visible", PropertyFieldContents::Boolean(true))],
        )
    };
    assert!(matches!(row(&mut manager, 1.5), Ok(Some(NodePropertyID(0)))));
    assert!(matches!(row(&mut manager, -2.0), Ok(Some(NodePropertyID(1)))));
    assert!(matches!(manager.add_node_property(first_type, &[]), Ok(None)));

    let wrong = manager.add_node_property(
        id,
        &[field("x", PropertyFieldContents::Integer(3)), field("visible", PropertyFieldContents::Boolean(true))],
    );
    assert!(matches!(wrong, Err(PropertyValidationError::InvalidFieldType(FieldType::Float, FieldType::Integer))));
    assert!(matches!(row(&mut manager, 0.0), Ok(Some(NodePropertyID(2)))));
}
