use plan_codec::expr::{Column, PhysicalExpr};
use plan_codec::plan::{ExecutionPlan, MockExecution, ProjectionExec};
use plan_codec::schema::{ColumnArray, DataType};

#[test]
fn test_mock_execution_schema() {
    let mock = MockExecution::new("mock_input".to_string());
    let schema = mock.schema();
    assert_eq!(3, schema.len());
    assert_eq!("id", schema.fields[0].name);
    assert_eq!(DataType::UInt32, schema.fields[0].data_type);
    assert!(!schema.fields[0].nullable);
    assert_eq!("name", schema.fields[1].name);
    assert_eq!(DataType::Utf8, schema.fields[1].data_type);
    assert_eq!("age", schema.fields[2].name);
    assert_eq!(DataType::UInt32, schema.fields[2].data_type);
}

#[test]
fn test_mock_execution_execute() {
    let mock = MockExecution::new("mock_input".to_string());
    let batch = mock.execute();
    assert_eq!(3, batch.columns.len());
    assert_eq!(ColumnArray::UInt32(vec![1, 2, 3, 4, 5]), batch.columns[0]);
    assert_eq!(
        ColumnArray::Utf8(vec![
            "zhangsan".to_string(),
            "lisi".to_string(),
            "wangwu".to_string(),
            "Tony".to_string(),
            "Mike".to_string(),
        ]),
        batch.columns[1]
    );
    assert_eq!(
        ColumnArray::UInt32(vec![25, 28, 27, 35, 25]),
        batch.columns[2]
    );
    assert_eq!(3, batch.schema.len());
}

#[test]
fn test_projection_schema_is_derived_from_expressions() {
    let mock_input = ExecutionPlan::Mock(MockExecution::new("mock_input".to_string()));
    let projection = ProjectionExec::try_new(
        vec![
            (
                PhysicalExpr::Column(Column::new("name", 1)),
                "person".to_string(),
            ),
            (PhysicalExpr::Column(Column::new("id", 0)), "key".to_string()),
        ],
        mock_input,
    )
    .unwrap();
    let plan = ExecutionPlan::Projection(projection);
    let schema = plan.schema().unwrap();
    assert_eq!(2, schema.len());
    assert_eq!("person", schema.fields[0].name);
    assert_eq!(DataType::Utf8, schema.fields[0].data_type);
    assert_eq!("key", schema.fields[1].name);
    assert_eq!(DataType::UInt32, schema.fields[1].data_type);
}

#[test]
fn test_unregistered_plan_has_no_schema() {
    let plan = ExecutionPlan::Unregistered {
        name: "FilterExec".to_string(),
    };
    assert!(plan.schema().is_none());
}

#[test]
fn test_column_accessors() {
    let column = Column::new("id", 0);
    assert_eq!("id", column.name().as_str());
    assert_eq!(0, column.index());
}
