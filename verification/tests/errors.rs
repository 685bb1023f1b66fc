use plan_codec::error::Error;
use plan_codec::expr::{Column, ColumnExprNode, ExprType, PhysicalExpr, PhysicalExprNode};
use plan_codec::expr::{parse_df_physical_expr, parse_grpc_physical_expr};
use plan_codec::plan::{ExecutionPlan, MockExecution, ProjectionExec};
use plan_codec::wire::{MockInputExecNode, PhysicalPlanNode, PhysicalPlanType, ProjectionExecNode};

#[test]
fn test_unsupported_plan_type_is_rejected_on_encode() {
    let plan = ExecutionPlan::Unregistered {
        name: "FilterExec".to_string(),
    };
    let err = PhysicalPlanNode::try_from_physical_plan(&plan).unwrap_err();
    match err {
        Error::UnsupportedDfPlan { name } => assert_eq!("FilterExec", name),
        other => panic!("expected UnsupportedDfPlan, got {:?}", other),
    }
}

#[test]
fn test_unsupported_plan_type_is_rejected_by_the_envelope() {
    // The byte envelope surfaces the encoding failure unchanged.
    let plan = ExecutionPlan::Unregistered {
        name: "WindowAggExec".to_string(),
    };
    let err = plan_codec::envelope::DefaultAsPlanImpl::try_from_physical_plan(&plan).unwrap_err();
    assert!(matches!(err, Error::UnsupportedDfPlan { .. }));
}

#[test]
fn test_missing_input_field_is_rejected_on_decode() {
    let wire = PhysicalPlanNode {
        physical_plan_type: Some(PhysicalPlanType::Projection(Box::new(ProjectionExecNode {
            input: None,
            expr: vec![],
            expr_name: vec![],
        }))),
    };
    let err = wire.try_into_physical_plan().unwrap_err();
    match err {
        Error::MissingField { field } => assert_eq!("input", field),
        other => panic!("expected MissingField, got {:?}", other),
    }
}

#[test]
fn test_empty_plan_is_rejected_on_decode() {
    let wire = PhysicalPlanNode {
        physical_plan_type: None,
    };
    let err = wire.try_into_physical_plan().unwrap_err();
    assert!(matches!(err, Error::EmptyPhysicalPlan { .. }));
}

#[test]
fn test_unsupported_expression_is_rejected_on_encode() {
    let expr = PhysicalExpr::Unregistered {
        name: "CastExpr".to_string(),
    };
    let err = parse_df_physical_expr(&expr).unwrap_err();
    match err {
        Error::UnsupportedExpr { name } => assert_eq!("CastExpr", name),
        other => panic!("expected UnsupportedExpr, got {:?}", other),
    }
}

#[test]
fn test_empty_expression_is_rejected_on_decode() {
    let node = PhysicalExprNode { expr_type: None };
    let err = parse_grpc_physical_expr(&node).unwrap_err();
    assert!(matches!(err, Error::UnsupportedExpr { .. }));
}

#[test]
fn test_projection_constructor_rejects_out_of_range_column() {
    // The mock scan produces three columns; position 5 does not exist.
    let mock_input = ExecutionPlan::Mock(MockExecution::new("mock_input".to_string()));
    let column = PhysicalExpr::Column(Column::new("id", 5));
    let err = ProjectionExec::try_new(vec![(column, "id".to_string())], mock_input).unwrap_err();
    assert!(matches!(err, Error::NewProjection));
}

#[test]
fn test_decode_rejects_out_of_range_column() {
    let wire = PhysicalPlanNode {
        physical_plan_type: Some(PhysicalPlanType::Projection(Box::new(ProjectionExecNode {
            input: Some(Box::new(PhysicalPlanNode {
                physical_plan_type: Some(PhysicalPlanType::Mock(MockInputExecNode {
                    name: "mock_input".to_string(),
                })),
            })),
            expr: vec![PhysicalExprNode {
                expr_type: Some(ExprType::Column(ColumnExprNode {
                    name: "id".to_string(),
                    index: 5,
                })),
            }],
            expr_name: vec!["id".to_string()],
        }))),
    };
    let err = wire.try_into_physical_plan().unwrap_err();
    assert!(matches!(err, Error::NewProjection));
}

#[test]
fn test_decode_propagates_child_errors() {
    // A projection over an empty child fails with the child's error, not a
    // projection error of its own.
    let wire = PhysicalPlanNode {
        physical_plan_type: Some(PhysicalPlanType::Projection(Box::new(ProjectionExecNode {
            input: Some(Box::new(PhysicalPlanNode {
                physical_plan_type: None,
            })),
            expr: vec![],
            expr_name: vec![],
        }))),
    };
    let err = wire.try_into_physical_plan().unwrap_err();
    assert!(matches!(err, Error::EmptyPhysicalPlan { .. }));
}
