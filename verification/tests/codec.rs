use plan_codec::envelope::DefaultAsPlanImpl;
use plan_codec::expr::{Column, ColumnExprNode, ExprType, PhysicalExpr, PhysicalExprNode};
use plan_codec::plan::{ExecutionPlan, MockExecution, ProjectionExec};
use plan_codec::wire::{MockInputExecNode, PhysicalPlanNode, PhysicalPlanType, ProjectionExecNode};

fn mock_df_projection() -> ExecutionPlan {
    let mock_input = ExecutionPlan::Mock(MockExecution::new("mock_input".to_string()));
    let column1 = PhysicalExpr::Column(Column::new("id", 0));
    let column2 = PhysicalExpr::Column(Column::new("name", 1));
    let projection = ProjectionExec::try_new(
        vec![(column1, "id".to_string()), (column2, "name".to_string())],
        mock_input,
    )
    .unwrap();
    ExecutionPlan::Projection(projection)
}

fn verify_df_projection(exec: ExecutionPlan) {
    let projection_exec = match exec {
        ExecutionPlan::Projection(p) => p,
        other => panic!("expected a projection, got {:?}", other),
    };
    let mock_input = match projection_exec.input() {
        ExecutionPlan::Mock(m) => m,
        other => panic!("expected a mock input, got {:?}", other),
    };

    assert_eq!("mock_input", mock_input.name().as_str());
    assert_eq!(2, projection_exec.expr().len());
    assert_eq!("id", projection_exec.expr()[0].1);
    assert_eq!("name", projection_exec.expr()[1].1);
}

#[test]
fn test_convert_df_projection_with_bytes() {
    let projection_exec = mock_df_projection();

    let bytes = DefaultAsPlanImpl::try_from_physical_plan(&projection_exec).unwrap();
    let exec = bytes.try_into_physical_plan().unwrap();

    verify_df_projection(exec);
}

#[test]
fn test_convert_df_with_grpc_projection() {
    let projection_exec = mock_df_projection();

    let projection_node = PhysicalPlanNode::try_from_physical_plan(&projection_exec).unwrap();
    let exec = projection_node.try_into_physical_plan().unwrap();

    verify_df_projection(exec);
}

fn mock_wire_projection() -> PhysicalPlanNode {
    PhysicalPlanNode {
        physical_plan_type: Some(PhysicalPlanType::Projection(Box::new(ProjectionExecNode {
            input: Some(Box::new(PhysicalPlanNode {
                physical_plan_type: Some(PhysicalPlanType::Mock(MockInputExecNode {
                    name: "mock_input".to_string(),
                })),
            })),
            expr: vec![
                PhysicalExprNode {
                    expr_type: Some(ExprType::Column(ColumnExprNode {
                        name: "id".to_string(),
                        index: 0,
                    })),
                },
                PhysicalExprNode {
                    expr_type: Some(ExprType::Column(ColumnExprNode {
                        name: "name".to_string(),
                        index: 1,
                    })),
                },
            ],
            expr_name: vec!["id".to_string(), "name".to_string()],
        }))),
    }
}

#[test]
fn test_decode_then_encode_is_identity_on_wire_tree() {
    let wire = mock_wire_projection();
    let plan = wire.try_into_physical_plan().unwrap();
    let back = PhysicalPlanNode::try_from_physical_plan(&plan).unwrap();
    assert_eq!(mock_wire_projection(), back);
}

#[test]
fn test_round_trip_preserves_expression_positions() {
    let mock_input = ExecutionPlan::Mock(MockExecution::new("mock_input".to_string()));
    let col_a = PhysicalExpr::Column(Column::new("id", 0));
    let col_b = PhysicalExpr::Column(Column::new("age", 2));
    let projection = ProjectionExec::try_new(
        vec![(col_a, "a".to_string()), (col_b, "b".to_string())],
        mock_input,
    )
    .unwrap();
    let plan = ExecutionPlan::Projection(projection);

    let node = PhysicalPlanNode::try_from_physical_plan(&plan).unwrap();
    let back = node.try_into_physical_plan().unwrap();

    let projection_exec = match back {
        ExecutionPlan::Projection(p) => p,
        other => panic!("expected a projection, got {:?}", other),
    };
    assert_eq!("a", projection_exec.expr()[0].1);
    assert_eq!("b", projection_exec.expr()[1].1);
    assert_eq!(
        &PhysicalExpr::Column(Column::new("id", 0)),
        &projection_exec.expr()[0].0
    );
    assert_eq!(
        &PhysicalExpr::Column(Column::new("age", 2)),
        &projection_exec.expr()[1].0
    );
}

#[test]
fn test_round_trip_of_empty_projection() {
    let mock_input = ExecutionPlan::Mock(MockExecution::new("mock_input".to_string()));
    let projection = ProjectionExec::try_new(vec![], mock_input).unwrap();
    let plan = ExecutionPlan::Projection(projection);

    let node = PhysicalPlanNode::try_from_physical_plan(&plan).unwrap();
    let back = node.try_into_physical_plan().unwrap();

    let projection_exec = match back {
        ExecutionPlan::Projection(p) => p,
        other => panic!("expected a projection, got {:?}", other),
    };
    assert_eq!(0, projection_exec.expr().len());
}

#[test]
fn test_decode_pairs_expressions_and_names_positionally() {
    // The decoder pairs the expression list with the name list position by
    // position; a surplus expression without a name is dropped by the
    // pairing, exactly as zipping the two lists does.
    let wire = PhysicalPlanNode {
        physical_plan_type: Some(PhysicalPlanType::Projection(Box::new(ProjectionExecNode {
            input: Some(Box::new(PhysicalPlanNode {
                physical_plan_type: Some(PhysicalPlanType::Mock(MockInputExecNode {
                    name: "mock_input".to_string(),
                })),
            })),
            expr: vec![
                PhysicalExprNode {
                    expr_type: Some(ExprType::Column(ColumnExprNode {
                        name: "id".to_string(),
                        index: 0,
                    })),
                },
                PhysicalExprNode {
                    expr_type: Some(ExprType::Column(ColumnExprNode {
                        name: "name".to_string(),
                        index: 1,
                    })),
                },
            ],
            expr_name: vec!["id".to_string()],
        }))),
    };
    let plan = wire.try_into_physical_plan().unwrap();
    let projection_exec = match plan {
        ExecutionPlan::Projection(p) => p,
        other => panic!("expected a projection, got {:?}", other),
    };
    assert_eq!(1, projection_exec.expr().len());
    assert_eq!("id", projection_exec.expr()[0].1);
}

#[test]
fn test_expression_codec_round_trip() {
    let expr = PhysicalExpr::Column(Column::new("age", 2));
    let node = plan_codec::expr::parse_df_physical_expr(&expr).unwrap();
    assert_eq!(
        PhysicalExprNode {
            expr_type: Some(ExprType::Column(ColumnExprNode {
                name: "age".to_string(),
                index: 2,
            })),
        },
        node
    );
    let back = plan_codec::expr::parse_grpc_physical_expr(&node).unwrap();
    assert_eq!(expr, back);
}
