use plan_codec::envelope::DefaultAsPlanImpl;
use plan_codec::error::Error;
use plan_codec::expr::{Column, PhysicalExpr};
use plan_codec::plan::{ExecutionPlan, MockExecution, ProjectionExec};
use plan_codec::wire::{MockInputExecNode, PhysicalPlanNode, PhysicalPlanType};

#[test]
fn test_bytes_round_trip_of_mock_node() {
    let wire = PhysicalPlanNode {
        physical_plan_type: Some(PhysicalPlanType::Mock(MockInputExecNode {
            name: "mock_input".to_string(),
        })),
    };
    let bytes = wire.to_bytes();
    let back = PhysicalPlanNode::from_bytes(&bytes).unwrap();
    assert_eq!(wire, back);
}

#[test]
fn test_bytes_round_trip_keeps_non_ascii_names() {
    // Characters outside ASCII exercise the code-point encoding; a codec
    // that dropped or mangled them would not reproduce the name.
    let wire = PhysicalPlanNode {
        physical_plan_type: Some(PhysicalPlanType::Mock(MockInputExecNode {
            name: "πλάνο_🌲".to_string(),
        })),
    };
    let bytes = wire.to_bytes();
    let back = PhysicalPlanNode::from_bytes(&bytes).unwrap();
    match back.physical_plan_type {
        Some(PhysicalPlanType::Mock(m)) => assert_eq!("πλάνο_🌲", m.name),
        other => panic!("expected a mock node, got {:?}", other),
    }
}

#[test]
fn test_empty_buffer_is_rejected() {
    let err = PhysicalPlanNode::from_bytes(&vec![]).unwrap_err();
    assert!(matches!(err, Error::DecodePhysicalPlanNode));
}

#[test]
fn test_unknown_discriminator_byte_is_rejected() {
    let err = PhysicalPlanNode::from_bytes(&vec![7u8, 7, 7]).unwrap_err();
    assert!(matches!(err, Error::DecodePhysicalPlanNode));
}

#[test]
fn test_truncated_buffer_is_rejected() {
    let wire = PhysicalPlanNode {
        physical_plan_type: Some(PhysicalPlanType::Mock(MockInputExecNode {
            name: "mock_input".to_string(),
        })),
    };
    let mut bytes = wire.to_bytes();
    bytes.pop();
    let err = PhysicalPlanNode::from_bytes(&bytes).unwrap_err();
    assert!(matches!(err, Error::DecodePhysicalPlanNode));
}

#[test]
fn test_trailing_bytes_are_rejected() {
    let wire = PhysicalPlanNode {
        physical_plan_type: Some(PhysicalPlanType::Mock(MockInputExecNode {
            name: "mock_input".to_string(),
        })),
    };
    let mut bytes = wire.to_bytes();
    bytes.push(0);
    let err = PhysicalPlanNode::from_bytes(&bytes).unwrap_err();
    assert!(matches!(err, Error::DecodePhysicalPlanNode));
}

#[test]
fn test_envelope_surfaces_decode_error() {
    let envelope = DefaultAsPlanImpl {
        bytes: vec![1u8, 9, 9],
    };
    let err = envelope.try_into_physical_plan().unwrap_err();
    assert!(matches!(err, Error::DecodePhysicalPlanNode));
}

#[test]
fn test_envelope_round_trip_of_nested_projections() {
    let mock_input = ExecutionPlan::Mock(MockExecution::new("mock_input".to_string()));
    let inner = ProjectionExec::try_new(
        vec![
            (
                PhysicalExpr::Column(Column::new("name", 1)),
                "name".to_string(),
            ),
            (PhysicalExpr::Column(Column::new("age", 2)), "age".to_string()),
        ],
        mock_input,
    )
    .unwrap();
    let outer = ProjectionExec::try_new(
        vec![(
            PhysicalExpr::Column(Column::new("age", 1)),
            "age_out".to_string(),
        )],
        ExecutionPlan::Projection(inner),
    )
    .unwrap();
    let plan = ExecutionPlan::Projection(outer);

    let envelope = DefaultAsPlanImpl::try_from_physical_plan(&plan).unwrap();
    let back = envelope.try_into_physical_plan().unwrap();
    assert_eq!(plan, back);
}

#[test]
fn test_serialized_mock_node_layout() {
    // One discriminator byte, an eight-byte character count, then four
    // bytes per character.
    let wire = PhysicalPlanNode {
        physical_plan_type: Some(PhysicalPlanType::Mock(MockInputExecNode {
            name: "ab".to_string(),
        })),
    };
    let bytes = wire.to_bytes();
    assert_eq!(
        vec![2u8, 2, 0, 0, 0, 0, 0, 0, 0, 0x61, 0, 0, 0, 0x62, 0, 0, 0],
        bytes
    );
}

#[test]
fn test_empty_node_serializes_to_one_byte() {
    let wire = PhysicalPlanNode {
        physical_plan_type: None,
    };
    let bytes = wire.to_bytes();
    assert_eq!(vec![0u8], bytes);
    let back = PhysicalPlanNode::from_bytes(&bytes).unwrap();
    assert_eq!(wire, back);
}

#[test]
fn test_raw_bytes_decode_to_a_mock_plan() {
    // A buffer written by hand, following the layout: mock discriminator,
    // character count, then one code point per character.
    let envelope = DefaultAsPlanImpl {
        bytes: vec![2u8, 2, 0, 0, 0, 0, 0, 0, 0, 0x61, 0, 0, 0, 0x62, 0, 0, 0],
    };
    let plan = envelope.try_into_physical_plan().unwrap();
    match plan {
        ExecutionPlan::Mock(m) => assert_eq!("ab", m.name().as_str()),
        other => panic!("expected a mock plan, got {:?}", other),
    }
}

#[test]
fn test_oversized_length_field_is_rejected() {
    // A mock node whose character count exceeds the buffer.
    let mut bytes = vec![2u8];
    bytes.extend_from_slice(&[0xff, 0xff, 0xff, 0xff, 0xff, 0xff, 0xff, 0xff]);
    let err = PhysicalPlanNode::from_bytes(&bytes).unwrap_err();
    assert!(matches!(err, Error::DecodePhysicalPlanNode));
}

#[test]
fn test_surrogate_code_point_is_rejected() {
    // A one-character name whose code point lies in the surrogate range.
    let bytes = vec![2u8, 1, 0, 0, 0, 0, 0, 0, 0, 0x00, 0xd8, 0, 0];
    let err = PhysicalPlanNode::from_bytes(&bytes).unwrap_err();
    assert!(matches!(err, Error::DecodePhysicalPlanNode));
}
