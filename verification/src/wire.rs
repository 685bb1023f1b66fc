//! The wire representation of a plan tree: a tagged union with one tag per
//! supported plan kind, mirroring the executable variant set.
//!
//! Each tag carries only the fields needed to reconstruct its variant. The
//! projection tag holds its child node, an ordered sequence of wire
//! expressions and the parallel ordered sequence of output names; position
//! is semantics and is never reordered by the codec.

use vstd::prelude::*;

use crate::expr::{ExprNodeV, PhysicalExprNode};

verus! {

/// Wire form of the mock leaf scan: just the carried name.
#[derive(Debug, PartialEq)]
pub struct MockInputExecNode {
    pub name: String,
}

/// Wire form of a projection: a mandatory child plan, the projected
/// expressions and their output names, positionally paired.
#[derive(Debug, PartialEq)]
pub struct ProjectionExecNode {
    pub input: Option<Box<PhysicalPlanNode>>,
    pub expr: Vec<PhysicalExprNode>,
    pub expr_name: Vec<String>,
}

/// The discriminator of a wire plan node; one variant per supported plan
/// kind.
#[derive(Debug, PartialEq)]
pub enum PhysicalPlanType {
    Projection(Box<ProjectionExecNode>),
    Mock(MockInputExecNode),
}

/// One wire plan node. An absent discriminator marks a malformed node and
/// is rejected by decoding.
#[derive(Debug, PartialEq)]
pub struct PhysicalPlanNode {
    pub physical_plan_type: Option<PhysicalPlanType>,
}

/// Mathematical model of a wire plan node.
#[verifier::ext_equal]
pub enum NodeV {
    Empty,
    Projection { input: Option<Box<NodeV>>, exprs: Seq<ExprNodeV>, names: Seq<Seq<char>> },
    Mock { name: Seq<char> },
}

pub open spec fn node_view(n: PhysicalPlanNode) -> NodeV
    decreases n,
{
    match n.physical_plan_type {
        None => NodeV::Empty,
        Some(PhysicalPlanType::Projection(p)) => NodeV::Projection {
            input: match p.input {
                None => None,
                Some(b) => Some(Box::new(node_view(*b))),
            },
            exprs: p.expr@.map_values(|e: PhysicalExprNode| e@),
            names: p.expr_name@.map_values(|s: String| s@),
        },
        Some(PhysicalPlanType::Mock(m)) => NodeV::Mock { name: m.name@ },
    }
}

impl View for PhysicalPlanNode {
    type V = NodeV;

    open spec fn view(&self) -> NodeV {
        node_view(*self)
    }
}

} // verus!
