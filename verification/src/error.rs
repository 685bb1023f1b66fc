//! The error taxonomy of the codec.
//!
//! Every failure is a recoverable value surfaced to the immediate caller;
//! no partial tree is ever returned.

use vstd::prelude::*;

use crate::wire::{NodeV, PhysicalPlanNode};

verus! {

/// A codec failure.
#[derive(Debug, PartialEq)]
pub enum Error {
    /// A wire plan node carried no discriminator at all; the offending node
    /// is kept as a diagnostic snapshot.
    EmptyPhysicalPlan { node: PhysicalPlanNode },
    /// A structurally required field of a wire node was absent.
    MissingField { field: String },
    /// An execution plan type with no encode arm in the registry.
    UnsupportedDfPlan { name: String },
    /// An expression with no counterpart on the other side of the wire.
    UnsupportedExpr { name: String },
    /// The expression/child pairing handed to the projection constructor was
    /// structurally invalid.
    NewProjection,
    /// The byte envelope did not hold a well-formed wire plan node.
    DecodePhysicalPlanNode,
}

/// Mathematical model of a codec failure.
#[verifier::ext_equal]
pub enum ErrorV {
    EmptyPhysicalPlan { node: NodeV },
    MissingField { field: Seq<char> },
    UnsupportedDfPlan { name: Seq<char> },
    UnsupportedExpr { name: Seq<char> },
    NewProjection,
    DecodePhysicalPlanNode,
}

impl View for Error {
    type V = ErrorV;

    open spec fn view(&self) -> ErrorV {
        match self {
            Error::EmptyPhysicalPlan { node } => ErrorV::EmptyPhysicalPlan { node: node@ },
            Error::MissingField { field } => ErrorV::MissingField { field: field@ },
            Error::UnsupportedDfPlan { name } => ErrorV::UnsupportedDfPlan { name: name@ },
            Error::UnsupportedExpr { name } => ErrorV::UnsupportedExpr { name: name@ },
            Error::NewProjection => ErrorV::NewProjection,
            Error::DecodePhysicalPlanNode => ErrorV::DecodePhysicalPlanNode,
        }
    }
}

} // verus!
