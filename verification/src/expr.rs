//! The expression sub-codec: conversion between the wire form of a scalar
//! expression and its in-memory executable form.
//!
//! The only expression kind realized by this core is the column reference
//! ("column at position N"). The executable side keeps an extra variant for
//! expression types that have no wire representation, so that encoding can
//! report them instead of silently dropping them.

use vstd::prelude::*;

use crate::error::{Error, ErrorV};

verus! {

/// Wire form of a column reference: the referenced column's name and its
/// position in the input schema.
#[derive(Debug, PartialEq)]
pub struct ColumnExprNode {
    pub name: String,
    pub index: usize,
}

/// The tag of a wire expression node; one variant per supported expression
/// kind.
#[derive(Debug, PartialEq)]
pub enum ExprType {
    Column(ColumnExprNode),
}

/// A wire expression node. An absent tag means the sender used an expression
/// kind this codec does not know.
#[derive(Debug, PartialEq)]
pub struct PhysicalExprNode {
    pub expr_type: Option<ExprType>,
}

/// Executable column reference; evaluation selects the column at `index`
/// from the input.
#[derive(Debug, PartialEq)]
pub struct Column {
    name: String,
    index: usize,
}

/// An executable expression. `Unregistered` stands for any concrete
/// expression type with no arm in this codec; encoding it fails with
/// `UnsupportedExpr`.
#[derive(Debug, PartialEq)]
pub enum PhysicalExpr {
    Column(Column),
    Unregistered { name: String },
}

/// Mathematical model of a wire expression node.
#[verifier::ext_equal]
pub enum ExprNodeV {
    Empty,
    Column { name: Seq<char>, index: int },
}

/// Mathematical model of an executable expression.
#[verifier::ext_equal]
pub enum ExprV {
    Column { name: Seq<char>, index: int },
    Unregistered { name: Seq<char> },
}

impl View for ColumnExprNode {
    type V = ExprNodeV;

    open spec fn view(&self) -> ExprNodeV {
        ExprNodeV::Column { name: self.name@, index: self.index as int }
    }
}

impl View for PhysicalExprNode {
    type V = ExprNodeV;

    open spec fn view(&self) -> ExprNodeV {
        match self.expr_type {
            None => ExprNodeV::Empty,
            Some(ExprType::Column(c)) => c@,
        }
    }
}

impl View for Column {
    type V = ExprV;

    closed spec fn view(&self) -> ExprV {
        ExprV::Column { name: self.name@, index: self.index as int }
    }
}

impl View for PhysicalExpr {
    type V = ExprV;

    open spec fn view(&self) -> ExprV {
        match self {
            PhysicalExpr::Column(c) => c@,
            PhysicalExpr::Unregistered { name } => ExprV::Unregistered {
                name: name@,
            },
        }
    }
}

impl Column {
    /// A column reference by name and input position.
    pub fn new(name: &str, index: usize) -> (r: Column)
        ensures
            r@ == (ExprV::Column { name: name@, index: index as int }),
    {
        Column { name: name.to_owned(), index }
    }

    pub fn name(&self) -> (r: &String)
        ensures
            self@ matches ExprV::Column { name, index: _ } && name == r@,
    {
        &self.name
    }

    pub fn index(&self) -> (r: usize)
        ensures
            self@ matches ExprV::Column { name: _, index } && index == r as int,
    {
        self.index
    }
}

/// What decoding a wire expression yields: the executable counterpart of the
/// tag, or `UnsupportedExpr` when no tag is set.
pub open spec fn decode_expr_v(n: ExprNodeV) -> Result<ExprV, ErrorV> {
    match n {
        ExprNodeV::Column { name, index } => Ok(ExprV::Column { name, index }),
        ExprNodeV::Empty => Err(ErrorV::UnsupportedExpr { name: Seq::empty() }),
    }
}

/// What encoding an executable expression yields: its wire form, or
/// `UnsupportedExpr` naming the concrete type when it has no wire form.
pub open spec fn encode_expr_v(e: ExprV) -> Result<ExprNodeV, ErrorV> {
    match e {
        ExprV::Column { name, index } => Ok(ExprNodeV::Column { name, index }),
        ExprV::Unregistered { name } => Err(ErrorV::UnsupportedExpr { name: name }),
    }
}

/// Decodes one wire expression into its executable form.
pub fn parse_grpc_physical_expr(expr: &PhysicalExprNode) -> (r: Result<PhysicalExpr, Error>)
    ensures
        match r {
            Ok(e) => decode_expr_v(expr@) == Ok::<ExprV, ErrorV>(e@),
            Err(err) => decode_expr_v(expr@) == Err::<ExprV, ErrorV>(err@),
        },
{
    match &expr.expr_type {
        Some(ExprType::Column(c)) => Ok(
            PhysicalExpr::Column(Column { name: c.name.clone(), index: c.index }),
        ),
        None => Err(Error::UnsupportedExpr { name: String::new() }),
    }
}

/// Encodes one executable expression into its wire form.
pub fn parse_df_physical_expr(expr: &PhysicalExpr) -> (r: Result<PhysicalExprNode, Error>)
    ensures
        match r {
            Ok(n) => encode_expr_v(expr@) == Ok::<ExprNodeV, ErrorV>(n@),
            Err(err) => encode_expr_v(expr@) == Err::<ExprNodeV, ErrorV>(err@),
        },
{
    match expr {
        PhysicalExpr::Column(c) => Ok(
            PhysicalExprNode {
                expr_type: Some(
                    ExprType::Column(ColumnExprNode { name: c.name.clone(), index: c.index }),
                ),
            },
        ),
        PhysicalExpr::Unregistered { name } => Err(
            Error::UnsupportedExpr { name: name.clone() },
        ),
    }
}

/// Round trip at expression granularity: a column reference survives
/// encoding followed by decoding unchanged, and a decoded wire expression
/// re-encodes to the same wire expression.
pub proof fn lemma_expr_round_trip(e: ExprV, n: ExprNodeV)
    ensures
        encode_expr_v(e) matches Ok(m) ==> decode_expr_v(m) == Ok::<ExprV, ErrorV>(e),
        decode_expr_v(n) matches Ok(d) ==> encode_expr_v(d) == Ok::<ExprNodeV, ErrorV>(n),
{
}

} // verus!
