//! Schemas and in-memory result batches.
//!
//! A schema is an ordered sequence of (name, data type, nullability)
//! triples. It is derived, never transmitted: each plan variant computes its
//! own schema from its children and fields.

use vstd::prelude::*;

verus! {

/// The data types produced by the plan variants of this core.
#[derive(Debug, Clone, Copy, PartialEq, Eq)]
pub enum DataType {
    UInt32,
    Utf8,
}

/// One column of a schema.
#[derive(Debug, PartialEq)]
pub struct Field {
    pub name: String,
    pub data_type: DataType,
    pub nullable: bool,
}

/// Mathematical model of a schema column.
#[verifier::ext_equal]
pub struct FieldV {
    pub name: Seq<char>,
    pub data_type: DataType,
    pub nullable: bool,
}

impl View for Field {
    type V = FieldV;

    open spec fn view(&self) -> FieldV {
        FieldV { name: self.name@, data_type: self.data_type, nullable: self.nullable }
    }
}

impl Field {
    pub fn new(name: &str, data_type: DataType, nullable: bool) -> (r: Field)
        ensures
            r@ == (FieldV { name: name@, data_type, nullable }),
    {
        Field { name: name.to_owned(), data_type, nullable }
    }
}

/// An ordered sequence of fields.
#[derive(Debug, PartialEq)]
pub struct Schema {
    pub fields: Vec<Field>,
}

impl View for Schema {
    type V = Seq<FieldV>;

    open spec fn view(&self) -> Seq<FieldV> {
        self.fields@.map_values(|f: Field| f@)
    }
}

impl Schema {
    pub fn new(fields: Vec<Field>) -> (r: Schema)
        ensures
            r@ == fields@.map_values(|f: Field| f@),
    {
        Schema { fields }
    }

    pub fn len(&self) -> (r: usize)
        ensures
            r == self@.len(),
    {
        self.fields.len()
    }
}

/// One materialized column of a result batch.
#[derive(Debug, PartialEq)]
pub enum ColumnArray {
    UInt32(Vec<u32>),
    Utf8(Vec<String>),
}

/// Mathematical model of a materialized column.
#[verifier::ext_equal]
pub enum ColumnArrayV {
    UInt32(Seq<u32>),
    Utf8(Seq<Seq<char>>),
}

impl View for ColumnArray {
    type V = ColumnArrayV;

    open spec fn view(&self) -> ColumnArrayV {
        match self {
            ColumnArray::UInt32(v) => ColumnArrayV::UInt32(v@),
            ColumnArray::Utf8(v) => ColumnArrayV::Utf8(v@.map_values(|s: String| s@)),
        }
    }
}

/// An in-memory result set: a schema and one materialized column per field.
#[derive(Debug, PartialEq)]
pub struct RecordBatch {
    pub schema: Schema,
    pub columns: Vec<ColumnArray>,
}

/// Mathematical model of a result batch.
#[verifier::ext_equal]
pub struct RecordBatchV {
    pub schema: Seq<FieldV>,
    pub columns: Seq<ColumnArrayV>,
}

impl View for RecordBatch {
    type V = RecordBatchV;

    open spec fn view(&self) -> RecordBatchV {
        RecordBatchV {
            schema: self.schema@,
            columns: self.columns@.map_values(|c: ColumnArray| c@),
        }
    }
}

} // verus!
