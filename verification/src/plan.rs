//! Executable plan trees and the plan codec.
//!
//! The executable side is an open set of plan kinds behind a closed wire
//! schema: the `ExecutionPlan` variants realized here are the projection and
//! the mock leaf scan, plus a stand-in for any concrete plan type with no
//! registry arm. The codec walks a tree recursively — children are decoded
//! before their parent is constructed, and encoded before the parent wire
//! node is assembled — and fails as a unit: no partial tree is ever
//! returned.

use vstd::prelude::*;

use crate::error::{Error, ErrorV};
use crate::expr::{decode_expr_v, encode_expr_v, parse_df_physical_expr, parse_grpc_physical_expr};
use crate::expr::{ExprNodeV, ExprV, PhysicalExpr, PhysicalExprNode};
use crate::schema::{ColumnArray, ColumnArrayV, DataType, Field, FieldV, RecordBatch, RecordBatchV, Schema};
use crate::wire::{node_view, MockInputExecNode, NodeV, PhysicalPlanNode, PhysicalPlanType, ProjectionExecNode};

verus! {

/// A named, childless placeholder plan producing a fixed in-memory result
/// set; stands in for real table scans.
#[derive(Debug, PartialEq)]
pub struct MockExecution {
    name: String,
}

/// A plan node that evaluates a fixed ordered list of column references
/// against each input row to produce named output columns.
#[derive(Debug, PartialEq)]
pub struct ProjectionExec {
    expr: Vec<(PhysicalExpr, String)>,
    input: Box<ExecutionPlan>,
}

/// One node of an executable plan tree. `Unregistered` stands for any
/// concrete plan type with no arm in the codec registry; encoding it fails
/// with `UnsupportedDfPlan`.
#[derive(Debug, PartialEq)]
pub enum ExecutionPlan {
    Projection(ProjectionExec),
    Mock(MockExecution),
    Unregistered { name: String },
}

/// Mathematical model of an executable plan tree. A projection holds its
/// (expression, output name) pairs in order; position defines output column
/// order.
#[verifier::ext_equal]
pub enum PlanV {
    Projection { input: Box<PlanV>, exprs: Seq<(ExprV, Seq<char>)> },
    Mock { name: Seq<char> },
    Unregistered { name: Seq<char> },
}

/// The model of a projection's pair list.
pub open spec fn pairs_view(s: Seq<(PhysicalExpr, String)>) -> Seq<(ExprV, Seq<char>)> {
    s.map_values(|p: (PhysicalExpr, String)| (p.0@, p.1@))
}

pub closed spec fn plan_view(p: ExecutionPlan) -> PlanV
    decreases p,
{
    match p {
        ExecutionPlan::Projection(pe) => PlanV::Projection {
            input: Box::new(plan_view(*pe.input)),
            exprs: pairs_view(pe.expr@),
        },
        ExecutionPlan::Mock(m) => PlanV::Mock { name: m.name@ },
        ExecutionPlan::Unregistered { name } => PlanV::Unregistered { name: name@ },
    }
}

impl View for ExecutionPlan {
    type V = PlanV;

    closed spec fn view(&self) -> PlanV {
        plan_view(*self)
    }
}

impl View for ProjectionExec {
    type V = PlanV;

    closed spec fn view(&self) -> PlanV {
        PlanV::Projection {
            input: Box::new(plan_view(*self.input)),
            exprs: pairs_view(self.expr@),
        }
    }
}

impl View for MockExecution {
    type V = PlanV;

    closed spec fn view(&self) -> PlanV {
        PlanV::Mock { name: self.name@ }
    }
}

/// The fixed schema of the mock leaf scan.
pub open spec fn mock_schema_v() -> Seq<FieldV> {
    seq![
        FieldV { name: "id"@, data_type: DataType::UInt32, nullable: false },
        FieldV { name: "name"@, data_type: DataType::Utf8, nullable: false },
        FieldV { name: "age"@, data_type: DataType::UInt32, nullable: false },
    ]
}

/// The input position a column reference selects; meaningful only for
/// column expressions.
pub open spec fn col_index_v(e: ExprV) -> int {
    match e {
        ExprV::Column { name: _, index } => index,
        ExprV::Unregistered { .. } => 0,
    }
}

/// Every expression of the pair list is a column reference into the given
/// schema.
pub open spec fn cols_valid_v(pairs: Seq<(ExprV, Seq<char>)>, schema: Seq<FieldV>) -> bool {
    forall|i: int|
        0 <= i < pairs.len() ==> ((#[trigger] pairs[i]).0 matches ExprV::Column { name: _, index }
            && 0 <= index < schema.len())
}

/// The schema a projection derives from its pair list: the output name of
/// each pair, with the data type and nullability of the input column it
/// selects.
pub open spec fn proj_fields_v(pairs: Seq<(ExprV, Seq<char>)>, schema: Seq<FieldV>) -> Seq<
    FieldV,
> {
    Seq::new(
        pairs.len(),
        |i: int|
            FieldV {
                name: pairs[i].1,
                data_type: schema[col_index_v(pairs[i].0)].data_type,
                nullable: schema[col_index_v(pairs[i].0)].nullable,
            },
    )
}

/// The schema of a plan tree, when it has one: the mock scan's schema is
/// fixed; a projection derives its schema from its expressions; an
/// unregistered plan has no known schema.
pub open spec fn plan_schema_v(p: PlanV) -> Option<Seq<FieldV>>
    decreases p,
{
    match p {
        PlanV::Mock { .. } => Some(mock_schema_v()),
        PlanV::Unregistered { .. } => None,
        PlanV::Projection { input, exprs } => match plan_schema_v(*input) {
            None => None,
            Some(s) => if cols_valid_v(exprs, s) {
                Some(proj_fields_v(exprs, s))
            } else {
                None
            },
        },
    }
}

/// The pair list and child accepted by the projection constructor: the
/// child must have a schema and every expression must reference a column
/// the child produces.
pub open spec fn proj_valid_v(pairs: Seq<(ExprV, Seq<char>)>, input: PlanV) -> bool {
    match plan_schema_v(input) {
        None => false,
        Some(schema) => cols_valid_v(pairs, schema),
    }
}

/// A plan tree built only from supported variants, every projection of
/// which its constructor would accept.
pub open spec fn plan_wf_v(p: PlanV) -> bool
    decreases p,
{
    match p {
        PlanV::Mock { .. } => true,
        PlanV::Unregistered { .. } => false,
        PlanV::Projection { input, exprs } => plan_wf_v(*input) && proj_valid_v(exprs, *input),
    }
}


/// The expressions of a pair list, in order.
pub open spec fn exprs_of(pairs: Seq<(ExprV, Seq<char>)>) -> Seq<ExprV> {
    pairs.map_values(|p: (ExprV, Seq<char>)| p.0)
}

/// The output names of a pair list, in order.
pub open spec fn names_of(pairs: Seq<(ExprV, Seq<char>)>) -> Seq<Seq<char>> {
    pairs.map_values(|p: (ExprV, Seq<char>)| p.1)
}

/// What encoding a list of expressions yields: their wire forms in the same
/// order, or the leftmost encoding failure.
pub open spec fn encode_exprs_v(s: Seq<ExprV>) -> Result<Seq<ExprNodeV>, ErrorV>
    decreases s.len(),
{
    if s.len() == 0 {
        Ok(Seq::empty())
    } else {
        match encode_exprs_v(s.drop_last()) {
            Err(e) => Err(e),
            Ok(rest) => match encode_expr_v(s.last()) {
                Err(e) => Err(e),
                Ok(n) => Ok(rest.push(n)),
            },
        }
    }
}

/// What decoding a list of wire expressions yields: their executable forms
/// in the same order, or the leftmost decoding failure.
pub open spec fn decode_exprs_v(s: Seq<ExprNodeV>) -> Result<Seq<ExprV>, ErrorV>
    decreases s.len(),
{
    if s.len() == 0 {
        Ok(Seq::empty())
    } else {
        match decode_exprs_v(s.drop_last()) {
            Err(e) => Err(e),
            Ok(rest) => match decode_expr_v(s.last()) {
                Err(e) => Err(e),
                Ok(d) => Ok(rest.push(d)),
            },
        }
    }
}

/// What encoding a plan tree yields: children are encoded before their
/// parent wire node is assembled, expression order and output-name order are
/// kept positionally, and the first unsupported node or expression aborts
/// the whole encoding.
pub open spec fn encode_plan_v(p: PlanV) -> Result<NodeV, ErrorV>
    decreases p,
{
    match p {
        PlanV::Mock { name } => Ok(NodeV::Mock { name }),
        PlanV::Unregistered { name } => Err(ErrorV::UnsupportedDfPlan { name }),
        PlanV::Projection { input, exprs } => match encode_plan_v(*input) {
            Err(e) => Err(e),
            Ok(child) => match encode_exprs_v(exprs_of(exprs)) {
                Err(e) => Err(e),
                Ok(ens) => Ok(
                    NodeV::Projection {
                        input: Some(Box::new(child)),
                        exprs: ens,
                        names: names_of(exprs),
                    },
                ),
            },
        },
    }
}

/// What decoding a wire tree yields: a node without a discriminator is
/// rejected as an empty plan; a projection requires its child, which is
/// decoded before the parent is constructed; wire expressions are paired
/// positionally with the output names, the shorter of the two lists giving
/// the pair count; and the reconstructed projection is validated against the
/// child's schema.
pub open spec fn decode_plan_v(n: NodeV) -> Result<PlanV, ErrorV>
    decreases n,
{
    match n {
        NodeV::Empty => Err(ErrorV::EmptyPhysicalPlan { node: NodeV::Empty }),
        NodeV::Mock { name } => Ok(PlanV::Mock { name }),
        NodeV::Projection { input, exprs, names } => match input {
            None => Err(ErrorV::MissingField { field: "input"@ }),
            Some(child) => match decode_plan_v(*child) {
                Err(e) => Err(e),
                Ok(child_plan) => {
                    let k: int = if exprs.len() <= names.len() {
                        exprs.len() as int
                    } else {
                        names.len() as int
                    };
                    match decode_exprs_v(exprs.take(k)) {
                        Err(e) => Err(e),
                        Ok(des) => {
                            let pairs = Seq::new(k as nat, |i: int| (des[i], names[i]));
                            if proj_valid_v(pairs, child_plan) {
                                Ok(
                                    PlanV::Projection {
                                        input: Box::new(child_plan),
                                        exprs: pairs,
                                    },
                                )
                            } else {
                                Err(ErrorV::NewProjection)
                            }
                        },
                    }
                },
            },
        },
    }
}

/// A list whose prefix already fails to encode fails as a whole, with the
/// same error.
proof fn lemma_encode_exprs_prefix_err(s: Seq<ExprV>, k: int)
    requires
        0 <= k <= s.len(),
        encode_exprs_v(s.take(k)) is Err,
    ensures
        encode_exprs_v(s) == encode_exprs_v(s.take(k)),
    decreases s.len(),
{
    if k < s.len() {
        assert(s.drop_last().take(k) =~= s.take(k));
        lemma_encode_exprs_prefix_err(s.drop_last(), k);
    } else {
        assert(s.take(k) =~= s);
    }
}

/// A list whose prefix already fails to decode fails as a whole, with the
/// same error.
proof fn lemma_decode_exprs_prefix_err(s: Seq<ExprNodeV>, k: int)
    requires
        0 <= k <= s.len(),
        decode_exprs_v(s.take(k)) is Err,
    ensures
        decode_exprs_v(s) == decode_exprs_v(s.take(k)),
    decreases s.len(),
{
    if k < s.len() {
        assert(s.drop_last().take(k) =~= s.take(k));
        lemma_decode_exprs_prefix_err(s.drop_last(), k);
    } else {
        assert(s.take(k) =~= s);
    }
}


/// The fixed result set the mock scan produces when executed.
pub open spec fn mock_batch_v() -> RecordBatchV {
    RecordBatchV {
        schema: mock_schema_v(),
        columns: seq![
            ColumnArrayV::UInt32(seq![1u32, 2u32, 3u32, 4u32, 5u32]),
            ColumnArrayV::Utf8(seq!["zhangsan"@, "lisi"@, "wangwu"@, "Tony"@, "Mike"@]),
            ColumnArrayV::UInt32(seq![25u32, 28u32, 27u32, 35u32, 25u32]),
        ],
    }
}

impl MockExecution {
    pub fn new(name: String) -> (r: MockExecution)
        ensures
            r@ == (PlanV::Mock { name: name@ }),
    {
        MockExecution { name }
    }

    pub fn name(&self) -> (r: &String)
        ensures
            self@ == (PlanV::Mock { name: r@ }),
    {
        &self.name
    }

    /// The mock scan's hard-coded schema.
    pub fn schema(&self) -> (r: Schema)
        ensures
            r@ == mock_schema_v(),
    {
        let mut fields: Vec<Field> = Vec::new();
        fields.push(Field::new("id", DataType::UInt32, false));
        fields.push(Field::new("name", DataType::Utf8, false));
        fields.push(Field::new("age", DataType::UInt32, false));
        let s = Schema::new(fields);
        proof {
            assert(s@ =~= mock_schema_v());
        }
        s
    }

    /// Produces the mock scan's fixed in-memory rows, one materialized
    /// column per schema field.
    pub fn execute(&self) -> (r: RecordBatch)
        ensures
            r@ == mock_batch_v(),
    {
        let mut ids: Vec<u32> = Vec::new();
        ids.push(1);
        ids.push(2);
        ids.push(3);
        ids.push(4);
        ids.push(5);
        let mut names: Vec<String> = Vec::new();
        names.push("zhangsan".to_owned());
        names.push("lisi".to_owned());
        names.push("wangwu".to_owned());
        names.push("Tony".to_owned());
        names.push("Mike".to_owned());
        let mut ages: Vec<u32> = Vec::new();
        ages.push(25);
        ages.push(28);
        ages.push(27);
        ages.push(35);
        ages.push(25);
        let mut columns: Vec<ColumnArray> = Vec::new();
        columns.push(ColumnArray::UInt32(ids));
        columns.push(ColumnArray::Utf8(names));
        columns.push(ColumnArray::UInt32(ages));
        let r = RecordBatch { schema: self.schema(), columns };
        proof {
            assert(r@.columns =~~= mock_batch_v().columns);
            assert(r@ =~~= mock_batch_v());
        }
        r
    }
}

impl ProjectionExec {
    /// Builds a projection over `input`, validating each expression against
    /// the child's schema; fails with `NewProjection` exactly when the
    /// pairing is structurally invalid.
    pub fn try_new(expr: Vec<(PhysicalExpr, String)>, input: ExecutionPlan) -> (r: Result<
        ProjectionExec,
        Error,
    >)
        ensures
            proj_valid_v(pairs_view(expr@), input@) ==> (r matches Ok(p) && p@ == (
            PlanV::Projection { input: Box::new(input@), exprs: pairs_view(expr@) })),
            !proj_valid_v(pairs_view(expr@), input@) ==> (r matches Err(e) && e@
                == ErrorV::NewProjection),
    {
        let schema = match input.schema() {
            Some(s) => s,
            None => {
                return Err(Error::NewProjection);
            },
        };
        let n = schema.len();
        let mut i: usize = 0;
        while i < expr.len()
            invariant
                i <= expr@.len(),
                plan_schema_v(input@) == Some(schema@),
                n == schema@.len(),
                forall|j: int|
                    0 <= j < i ==> ((#[trigger] pairs_view(expr@)[j]).0 matches ExprV::Column {
                        name: _,
                        index,
                    } && 0 <= index < schema@.len()),
            decreases expr@.len() - i,
        {
            match &expr[i].0 {
                PhysicalExpr::Column(c) => {
                    if !(c.index() < n) {
                        proof {
                            assert(pairs_view(expr@)[i as int] == (expr@[i as int].0@, expr@[
                                i as int].1@));
                            assert(!cols_valid_v(pairs_view(expr@), schema@));
                        }
                        return Err(Error::NewProjection);
                    }
                },
                PhysicalExpr::Unregistered { .. } => {
                    proof {
                        assert(pairs_view(expr@)[i as int] == (expr@[i as int].0@, expr@[
                            i as int].1@));
                        assert(!cols_valid_v(pairs_view(expr@), schema@));
                    }
                    return Err(Error::NewProjection);
                },
            }
            i += 1;
        }
        Ok(ProjectionExec { expr, input: Box::new(input) })
    }

    /// The child plan.
    pub fn input(&self) -> (r: &ExecutionPlan)
        ensures
            self@ matches PlanV::Projection { input, exprs: _ } && *input == r@,
    {
        &self.input
    }

    /// The ordered (expression, output name) pairs.
    pub fn expr(&self) -> (r: &Vec<(PhysicalExpr, String)>)
        ensures
            self@ matches PlanV::Projection { input: _, exprs } && exprs == pairs_view(r@),
    {
        &self.expr
    }
}

impl ExecutionPlan {
    /// The output schema of this plan, when it has one.
    pub fn schema(&self) -> (r: Option<Schema>)
        ensures
            match r {
                Some(s) => plan_schema_v(self@) == Some(s@),
                None => plan_schema_v(self@) is None,
            },
        decreases *self,
    {
        match self {
            ExecutionPlan::Mock(m) => Some(m.schema()),
            ExecutionPlan::Unregistered { .. } => None,
            ExecutionPlan::Projection(pe) => {
                let input_schema = match pe.input.schema() {
                    Some(s) => s,
                    None => {
                        return None;
                    },
                };
                let n = input_schema.len();
                let mut fields: Vec<Field> = Vec::new();
                let mut i: usize = 0;
                while i < pe.expr.len()
                    invariant
                        i <= pe.expr@.len(),
                        self@ == (PlanV::Projection {
                            input: Box::new(plan_view(*pe.input)),
                            exprs: pairs_view(pe.expr@),
                        }),
                        plan_schema_v(plan_view(*pe.input)) == Some(input_schema@),
                        n == input_schema@.len(),
                        forall|j: int|
                            0 <= j < i ==> ((#[trigger] pairs_view(pe.expr@)[j]).0 matches
                                ExprV::Column { name: _, index } && 0 <= index
                                < input_schema@.len()),
                        fields@.len() == i,
                        forall|j: int|
                            0 <= j < i ==> #[trigger] fields@[j]@ == proj_fields_v(
                                pairs_view(pe.expr@),
                                input_schema@,
                            )[j],
                    decreases pe.expr@.len() - i,
                {
                    match &pe.expr[i].0 {
                        PhysicalExpr::Column(c) => {
                            let ci = c.index();
                            if !(ci < n) {
                                proof {
                                    assert(pairs_view(pe.expr@)[i as int] == (pe.expr@[
                                        i as int].0@, pe.expr@[i as int].1@));
                                    assert(!cols_valid_v(pairs_view(pe.expr@), input_schema@));
                                }
                                return None;
                            }
                            fields.push(
                                Field {
                                    name: pe.expr[i].1.clone(),
                                    data_type: input_schema.fields[ci].data_type,
                                    nullable: input_schema.fields[ci].nullable,
                                },
                            );
                            proof {
                                let pv = pairs_view(pe.expr@);
                                assert(pv[i as int] == (pe.expr@[i as int].0@, pe.expr@[
                                    i as int].1@));
                                assert(pv[i as int].0 == c@);
                                assert(col_index_v(pv[i as int].0) == ci as int);
                                assert(input_schema@[ci as int] == input_schema.fields@[
                                    ci as int]@);
                                assert(fields@[i as int]@ == proj_fields_v(pv, input_schema@)[
                                    i as int]);
                            }
                        },
                        PhysicalExpr::Unregistered { .. } => {
                            proof {
                                assert(pairs_view(pe.expr@)[i as int] == (pe.expr@[
                                    i as int].0@, pe.expr@[i as int].1@));
                                assert(!cols_valid_v(pairs_view(pe.expr@), input_schema@));
                            }
                            return None;
                        },
                    }
                    i += 1;
                }
                proof {
                    assert(cols_valid_v(pairs_view(pe.expr@), input_schema@));
                    assert(fields@.map_values(|f: Field| f@) =~= proj_fields_v(
                        pairs_view(pe.expr@),
                        input_schema@,
                    )) by {
                        assert forall|j: int| 0 <= j < fields@.len() implies fields@.map_values(
                            |f: Field| f@,
                        )[j] == proj_fields_v(pairs_view(pe.expr@), input_schema@)[j] by {
                            assert(fields@[j]@ == proj_fields_v(
                                pairs_view(pe.expr@),
                                input_schema@,
                            )[j]);
                        }
                    }
                }
                Some(Schema::new(fields))
            },
        }
    }
}

impl PhysicalPlanNode {
    /// Encodes an execution plan into a wire plan node by inspecting each
    /// node's concrete variant; children are encoded before their parent
    /// wire node is assembled. Fails with `UnsupportedDfPlan` on the first
    /// node that has no registry arm.
    pub fn try_from_physical_plan(plan: &ExecutionPlan) -> (r: Result<PhysicalPlanNode, Error>)
        ensures
            match r {
                Ok(node) => encode_plan_v(plan@) == Ok::<NodeV, ErrorV>(node@),
                Err(e) => encode_plan_v(plan@) == Err::<NodeV, ErrorV>(e@),
            },
        decreases *plan,
    {
        match plan {
            ExecutionPlan::Mock(m) => Ok(
                PhysicalPlanNode {
                    physical_plan_type: Some(
                        PhysicalPlanType::Mock(MockInputExecNode { name: m.name().clone() }),
                    ),
                },
            ),
            ExecutionPlan::Unregistered { name } => Err(
                Error::UnsupportedDfPlan { name: name.clone() },
            ),
            ExecutionPlan::Projection(exec) => {
                let input = PhysicalPlanNode::try_from_physical_plan(&*exec.input)?;
                let mut expr: Vec<PhysicalExprNode> = Vec::new();
                let mut expr_name: Vec<String> = Vec::new();
                let mut i: usize = 0;
                proof {
                    assert(exprs_of(pairs_view(exec.expr@)).take(0) =~= Seq::<ExprV>::empty());
                    assert(expr@.map_values(|e: PhysicalExprNode| e@) =~= Seq::<
                        ExprNodeV,
                    >::empty());
                    assert(expr_name@.map_values(|sn: String| sn@) =~= names_of(
                        pairs_view(exec.expr@),
                    ).take(0));
                }
                while i < exec.expr.len()
                    invariant
                        i <= exec.expr@.len(),
                        plan@ == (PlanV::Projection {
                            input: Box::new(plan_view(*exec.input)),
                            exprs: pairs_view(exec.expr@),
                        }),
                        encode_plan_v(plan_view(*exec.input)) == Ok::<NodeV, ErrorV>(input@),
                        encode_exprs_v(exprs_of(pairs_view(exec.expr@)).take(i as int)) == Ok::<
                            Seq<ExprNodeV>,
                            ErrorV,
                        >(expr@.map_values(|e: PhysicalExprNode| e@)),
                        expr_name@.map_values(|sn: String| sn@) =~= names_of(
                            pairs_view(exec.expr@),
                        ).take(i as int),
                    decreases exec.expr@.len() - i,
                {
                    let en = match parse_df_physical_expr(&exec.expr[i].0) {
                        Ok(n) => n,
                        Err(e) => {
                            proof {
                                let pv = pairs_view(exec.expr@);
                                let es = exprs_of(pv);
                                assert(pv[i as int] == (exec.expr@[i as int].0@, exec.expr@[
                                    i as int].1@));
                                assert(es[i as int] == pv[i as int].0);
                                assert(es.take(i + 1).drop_last() =~= es.take(i as int));
                                assert(es.take(i + 1).last() == es[i as int]);
                                assert(encode_exprs_v(es.take(i + 1)) == Err::<
                                    Seq<ExprNodeV>,
                                    ErrorV,
                                >(e@));
                                lemma_encode_exprs_prefix_err(es, i + 1);
                            }
                            return Err(e);
                        },
                    };
                    let ghost prev = expr@.map_values(|e: PhysicalExprNode| e@);
                    let ghost prev_names = expr_name@.map_values(|sn: String| sn@);
                    expr.push(en);
                    expr_name.push(exec.expr[i].1.clone());
                    proof {
                        let pv = pairs_view(exec.expr@);
                        let es = exprs_of(pv);
                        assert(pv[i as int] == (exec.expr@[i as int].0@, exec.expr@[
                            i as int].1@));
                        assert(es[i as int] == pv[i as int].0);
                        assert(es.take(i + 1).drop_last() =~= es.take(i as int));
                        assert(es.take(i + 1).last() == es[i as int]);
                        assert(expr@.map_values(|e: PhysicalExprNode| e@) =~= prev.push(en@));
                        assert(encode_exprs_v(es.take(i + 1)) == Ok::<Seq<ExprNodeV>, ErrorV>(
                            prev.push(en@),
                        ));
                        assert(expr_name@.map_values(|sn: String| sn@) =~= prev_names.push(
                            exec.expr@[i as int].1@,
                        ));
                        assert(names_of(pv).take(i + 1) =~= prev_names.push(pv[i as int].1));
                    }
                    i += 1;
                }
                proof {
                    let pv = pairs_view(exec.expr@);
                    assert(exprs_of(pv).take(i as int) =~= exprs_of(pv));
                    assert(names_of(pv).take(i as int) =~= names_of(pv));
                }
                Ok(
                    PhysicalPlanNode {
                        physical_plan_type: Some(
                            PhysicalPlanType::Projection(
                                Box::new(
                                    ProjectionExecNode {
                                        input: Some(Box::new(input)),
                                        expr,
                                        expr_name,
                                    },
                                ),
                            ),
                        ),
                    },
                )
            },
        }
    }

    /// Decodes a wire plan node into an execution plan by dispatching on its
    /// discriminator; the child of a projection is fully decoded before the
    /// parent is constructed. Fails with `EmptyPhysicalPlan` when no
    /// discriminator is set and with `MissingField` when a projection lacks
    /// its child.
    pub fn try_into_physical_plan(&self) -> (r: Result<ExecutionPlan, Error>)
        ensures
            match r {
                Ok(p) => decode_plan_v(self@) == Ok::<PlanV, ErrorV>(p@),
                Err(e) => decode_plan_v(self@) == Err::<PlanV, ErrorV>(e@),
            },
        decreases *self,
    {
        let projection = match &self.physical_plan_type {
            None => {
                return Err(
                    Error::EmptyPhysicalPlan {
                        node: PhysicalPlanNode { physical_plan_type: None },
                    },
                );
            },
            Some(PhysicalPlanType::Mock(mock)) => {
                return Ok(ExecutionPlan::Mock(MockExecution::new(mock.name.clone())));
            },
            Some(PhysicalPlanType::Projection(projection)) => projection,
        };
        let input_plan = match &projection.input {
            None => {
                return Err(Error::MissingField { field: "input".to_owned() });
            },
            Some(b) => b.try_into_physical_plan()?,
        };
        let n_exprs = projection.expr.len();
        let n_names = projection.expr_name.len();
        let k = if n_exprs <= n_names {
            n_exprs
        } else {
            n_names
        };
        let ghost wexprs = projection.expr@.map_values(|e: PhysicalExprNode| e@);
        let ghost wnames = projection.expr_name@.map_values(|sn: String| sn@);
        let ghost kk: int = if wexprs.len() <= wnames.len() {
            wexprs.len() as int
        } else {
            wnames.len() as int
        };
        proof {
            assert(k as int == kk);
        }
        let mut pairs: Vec<(PhysicalExpr, String)> = Vec::new();
        let mut i: usize = 0;
        proof {
            assert(wexprs.take(0) =~= Seq::<ExprNodeV>::empty());
            assert(exprs_of(pairs_view(pairs@)) =~= Seq::<ExprV>::empty());
            assert(names_of(pairs_view(pairs@)) =~= wnames.take(0));
        }
        while i < k
            invariant
                i <= k,
                k as int == kk,
                kk == if wexprs.len() <= wnames.len() {
                    wexprs.len() as int
                } else {
                    wnames.len() as int
                },
                wexprs == projection.expr@.map_values(|e: PhysicalExprNode| e@),
                wnames == projection.expr_name@.map_values(|sn: String| sn@),
                self@ matches NodeV::Projection { input: Some(chb), exprs: se, names: sn }
                    && *chb == node_view(*projection.input->Some_0) && se == wexprs && sn
                    == wnames,
                decode_plan_v(node_view(*projection.input->Some_0)) == Ok::<PlanV, ErrorV>(
                    input_plan@,
                ),
                decode_exprs_v(wexprs.take(i as int)) == Ok::<Seq<ExprV>, ErrorV>(
                    exprs_of(pairs_view(pairs@)),
                ),
                names_of(pairs_view(pairs@)) =~= wnames.take(i as int),
                pairs@.len() == i,
            decreases k - i,
        {
            let de = match parse_grpc_physical_expr(&projection.expr[i]) {
                Ok(d) => d,
                Err(e) => {
                    proof {
                        assert(wexprs[i as int] == projection.expr@[i as int]@);
                        assert(wexprs.take(i + 1).drop_last() =~= wexprs.take(i as int));
                        assert(wexprs.take(i + 1).last() == wexprs[i as int]);
                        assert(decode_exprs_v(wexprs.take(i + 1)) == Err::<Seq<ExprV>, ErrorV>(
                            e@,
                        ));
                        lemma_decode_exprs_prefix_err(wexprs.take(kk), i + 1);
                        assert(wexprs.take(kk).take(i + 1) =~= wexprs.take(i + 1));
                    }
                    return Err(e);
                },
            };
            let ghost prev = pairs_view(pairs@);
            pairs.push((de, projection.expr_name[i].clone()));
            proof {
                assert(wexprs[i as int] == projection.expr@[i as int]@);
                assert(wnames[i as int] == projection.expr_name@[i as int]@);
                assert(wexprs.take(i + 1).drop_last() =~= wexprs.take(i as int));
                assert(wexprs.take(i + 1).last() == wexprs[i as int]);
                assert(pairs_view(pairs@) =~= prev.push((de@, wnames[i as int])));
                assert(exprs_of(pairs_view(pairs@)) =~= exprs_of(prev).push(de@));
                assert(decode_exprs_v(wexprs.take(i + 1)) == Ok::<Seq<ExprV>, ErrorV>(
                    exprs_of(prev).push(de@),
                ));
                assert(names_of(pairs_view(pairs@)) =~= names_of(prev).push(wnames[i as int]));
                assert(names_of(pairs_view(pairs@)) =~= wnames.take(i + 1));
            }
            i += 1;
        }
        proof {
            assert(decode_exprs_v(wexprs.take(kk)) == Ok::<Seq<ExprV>, ErrorV>(
                exprs_of(pairs_view(pairs@)),
            ));
            let built = pairs_view(pairs@);
            let zipped = Seq::new(kk as nat, |j: int| (exprs_of(built)[j], wnames[j]));
            assert forall|j: int| 0 <= j < kk implies zipped[j] == built[j] by {
                assert(built[j] == (pairs@[j].0@, pairs@[j].1@));
                assert(exprs_of(built)[j] == built[j].0);
                assert(names_of(built)[j] == built[j].1);
                assert(wnames.take(kk)[j] == wnames[j]);
            }
            assert(zipped =~= built);
        }
        match ProjectionExec::try_new(pairs, input_plan) {
            Ok(p) => Ok(ExecutionPlan::Projection(p)),
            Err(e) => Err(e),
        }
    }
}

/// A list of column references round-trips: encoding yields one wire node
/// per expression, in order, and decoding those nodes yields the original
/// expressions.
proof fn lemma_exprs_round_trip_v(s: Seq<ExprV>)
    requires
        forall|i: int| 0 <= i < s.len() ==> s[i] is Column,
    ensures
        encode_exprs_v(s) matches Ok(ens) && ens.len() == s.len() && decode_exprs_v(ens)
            == Ok::<Seq<ExprV>, ErrorV>(s),
    decreases s.len(),
{
    if s.len() == 0 {
        assert(encode_exprs_v(s) == Ok::<Seq<ExprNodeV>, ErrorV>(Seq::empty()));
        assert(decode_exprs_v(Seq::<ExprNodeV>::empty()) == Ok::<Seq<ExprV>, ErrorV>(
            Seq::empty(),
        ));
        assert(s =~= Seq::<ExprV>::empty());
    } else {
        lemma_exprs_round_trip_v(s.drop_last());
        let rest = encode_exprs_v(s.drop_last())->Ok_0;
        assert(s.last() is Column);
        let node = encode_expr_v(s.last())->Ok_0;
        assert(encode_exprs_v(s) == Ok::<Seq<ExprNodeV>, ErrorV>(rest.push(node)));
        let ens = rest.push(node);
        assert(ens.drop_last() =~= rest);
        assert(ens.last() == node);
        assert(decode_expr_v(node) == Ok::<ExprV, ErrorV>(s.last()));
        assert(decode_exprs_v(ens) == Ok::<Seq<ExprV>, ErrorV>(s.drop_last().push(s.last())));
        assert(s.drop_last().push(s.last()) =~= s);
    }
}

/// A list of wire expressions that decodes is a list of column tags, and
/// re-encoding what it decoded to yields the original list.
proof fn lemma_exprs_decode_encode(ens: Seq<ExprNodeV>)
    requires
        decode_exprs_v(ens) is Ok,
    ensures
        ({
            let s = decode_exprs_v(ens)->Ok_0;
            s.len() == ens.len() && (forall|i: int| 0 <= i < s.len() ==> s[i] is Column)
                && encode_exprs_v(s) == Ok::<Seq<ExprNodeV>, ErrorV>(ens)
        }),
    decreases ens.len(),
{
    if ens.len() == 0 {
        let s = decode_exprs_v(ens)->Ok_0;
        assert(s =~= Seq::<ExprV>::empty());
        assert(encode_exprs_v(s) == Ok::<Seq<ExprNodeV>, ErrorV>(Seq::empty()));
        assert(Seq::<ExprNodeV>::empty() =~= ens);
    } else {
        lemma_exprs_decode_encode(ens.drop_last());
        let rest = decode_exprs_v(ens.drop_last())->Ok_0;
        let d = decode_expr_v(ens.last())->Ok_0;
        let s = decode_exprs_v(ens)->Ok_0;
        assert(s == rest.push(d));
        assert(s.drop_last() =~= rest);
        assert(s.last() == d);
        assert(ens.last() matches ExprNodeV::Column { .. });
        assert(encode_expr_v(d) == Ok::<ExprNodeV, ErrorV>(ens.last()));
        assert(encode_exprs_v(s) == Ok::<Seq<ExprNodeV>, ErrorV>(
            ens.drop_last().push(ens.last()),
        ));
        assert(ens.drop_last().push(ens.last()) =~= ens);
        assert forall|i: int| 0 <= i < s.len() implies s[i] is Column by {
            if i < s.len() - 1 {
                assert(s[i] == rest[i]);
            } else {
                assert(s[i] == d);
            }
        }
    }
}

/// Round-trip identity, encode then decode: a plan tree built only from
/// supported variants, every projection of which is valid for its child,
/// encodes to a wire tree that decodes back to the identical plan — same
/// shape, same expressions, same output names, in the same positions.
pub proof fn lemma_plan_round_trip(p: PlanV)
    requires
        plan_wf_v(p),
    ensures
        encode_plan_v(p) matches Ok(n) && decode_plan_v(n) == Ok::<PlanV, ErrorV>(p),
    decreases p,
{
    match p {
        PlanV::Mock { name } => {},
        PlanV::Unregistered { .. } => {
            assert(false);
        },
        PlanV::Projection { input, exprs } => {
            lemma_plan_round_trip(*input);
            let ci = encode_plan_v(*input)->Ok_0;
            let schema = plan_schema_v(*input)->Some_0;
            assert(cols_valid_v(exprs, schema));
            assert forall|i: int| 0 <= i < exprs_of(exprs).len() implies exprs_of(exprs)[i]
                is Column by {
                assert(exprs[i].0 matches ExprV::Column { .. });
                assert(exprs_of(exprs)[i] == exprs[i].0);
            }
            lemma_exprs_round_trip_v(exprs_of(exprs));
            let ens = encode_exprs_v(exprs_of(exprs))->Ok_0;
            let names = names_of(exprs);
            let n = NodeV::Projection { input: Some(Box::new(ci)), exprs: ens, names };
            assert(encode_plan_v(p) == Ok::<NodeV, ErrorV>(n));
            assert(ens.len() == exprs.len());
            assert(names.len() == exprs.len());
            let k: int = exprs.len() as int;
            assert(ens.take(k) =~= ens);
            let des = exprs_of(exprs);
            let zipped = Seq::new(k as nat, |j: int| (des[j], names[j]));
            assert forall|j: int| 0 <= j < k implies zipped[j] == exprs[j] by {
                assert(des[j] == exprs[j].0);
                assert(names[j] == exprs[j].1);
                assert(zipped[j] =~~= exprs[j]);
            }
            assert(zipped =~= exprs);
            assert(proj_valid_v(zipped, *input));
            assert(decode_plan_v(n) == Ok::<PlanV, ErrorV>(
                PlanV::Projection { input: Box::new(*input), exprs: zipped },
            ));
            assert(PlanV::Projection { input: Box::new(*input), exprs: zipped } =~= p);
        },
    }
}

/// A wire tree whose projections pair each expression with exactly one
/// output name.
pub open spec fn node_wf_v(n: NodeV) -> bool
    decreases n,
{
    match n {
        NodeV::Empty => true,
        NodeV::Mock { .. } => true,
        NodeV::Projection { input, exprs, names } => exprs.len() == names.len() && (match input {
            Some(b) => node_wf_v(*b),
            None => true,
        }),
    }
}

/// Round-trip identity, decode then encode: a wire tree that decodes, and
/// whose expression and name lists are positionally paired one to one,
/// re-encodes tag-for-tag to the same wire tree; and what it decodes to is
/// itself a well-formed plan.
pub proof fn lemma_wire_round_trip(n: NodeV)
    requires
        node_wf_v(n),
        decode_plan_v(n) is Ok,
    ensures
        plan_wf_v(decode_plan_v(n)->Ok_0),
        encode_plan_v(decode_plan_v(n)->Ok_0) == Ok::<NodeV, ErrorV>(n),
    decreases n,
{
    match n {
        NodeV::Empty => {},
        NodeV::Mock { name } => {},
        NodeV::Projection { input, exprs, names } => {
            let chb = input->Some_0;
            lemma_wire_round_trip(*chb);
            let child = decode_plan_v(*chb)->Ok_0;
            let k: int = if exprs.len() <= names.len() {
                exprs.len() as int
            } else {
                names.len() as int
            };
            assert(k == exprs.len());
            assert(exprs.take(k) =~= exprs);
            lemma_exprs_decode_encode(exprs);
            let des = decode_exprs_v(exprs)->Ok_0;
            let pairs = Seq::new(k as nat, |i: int| (des[i], names[i]));
            let p = decode_plan_v(n)->Ok_0;
            assert(p == (PlanV::Projection { input: Box::new(child), exprs: pairs }));
            assert(proj_valid_v(pairs, child));
            assert(plan_wf_v(p));
            assert(exprs_of(pairs) =~= des);
            assert(encode_exprs_v(exprs_of(pairs)) == Ok::<Seq<ExprNodeV>, ErrorV>(exprs));
            assert(names_of(pairs) =~= names);
            assert(encode_plan_v(p) == Ok::<NodeV, ErrorV>(
                NodeV::Projection { input: Some(Box::new(*chb)), exprs, names },
            ));
            assert(NodeV::Projection { input: Some(Box::new(*chb)), exprs, names } =~= n);
        },
    }
}

/// Positional invariance: a projection's (output name, expression) pairs
/// come back from a round trip in their original positions — reordering is
/// never introduced by the codec.
pub proof fn lemma_positional_invariance(input: PlanV, exprs: Seq<(ExprV, Seq<char>)>)
    requires
        plan_wf_v(PlanV::Projection { input: Box::new(input), exprs }),
    ensures
        ({
            let p = PlanV::Projection { input: Box::new(input), exprs };
            encode_plan_v(p) matches Ok(n) && decode_plan_v(n) matches Ok(q) && q matches
                PlanV::Projection { input: _, exprs: e2 } && e2 == exprs && (forall|i: int|
                0 <= i < exprs.len() ==> e2[i] == exprs[i])
        }),
{
    lemma_plan_round_trip(PlanV::Projection { input: Box::new(input), exprs });
}


/// Schema equivalence across a round trip: what comes back from
/// `decode(encode(p))` derives exactly the schema `p` derives — and, being
/// the identical tree, produces the same rows when executed.
pub proof fn lemma_round_trip_schema_equivalent(p: PlanV)
    requires
        plan_wf_v(p),
    ensures
        ({
            let n = encode_plan_v(p)->Ok_0;
            encode_plan_v(p) is Ok && (decode_plan_v(n) matches Ok(q) && plan_schema_v(q)
                == plan_schema_v(p))
        }),
{
    lemma_plan_round_trip(p);
}

/// Encoding a plan type with no registry arm fails with `UnsupportedDfPlan`
/// naming the offending type; no default or empty wire node is returned.
pub proof fn lemma_unregistered_plan_rejected(name: Seq<char>)
    ensures
        encode_plan_v(PlanV::Unregistered { name }) == Err::<NodeV, ErrorV>(
            ErrorV::UnsupportedDfPlan { name },
        ),
{
}

/// A wire projection whose child field is unset fails decoding with
/// `MissingField` naming the `input` field, whatever its expression lists
/// hold.
pub proof fn lemma_missing_input_rejected(exprs: Seq<ExprNodeV>, names: Seq<Seq<char>>)
    ensures
        decode_plan_v(NodeV::Projection { input: None, exprs, names }) == Err::<PlanV, ErrorV>(
            ErrorV::MissingField { field: "input"@ },
        ),
{
}

/// A wire node with no discriminator set fails decoding with
/// `EmptyPhysicalPlan`; it never silently defaults to a variant.
pub proof fn lemma_empty_plan_rejected()
    ensures
        decode_plan_v(NodeV::Empty) == Err::<PlanV, ErrorV>(
            ErrorV::EmptyPhysicalPlan { node: NodeV::Empty },
        ),
{
}



} // verus!
