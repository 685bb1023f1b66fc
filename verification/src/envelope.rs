//! The byte envelope: a wire plan tree as a flat byte buffer.
//!
//! The layout is deterministic and self-delimiting: one discriminator byte
//! per node, lengths as 64-bit little-endian integers, characters as 32-bit
//! little-endian Unicode scalar values. Serialization is total;
//! deserialization accepts exactly the byte strings that serialization
//! produces and consumes the whole buffer.

use vstd::prelude::*;

use crate::error::{Error, ErrorV};
use crate::expr::{encode_expr_v, ColumnExprNode, ExprNodeV, ExprType, ExprV, PhysicalExprNode};
use crate::plan::{decode_plan_v, encode_exprs_v, encode_plan_v, ExecutionPlan, PlanV};
use crate::plan::{exprs_of, lemma_plan_round_trip, names_of, plan_wf_v};
use crate::wire::{
    node_view, MockInputExecNode, NodeV, PhysicalPlanNode, PhysicalPlanType, ProjectionExecNode,
};

verus! {

/// The bytes of a 64-bit integer, least significant first.
pub open spec fn u64_le(v: u64) -> Seq<u8> {
    seq![
        (v & 0xff) as u8,
        ((v >> 8) & 0xff) as u8,
        ((v >> 16) & 0xff) as u8,
        ((v >> 24) & 0xff) as u8,
        ((v >> 32) & 0xff) as u8,
        ((v >> 40) & 0xff) as u8,
        ((v >> 48) & 0xff) as u8,
        ((v >> 56) & 0xff) as u8,
    ]
}

/// The 64-bit integer read from eight bytes, least significant first.
pub open spec fn u64_from_le(
    b0: u8,
    b1: u8,
    b2: u8,
    b3: u8,
    b4: u8,
    b5: u8,
    b6: u8,
    b7: u8,
) -> u64 {
    (b0 as u64) | ((b1 as u64) << 8) | ((b2 as u64) << 16) | ((b3 as u64) << 24) | ((b4
        as u64) << 32) | ((b5 as u64) << 40) | ((b6 as u64) << 48) | ((b7 as u64) << 56)
}

/// The bytes of a 32-bit integer, least significant first.
pub open spec fn u32_le(v: u32) -> Seq<u8> {
    seq![(v & 0xff) as u8, ((v >> 8) & 0xff) as u8, ((v >> 16) & 0xff) as u8, ((v >> 24)
        & 0xff) as u8]
}

/// The 32-bit integer read from four bytes, least significant first.
pub open spec fn u32_from_le(b0: u8, b1: u8, b2: u8, b3: u8) -> u32 {
    (b0 as u32) | ((b1 as u32) << 8) | ((b2 as u32) << 16) | ((b3 as u32) << 24)
}

proof fn lemma_u64_le_round_trip(v: u64)
    ensures
        u64_from_le(
            (v & 0xff) as u8,
            ((v >> 8) & 0xff) as u8,
            ((v >> 16) & 0xff) as u8,
            ((v >> 24) & 0xff) as u8,
            ((v >> 32) & 0xff) as u8,
            ((v >> 40) & 0xff) as u8,
            ((v >> 48) & 0xff) as u8,
            ((v >> 56) & 0xff) as u8,
        ) == v,
{
    assert(((v & 0xff) as u8 as u64) | ((((v >> 8) & 0xff) as u8 as u64) << 8) | ((((v >> 16)
        & 0xff) as u8 as u64) << 16) | ((((v >> 24) & 0xff) as u8 as u64) << 24) | ((((v >> 32)
        & 0xff) as u8 as u64) << 32) | ((((v >> 40) & 0xff) as u8 as u64) << 40) | ((((v >> 48)
        & 0xff) as u8 as u64) << 48) | ((((v >> 56) & 0xff) as u8 as u64) << 56) == v)
        by (bit_vector);
}

proof fn lemma_u32_le_round_trip(v: u32)
    ensures
        u32_from_le(
            (v & 0xff) as u8,
            ((v >> 8) & 0xff) as u8,
            ((v >> 16) & 0xff) as u8,
            ((v >> 24) & 0xff) as u8,
        ) == v,
{
    assert(((v & 0xff) as u8 as u32) | ((((v >> 8) & 0xff) as u8 as u32) << 8) | ((((v >> 16)
        & 0xff) as u8 as u32) << 16) | ((((v >> 24) & 0xff) as u8 as u32) << 24) == v)
        by (bit_vector);
}

/// Reads a 64-bit length field.
pub open spec fn deser_u64(b: Seq<u8>, pos: int) -> Option<(u64, int)> {
    if 0 <= pos && pos + 8 <= b.len() {
        Some(
            (
                u64_from_le(
                    b[pos],
                    b[pos + 1],
                    b[pos + 2],
                    b[pos + 3],
                    b[pos + 4],
                    b[pos + 5],
                    b[pos + 6],
                    b[pos + 7],
                ),
                pos + 8,
            ),
        )
    } else {
        None
    }
}

proof fn lemma_deser_ser_u64(b: Seq<u8>, pos: int, v: u64)
    requires
        0 <= pos,
        pos + 8 <= b.len(),
        b.subrange(pos, pos + 8) == u64_le(v),
    ensures
        deser_u64(b, pos) == Some((v, pos + 8)),
{
    assert(b[pos] == u64_le(v)[0] && b[pos + 1] == u64_le(v)[1] && b[pos + 2] == u64_le(v)[2]
        && b[pos + 3] == u64_le(v)[3] && b[pos + 4] == u64_le(v)[4] && b[pos + 5] == u64_le(
    v)[5] && b[pos + 6] == u64_le(v)[6] && b[pos + 7] == u64_le(v)[7]) by {
        assert(b.subrange(pos, pos + 8)[0] == b[pos]);
        assert(b.subrange(pos, pos + 8)[1] == b[pos + 1]);
        assert(b.subrange(pos, pos + 8)[2] == b[pos + 2]);
        assert(b.subrange(pos, pos + 8)[3] == b[pos + 3]);
        assert(b.subrange(pos, pos + 8)[4] == b[pos + 4]);
        assert(b.subrange(pos, pos + 8)[5] == b[pos + 5]);
        assert(b.subrange(pos, pos + 8)[6] == b[pos + 6]);
        assert(b.subrange(pos, pos + 8)[7] == b[pos + 7]);
    }
    lemma_u64_le_round_trip(v);
}

/// A Unicode scalar value: any code point outside the surrogate range.
pub open spec fn valid_code(v: u32) -> bool {
    v <= 0xD7FF || (0xE000 <= v && v <= 0x10FFFF)
}

/// The bytes of one character: its code point, little endian.
pub open spec fn ser_char(c: char) -> Seq<u8> {
    u32_le(c as u32)
}

/// Reads one character; a code point with no character is rejected.
pub open spec fn deser_char(b: Seq<u8>, pos: int) -> Option<(char, int)> {
    if 0 <= pos && pos + 4 <= b.len() {
        let v = u32_from_le(b[pos], b[pos + 1], b[pos + 2], b[pos + 3]);
        if valid_code(v) {
            Some((v as char, pos + 4))
        } else {
            None
        }
    } else {
        None
    }
}

proof fn lemma_deser_ser_char(b: Seq<u8>, pos: int, c: char)
    requires
        0 <= pos,
        pos + 4 <= b.len(),
        b.subrange(pos, pos + 4) == ser_char(c),
    ensures
        deser_char(b, pos) == Some((c, pos + 4)),
{
    assert(b[pos] == u32_le(c as u32)[0] && b[pos + 1] == u32_le(c as u32)[1] && b[pos + 2]
        == u32_le(c as u32)[2] && b[pos + 3] == u32_le(c as u32)[3]) by {
        assert(b.subrange(pos, pos + 4)[0] == b[pos]);
        assert(b.subrange(pos, pos + 4)[1] == b[pos + 1]);
        assert(b.subrange(pos, pos + 4)[2] == b[pos + 2]);
        assert(b.subrange(pos, pos + 4)[3] == b[pos + 3]);
    }
    lemma_u32_le_round_trip(c as u32);
    assert(valid_code(c as u32));
    assert((c as u32) as char == c);
}

/// The bytes of a character sequence, in order.
pub open spec fn ser_chars(s: Seq<char>) -> Seq<u8>
    decreases s.len(),
{
    if s.len() == 0 {
        Seq::empty()
    } else {
        ser_char(s[0]) + ser_chars(s.drop_first())
    }
}

proof fn lemma_ser_chars_len(s: Seq<char>)
    ensures
        ser_chars(s).len() == 4 * s.len(),
    decreases s.len(),
{
    if s.len() > 0 {
        lemma_ser_chars_len(s.drop_first());
    }
}

proof fn lemma_ser_chars_push(s: Seq<char>, c: char)
    ensures
        ser_chars(s.push(c)) == ser_chars(s) + ser_char(c),
    decreases s.len(),
{
    if s.len() == 0 {
        assert(s.push(c)[0] == c);
        assert(s.push(c).drop_first() =~= Seq::<char>::empty());
        assert(ser_chars(Seq::<char>::empty()) =~= Seq::<u8>::empty());
        assert(ser_chars(s.push(c)) == ser_char(c) + ser_chars(Seq::<char>::empty()));
        assert(ser_char(c) + Seq::<u8>::empty() =~= ser_char(c));
        assert(ser_chars(s) + ser_char(c) =~= ser_char(c));
    } else {
        assert(s.push(c).drop_first() =~= s.drop_first().push(c));
        lemma_ser_chars_push(s.drop_first(), c);
        assert(s.push(c)[0] == s[0]);
        assert(ser_chars(s.push(c)) == ser_char(s[0]) + (ser_chars(s.drop_first()) + ser_char(
            c,
        )));
        assert(ser_char(s[0]) + (ser_chars(s.drop_first()) + ser_char(c)) =~= (ser_char(s[0])
            + ser_chars(s.drop_first())) + ser_char(c));
    }
}

/// Reads exactly `count` characters.
pub open spec fn deser_chars(b: Seq<u8>, pos: int, count: int) -> Option<(Seq<char>, int)>
    decreases count,
{
    if count <= 0 {
        Some((Seq::empty(), pos))
    } else {
        match deser_char(b, pos) {
            None => None,
            Some((c, p)) => match deser_chars(b, p, count - 1) {
                None => None,
                Some((rest, p2)) => Some((seq![c] + rest, p2)),
            },
        }
    }
}

proof fn lemma_deser_ser_chars(b: Seq<u8>, pos: int, s: Seq<char>)
    requires
        0 <= pos,
        pos + 4 * s.len() <= b.len(),
        b.subrange(pos, pos + 4 * s.len()) == ser_chars(s),
    ensures
        deser_chars(b, pos, s.len() as int) == Some((s, pos + 4 * s.len())),
    decreases s.len(),
{
    if s.len() == 0 {
        assert(s =~= Seq::<char>::empty());
    } else {
        let tail = s.drop_first();
        lemma_ser_chars_len(tail);
        lemma_ser_chars_len(s);
        assert forall|i: int| 0 <= i < 4 implies #[trigger] b.subrange(pos, pos + 4)[i]
            == ser_char(s[0])[i] by {
            assert(b.subrange(pos, pos + 4)[i] == b[pos + i]);
            assert(b.subrange(pos, pos + 4 * s.len())[i] == b[pos + i]);
        }
        assert(b.subrange(pos, pos + 4) =~= ser_char(s[0]));
        lemma_deser_ser_char(b, pos, s[0]);
        assert forall|i: int| 0 <= i < 4 * tail.len() implies #[trigger] b.subrange(
            pos + 4,
            pos + 4 + 4 * tail.len(),
        )[i] == ser_chars(tail)[i] by {
            assert(b.subrange(pos + 4, pos + 4 + 4 * tail.len())[i] == b[pos + 4 + i]);
            assert(b.subrange(pos, pos + 4 * s.len())[4 + i] == b[pos + 4 + i]);
            assert(ser_chars(s)[4 + i] == ser_chars(tail)[i]);
        }
        assert(b.subrange(pos + 4, pos + 4 + 4 * tail.len()) =~= ser_chars(tail));
        lemma_deser_ser_chars(b, pos + 4, tail);
        assert(seq![s[0]] + tail =~= s);
    }
}

/// The bytes of a string: its character count, then its characters.
pub open spec fn ser_string(s: Seq<char>) -> Seq<u8> {
    u64_le(s.len() as u64) + ser_chars(s)
}

/// Reads a string: a character count, then that many characters. A count
/// that cannot fit in the remaining bytes is rejected.
pub open spec fn deser_string(b: Seq<u8>, pos: int) -> Option<(Seq<char>, int)> {
    match deser_u64(b, pos) {
        None => None,
        Some((len, p)) => if len as int <= (b.len() - p) / 4 {
            deser_chars(b, p, len as int)
        } else {
            None
        },
    }
}

/// A string short enough for its character count to be transmitted.
pub open spec fn string_bounded(s: Seq<char>) -> bool {
    s.len() <= u64::MAX
}

proof fn lemma_deser_ser_string(b: Seq<u8>, pos: int, s: Seq<char>)
    requires
        0 <= pos,
        string_bounded(s),
        pos + ser_string(s).len() <= b.len(),
        b.subrange(pos, pos + ser_string(s).len()) == ser_string(s),
    ensures
        ser_string(s).len() == 8 + 4 * s.len(),
        deser_string(b, pos) == Some((s, pos + ser_string(s).len())),
{
    lemma_ser_chars_len(s);
    let total: int = ser_string(s).len() as int;
    assert forall|i: int| 0 <= i < 8 implies #[trigger] b.subrange(pos, pos + 8)[i] == u64_le(
        s.len() as u64,
    )[i] by {
        assert(b.subrange(pos, pos + 8)[i] == b[pos + i]);
        assert(b.subrange(pos, pos + total)[i] == b[pos + i]);
    }
    assert(b.subrange(pos, pos + 8) =~= u64_le(s.len() as u64));
    lemma_deser_ser_u64(b, pos, s.len() as u64);
    assert((s.len() as u64) as int == s.len() as int);
    assert(s.len() as int <= (b.len() - (pos + 8)) / 4) by (nonlinear_arith)
        requires
            4 * s.len() <= b.len() - (pos + 8),
    ;
    assert forall|i: int| 0 <= i < 4 * s.len() implies #[trigger] b.subrange(
        pos + 8,
        pos + 8 + 4 * s.len(),
    )[i] == ser_chars(s)[i] by {
        assert(b.subrange(pos + 8, pos + 8 + 4 * s.len())[i] == b[pos + 8 + i]);
        assert(b.subrange(pos, pos + total)[8 + i] == b[pos + 8 + i]);
        assert(ser_string(s)[8 + i] == ser_chars(s)[i]);
    }
    assert(b.subrange(pos + 8, pos + 8 + 4 * s.len()) =~= ser_chars(s));
    lemma_deser_ser_chars(b, pos + 8, s);
}

/// One byte of a slice of a larger buffer: slicing commutes with taking a
/// subrange.
proof fn lemma_subrange_slice(b: Seq<u8>, pos: int, total: int, off: int, len: int)
    requires
        0 <= pos,
        pos + total <= b.len(),
        0 <= off,
        0 <= len,
        off + len <= total,
    ensures
        b.subrange(pos + off, pos + off + len) == b.subrange(pos, pos + total).subrange(
            off,
            off + len,
        ),
{
    assert forall|i: int| 0 <= i < len implies #[trigger] b.subrange(
        pos + off,
        pos + off + len,
    )[i] == b.subrange(pos, pos + total).subrange(off, off + len)[i] by {
        assert(b.subrange(pos + off, pos + off + len)[i] == b[pos + off + i]);
        assert(b.subrange(pos, pos + total).subrange(off, off + len)[i] == b.subrange(
            pos,
            pos + total,
        )[off + i]);
        assert(b.subrange(pos, pos + total)[off + i] == b[pos + off + i]);
    }
    assert(b.subrange(pos + off, pos + off + len) =~= b.subrange(pos, pos + total).subrange(
        off,
        off + len,
    ));
}

/// The bytes of one wire expression: a discriminator byte, then the fields
/// of its variant.
pub open spec fn ser_expr(e: ExprNodeV) -> Seq<u8> {
    match e {
        ExprNodeV::Empty => seq![0u8],
        ExprNodeV::Column { name, index } => seq![1u8] + ser_string(name) + u64_le(
            index as u64,
        ),
    }
}

/// A wire expression whose name and column position can be transmitted.
pub open spec fn expr_bounded(e: ExprNodeV) -> bool {
    match e {
        ExprNodeV::Empty => true,
        ExprNodeV::Column { name, index } => string_bounded(name) && 0 <= index <= usize::MAX
            as int,
    }
}

/// Reads one wire expression.
pub open spec fn deser_expr(b: Seq<u8>, pos: int) -> Option<(ExprNodeV, int)> {
    if !(0 <= pos && pos < b.len()) {
        None
    } else if b[pos] == 0 {
        Some((ExprNodeV::Empty, pos + 1))
    } else if b[pos] == 1 {
        match deser_string(b, pos + 1) {
            None => None,
            Some((name, p)) => match deser_u64(b, p) {
                None => None,
                Some((idx, p2)) => if idx <= usize::MAX as u64 {
                    Some((ExprNodeV::Column { name, index: idx as int }, p2))
                } else {
                    None
                },
            },
        }
    } else {
        None
    }
}

proof fn lemma_deser_ser_expr(b: Seq<u8>, pos: int, e: ExprNodeV)
    requires
        0 <= pos,
        expr_bounded(e),
        pos + ser_expr(e).len() <= b.len(),
        b.subrange(pos, pos + ser_expr(e).len()) == ser_expr(e),
    ensures
        ser_expr(e).len() >= 1,
        deser_expr(b, pos) == Some((e, pos + ser_expr(e).len())),
{
    let total: int = ser_expr(e).len() as int;
    match e {
        ExprNodeV::Empty => {
            assert(b.subrange(pos, pos + 1)[0] == b[pos]);
            assert(b[pos] == 0);
        },
        ExprNodeV::Column { name, index } => {
            let ss = ser_string(name);
            lemma_ser_chars_len(name);
            assert(b.subrange(pos, pos + total)[0] == b[pos]);
            assert(ser_expr(e)[0] == 1);
            assert(b[pos] == 1);
            lemma_subrange_slice(b, pos, total, 1, ss.len() as int);
            assert(ser_expr(e).subrange(1, 1 + ss.len() as int) =~= ss);
            lemma_deser_ser_string(b, pos + 1, name);
            lemma_subrange_slice(b, pos, total, 1 + ss.len() as int, 8);
            assert(ser_expr(e).subrange(1 + ss.len() as int, 1 + ss.len() as int + 8)
                =~= u64_le(index as u64));
            lemma_deser_ser_u64(b, pos + 1 + ss.len() as int, index as u64);
            assert((index as u64) as int == index);
            assert(index as u64 <= usize::MAX as u64);
        },
    }
}

/// The bytes of a list of wire expressions, in order.
pub open spec fn ser_exprs(s: Seq<ExprNodeV>) -> Seq<u8>
    decreases s.len(),
{
    if s.len() == 0 {
        Seq::empty()
    } else {
        ser_expr(s[0]) + ser_exprs(s.drop_first())
    }
}

proof fn lemma_ser_exprs_push(s: Seq<ExprNodeV>, e: ExprNodeV)
    ensures
        ser_exprs(s.push(e)) == ser_exprs(s) + ser_expr(e),
    decreases s.len(),
{
    if s.len() == 0 {
        assert(s.push(e)[0] == e);
        assert(s.push(e).drop_first() =~= Seq::<ExprNodeV>::empty());
        assert(ser_exprs(Seq::<ExprNodeV>::empty()) =~= Seq::<u8>::empty());
        assert(ser_exprs(s.push(e)) == ser_expr(e) + ser_exprs(Seq::<ExprNodeV>::empty()));
        assert(ser_expr(e) + Seq::<u8>::empty() =~= ser_expr(e));
        assert(ser_exprs(s) + ser_expr(e) =~= ser_expr(e));
    } else {
        assert(s.push(e).drop_first() =~= s.drop_first().push(e));
        lemma_ser_exprs_push(s.drop_first(), e);
        assert(s.push(e)[0] == s[0]);
        assert(ser_exprs(s.push(e)) == ser_expr(s[0]) + (ser_exprs(s.drop_first()) + ser_expr(
            e,
        )));
        assert(ser_expr(s[0]) + (ser_exprs(s.drop_first()) + ser_expr(e)) =~= (ser_expr(s[0])
            + ser_exprs(s.drop_first())) + ser_expr(e));
    }
}

proof fn lemma_ser_exprs_len(s: Seq<ExprNodeV>)
    ensures
        ser_exprs(s).len() >= s.len(),
    decreases s.len(),
{
    if s.len() > 0 {
        lemma_ser_exprs_len(s.drop_first());
        assert(ser_expr(s[0]).len() >= 1);
    }
}

/// Reads exactly `count` wire expressions.
pub open spec fn deser_exprs(b: Seq<u8>, pos: int, count: int) -> Option<(Seq<ExprNodeV>, int)>
    decreases count,
{
    if count <= 0 {
        Some((Seq::empty(), pos))
    } else {
        match deser_expr(b, pos) {
            None => None,
            Some((e, p)) => match deser_exprs(b, p, count - 1) {
                None => None,
                Some((rest, p2)) => Some((seq![e] + rest, p2)),
            },
        }
    }
}

proof fn lemma_deser_ser_exprs(b: Seq<u8>, pos: int, s: Seq<ExprNodeV>)
    requires
        0 <= pos,
        forall|i: int| 0 <= i < s.len() ==> expr_bounded(#[trigger] s[i]),
        pos + ser_exprs(s).len() <= b.len(),
        b.subrange(pos, pos + ser_exprs(s).len()) == ser_exprs(s),
    ensures
        deser_exprs(b, pos, s.len() as int) == Some((s, pos + ser_exprs(s).len())),
    decreases s.len(),
{
    if s.len() == 0 {
        assert(s =~= Seq::<ExprNodeV>::empty());
    } else {
        let tail = s.drop_first();
        let e0 = ser_expr(s[0]);
        let total: int = ser_exprs(s).len() as int;
        assert(ser_exprs(s) == e0 + ser_exprs(tail));
        lemma_subrange_slice(b, pos, total, 0, e0.len() as int);
        assert(ser_exprs(s).subrange(0, e0.len() as int) =~= e0);
        lemma_deser_ser_expr(b, pos, s[0]);
        lemma_subrange_slice(b, pos, total, e0.len() as int, ser_exprs(tail).len() as int);
        assert(ser_exprs(s).subrange(e0.len() as int, total) =~= ser_exprs(tail));
        lemma_deser_ser_exprs(b, pos + e0.len(), tail);
        assert(seq![s[0]] + tail =~= s);
    }
}

/// The bytes of a list of output names, in order.
pub open spec fn ser_names(s: Seq<Seq<char>>) -> Seq<u8>
    decreases s.len(),
{
    if s.len() == 0 {
        Seq::empty()
    } else {
        ser_string(s[0]) + ser_names(s.drop_first())
    }
}

proof fn lemma_ser_names_push(s: Seq<Seq<char>>, name: Seq<char>)
    ensures
        ser_names(s.push(name)) == ser_names(s) + ser_string(name),
    decreases s.len(),
{
    if s.len() == 0 {
        assert(s.push(name)[0] == name);
        assert(s.push(name).drop_first() =~= Seq::<Seq<char>>::empty());
        assert(ser_names(Seq::<Seq<char>>::empty()) =~= Seq::<u8>::empty());
        assert(ser_names(s.push(name)) == ser_string(name) + ser_names(
            Seq::<Seq<char>>::empty(),
        ));
        assert(ser_string(name) + Seq::<u8>::empty() =~= ser_string(name));
        assert(ser_names(s) + ser_string(name) =~= ser_string(name));
    } else {
        assert(s.push(name).drop_first() =~= s.drop_first().push(name));
        lemma_ser_names_push(s.drop_first(), name);
        assert(s.push(name)[0] == s[0]);
        assert(ser_names(s.push(name)) == ser_string(s[0]) + (ser_names(s.drop_first())
            + ser_string(name)));
        assert(ser_string(s[0]) + (ser_names(s.drop_first()) + ser_string(name)) =~= (
        ser_string(s[0]) + ser_names(s.drop_first())) + ser_string(name));
    }
}

proof fn lemma_ser_names_len(s: Seq<Seq<char>>)
    ensures
        ser_names(s).len() >= s.len(),
    decreases s.len(),
{
    if s.len() > 0 {
        lemma_ser_names_len(s.drop_first());
        lemma_ser_chars_len(s[0]);
    }
}

/// Reads exactly `count` output names.
pub open spec fn deser_names(b: Seq<u8>, pos: int, count: int) -> Option<(Seq<Seq<char>>, int)>
    decreases count,
{
    if count <= 0 {
        Some((Seq::empty(), pos))
    } else {
        match deser_string(b, pos) {
            None => None,
            Some((name, p)) => match deser_names(b, p, count - 1) {
                None => None,
                Some((rest, p2)) => Some((seq![name] + rest, p2)),
            },
        }
    }
}

proof fn lemma_deser_ser_names(b: Seq<u8>, pos: int, s: Seq<Seq<char>>)
    requires
        0 <= pos,
        forall|i: int| 0 <= i < s.len() ==> string_bounded(#[trigger] s[i]),
        pos + ser_names(s).len() <= b.len(),
        b.subrange(pos, pos + ser_names(s).len()) == ser_names(s),
    ensures
        deser_names(b, pos, s.len() as int) == Some((s, pos + ser_names(s).len())),
    decreases s.len(),
{
    if s.len() == 0 {
        assert(s =~= Seq::<Seq<char>>::empty());
    } else {
        let tail = s.drop_first();
        let n0 = ser_string(s[0]);
        let total: int = ser_names(s).len() as int;
        assert(ser_names(s) == n0 + ser_names(tail));
        lemma_subrange_slice(b, pos, total, 0, n0.len() as int);
        assert(ser_names(s).subrange(0, n0.len() as int) =~= n0);
        lemma_deser_ser_string(b, pos, s[0]);
        lemma_subrange_slice(b, pos, total, n0.len() as int, ser_names(tail).len() as int);
        assert(ser_names(s).subrange(n0.len() as int, total) =~= ser_names(tail));
        lemma_deser_ser_names(b, pos + n0.len(), tail);
        assert(seq![s[0]] + tail =~= s);
    }
}

/// The bytes of a projection's optional child: a presence byte, then the
/// child node when present.
pub open spec fn ser_opt_node(o: Option<Box<NodeV>>) -> Seq<u8>
    decreases o,
{
    match o {
        None => seq![0u8],
        Some(child) => seq![1u8] + ser_node(*child),
    }
}

/// The bytes of a wire plan node: a discriminator byte, then the fields of
/// its variant, children included.
pub open spec fn ser_node(n: NodeV) -> Seq<u8>
    decreases n,
{
    match n {
        NodeV::Empty => seq![0u8],
        NodeV::Projection { input, exprs, names } => seq![1u8] + ser_opt_node(input) + u64_le(
            exprs.len() as u64,
        ) + ser_exprs(exprs) + u64_le(names.len() as u64) + ser_names(names),
        NodeV::Mock { name } => seq![2u8] + ser_string(name),
    }
}

/// A wire tree whose strings, lists and column positions are small enough
/// for their lengths to be transmitted; every tree that exists in memory is.
pub open spec fn node_bounded(n: NodeV) -> bool
    decreases n,
{
    match n {
        NodeV::Empty => true,
        NodeV::Mock { name } => string_bounded(name),
        NodeV::Projection { input, exprs, names } => exprs.len() <= u64::MAX && names.len()
            <= u64::MAX && (match input {
            Some(child) => node_bounded(*child),
            None => true,
        }) && (forall|i: int| 0 <= i < exprs.len() ==> expr_bounded(#[trigger] exprs[i])) && (
        forall|i: int| 0 <= i < names.len() ==> string_bounded(#[trigger] names[i]))
    }
}

/// Reads the body of a projection node, its child already read: the
/// expression list, then the output-name list, each count-prefixed. A count
/// that cannot fit in the remaining bytes is rejected.
pub open spec fn deser_proj_body(b: Seq<u8>, pos: int, input: Option<Box<NodeV>>) -> Option<
    (NodeV, int),
> {
    match deser_u64(b, pos) {
        None => None,
        Some((ne, p1)) => if !(ne as int <= b.len() - p1) {
            None
        } else {
            match deser_exprs(b, p1, ne as int) {
                None => None,
                Some((exprs, p2)) => match deser_u64(b, p2) {
                    None => None,
                    Some((nn, p3)) => if !(nn as int <= b.len() - p3) {
                        None
                    } else {
                        match deser_names(b, p3, nn as int) {
                            None => None,
                            Some((names, p4)) => Some(
                                (NodeV::Projection { input, exprs, names }, p4),
                            ),
                        }
                    },
                },
            }
        },
    }
}

/// Reads one wire plan node, children included.
pub open spec fn deser_node(b: Seq<u8>, pos: int) -> Option<(NodeV, int)>
    decreases b.len() - pos,
{
    if !(0 <= pos && pos < b.len()) {
        None
    } else if b[pos] == 0 {
        Some((NodeV::Empty, pos + 1))
    } else if b[pos] == 2 {
        match deser_string(b, pos + 1) {
            None => None,
            Some((name, p)) => Some((NodeV::Mock { name }, p)),
        }
    } else if b[pos] == 1 {
        if !(pos + 1 < b.len()) {
            None
        } else if b[pos + 1] == 0 {
            deser_proj_body(b, pos + 2, None)
        } else if b[pos + 1] == 1 {
            match deser_node(b, pos + 2) {
                None => None,
                Some((child, p)) => deser_proj_body(b, p, Some(Box::new(child))),
            }
        } else {
            None
        }
    } else {
        None
    }
}

/// What a whole byte buffer holds: one wire plan node, spanning the buffer
/// exactly.
pub open spec fn deser_node_full(b: Seq<u8>) -> Option<NodeV> {
    match deser_node(b, 0) {
        Some((n, p)) => if p == b.len() {
            Some(n)
        } else {
            None
        },
        None => None,
    }
}

/// Reading back what was written: a bounded wire tree deserializes from its
/// own serialization, wherever it stands in a larger buffer, consuming
/// exactly its own bytes.
#[verifier::spinoff_prover]
#[verifier::rlimit(100)]
proof fn lemma_deser_ser_node(b: Seq<u8>, pos: int, n: NodeV)
    requires
        0 <= pos,
        node_bounded(n),
        pos + ser_node(n).len() <= b.len(),
        b.subrange(pos, pos + ser_node(n).len()) == ser_node(n),
    ensures
        deser_node(b, pos) == Some((n, pos + ser_node(n).len())),
    decreases n,
{
    let total: int = ser_node(n).len() as int;
    match n {
        NodeV::Empty => {
            assert(b.subrange(pos, pos + 1)[0] == b[pos]);
            assert(b[pos] == 0);
        },
        NodeV::Mock { name } => {
            assert(b.subrange(pos, pos + total)[0] == b[pos]);
            assert(ser_node(n)[0] == 2);
            assert(b[pos] == 2);
            lemma_ser_chars_len(name);
            lemma_subrange_slice(b, pos, total, 1, ser_string(name).len() as int);
            assert(ser_node(n).subrange(1, 1 + ser_string(name).len() as int) =~= ser_string(name));
            lemma_deser_ser_string(b, pos + 1, name);
        },
        NodeV::Projection { input, exprs, names } => {
            let sop = ser_opt_node(input);
            let se = ser_exprs(exprs);
            let sn = ser_names(names);
            let o1: int = 1 + sop.len() as int;
            let o2: int = o1 + 8;
            let o3: int = o2 + se.len() as int;
            let o4: int = o3 + 8;
            assert(total == o4 + sn.len());
            assert(b.subrange(pos, pos + total)[0] == b[pos]);
            assert(ser_node(n)[0] == 1);
            assert(b[pos] == 1);
            // the optional child
            lemma_subrange_slice(b, pos, total, 1, sop.len() as int);
            assert(ser_node(n).subrange(1, o1) =~= sop);
            match input {
                None => {
                    assert(b.subrange(pos + 1, pos + 1 + 1)[0] == b[pos + 1]);
                    assert(b[pos + 1] == 0);
                    assert(deser_node(b, pos) == deser_proj_body(b, pos + 2, input));
                },
                Some(child) => {
                    assert(b.subrange(pos + 1, pos + o1)[0] == b[pos + 1]);
                    assert(sop[0] == 1);
                    assert(b[pos + 1] == 1);
                    lemma_subrange_slice(b, pos + 1, sop.len() as int, 1, ser_node(
                        *child,
                    ).len() as int);
                    assert(sop.subrange(1, 1 + ser_node(*child).len() as int) =~= ser_node(
                        *child,
                    ));
                    lemma_deser_ser_node(b, pos + 2, *child);
                    assert(deser_node(b, pos) == deser_proj_body(
                        b,
                        pos + 2 + ser_node(*child).len(),
                        Some(Box::new(*child)),
                    ));
                    assert(Some(Box::new(*child)) == input);
                    assert(pos + 2 + ser_node(*child).len() == pos + o1);
                },
            }
            // the expression count and list
            lemma_subrange_slice(b, pos, total, o1, 8);
            assert(ser_node(n).subrange(o1, o2) =~= u64_le(exprs.len() as u64));
            lemma_deser_ser_u64(b, pos + o1, exprs.len() as u64);
            assert((exprs.len() as u64) as int == exprs.len() as int);
            lemma_ser_exprs_len(exprs);
            lemma_subrange_slice(b, pos, total, o2, se.len() as int);
            assert(ser_node(n).subrange(o2, o3) =~= se);
            lemma_deser_ser_exprs(b, pos + o2, exprs);
            // the name count and list
            lemma_subrange_slice(b, pos, total, o3, 8);
            assert(ser_node(n).subrange(o3, o4) =~= u64_le(names.len() as u64));
            lemma_deser_ser_u64(b, pos + o3, names.len() as u64);
            assert((names.len() as u64) as int == names.len() as int);
            lemma_ser_names_len(names);
            lemma_subrange_slice(b, pos, total, o4, sn.len() as int);
            assert(ser_node(n).subrange(o4, pos + total - pos) =~= sn);
            lemma_deser_ser_names(b, pos + o4, names);
            assert(deser_proj_body(b, pos + o1, input) == Some((n, pos + total)));
        },
    }
}

/// Relies on `char::from_u32`: returns the character with the given code
/// point, or `None` when the value is a surrogate code point or lies above
/// the Unicode range.
#[verifier::external_body]
fn char_from_u32(v: u32) -> (r: Option<char>)
    ensures
        r == (if valid_code(v) {
            Some(v as char)
        } else {
            None::<char>
        }),
{
    char::from_u32(v)
}

/// Relies on `String::push`: appends the given character to the end of the
/// string.
#[verifier::external_body]
fn push_char(s: &mut String, c: char)
    ensures
        final(s)@ == old(s)@.push(c),
{
    s.push(c)
}

fn write_u64(out: &mut Vec<u8>, v: u64)
    ensures
        final(out)@ == old(out)@ + u64_le(v),
{
    out.push((v & 0xff) as u8);
    out.push(((v >> 8) & 0xff) as u8);
    out.push(((v >> 16) & 0xff) as u8);
    out.push(((v >> 24) & 0xff) as u8);
    out.push(((v >> 32) & 0xff) as u8);
    out.push(((v >> 40) & 0xff) as u8);
    out.push(((v >> 48) & 0xff) as u8);
    out.push(((v >> 56) & 0xff) as u8);
    proof {
        assert(out@ =~= old(out)@ + u64_le(v));
    }
}

fn write_char(out: &mut Vec<u8>, c: char)
    ensures
        final(out)@ == old(out)@ + ser_char(c),
{
    let v: u32 = c as u32;
    out.push((v & 0xff) as u8);
    out.push(((v >> 8) & 0xff) as u8);
    out.push(((v >> 16) & 0xff) as u8);
    out.push(((v >> 24) & 0xff) as u8);
    proof {
        assert(out@ =~= old(out)@ + ser_char(c));
    }
}

fn write_string(out: &mut Vec<u8>, s: &str)
    ensures
        final(out)@ == old(out)@ + ser_string(s@),
{
    let l = s.unicode_len();
    write_u64(out, l as u64);
    let ghost base = out@;
    proof {
        assert(s@.take(0) =~= Seq::<char>::empty());
        assert(ser_chars(Seq::<char>::empty()) =~= Seq::<u8>::empty());
        assert(base + ser_chars(s@.take(0)) =~= base);
    }
    let mut i: usize = 0;
    while i < l
        invariant
            i <= l,
            l as nat == s@.len(),
            out@ == base + ser_chars(s@.take(i as int)),
        decreases l - i,
    {
        let c = s.get_char(i);
        write_char(out, c);
        proof {
            lemma_ser_chars_push(s@.take(i as int), s@[i as int]);
            assert(s@.take(i as int).push(s@[i as int]) =~= s@.take(i + 1));
            assert(out@ =~= base + ser_chars(s@.take(i + 1)));
        }
        i += 1;
    }
    proof {
        assert(s@.take(l as int) =~= s@);
        assert((l as u64) == (s@.len() as u64));
        assert(out@ =~= old(out)@ + ser_string(s@));
    }
}

fn write_expr(out: &mut Vec<u8>, e: &PhysicalExprNode)
    ensures
        final(out)@ == old(out)@ + ser_expr(e@),
{
    match &e.expr_type {
        None => {
            out.push(0u8);
            proof {
                assert(out@ =~= old(out)@ + ser_expr(e@));
            }
        },
        Some(ExprType::Column(c)) => {
            out.push(1u8);
            write_string(out, c.name.as_str());
            write_u64(out, c.index as u64);
            proof {
                assert(out@ =~= old(out)@ + ser_expr(e@));
            }
        },
    }
}

/// The model of a wire node's optional child.
pub open spec fn opt_node_view(o: Option<Box<PhysicalPlanNode>>) -> Option<Box<NodeV>> {
    match o {
        None => None,
        Some(child) => Some(Box::new(node_view(*child))),
    }
}

fn write_node(out: &mut Vec<u8>, n: &PhysicalPlanNode)
    ensures
        final(out)@ == old(out)@ + ser_node(n@),
    decreases *n,
{
    match &n.physical_plan_type {
        None => {
            out.push(0u8);
            proof {
                assert(out@ =~= old(out)@ + ser_node(n@));
            }
        },
        Some(PhysicalPlanType::Mock(m)) => {
            out.push(2u8);
            write_string(out, m.name.as_str());
            proof {
                assert(out@ =~= old(out)@ + ser_node(n@));
            }
        },
        Some(PhysicalPlanType::Projection(p)) => {
            out.push(1u8);
            match &p.input {
                None => {
                    out.push(0u8);
                },
                Some(child) => {
                    out.push(1u8);
                    write_node(out, child);
                },
            }
            proof {
                assert(out@ =~= old(out)@ + seq![1u8] + ser_opt_node(
                    opt_node_view(p.input),
                ));
            }
            let ghost base1 = out@;
            write_u64(out, p.expr.len() as u64);
            let ghost base2 = out@;
            proof {
                let ev = p.expr@.map_values(|e: PhysicalExprNode| e@);
                assert(ev.take(0) =~= Seq::<ExprNodeV>::empty());
                assert(ser_exprs(Seq::<ExprNodeV>::empty()) =~= Seq::<u8>::empty());
                assert(base2 + ser_exprs(ev.take(0)) =~= base2);
            }
            let mut i: usize = 0;
            while i < p.expr.len()
                invariant
                    i <= p.expr@.len(),
                    out@ == base2 + ser_exprs(
                        p.expr@.map_values(|e: PhysicalExprNode| e@).take(i as int),
                    ),
                decreases p.expr@.len() - i,
            {
                write_expr(out, &p.expr[i]);
                proof {
                    let ev = p.expr@.map_values(|e: PhysicalExprNode| e@);
                    lemma_ser_exprs_push(ev.take(i as int), ev[i as int]);
                    assert(ev.take(i as int).push(ev[i as int]) =~= ev.take(i + 1));
                    assert(ev[i as int] == p.expr@[i as int]@);
                    assert(out@ =~= base2 + ser_exprs(ev.take(i + 1)));
                }
                i += 1;
            }
            proof {
                let ev = p.expr@.map_values(|e: PhysicalExprNode| e@);
                assert(ev.take(p.expr@.len() as int) =~= ev);
            }
            write_u64(out, p.expr_name.len() as u64);
            let ghost base3 = out@;
            proof {
                let nv = p.expr_name@.map_values(|sn: String| sn@);
                assert(nv.take(0) =~= Seq::<Seq<char>>::empty());
                assert(ser_names(Seq::<Seq<char>>::empty()) =~= Seq::<u8>::empty());
                assert(base3 + ser_names(nv.take(0)) =~= base3);
            }
            let mut j: usize = 0;
            while j < p.expr_name.len()
                invariant
                    j <= p.expr_name@.len(),
                    out@ == base3 + ser_names(
                        p.expr_name@.map_values(|sn: String| sn@).take(j as int),
                    ),
                decreases p.expr_name@.len() - j,
            {
                write_string(out, p.expr_name[j].as_str());
                proof {
                    let nv = p.expr_name@.map_values(|sn: String| sn@);
                    lemma_ser_names_push(nv.take(j as int), nv[j as int]);
                    assert(nv.take(j as int).push(nv[j as int]) =~= nv.take(j + 1));
                    assert(nv[j as int] == p.expr_name@[j as int]@);
                    assert(out@ =~= base3 + ser_names(nv.take(j + 1)));
                }
                j += 1;
            }
            proof {
                let nv = p.expr_name@.map_values(|sn: String| sn@);
                assert(nv.take(p.expr_name@.len() as int) =~= nv);
                assert(n@ == (NodeV::Projection {
                    input: opt_node_view(p.input),
                    exprs: p.expr@.map_values(|e: PhysicalExprNode| e@),
                    names: nv,
                }));
                assert(out@ =~= old(out)@ + ser_node(n@));
            }
        },
    }
}

fn read_u64(b: &Vec<u8>, pos: usize) -> (r: Option<(u64, usize)>)
    ensures
        match r {
            Some((v, p)) => deser_u64(b@, pos as int) == Some((v, p as int)) && p <= b@.len(),
            None => deser_u64(b@, pos as int) is None,
        },
{
    if b.len() < 8 || pos > b.len() - 8 {
        return None;
    }
    let v = (b[pos] as u64) | ((b[pos + 1] as u64) << 8u64) | ((b[pos + 2] as u64) << 16u64) | ((
    b[pos + 3] as u64) << 24u64) | ((b[pos + 4] as u64) << 32u64) | ((b[pos + 5] as u64)
        << 40u64) | ((b[pos + 6] as u64) << 48u64) | ((b[pos + 7] as u64) << 56u64);
    Some((v, pos + 8))
}

fn read_char(b: &Vec<u8>, pos: usize) -> (r: Option<(char, usize)>)
    ensures
        match r {
            Some((c, p)) => deser_char(b@, pos as int) == Some((c, p as int)) && p <= b@.len(),
            None => deser_char(b@, pos as int) is None,
        },
{
    if b.len() < 4 || pos > b.len() - 4 {
        return None;
    }
    let v = (b[pos] as u32) | ((b[pos + 1] as u32) << 8u32) | ((b[pos + 2] as u32) << 16u32) | ((
    b[pos + 3] as u32) << 24u32);
    match char_from_u32(v) {
        Some(c) => Some((c, pos + 4)),
        None => None,
    }
}

fn read_string(b: &Vec<u8>, pos: usize) -> (r: Option<(String, usize)>)
    ensures
        match r {
            Some((s2, p)) => deser_string(b@, pos as int) == Some((s2@, p as int)) && p
                <= b@.len(),
            None => deser_string(b@, pos as int) is None,
        },
{
    let (len64, p1) = match read_u64(b, pos) {
        Some(x) => x,
        None => {
            return None;
        },
    };
    let rem = b.len() - p1;
    if len64 > (rem / 4) as u64 {
        return None;
    }
    let cnt = len64 as usize;
    let mut s = String::new();
    let mut p = p1;
    let mut i: usize = 0;
    while i < cnt
        invariant
            i <= cnt,
            p <= b@.len(),
            deser_u64(b@, pos as int) == Some((len64, p1 as int)),
            len64 as int <= (b@.len() - p1 as int) / 4,
            cnt as int == len64 as int,
            (match deser_chars(b@, p as int, (cnt - i) as int) {
                None => deser_chars(b@, p1 as int, cnt as int) is None,
                Some((rest, pe)) => deser_chars(b@, p1 as int, cnt as int) == Some(
                    (s@ + rest, pe),
                ),
            }),
        decreases cnt - i,
    {
        let (c, p2) = match read_char(b, p) {
            Some(x) => x,
            None => {
                return None;
            },
        };
        let ghost s_old = s@;
        push_char(&mut s, c);
        proof {
            let n_rem = (cnt - i) as int;
            if deser_chars(b@, p2 as int, n_rem - 1) is Some {
                let (r2, pe) = deser_chars(b@, p2 as int, n_rem - 1)->Some_0;
                assert(s_old + (seq![c] + r2) =~= (s_old.push(c)) + r2);
            }
        }
        p = p2;
        i += 1;
    }
    proof {
        assert(s@ + Seq::<char>::empty() =~= s@);
    }
    Some((s, p))
}

fn read_expr(b: &Vec<u8>, pos: usize) -> (r: Option<(PhysicalExprNode, usize)>)
    ensures
        match r {
            Some((e, p)) => deser_expr(b@, pos as int) == Some((e@, p as int)) && p <= b@.len(),
            None => deser_expr(b@, pos as int) is None,
        },
{
    if pos >= b.len() {
        return None;
    }
    let tag = b[pos];
    if tag == 0 {
        return Some((PhysicalExprNode { expr_type: None }, pos + 1));
    }
    if tag != 1 {
        return None;
    }
    let (name, p1) = match read_string(b, pos + 1) {
        Some(x) => x,
        None => {
            return None;
        },
    };
    let (idx, p2) = match read_u64(b, p1) {
        Some(x) => x,
        None => {
            return None;
        },
    };
    if idx > usize::MAX as u64 {
        return None;
    }
    Some(
        (
            PhysicalExprNode {
                expr_type: Some(
                    ExprType::Column(ColumnExprNode { name, index: idx as usize }),
                ),
            },
            p2,
        ),
    )
}

fn read_proj_body(b: &Vec<u8>, pos: usize, input: Option<Box<PhysicalPlanNode>>) -> (r: Option<
    (PhysicalPlanNode, usize),
>)
    ensures
        match r {
            Some((n, p)) => deser_proj_body(b@, pos as int, opt_node_view(input)) == Some(
                (n@, p as int),
            ) && p <= b@.len(),
            None => deser_proj_body(b@, pos as int, opt_node_view(input)) is None,
        },
{
    let (ne, p1) = match read_u64(b, pos) {
        Some(x) => x,
        None => {
            return None;
        },
    };
    if ne > (b.len() - p1) as u64 {
        return None;
    }
    let cnt_e = ne as usize;
    let mut exprs: Vec<PhysicalExprNode> = Vec::new();
    let mut p = p1;
    let mut i: usize = 0;
    proof {
        assert(exprs@.map_values(|e: PhysicalExprNode| e@) =~= Seq::<ExprNodeV>::empty());
    }
    while i < cnt_e
        invariant
            i <= cnt_e,
            p <= b@.len(),
            deser_u64(b@, pos as int) == Some((ne, p1 as int)),
            ne as int <= b@.len() - p1 as int,
            cnt_e as int == ne as int,
            exprs@.len() == i,
            (match deser_exprs(b@, p as int, (cnt_e - i) as int) {
                None => deser_exprs(b@, p1 as int, cnt_e as int) is None,
                Some((rest, pe)) => deser_exprs(b@, p1 as int, cnt_e as int) == Some(
                    (exprs@.map_values(|e: PhysicalExprNode| e@) + rest, pe),
                ),
            }),
        decreases cnt_e - i,
    {
        let (e, p2) = match read_expr(b, p) {
            Some(x) => x,
            None => {
                return None;
            },
        };
        let ghost acc_old = exprs@.map_values(|e: PhysicalExprNode| e@);
        exprs.push(e);
        proof {
            let n_rem = (cnt_e - i) as int;
            assert(exprs@.map_values(|e: PhysicalExprNode| e@) =~= acc_old.push(e@));
            if deser_exprs(b@, p2 as int, n_rem - 1) is Some {
                let (r2, pe) = deser_exprs(b@, p2 as int, n_rem - 1)->Some_0;
                assert(acc_old + (seq![e@] + r2) =~= (acc_old.push(e@)) + r2);
            }
        }
        p = p2;
        i += 1;
    }
    proof {
        assert(exprs@.map_values(|e: PhysicalExprNode| e@) + Seq::<ExprNodeV>::empty()
            =~= exprs@.map_values(|e: PhysicalExprNode| e@));
    }
    let (nn, p3) = match read_u64(b, p) {
        Some(x) => x,
        None => {
            return None;
        },
    };
    if nn > (b.len() - p3) as u64 {
        return None;
    }
    let cnt_n = nn as usize;
    let mut names: Vec<String> = Vec::new();
    let mut q = p3;
    let mut j: usize = 0;
    proof {
        assert(names@.map_values(|sn: String| sn@) =~= Seq::<Seq<char>>::empty());
    }
    while j < cnt_n
        invariant
            j <= cnt_n,
            q <= b@.len(),
            deser_u64(b@, pos as int) == Some((ne, p1 as int)),
            ne as int <= b@.len() - p1 as int,
            cnt_e as int == ne as int,
            deser_exprs(b@, p1 as int, cnt_e as int) == Some(
                (exprs@.map_values(|e: PhysicalExprNode| e@), p as int),
            ),
            deser_u64(b@, p as int) == Some((nn, p3 as int)),
            nn as int <= b@.len() - p3 as int,
            cnt_n as int == nn as int,
            names@.len() == j,
            (match deser_names(b@, q as int, (cnt_n - j) as int) {
                None => deser_names(b@, p3 as int, cnt_n as int) is None,
                Some((rest, pe)) => deser_names(b@, p3 as int, cnt_n as int) == Some(
                    (names@.map_values(|sn: String| sn@) + rest, pe),
                ),
            }),
        decreases cnt_n - j,
    {
        let (sname, q2) = match read_string(b, q) {
            Some(x) => x,
            None => {
                return None;
            },
        };
        let ghost acc_old = names@.map_values(|sn: String| sn@);
        let ghost sv = sname@;
        names.push(sname);
        proof {
            let n_rem = (cnt_n - j) as int;
            assert(names@.map_values(|sn: String| sn@) =~= acc_old.push(sv));
            if deser_names(b@, q2 as int, n_rem - 1) is Some {
                let (r2, pe) = deser_names(b@, q2 as int, n_rem - 1)->Some_0;
                assert(acc_old + (seq![sv] + r2) =~= (acc_old.push(sv)) + r2);
            }
        }
        q = q2;
        j += 1;
    }
    proof {
        assert(names@.map_values(|sn: String| sn@) + Seq::<Seq<char>>::empty()
            =~= names@.map_values(|sn: String| sn@));
    }
    let node = PhysicalPlanNode {
        physical_plan_type: Some(
            PhysicalPlanType::Projection(
                Box::new(ProjectionExecNode { input, expr: exprs, expr_name: names }),
            ),
        ),
    };
    Some((node, q))
}

fn read_node(b: &Vec<u8>, pos: usize) -> (r: Option<(PhysicalPlanNode, usize)>)
    ensures
        match r {
            Some((n, p)) => deser_node(b@, pos as int) == Some((n@, p as int)) && p <= b@.len(),
            None => deser_node(b@, pos as int) is None,
        },
    decreases b@.len() - pos,
{
    if pos >= b.len() {
        return None;
    }
    let tag = b[pos];
    if tag == 0 {
        return Some((PhysicalPlanNode { physical_plan_type: None }, pos + 1));
    }
    if tag == 2 {
        let (name, p) = match read_string(b, pos + 1) {
            Some(x) => x,
            None => {
                return None;
            },
        };
        return Some(
            (
                PhysicalPlanNode {
                    physical_plan_type: Some(PhysicalPlanType::Mock(MockInputExecNode { name })),
                },
                p,
            ),
        );
    }
    if tag != 1 {
        return None;
    }
    if pos + 1 >= b.len() {
        return None;
    }
    let flag = b[pos + 1];
    if flag == 0 {
        read_proj_body(b, pos + 2, None)
    } else if flag == 1 {
        let (child, p0) = match read_node(b, pos + 2) {
            Some(x) => x,
            None => {
                return None;
            },
        };
        read_proj_body(b, p0, Some(Box::new(child)))
    } else {
        None
    }
}

/// An executable expression whose name and column position can be
/// transmitted; every expression that exists in memory is.
pub open spec fn expr_v_bounded(e: ExprV) -> bool {
    match e {
        ExprV::Column { name, index } => string_bounded(name) && 0 <= index <= usize::MAX
            as int,
        ExprV::Unregistered { .. } => true,
    }
}

/// A plan tree whose strings, pair lists and column positions are small
/// enough for their lengths to be transmitted; every tree that exists in
/// memory is.
pub open spec fn plan_bounded_v(p: PlanV) -> bool
    decreases p,
{
    match p {
        PlanV::Mock { name } => string_bounded(name),
        PlanV::Unregistered { .. } => true,
        PlanV::Projection { input, exprs } => plan_bounded_v(*input) && exprs.len() <= u64::MAX
            && (forall|i: int|
            0 <= i < exprs.len() ==> expr_v_bounded((#[trigger] exprs[i]).0) && (
            exprs[i]).1.len() <= u64::MAX),
    }
}

proof fn lemma_encode_exprs_bounded(s: Seq<ExprV>)
    requires
        forall|i: int| 0 <= i < s.len() ==> expr_v_bounded(#[trigger] s[i]),
        encode_exprs_v(s) is Ok,
    ensures
        ({
            let ens = encode_exprs_v(s)->Ok_0;
            ens.len() == s.len() && (forall|i: int|
                0 <= i < ens.len() ==> expr_bounded(#[trigger] ens[i]))
        }),
    decreases s.len(),
{
    if s.len() > 0 {
        lemma_encode_exprs_bounded(s.drop_last());
        let rest = encode_exprs_v(s.drop_last())->Ok_0;
        let ens = encode_exprs_v(s)->Ok_0;
        assert(ens == rest.push(encode_expr_v(s.last())->Ok_0));
        assert(expr_v_bounded(s.last()));
        assert forall|i: int| 0 <= i < ens.len() implies expr_bounded(#[trigger] ens[i]) by {
            if i < ens.len() - 1 {
                assert(ens[i] == rest[i]);
            }
        }
    }
}

proof fn lemma_encode_bounded(p: PlanV)
    requires
        plan_bounded_v(p),
        encode_plan_v(p) is Ok,
    ensures
        node_bounded(encode_plan_v(p)->Ok_0),
    decreases p,
{
    match p {
        PlanV::Mock { .. } => {},
        PlanV::Unregistered { .. } => {},
        PlanV::Projection { input, exprs } => {
            lemma_encode_bounded(*input);
            assert forall|i: int| 0 <= i < exprs_of(exprs).len() implies expr_v_bounded(
                #[trigger] exprs_of(exprs)[i],
            ) by {
                assert(exprs_of(exprs)[i] == exprs[i].0);
            }
            lemma_encode_exprs_bounded(exprs_of(exprs));
            let n = encode_plan_v(p)->Ok_0;
            assert(n matches NodeV::Projection { input: _, exprs: ens, names } && names
                == names_of(exprs));
            assert forall|i: int| 0 <= i < names_of(exprs).len() implies string_bounded(
                #[trigger] names_of(exprs)[i],
            ) by {
                assert(names_of(exprs)[i] == exprs[i].1);
            }
        },
    }
}

impl PhysicalPlanNode {
    /// Serializes this wire node, children included, into a byte buffer.
    pub fn to_bytes(&self) -> (r: Vec<u8>)
        ensures
            r@ == ser_node(self@),
    {
        let mut out: Vec<u8> = Vec::new();
        write_node(&mut out, self);
        proof {
            assert(Seq::<u8>::empty() + ser_node(self@) =~= ser_node(self@));
        }
        out
    }

    /// Parses a byte buffer as one wire node spanning the buffer exactly;
    /// fails with `DecodePhysicalPlanNode` on any malformed or trailing
    /// bytes.
    pub fn from_bytes(bytes: &Vec<u8>) -> (r: Result<PhysicalPlanNode, Error>)
        ensures
            match r {
                Ok(n) => deser_node_full(bytes@) == Some(n@),
                Err(e) => deser_node_full(bytes@) is None && e@
                    == ErrorV::DecodePhysicalPlanNode,
            },
    {
        match read_node(bytes, 0) {
            Some((n, p)) => if p == bytes.len() {
                Ok(n)
            } else {
                Err(Error::DecodePhysicalPlanNode)
            },
            None => Err(Error::DecodePhysicalPlanNode),
        }
    }
}

/// The raw-byte entry and exit point of the codec: a plan as the byte buffer
/// that carries its wire tree over the transport.
#[derive(Debug, PartialEq)]
pub struct DefaultAsPlanImpl {
    pub bytes: Vec<u8>,
}

impl DefaultAsPlanImpl {
    /// Encodes an execution plan into a wire tree and serializes it;
    /// surfaces any encoding error unchanged.
    pub fn try_from_physical_plan(plan: &ExecutionPlan) -> (r: Result<DefaultAsPlanImpl, Error>)
        ensures
            match r {
                Ok(d) => encode_plan_v(plan@) matches Ok(n) && d.bytes@ == ser_node(n),
                Err(e) => encode_plan_v(plan@) == Err::<NodeV, ErrorV>(e@),
            },
    {
        let node = PhysicalPlanNode::try_from_physical_plan(plan)?;
        Ok(DefaultAsPlanImpl { bytes: node.to_bytes() })
    }

    /// Deserializes the carried bytes into a wire tree — failing with
    /// `DecodePhysicalPlanNode` on malformed bytes — and decodes it into an
    /// execution plan.
    pub fn try_into_physical_plan(&self) -> (r: Result<ExecutionPlan, Error>)
        ensures
            match r {
                Ok(p) => deser_node_full(self.bytes@) matches Some(n) && decode_plan_v(n)
                    == Ok::<PlanV, ErrorV>(p@),
                Err(e) => (deser_node_full(self.bytes@) is None && e@
                    == ErrorV::DecodePhysicalPlanNode) || (deser_node_full(self.bytes@) matches
                    Some(n) && decode_plan_v(n) == Err::<PlanV, ErrorV>(e@)),
            },
    {
        let node = PhysicalPlanNode::from_bytes(&self.bytes)?;
        node.try_into_physical_plan()
    }
}

/// Round trip through the byte envelope: a well-formed, bounded plan tree
/// encodes to a wire tree whose byte serialization deserializes back to that
/// same wire tree — consuming the buffer exactly — which decodes back to the
/// identical plan.
pub proof fn lemma_bytes_round_trip(p: PlanV)
    requires
        plan_wf_v(p),
        plan_bounded_v(p),
    ensures
        encode_plan_v(p) matches Ok(n) && deser_node_full(ser_node(n)) == Some(n)
            && decode_plan_v(n) == Ok::<PlanV, ErrorV>(p),
{
    lemma_plan_round_trip(p);
    let n = encode_plan_v(p)->Ok_0;
    lemma_encode_bounded(p);
    let bts = ser_node(n);
    assert(bts.subrange(0, ser_node(n).len() as int) =~= ser_node(n));
    lemma_deser_ser_node(bts, 0, n);
}


/// The byte layout is unambiguous: two bounded wire trees with the same
/// serialization are the same tree.
pub proof fn lemma_ser_node_injective(a: NodeV, b: NodeV)
    requires
        node_bounded(a),
        node_bounded(b),
        ser_node(a) == ser_node(b),
    ensures
        a == b,
{
    let bytes = ser_node(a);
    assert(bytes.subrange(0, ser_node(a).len() as int) =~= ser_node(a));
    lemma_deser_ser_node(bytes, 0, a);
    lemma_deser_ser_node(bytes, 0, b);
}

proof fn lemma_u64_le_of_from(b0: u8, b1: u8, b2: u8, b3: u8, b4: u8, b5: u8, b6: u8, b7: u8)
    ensures
        u64_le(u64_from_le(b0, b1, b2, b3, b4, b5, b6, b7)) =~= seq![b0, b1, b2, b3, b4, b5, b6, b7],
{
    assert((u64_from_le(b0, b1, b2, b3, b4, b5, b6, b7) & 0xff) as u8 == b0
        && ((u64_from_le(b0, b1, b2, b3, b4, b5, b6, b7) >> 8) & 0xff) as u8 == b1
        && ((u64_from_le(b0, b1, b2, b3, b4, b5, b6, b7) >> 16) & 0xff) as u8 == b2
        && ((u64_from_le(b0, b1, b2, b3, b4, b5, b6, b7) >> 24) & 0xff) as u8 == b3
        && ((u64_from_le(b0, b1, b2, b3, b4, b5, b6, b7) >> 32) & 0xff) as u8 == b4
        && ((u64_from_le(b0, b1, b2, b3, b4, b5, b6, b7) >> 40) & 0xff) as u8 == b5
        && ((u64_from_le(b0, b1, b2, b3, b4, b5, b6, b7) >> 48) & 0xff) as u8 == b6
        && ((u64_from_le(b0, b1, b2, b3, b4, b5, b6, b7) >> 56) & 0xff) as u8 == b7)
        by (bit_vector);
}

proof fn lemma_u32_le_of_from(b0: u8, b1: u8, b2: u8, b3: u8)
    ensures
        u32_le(u32_from_le(b0, b1, b2, b3)) =~= seq![b0, b1, b2, b3],
{
    assert((u32_from_le(b0, b1, b2, b3) & 0xff) as u8 == b0 && ((u32_from_le(b0, b1, b2, b3)
        >> 8) & 0xff) as u8 == b1 && ((u32_from_le(b0, b1, b2, b3) >> 16) & 0xff) as u8 == b2
        && ((u32_from_le(b0, b1, b2, b3) >> 24) & 0xff) as u8 == b3) by (bit_vector);
}

proof fn lemma_ser_deser_u64(b: Seq<u8>, pos: int)
    requires
        deser_u64(b, pos) is Some,
    ensures
        ({
            let (v, p) = deser_u64(b, pos)->Some_0;
            p == pos + 8 && u64_le(v) == b.subrange(pos, pos + 8)
        }),
{
    let (v, p) = deser_u64(b, pos)->Some_0;
    lemma_u64_le_of_from(
        b[pos],
        b[pos + 1],
        b[pos + 2],
        b[pos + 3],
        b[pos + 4],
        b[pos + 5],
        b[pos + 6],
        b[pos + 7],
    );
    assert(u64_le(v) =~= b.subrange(pos, pos + 8));
}

proof fn lemma_ser_deser_char(b: Seq<u8>, pos: int)
    requires
        deser_char(b, pos) is Some,
    ensures
        ({
            let (c, p) = deser_char(b, pos)->Some_0;
            p == pos + 4 && ser_char(c) == b.subrange(pos, pos + 4)
        }),
{
    let (c, p) = deser_char(b, pos)->Some_0;
    lemma_u32_le_of_from(b[pos], b[pos + 1], b[pos + 2], b[pos + 3]);
    assert(c as u32 == u32_from_le(b[pos], b[pos + 1], b[pos + 2], b[pos + 3]));
    assert(ser_char(c) =~= b.subrange(pos, pos + 4));
}

proof fn lemma_ser_deser_chars(b: Seq<u8>, pos: int, count: int)
    requires
        count >= 0,
        0 <= pos <= b.len(),
        deser_chars(b, pos, count) is Some,
    ensures
        ({
            let (s, p) = deser_chars(b, pos, count)->Some_0;
            s.len() == count && p == pos + 4 * count && p <= b.len() && ser_chars(s)
                == b.subrange(pos, p)
        }),
    decreases count,
{
    let (s, p) = deser_chars(b, pos, count)->Some_0;
    if count == 0 {
        assert(ser_chars(s) =~= b.subrange(pos, pos));
    } else {
        lemma_ser_deser_char(b, pos);
        let (c, p1) = deser_char(b, pos)->Some_0;
        lemma_ser_deser_chars(b, p1, count - 1);
        let (rest, p2) = deser_chars(b, p1, count - 1)->Some_0;
        assert(s == seq![c] + rest);
        assert(s[0] == c);
        assert(s.drop_first() =~= rest);
        assert(ser_chars(s) == ser_char(c) + ser_chars(rest));
        assert(ser_char(c) + ser_chars(rest) =~= b.subrange(pos, p));
    }
}

proof fn lemma_ser_deser_string(b: Seq<u8>, pos: int)
    requires
        deser_string(b, pos) is Some,
    ensures
        ({
            let (s, p) = deser_string(b, pos)->Some_0;
            string_bounded(s) && p == pos + 8 + 4 * s.len() && p <= b.len() && ser_string(s)
                == b.subrange(pos, p)
        }),
{
    let (s, p) = deser_string(b, pos)->Some_0;
    lemma_ser_deser_u64(b, pos);
    let (len, p1) = deser_u64(b, pos)->Some_0;
    lemma_ser_deser_chars(b, p1, len as int);
    assert(s.len() as u64 == len);
    assert(ser_string(s) =~= b.subrange(pos, p));
}

proof fn lemma_ser_deser_expr(b: Seq<u8>, pos: int)
    requires
        deser_expr(b, pos) is Some,
    ensures
        ({
            let (e, p) = deser_expr(b, pos)->Some_0;
            pos < p <= b.len() && ser_expr(e) == b.subrange(pos, p)
        }),
{
    let (e, p) = deser_expr(b, pos)->Some_0;
    if b[pos] == 0 {
        assert(ser_expr(e) =~= b.subrange(pos, pos + 1));
    } else {
        lemma_ser_deser_string(b, pos + 1);
        let (name, p1) = deser_string(b, pos + 1)->Some_0;
        lemma_ser_deser_u64(b, p1);
        let (idx, p2) = deser_u64(b, p1)->Some_0;
        assert(e matches ExprNodeV::Column { name: n2, index } && n2 == name && index == idx
            as int);
        assert((idx as int) as u64 == idx);
        assert(b.subrange(pos, pos + 1)[0] == b[pos]);
        assert(ser_expr(e) =~= b.subrange(pos, p));
    }
}

proof fn lemma_ser_deser_exprs(b: Seq<u8>, pos: int, count: int)
    requires
        count >= 0,
        0 <= pos <= b.len(),
        deser_exprs(b, pos, count) is Some,
    ensures
        ({
            let (s, p) = deser_exprs(b, pos, count)->Some_0;
            s.len() == count && pos <= p <= b.len() && ser_exprs(s) == b.subrange(pos, p)
        }),
    decreases count,
{
    let (s, p) = deser_exprs(b, pos, count)->Some_0;
    if count == 0 {
        assert(ser_exprs(s) =~= b.subrange(pos, pos));
    } else {
        lemma_ser_deser_expr(b, pos);
        let (e, p1) = deser_expr(b, pos)->Some_0;
        lemma_ser_deser_exprs(b, p1, count - 1);
        let (rest, p2) = deser_exprs(b, p1, count - 1)->Some_0;
        assert(s == seq![e] + rest);
        assert(s[0] == e);
        assert(s.drop_first() =~= rest);
        assert(ser_exprs(s) == ser_expr(e) + ser_exprs(rest));
        assert(ser_expr(e) + ser_exprs(rest) =~= b.subrange(pos, p));
    }
}

proof fn lemma_ser_deser_names(b: Seq<u8>, pos: int, count: int)
    requires
        count >= 0,
        0 <= pos <= b.len(),
        deser_names(b, pos, count) is Some,
    ensures
        ({
            let (s, p) = deser_names(b, pos, count)->Some_0;
            s.len() == count && pos <= p <= b.len() && ser_names(s) == b.subrange(pos, p)
        }),
    decreases count,
{
    let (s, p) = deser_names(b, pos, count)->Some_0;
    if count == 0 {
        assert(ser_names(s) =~= b.subrange(pos, pos));
    } else {
        lemma_ser_deser_string(b, pos);
        let (name, p1) = deser_string(b, pos)->Some_0;
        lemma_ser_chars_len(name);
        lemma_ser_deser_names(b, p1, count - 1);
        let (rest, p2) = deser_names(b, p1, count - 1)->Some_0;
        assert(s == seq![name] + rest);
        assert(s[0] == name);
        assert(s.drop_first() =~= rest);
        assert(ser_names(s) == ser_string(name) + ser_names(rest));
        assert(ser_string(name) + ser_names(rest) =~= b.subrange(pos, p));
    }
}


proof fn lemma_subrange_glue(b: Seq<u8>, a0: int, a1: int, a2: int)
    requires
        0 <= a0 <= a1 <= a2 <= b.len(),
    ensures
        b.subrange(a0, a1) + b.subrange(a1, a2) == b.subrange(a0, a2),
{
    assert(b.subrange(a0, a1) + b.subrange(a1, a2) =~= b.subrange(a0, a2));
}

proof fn lemma_concat_assoc(x: Seq<u8>, y: Seq<u8>, z: Seq<u8>)
    ensures
        (x + y) + z == x + (y + z),
{
    assert((x + y) + z =~= x + (y + z));
}

proof fn lemma_ser_deser_proj_body(b: Seq<u8>, pos: int, input: Option<Box<NodeV>>)
    requires
        0 <= pos <= b.len(),
        deser_proj_body(b, pos, input) is Some,
    ensures
        ({
            let (n, p) = deser_proj_body(b, pos, input)->Some_0;
            pos <= p <= b.len() && (n matches NodeV::Projection { input: i2, exprs, names }
                && i2 == input && u64_le(exprs.len() as u64) + ser_exprs(exprs) + u64_le(
                names.len() as u64,
            ) + ser_names(names) == b.subrange(pos, p))
        }),
{
    let (n, p) = deser_proj_body(b, pos, input)->Some_0;
    lemma_ser_deser_u64(b, pos);
    let (ne, p1) = deser_u64(b, pos)->Some_0;
    lemma_ser_deser_exprs(b, p1, ne as int);
    let (exprs, p2) = deser_exprs(b, p1, ne as int)->Some_0;
    lemma_ser_deser_u64(b, p2);
    let (nn, p3) = deser_u64(b, p2)->Some_0;
    lemma_ser_deser_names(b, p3, nn as int);
    let (names, p4) = deser_names(b, p3, nn as int)->Some_0;
    assert(n == (NodeV::Projection { input, exprs, names }));
    assert(exprs.len() as u64 == ne);
    assert(names.len() as u64 == nn);
    assert(u64_le(exprs.len() as u64) + ser_exprs(exprs) + u64_le(names.len() as u64)
        + ser_names(names) =~= b.subrange(pos, p));
}

proof fn lemma_ser_deser_node(b: Seq<u8>, pos: int)
    requires
        deser_node(b, pos) is Some,
    ensures
        ({
            let (n, p) = deser_node(b, pos)->Some_0;
            pos < p <= b.len() && ser_node(n) == b.subrange(pos, p)
        }),
    decreases b.len() - pos,
{
    let (n, p) = deser_node(b, pos)->Some_0;
    if b[pos] == 0 {
        assert(ser_node(n) =~= b.subrange(pos, pos + 1));
    } else if b[pos] == 2 {
        lemma_ser_deser_string(b, pos + 1);
        let (name, _ps) = deser_string(b, pos + 1)->Some_0;
        assert(seq![2u8] =~= b.subrange(pos, pos + 1));
        lemma_subrange_glue(b, pos, pos + 1, p);
        assert(ser_node(n) == seq![2u8] + ser_string(name));
    } else {
        let (input, p0): (Option<Box<NodeV>>, int) = if b[pos + 1] == 0 {
            (None, pos + 2)
        } else {
            let (child, pc) = deser_node(b, pos + 2)->Some_0;
            (Some(Box::new(child)), pc)
        };
        if b[pos + 1] == 0 {
            assert(ser_opt_node(input) =~= b.subrange(pos + 1, p0));
        } else {
            lemma_ser_deser_node(b, pos + 2);
            assert(seq![1u8] =~= b.subrange(pos + 1, pos + 2));
            lemma_subrange_glue(b, pos + 1, pos + 2, p0);
            let (child, _pc) = deser_node(b, pos + 2)->Some_0;
            assert(ser_opt_node(input) == seq![1u8] + ser_node(child));
        }
        assert(deser_node(b, pos) == deser_proj_body(b, p0, input));
        lemma_ser_deser_proj_body(b, p0, input);
        let exprs = n->Projection_exprs;
        let names = n->Projection_names;
        let u64a = u64_le(exprs.len() as u64);
        let se = ser_exprs(exprs);
        let u64b = u64_le(names.len() as u64);
        let sn = ser_names(names);
        let body = u64a + se + u64b + sn;
        assert(body == b.subrange(p0, p));
        assert(seq![1u8] =~= b.subrange(pos, pos + 1));
        let x1 = seq![1u8] + ser_opt_node(input);
        lemma_subrange_glue(b, pos, pos + 1, p0);
        assert(x1 == b.subrange(pos, p0));
        lemma_subrange_glue(b, pos, p0, p);
        assert(x1 + body == b.subrange(pos, p));
        lemma_concat_assoc(x1, u64a, se);
        lemma_concat_assoc(x1, u64a + se, u64b);
        lemma_concat_assoc(x1, (u64a + se) + u64b, sn);
        assert(ser_node(n) == ((((x1 + u64a) + se) + u64b) + sn));
        assert(ser_node(n) == x1 + body);
    }
}

/// Decode then encode at the byte level: a buffer that parses as a wire
/// tree is exactly that tree's serialization, so re-serializing what was
/// parsed reproduces the buffer byte for byte.
pub proof fn lemma_bytes_canonical(bytes: Seq<u8>)
    requires
        deser_node_full(bytes) is Some,
    ensures
        ser_node(deser_node_full(bytes)->Some_0) == bytes,
{
    lemma_ser_deser_node(bytes, 0);
    assert(bytes.subrange(0, bytes.len() as int) =~= bytes);
}

} // verus!
