//! Compiler correctness: run in a context that has a slot for each name,
//! every program the compiler accepts leaves exactly one value, without
//! fault, and that value is the one a direct reading of the text gives.
use vstd::prelude::*;
use crate::value::BytecodeValue;
use crate::parser::{
    Span, coerce, combine, compile_spec, find_name, jump_code, level_op, p_level, p_loop, p_primary,
    p_unary, prefix_op, right_level, span_ok, tok,
};
use crate::lexer::{all_digits, digits_value, is_digit, token_at};
use crate::ops::int_value;
use crate::value::clamp_i32;
use crate::parser::is_ident_start;
use crate::ops::{BinOp, binop_spec, unop_spec};
use crate::program::{OC_FETCH, OC_JNZ, OC_JNZ8, OC_JZ, OC_JZ8, OC_POP, binop_code, encode_value, le_bytes32, unop_code};
use crate::eval::{binop_of, eval_spec, le32_at, le64_at, run, step, unop_of};
use crate::laws::{lemma_le32_read_back, lemma_literal_round_trip};

verus! {

/// Runs from `pc` until the instruction pointer reaches `end` exactly; the
/// stack then, or `None` on a fault or a jump past `end`.
pub open spec fn run_until(
    p: Seq<u8>,
    ctx: Seq<BytecodeValue>,
    pc: int,
    end: int,
    s: Seq<BytecodeValue>,
) -> Option<Seq<BytecodeValue>>
    decreases end - pc,
{
    if pc == end {
        Some(s)
    } else if pc > end || pc < 0 {
        None
    } else {
        match step(p, ctx, pc, s) {
            None => None,
            Some((pc2, s2)) => if pc2 <= pc || pc2 > end {
                None
            } else {
                run_until(p, ctx, pc2, end, s2)
            },
        }
    }
}



proof fn lemma_run_via_run_until(p: Seq<u8>, ctx: Seq<BytecodeValue>, pc: int, s: Seq<BytecodeValue>)
    requires
        0 <= pc <= p.len(),
    ensures
        run(p, ctx, pc, s) == match run_until(p, ctx, pc, p.len() as int, s) {
            Some(s2) => if s2.len() == 1 {
                Some(s2[0])
            } else {
                None
            },
            None => None,
        },
    decreases p.len() - pc,
{
    if pc < p.len() {
        match step(p, ctx, pc, s) {
            None => {},
            Some((pc2, s2)) => {
                if pc2 > pc && pc2 <= p.len() {
                    lemma_run_via_run_until(p, ctx, pc2, s2);
                }
            },
        }
    }
}

proof fn lemma_step_shift(x: Seq<u8>, c: Seq<u8>, y: Seq<u8>, ctx: Seq<BytecodeValue>, pc: int, s: Seq<BytecodeValue>)
    requires
        0 <= pc < c.len(),
        step(c, ctx, pc, s) is Some,
    ensures
        step(x + c + y, ctx, x.len() + pc, s) == Some(
            (x.len() + step(c, ctx, pc, s)->Some_0.0, step(c, ctx, pc, s)->Some_0.1),
        ),
{
    let p = x + c + y;
    let o = x.len() as int;
    assert forall|k: int| 0 <= k < c.len() implies p[o + k] == c[k] by {
        assert(p[o + k] == (x + c)[o + k]);
    }
    assert(p[o + pc] == c[pc]);
    if pc + 1 < c.len() {
        assert(p[o + pc + 1] == c[pc + 1]);
    }
    if pc + 4 < c.len() {
        assert(p[o + pc + 2] == c[pc + 2]);
        assert(p[o + pc + 3] == c[pc + 3]);
        assert(p[o + pc + 4] == c[pc + 4]);
        assert(le32_at(p, o + pc + 1) == le32_at(c, pc + 1));
    }
    if pc + 8 < c.len() {
        assert(p[o + pc + 5] == c[pc + 5]);
        assert(p[o + pc + 6] == c[pc + 6]);
        assert(p[o + pc + 7] == c[pc + 7]);
        assert(p[o + pc + 8] == c[pc + 8]);
        assert(le32_at(p, o + pc + 5) == le32_at(c, pc + 5));
        assert(le64_at(p, o + pc + 1) == le64_at(c, pc + 1));
    }
}

/// Running a segment embedded in a larger program is running it alone.
pub proof fn lemma_segment(x: Seq<u8>, c: Seq<u8>, y: Seq<u8>, ctx: Seq<BytecodeValue>, pc: int, s: Seq<BytecodeValue>)
    requires
        0 <= pc <= c.len(),
        run_until(c, ctx, pc, c.len() as int, s) is Some,
    ensures
        run_until(x + c + y, ctx, x.len() + pc, (x.len() + c.len()) as int, s) == run_until(c, ctx, pc, c.len() as int, s),
    decreases c.len() - pc,
{
    if pc < c.len() {
        lemma_step_shift(x, c, y, ctx, pc, s);
        let (pc2, s2) = step(c, ctx, pc, s)->Some_0;
        lemma_segment(x, c, y, ctx, pc2, s2);
    }
}

/// Running from `a` to `b` and then from `b` to `c` is running from `a` to
/// `c`.
pub proof fn lemma_run_until_trans(
    p: Seq<u8>,
    ctx: Seq<BytecodeValue>,
    a: int,
    b: int,
    c: int,
    s: Seq<BytecodeValue>,
)
    requires
        b <= c,
        run_until(p, ctx, a, b, s) is Some,
    ensures
        run_until(p, ctx, a, c, s) == run_until(p, ctx, b, c, run_until(p, ctx, a, b, s)->Some_0),
    decreases b - a,
{
    if a < b {
        let (pc2, s2) = step(p, ctx, a, s)->Some_0;
        lemma_run_until_trans(p, ctx, pc2, b, c, s2);
    }
}

proof fn lemma_binop_code_decodes(op: crate::ops::BinOp)
    ensures
        binop_of(binop_code(op)) == Some(op),
{
}

proof fn lemma_unop_code_decodes(op: crate::ops::UnOp)
    ensures
        binop_of(unop_code(op)) is None,
        unop_of(unop_code(op)) == Some(op),
{
}









/// The skip at `l.len()` of `l + jump + [discard] + r` lands, when taken, at
/// the end of the program, and otherwise on the discard.
proof fn lemma_skip_step(
    l: Seq<u8>,
    r: Seq<u8>,
    on_true: bool,
    ctx: Seq<BytecodeValue>,
    s1: Seq<BytecodeValue>,
)
    requires
        r.len() + 1 <= i32::MAX,
        s1.len() > 0,
    ensures
        ({
            let j = jump_code(on_true, r.len() + 1int);
            let p = l + j + seq![OC_POP] + r;
            let taken = s1.last().bool_of() == on_true;
            step(p, ctx, l.len() as int, s1) == Some(
                (if taken { p.len() as int } else { (l.len() + j.len()) as int }, s1),
            ) && p[(l.len() + j.len()) as int] == OC_POP
        }),
{
    let n = r.len() + 1int;
    let j = jump_code(on_true, n);
    let p = l + j + seq![OC_POP] + r;
    let i = l.len() as int;
    if n - 1 > 254 {
        let op = if on_true { OC_JNZ } else { OC_JZ };
        assert(j == seq![op] + le_bytes32(n as u32));
        assert(p == (l + seq![op]) + le_bytes32(n as u32) + (seq![OC_POP] + r));
        lemma_le32_read_back(l + seq![op], n as u32, seq![OC_POP] + r);
        let m = n as u32;
        assert(m as int == n);
        assert(0 <= (m as i32) && (m as i32) as u32 == m) by (bit_vector)
            requires
                m <= 0x7fff_ffffu32,
        ;
        assert(p[i] == op);
        assert(p[i + 5] == OC_POP);
    } else {
        assert(p[i] == if on_true { OC_JNZ8 } else { OC_JZ8 });
        assert(p[i + 1] == n as u8);
        assert(p[i + 2] == OC_POP);
    }
    assert(p.len() == i + j.len() + 1 + r.len());
}

proof fn lemma_pop_step(p: Seq<u8>, ctx: Seq<BytecodeValue>, b: int, s1: Seq<BytecodeValue>)
    requires
        0 <= b < p.len(),
        p[b] == OC_POP,
        s1.len() > 0,
    ensures
        step(p, ctx, b, s1) == Some((b + 1, s1.drop_last())),
{
}






proof fn lemma_find_name_bounds(names: Seq<Seq<char>>, t: Seq<char>, from: int)
    ensures
        find_name(names, t, from) matches Some(i) ==> from <= i < names.len(),
    decreases names.len() - from,
{
    if 0 <= from < names.len() && names[from] != t {
        lemma_find_name_bounds(names, t, from + 1);
    }
}







/// What a constant's literal instruction reads back as: its integer
/// coercion.
pub open spec fn lit_value(v: BytecodeValue) -> BytecodeValue {
    BytecodeValue::Int(v.int64_of())
}

/// The value an operand leaves on the stack: a constant's literal, or the
/// run-time value `w` of its code.
pub open spec fn operand_value(v: BytecodeValue, w: BytecodeValue) -> BytecodeValue {
    if v != BytecodeValue::NonConst {
        lit_value(v)
    } else {
        w
    }
}

/// The value of `left op right`: folded when both sides are constants;
/// otherwise the operator on the operands' stack values, where `&&` and `||`
/// give the left value when it decides the result and the right value
/// otherwise.
pub open spec fn combine_value(op: BinOp, v: BytecodeValue, w: BytecodeValue, v2: BytecodeValue, w2: BytecodeValue) -> BytecodeValue {
    if v != BytecodeValue::NonConst && v2 != BytecodeValue::NonConst {
        binop_spec(op, v, v2)
    } else {
        let a = operand_value(v, w);
        let b = operand_value(v2, w2);
        if op == BinOp::BlAnd {
            if !a.bool_of() {
                a
            } else {
                b
            }
        } else if op == BinOp::BlOr {
            if a.bool_of() {
                a
            } else {
                b
            }
        } else {
            binop_spec(op, a, b)
        }
    }
}

/// The meaning of the text at grammar level `k` in context `ctx`, read
/// directly from the text: the span after it, its folded value (`NonConst`
/// when it depends on the context), and its value in `ctx`.
pub open spec fn m_level(
    s: Seq<char>,
    names: Seq<Seq<char>>,
    ctx: Seq<BytecodeValue>,
    k: int,
    st: Span,
) -> Option<(Span, BytecodeValue, BytecodeValue)>
    decreases s.len() - st.0, 2 * (13 - k) + 1,
{
    if !span_ok(s, st) || k < 1 || k > 12 {
        None
    } else if k == 12 {
        m_unary(s, names, ctx, st)
    } else {
        match m_level(s, names, ctx, k + 1, st) {
            None => None,
            Some((st1, v, w)) => if st1.0 < st.0 || !span_ok(s, st1) {
                None
            } else {
                m_loop(s, names, ctx, k, st1, v, w)
            },
        }
    }
}

pub open spec fn m_loop(
    s: Seq<char>,
    names: Seq<Seq<char>>,
    ctx: Seq<BytecodeValue>,
    k: int,
    st: Span,
    v: BytecodeValue,
    w: BytecodeValue,
) -> Option<(Span, BytecodeValue, BytecodeValue)>
    decreases s.len() - st.0, 2 * (13 - k),
{
    if !span_ok(s, st) || k < 1 || k > 11 {
        None
    } else {
        match level_op(k, tok(s, st)) {
            None => Some((st, v, w)),
            Some(op) => {
                let st2 = token_at(s, st.1);
                if st2.0 <= st.0 || !span_ok(s, st2) {
                    None
                } else {
                    match m_level(s, names, ctx, right_level(k), st2) {
                        None => None,
                        Some((st3, v2, w2)) => if st3.0 < st2.0 || !span_ok(s, st3) {
                            None
                        } else {
                            let nv = if v != BytecodeValue::NonConst && v2 != BytecodeValue::NonConst {
                                binop_spec(op, v, v2)
                            } else {
                                BytecodeValue::NonConst
                            };
                            m_loop(s, names, ctx, k, st3, nv, combine_value(op, v, w, v2, w2))
                        },
                    }
                }
            },
        }
    }
}

pub open spec fn m_unary(s: Seq<char>, names: Seq<Seq<char>>, ctx: Seq<BytecodeValue>, st: Span) -> Option<
    (Span, BytecodeValue, BytecodeValue),
>
    decreases s.len() - st.0, 1int,
{
    if !span_ok(s, st) {
        None
    } else {
        match prefix_op(tok(s, st)) {
            Some(op) => {
                let st2 = token_at(s, st.1);
                if st2.0 <= st.0 || !span_ok(s, st2) {
                    None
                } else {
                    match m_unary(s, names, ctx, st2) {
                        None => None,
                        Some((st3, v, w)) => if v != BytecodeValue::NonConst {
                            Some((st3, unop_spec(op, v), unop_spec(op, v)))
                        } else {
                            Some((st3, BytecodeValue::NonConst, unop_spec(op, w)))
                        },
                    }
                }
            },
            None => m_primary(s, names, ctx, st),
        }
    }
}

pub open spec fn m_primary(s: Seq<char>, names: Seq<Seq<char>>, ctx: Seq<BytecodeValue>, st: Span) -> Option<
    (Span, BytecodeValue, BytecodeValue),
>
    decreases s.len() - st.0, 0int,
{
    if !span_ok(s, st) {
        None
    } else {
        let t = tok(s, st);
        if t == seq!['('] {
            let st2 = token_at(s, st.1);
            if st2.0 <= st.0 || !span_ok(s, st2) {
                None
            } else {
                match m_level(s, names, ctx, 1, st2) {
                    None => None,
                    Some((st3, v, w)) => if span_ok(s, st3) && tok(s, st3) == seq![')'] {
                        Some((token_at(s, st3.1), v, w))
                    } else {
                        None
                    },
                }
            }
        } else if t.len() > 0 && (is_digit(t[0]) || t[0] == '.') {
            if all_digits(t) {
                let n = int_value(clamp_i32(digits_value(t) as int) as int);
                Some((token_at(s, st.1), n, n))
            } else {
                None
            }
        } else if t.len() > 0 && is_ident_start(t[0]) {
            match find_name(names, t, 0) {
                Some(i) => if i < 256 && i < ctx.len() {
                    Some((token_at(s, st.1), BytecodeValue::NonConst, ctx[i]))
                } else {
                    None
                },
                None => None,
            }
        } else {
            None
        }
    }
}

/// The value of the whole text in context `ctx`, when it is one expression:
/// a folded result reads back as the integer coercion of its coerced
/// constant.
pub open spec fn expr_value(s: Seq<char>, names: Seq<Seq<char>>, ctx: Seq<BytecodeValue>, vt: crate::value::ValueType) -> Option<BytecodeValue> {
    match m_level(s, names, ctx, 1, token_at(s, 0)) {
        Some((_, v, w)) => if v == BytecodeValue::NonConst {
            Some(w)
        } else {
            Some(lit_value(coerce(vt, v)))
        },
        None => None,
    }
}

/// Code that, on any stack, runs to its end and pushes exactly `w`.
pub open spec fn pushes_value(d: Seq<u8>, ctx: Seq<BytecodeValue>, w: BytecodeValue) -> bool {
    forall|s: Seq<BytecodeValue>| #[trigger] run_until(d, ctx, 0, d.len() as int, s) == Some(s.push(w))
}

proof fn lemma_literal_step(v: BytecodeValue, ctx: Seq<BytecodeValue>, s: Seq<BytecodeValue>)
    requires
        v != BytecodeValue::NonConst,
    ensures
        step(encode_value(v), ctx, 0, s) == Some((encode_value(v).len() as int, s.push(lit_value(v)))),
{
    let p = encode_value(v);
    match v {
        BytecodeValue::Int(i) => {
            if -128 <= i <= 127 {
                assert(((i as u8) as i8) as i64 == i) by (bit_vector)
                    requires
                        -128 <= i <= 127,
                ;
            } else if i32::MIN <= i <= i32::MAX {
                lemma_le32_read_back(seq![crate::program::OC_INT32], #[verifier::truncate] (i as u32), Seq::empty());
                assert(p == seq![crate::program::OC_INT32] + le_bytes32(#[verifier::truncate] (i as u32)) + Seq::<u8>::empty());
                assert(((i as u32) as i32) as i64 == i) by (bit_vector)
                    requires
                        i32::MIN <= i <= i32::MAX,
                ;
            } else {
                crate::laws::lemma_le64_read_back(seq![crate::program::OC_INT64], i as u64, Seq::empty());
                assert(p == seq![crate::program::OC_INT64] + crate::program::le_bytes64(i as u64) + Seq::<u8>::empty());
                assert((i as u64) as i64 == i) by (bit_vector);
            }
        },
        _ => {},
    }
}

/// The literal instruction of a constant pushes its integer coercion.
pub proof fn lemma_literal_pushes_value(v: BytecodeValue, ctx: Seq<BytecodeValue>)
    requires
        v != BytecodeValue::NonConst,
    ensures
        pushes_value(encode_value(v), ctx, lit_value(v)),
{
    let d = encode_value(v);
    assert forall|s: Seq<BytecodeValue>| #[trigger] run_until(d, ctx, 0, d.len() as int, s) == Some(s.push(lit_value(v))) by {
        lemma_literal_step(v, ctx, s);
        assert(run_until(d, ctx, d.len() as int, d.len() as int, s.push(lit_value(v))) == Some(s.push(lit_value(v))));
    }
}

/// A fetch pushes the context slot.
pub proof fn lemma_fetch_pushes_value(i: int, ctx: Seq<BytecodeValue>)
    requires
        0 <= i < 256,
        i < ctx.len(),
    ensures
        pushes_value(seq![OC_FETCH, i as u8], ctx, ctx[i]),
{
    let d = seq![OC_FETCH, i as u8];
    assert forall|s: Seq<BytecodeValue>| #[trigger] run_until(d, ctx, 0, d.len() as int, s) == Some(s.push(ctx[i])) by {
        assert((i as u8) as int == i);
        assert(step(d, ctx, 0, s) == Some((2int, s.push(ctx[i]))));
        assert(run_until(d, ctx, 2, 2, s.push(ctx[i])) == Some(s.push(ctx[i])));
    }
}

/// The code of an operand and its value: a constant with no code (its
/// run-time value is the constant), or code that pushes `w`.
pub open spec fn agrees(d: Seq<u8>, v: BytecodeValue, w: BytecodeValue, ctx: Seq<BytecodeValue>) -> bool {
    (v != BytecodeValue::NonConst && d.len() == 0 && w == v) || (v == BytecodeValue::NonConst
        && pushes_value(d, ctx, w))
}

proof fn lemma_operand_pushes_value(d: Seq<u8>, v: BytecodeValue, w: BytecodeValue, ctx: Seq<BytecodeValue>)
    requires
        agrees(d, v, w, ctx),
    ensures
        pushes_value(d + encode_value(v), ctx, operand_value(v, w)),
{
    if v != BytecodeValue::NonConst {
        lemma_literal_pushes_value(v, ctx);
        assert(d + encode_value(v) =~= encode_value(v));
    } else {
        assert(d + encode_value(v) =~= d);
    }
}

proof fn lemma_prefix_value(l: Seq<u8>, t: Seq<u8>, ctx: Seq<BytecodeValue>, a: BytecodeValue, s: Seq<BytecodeValue>)
    requires
        pushes_value(l, ctx, a),
    ensures
        run_until(l + t, ctx, 0, l.len() as int, s) == Some(s.push(a)),
{
    assert(Seq::<u8>::empty() + l + t =~= l + t);
    assert(run_until(l, ctx, 0, l.len() as int, s) == Some(s.push(a)));
    lemma_segment(Seq::<u8>::empty(), l, t, ctx, 0, s);
}

proof fn lemma_suffix_value(h: Seq<u8>, r: Seq<u8>, ctx: Seq<BytecodeValue>, b: BytecodeValue, s: Seq<BytecodeValue>)
    requires
        pushes_value(r, ctx, b),
    ensures
        run_until(h + r, ctx, h.len() as int, (h.len() + r.len()) as int, s) == Some(s.push(b)),
{
    assert(h + r + Seq::<u8>::empty() =~= h + r);
    assert(run_until(r, ctx, 0, r.len() as int, s) == Some(s.push(b)));
    lemma_segment(h, r, Seq::<u8>::empty(), ctx, 0, s);
}

proof fn lemma_binary_pushes_value(
    l: Seq<u8>,
    r: Seq<u8>,
    op: BinOp,
    a: BytecodeValue,
    b: BytecodeValue,
    ctx: Seq<BytecodeValue>,
)
    requires
        pushes_value(l, ctx, a),
        pushes_value(r, ctx, b),
    ensures
        pushes_value(l + r + seq![binop_code(op)], ctx, binop_spec(op, a, b)),
{
    let p = l + r + seq![binop_code(op)];
    let m = (l.len() + r.len()) as int;
    let e = p.len() as int;
    lemma_binop_code_decodes(op);
    assert forall|s: Seq<BytecodeValue>| #[trigger] run_until(p, ctx, 0, e, s) == Some(s.push(binop_spec(op, a, b))) by {
        assert(l + (r + seq![binop_code(op)]) =~= p);
        lemma_prefix_value(l, r + seq![binop_code(op)], ctx, a, s);
        assert((l + r) + seq![binop_code(op)] =~= p);
        lemma_segment(l, r, seq![binop_code(op)], ctx, 0, s.push(a));
        assert(run_until(r, ctx, 0, r.len() as int, s.push(a)) == Some(s.push(a).push(b)));
        lemma_run_until_trans(p, ctx, 0, l.len() as int, m, s);
        let s2 = s.push(a).push(b);
        assert(p[m] == binop_code(op));
        assert(s2.drop_last() =~= s.push(a));
        assert(s2.drop_last().drop_last() =~= s);
        let s3 = s.push(binop_spec(op, a, b));
        assert(step(p, ctx, m, s2) == Some((m + 1, s3)));
        assert(run_until(p, ctx, m + 1, e, s3) == Some(s3));
        assert(run_until(p, ctx, m, e, s2) == Some(s3));
        lemma_run_until_trans(p, ctx, 0, m, e, s);
    }
}

proof fn lemma_unary_pushes_value(d: Seq<u8>, op: crate::ops::UnOp, a: BytecodeValue, ctx: Seq<BytecodeValue>)
    requires
        pushes_value(d, ctx, a),
    ensures
        pushes_value(d + seq![unop_code(op)], ctx, unop_spec(op, a)),
{
    let p = d + seq![unop_code(op)];
    let m = d.len() as int;
    let e = p.len() as int;
    lemma_unop_code_decodes(op);
    assert forall|s: Seq<BytecodeValue>| #[trigger] run_until(p, ctx, 0, e, s) == Some(s.push(unop_spec(op, a))) by {
        lemma_prefix_value(d, seq![unop_code(op)], ctx, a, s);
        let s1 = s.push(a);
        assert(p[m] == unop_code(op));
        assert(s1.drop_last() =~= s);
        let s2 = s.push(unop_spec(op, a));
        assert(step(p, ctx, m, s1) == Some((m + 1, s2)));
        assert(run_until(p, ctx, m + 1, e, s2) == Some(s2));
        assert(run_until(p, ctx, m, e, s1) == Some(s2));
        lemma_run_until_trans(p, ctx, 0, m, e, s);
    }
}

proof fn lemma_short_circuit_value_on(
    l: Seq<u8>,
    r: Seq<u8>,
    on_true: bool,
    a: BytecodeValue,
    b: BytecodeValue,
    ctx: Seq<BytecodeValue>,
    s: Seq<BytecodeValue>,
)
    requires
        pushes_value(l, ctx, a),
        pushes_value(r, ctx, b),
        r.len() + 1 <= i32::MAX,
    ensures
        run_until(
            l + jump_code(on_true, r.len() + 1int) + seq![OC_POP] + r,
            ctx,
            0,
            (l + jump_code(on_true, r.len() + 1int) + seq![OC_POP] + r).len() as int,
            s,
        ) == Some(s.push(if a.bool_of() == on_true { a } else { b })),
{
    let j = jump_code(on_true, r.len() + 1int);
    let h = l + j + seq![OC_POP];
    let p = h + r;
    let x = l.len() as int;
    let y = (x + j.len()) as int;
    let e = p.len() as int;
    assert(l + (j + seq![OC_POP] + r) =~= p);
    lemma_prefix_value(l, j + seq![OC_POP] + r, ctx, a, s);
    let s1 = s.push(a);
    lemma_skip_step(l, r, on_true, ctx, s1);
    if a.bool_of() == on_true {
        assert(step(p, ctx, x, s1) == Some((e, s1)));
        assert(run_until(p, ctx, e, e, s1) == Some(s1));
        assert(run_until(p, ctx, x, e, s1) == Some(s1));
        lemma_run_until_trans(p, ctx, 0, x, e, s);
    } else {
        lemma_pop_step(p, ctx, y, s1);
        assert(s1.drop_last() =~= s);
        lemma_suffix_value(h, r, ctx, b, s);
        assert(run_until(p, ctx, y, e, s1) == Some(s.push(b)));
        assert(run_until(p, ctx, x, e, s1) == Some(s.push(b)));
        lemma_run_until_trans(p, ctx, 0, x, e, s);
    }
}

proof fn lemma_short_circuit_pushes_value(
    l: Seq<u8>,
    r: Seq<u8>,
    on_true: bool,
    a: BytecodeValue,
    b: BytecodeValue,
    ctx: Seq<BytecodeValue>,
)
    requires
        pushes_value(l, ctx, a),
        pushes_value(r, ctx, b),
        r.len() + 1 <= i32::MAX,
    ensures
        pushes_value(
            l + jump_code(on_true, r.len() + 1int) + seq![OC_POP] + r,
            ctx,
            if a.bool_of() == on_true { a } else { b },
        ),
{
    let p = l + jump_code(on_true, r.len() + 1int) + seq![OC_POP] + r;
    assert forall|s: Seq<BytecodeValue>| #[trigger] run_until(p, ctx, 0, p.len() as int, s) == Some(
        s.push(if a.bool_of() == on_true { a } else { b }),
    ) by {
        lemma_short_circuit_value_on(l, r, on_true, a, b, ctx, s);
    }
}

/// `c2` is `c` followed by code that agrees with the value `v` / `w`.
pub open spec fn extends_with(c: Seq<u8>, c2: Seq<u8>, v: BytecodeValue, w: BytecodeValue, ctx: Seq<BytecodeValue>) -> bool {
    c.len() <= c2.len() && c2.subrange(0, c.len() as int) == c && agrees(
        c2.subrange(c.len() as int, c2.len() as int),
        v,
        w,
        ctx,
    )
}

proof fn lemma_combine_sem(
    op: BinOp,
    v: BytecodeValue,
    w: BytecodeValue,
    c0: Seq<u8>,
    c: Seq<u8>,
    v2: BytecodeValue,
    w2: BytecodeValue,
    c2: Seq<u8>,
    ctx: Seq<BytecodeValue>,
)
    requires
        extends_with(c0, c, v, w, ctx),
        extends_with(Seq::empty(), c2, v2, w2, ctx),
    ensures
        combine(op, v, c, v2, c2) matches Some((nv, nc)) ==> nv == (if v != BytecodeValue::NonConst
            && v2 != BytecodeValue::NonConst {
            binop_spec(op, v, v2)
        } else {
            BytecodeValue::NonConst
        }) && extends_with(c0, nc, nv, combine_value(op, v, w, v2, w2), ctx),
{
    let d = c.subrange(c0.len() as int, c.len() as int);
    assert(c == c0 + d);
    assert(c2.subrange(0, c2.len() as int) == c2);
    if v != BytecodeValue::NonConst && v2 != BytecodeValue::NonConst {
        assert(binop_spec(op, v, v2) != BytecodeValue::NonConst);
        assert(c.subrange(c0.len() as int, c.len() as int).len() == 0);
    } else {
        let a = operand_value(v, w);
        let b = operand_value(v2, w2);
        lemma_operand_pushes_value(d, v, w, ctx);
        lemma_operand_pushes_value(c2, v2, w2, ctx);
        let lft = d + encode_value(v);
        let rgt = c2 + encode_value(v2);
        if op == BinOp::BlAnd || op == BinOp::BlOr {
            if rgt.len() + 1 <= i32::MAX {
                let j = jump_code(op == BinOp::BlOr, rgt.len() + 1int);
                lemma_short_circuit_pushes_value(lft, rgt, op == BinOp::BlOr, a, b, ctx);
                let nc = c + encode_value(v) + j + seq![OC_POP] + rgt;
                assert(nc =~= c0 + (lft + j + seq![OC_POP] + rgt));
                assert(nc.subrange(0, c0.len() as int) =~= c0);
                assert(nc.subrange(c0.len() as int, nc.len() as int) =~= lft + j + seq![OC_POP] + rgt);
            }
        } else {
            lemma_binary_pushes_value(lft, rgt, op, a, b, ctx);
            let nc = c + encode_value(v) + c2 + encode_value(v2) + seq![binop_code(op)];
            assert(nc =~= c0 + (lft + rgt + seq![binop_code(op)]));
            assert(nc.subrange(0, c0.len() as int) =~= c0);
            assert(nc.subrange(c0.len() as int, nc.len() as int) =~= lft + rgt + seq![binop_code(op)]);
        }
    }
}

proof fn lemma_level_sem(
    s: Seq<char>,
    names: Seq<Seq<char>>,
    ctx: Seq<BytecodeValue>,
    k: int,
    st: Span,
    c: Seq<u8>,
)
    requires
        names.len() <= ctx.len(),
    ensures
        p_level(s, names, k, st, c) matches Ok((st2, v, c2)) ==> (m_level(s, names, ctx, k, st) matches Some(
            (st3, v3, w),
        ) && st3 == st2 && v3 == v && extends_with(c, c2, v, w, ctx)),
    decreases s.len() - st.0, 2 * (13 - k) + 1,
{
    if !span_ok(s, st) || k < 1 || k > 12 {
    } else if k == 12 {
        lemma_unary_sem(s, names, ctx, st, c);
    } else {
        lemma_level_sem(s, names, ctx, k + 1, st, c);
        match p_level(s, names, k + 1, st, c) {
            Ok((st1, v, c1)) => {
                if st1.0 >= st.0 && span_ok(s, st1) {
                    let w = m_level(s, names, ctx, k + 1, st)->Some_0.2;
                    lemma_loop_sem(s, names, ctx, k, st1, v, w, c, c1);
                }
            },
            Err(_) => {},
        }
    }
}

proof fn lemma_loop_sem(
    s: Seq<char>,
    names: Seq<Seq<char>>,
    ctx: Seq<BytecodeValue>,
    k: int,
    st: Span,
    v: BytecodeValue,
    w: BytecodeValue,
    c0: Seq<u8>,
    c: Seq<u8>,
)
    requires
        names.len() <= ctx.len(),
        extends_with(c0, c, v, w, ctx),
    ensures
        p_loop(s, names, k, st, v, c) matches Ok((st2, v2, c2)) ==> (m_loop(s, names, ctx, k, st, v, w) matches Some(
            (st3, v3, w3),
        ) && st3 == st2 && v3 == v2 && extends_with(c0, c2, v2, w3, ctx)),
    decreases s.len() - st.0, 2 * (13 - k),
{
    if !span_ok(s, st) || k < 1 || k > 11 {
    } else {
        match level_op(k, tok(s, st)) {
            None => {},
            Some(op) => {
                let st2 = token_at(s, st.1);
                if st2.0 <= st.0 || !span_ok(s, st2) {
                } else {
                    let rk = right_level(k);
                    lemma_level_sem(s, names, ctx, rk, st2, Seq::empty());
                    match p_level(s, names, rk, st2, Seq::empty()) {
                        Ok((st3, v2, c2)) => {
                            if st3.0 >= st2.0 && span_ok(s, st3) {
                                let w2 = m_level(s, names, ctx, rk, st2)->Some_0.2;
                                lemma_combine_sem(op, v, w, c0, c, v2, w2, c2, ctx);
                                match combine(op, v, c, v2, c2) {
                                    Some((nv, nc)) => {
                                        lemma_loop_sem(
                                            s,
                                            names,
                                            ctx,
                                            k,
                                            st3,
                                            nv,
                                            combine_value(op, v, w, v2, w2),
                                            c0,
                                            nc,
                                        );
                                    },
                                    None => {},
                                }
                            }
                        },
                        Err(_) => {},
                    }
                }
            },
        }
    }
}

proof fn lemma_unary_sem(s: Seq<char>, names: Seq<Seq<char>>, ctx: Seq<BytecodeValue>, st: Span, c: Seq<u8>)
    requires
        names.len() <= ctx.len(),
    ensures
        p_unary(s, names, st, c) matches Ok((st2, v, c2)) ==> (m_unary(s, names, ctx, st) matches Some(
            (st3, v3, w),
        ) && st3 == st2 && v3 == v && extends_with(c, c2, v, w, ctx)),
    decreases s.len() - st.0, 1int,
{
    if !span_ok(s, st) {
    } else {
        match prefix_op(tok(s, st)) {
            Some(op) => {
                let st2 = token_at(s, st.1);
                if st2.0 <= st.0 || !span_ok(s, st2) {
                } else {
                    lemma_unary_sem(s, names, ctx, st2, c);
                    match p_unary(s, names, st2, c) {
                        Ok((st3, v, c3)) => {
                            let w = m_unary(s, names, ctx, st2)->Some_0.2;
                            if v != BytecodeValue::NonConst {
                                assert(unop_spec(op, v) != BytecodeValue::NonConst);
                            } else {
                                let d = c3.subrange(c.len() as int, c3.len() as int);
                                lemma_unary_pushes_value(d, op, w, ctx);
                                let nc = c3 + seq![unop_code(op)];
                                assert(nc.subrange(0, c.len() as int) =~= c);
                                assert(nc.subrange(c.len() as int, nc.len() as int) =~= d + seq![unop_code(op)]);
                            }
                        },
                        Err(_) => {},
                    }
                }
            },
            None => {
                lemma_primary_sem(s, names, ctx, st, c);
            },
        }
    }
}

proof fn lemma_primary_sem(s: Seq<char>, names: Seq<Seq<char>>, ctx: Seq<BytecodeValue>, st: Span, c: Seq<u8>)
    requires
        names.len() <= ctx.len(),
    ensures
        p_primary(s, names, st, c) matches Ok((st2, v, c2)) ==> (m_primary(s, names, ctx, st) matches Some(
            (st3, v3, w),
        ) && st3 == st2 && v3 == v && extends_with(c, c2, v, w, ctx)),
    decreases s.len() - st.0, 0int,
{
    if !span_ok(s, st) {
    } else {
        let t = tok(s, st);
        assert(c.subrange(0, c.len() as int) =~= c);
        assert(c.subrange(c.len() as int, c.len() as int) =~= Seq::<u8>::empty());
        if t == seq!['('] {
            let st2 = token_at(s, st.1);
            if st2.0 <= st.0 || !span_ok(s, st2) {
            } else {
                lemma_level_sem(s, names, ctx, 1, st2, c);
            }
        } else {
            lemma_find_name_bounds(names, t, 0);
            match find_name(names, t, 0) {
                Some(i) => {
                    if i < 256 {
                        lemma_fetch_pushes_value(i, ctx);
                        let nc = c + seq![OC_FETCH, i as u8];
                        assert(nc.subrange(0, c.len() as int) =~= c);
                        assert(nc.subrange(c.len() as int, nc.len() as int) =~= seq![OC_FETCH, i as u8]);
                    }
                },
                None => {},
            }
        }
    }
}

/// Compiler correctness: in a context with a slot for each name, running a
/// compiled program gives the value that reading the text directly gives.
pub proof fn lemma_compiled_programs_compute(
    s: Seq<char>,
    names: Seq<Seq<char>>,
    vt: crate::value::ValueType,
    ctx: Seq<BytecodeValue>,
)
    requires
        compile_spec(s, names, vt) is Ok,
        names.len() <= ctx.len(),
    ensures
        eval_spec(compile_spec(s, names, vt)->Ok_0, ctx) == expr_value(s, names, ctx, vt),
        expr_value(s, names, ctx, vt) is Some,
{
    let empty = Seq::<u8>::empty();
    lemma_level_sem(s, names, ctx, 1, token_at(s, 0), empty);
    match p_level(s, names, 1, token_at(s, 0), empty) {
        Ok((st, v, c)) => {
            assert(c.subrange(0, c.len() as int) =~= c);
            let w = m_level(s, names, ctx, 1, token_at(s, 0))->Some_0.2;
            if v == BytecodeValue::NonConst {
                assert(run_until(c, ctx, 0, c.len() as int, Seq::empty()) == Some(Seq::<BytecodeValue>::empty().push(w)));
                lemma_run_via_run_until(c, ctx, 0, Seq::empty());
            } else {
                let cv = coerce(vt, v);
                assert(cv != BytecodeValue::NonConst);
                assert(c =~= empty);
                assert(c + encode_value(cv) =~= encode_value(cv));
                lemma_literal_round_trip(cv, ctx);
            }
        },
        Err(_) => {},
    }
}

/// Every program the compiler accepts is well formed: in a context with a
/// slot for each name, it runs without fault and leaves exactly one value.
pub proof fn lemma_compiled_programs_run(
    s: Seq<char>,
    names: Seq<Seq<char>>,
    vt: crate::value::ValueType,
    ctx: Seq<BytecodeValue>,
)
    requires
        compile_spec(s, names, vt) is Ok,
        names.len() <= ctx.len(),
    ensures
        eval_spec(compile_spec(s, names, vt)->Ok_0, ctx) is Some,
{
    lemma_compiled_programs_compute(s, names, vt, ctx);
}

} // verus!
