//! Properties that relate the compiler, the encoding and the evaluator.
use vstd::prelude::*;
use crate::value::{BytecodeValue, ValueType};
use crate::ops::{BinOp, binop_spec};
use crate::program::{OC_INT8, OC_INT32, OC_INT64, OC_JNZ, OC_JNZ8, OC_JZ, OC_JZ8, OC_POP, encode_value, le_bytes32, le_bytes64};
use crate::lexer::{is_digit, is_special, lower_char, token_at};
use crate::parser::{
    Span, coerce, combine, compile_spec, is_ident_start, jump_code, p_level, p_loop, p_primary,
    p_unary, span_ok, tok,
};
use crate::eval::{eval_spec, le32_at, le64_at, run, step};

verus! {

proof fn lemma_le32_round_trip(u: u32)
    ensures
        ((u as u8) as u32) | ((((u >> 8u32) as u8) as u32) << 8u32) | ((((u >> 16u32) as u8) as u32)
            << 16u32) | ((((u >> 24u32) as u8) as u32) << 24u32) == u,
{
    assert(((u as u8) as u32) | ((((u >> 8u32) as u8) as u32) << 8u32) | ((((u >> 16u32) as u8) as u32)
        << 16u32) | ((((u >> 24u32) as u8) as u32) << 24u32) == u) by (bit_vector);
}

/// Reading back four little-endian bytes gives the word that was written.
pub proof fn lemma_le32_read_back(pre: Seq<u8>, u: u32, post: Seq<u8>)
    ensures
        le32_at(pre + le_bytes32(u) + post, pre.len() as int) == u,
{
    let p = pre + le_bytes32(u) + post;
    let i = pre.len() as int;
    assert(p[i] == u as u8);
    assert(p[i + 1] == (u >> 8u32) as u8);
    assert(p[i + 2] == (u >> 16u32) as u8);
    assert(p[i + 3] == (u >> 24u32) as u8);
    lemma_le32_round_trip(u);
}

proof fn lemma_le64_split(u: u64)
    ensures
        ({
            let lo = ((u as u8) as u32) | ((((u >> 8u64) as u8) as u32) << 8u32) | ((((u >> 16u64) as u8) as u32)
                << 16u32) | ((((u >> 24u64) as u8) as u32) << 24u32);
            let hi = ((((u >> 32u64) as u8) as u32)) | ((((u >> 40u64) as u8) as u32) << 8u32) | ((((u
                >> 48u64) as u8) as u32) << 16u32) | ((((u >> 56u64) as u8) as u32) << 24u32);
            (lo as u64) | ((hi as u64) << 32u64) == u
        }),
{
    assert(({
        let lo = ((u as u8) as u32) | ((((u >> 8u64) as u8) as u32) << 8u32) | ((((u >> 16u64) as u8) as u32)
            << 16u32) | ((((u >> 24u64) as u8) as u32) << 24u32);
        let hi = ((((u >> 32u64) as u8) as u32)) | ((((u >> 40u64) as u8) as u32) << 8u32) | ((((u
            >> 48u64) as u8) as u32) << 16u32) | ((((u >> 56u64) as u8) as u32) << 24u32);
        (lo as u64) | ((hi as u64) << 32u64) == u
    })) by (bit_vector);
}

/// Reading back eight little-endian bytes gives the word that was written.
pub proof fn lemma_le64_read_back(pre: Seq<u8>, u: u64, post: Seq<u8>)
    ensures
        le64_at(pre + le_bytes64(u) + post, pre.len() as int) == u,
{
    let p = pre + le_bytes64(u) + post;
    let i = pre.len() as int;
    assert(p[i] == u as u8);
    assert(p[i + 1] == (u >> 8u64) as u8);
    assert(p[i + 2] == (u >> 16u64) as u8);
    assert(p[i + 3] == (u >> 24u64) as u8);
    assert(p[i + 4] == (u >> 32u64) as u8);
    assert(p[i + 5] == (u >> 40u64) as u8);
    assert(p[i + 6] == (u >> 48u64) as u8);
    assert(p[i + 7] == (u >> 56u64) as u8);
    lemma_le64_split(u);
}

/// Integers in `[-128, 127]` always encode as the two-byte 8-bit literal,
/// never as a wider one.
pub proof fn lemma_small_int_encoding(i: i64)
    requires
        -128 <= i <= 127,
    ensures
        encode_value(BytecodeValue::Int(i)) == seq![OC_INT8, i as u8],
        encode_value(BytecodeValue::Int(i)).len() == 2,
{
}

/// Running the literal instruction of a constant pushes its integer
/// coercion: the evaluator reverses the encoding (booleans and the sentinel
/// come back as `1` / `0`).
pub proof fn lemma_literal_round_trip(v: BytecodeValue, ctx: Seq<BytecodeValue>)
    requires
        v != BytecodeValue::NonConst,
    ensures
        eval_spec(encode_value(v), ctx) == Some(BytecodeValue::Int(v.int64_of())),
{
    let p = encode_value(v);
    reveal_with_fuel(run, 2);
    match v {
        BytecodeValue::Int(i) => {
            if -128 <= i <= 127 {
                assert(((i as u8) as i8) as i64 == i) by (bit_vector)
                    requires
                        -128 <= i <= 127,
                ;
            } else if i32::MIN <= i <= i32::MAX {
                lemma_le32_read_back(seq![OC_INT32], #[verifier::truncate] (i as u32), Seq::empty());
                assert(p == seq![OC_INT32] + le_bytes32(#[verifier::truncate] (i as u32)) + Seq::<u8>::empty());
                assert(((i as u32) as i32) as i64 == i) by (bit_vector)
                    requires
                        i32::MIN <= i <= i32::MAX,
                ;
            } else {
                lemma_le64_read_back(seq![OC_INT64], i as u64, Seq::empty());
                assert(p == seq![OC_INT64] + le_bytes64(i as u64) + Seq::<u8>::empty());
                assert((i as u64) as i64 == i) by (bit_vector);
            }
            let st = step(p, ctx, 0, Seq::empty()).unwrap();
            assert(st.1 == seq![BytecodeValue::Int(i)]);
        },
        _ => {
            let st = step(p, ctx, 0, Seq::empty()).unwrap();
            assert(st.1 =~= seq![BytecodeValue::Int(v.int64_of())]);
        },
    }
}

/// When the left operand of `&&` is falsy at run time, the skip lands at the
/// end of the program at once: no instruction of the right side runs, and the
/// falsy left value is the result.
pub proof fn lemma_and_skips_right_side(
    left: Seq<u8>,
    right: Seq<u8>,
    ctx: Seq<BytecodeValue>,
    v: BytecodeValue,
)
    requires
        right.len() + 1 <= i32::MAX,
        !v.bool_of(),
    ensures
        ({
            let p = left + jump_code(false, right.len() + 1int) + seq![OC_POP] + right;
            &&& step(p, ctx, left.len() as int, seq![v]) == Some((p.len() as int, seq![v]))
            &&& run(p, ctx, left.len() as int, seq![v]) == Some(v)
            &&& !run(p, ctx, left.len() as int, seq![v]).unwrap().bool_of()
        }),
{
    lemma_skip_taken(left, right, ctx, v, false);
}

/// When the left operand of `||` is truthy at run time, the skip lands at
/// the end of the program at once and the truthy left value is the result.
pub proof fn lemma_or_skips_right_side(
    left: Seq<u8>,
    right: Seq<u8>,
    ctx: Seq<BytecodeValue>,
    v: BytecodeValue,
)
    requires
        right.len() + 1 <= i32::MAX,
        v.bool_of(),
    ensures
        ({
            let p = left + jump_code(true, right.len() + 1int) + seq![OC_POP] + right;
            &&& step(p, ctx, left.len() as int, seq![v]) == Some((p.len() as int, seq![v]))
            &&& run(p, ctx, left.len() as int, seq![v]) == Some(v)
        }),
{
    lemma_skip_taken(left, right, ctx, v, true);
}

proof fn lemma_skip_taken(left: Seq<u8>, right: Seq<u8>, ctx: Seq<BytecodeValue>, v: BytecodeValue, on_true: bool)
    requires
        right.len() + 1 <= i32::MAX,
        v.bool_of() == on_true,
    ensures
        ({
            let p = left + jump_code(on_true, right.len() + 1int) + seq![OC_POP] + right;
            &&& step(p, ctx, left.len() as int, seq![v]) == Some((p.len() as int, seq![v]))
            &&& run(p, ctx, left.len() as int, seq![v]) == Some(v)
        }),
{
    let n = right.len() + 1int;
    let j = jump_code(on_true, n);
    let p = left + j + seq![OC_POP] + right;
    let i = left.len() as int;
    reveal_with_fuel(run, 2);
    if n - 1 > 254 {
        assert(j == seq![if on_true { OC_JNZ } else { OC_JZ }] + le_bytes32(n as u32));
        assert(p == (left + seq![if on_true { OC_JNZ } else { OC_JZ }]) + le_bytes32(n as u32) + (seq![OC_POP] + right));
        lemma_le32_read_back(left + seq![if on_true { OC_JNZ } else { OC_JZ }], n as u32, seq![OC_POP] + right);
        let m = n as u32;
        assert(m as int == n);
        assert(0 <= (m as i32) && (m as i32) as u32 == m) by (bit_vector)
            requires
                m <= 0x7fff_ffffu32,
        ;
        assert(p[i] == if on_true { OC_JNZ } else { OC_JZ });
    } else {
        assert(p[i] == if on_true { OC_JNZ8 } else { OC_JZ8 });
        assert(p[i + 1] == n as u8);
    }
    assert(p.len() == i + j.len() + n);
}

/// The skip over a right-hand side of at most 254 bytes uses the 8-bit
/// operand form; from 255 bytes on, the 32-bit form.
pub proof fn lemma_jump_width(on_true: bool, right_len: nat)
    requires
        right_len + 1 <= i32::MAX,
    ensures
        right_len <= 254 ==> jump_code(on_true, right_len + 1int) == seq![
            if on_true { OC_JNZ8 } else { OC_JZ8 },
            (right_len + 1) as u8,
        ],
        right_len >= 255 ==> jump_code(on_true, right_len + 1int).len() == 5 && jump_code(
            on_true,
            right_len + 1int,
        )[0] == if on_true { OC_JNZ } else { OC_JZ },
{
}

/// Compiling the same text twice gives the same program.
pub proof fn lemma_compile_deterministic(
    s1: Seq<char>,
    s2: Seq<char>,
    names: Seq<Seq<char>>,
    vt: ValueType,
)
    requires
        s1 == s2,
    ensures
        compile_spec(s1, names, vt) == compile_spec(s2, names, vt),
{
}

/// Text made only of digits, operators, brackets and whitespace: no name and
/// no fractional literal can occur in it.
pub open spec fn literal_only(s: Seq<char>) -> bool {
    forall|i: int| 0 <= i < s.len() ==> is_digit(#[trigger] s[i]) || is_special(s[i]) || s[i] == '~'
}

/// The folded value of the whole text (`NonConst` when it needs bytecode or
/// does not parse).
pub open spec fn folded_value(s: Seq<char>, names: Seq<Seq<char>>) -> BytecodeValue {
    match p_level(s, names, 1, token_at(s, 0), Seq::empty()) {
        Ok((_, v, _)) => v,
        Err(_) => BytecodeValue::NonConst,
    }
}

proof fn lemma_binop_is_const(op: BinOp, a: BytecodeValue, b: BytecodeValue)
    ensures
        binop_spec(op, a, b) != BytecodeValue::NonConst,
{
}

proof fn lemma_level_const(s: Seq<char>, names: Seq<Seq<char>>, k: int, st: Span, c: Seq<u8>)
    requires
        literal_only(s),
    ensures
        p_level(s, names, k, st, c) matches Ok((_, v, c2)) ==> v != BytecodeValue::NonConst && c2 == c,
    decreases s.len() - st.0, 2 * (13 - k) + 1,
{
    if !span_ok(s, st) || k < 1 || k > 12 {
    } else if k == 12 {
        lemma_unary_const(s, names, st, c);
    } else {
        lemma_level_const(s, names, k + 1, st, c);
        match p_level(s, names, k + 1, st, c) {
            Ok((st1, v, c1)) => {
                if st1.0 >= st.0 && span_ok(s, st1) {
                    lemma_loop_const(s, names, k, st1, v, c1);
                }
            },
            Err(_) => {},
        }
    }
}

proof fn lemma_loop_const(s: Seq<char>, names: Seq<Seq<char>>, k: int, st: Span, v: BytecodeValue, c: Seq<u8>)
    requires
        literal_only(s),
        v != BytecodeValue::NonConst,
    ensures
        p_loop(s, names, k, st, v, c) matches Ok((_, v2, c2)) ==> v2 != BytecodeValue::NonConst && c2 == c,
    decreases s.len() - st.0, 2 * (13 - k),
{
    if !span_ok(s, st) || k < 1 || k > 11 {
    } else {
        match crate::parser::level_op(k, tok(s, st)) {
            None => {},
            Some(op) => {
                let st2 = token_at(s, st.1);
                if st2.0 <= st.0 || !span_ok(s, st2) {
                } else {
                    let rk = crate::parser::right_level(k);
                    lemma_level_const(s, names, rk, st2, Seq::empty());
                    match p_level(s, names, rk, st2, Seq::empty()) {
                        Ok((st3, v2, c2)) => {
                            if st3.0 >= st2.0 && span_ok(s, st3) {
                                lemma_binop_is_const(op, v, v2);
                                let nv = binop_spec(op, v, v2);
                                assert(combine(op, v, c, v2, c2) == Some((nv, c)));
                                lemma_loop_const(s, names, k, st3, nv, c);
                            }
                        },
                        Err(_) => {},
                    }
                }
            },
        }
    }
}

proof fn lemma_unary_const(s: Seq<char>, names: Seq<Seq<char>>, st: Span, c: Seq<u8>)
    requires
        literal_only(s),
    ensures
        p_unary(s, names, st, c) matches Ok((_, v, c2)) ==> v != BytecodeValue::NonConst && c2 == c,
    decreases s.len() - st.0, 1int,
{
    if !span_ok(s, st) {
    } else {
        match crate::parser::prefix_op(tok(s, st)) {
            Some(op) => {
                let st2 = token_at(s, st.1);
                if st2.0 <= st.0 || !span_ok(s, st2) {
                } else {
                    lemma_unary_const(s, names, st2, c);
                }
            },
            None => {
                lemma_primary_const(s, names, st, c);
            },
        }
    }
}

proof fn lemma_primary_const(s: Seq<char>, names: Seq<Seq<char>>, st: Span, c: Seq<u8>)
    requires
        literal_only(s),
    ensures
        p_primary(s, names, st, c) matches Ok((_, v, c2)) ==> v != BytecodeValue::NonConst && c2 == c,
    decreases s.len() - st.0, 0int,
{
    if !span_ok(s, st) {
    } else {
        let t = tok(s, st);
        if t == seq!['('] {
            let st2 = token_at(s, st.1);
            if st2.0 <= st.0 || !span_ok(s, st2) {
            } else {
                lemma_level_const(s, names, 1, st2, c);
            }
        } else if t.len() > 0 {
            let ch = s[st.0];
            assert(t[0] == lower_char(ch));
            assert(is_digit(ch) || is_special(ch) || ch == '~');
            assert(!is_ident_start(t[0]));
        }
    }
}

/// Constant folding: a text built only from literals and operators compiles,
/// when it compiles at all, to the single literal instruction of its folded
/// value, coerced to the expected kind.
pub proof fn lemma_constant_folding(s: Seq<char>, names: Seq<Seq<char>>, vt: ValueType)
    requires
        literal_only(s),
        compile_spec(s, names, vt) is Ok,
    ensures
        folded_value(s, names) != BytecodeValue::NonConst,
        compile_spec(s, names, vt) == Ok::<Seq<u8>, Span>(encode_value(coerce(vt, folded_value(s, names)))),
{
    lemma_level_const(s, names, 1, token_at(s, 0), Seq::empty());
}

/// A text built only from literals and operators evaluates, in any context,
/// to the integer coercion of its folded value (coerced to the expected
/// kind).
pub proof fn lemma_constant_program_evaluates(
    s: Seq<char>,
    names: Seq<Seq<char>>,
    vt: ValueType,
    ctx: Seq<BytecodeValue>,
)
    requires
        literal_only(s),
        compile_spec(s, names, vt) is Ok,
    ensures
        eval_spec(compile_spec(s, names, vt)->Ok_0, ctx) == Some(
            BytecodeValue::Int(coerce(vt, folded_value(s, names)).int64_of()),
        ),
{
    lemma_constant_folding(s, names, vt);
    lemma_literal_round_trip(coerce(vt, folded_value(s, names)), ctx);
}

} // verus!
