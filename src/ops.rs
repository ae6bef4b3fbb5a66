//! The operators of the expression language and their meaning on
//! [`BytecodeValue`]s, shared by the constant folder and the evaluator.
use vstd::prelude::*;
use crate::value::BytecodeValue;

verus! {

/// Binary operators, loosest-binding first.
#[derive(Clone, Copy, Debug, PartialEq, Eq, Structural)]
pub enum BinOp {
    BlOr,
    BlXor,
    BlAnd,
    Or,
    Xor,
    And,
    Eq,
    Ne,
    Gt,
    Ge,
    Lt,
    Le,
    Add,
    Sub,
    Mul,
    Div,
    Mod,
    Pow,
}

/// Prefix operators: arithmetic negation, bitwise not, boolean not.
#[derive(Clone, Copy, Debug, PartialEq, Eq, Structural)]
pub enum UnOp {
    Neg,
    Not,
    BlNot,
}

/// Two's-complement wrap-around into 32 bits.
pub open spec fn wrap32(x: int) -> i32 {
    x as i32
}

pub open spec fn abs_int(x: int) -> int {
    if x < 0 {
        -x
    } else {
        x
    }
}

/// Integer division truncating toward zero.
pub open spec fn trunc_div(a: int, b: int) -> int {
    if (a >= 0) == (b >= 0) {
        abs_int(a) / abs_int(b)
    } else {
        -(abs_int(a) / abs_int(b))
    }
}

/// Remainder of [`trunc_div`]: it takes the sign of the dividend.
pub open spec fn trunc_rem(a: int, b: int) -> int {
    if a >= 0 {
        abs_int(a) % abs_int(b)
    } else {
        -(abs_int(a) % abs_int(b))
    }
}

pub open spec fn pow_int(x: int, e: nat) -> int
    decreases e,
{
    if e == 0 {
        1
    } else {
        x * pow_int(x, (e - 1) as nat)
    }
}

pub open spec fn fits_i32(x: int) -> bool {
    i32::MIN <= x <= i32::MAX
}

pub open spec fn int_value(x: int) -> BytecodeValue {
    BytecodeValue::Int(x as i64)
}

/// What a binary operator yields on two constants. Arithmetic works on the
/// 32-bit integer coercions and wraps around; division and remainder by zero,
/// a negative exponent, and a power outside the 32-bit range give the
/// `NotApplicable` sentinel. Comparisons and the boolean operators give
/// booleans.
pub open spec fn binop_spec(op: BinOp, a: BytecodeValue, b: BytecodeValue) -> BytecodeValue {
    let x = a.int_of() as int;
    let y = b.int_of() as int;
    match op {
        BinOp::BlOr => BytecodeValue::Bool(a.bool_of() || b.bool_of()),
        BinOp::BlXor => BytecodeValue::Bool(a.bool_of() != b.bool_of()),
        BinOp::BlAnd => BytecodeValue::Bool(a.bool_of() && b.bool_of()),
        BinOp::Or => int_value((a.int_of() | b.int_of()) as int),
        BinOp::Xor => int_value((a.int_of() ^ b.int_of()) as int),
        BinOp::And => int_value((a.int_of() & b.int_of()) as int),
        BinOp::Eq => BytecodeValue::Bool(x == y),
        BinOp::Ne => BytecodeValue::Bool(x != y),
        BinOp::Gt => BytecodeValue::Bool(x > y),
        BinOp::Ge => BytecodeValue::Bool(x >= y),
        BinOp::Lt => BytecodeValue::Bool(x < y),
        BinOp::Le => BytecodeValue::Bool(x <= y),
        BinOp::Add => int_value(wrap32(x + y) as int),
        BinOp::Sub => int_value(wrap32(x - y) as int),
        BinOp::Mul => int_value(wrap32(x * y) as int),
        BinOp::Div => if y == 0 {
            BytecodeValue::NotApplicable
        } else {
            int_value(wrap32(trunc_div(x, y)) as int)
        },
        BinOp::Mod => if y == 0 {
            BytecodeValue::NotApplicable
        } else {
            int_value(trunc_rem(x, y))
        },
        BinOp::Pow => if y < 0 || !fits_i32(pow_int(x, y as nat)) {
            BytecodeValue::NotApplicable
        } else {
            int_value(pow_int(x, y as nat))
        },
    }
}

/// What a prefix operator yields on a constant.
pub open spec fn unop_spec(op: UnOp, a: BytecodeValue) -> BytecodeValue {
    match op {
        UnOp::Neg => int_value(wrap32(-(a.int_of() as int)) as int),
        UnOp::Not => int_value(!a.int_of() as int),
        UnOp::BlNot => BytecodeValue::Bool(!a.bool_of()),
    }
}

proof fn lemma_pow_one(e: nat)
    ensures
        pow_int(1, e) == 1,
    decreases e,
{
    if e > 0 {
        lemma_pow_one((e - 1) as nat);
    }
}

proof fn lemma_pow_zero(e: nat)
    requires
        e > 0,
    ensures
        pow_int(0, e) == 0,
{
}

proof fn lemma_pow_minus_one(e: nat)
    ensures
        pow_int(-1, e) == if e % 2 == 0 { 1int } else { -1int },
    decreases e,
{
    if e > 0 {
        lemma_pow_minus_one((e - 1) as nat);
    }
}

proof fn lemma_pow_grows(x: int, i: nat, e: nat)
    requires
        abs_int(x) >= 1,
        i <= e,
    ensures
        abs_int(pow_int(x, e)) >= abs_int(pow_int(x, i)),
    decreases e,
{
    if e > i {
        lemma_pow_grows(x, i, (e - 1) as nat);
        let p = pow_int(x, (e - 1) as nat);
        assert(abs_int(x * p) >= abs_int(p)) by (nonlinear_arith)
            requires
                abs_int(x) >= 1,
        ;
    }
}

fn pow_value(x: i32, e: i32) -> (r: BytecodeValue)
    ensures
        r == binop_spec(BinOp::Pow, BytecodeValue::Int(x as i64), BytecodeValue::Int(e as i64)),
{
    if e < 0 {
        return BytecodeValue::NotApplicable;
    }
    if x == 1 {
        proof {
            lemma_pow_one(e as nat);
        }
        return BytecodeValue::Int(1);
    }
    if x == 0 {
        if e == 0 {
            return BytecodeValue::Int(1);
        }
        proof {
            lemma_pow_zero(e as nat);
        }
        return BytecodeValue::Int(0);
    }
    if x == -1 {
        proof {
            lemma_pow_minus_one(e as nat);
        }
        if e % 2 == 0 {
            return BytecodeValue::Int(1);
        }
        return BytecodeValue::Int(-1);
    }
    let mut acc: i64 = 1;
    let mut i: i32 = 0;
    let big: i64 = 0x8000_0000;
    while i < e && -big <= acc && acc <= big
        invariant
            0 <= i <= e,
            acc as int == pow_int(x as int, i as nat),
            -big * big <= acc <= big * big,
            big == 0x8000_0000,
            abs_int(x as int) >= 2,
        decreases e - i,
    {
        assert(-big * big <= acc * (x as i64) <= big * big) by (nonlinear_arith)
            requires
                -big <= acc <= big,
                -big <= x <= big,
                big == 0x8000_0000,
        ;
        assert(acc * (x as i64) == (x as int) * pow_int(x as int, i as nat)) by (nonlinear_arith)
            requires
                acc as int == pow_int(x as int, i as nat),
        ;
        acc = acc * (x as i64);
        i = i + 1;
    }
    if i < e {
        proof {
            lemma_pow_grows(x as int, i as nat, e as nat);
        }
        return BytecodeValue::NotApplicable;
    }
    if acc < i32::MIN as i64 || acc > i32::MAX as i64 {
        BytecodeValue::NotApplicable
    } else {
        BytecodeValue::Int(acc)
    }
}

fn div_value(x: i32, y: i32) -> (r: BytecodeValue)
    ensures
        r == binop_spec(BinOp::Div, BytecodeValue::Int(x as i64), BytecodeValue::Int(y as i64)),
{
    if y == 0 {
        return BytecodeValue::NotApplicable;
    }
    let a: i64 = if x < 0 { -(x as i64) } else { x as i64 };
    let b: i64 = if y < 0 { -(y as i64) } else { y as i64 };
    let q: i64 = a / b;
    let s: i64 = if (x >= 0) == (y >= 0) { q } else { -q };
    BytecodeValue::Int((#[verifier::truncate] (s as i32)) as i64)
}

fn rem_value(x: i32, y: i32) -> (r: BytecodeValue)
    ensures
        r == binop_spec(BinOp::Mod, BytecodeValue::Int(x as i64), BytecodeValue::Int(y as i64)),
{
    if y == 0 {
        return BytecodeValue::NotApplicable;
    }
    let a: i64 = if x < 0 { -(x as i64) } else { x as i64 };
    let b: i64 = if y < 0 { -(y as i64) } else { y as i64 };
    let m: i64 = a % b;
    if x >= 0 {
        BytecodeValue::Int(m)
    } else {
        BytecodeValue::Int(-m)
    }
}

/// Applies `op` to two constants.
pub fn apply_binary(op: BinOp, a: BytecodeValue, b: BytecodeValue) -> (r: BytecodeValue)
    ensures
        r == binop_spec(op, a, b),
{
    let x = a.to_i();
    let y = b.to_i();
    match op {
        BinOp::BlOr => BytecodeValue::Bool(a.to_b() || b.to_b()),
        BinOp::BlXor => BytecodeValue::Bool(a.to_b() != b.to_b()),
        BinOp::BlAnd => BytecodeValue::Bool(a.to_b() && b.to_b()),
        BinOp::Or => BytecodeValue::Int((x | y) as i64),
        BinOp::Xor => BytecodeValue::Int((x ^ y) as i64),
        BinOp::And => BytecodeValue::Int((x & y) as i64),
        BinOp::Eq => BytecodeValue::Bool(x == y),
        BinOp::Ne => BytecodeValue::Bool(x != y),
        BinOp::Gt => BytecodeValue::Bool(x > y),
        BinOp::Ge => BytecodeValue::Bool(x >= y),
        BinOp::Lt => BytecodeValue::Bool(x < y),
        BinOp::Le => BytecodeValue::Bool(x <= y),
        BinOp::Add => BytecodeValue::Int((#[verifier::truncate] ((x as i64 + y as i64) as i32)) as i64),
        BinOp::Sub => BytecodeValue::Int((#[verifier::truncate] ((x as i64 - y as i64) as i32)) as i64),
        BinOp::Mul => {
            assert(i32::MIN * i32::MAX <= (x as i64) * (y as i64) <= i32::MIN * i32::MIN) by (nonlinear_arith)
                requires
                    i32::MIN <= x <= i32::MAX,
                    i32::MIN <= y <= i32::MAX,
            ;
            BytecodeValue::Int((#[verifier::truncate] ((x as i64 * y as i64) as i32)) as i64)
        },
        BinOp::Div => div_value(x, y),
        BinOp::Mod => rem_value(x, y),
        BinOp::Pow => pow_value(x, y),
    }
}

/// Applies `op` to a constant.
pub fn apply_unary(op: UnOp, a: BytecodeValue) -> (r: BytecodeValue)
    ensures
        r == unop_spec(op, a),
{
    match op {
        UnOp::Neg => BytecodeValue::Int((#[verifier::truncate] ((-(a.to_i() as i64)) as i32)) as i64),
        UnOp::Not => BytecodeValue::Int((!a.to_i()) as i64),
        UnOp::BlNot => BytecodeValue::Bool(!a.to_b()),
    }
}

} // verus!
