//! The stack machine that runs a compiled program against a read-only
//! per-frame context.
use vstd::prelude::*;
use crate::value::{BytecodeValue, ValueType};
use crate::parser::coerce;
use crate::ops::{BinOp, UnOp, apply_binary, apply_unary, binop_spec, unop_spec};
use crate::program::{
    BytecodeExp, OC_AND, OC_ADD, OC_BLAND, OC_BLNOT, OC_BLOR, OC_BLXOR, OC_DIV, OC_EQ, OC_FETCH,
    OC_GE, OC_GT, OC_INT32, OC_INT64, OC_INT8, OC_JNZ, OC_JNZ8, OC_JZ, OC_JZ8, OC_LE, OC_LT, OC_MOD,
    OC_MUL, OC_NE, OC_NEG, OC_NOT, OC_OR, OC_POP, OC_POW, OC_SUB, OC_XOR,
};

verus! {

/// The 32-bit word whose little-endian bytes start at `i`.
pub open spec fn le32_at(p: Seq<u8>, i: int) -> u32 {
    (p[i] as u32) | ((p[i + 1] as u32) << 8u32) | ((p[i + 2] as u32) << 16u32) | ((p[i + 3] as u32)
        << 24u32)
}

/// The 64-bit word whose little-endian bytes start at `i`.
pub open spec fn le64_at(p: Seq<u8>, i: int) -> u64 {
    (le32_at(p, i) as u64) | ((le32_at(p, i + 4) as u64) << 32u64)
}

/// The binary operator an opcode stands for.
pub open spec fn binop_of(op: u8) -> Option<BinOp> {
    if op == OC_BLOR {
        Some(BinOp::BlOr)
    } else if op == OC_BLXOR {
        Some(BinOp::BlXor)
    } else if op == OC_BLAND {
        Some(BinOp::BlAnd)
    } else if op == OC_OR {
        Some(BinOp::Or)
    } else if op == OC_XOR {
        Some(BinOp::Xor)
    } else if op == OC_AND {
        Some(BinOp::And)
    } else if op == OC_EQ {
        Some(BinOp::Eq)
    } else if op == OC_NE {
        Some(BinOp::Ne)
    } else if op == OC_GT {
        Some(BinOp::Gt)
    } else if op == OC_GE {
        Some(BinOp::Ge)
    } else if op == OC_LT {
        Some(BinOp::Lt)
    } else if op == OC_LE {
        Some(BinOp::Le)
    } else if op == OC_ADD {
        Some(BinOp::Add)
    } else if op == OC_SUB {
        Some(BinOp::Sub)
    } else if op == OC_MUL {
        Some(BinOp::Mul)
    } else if op == OC_DIV {
        Some(BinOp::Div)
    } else if op == OC_MOD {
        Some(BinOp::Mod)
    } else if op == OC_POW {
        Some(BinOp::Pow)
    } else {
        None
    }
}

/// The prefix operator an opcode stands for.
pub open spec fn unop_of(op: u8) -> Option<UnOp> {
    if op == OC_NEG {
        Some(UnOp::Neg)
    } else if op == OC_NOT {
        Some(UnOp::Not)
    } else if op == OC_BLNOT {
        Some(UnOp::BlNot)
    } else {
        None
    }
}

/// Where a skip from `next` by `n` bytes lands, if it stays within the
/// program.
pub open spec fn skip_to(p: Seq<u8>, next: int, n: int, taken: bool) -> Option<int> {
    if !taken {
        Some(next)
    } else if n < 0 || next + n > p.len() {
        None
    } else {
        Some(next + n)
    }
}

/// One instruction at `pc`: the next instruction pointer and stack, or
/// `None` on a malformed program (truncated operand, unknown opcode, stack
/// underflow, missing context slot, skip past the end). A conditional skip
/// leaves the value it tests on the stack: when it is taken, that value is
/// the result of the short-circuited operator; otherwise a discard follows.
pub open spec fn step(p: Seq<u8>, ctx: Seq<BytecodeValue>, pc: int, stack: Seq<BytecodeValue>) -> Option<
    (int, Seq<BytecodeValue>),
> {
    if pc < 0 || pc >= p.len() {
        None
    } else {
        let op = p[pc];
        if op == OC_INT8 {
            if pc + 1 < p.len() {
                Some((pc + 2, stack.push(BytecodeValue::Int((#[verifier::truncate] (p[pc + 1] as i8)) as i64))))
            } else {
                None
            }
        } else if op == OC_INT32 {
            if pc + 4 < p.len() {
                Some((pc + 5, stack.push(BytecodeValue::Int((le32_at(p, pc + 1) as i32) as i64))))
            } else {
                None
            }
        } else if op == OC_INT64 {
            if pc + 8 < p.len() {
                Some((pc + 9, stack.push(BytecodeValue::Int(le64_at(p, pc + 1) as i64))))
            } else {
                None
            }
        } else if op == OC_FETCH {
            if pc + 1 < p.len() && (p[pc + 1] as int) < ctx.len() {
                Some((pc + 2, stack.push(ctx[p[pc + 1] as int])))
            } else {
                None
            }
        } else if op == OC_POP {
            if stack.len() > 0 {
                Some((pc + 1, stack.drop_last()))
            } else {
                None
            }
        } else if op == OC_JZ8 || op == OC_JNZ8 {
            if pc + 1 < p.len() && stack.len() > 0 {
                let taken = if op == OC_JZ8 { !stack.last().bool_of() } else { stack.last().bool_of() };
                match skip_to(p, pc + 2, p[pc + 1] as int, taken) {
                    Some(t) => Some((t, stack)),
                    None => None,
                }
            } else {
                None
            }
        } else if op == OC_JZ || op == OC_JNZ {
            if pc + 4 < p.len() && stack.len() > 0 {
                let taken = if op == OC_JZ { !stack.last().bool_of() } else { stack.last().bool_of() };
                match skip_to(p, pc + 5, (le32_at(p, pc + 1) as i32) as int, taken) {
                    Some(t) => Some((t, stack)),
                    None => None,
                }
            } else {
                None
            }
        } else {
            match binop_of(op) {
                Some(bop) => if stack.len() >= 2 {
                    let b = stack.last();
                    let rest = stack.drop_last();
                    Some((pc + 1, rest.drop_last().push(binop_spec(bop, rest.last(), b))))
                } else {
                    None
                },
                None => match unop_of(op) {
                    Some(uop) => if stack.len() >= 1 {
                        Some((pc + 1, stack.drop_last().push(unop_spec(uop, stack.last()))))
                    } else {
                        None
                    },
                    None => None,
                },
            }
        }
    }
}

/// Runs from `pc` to the end of the program; the result is the single value
/// left on the stack.
pub open spec fn run(p: Seq<u8>, ctx: Seq<BytecodeValue>, pc: int, stack: Seq<BytecodeValue>) -> Option<
    BytecodeValue,
>
    decreases p.len() - pc,
{
    if pc == p.len() {
        if stack.len() == 1 {
            Some(stack[0])
        } else {
            None
        }
    } else {
        match step(p, ctx, pc, stack) {
            None => None,
            Some((pc2, st2)) => if pc2 <= pc || pc2 > p.len() {
                None
            } else {
                run(p, ctx, pc2, st2)
            },
        }
    }
}

/// The value of a program in a context, or `None` when it is malformed.
pub open spec fn eval_spec(p: Seq<u8>, ctx: Seq<BytecodeValue>) -> Option<BytecodeValue> {
    run(p, ctx, 0, Seq::empty())
}

fn le32_read(p: &Vec<u8>, i: usize) -> (r: u32)
    requires
        i + 3 < p@.len(),
    ensures
        r == le32_at(p@, i as int),
{
    let _n = p.len();
    (p[i] as u32) | ((p[i + 1] as u32) << 8u32) | ((p[i + 2] as u32) << 16u32) | ((p[i + 3] as u32)
        << 24u32)
}

fn binop_from(op: u8) -> (r: Option<BinOp>)
    ensures
        r == binop_of(op),
{
    if op == OC_BLOR {
        Some(BinOp::BlOr)
    } else if op == OC_BLXOR {
        Some(BinOp::BlXor)
    } else if op == OC_BLAND {
        Some(BinOp::BlAnd)
    } else if op == OC_OR {
        Some(BinOp::Or)
    } else if op == OC_XOR {
        Some(BinOp::Xor)
    } else if op == OC_AND {
        Some(BinOp::And)
    } else if op == OC_EQ {
        Some(BinOp::Eq)
    } else if op == OC_NE {
        Some(BinOp::Ne)
    } else if op == OC_GT {
        Some(BinOp::Gt)
    } else if op == OC_GE {
        Some(BinOp::Ge)
    } else if op == OC_LT {
        Some(BinOp::Lt)
    } else if op == OC_LE {
        Some(BinOp::Le)
    } else if op == OC_ADD {
        Some(BinOp::Add)
    } else if op == OC_SUB {
        Some(BinOp::Sub)
    } else if op == OC_MUL {
        Some(BinOp::Mul)
    } else if op == OC_DIV {
        Some(BinOp::Div)
    } else if op == OC_MOD {
        Some(BinOp::Mod)
    } else if op == OC_POW {
        Some(BinOp::Pow)
    } else {
        None
    }
}

fn unop_from(op: u8) -> (r: Option<UnOp>)
    ensures
        r == unop_of(op),
{
    if op == OC_NEG {
        Some(UnOp::Neg)
    } else if op == OC_NOT {
        Some(UnOp::Not)
    } else if op == OC_BLNOT {
        Some(UnOp::BlNot)
    } else {
        None
    }
}

/// Executes the instruction at `pc`; see [`step`].
fn exec_step(p: &Vec<u8>, ctx: &[BytecodeValue], pc: usize, stack: &mut Vec<BytecodeValue>) -> (r: Option<usize>)
    requires
        pc < p@.len(),
    ensures
        match step(p@, ctx@, pc as int, old(stack)@) {
            Some((pc2, st2)) => r == Some(pc2 as usize) && pc2 == r->Some_0 as int && final(stack)@ == st2,
            None => r is None,
        },
{
    let n = p.len();
    let op = p[pc];
    if op == OC_INT8 {
        if n - pc > 1 {
            stack.push(BytecodeValue::Int((#[verifier::truncate] (p[pc + 1] as i8)) as i64));
            Some(pc + 2)
        } else {
            None
        }
    } else if op == OC_INT32 {
        if n - pc > 4 {
            let u = le32_read(p, pc + 1);
            stack.push(BytecodeValue::Int((#[verifier::truncate] (u as i32)) as i64));
            Some(pc + 5)
        } else {
            None
        }
    } else if op == OC_INT64 {
        if n - pc > 8 {
            let lo = le32_read(p, pc + 1);
            let hi = le32_read(p, pc + 5);
            let u: u64 = (lo as u64) | ((hi as u64) << 32u64);
            stack.push(BytecodeValue::Int(#[verifier::truncate] (u as i64)));
            Some(pc + 9)
        } else {
            None
        }
    } else if op == OC_FETCH {
        if n - pc > 1 && (p[pc + 1] as usize) < ctx.len() {
            stack.push(ctx[p[pc + 1] as usize]);
            Some(pc + 2)
        } else {
            None
        }
    } else if op == OC_POP {
        if stack.len() > 0 {
            stack.pop();
            Some(pc + 1)
        } else {
            None
        }
    } else if op == OC_JZ8 || op == OC_JNZ8 || op == OC_JZ || op == OC_JNZ {
        let wide = op == OC_JZ || op == OC_JNZ;
        let width: usize = if wide { 5 } else { 2 };
        if n - pc > width - 1 && stack.len() > 0 {
            let top = stack[stack.len() - 1].to_b();
            let taken = if op == OC_JZ8 || op == OC_JZ { !top } else { top };
            let next = pc + width;
            if !taken {
                return Some(next);
            }
            if wide {
                let d = #[verifier::truncate] (le32_read(p, pc + 1) as i32);
                if d < 0 || d as usize > n - next {
                    None
                } else {
                    Some(next + d as usize)
                }
            } else {
                let d = p[pc + 1] as usize;
                if d > n - next {
                    None
                } else {
                    Some(next + d)
                }
            }
        } else {
            None
        }
    } else {
        match binop_from(op) {
            Some(bop) => {
                if stack.len() >= 2 {
                    let b = stack.pop().unwrap();
                    let a = stack.pop().unwrap();
                    stack.push(apply_binary(bop, a, b));
                    Some(pc + 1)
                } else {
                    None
                }
            },
            None => match unop_from(op) {
                Some(uop) => {
                    if stack.len() >= 1 {
                        let a = stack.pop().unwrap();
                        stack.push(apply_unary(uop, a));
                        Some(pc + 1)
                    } else {
                        None
                    }
                },
                None => None,
            },
        }
    }
}

/// Runs `program` against the context `ctx` (slot `i` holds the value of the
/// `i`-th context name). The result is the single value left on the stack,
/// or `None` when the program is malformed, which a program from the
/// compiler never is.
pub fn evaluate(program: &BytecodeExp, ctx: &[BytecodeValue]) -> (r: Option<BytecodeValue>)
    ensures
        r == eval_spec(program@, ctx@),
{
    let p = program.as_bytes();
    let n = p.len();
    let mut stack: Vec<BytecodeValue> = Vec::new();
    let mut pc: usize = 0;
    while pc < n
        invariant
            n == p@.len(),
            p@ == program@,
            0 <= pc <= n,
            run(p@, ctx@, pc as int, stack@) == eval_spec(program@, ctx@),
        decreases n - pc,
    {
        match exec_step(&p, ctx, pc, &mut stack) {
            None => {
                return None;
            },
            Some(pc2) => {
                if pc2 <= pc || pc2 > n {
                    return None;
                }
                pc = pc2;
            },
        }
    }
    if stack.len() == 1 {
        Some(stack[0])
    } else {
        None
    }
}

/// Evaluates `program` and coerces its result to the kind `vt`, by the rule
/// the compiler applies to a constant result: to the integer coercion for
/// `Int`, to the boolean coercion for `Bool`, unchanged for `Untyped`.
pub fn evaluate_typed(program: &BytecodeExp, ctx: &[BytecodeValue], vt: ValueType) -> (r: Option<BytecodeValue>)
    ensures
        r == match eval_spec(program@, ctx@) {
            Some(v) => Some(coerce(vt, v)),
            None => None,
        },
{
    match evaluate(program, ctx) {
        Some(v) => Some(match vt {
            ValueType::Untyped => v,
            ValueType::Int => BytecodeValue::Int(v.to_i() as i64),
            ValueType::Bool => BytecodeValue::Bool(v.to_b()),
        }),
        None => None,
    }
}

} // verus!
