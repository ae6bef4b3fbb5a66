//! The bytecode form of a compiled expression, its instruction encoding, and
//! the length-prefixed parameter block that groups several programs.
use vstd::prelude::*;
use crate::value::BytecodeValue;
use crate::ops::{BinOp, UnOp, apply_binary, apply_unary, binop_spec, unop_spec};

verus! {

/// Push an 8-bit signed literal.
pub const OC_INT8: u8 = 0;
/// Push a 32-bit little-endian literal.
pub const OC_INT32: u8 = 1;
/// Push a 64-bit little-endian literal.
pub const OC_INT64: u8 = 2;
/// Push the context slot named by the 8-bit operand.
pub const OC_FETCH: u8 = 3;
/// Drop the top of the stack.
pub const OC_POP: u8 = 4;
/// Skip forward by the 8-bit operand when the top of the stack is falsy.
pub const OC_JZ8: u8 = 5;
/// Skip forward by the 8-bit operand when the top of the stack is truthy.
pub const OC_JNZ8: u8 = 6;
/// Skip forward by the 32-bit operand when the top of the stack is falsy.
pub const OC_JZ: u8 = 7;
/// Skip forward by the 32-bit operand when the top of the stack is truthy.
pub const OC_JNZ: u8 = 8;
pub const OC_BLOR: u8 = 10;
pub const OC_BLXOR: u8 = 11;
pub const OC_BLAND: u8 = 12;
pub const OC_OR: u8 = 13;
pub const OC_XOR: u8 = 14;
pub const OC_AND: u8 = 15;
pub const OC_EQ: u8 = 16;
pub const OC_NE: u8 = 17;
pub const OC_GT: u8 = 18;
pub const OC_GE: u8 = 19;
pub const OC_LT: u8 = 20;
pub const OC_LE: u8 = 21;
pub const OC_ADD: u8 = 22;
pub const OC_SUB: u8 = 23;
pub const OC_MUL: u8 = 24;
pub const OC_DIV: u8 = 25;
pub const OC_MOD: u8 = 26;
pub const OC_POW: u8 = 27;
pub const OC_NEG: u8 = 30;
pub const OC_NOT: u8 = 31;
pub const OC_BLNOT: u8 = 32;

/// The opcode of a binary operator.
pub open spec fn binop_code(op: BinOp) -> u8 {
    match op {
        BinOp::BlOr => OC_BLOR,
        BinOp::BlXor => OC_BLXOR,
        BinOp::BlAnd => OC_BLAND,
        BinOp::Or => OC_OR,
        BinOp::Xor => OC_XOR,
        BinOp::And => OC_AND,
        BinOp::Eq => OC_EQ,
        BinOp::Ne => OC_NE,
        BinOp::Gt => OC_GT,
        BinOp::Ge => OC_GE,
        BinOp::Lt => OC_LT,
        BinOp::Le => OC_LE,
        BinOp::Add => OC_ADD,
        BinOp::Sub => OC_SUB,
        BinOp::Mul => OC_MUL,
        BinOp::Div => OC_DIV,
        BinOp::Mod => OC_MOD,
        BinOp::Pow => OC_POW,
    }
}

/// The opcode of a prefix operator.
pub open spec fn unop_code(op: UnOp) -> u8 {
    match op {
        UnOp::Neg => OC_NEG,
        UnOp::Not => OC_NOT,
        UnOp::BlNot => OC_BLNOT,
    }
}

impl BinOp {
    pub fn opcode(self) -> (r: u8)
        ensures
            r == binop_code(self),
    {
        match self {
            BinOp::BlOr => OC_BLOR,
            BinOp::BlXor => OC_BLXOR,
            BinOp::BlAnd => OC_BLAND,
            BinOp::Or => OC_OR,
            BinOp::Xor => OC_XOR,
            BinOp::And => OC_AND,
            BinOp::Eq => OC_EQ,
            BinOp::Ne => OC_NE,
            BinOp::Gt => OC_GT,
            BinOp::Ge => OC_GE,
            BinOp::Lt => OC_LT,
            BinOp::Le => OC_LE,
            BinOp::Add => OC_ADD,
            BinOp::Sub => OC_SUB,
            BinOp::Mul => OC_MUL,
            BinOp::Div => OC_DIV,
            BinOp::Mod => OC_MOD,
            BinOp::Pow => OC_POW,
        }
    }
}

impl UnOp {
    pub fn opcode(self) -> (r: u8)
        ensures
            r == unop_code(self),
    {
        match self {
            UnOp::Neg => OC_NEG,
            UnOp::Not => OC_NOT,
            UnOp::BlNot => OC_BLNOT,
        }
    }
}

/// The four little-endian bytes of a 32-bit word.
pub open spec fn le_bytes32(u: u32) -> Seq<u8> {
    seq![u as u8, (u >> 8u32) as u8, (u >> 16u32) as u8, (u >> 24u32) as u8]
}

/// The eight little-endian bytes of a 64-bit word.
pub open spec fn le_bytes64(u: u64) -> Seq<u8> {
    seq![
        u as u8,
        (u >> 8u64) as u8,
        (u >> 16u64) as u8,
        (u >> 24u64) as u8,
        (u >> 32u64) as u8,
        (u >> 40u64) as u8,
        (u >> 48u64) as u8,
        (u >> 56u64) as u8,
    ]
}

/// The smallest faithful literal instruction for a constant; nothing for a
/// value that is not a constant.
pub open spec fn encode_value(v: BytecodeValue) -> Seq<u8> {
    match v {
        BytecodeValue::Int(i) => if -128 <= i <= 127 {
            seq![OC_INT8, i as u8]
        } else if i32::MIN <= i <= i32::MAX {
            seq![OC_INT32] + le_bytes32(i as u32)
        } else {
            seq![OC_INT64] + le_bytes64(i as u64)
        },
        BytecodeValue::Bool(b) => seq![OC_INT8, if b { 1u8 } else { 0u8 }],
        BytecodeValue::NotApplicable => seq![OC_INT8, 0u8],
        BytecodeValue::NonConst => Seq::empty(),
    }
}

fn le32_vec(u: u32) -> (r: Vec<u8>)
    ensures
        r@ == le_bytes32(u),
{
    vec![u as u8, (u >> 8u32) as u8, (u >> 16u32) as u8, (u >> 24u32) as u8]
}

fn le64_vec(u: u64) -> (r: Vec<u8>)
    ensures
        r@ == le_bytes64(u),
{
    vec![
        u as u8,
        (u >> 8u64) as u8,
        (u >> 16u64) as u8,
        (u >> 24u64) as u8,
        (u >> 32u64) as u8,
        (u >> 40u64) as u8,
        (u >> 48u64) as u8,
        (u >> 56u64) as u8,
    ]
}

/// A compiled expression: a sequence of instructions, each an opcode byte
/// followed by its operand bytes.
pub struct BytecodeExp {
    data: Vec<u8>,
}

impl View for BytecodeExp {
    type V = Seq<u8>;

    closed spec fn view(&self) -> Seq<u8> {
        self.data@
    }
}

impl BytecodeExp {
    pub fn new() -> (r: Self)
        ensures
            r@ == Seq::<u8>::empty(),
    {
        BytecodeExp { data: Vec::new() }
    }

    pub fn len(&self) -> (r: usize)
        ensures
            r == self@.len(),
    {
        self.data.len()
    }

    pub fn as_bytes(&self) -> (r: Vec<u8>)
        ensures
            r@ == self@,
    {
        self.data.clone()
    }

    pub fn append(&mut self, op: &[u8])
        ensures
            final(self)@ == old(self)@ + op@,
    {
        let mut i: usize = 0;
        while i < op.len()
            invariant
                0 <= i <= op@.len(),
                self@ == old(self)@ + op@.subrange(0, i as int),
            decreases op@.len() - i,
        {
            self.data.push(op[i]);
            proof {
                assert(op@.subrange(0, i + 1) == op@.subrange(0, i as int).push(op@[i as int]));
            }
            i = i + 1;
        }
        proof {
            assert(op@.subrange(0, op@.len() as int) == op@);
        }
    }

    /// Appends `op` followed by the four little-endian bytes of `addr`.
    pub fn append_i32_p(&mut self, op: u8, addr: i32)
        ensures
            final(self)@ == old(self)@ + seq![op] + le_bytes32(addr as u32),
    {
        self.append(&[op]);
        let b = le32_vec(addr as u32);
        self.append(b.as_slice());
    }

    /// Appends `op` followed by the eight little-endian bytes of `addr`.
    pub fn append_i64_p(&mut self, op: u8, addr: i64)
        ensures
            final(self)@ == old(self)@ + seq![op] + le_bytes64(addr as u64),
    {
        self.append(&[op]);
        let b = le64_vec(addr as u64);
        self.append(b.as_slice());
    }

    /// Appends the smallest literal instruction for a constant. A value that
    /// is not a constant appends nothing and gives `false`.
    pub fn append_value(&mut self, bv: BytecodeValue) -> (r: bool)
        ensures
            final(self)@ == old(self)@ + encode_value(bv),
            r == (bv != BytecodeValue::NonConst),
    {
        match bv {
            BytecodeValue::Int(i) => {
                if -128 <= i && i <= 127 {
                    self.append(&[OC_INT8, i as u8]);
                } else if i32::MIN as i64 <= i && i <= i32::MAX as i64 {
                    self.append_i32_p(OC_INT32, i as i32);
                    proof {
                        assert((i as i32) as u32 == i as u32) by (bit_vector)
                            requires
                                i32::MIN <= i <= i32::MAX,
                        ;
                    }
                } else {
                    self.append_i64_p(OC_INT64, i);
                }
                true
            },
            BytecodeValue::Bool(b) => {
                if b {
                    self.append(&[OC_INT8, 1]);
                } else {
                    self.append(&[OC_INT8, 0]);
                }
                true
            },
            BytecodeValue::NotApplicable => {
                self.append(&[OC_INT8, 0]);
                true
            },
            BytecodeValue::NonConst => false,
        }
    }

    /// Negates a constant in place (32-bit, wrapping).
    pub fn neg(v: &mut BytecodeValue)
        ensures
            *final(v) == unop_spec(UnOp::Neg, *old(v)),
    {
        *v = apply_unary(UnOp::Neg, *v);
    }

    /// Bitwise complement of the integer coercion.
    pub fn not(v: &mut BytecodeValue)
        ensures
            *final(v) == unop_spec(UnOp::Not, *old(v)),
    {
        *v = apply_unary(UnOp::Not, *v);
    }

    /// Boolean negation of the boolean coercion.
    pub fn blnot(v: &mut BytecodeValue)
        ensures
            *final(v) == unop_spec(UnOp::BlNot, *old(v)),
    {
        *v = apply_unary(UnOp::BlNot, *v);
    }

    pub fn and(v1: &mut BytecodeValue, v2: BytecodeValue)
        ensures
            *final(v1) == binop_spec(BinOp::And, *old(v1), v2),
    {
        *v1 = apply_binary(BinOp::And, *v1, v2);
    }

    pub fn xor(v1: &mut BytecodeValue, v2: BytecodeValue)
        ensures
            *final(v1) == binop_spec(BinOp::Xor, *old(v1), v2),
    {
        *v1 = apply_binary(BinOp::Xor, *v1, v2);
    }

    pub fn or(v1: &mut BytecodeValue, v2: BytecodeValue)
        ensures
            *final(v1) == binop_spec(BinOp::Or, *old(v1), v2),
    {
        *v1 = apply_binary(BinOp::Or, *v1, v2);
    }

    pub fn bland(v1: &mut BytecodeValue, v2: BytecodeValue)
        ensures
            *final(v1) == BytecodeValue::Bool(old(v1).bool_of() && v2.bool_of()),
    {
        *v1 = apply_binary(BinOp::BlAnd, *v1, v2);
    }

    pub fn blor(v1: &mut BytecodeValue, v2: BytecodeValue)
        ensures
            *final(v1) == BytecodeValue::Bool(old(v1).bool_of() || v2.bool_of()),
    {
        *v1 = apply_binary(BinOp::BlOr, *v1, v2);
    }

    pub fn blxor(v1: &mut BytecodeValue, v2: BytecodeValue)
        ensures
            *final(v1) == BytecodeValue::Bool(old(v1).bool_of() != v2.bool_of()),
    {
        *v1 = apply_binary(BinOp::BlXor, *v1, v2);
    }

    /// Absolute value of the integer coercion (32-bit, wrapping).
    pub fn abs(v1: &mut BytecodeValue)
        ensures
            *final(v1) == BytecodeValue::Int(
                (if old(v1).int_of() < 0 { crate::ops::wrap32(-(old(v1).int_of() as int)) } else { old(v1).int_of() }) as i64,
            ),
    {
        let i = v1.to_i();
        if i < 0 {
            *v1 = BytecodeValue::Int((#[verifier::truncate] ((-(i as i64)) as i32)) as i64);
        } else {
            *v1 = BytecodeValue::Int(i as i64);
        }
    }
}

/// The parameter block of one controller: `[id][count]` then, for each
/// program, its length as four little-endian bytes followed by its bytes.
pub open spec fn block_body(exps: Seq<Seq<u8>>) -> Seq<u8>
    decreases exps.len(),
{
    if exps.len() == 0 {
        Seq::empty()
    } else {
        block_body(exps.drop_last()) + le_bytes32(exps.last().len() as u32) + exps.last()
    }
}

pub open spec fn param_block(id: u8, exps: Seq<Seq<u8>>) -> Seq<u8> {
    seq![id, exps.len() as u8] + block_body(exps)
}

/// An accumulating buffer of parameter blocks.
pub struct StateControllerBase {
    data: Vec<u8>,
}

impl View for StateControllerBase {
    type V = Seq<u8>;

    closed spec fn view(&self) -> Seq<u8> {
        self.data@
    }
}

impl StateControllerBase {
    pub fn new() -> (r: Self)
        ensures
            r@ == Seq::<u8>::empty(),
    {
        StateControllerBase { data: Vec::new() }
    }

    pub fn as_bytes(&self) -> (r: Vec<u8>)
        ensures
            r@ == self@,
    {
        self.data.clone()
    }

    /// Appends the parameter block of controller `id` holding `exp`.
    pub fn add(&mut self, id: u8, exp: Vec<BytecodeExp>)
        requires
            exp@.len() <= 255,
            forall|k: int| 0 <= k < exp@.len() ==> exp@[k]@.len() <= i32::MAX,
        ensures
            final(self)@ == old(self)@ + param_block(id, exp@.map_values(|e: BytecodeExp| e@)),
    {
        let ghost exps = exp@.map_values(|e: BytecodeExp| e@);
        self.push(id);
        self.push(exp.len() as u8);
        let ghost start = self@;
        let mut k: usize = 0;
        while k < exp.len()
            invariant
                0 <= k <= exp@.len(),
                exps == exp@.map_values(|e: BytecodeExp| e@),
                forall|j: int| 0 <= j < exp@.len() ==> exp@[j]@.len() <= i32::MAX,
                self@ == start + block_body(exps.subrange(0, k as int)),
            decreases exp@.len() - k,
        {
            let e = &exp[k];
            let n = e.len() as i32;
            let len_bytes = le32_vec(n as u32);
            self.extend_from_slice(len_bytes.as_slice());
            let bytes = e.as_bytes();
            self.extend_from_slice(bytes.as_slice());
            proof {
                let pre = exps.subrange(0, k as int);
                let post = exps.subrange(0, k + 1);
                assert(post.drop_last() == pre);
                assert(post.last() == e@);
                assert((n as u32) == (e@.len() as u32));
            }
            k = k + 1;
        }
        proof {
            assert(exps.subrange(0, exp@.len() as int) == exps);
        }
    }

    pub fn push(&mut self, value: u8)
        ensures
            final(self)@ == old(self)@.push(value),
    {
        self.data.push(value);
    }

    pub fn extend_from_slice(&mut self, slice: &[u8])
        ensures
            final(self)@ == old(self)@ + slice@,
    {
        let mut i: usize = 0;
        while i < slice.len()
            invariant
                0 <= i <= slice@.len(),
                self@ == old(self)@ + slice@.subrange(0, i as int),
            decreases slice@.len() - i,
        {
            self.data.push(slice[i]);
            proof {
                assert(slice@.subrange(0, i + 1) == slice@.subrange(0, i as int).push(slice@[i as int]));
            }
            i = i + 1;
        }
        proof {
            assert(slice@.subrange(0, slice@.len() as int) == slice@);
        }
    }
}

} // verus!
