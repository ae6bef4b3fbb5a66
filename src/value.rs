//! The tagged scalar used both as a compile-time constant and as a run-time
//! stack entry.
use vstd::prelude::*;

verus! {

/// A compact tagged scalar.
///
/// `NonConst` marks "not a compile-time constant" and is never emitted.
/// `NotApplicable` is the sentinel produced by operations undefined for their
/// inputs: it coerces to `0` / `false` everywhere, yet stays distinct from a
/// literal zero or `false`.
#[derive(Clone, Copy, Debug, PartialEq, Eq, Structural)]
pub enum BytecodeValue {
    NonConst,
    NotApplicable,
    Int(i64),
    Bool(bool),
}

/// The expected scalar kind a top-level expression is coerced to.
#[derive(Clone, Copy, Debug, PartialEq, Eq, Structural)]
pub enum ValueType {
    Untyped,
    Int,
    Bool,
}

/// Saturating conversion of an integer into the 32-bit range.
pub open spec fn clamp_i32(x: int) -> i32 {
    if x > i32::MAX {
        i32::MAX
    } else if x < i32::MIN {
        i32::MIN
    } else {
        x as i32
    }
}

impl BytecodeValue {
    /// Integer coercion at 64 bits: `NotApplicable` and `NonConst` give `0`,
    /// booleans give `0` / `1`.
    pub open spec fn int64_of(self) -> i64 {
        match self {
            BytecodeValue::Int(i) => i,
            BytecodeValue::Bool(b) => if b { 1 } else { 0 },
            _ => 0,
        }
    }

    /// Integer coercion at 32 bits, saturating.
    pub open spec fn int_of(self) -> i32 {
        clamp_i32(self.int64_of() as int)
    }

    /// Boolean coercion: `NotApplicable` and `NonConst` are false, integers are
    /// true when non-zero.
    pub open spec fn bool_of(self) -> bool {
        match self {
            BytecodeValue::Int(i) => i != 0,
            BytecodeValue::Bool(b) => b,
            _ => false,
        }
    }

    /// A placeholder value (`NonConst`).
    pub fn new() -> (r: Self)
        ensures
            r == BytecodeValue::NonConst,
    {
        BytecodeValue::NonConst
    }

    pub fn is_none(&self) -> (r: bool)
        ensures
            r == (*self == BytecodeValue::NonConst),
    {
        match self {
            BytecodeValue::NonConst => true,
            _ => false,
        }
    }

    /// Whether this is the `NotApplicable` sentinel.
    pub fn is_sf(&self) -> (r: bool)
        ensures
            r == (*self == BytecodeValue::NotApplicable),
    {
        match self {
            BytecodeValue::NotApplicable => true,
            _ => false,
        }
    }

    pub fn to_i64(&self) -> (r: i64)
        ensures
            r == self.int64_of(),
    {
        match self {
            BytecodeValue::Int(i) => *i,
            BytecodeValue::Bool(b) => if *b { 1 } else { 0 },
            _ => 0,
        }
    }

    pub fn to_i(&self) -> (r: i32)
        ensures
            r == self.int_of(),
    {
        let i = self.to_i64();
        if i > i32::MAX as i64 {
            i32::MAX
        } else if i < i32::MIN as i64 {
            i32::MIN
        } else {
            i as i32
        }
    }

    pub fn to_b(&self) -> (r: bool)
        ensures
            r == self.bool_of(),
    {
        match self {
            BytecodeValue::Int(i) => *i != 0,
            BytecodeValue::Bool(b) => *b,
            _ => false,
        }
    }

    pub fn set_i(&mut self, i: i32)
        ensures
            *final(self) == BytecodeValue::Int(i as i64),
    {
        *self = BytecodeValue::Int(i as i64);
    }

    pub fn set_i64(&mut self, i: i64)
        ensures
            *final(self) == BytecodeValue::Int(i),
    {
        *self = BytecodeValue::Int(i);
    }

    pub fn set_b(&mut self, b: bool)
        ensures
            *final(self) == BytecodeValue::Bool(b),
    {
        *self = BytecodeValue::Bool(b);
    }

    pub fn set(&mut self, other: BytecodeValue)
        ensures
            *final(self) == other,
    {
        *self = other;
    }

    pub fn bv_none() -> (r: BytecodeValue)
        ensures
            r == BytecodeValue::NonConst,
    {
        BytecodeValue::NonConst
    }

    /// The `NotApplicable` sentinel.
    pub fn bytecode_sf() -> (r: BytecodeValue)
        ensures
            r == BytecodeValue::NotApplicable,
    {
        BytecodeValue::NotApplicable
    }

    pub fn bytecode_int(i: i32) -> (r: BytecodeValue)
        ensures
            r == BytecodeValue::Int(i as i64),
    {
        BytecodeValue::Int(i as i64)
    }

    pub fn bytecode_int64(i: i64) -> (r: BytecodeValue)
        ensures
            r == BytecodeValue::Int(i),
    {
        BytecodeValue::Int(i)
    }

    pub fn bytecode_bool(b: bool) -> (r: BytecodeValue)
        ensures
            r == BytecodeValue::Bool(b),
    {
        BytecodeValue::Bool(b)
    }
}

/// The sentinel coerces to `false` and to `0` under every coercion.
pub proof fn lemma_sentinel_coerces_to_zero()
    ensures
        BytecodeValue::NotApplicable.bool_of() == false,
        BytecodeValue::NotApplicable.int_of() == 0,
        BytecodeValue::NotApplicable.int64_of() == 0,
        BytecodeValue::NotApplicable != BytecodeValue::Int(0),
        BytecodeValue::NotApplicable != BytecodeValue::Bool(false),
{
}

} // verus!
