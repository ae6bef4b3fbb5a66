use trigger_expr::ops::{apply_binary, apply_unary, BinOp, UnOp};
use trigger_expr::program::{BytecodeExp, OC_INT32, OC_INT64, OC_INT8};
use trigger_expr::value::BytecodeValue;

#[test]
fn sentinel_coerces_to_zero_and_false() {
    let na = BytecodeValue::bytecode_sf();
    assert!(na.is_sf());
    assert!(!na.to_b());
    assert_eq!(na.to_i(), 0);
    assert_eq!(na.to_i64(), 0);
    assert_ne!(na, BytecodeValue::Int(0));
    assert_ne!(na, BytecodeValue::Bool(false));
}

#[test]
fn coercions_truncate_and_saturate() {
    assert_eq!(BytecodeValue::Int(5_000_000_000).to_i(), i32::MAX);
    assert_eq!(BytecodeValue::Int(-5_000_000_000).to_i(), i32::MIN);
    assert_eq!(BytecodeValue::Bool(true).to_i(), 1);
    assert!(BytecodeValue::Int(-3).to_b());
    assert!(!BytecodeValue::Int(0).to_b());
    assert!(BytecodeValue::new().is_none());
}

#[test]
fn setters_replace_the_value() {
    let mut v = BytecodeValue::new();
    v.set_i(-4);
    assert_eq!(v, BytecodeValue::Int(-4));
    v.set_b(true);
    assert_eq!(v, BytecodeValue::Bool(true));
    v.set_i64(1 << 40);
    assert_eq!(v, BytecodeValue::Int(1 << 40));
    v.set(BytecodeValue::bv_none());
    assert!(v.is_none());
}

#[test]
fn folding_operators_on_constants() {
    let mut v = BytecodeValue::bytecode_int(6);
    BytecodeExp::and(&mut v, BytecodeValue::Int(3));
    assert_eq!(v, BytecodeValue::Int(2));
    BytecodeExp::or(&mut v, BytecodeValue::Int(8));
    assert_eq!(v, BytecodeValue::Int(10));
    BytecodeExp::xor(&mut v, BytecodeValue::Int(15));
    assert_eq!(v, BytecodeValue::Int(5));
    BytecodeExp::neg(&mut v);
    assert_eq!(v, BytecodeValue::Int(-5));
    BytecodeExp::abs(&mut v);
    assert_eq!(v, BytecodeValue::Int(5));
    BytecodeExp::not(&mut v);
    assert_eq!(v, BytecodeValue::Int(-6));
    BytecodeExp::blnot(&mut v);
    assert_eq!(v, BytecodeValue::Bool(false));
    BytecodeExp::blor(&mut v, BytecodeValue::Int(2));
    assert_eq!(v, BytecodeValue::Bool(true));
    BytecodeExp::bland(&mut v, BytecodeValue::bytecode_sf());
    assert_eq!(v, BytecodeValue::Bool(false));
    BytecodeExp::blxor(&mut v, BytecodeValue::Int(1));
    assert_eq!(v, BytecodeValue::Bool(true));
}

#[test]
fn arithmetic_wraps_and_undefined_results_are_sentinels() {
    let max = BytecodeValue::Int(i32::MAX as i64);
    assert_eq!(apply_binary(BinOp::Add, max, BytecodeValue::Int(1)), BytecodeValue::Int(i32::MIN as i64));
    assert_eq!(apply_binary(BinOp::Div, BytecodeValue::Int(i32::MIN as i64), BytecodeValue::Int(-1)), BytecodeValue::Int(i32::MIN as i64));
    assert_eq!(apply_binary(BinOp::Div, BytecodeValue::Int(1), BytecodeValue::Int(0)), BytecodeValue::NotApplicable);
    assert_eq!(apply_binary(BinOp::Mod, BytecodeValue::Int(-7), BytecodeValue::Int(2)), BytecodeValue::Int(-1));
    assert_eq!(apply_binary(BinOp::Pow, BytecodeValue::Int(2), BytecodeValue::Int(-1)), BytecodeValue::NotApplicable);
    assert_eq!(apply_binary(BinOp::Pow, BytecodeValue::Int(2), BytecodeValue::Int(31)), BytecodeValue::NotApplicable);
    assert_eq!(apply_binary(BinOp::Pow, BytecodeValue::Int(-2), BytecodeValue::Int(31)), BytecodeValue::Int(i32::MIN as i64));
    assert_eq!(apply_binary(BinOp::Pow, BytecodeValue::Int(-1), BytecodeValue::Int(2_000_000_001)), BytecodeValue::Int(-1));
    assert_eq!(apply_binary(BinOp::Le, BytecodeValue::Bool(true), BytecodeValue::Int(1)), BytecodeValue::Bool(true));
    assert_eq!(apply_unary(UnOp::Neg, BytecodeValue::Int(i32::MIN as i64)), BytecodeValue::Int(i32::MIN as i64));
}

#[test]
fn literals_take_the_smallest_encoding() {
    let mut p = BytecodeExp::new();
    assert!(p.append_value(BytecodeValue::Int(-128)));
    assert!(p.append_value(BytecodeValue::Int(300)));
    assert!(p.append_value(BytecodeValue::Int(1 << 33)));
    assert!(p.append_value(BytecodeValue::Bool(true)));
    assert!(p.append_value(BytecodeValue::NotApplicable));
    assert!(!p.append_value(BytecodeValue::NonConst));
    assert_eq!(
        p.as_bytes(),
        vec![
            OC_INT8, 0x80, OC_INT32, 0x2c, 1, 0, 0, OC_INT64, 0, 0, 0, 0, 2, 0, 0, 0, OC_INT8, 1,
            OC_INT8, 0
        ]
    );
    assert_eq!(p.len(), 20);
}

#[test]
fn operand_appenders_write_little_endian() {
    let mut p = BytecodeExp::new();
    p.append_i32_p(7, -2);
    p.append_i64_p(8, 258);
    assert_eq!(
        p.as_bytes(),
        vec![7, 0xfe, 0xff, 0xff, 0xff, 8, 2, 1, 0, 0, 0, 0, 0, 0]
    );
}
