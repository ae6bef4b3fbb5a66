use trigger_expr::eval::{evaluate, evaluate_typed};
use trigger_expr::parser::Compiler;
use trigger_expr::program::{BytecodeExp, OC_INT8, OC_JZ8, OC_POP};
use trigger_expr::value::{BytecodeValue, ValueType};

fn run(c: &Compiler, src: &str, ctx: &[BytecodeValue]) -> Option<BytecodeValue> {
    let p = c.compile(src, ValueType::Untyped).unwrap();
    evaluate(&p, ctx)
}

#[test]
fn end_to_end_and_with_a_fetch() {
    let c = Compiler::new(&["x"]);
    let t = run(&c, "x && 1", &[BytecodeValue::Bool(true)]).unwrap();
    assert!(t.to_b());
    let f = run(&c, "x && 1", &[BytecodeValue::Bool(false)]).unwrap();
    assert_eq!(f, BytecodeValue::Bool(false));
    assert_eq!(run(&c, "3+4", &[]), Some(BytecodeValue::Int(7)));
}

#[test]
fn false_left_side_skips_every_lookup_of_the_right() {
    // Slot 1 ("y") is missing from the context: fetching it would fail.
    let c = Compiler::new(&["x", "y"]);
    let ctx = [BytecodeValue::Int(0)];
    assert_eq!(run(&c, "x && y", &ctx), Some(BytecodeValue::Int(0)));
    assert_eq!(run(&c, "x && (y + 1 > 2)", &ctx), Some(BytecodeValue::Int(0)));
    let ctx = [BytecodeValue::Int(3)];
    assert_eq!(run(&c, "x && y", &ctx), None);
    assert_eq!(run(&c, "x || y", &ctx), Some(BytecodeValue::Int(3)));
}

#[test]
fn evaluates_arithmetic_on_context_values() {
    let c = Compiler::new(&["x", "y"]);
    let ctx = [BytecodeValue::Int(5), BytecodeValue::Int(-2)];
    assert_eq!(run(&c, "x * 2 + 1", &ctx), Some(BytecodeValue::Int(11)));
    assert_eq!(run(&c, "x - y - 1", &ctx), Some(BytecodeValue::Int(6)));
    assert_eq!(run(&c, "x / y", &ctx), Some(BytecodeValue::Int(-2)));
    assert_eq!(run(&c, "x % y", &ctx), Some(BytecodeValue::Int(1)));
    assert_eq!(run(&c, "x / (y + 2)", &ctx), Some(BytecodeValue::NotApplicable));
    assert_eq!(run(&c, "x > y && y < 0", &ctx), Some(BytecodeValue::Bool(true)));
    assert_eq!(run(&c, "-x", &ctx), Some(BytecodeValue::Int(-5)));
    assert_eq!(run(&c, "!y", &ctx), Some(BytecodeValue::Bool(false)));
    assert_eq!(run(&c, "x ** 2", &ctx), Some(BytecodeValue::Int(25)));
    assert_eq!(run(&c, "x & 4 | 2", &ctx), Some(BytecodeValue::Int(6)));
}

#[test]
fn or_chain_with_fetches_evaluates_left_to_right() {
    let c = Compiler::new(&["a", "b", "c"]);
    let ctx = [
        BytecodeValue::Int(0),
        BytecodeValue::Bool(false),
        BytecodeValue::Int(9),
    ];
    assert_eq!(run(&c, "a || b || c", &ctx), Some(BytecodeValue::Int(9)));
    assert_eq!(run(&c, "a || b && c", &ctx), Some(BytecodeValue::Bool(false)));
}

#[test]
fn malformed_programs_are_reported() {
    let mut p = BytecodeExp::new();
    p.append(&[OC_POP]);
    assert_eq!(evaluate(&p, &[]), None);
    let mut p = BytecodeExp::new();
    p.append(&[OC_INT8, 1, OC_JZ8]);
    assert_eq!(evaluate(&p, &[]), None);
    let mut p = BytecodeExp::new();
    p.append(&[OC_INT8, 1, OC_INT8, 2]);
    assert_eq!(evaluate(&p, &[]), None);
    let mut p = BytecodeExp::new();
    p.append(&[OC_INT8, 0, OC_JZ8, 9]);
    assert_eq!(evaluate(&p, &[]), None);
}

#[test]
fn typed_evaluation_coerces_the_result() {
    let c = Compiler::new(&["x"]);
    let p = c.compile("x && 7", ValueType::Untyped).unwrap();
    let ctx = [BytecodeValue::Int(1)];
    assert_eq!(evaluate_typed(&p, &ctx, ValueType::Bool), Some(BytecodeValue::Bool(true)));
    assert_eq!(evaluate_typed(&p, &ctx, ValueType::Int), Some(BytecodeValue::Int(7)));
    assert_eq!(evaluate_typed(&p, &ctx, ValueType::Untyped), Some(BytecodeValue::Int(7)));
    let q = c.compile("x / 0", ValueType::Untyped).unwrap();
    assert_eq!(evaluate_typed(&q, &ctx, ValueType::Int), Some(BytecodeValue::Int(0)));
    assert_eq!(evaluate_typed(&q, &ctx, ValueType::Untyped), Some(BytecodeValue::NotApplicable));
}
