use trigger_expr::parser::{number, operator, Compiler, ParseError, PendingOutcome};
use trigger_expr::program::{
    StateControllerBase, OC_ADD, OC_FETCH, OC_INT32, OC_INT8, OC_JZ, OC_JZ8, OC_JNZ8, OC_MUL,
    OC_NEG, OC_POP, OC_SUB,
};
use trigger_expr::value::{BytecodeValue, ValueType};

fn bytes(c: &Compiler, src: &str) -> Vec<u8> {
    c.compile(src, ValueType::Untyped).unwrap().as_bytes()
}

#[test]
fn folds_literal_arithmetic_to_one_literal() {
    let c = Compiler::new(&[]);
    assert_eq!(bytes(&c, "1+2*3"), vec![OC_INT8, 7]);
    assert_eq!(bytes(&c, "3+4"), vec![OC_INT8, 7]);
    assert_eq!(bytes(&c, "(1 + 2) * 3"), vec![OC_INT8, 9]);
    assert_eq!(bytes(&c, "10 - 2 - 3"), vec![OC_INT8, 5]);
    assert_eq!(bytes(&c, "2 ** 3 ** 2"), vec![OC_INT8, 64]);
    assert_eq!(bytes(&c, "17 % 5 + 7 / 2"), vec![OC_INT8, 5]);
    assert_eq!(bytes(&c, "-7 / 2"), vec![OC_INT8, (-3i8) as u8]);
    assert_eq!(bytes(&c, "~0"), vec![OC_INT8, 0xff]);
    assert_eq!(bytes(&c, "6 & 3 | 8 ^ 1"), vec![OC_INT8, 11]);
}

#[test]
fn comparisons_and_booleans_fold_to_zero_or_one() {
    let c = Compiler::new(&[]);
    assert_eq!(bytes(&c, "3 > 2"), vec![OC_INT8, 1]);
    assert_eq!(bytes(&c, "3 <= 2"), vec![OC_INT8, 0]);
    assert_eq!(bytes(&c, "2 = 2 && 1 != 1"), vec![OC_INT8, 0]);
    assert_eq!(bytes(&c, "!0"), vec![OC_INT8, 1]);
    assert_eq!(bytes(&c, "1 ^^ 1"), vec![OC_INT8, 0]);
}

#[test]
fn or_binds_looser_than_and() {
    let c = Compiler::new(&[]);
    assert_eq!(bytes(&c, "1 || 0 && 0"), vec![OC_INT8, 1]);
    assert_eq!(bytes(&c, "(1 || 0) && 0"), vec![OC_INT8, 0]);
}

#[test]
fn compiling_twice_gives_identical_bytes() {
    let c = Compiler::new(&["x", "y"]);
    for src in ["1+2*3", "x && 1", "x * 3 + y || 0", "-(x - 200000)"] {
        assert_eq!(bytes(&c, src), bytes(&c, src));
    }
}

#[test]
fn small_integers_use_the_byte_literal() {
    let c = Compiler::new(&[]);
    assert_eq!(bytes(&c, "127"), vec![OC_INT8, 127]);
    assert_eq!(bytes(&c, "-128"), vec![OC_INT8, 0x80]);
    assert_eq!(bytes(&c, "0"), vec![OC_INT8, 0]);
    assert_eq!(bytes(&c, "128"), vec![OC_INT32, 128, 0, 0, 0]);
    assert_eq!(bytes(&c, "-129"), vec![OC_INT32, 0x7f, 0xff, 0xff, 0xff]);
    assert_eq!(bytes(&c, "99999999999"), vec![OC_INT32, 0xff, 0xff, 0xff, 0x7f]);
}

#[test]
fn division_by_zero_folds_to_the_sentinel() {
    let c = Compiler::new(&[]);
    assert_eq!(bytes(&c, "5 / 0"), vec![OC_INT8, 0]);
    assert_eq!(bytes(&c, "5 % 0 || 1"), vec![OC_INT8, 1]);
}

#[test]
fn typed_results_are_coerced() {
    let c = Compiler::new(&[]);
    assert_eq!(c.compile("7", ValueType::Bool).unwrap().as_bytes(), vec![OC_INT8, 1]);
    assert_eq!(c.compile("3 > 1", ValueType::Int).unwrap().as_bytes(), vec![OC_INT8, 1]);
    assert_eq!(c.compile("0", ValueType::Bool).unwrap().as_bytes(), vec![OC_INT8, 0]);
}

#[test]
fn and_with_a_fetch_emits_a_skip_over_the_right_side() {
    let c = Compiler::new(&["x"]);
    assert_eq!(
        bytes(&c, "x && 1"),
        vec![OC_FETCH, 0, OC_JZ8, 3, OC_POP, OC_INT8, 1]
    );
    assert_eq!(
        bytes(&c, "0 || X"),
        vec![OC_INT8, 0, OC_JNZ8, 3, OC_POP, OC_FETCH, 0]
    );
}

#[test]
fn arithmetic_with_a_fetch_flushes_the_held_constant() {
    let c = Compiler::new(&["x", "y"]);
    assert_eq!(bytes(&c, "2 * x"), vec![OC_INT8, 2, OC_FETCH, 0, OC_MUL]);
    assert_eq!(
        bytes(&c, "1 + 2 + y"),
        vec![OC_INT8, 3, OC_FETCH, 1, OC_ADD]
    );
    assert_eq!(
        bytes(&c, "y - 1 - 2"),
        vec![OC_FETCH, 1, OC_INT8, 1, OC_SUB, OC_INT8, 2, OC_SUB]
    );
    assert_eq!(bytes(&c, "-x"), vec![OC_FETCH, 0, OC_NEG]);
}

fn right_side(n: usize) -> String {
    let mut s = String::from("y");
    for _ in 0..n {
        s.push_str("+y");
    }
    s
}

#[test]
fn skip_width_switches_above_254_bytes() {
    let c = Compiler::new(&["x", "y"]);
    // "y" then 84 times "+y": 2 + 84 * 3 = 254 bytes of right side.
    let src = format!("x && {}", right_side(84));
    let p = bytes(&c, &src);
    assert_eq!(&p[0..4], &[OC_FETCH, 0, OC_JZ8, 255]);
    assert_eq!(p.len(), 2 + 2 + 1 + 254);
    // "-y" then 84 times "+y": 3 + 84 * 3 = 255 bytes of right side.
    let src = format!("x && -{}", right_side(84));
    let p = bytes(&c, &src);
    assert_eq!(&p[0..7], &[OC_FETCH, 0, OC_JZ, 0, 1, 0, 0]);
    assert_eq!(p[7], OC_POP);
    assert_eq!(p.len(), 2 + 5 + 1 + 255);
}

#[test]
fn rejected_text_reports_the_token() {
    let c = Compiler::new(&["x"]);
    assert_eq!(
        c.compile("1 +", ValueType::Untyped).err(),
        Some(ParseError { start: 3, end: 3 })
    );
    assert_eq!(
        c.compile("1 2", ValueType::Untyped).err(),
        Some(ParseError { start: 2, end: 3 })
    );
    assert!(c.compile("(1", ValueType::Untyped).is_err());
    assert!(c.compile("", ValueType::Untyped).is_err());
    assert!(c.compile("1.5", ValueType::Untyped).is_err());
    assert_eq!(
        c.compile("x + z", ValueType::Untyped).err(),
        Some(ParseError { start: 4, end: 5 })
    );
}

#[test]
fn positional_parameters_split_at_commas() {
    let c = Compiler::new(&["x"]);
    let ps = c.exprs("1, x", ValueType::Untyped, 2).unwrap();
    assert_eq!(ps.len(), 2);
    assert_eq!(ps[0].as_bytes(), vec![OC_INT8, 1]);
    assert_eq!(ps[1].as_bytes(), vec![OC_FETCH, 0]);
    let ps = c.exprs("5", ValueType::Untyped, 3).unwrap();
    assert_eq!(ps.len(), 1);
    assert!(c.exprs("1, 2", ValueType::Untyped, 1).is_err());
}

#[test]
fn parameter_block_is_length_prefixed() {
    let c = Compiler::new(&["x"]);
    let mut sc = StateControllerBase::new();
    c.sc_add(&mut sc, 9, "3, x", ValueType::Int, 2).unwrap();
    assert_eq!(
        sc.as_bytes(),
        vec![9, 2, 2, 0, 0, 0, OC_INT8, 3, 2, 0, 0, 0, OC_FETCH, 0]
    );
    let mut sc2 = StateControllerBase::new();
    assert!(c.sc_add(&mut sc2, 1, "1 +", ValueType::Int, 1).is_err());
    assert!(sc2.as_bytes().is_empty());
}

#[test]
fn deferred_operator_rule() {
    let ch = |s: &str| s.chars().collect::<Vec<char>>();
    assert_eq!(operator(&ch("+"), &ch(""), false), PendingOutcome::Keep);
    assert_eq!(operator(&ch("*"), &ch("+"), false), PendingOutcome::Keep);
    assert_eq!(operator(&ch("anim"), &ch("="), false), PendingOutcome::Reinstate);
    assert_eq!(operator(&ch("("), &ch("="), true), PendingOutcome::Reinstate);
    assert_eq!(operator(&ch("("), &ch("="), false), PendingOutcome::Invalid);
    assert_eq!(operator(&ch("||"), &ch("&&"), false), PendingOutcome::Invalid);
    assert_eq!(operator(&ch(""), &ch("&&"), false), PendingOutcome::Invalid);
    assert_eq!(operator(&ch("5"), &ch("="), false), PendingOutcome::Invalid);
}

#[test]
fn numeric_tokens_read_as_integers() {
    let ch = |s: &str| s.chars().collect::<Vec<char>>();
    assert_eq!(number(&ch("42")), BytecodeValue::Int(42));
    assert_eq!(number(&ch("0")), BytecodeValue::Int(0));
    assert_eq!(number(&ch("4294967296")), BytecodeValue::Int(i32::MAX as i64));
    assert_eq!(number(&ch("1.5")), BytecodeValue::NonConst);
    assert_eq!(number(&ch("1e3")), BytecodeValue::NonConst);
    assert_eq!(number(&ch("")), BytecodeValue::NonConst);
}

#[test]
fn compile_from_characters_matches_compile_from_text() {
    let c = Compiler::new(&["Vel"]);
    let text = "VEL * 2 >= 10 || vel < -3";
    let chars: Vec<char> = text.chars().collect();
    assert_eq!(
        c.compile_chars(&chars, ValueType::Bool).unwrap().as_bytes(),
        c.compile(text, ValueType::Bool).unwrap().as_bytes()
    );
}

#[test]
fn parameter_block_from_prebuilt_programs() {
    let mut a = trigger_expr::program::BytecodeExp::new();
    a.append(&[OC_INT8, 5]);
    let b = trigger_expr::program::BytecodeExp::new();
    let mut sc = StateControllerBase::new();
    sc.push(0xaa);
    sc.extend_from_slice(&[0xbb]);
    sc.add(3, vec![a, b]);
    assert_eq!(
        sc.as_bytes(),
        vec![0xaa, 0xbb, 3, 2, 2, 0, 0, 0, OC_INT8, 5, 0, 0, 0, 0]
    );
}
