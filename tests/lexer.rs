use trigger_expr::lexer::{atoi, index_any, is_operator, special_symbols, tokenizer, tokenizer_cs};

fn chars(s: &str) -> Vec<char> {
    s.chars().collect()
}

fn tokens(s: &str) -> Vec<String> {
    let cs = chars(s);
    let mut pos = 0;
    let mut out = Vec::new();
    loop {
        let (next, t) = tokenizer(&cs, pos);
        if t.is_empty() {
            break;
        }
        out.push(t.into_iter().collect());
        pos = next;
    }
    out
}

#[test]
fn operators_match_greedily() {
    assert_eq!(
        tokens("a:=b**2>=c&&!d||e^^f != g"),
        vec!["a", ":=", "b", "**", "2", ">=", "c", "&&", "!", "d", "||", "e", "^^", "f", "!=", "g"]
    );
    assert_eq!(tokens("( [ ] ) { } ; ~ % , \""), vec!["(", "[", "]", ")", "{", "}", ";", "~", "%", ",", "\""]);
}

#[test]
fn numbers_take_one_dot_and_a_signed_exponent() {
    assert_eq!(tokens("1.5e-3+2"), vec!["1.5e-3", "+", "2"]);
    assert_eq!(tokens("1.2.3"), vec!["1.2", ".3"]);
    assert_eq!(tokens("7e+"), vec!["7e+"]);
    assert_eq!(tokens("2e3-1"), vec!["2e3", "-", "1"]);
    assert_eq!(tokens("e5"), vec!["e5"]);
}

#[test]
fn identifiers_end_at_special_symbols_and_fold_case() {
    assert_eq!(tokens("  StateNo = 200"), vec!["stateno", "=", "200"]);
    assert_eq!(tokens("Vel.X\t+1"), vec!["vel.x", "+", "1"]);
    let cs = chars("  AbC+");
    assert_eq!(tokenizer_cs(&cs, 0), (2, 5));
    assert_eq!(tokenizer_cs(&cs, 5), (5, 6));
    assert_eq!(tokenizer_cs(&cs, 6), (6, 6));
}

#[test]
fn operator_ranks() {
    let rank = |s: &str| is_operator(&chars(s));
    assert_eq!(rank(""), -1);
    assert_eq!(rank(","), -1);
    assert_eq!(rank(")"), -1);
    assert_eq!(rank("]"), -1);
    assert_eq!(rank("||"), 1);
    assert_eq!(rank("^^"), 2);
    assert_eq!(rank("&&"), 3);
    assert_eq!(rank("|"), 4);
    assert_eq!(rank("^"), 5);
    assert_eq!(rank("&"), 6);
    assert_eq!(rank("!="), 7);
    assert_eq!(rank("<="), 8);
    assert_eq!(rank("-"), 9);
    assert_eq!(rank("%"), 10);
    assert_eq!(rank("**"), 11);
    assert_eq!(rank("time"), 0);
}

#[test]
fn atoi_saturates_and_flags_bad_text() {
    assert_eq!(atoi(&chars("123")), 123);
    assert_eq!(atoi(&chars("-45")), -45);
    assert_eq!(atoi(&chars("+7")), 7);
    assert_eq!(atoi(&chars("99999999999")), i32::MAX);
    assert_eq!(atoi(&chars("-99999999999")), i32::MIN);
    assert_eq!(atoi(&chars("12a")), i32::MIN);
    assert_eq!(atoi(&chars("")), i32::MIN);
}

#[test]
fn index_any_finds_the_first_listed_character() {
    let specials = special_symbols();
    assert_eq!(index_any(&chars("abc+d"), 0, &specials), Some(3));
    assert_eq!(index_any(&chars("abc+d"), 4, &specials), None);
    assert_eq!(index_any(&chars("x y"), 0, &specials), Some(1));
}
