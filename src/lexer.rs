//! Splitting expression text into tokens, and the binding strength of each
//! operator token.
use vstd::prelude::*;
use crate::value::clamp_i32;

verus! {

pub open spec fn is_ws(c: char) -> bool {
    c == ' ' || c == '\t' || c == '\r' || c == '\n'
}

/// The characters that end an identifier or keyword token.
pub open spec fn is_special(c: char) -> bool {
    c == ' ' || c == '!' || c == '=' || c == '<' || c == '>' || c == '(' || c == ')' || c == '|'
        || c == '&' || c == '+' || c == '-' || c == '*' || c == '/' || c == '%' || c == ','
        || c == '[' || c == ']' || c == '^' || c == ':' || c == ';' || c == '{' || c == '}'
        || c == '#' || c == '"' || c == '\t' || c == '\r' || c == '\n'
}

pub open spec fn is_digit(c: char) -> bool {
    '0' <= c <= '9'
}

/// The first position at or after `i` that is not whitespace.
pub open spec fn skip_ws(s: Seq<char>, i: int) -> int
    decreases s.len() - i,
{
    if i < 0 || i >= s.len() || !is_ws(s[i]) {
        i
    } else {
        skip_ws(s, i + 1)
    }
}

/// Whether an operator of two characters `a` `b` starts at `i`.
pub open spec fn starts2(s: Seq<char>, i: int, a: char, b: char) -> bool {
    0 <= i && i + 1 < s.len() && s[i] == a && s[i + 1] == b
}

/// The width of the operator token that starts at `i`, or `0` when none does.
/// A character that may begin a two-character operator takes the second one
/// greedily.
pub open spec fn op_width(s: Seq<char>, i: int) -> int {
    if i < 0 || i >= s.len() {
        0
    } else {
        let c = s[i];
        if starts2(s, i, ':', '=') || starts2(s, i, '!', '=') || starts2(s, i, '>', '=')
            || starts2(s, i, '<', '=') || starts2(s, i, '&', '&') || starts2(s, i, '^', '^')
            || starts2(s, i, '|', '|') || starts2(s, i, '*', '*') {
            2
        } else if c == '=' || c == ':' || c == ';' || c == '!' || c == '>' || c == '<' || c == '~'
            || c == '&' || c == '^' || c == '|' || c == '+' || c == '-' || c == '*' || c == '/'
            || c == '%' || c == ',' || c == '(' || c == ')' || c == '[' || c == ']' || c == '"'
            || c == '{' || c == '}' {
            1
        } else {
            0
        }
    }
}

/// The end of a run of digits holding at most one `.`, from `i`.
pub open spec fn mantissa_end(s: Seq<char>, i: int, seen_dot: bool) -> int
    decreases s.len() - i,
{
    if i < 0 || i >= s.len() {
        i
    } else if s[i] == '.' {
        if seen_dot {
            i
        } else {
            mantissa_end(s, i + 1, true)
        }
    } else if is_digit(s[i]) {
        mantissa_end(s, i + 1, seen_dot)
    } else {
        i
    }
}

/// The end of an exponent's digits from `i`; a sign is accepted only at `j`,
/// the position right after the exponent marker.
pub open spec fn exponent_end(s: Seq<char>, i: int, j: int) -> int
    decreases s.len() - i,
{
    if i < 0 || i >= s.len() {
        i
    } else if is_digit(s[i]) || (i == j && (s[i] == '-' || s[i] == '+')) {
        exponent_end(s, i + 1, j)
    } else {
        i
    }
}

/// The end of the numeric literal that starts at `i` (`i` itself when none
/// does).
pub open spec fn number_end(s: Seq<char>, i: int) -> int {
    let m = mantissa_end(s, i, false);
    if m > i && m < s.len() && (s[m] == 'e' || s[m] == 'E') {
        exponent_end(s, m + 1, m + 1)
    } else {
        m
    }
}

/// The first position at or after `i` holding a special character, or the
/// end of the text.
pub open spec fn ident_end(s: Seq<char>, i: int) -> int
    decreases s.len() - i,
{
    if i < 0 || i >= s.len() || is_special(s[i]) {
        i
    } else {
        ident_end(s, i + 1)
    }
}

/// The bounds `(start, end)` of the token that follows position `i`:
/// whitespace is skipped; an operator is matched by its first character; else
/// a numeric literal; else everything up to the next special character. At
/// the end of the text the token is empty.
pub open spec fn token_at(s: Seq<char>, i: int) -> (int, int) {
    let st = skip_ws(s, i);
    if st >= s.len() {
        (st, st)
    } else if op_width(s, st) > 0 {
        (st, st + op_width(s, st))
    } else if number_end(s, st) > st {
        (st, number_end(s, st))
    } else {
        (st, ident_end(s, st))
    }
}

proof fn lemma_skip_ws_bounds(s: Seq<char>, i: int)
    requires
        0 <= i <= s.len(),
    ensures
        i <= skip_ws(s, i) <= s.len(),
    decreases s.len() - i,
{
    if i < s.len() && is_ws(s[i]) {
        lemma_skip_ws_bounds(s, i + 1);
    }
}

proof fn lemma_mantissa_bounds(s: Seq<char>, i: int, d: bool)
    requires
        0 <= i <= s.len(),
    ensures
        i <= mantissa_end(s, i, d) <= s.len(),
    decreases s.len() - i,
{
    if i < s.len() {
        if s[i] == '.' && !d {
            lemma_mantissa_bounds(s, i + 1, true);
        } else if s[i] != '.' && is_digit(s[i]) {
            lemma_mantissa_bounds(s, i + 1, d);
        }
    }
}

proof fn lemma_exponent_bounds(s: Seq<char>, i: int, j: int)
    requires
        0 <= i <= s.len(),
    ensures
        i <= exponent_end(s, i, j) <= s.len(),
    decreases s.len() - i,
{
    if i < s.len() && (is_digit(s[i]) || (i == j && (s[i] == '-' || s[i] == '+'))) {
        lemma_exponent_bounds(s, i + 1, j);
    }
}

proof fn lemma_ident_bounds(s: Seq<char>, i: int)
    requires
        0 <= i <= s.len(),
    ensures
        i <= ident_end(s, i) <= s.len(),
    decreases s.len() - i,
{
    if i < s.len() && !is_special(s[i]) {
        lemma_ident_bounds(s, i + 1);
    }
}

/// The token bounds lie within the text, after `i`.
pub proof fn lemma_token_bounds(s: Seq<char>, i: int)
    requires
        0 <= i <= s.len(),
    ensures
        i <= token_at(s, i).0 <= token_at(s, i).1 <= s.len(),
        token_at(s, i).0 == skip_ws(s, i),
        token_at(s, i).0 < s.len() ==> token_at(s, i).0 < token_at(s, i).1 || ident_end(s, token_at(s, i).0) == token_at(s, i).0,
{
    lemma_skip_ws_bounds(s, i);
    let st = skip_ws(s, i);
    if st < s.len() {
        lemma_mantissa_bounds(s, st, false);
        let m = mantissa_end(s, st, false);
        if m > st && m < s.len() && (s[m] == 'e' || s[m] == 'E') {
            lemma_exponent_bounds(s, m + 1, m + 1);
        }
        lemma_ident_bounds(s, st);
    }
}

fn is_ws_char(c: char) -> (r: bool)
    ensures
        r == is_ws(c),
{
    c == ' ' || c == '\t' || c == '\r' || c == '\n'
}

fn is_digit_char(c: char) -> (r: bool)
    ensures
        r == is_digit(c),
{
    '0' <= c && c <= '9'
}

/// The characters that end an identifier or keyword token.
pub fn special_symbols() -> (r: Vec<char>)
    ensures
        forall|c: char| r@.contains(c) <==> is_special(c),
{
    let r = vec![
        ' ', '!', '=', '<', '>', '(', ')', '|', '&', '+', '-', '*', '/', '%', ',', '[', ']', '^',
        ':', ';', '{', '}', '#', '"', '\t', '\r', '\n',
    ];
    proof {
        assert forall|c: char| r@.contains(c) <==> is_special(c) by {
            if is_special(c) {
                if c == ' ' { assert(r@[0] == c); }
                else if c == '!' { assert(r@[1] == c); }
                else if c == '=' { assert(r@[2] == c); }
                else if c == '<' { assert(r@[3] == c); }
                else if c == '>' { assert(r@[4] == c); }
                else if c == '(' { assert(r@[5] == c); }
                else if c == ')' { assert(r@[6] == c); }
                else if c == '|' { assert(r@[7] == c); }
                else if c == '&' { assert(r@[8] == c); }
                else if c == '+' { assert(r@[9] == c); }
                else if c == '-' { assert(r@[10] == c); }
                else if c == '*' { assert(r@[11] == c); }
                else if c == '/' { assert(r@[12] == c); }
                else if c == '%' { assert(r@[13] == c); }
                else if c == ',' { assert(r@[14] == c); }
                else if c == '[' { assert(r@[15] == c); }
                else if c == ']' { assert(r@[16] == c); }
                else if c == '^' { assert(r@[17] == c); }
                else if c == ':' { assert(r@[18] == c); }
                else if c == ';' { assert(r@[19] == c); }
                else if c == '{' { assert(r@[20] == c); }
                else if c == '}' { assert(r@[21] == c); }
                else if c == '#' { assert(r@[22] == c); }
                else if c == '"' { assert(r@[23] == c); }
                else if c == '\t' { assert(r@[24] == c); }
                else if c == '\r' { assert(r@[25] == c); }
                else { assert(r@[26] == c); }
            }
        }
    }
    r
}

/// Whether `c` is one of `chars`.
pub fn contains_char(chars: &[char], c: char) -> (r: bool)
    ensures
        r == chars@.contains(c),
{
    let mut k: usize = 0;
    while k < chars.len()
        invariant
            0 <= k <= chars@.len(),
            forall|j: int| 0 <= j < k ==> chars@[j] != c,
        decreases chars@.len() - k,
    {
        if chars[k] == c {
            return true;
        }
        k = k + 1;
    }
    false
}

/// The first position at or after `start` whose character is one of `chars`.
pub fn index_any(s: &[char], start: usize, chars: &[char]) -> (r: Option<usize>)
    requires
        start <= s@.len(),
    ensures
        match r {
            Some(i) => start <= i < s@.len() && chars@.contains(s@[i as int]) && forall|j: int|
                start <= j < i ==> !chars@.contains(#[trigger] s@[j]),
            None => forall|j: int| start <= j < s@.len() ==> !chars@.contains(#[trigger] s@[j]),
        },
{
    let mut i = start;
    while i < s.len()
        invariant
            start <= i <= s@.len(),
            forall|j: int| start <= j < i ==> !chars@.contains(#[trigger] s@[j]),
        decreases s@.len() - i,
    {
        if contains_char(chars, s[i]) {
            return Some(i);
        }
        i = i + 1;
    }
    None
}

fn op_width_at(s: &[char], i: usize) -> (r: usize)
    requires
        i < s@.len(),
    ensures
        r == op_width(s@, i as int),
{
    let c = s[i];
    let next: char = if i + 1 < s.len() { s[i + 1] } else { ' ' };
    if (c == ':' || c == '!' || c == '>' || c == '<') && next == '=' && i + 1 < s.len() {
        2
    } else if (c == '&' || c == '^' || c == '|' || c == '*') && next == c && i + 1 < s.len() {
        2
    } else if c == '=' || c == ':' || c == ';' || c == '!' || c == '>' || c == '<' || c == '~'
        || c == '&' || c == '^' || c == '|' || c == '+' || c == '-' || c == '*' || c == '/'
        || c == '%' || c == ',' || c == '(' || c == ')' || c == '[' || c == ']' || c == '"'
        || c == '{' || c == '}' {
        1
    } else {
        0
    }
}

/// Case-sensitive tokenizer: the bounds `(start, end)` of the token that
/// follows position `pos`; the rest of the text begins at `end`.
pub fn tokenizer_cs(input: &[char], pos: usize) -> (r: (usize, usize))
    requires
        pos <= input@.len(),
    ensures
        r.0 as int == token_at(input@, pos as int).0,
        r.1 as int == token_at(input@, pos as int).1,
{
    let s = input;
    proof {
        lemma_token_bounds(s@, pos as int);
    }
    let mut st = pos;
    while st < s.len() && is_ws_char(s[st])
        invariant
            pos <= st <= s@.len(),
            skip_ws(s@, st as int) == skip_ws(s@, pos as int),
        decreases s@.len() - st,
    {
        st = st + 1;
    }
    if st >= s.len() {
        return (st, st);
    }
    let w = op_width_at(s, st);
    if w > 0 {
        return (st, st + w);
    }
    let mut i = st;
    let mut dot = false;
    while i < s.len() && (is_digit_char(s[i]) || (s[i] == '.' && !dot))
        invariant
            st <= i <= s@.len(),
            mantissa_end(s@, i as int, dot) == mantissa_end(s@, st as int, false),
        decreases s@.len() - i,
    {
        if s[i] == '.' {
            dot = true;
        }
        i = i + 1;
    }
    assert(mantissa_end(s@, i as int, dot) == i);
    if i > st && i < s.len() && (s[i] == 'e' || s[i] == 'E') {
        let j = i + 1;
        i = i + 1;
        while i < s.len() && (is_digit_char(s[i]) || (i == j && (s[i] == '-' || s[i] == '+')))
            invariant
                j <= i <= s@.len(),
                exponent_end(s@, i as int, j as int) == exponent_end(s@, j as int, j as int),
            decreases s@.len() - i,
        {
            i = i + 1;
        }
        assert(exponent_end(s@, i as int, j as int) == i);
    }
    if i == st {
        let specials = special_symbols();
        match index_any(s, st, specials.as_slice()) {
            Some(k) => {
                proof {
                    lemma_ident_scan(s@, st as int, k as int);
                }
                i = k;
            },
            None => {
                proof {
                    lemma_ident_scan(s@, st as int, s@.len() as int);
                }
                i = s.len();
            },
        }
    }
    (st, i)
}

proof fn lemma_ident_scan(s: Seq<char>, i: int, k: int)
    requires
        0 <= i <= k <= s.len(),
        forall|j: int| i <= j < k ==> !is_special(#[trigger] s[j]),
        k == s.len() || is_special(s[k]),
    ensures
        ident_end(s, i) == k,
    decreases k - i,
{
    if i < k {
        lemma_ident_scan(s, i + 1, k);
    }
}

/// ASCII case folding of one character.
pub open spec fn lower_char(c: char) -> char {
    if 'A' <= c <= 'Z' {
        ((c as u32) + 32) as char
    } else {
        c
    }
}

pub open spec fn lower_seq(s: Seq<char>) -> Seq<char> {
    s.map_values(|c: char| lower_char(c))
}

fn lower(c: char) -> (r: char)
    ensures
        r == lower_char(c),
{
    if 'A' <= c && c <= 'Z' {
        ((c as u8) + 32) as char
    } else {
        c
    }
}

/// Case-folding tokenizer: the position where the rest of the text begins,
/// and the token, lower-cased.
pub fn tokenizer(input: &[char], pos: usize) -> (r: (usize, Vec<char>))
    requires
        pos <= input@.len(),
    ensures
        r.0 as int == token_at(input@, pos as int).1,
        r.1@ == lower_seq(input@.subrange(token_at(input@, pos as int).0, token_at(input@, pos as int).1)),
{
    let (st, en) = tokenizer_cs(input, pos);
    proof {
        lemma_token_bounds(input@, pos as int);
    }
    let mut out: Vec<char> = Vec::new();
    let mut k = st;
    while k < en
        invariant
            st <= k <= en <= input@.len(),
            out@ == lower_seq(input@.subrange(st as int, k as int)),
        decreases en - k,
    {
        out.push(lower(input[k]));
        proof {
            assert(input@.subrange(st as int, k + 1) == input@.subrange(st as int, k as int).push(input@[k as int]));
            assert(lower_seq(input@.subrange(st as int, k + 1)) == lower_seq(input@.subrange(st as int, k as int)).push(lower_char(input@[k as int])));
        }
        k = k + 1;
    }
    (en, out)
}

/// The binding strength of a token: `-1` for a token that ends every chain
/// (end of text, `,`, `)`, `]`), `1` to `11` for the binary operators from
/// loosest to tightest, `0` for anything else.
pub open spec fn rank(t: Seq<char>) -> int {
    if t.len() == 0 || t == seq![','] || t == seq![')'] || t == seq![']'] {
        -1
    } else if t == seq!['|', '|'] {
        1
    } else if t == seq!['^', '^'] {
        2
    } else if t == seq!['&', '&'] {
        3
    } else if t == seq!['|'] {
        4
    } else if t == seq!['^'] {
        5
    } else if t == seq!['&'] {
        6
    } else if t == seq!['='] || t == seq!['!', '='] {
        7
    } else if t == seq!['>'] || t == seq!['>', '='] || t == seq!['<'] || t == seq!['<', '='] {
        8
    } else if t == seq!['+'] || t == seq!['-'] {
        9
    } else if t == seq!['*'] || t == seq!['/'] || t == seq!['%'] {
        10
    } else if t == seq!['*', '*'] {
        11
    } else {
        0
    }
}

/// Whether the token is exactly the one character `a`.
pub fn is1(t: &[char], a: char) -> (r: bool)
    ensures
        r == (t@ == seq![a]),
{
    let r = t.len() == 1 && t[0] == a;
    proof {
        if t@.len() == 1 && t@[0] == a {
            assert(t@ == seq![a]);
        }
    }
    r
}

/// Whether the token is exactly the two characters `a` `b`.
pub fn is2(t: &[char], a: char, b: char) -> (r: bool)
    ensures
        r == (t@ == seq![a, b]),
{
    let r = t.len() == 2 && t[0] == a && t[1] == b;
    proof {
        if t@.len() == 2 && t@[0] == a && t@[1] == b {
            assert(t@ == seq![a, b]);
        }
    }
    r
}

pub fn is_operator(t: &[char]) -> (r: i64)
    ensures
        r == rank(t@),
{
    if t.len() == 0 || is1(t, ',') || is1(t, ')') || is1(t, ']') {
        -1
    } else if is2(t, '|', '|') {
        1
    } else if is2(t, '^', '^') {
        2
    } else if is2(t, '&', '&') {
        3
    } else if is1(t, '|') {
        4
    } else if is1(t, '^') {
        5
    } else if is1(t, '&') {
        6
    } else if is1(t, '=') || is2(t, '!', '=') {
        7
    } else if is1(t, '>') || is2(t, '>', '=') || is1(t, '<') || is2(t, '<', '=') {
        8
    } else if is1(t, '+') || is1(t, '-') {
        9
    } else if is1(t, '*') || is1(t, '/') || is1(t, '%') {
        10
    } else if is2(t, '*', '*') {
        11
    } else {
        0
    }
}

/// The value of a run of decimal digits.
pub open spec fn digits_value(s: Seq<char>) -> nat
    decreases s.len(),
{
    if s.len() == 0 {
        0
    } else {
        10 * digits_value(s.drop_last()) + ((s.last() as u32) - ('0' as u32)) as nat
    }
}

pub open spec fn all_digits(s: Seq<char>) -> bool {
    forall|i: int| 0 <= i < s.len() ==> is_digit(#[trigger] s[i])
}

/// The integer that a decimal text denotes: an optional sign, then one or
/// more digits, saturated to the 32-bit range; `i32::MIN` for any other text.
pub open spec fn atoi_spec(s: Seq<char>) -> i32 {
    let neg = s.len() > 0 && s[0] == '-';
    let body = if s.len() > 0 && (s[0] == '-' || s[0] == '+') { s.drop_first() } else { s };
    if body.len() == 0 || !all_digits(body) {
        i32::MIN
    } else if neg {
        clamp_i32(-(digits_value(body) as int))
    } else {
        clamp_i32(digits_value(body) as int)
    }
}

const DIGITS_CAP: u64 = 0x1_0000_0000;

/// The value of the digits `s[from..to]`, saturated at `DIGITS_CAP`.
fn digits_capped(s: &[char], from: usize, to: usize) -> (r: u64)
    requires
        from <= to <= s@.len(),
        all_digits(s@.subrange(from as int, to as int)),
    ensures
        r as int == if digits_value(s@.subrange(from as int, to as int)) >= DIGITS_CAP {
            DIGITS_CAP as int
        } else {
            digits_value(s@.subrange(from as int, to as int)) as int
        },
{
    let mut acc: u64 = 0;
    let mut k = from;
    while k < to
        invariant
            from <= k <= to <= s@.len(),
            all_digits(s@.subrange(from as int, to as int)),
            acc as int == if digits_value(s@.subrange(from as int, k as int)) >= DIGITS_CAP {
                DIGITS_CAP as int
            } else {
                digits_value(s@.subrange(from as int, k as int)) as int
            },
        decreases to - k,
    {
        let ghost pre = s@.subrange(from as int, k as int);
        let ghost cur = s@.subrange(from as int, k + 1);
        assert(cur.drop_last() == pre);
        assert(cur.last() == s@[k as int]);
        assert(is_digit(s@.subrange(from as int, to as int)[k - from]));
        let d = (s[k] as u32 - '0' as u32) as u64;
        let next = acc * 10 + d;
        acc = if next >= DIGITS_CAP { DIGITS_CAP } else { next };
        k = k + 1;
    }
    acc
}

/// Reads a decimal integer; see [`atoi_spec`].
pub fn atoi(s: &[char]) -> (r: i32)
    ensures
        r == atoi_spec(s@),
{
    let n = s.len();
    let neg = n > 0 && s[0] == '-';
    let from: usize = if n > 0 && (s[0] == '-' || s[0] == '+') { 1 } else { 0 };
    proof {
        assert(s@.subrange(from as int, n as int) == if from == 1 { s@.drop_first() } else { s@ });
    }
    if from == n {
        return i32::MIN;
    }
    let mut k = from;
    while k < n
        invariant
            from <= k <= n == s@.len(),
            from < n,
            forall|j: int| from <= j < k ==> is_digit(#[trigger] s@[j]),
            s@.subrange(from as int, n as int) == if from == 1 { s@.drop_first() } else { s@ },
            from == (if n > 0 && (s@[0] == '-' || s@[0] == '+') { 1usize } else { 0usize }),
            neg == (n > 0 && s@[0] == '-'),
        decreases n - k,
    {
        if !is_digit_char(s[k]) {
            proof {
                assert(!is_digit(s@.subrange(from as int, n as int)[k - from]));
            }
            return i32::MIN;
        }
        k = k + 1;
    }
    assert(all_digits(s@.subrange(from as int, n as int)));
    let v = digits_capped(s, from, n);
    if neg {
        if v > 0x8000_0000 {
            i32::MIN
        } else {
            (-(v as i64)) as i32
        }
    } else {
        if v > 0x7fff_ffff {
            i32::MAX
        } else {
            v as i32
        }
    }
}

} // verus!
