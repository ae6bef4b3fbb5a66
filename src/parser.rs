//! The precedence-climbing compiler: it parses expression text, folds
//! constant sub-expressions, and emits bytecode with short-circuit skips for
//! `&&` and `||`.
use vstd::prelude::*;
use crate::value::{BytecodeValue, ValueType, clamp_i32};
use crate::ops::{BinOp, UnOp, apply_binary, apply_unary, binop_spec, unop_spec, int_value};
use crate::program::{
    BytecodeExp, StateControllerBase, param_block, OC_FETCH, OC_JNZ, OC_JNZ8, OC_JZ, OC_JZ8, OC_POP, binop_code, encode_value,
    le_bytes32, unop_code,
};
use crate::lexer::{
    all_digits, atoi, contains_char, digits_value, is1, is2, is_digit, is_operator, is_special,
    lemma_token_bounds, rank,
    lower_char, lower_seq, special_symbols, token_at, tokenizer_cs,
};

verus! {

/// A token span `(start, end)`: the current token is `s[start..end]` and the
/// rest of the text begins at `end`.
pub type Span = (int, int);

/// The result of parsing a sub-expression: the span of the token after it,
/// its folded value (`NonConst` when bytecode was needed), and the code
/// buffer with the sub-expression's bytecode appended; or the span of the
/// offending token.
pub type Parsed = Result<(Span, BytecodeValue, Seq<u8>), Span>;

/// The current token, lower-cased.
pub open spec fn tok(s: Seq<char>, st: Span) -> Seq<char> {
    lower_seq(s.subrange(st.0, st.1))
}

pub open spec fn span_ok(s: Seq<char>, st: Span) -> bool {
    0 <= st.0 <= st.1 <= s.len()
}

/// The operator that token `t` denotes at grammar level `k` (1: `||`,
/// 2: `^^`, 3: `&&`, 4: `|`, 5: `^`, 6: `&`, 7: equality, 8: comparison,
/// 9: additive, 10: multiplicative, 11: `**`).
pub open spec fn level_op(k: int, t: Seq<char>) -> Option<BinOp> {
    if k == 1 && t == seq!['|', '|'] {
        Some(BinOp::BlOr)
    } else if k == 2 && t == seq!['^', '^'] {
        Some(BinOp::BlXor)
    } else if k == 3 && t == seq!['&', '&'] {
        Some(BinOp::BlAnd)
    } else if k == 4 && t == seq!['|'] {
        Some(BinOp::Or)
    } else if k == 5 && t == seq!['^'] {
        Some(BinOp::Xor)
    } else if k == 6 && t == seq!['&'] {
        Some(BinOp::And)
    } else if k == 7 && t == seq!['='] {
        Some(BinOp::Eq)
    } else if k == 7 && t == seq!['!', '='] {
        Some(BinOp::Ne)
    } else if k == 8 && t == seq!['>'] {
        Some(BinOp::Gt)
    } else if k == 8 && t == seq!['>', '='] {
        Some(BinOp::Ge)
    } else if k == 8 && t == seq!['<'] {
        Some(BinOp::Lt)
    } else if k == 8 && t == seq!['<', '='] {
        Some(BinOp::Le)
    } else if k == 9 && t == seq!['+'] {
        Some(BinOp::Add)
    } else if k == 9 && t == seq!['-'] {
        Some(BinOp::Sub)
    } else if k == 10 && t == seq!['*'] {
        Some(BinOp::Mul)
    } else if k == 10 && t == seq!['/'] {
        Some(BinOp::Div)
    } else if k == 10 && t == seq!['%'] {
        Some(BinOp::Mod)
    } else if k == 11 && t == seq!['*', '*'] {
        Some(BinOp::Pow)
    } else {
        None
    }
}

pub open spec fn prefix_op(t: Seq<char>) -> Option<UnOp> {
    if t == seq!['-'] {
        Some(UnOp::Neg)
    } else if t == seq!['~'] {
        Some(UnOp::Not)
    } else if t == seq!['!'] {
        Some(UnOp::BlNot)
    } else {
        None
    }
}

/// `&&` and `||` take their right side at their own level; every other level
/// takes it at the next tighter one, so those operators group to the left.
pub open spec fn right_level(k: int) -> int {
    if k == 1 || k == 3 {
        k
    } else {
        k + 1
    }
}

/// The first index at or after `from` of a context name equal to `t`.
pub open spec fn find_name(names: Seq<Seq<char>>, t: Seq<char>, from: int) -> Option<int>
    decreases names.len() - from,
{
    if from < 0 || from >= names.len() {
        None
    } else if names[from] == t {
        Some(from)
    } else {
        find_name(names, t, from + 1)
    }
}

pub open spec fn is_ident_start(c: char) -> bool {
    !is_special(c) && !is_digit(c) && c != '.' && c != '~'
}

/// The conditional skip over `n` bytes: the 8-bit form while the skipped
/// code is at most 254 bytes long, else the 32-bit form.
pub open spec fn jump_code(on_true: bool, n: int) -> Seq<u8> {
    if n - 1 > 254 {
        seq![if on_true { OC_JNZ } else { OC_JZ }] + le_bytes32(n as u32)
    } else {
        seq![if on_true { OC_JNZ8 } else { OC_JZ8 }, n as u8]
    }
}

/// Combines a left operand (value `v`, code buffer `c`) with a right operand
/// (value `v2`, its own code `c2`). Two constants fold; otherwise the held
/// constants are flushed as literals around the right side's code. For `&&`
/// and `||` the right side is guarded by a skip over it and a discard.
/// `None` when a skip distance would not fit in 32 bits.
pub open spec fn combine(op: BinOp, v: BytecodeValue, c: Seq<u8>, v2: BytecodeValue, c2: Seq<u8>) -> Option<
    (BytecodeValue, Seq<u8>),
> {
    if v != BytecodeValue::NonConst && v2 != BytecodeValue::NonConst {
        Some((binop_spec(op, v, v2), c))
    } else if op == BinOp::BlAnd || op == BinOp::BlOr {
        let b = c2 + encode_value(v2);
        if b.len() + 1 > i32::MAX {
            None
        } else {
            Some(
                (
                    BytecodeValue::NonConst,
                    c + encode_value(v) + jump_code(op == BinOp::BlOr, b.len() + 1int) + seq![OC_POP]
                        + b,
                ),
            )
        }
    } else {
        Some(
            (
                BytecodeValue::NonConst,
                c + encode_value(v) + c2 + encode_value(v2) + seq![binop_code(op)],
            ),
        )
    }
}

/// Parses grammar level `k` from the token `st`, appending to `c`: levels 1
/// to 11 are the binary operators, level 12 the prefix operators.
pub open spec fn p_level(s: Seq<char>, names: Seq<Seq<char>>, k: int, st: Span, c: Seq<u8>) -> Parsed
    decreases s.len() - st.0, 2 * (13 - k) + 1,
{
    if !span_ok(s, st) || k < 1 || k > 12 {
        Err(st)
    } else if k == 12 {
        p_unary(s, names, st, c)
    } else {
        match p_level(s, names, k + 1, st, c) {
            Err(e) => Err(e),
            Ok((st1, v, c1)) => if st1.0 < st.0 || !span_ok(s, st1) {
                Err(st1)
            } else {
                p_loop(s, names, k, st1, v, c1)
            },
        }
    }
}

/// The loop of level `k`: while the token is this level's operator, parse a
/// right side and combine.
pub open spec fn p_loop(
    s: Seq<char>,
    names: Seq<Seq<char>>,
    k: int,
    st: Span,
    v: BytecodeValue,
    c: Seq<u8>,
) -> Parsed
    decreases s.len() - st.0, 2 * (13 - k),
{
    if !span_ok(s, st) || k < 1 || k > 11 {
        Err(st)
    } else {
        match level_op(k, tok(s, st)) {
            None => Ok((st, v, c)),
            Some(op) => {
                let st2 = token_at(s, st.1);
                if st2.0 <= st.0 || !span_ok(s, st2) {
                    Err(st2)
                } else {
                    match p_level(s, names, right_level(k), st2, Seq::empty()) {
                        Err(e) => Err(e),
                        Ok((st3, v2, c2)) => if st3.0 < st2.0 || !span_ok(s, st3) {
                            Err(st3)
                        } else {
                            match combine(op, v, c, v2, c2) {
                                None => Err(st3),
                                Some((nv, nc)) => p_loop(s, names, k, st3, nv, nc),
                            }
                        },
                    }
                }
            },
        }
    }
}

/// Prefix operators, then a primary.
pub open spec fn p_unary(s: Seq<char>, names: Seq<Seq<char>>, st: Span, c: Seq<u8>) -> Parsed
    decreases s.len() - st.0, 1int,
{
    if !span_ok(s, st) {
        Err(st)
    } else {
        match prefix_op(tok(s, st)) {
            Some(op) => {
                let st2 = token_at(s, st.1);
                if st2.0 <= st.0 || !span_ok(s, st2) {
                    Err(st2)
                } else {
                    match p_unary(s, names, st2, c) {
                        Err(e) => Err(e),
                        Ok((st3, v, c3)) => if v != BytecodeValue::NonConst {
                            Ok((st3, unop_spec(op, v), c3))
                        } else {
                            Ok((st3, BytecodeValue::NonConst, c3 + seq![unop_code(op)]))
                        },
                    }
                }
            },
            None => p_primary(s, names, st, c),
        }
    }
}

/// A parenthesised expression, an integer literal, or a context name.
pub open spec fn p_primary(s: Seq<char>, names: Seq<Seq<char>>, st: Span, c: Seq<u8>) -> Parsed
    decreases s.len() - st.0, 0int,
{
    if !span_ok(s, st) {
        Err(st)
    } else {
        let t = tok(s, st);
        if t == seq!['('] {
            let st2 = token_at(s, st.1);
            if st2.0 <= st.0 || !span_ok(s, st2) {
                Err(st2)
            } else {
                match p_level(s, names, 1, st2, c) {
                    Err(e) => Err(e),
                    Ok((st3, v, c3)) => if span_ok(s, st3) && tok(s, st3) == seq![')'] {
                        Ok((token_at(s, st3.1), v, c3))
                    } else {
                        Err(st3)
                    },
                }
            }
        } else if t.len() > 0 && (is_digit(t[0]) || t[0] == '.') {
            if all_digits(t) {
                Ok((token_at(s, st.1), int_value(clamp_i32(digits_value(t) as int) as int), c))
            } else {
                Err(st)
            }
        } else if t.len() > 0 && is_ident_start(t[0]) {
            match find_name(names, t, 0) {
                Some(i) => if i < 256 {
                    Ok((token_at(s, st.1), BytecodeValue::NonConst, c + seq![OC_FETCH, i as u8]))
                } else {
                    Err(st)
                },
                None => Err(st),
            }
        } else {
            Err(st)
        }
    }
}

/// The coercion of a constant result to the expected kind.
pub open spec fn coerce(vt: ValueType, v: BytecodeValue) -> BytecodeValue {
    match vt {
        ValueType::Untyped => v,
        ValueType::Int => int_value(v.int_of() as int),
        ValueType::Bool => BytecodeValue::Bool(v.bool_of()),
    }
}

/// The program that text `s` compiles to, or the span of the token at which
/// it is rejected: the whole text must be one expression; a constant result
/// is coerced to the expected kind and emitted as one literal.
pub open spec fn compile_spec(s: Seq<char>, names: Seq<Seq<char>>, vt: ValueType) -> Result<Seq<u8>, Span> {
    match expression_at(s, names, vt, token_at(s, 0)) {
        Err(e) => Err(e),
        Ok((st, p)) => if st.0 < s.len() {
            Err(st)
        } else {
            Ok(p)
        },
    }
}

/// The program for the expression whose first token is `st0`, with the span
/// of the token after it.
pub open spec fn expression_at(s: Seq<char>, names: Seq<Seq<char>>, vt: ValueType, st0: Span) -> Result<(Span, Seq<u8>), Span> {
    match p_level(s, names, 1, st0, Seq::empty()) {
        Err(e) => Err(e),
        Ok((st, v, c)) => if v == BytecodeValue::NonConst {
            Ok((st, c))
        } else {
            Ok((st, c + encode_value(coerce(vt, v))))
        },
    }
}

/// Up to `n` comma-separated expressions from position `pos`: all but the
/// last may end at a `,`; the last must end the text. Fewer expressions are
/// fine when the text ends first (a trailing `,` included).
pub open spec fn exprs_spec(s: Seq<char>, names: Seq<Seq<char>>, vt: ValueType, pos: int, n: int) -> Result<Seq<Seq<u8>>, Span>
    decreases s.len() - pos,
{
    let st0 = token_at(s, pos);
    if pos < 0 || pos > s.len() || n < 1 {
        Err(st0)
    } else {
        match expression_at(s, names, vt, st0) {
            Err(e) => Err(e),
            Ok((st, prog)) => if st.0 >= s.len() {
                Ok(seq![prog])
            } else if n > 1 && span_ok(s, st) && tok(s, st) == seq![','] && st.1 > pos {
                if token_at(s, st.1).0 >= s.len() {
                    Ok(seq![prog])
                } else {
                    match exprs_spec(s, names, vt, st.1, n - 1) {
                        Err(e) => Err(e),
                        Ok(rest) => Ok(seq![prog] + rest),
                    }
                }
            } else {
                Err(st)
            },
        }
    }
}

proof fn lemma_exprs_count(s: Seq<char>, names: Seq<Seq<char>>, vt: ValueType, pos: int, n: int)
    ensures
        exprs_spec(s, names, vt, pos, n) matches Ok(ps) ==> 1 <= ps.len() <= n,
    decreases s.len() - pos,
{
    let st0 = token_at(s, pos);
    if pos < 0 || pos > s.len() || n < 1 {
    } else {
        match expression_at(s, names, vt, st0) {
            Err(_) => {},
            Ok((st, prog)) => {
                if st.0 < s.len() && n > 1 && span_ok(s, st) && tok(s, st) == seq![','] && st.1 > pos
                    && token_at(s, st.1).0 < s.len() {
                    lemma_exprs_count(s, names, vt, st.1, n - 1);
                }
            },
        }
    }
}

/// What the deferred-operator rule decides for the token just read.
#[derive(Clone, Copy, Debug, PartialEq, Eq, Structural)]
pub enum PendingOutcome {
    /// The token stands; the pending operator stays pending.
    Keep,
    /// The pending operator becomes the current token again, for the caller
    /// to consume next, and is no longer pending.
    Reinstate,
    /// Invalid data at the pending operator.
    Invalid,
}

pub open spec fn is_ascii_letter(c: char) -> bool {
    ('A' <= c <= 'Z') || ('a' <= c <= 'z')
}

/// The deferred-operator rule. With no pending operator the token stands.
/// A token that binds strictly tighter than the pending operator stands too.
/// Otherwise the token must start an identifier or keyword (or, in reverse
/// order mode, be an opening parenthesis), and the pending operator is
/// reinstated; any other token, and one that ends every chain, is invalid.
pub open spec fn pending_spec(token: Seq<char>, pending: Seq<char>, reverse_order: bool) -> PendingOutcome {
    if pending.len() == 0 {
        PendingOutcome::Keep
    } else if rank(token) > rank(pending) {
        PendingOutcome::Keep
    } else if rank(token) < 0 || ((!reverse_order || token[0] != '(') && !is_ascii_letter(token[0])) {
        PendingOutcome::Invalid
    } else {
        PendingOutcome::Reinstate
    }
}

/// Applies the deferred-operator rule; see [`pending_spec`].
pub fn operator(token: &[char], pending: &[char], reverse_order: bool) -> (r: PendingOutcome)
    ensures
        r == pending_spec(token@, pending@, reverse_order),
{
    if pending.len() == 0 {
        return PendingOutcome::Keep;
    }
    let opp = is_operator(token);
    if opp > is_operator(pending) {
        return PendingOutcome::Keep;
    }
    if opp < 0 {
        return PendingOutcome::Invalid;
    }
    let first = token[0];
    let letter = ('A' <= first && first <= 'Z') || ('a' <= first && first <= 'z');
    if (!reverse_order || first != '(') && !letter {
        PendingOutcome::Invalid
    } else {
        PendingOutcome::Reinstate
    }
}

/// The current token of a parse: `s[ts..te]`, with the rest of the text
/// from `te`.
#[derive(Clone, Copy, Debug, PartialEq, Eq, Structural)]
pub struct ParseState {
    pub ts: usize,
    pub te: usize,
}

impl ParseState {
    pub open spec fn span(self) -> Span {
        (self.ts as int, self.te as int)
    }
}

/// Rejected text: "invalid data" at the token `start..end` (character
/// positions). A program too long for the length field of a parameter block
/// is reported at `0..0`.
#[derive(Clone, Copy, Debug, PartialEq, Eq, Structural)]
pub struct ParseError {
    pub start: usize,
    pub end: usize,
}

impl ParseError {
    pub open spec fn span(self) -> Span {
        (self.start as int, self.end as int)
    }
}

/// How an executable parse result stands to its specification.
pub open spec fn parsed_as(
    r: Result<(ParseState, BytecodeValue), ParseError>,
    p: Parsed,
    out: Seq<u8>,
) -> bool {
    match p {
        Ok((st, v, c)) => r is Ok && r->Ok_0.0.span() == st && r->Ok_0.1 == v && out == c,
        Err(e) => r is Err && r->Err_0.span() == e,
    }
}

fn error_at(st: ParseState) -> (r: ParseError)
    ensures
        r.span() == st.span(),
{
    ParseError { start: st.ts, end: st.te }
}

fn lower_range(s: &[char], from: usize, to: usize) -> (r: Vec<char>)
    requires
        from <= to <= s@.len(),
    ensures
        r@ == lower_seq(s@.subrange(from as int, to as int)),
{
    let mut out: Vec<char> = Vec::new();
    let mut k = from;
    while k < to
        invariant
            from <= k <= to <= s@.len(),
            out@ == lower_seq(s@.subrange(from as int, k as int)),
        decreases to - k,
    {
        let c = s[k];
        let l = if 'A' <= c && c <= 'Z' { ((c as u8) + 32) as char } else { c };
        out.push(l);
        proof {
            assert(s@.subrange(from as int, k + 1) == s@.subrange(from as int, k as int).push(c));
            assert(lower_seq(s@.subrange(from as int, k + 1)) == lower_seq(
                s@.subrange(from as int, k as int),
            ).push(lower_char(c)));
        }
        k = k + 1;
    }
    out
}

fn advance(s: &[char], st: ParseState) -> (r: ParseState)
    requires
        st.te <= s@.len(),
    ensures
        r.span() == token_at(s@, st.te as int),
        span_ok(s@, r.span()),
        r.ts >= st.te,
{
    proof {
        lemma_token_bounds(s@, st.te as int);
    }
    let (a, b) = tokenizer_cs(s, st.te);
    ParseState { ts: a, te: b }
}

fn level_op_of(k: u8, t: &[char]) -> (r: Option<BinOp>)
    ensures
        r == level_op(k as int, t@),
{
    if k == 1 && is2(t, '|', '|') {
        Some(BinOp::BlOr)
    } else if k == 2 && is2(t, '^', '^') {
        Some(BinOp::BlXor)
    } else if k == 3 && is2(t, '&', '&') {
        Some(BinOp::BlAnd)
    } else if k == 4 && is1(t, '|') {
        Some(BinOp::Or)
    } else if k == 5 && is1(t, '^') {
        Some(BinOp::Xor)
    } else if k == 6 && is1(t, '&') {
        Some(BinOp::And)
    } else if k == 7 && is1(t, '=') {
        Some(BinOp::Eq)
    } else if k == 7 && is2(t, '!', '=') {
        Some(BinOp::Ne)
    } else if k == 8 && is1(t, '>') {
        Some(BinOp::Gt)
    } else if k == 8 && is2(t, '>', '=') {
        Some(BinOp::Ge)
    } else if k == 8 && is1(t, '<') {
        Some(BinOp::Lt)
    } else if k == 8 && is2(t, '<', '=') {
        Some(BinOp::Le)
    } else if k == 9 && is1(t, '+') {
        Some(BinOp::Add)
    } else if k == 9 && is1(t, '-') {
        Some(BinOp::Sub)
    } else if k == 10 && is1(t, '*') {
        Some(BinOp::Mul)
    } else if k == 10 && is1(t, '/') {
        Some(BinOp::Div)
    } else if k == 10 && is1(t, '%') {
        Some(BinOp::Mod)
    } else if k == 11 && is2(t, '*', '*') {
        Some(BinOp::Pow)
    } else {
        None
    }
}

fn prefix_op_of(t: &[char]) -> (r: Option<UnOp>)
    ensures
        r == prefix_op(t@),
{
    if is1(t, '-') {
        Some(UnOp::Neg)
    } else if is1(t, '~') {
        Some(UnOp::Not)
    } else if is1(t, '!') {
        Some(UnOp::BlNot)
    } else {
        None
    }
}

fn chars_eq(a: &[char], b: &[char]) -> (r: bool)
    ensures
        r == (a@ == b@),
{
    if a.len() != b.len() {
        return false;
    }
    let mut k: usize = 0;
    while k < a.len()
        invariant
            a@.len() == b@.len(),
            0 <= k <= a@.len(),
            forall|j: int| 0 <= j < k ==> a@[j] == b@[j],
        decreases a@.len() - k,
    {
        if a[k] != b[k] {
            return false;
        }
        k = k + 1;
    }
    proof {
        assert(a@ =~= b@);
    }
    true
}

pub(crate) fn chars_of(s: &str) -> (r: Vec<char>)
    ensures
        r@ == s@,
{
    let n = s.unicode_len();
    let mut out: Vec<char> = Vec::new();
    let mut k: usize = 0;
    while k < n
        invariant
            n == s@.len(),
            0 <= k <= n,
            out@ == s@.subrange(0, k as int),
        decreases n - k,
    {
        out.push(s.get_char(k));
        proof {
            assert(s@.subrange(0, k + 1) == s@.subrange(0, k as int).push(s@[k as int]));
        }
        k = k + 1;
    }
    proof {
        assert(s@.subrange(0, n as int) == s@);
    }
    out
}

/// A compiler for one set of context names: a name in expression text
/// compiles to a fetch of the context slot at its index.
pub struct Compiler {
    names: Vec<Vec<char>>,
}

impl Compiler {
    /// The context names, lower-cased.
    pub closed spec fn names(&self) -> Seq<Seq<char>> {
        self.names@.map_values(|v: Vec<char>| v@)
    }

    /// A compiler whose context slot `i` is named `names[i]`; names match
    /// identifiers without regard to ASCII case.
    pub fn new(names: &[&str]) -> (r: Compiler)
        ensures
            r.names().len() == names@.len(),
            forall|i: int| 0 <= i < names@.len() ==> r.names()[i] == lower_seq(#[trigger] names@[i]@),
    {
        let mut v: Vec<Vec<char>> = Vec::new();
        let mut k: usize = 0;
        while k < names.len()
            invariant
                0 <= k <= names@.len(),
                v@.len() == k,
                forall|i: int| 0 <= i < k ==> (#[trigger] v@[i])@ == lower_seq(names@[i]@),
            decreases names@.len() - k,
        {
            let cs = chars_of(names[k]);
            let l = lower_range(cs.as_slice(), 0, cs.len());
            proof {
                assert(cs@.subrange(0, cs@.len() as int) == cs@);
            }
            v.push(l);
            k = k + 1;
        }
        let r = Compiler { names: v };
        proof {
            assert forall|i: int| 0 <= i < names@.len() implies r.names()[i] == lower_seq(
                #[trigger] names@[i]@,
            ) by {
                assert(r.names()[i] == v@[i]@);
            }
        }
        r
    }

    fn lookup(&self, t: &[char]) -> (r: Option<usize>)
        ensures
            match r {
                Some(j) => find_name(self.names(), t@, 0) == Some(j as int),
                None => find_name(self.names(), t@, 0) is None,
            },
    {
        let n = self.names.len();
        let mut k: usize = 0;
        while k < n
            invariant
                n == self.names().len(),
                0 <= k <= n,
                find_name(self.names(), t@, k as int) == find_name(self.names(), t@, 0),
            decreases n - k,
        {
            if chars_eq(self.names[k].as_slice(), t) {
                return Some(k);
            }
            k = k + 1;
        }
        None
    }

    fn exp_level(&self, s: &[char], k: u8, st: ParseState, out: &mut BytecodeExp) -> (r: Result<
        (ParseState, BytecodeValue),
        ParseError,
    >)
        requires
            span_ok(s@, st.span()),
            1 <= k <= 12,
        ensures
            parsed_as(r, p_level(s@, self.names(), k as int, st.span(), old(out)@), final(out)@),
        decreases s@.len() - st.ts, 2 * (13 - k) + 1,
    {
        if k == 12 {
            return self.exp_unary(s, st, out);
        }
        match self.exp_level(s, k + 1, st, out) {
            Err(e) => Err(e),
            Ok((st1, v)) => {
                if st1.ts < st.ts || st1.ts > st1.te || st1.te > s.len() {
                    Err(error_at(st1))
                } else {
                    self.exp_loop(s, k, st1, v, out)
                }
            },
        }
    }

    fn exp_loop(
        &self,
        s: &[char],
        k: u8,
        st: ParseState,
        v: BytecodeValue,
        out: &mut BytecodeExp,
    ) -> (r: Result<(ParseState, BytecodeValue), ParseError>)
        requires
            span_ok(s@, st.span()),
            1 <= k <= 11,
        ensures
            parsed_as(r, p_loop(s@, self.names(), k as int, st.span(), v, old(out)@), final(out)@),
        decreases s@.len() - st.ts, 2 * (13 - k),
    {
        let t = lower_range(s, st.ts, st.te);
        match level_op_of(k, t.as_slice()) {
            None => Ok((st, v)),
            Some(op) => {
                let st2 = advance(s, st);
                if st2.ts <= st.ts {
                    return Err(error_at(st2));
                }
                let rk: u8 = if k == 1 || k == 3 { k } else { k + 1 };
                let mut be = BytecodeExp::new();
                let (st3, v2) = match self.exp_level(s, rk, st2, &mut be) {
                    Err(e) => {
                        return Err(e);
                    },
                    Ok(x) => x,
                };
                if st3.ts < st2.ts || st3.ts > st3.te || st3.te > s.len() {
                    return Err(error_at(st3));
                }
                let nv = match emit_binary(op, v, v2, &mut be, out) {
                    Some(x) => x,
                    None => {
                        return Err(error_at(st3));
                    },
                };
                self.exp_loop(s, k, st3, nv, out)
            },
        }
    }

    fn exp_unary(&self, s: &[char], st: ParseState, out: &mut BytecodeExp) -> (r: Result<
        (ParseState, BytecodeValue),
        ParseError,
    >)
        requires
            span_ok(s@, st.span()),
        ensures
            parsed_as(r, p_unary(s@, self.names(), st.span(), old(out)@), final(out)@),
        decreases s@.len() - st.ts, 1int,
    {
        let t = lower_range(s, st.ts, st.te);
        match prefix_op_of(t.as_slice()) {
            Some(op) => {
                let st2 = advance(s, st);
                if st2.ts <= st.ts {
                    return Err(error_at(st2));
                }
                match self.exp_unary(s, st2, out) {
                    Err(e) => Err(e),
                    Ok((st3, v)) => {
                        if !v.is_none() {
                            Ok((st3, apply_unary(op, v)))
                        } else {
                            let code = op.opcode();
                            let arr = [code];
                            assert(arr@ == seq![code]);
                            out.append(&arr);
                            Ok((st3, BytecodeValue::NonConst))
                        }
                    },
                }
            },
            None => self.exp_primary(s, st, out),
        }
    }

    fn exp_primary(&self, s: &[char], st: ParseState, out: &mut BytecodeExp) -> (r: Result<
        (ParseState, BytecodeValue),
        ParseError,
    >)
        requires
            span_ok(s@, st.span()),
        ensures
            parsed_as(r, p_primary(s@, self.names(), st.span(), old(out)@), final(out)@),
        decreases s@.len() - st.ts, 0int,
    {
        let t = lower_range(s, st.ts, st.te);
        if is1(t.as_slice(), '(') {
            let st2 = advance(s, st);
            if st2.ts <= st.ts {
                return Err(error_at(st2));
            }
            match self.exp_level(s, 1, st2, out) {
                Err(e) => Err(e),
                Ok((st3, v)) => {
                    if st3.ts <= st3.te && st3.te <= s.len() {
                        let t3 = lower_range(s, st3.ts, st3.te);
                        if is1(t3.as_slice(), ')') {
                            return Ok((advance(s, st3), v));
                        }
                    }
                    Err(error_at(st3))
                },
            }
        } else if t.len() > 0 && (('0' <= t[0] && t[0] <= '9') || t[0] == '.') {
            let v = number(t.as_slice());
            if v.is_none() {
                Err(error_at(st))
            } else {
                Ok((advance(s, st), v))
            }
        } else if t.len() > 0 && is_ident_start_char(t[0]) {
            match self.lookup(t.as_slice()) {
                Some(i) => {
                    if i < 256 {
                        let arr = [OC_FETCH, i as u8];
                        assert(arr@ == seq![OC_FETCH, i as u8]);
                        out.append(&arr);
                        Ok((advance(s, st), BytecodeValue::NonConst))
                    } else {
                        Err(error_at(st))
                    }
                },
                None => Err(error_at(st)),
            }
        } else {
            Err(error_at(st))
        }
    }

    fn expression(&self, s: &[char], vt: ValueType, st0: ParseState) -> (r: Result<(ParseState, BytecodeExp), ParseError>)
        requires
            span_ok(s@, st0.span()),
        ensures
            match expression_at(s@, self.names(), vt, st0.span()) {
                Ok((st, p)) => r is Ok && r->Ok_0.0.span() == st && r->Ok_0.1@ == p,
                Err(e) => r is Err && r->Err_0.span() == e,
            },
    {
        let mut out = BytecodeExp::new();
        match self.exp_level(s, 1, st0, &mut out) {
            Err(e) => Err(e),
            Ok((st, v)) => {
                if !v.is_none() {
                    let cv = match vt {
                        ValueType::Untyped => v,
                        ValueType::Int => BytecodeValue::Int(v.to_i() as i64),
                        ValueType::Bool => BytecodeValue::Bool(v.to_b()),
                    };
                    out.append_value(cv);
                }
                Ok((st, out))
            },
        }
    }

    /// Compiles up to `num_arg` comma-separated expressions, one program
    /// each, for the positional parameters of a controller.
    pub fn exprs(&self, input: &str, vt: ValueType, num_arg: u32) -> (r: Result<Vec<BytecodeExp>, ParseError>)
        requires
            num_arg >= 1,
        ensures
            match exprs_spec(input@, self.names(), vt, 0, num_arg as int) {
                Ok(ps) => r is Ok && r->Ok_0@.map_values(|e: BytecodeExp| e@) == ps,
                Err(e) => r is Err && r->Err_0.span() == e,
            },
    {
        let sv = chars_of(input);
        let s = sv.as_slice();
        let mut bes: Vec<BytecodeExp> = Vec::new();
        let mut pos: usize = 0;
        let mut n: u32 = num_arg;
        let ghost target = exprs_spec(s@, self.names(), vt, 0, num_arg as int);
        loop
            invariant
                s@ == input@,
                target == exprs_spec(input@, self.names(), vt, 0, num_arg as int),
                pos <= s@.len(),
                n >= 1,
                match target {
                    Ok(ps) => match exprs_spec(s@, self.names(), vt, pos as int, n as int) {
                        Ok(rest) => ps == bes@.map_values(|e: BytecodeExp| e@) + rest,
                        Err(_) => false,
                    },
                    Err(e) => exprs_spec(s@, self.names(), vt, pos as int, n as int) == Err::<Seq<Seq<u8>>, Span>(e),
                },
            decreases s@.len() - pos,
        {
            proof {
                lemma_token_bounds(s@, pos as int);
            }
            let (a, b) = tokenizer_cs(s, pos);
            let st0 = ParseState { ts: a, te: b };
            let ghost before = bes@.map_values(|e: BytecodeExp| e@);
            match self.expression(s, vt, st0) {
                Err(e) => {
                    return Err(e);
                },
                Ok((st, prog)) => {
                    let ghost pv = prog@;
                    if st.ts >= s.len() {
                        bes.push(prog);
                        proof {
                            assert(bes@.map_values(|e: BytecodeExp| e@) == before + seq![pv]);
                        }
                        return Ok(bes);
                    }
                    let comma = st.te <= s.len() && st.ts <= st.te && n > 1 && {
                        let t = lower_range(s, st.ts, st.te);
                        is1(t.as_slice(), ',')
                    } && st.te > pos;
                    if !comma {
                        return Err(error_at(st));
                    }
                    proof {
                        lemma_token_bounds(s@, st.te as int);
                    }
                    let (a2, _b2) = tokenizer_cs(s, st.te);
                    bes.push(prog);
                    proof {
                        assert(bes@.map_values(|e: BytecodeExp| e@) == before + seq![pv]);
                    }
                    if a2 >= s.len() {
                        return Ok(bes);
                    }
                    pos = st.te;
                    n = n - 1;
                }
            }
        }
    }

    /// Compiles the parameters of controller `id` from `input` and appends
    /// their block to `sc`. Nothing is appended when the text is rejected, or
    /// when a program is too long for the block's length field.
    pub fn sc_add(&self, sc: &mut StateControllerBase, id: u8, input: &str, vt: ValueType, num_arg: u32) -> (r: Result<(), ParseError>)
        requires
            1 <= num_arg <= 255,
        ensures
            match exprs_spec(input@, self.names(), vt, 0, num_arg as int) {
                Ok(ps) => if forall|k: int| 0 <= k < ps.len() ==> (#[trigger] ps[k]).len() <= i32::MAX {
                    r is Ok && final(sc)@ == old(sc)@ + param_block(id, ps)
                } else {
                    r is Err && final(sc)@ == old(sc)@
                },
                Err(e) => r is Err && r->Err_0.span() == e && final(sc)@ == old(sc)@,
            },
    {
        proof {
            lemma_exprs_count(input@, self.names(), vt, 0, num_arg as int);
        }
        let bes = match self.exprs(input, vt, num_arg) {
            Err(e) => {
                return Err(e);
            },
            Ok(b) => b,
        };
        let ghost ps = bes@.map_values(|e: BytecodeExp| e@);
        let mut k: usize = 0;
        let mut fits = true;
        while k < bes.len() && fits
            invariant
                0 <= k <= bes@.len(),
                ps == bes@.map_values(|e: BytecodeExp| e@),
                forall|j: int| 0 <= j < k ==> (#[trigger] bes@[j])@.len() <= i32::MAX,
                !fits ==> k < bes@.len() && bes@[k as int]@.len() > i32::MAX,
            decreases bes@.len() - k, if fits { 1int } else { 0int },
        {
            if bes[k].len() > 0x7fff_ffff {
                fits = false;
            } else {
                k = k + 1;
            }
        }
        if !fits {
            proof {
                assert(ps[k as int] == bes@[k as int]@);
                assert(!(forall|j: int| 0 <= j < ps.len() ==> (#[trigger] ps[j]).len() <= i32::MAX));
            }
            return Err(ParseError { start: 0, end: 0 });
        }
        proof {
            assert forall|j: int| 0 <= j < ps.len() implies (#[trigger] ps[j]).len() <= i32::MAX by {
                assert(ps[j] == bes@[j]@);
            }
        }
        sc.add(id, bes);
        Ok(())
    }

    /// Compiles one expression. A constant result is coerced to `vt` and
    /// emitted as a single literal instruction.
    pub fn compile(&self, input: &str, vt: ValueType) -> (r: Result<BytecodeExp, ParseError>)
        ensures
            match compile_spec(input@, self.names(), vt) {
                Ok(p) => r is Ok && r->Ok_0@ == p,
                Err(e) => r is Err && r->Err_0.span() == e,
            },
    {
        let s = chars_of(input);
        self.compile_chars(s.as_slice(), vt)
    }

    /// [`Compiler::compile`] on text given as characters.
    pub fn compile_chars(&self, s: &[char], vt: ValueType) -> (r: Result<BytecodeExp, ParseError>)
        ensures
            match compile_spec(s@, self.names(), vt) {
                Ok(p) => r is Ok && r->Ok_0@ == p,
                Err(e) => r is Err && r->Err_0.span() == e,
            },
    {
        proof {
            lemma_token_bounds(s@, 0);
        }
        let (a, b) = tokenizer_cs(s, 0);
        let st0 = ParseState { ts: a, te: b };
        match self.expression(s, vt, st0) {
            Err(e) => Err(e),
            Ok((st, prog)) => {
                if st.ts < s.len() {
                    Err(error_at(st))
                } else {
                    Ok(prog)
                }
            },
        }
    }
}

/// Folds two constants, or emits the code that combines a left operand,
/// already in `out`, with a right operand whose code is in `be`.
fn emit_binary(op: BinOp, v: BytecodeValue, v2: BytecodeValue, be: &mut BytecodeExp, out: &mut BytecodeExp) -> (r: Option<BytecodeValue>)
    ensures
        match combine(op, v, old(out)@, v2, old(be)@) {
            Some((nv, nc)) => r == Some(nv) && final(out)@ == nc,
            None => r is None,
        },
{
    let ghost c = out@;
    let ghost c2 = be@;
    if !v.is_none() && !v2.is_none() {
        Some(apply_binary(op, v, v2))
    } else if op == BinOp::BlAnd || op == BinOp::BlOr {
        be.append_value(v2);
        let n = be.len();
        if n >= 0x7fff_ffff {
            return None;
        }
        out.append_value(v);
        let on_true = op == BinOp::BlOr;
        if n > 254 {
            out.append_i32_p(if on_true { OC_JNZ } else { OC_JZ }, (n + 1) as i32);
            proof {
                assert(((n + 1) as i32) as u32 == (n + 1) as u32) by (bit_vector)
                    requires
                        n < 0x7fff_ffff,
                ;
            }
        } else {
            out.append(&[if on_true { OC_JNZ8 } else { OC_JZ8 }, (n + 1) as u8]);
        }
        out.append(&[OC_POP]);
        let bytes = be.as_bytes();
        out.append(bytes.as_slice());
        Some(BytecodeValue::NonConst)
    } else {
        out.append_value(v);
        let bytes = be.as_bytes();
        out.append(bytes.as_slice());
        out.append_value(v2);
        out.append(&[op.opcode()]);
        Some(BytecodeValue::NonConst)
    }
}

/// The constant a numeric token denotes: an integer literal, saturated to
/// the 32-bit range. A fractional or exponent literal gives `NonConst`: this
/// value model holds no floating point.
pub open spec fn number_spec(t: Seq<char>) -> BytecodeValue {
    if t.len() > 0 && all_digits(t) {
        int_value(clamp_i32(digits_value(t) as int) as int)
    } else {
        BytecodeValue::NonConst
    }
}

/// Reads a numeric token; see [`number_spec`].
pub fn number(t: &[char]) -> (r: BytecodeValue)
    ensures
        r == number_spec(t@),
{
    if t.len() == 0 || !all_digit_chars(t) {
        return BytecodeValue::NonConst;
    }
    let i = atoi(t);
    proof {
        assert(t@[0] != '-' && t@[0] != '+') by {
            assert(is_digit(t@[0]));
        }
    }
    BytecodeValue::Int(i as i64)
}

fn all_digit_chars(t: &[char]) -> (r: bool)
    ensures
        r == all_digits(t@),
{
    let mut k: usize = 0;
    while k < t.len()
        invariant
            0 <= k <= t@.len(),
            forall|j: int| 0 <= j < k ==> is_digit(#[trigger] t@[j]),
        decreases t@.len() - k,
    {
        if !('0' <= t[k] && t[k] <= '9') {
            proof {
                assert(!is_digit(t@[k as int]));
            }
            return false;
        }
        k = k + 1;
    }
    true
}

fn is_ident_start_char(c: char) -> (r: bool)
    ensures
        r == is_ident_start(c),
{
    let specials = special_symbols();
    !contains_char(specials.as_slice(), c) && !('0' <= c && c <= '9') && c != '.' && c != '~'
}

} // verus!
