use vstd::prelude::*;
use crate::expression::{lemma_terms_concat, lemma_terms_len, terms_of, term_of, Atom, Escape, Expression, Leaf, Numeric, Term};
use crate::grammar::{
    advanced, alnum_end, cdot_tag, char_at, concat_rows, digits_end, digits_value, escape_at,
    escape_kind, frac_at, frac_tag, function_at, group_at, group_close, is_alphabetic,
    is_alphanumeric, is_digit, leaf_at, left_brace, left_paren, list_at, matches_at, matrix_at,
    name_span, numeric_at, parse_start, parse_text, MAX_DEPTH, power_at, product_at, product_rest, right_of, rows_at, rows_even,
    skip_spaces, sum_at, sum_rest, unary_at, variable_at, vector_at, ErrorKind, Outcome,
};

verus! {

/// Relies on `char::is_alphabetic`: whether the character has the Unicode
/// Alphabetic property, which depends on the character alone.
#[verifier::external_body]
fn alphabetic(c: char) -> (r: bool)
    ensures
        r == is_alphabetic(c),
{
    c.is_alphabetic()
}

/// Relies on `char::is_alphanumeric`: whether the character is alphabetic or
/// numeric in Unicode, which depends on the character alone.
#[verifier::external_body]
fn alphanumeric(c: char) -> (r: bool)
    ensures
        r == is_alphanumeric(c),
{
    c.is_alphanumeric()
}

/// Relies on `str::chars` and `collect`: the characters of the text, in order.
#[verifier::external_body]
pub(crate) fn chars_of(text: &str) -> (r: Vec<char>)
    ensures
        r@ == text@,
{
    text.chars().collect()
}

fn char_is(s: &Vec<char>, p: usize, c: char) -> (r: bool)
    ensures
        r == char_at(s@, p as int, c),
        s@.len() == s.len(),
{
    p < s.len() && s[p] == c
}

fn char_of(s: &Vec<char>, p: usize) -> (c: char)
    requires
        p < s@.len(),
    ensures
        c == s@[p as int],
{
    s[p]
}

fn tag_is(s: &Vec<char>, p: usize, t: &[char]) -> (r: bool)
    ensures
        r == matches_at(s@, p as int, t@),
{
    if p > s.len() || t.len() > s.len() - p {
        return false;
    }
    let mut i: usize = 0;
    while i < t.len()
        invariant
            p <= s@.len(),
            p + t@.len() <= s@.len(),
            s@.len() == s.len(),
            t@.len() == t.len(),
            0 <= i <= t@.len(),
            forall|j: int| 0 <= j < i ==> s@[p + j] == t@[j],
        decreases t@.len() - i,
    {
        if s[p + i] != t[i] {
            return false;
        }
        i = i + 1;
    }
    true
}

fn skip(s: &Vec<char>, p: usize) -> (r: usize)
    requires
        p <= s@.len(),
    ensures
        r == skip_spaces(s@, p as int),
        p <= r <= s@.len(),
{
    let mut q = p;
    while q < s.len() && (s[q] == ' ' || s[q] == '\t')
        invariant
            p <= q <= s@.len(),
            skip_spaces(s@, q as int) == skip_spaces(s@, p as int),
        decreases s@.len() - q,
    {
        q = q + 1;
    }
    q
}

fn digits_end_of(s: &Vec<char>, p: usize) -> (r: usize)
    requires
        p <= s@.len(),
    ensures
        r == digits_end(s@, p as int),
        p <= r <= s@.len(),
{
    let mut q = p;
    while q < s.len() && '0' <= s[q] && s[q] <= '9'
        invariant
            p <= q <= s@.len(),
            digits_end(s@, q as int) == digits_end(s@, p as int),
        decreases s@.len() - q,
    {
        q = q + 1;
    }
    q
}

fn alnum_end_of(s: &Vec<char>, p: usize) -> (r: usize)
    requires
        p <= s@.len(),
    ensures
        r == alnum_end(s@, p as int),
        p <= r <= s@.len(),
{
    let mut q = p;
    while q < s.len() && alphanumeric(s[q])
        invariant
            p <= q <= s@.len(),
            alnum_end(s@, q as int) == alnum_end(s@, p as int),
        decreases s@.len() - q,
    {
        q = q + 1;
    }
    q
}


/// A parse failure: what went wrong, and the character position where it was found.
#[derive(Clone, Copy, Debug, PartialEq, Eq, Structural)]
pub struct ParseError {
    pub kind: ErrorKind,
    pub position: usize,
}

/// What a rule returns: a tree and the position after it, no match, or a failure.
pub type Step = Result<Option<(Expression, usize)>, ParseError>;

pub open spec fn agrees(r: Step, o: Outcome<Term>) -> bool {
    match r {
        Ok(Some((e, q))) => o == Outcome::Parsed(term_of(e), q as int),
        Ok(None) => o is NoMatch,
        Err(x) => o == Outcome::<Term>::Failed(x.kind, x.position as int),
    }
}

pub open spec fn ends_within(r: Step, s: Seq<char>, p: int) -> bool {
    match r {
        Ok(Some((_, q))) => advanced(s, p, q as int),
        _ => true,
    }
}

/// Relies on `String::from_iter` over `&char` items: a string of those
/// characters, in order.
#[verifier::external_body]
fn string_of(v: &[char]) -> (r: String)
    ensures
        r@ == v@,
{
    String::from_iter(v)
}

/// The characters `s[from..to]` as a string.
pub(crate) fn string_from(s: &Vec<char>, from: usize, to: usize) -> (r: String)
    requires
        from <= to <= s@.len(),
    ensures
        r@ == s@.subrange(from as int, to as int),
{
    string_of(vstd::slice::slice_subrange(s.as_slice(), from, to))
}

proof fn lemma_digits_end(s: Seq<char>, p: int)
    requires
        0 <= p <= s.len(),
    ensures
        p <= digits_end(s, p) <= s.len(),
        forall|j: int| p <= j < digits_end(s, p) ==> is_digit(#[trigger] s[j]),
    decreases s.len() - p,
{
    if p < s.len() && is_digit(s[p]) {
        lemma_digits_end(s, p + 1);
    }
}

/// The value of the digits `s[from..to]`, or `cap` where it is `cap` or more.
fn digits_value_capped(s: &Vec<char>, from: usize, to: usize, cap: u64) -> (r: u64)
    requires
        from <= to <= s@.len(),
        cap <= 0x1_0000_0000,
        forall|j: int| from <= j < to ==> is_digit(#[trigger] s@[j]),
    ensures
        r == (if digits_value(s@.subrange(from as int, to as int)) < cap {
            digits_value(s@.subrange(from as int, to as int))
        } else {
            cap as nat
        }),
{
    let mut acc: u64 = 0;
    let mut i = from;
    while i < to
        invariant
            from <= i <= to <= s@.len(),
            cap <= 0x1_0000_0000,
            forall|j: int| from <= j < to ==> is_digit(#[trigger] s@[j]),
            acc == (if digits_value(s@.subrange(from as int, i as int)) < cap {
                digits_value(s@.subrange(from as int, i as int))
            } else {
                cap as nat
            }),
        decreases to - i,
    {
        let ghost before = digits_value(s@.subrange(from as int, i as int));
        let c = char_of(s, i);
        assert(is_digit(s@[i as int]));
        let digit = (c as u32 - '0' as u32) as u64;
        assert(s@.subrange(from as int, i + 1).drop_last() =~= s@.subrange(from as int, i as int));
        let ghost after = digits_value(s@.subrange(from as int, i + 1));
        assert(after == before * 10 + digit);
        if acc >= cap {
            assert(before >= cap);
            assert(after >= cap) by (nonlinear_arith)
                requires after == before * 10 + digit, before >= cap;
            acc = cap;
        } else {
            assert(acc * 10 + digit <= 0x1_0000_0000 * 10 + 9) by (nonlinear_arith)
                requires acc < cap, cap <= 0x1_0000_0000, digit <= 9;
            let v = acc * 10 + digit;
            if v >= cap {
                acc = cap;
            } else {
                acc = v;
            }
        }
        i = i + 1;
    }
    acc
}

/// A numeric literal at `p`.
fn parse_numeric(s: &Vec<char>, p: usize) -> (r: Step)
    requires
        p <= s@.len(),
    ensures
        agrees(r, numeric_at(s@, p as int)),
        ends_within(r, s@, p as int),
{
    let int_end = digits_end_of(s, p);
    if char_is(s, int_end, '.') {
        let end = digits_end_of(s, int_end + 1);
        if end - p >= 2 {
            let text = string_from(s, p, end);
            let q = skip(s, end);
            Ok(Some((Expression::Atom(Atom::Numeric(Numeric::Decimal(text))), q)))
        } else {
            Ok(None)
        }
    } else if int_end > p {
        proof {
            lemma_digits_end(s@, p as int);
        }
        let v = digits_value_capped(s, p, int_end, 0x8000_0000);
        if v <= 0x7fff_ffff {
            let q = skip(s, int_end);
            Ok(Some((Expression::Atom(Atom::Numeric(Numeric::Integer(v as i32))), q)))
        } else {
            Err(ParseError { kind: ErrorKind::InvalidNumericLiteral, position: p })
        }
    } else {
        Ok(None)
    }
}

fn escape_of(c: char) -> (r: Option<Escape>)
    ensures
        r == escape_kind(c),
{
    if c == 'A' {
        Some(Escape::Atom)
    } else if c == 'F' {
        Some(Escape::Function)
    } else if c == 'V' {
        Some(Escape::Vector)
    } else if c == 'M' {
        Some(Escape::Matrix)
    } else if c == '*' {
        Some(Escape::Everything)
    } else {
        None
    }
}

/// An escape placeholder at `p`.
fn parse_escape(s: &Vec<char>, p: usize) -> (r: Step)
    requires
        p <= s@.len(),
    ensures
        agrees(r, escape_at(s@, p as int)),
        ends_within(r, s@, p as int),
{
    if char_is(s, p, '_') && 2 < s.len() - p && '0' <= char_of(s, p + 2) && char_of(s, p + 2)
        <= '9' {
        match escape_of(char_of(s, p + 1)) {
            Some(kind) => {
                let end = digits_end_of(s, p + 2);
                proof {
                    lemma_digits_end(s@, p + 2);
                }
                let v = digits_value_capped(s, p + 2, end, 256);
                if v <= 255 {
                    let q = skip(s, end);
                    Ok(Some((Expression::Atom(Atom::Escape(kind, v as u8)), q)))
                } else {
                    Err(ParseError { kind: ErrorKind::InvalidNumericLiteral, position: p })
                }
            },
            None => Ok(None),
        }
    } else {
        Ok(None)
    }
}

/// The character at `p` as a variable.
fn parse_variable(s: &Vec<char>, p: usize) -> (r: Step)
    requires
        p <= s@.len(),
    ensures
        agrees(r, variable_at(s@, p as int)),
        ends_within(r, s@, p as int),
{
    if p < s.len() {
        let q = skip(s, p + 1);
        Ok(Some((Expression::Atom(Atom::Variable(char_of(s, p))), q)))
    } else {
        Ok(None)
    }
}


/// A binary operator of the grammar.
#[derive(Clone, Copy, Debug, PartialEq, Eq, Structural)]
pub enum BinaryOp {
    Add,
    Subtract,
    Multiply,
    Divide,
    Power,
    Modulus,
}

pub open spec fn combine(op: BinaryOp, l: Term, r: Term) -> Term {
    match op {
        BinaryOp::Add => Term::Add(Box::new(l), Box::new(r)),
        BinaryOp::Subtract => Term::Subtract(Box::new(l), Box::new(r)),
        BinaryOp::Multiply => Term::Multiply(Box::new(l), Box::new(r)),
        BinaryOp::Divide => Term::Divide(Box::new(l), Box::new(r)),
        BinaryOp::Power => Term::Power(Box::new(l), Box::new(r)),
        BinaryOp::Modulus => Term::Modulus(Box::new(l), Box::new(r)),
    }
}

/// The node that applies `op` to two operands.
pub fn parse_binary_op(op: BinaryOp, left: Expression, right: Expression) -> (r: Expression)
    ensures
        term_of(r) == combine(op, term_of(left), term_of(right)),
{
    match op {
        BinaryOp::Add => Expression::Add(Box::new(left), Box::new(right)),
        BinaryOp::Subtract => Expression::Subtract(Box::new(left), Box::new(right)),
        BinaryOp::Multiply => Expression::Multiply(Box::new(left), Box::new(right)),
        BinaryOp::Divide => Expression::Divide(Box::new(left), Box::new(right)),
        BinaryOp::Power => Expression::Power(Box::new(left), Box::new(right)),
        BinaryOp::Modulus => Expression::Modulus(Box::new(left), Box::new(right)),
    }
}

/// The negation of an operand.
pub fn parse_unary_prefix_op(operand: Expression) -> (r: Expression)
    ensures
        term_of(r) == Term::Negate(Box::new(term_of(operand))),
{
    Expression::Negate(Box::new(operand))
}

/// The factorial of an operand.
pub fn parse_unary_postfix_op(operand: Expression) -> (r: Expression)
    ensures
        term_of(r) == Term::Factorial(Box::new(term_of(operand))),
{
    Expression::Factorial(Box::new(operand))
}

fn at_left_paren(s: &Vec<char>, p: usize) -> (r: bool)
    ensures
        r == matches_at(s@, p as int, left_paren()),
{
    let t = ['\\', 'l', 'e', 'f', 't', '('];
    assert(t@ =~= left_paren());
    tag_is(s, p, &t)
}

fn at_left_brace(s: &Vec<char>, p: usize) -> (r: bool)
    ensures
        r == matches_at(s@, p as int, left_brace()),
{
    let t = ['\\', 'l', 'e', 'f', 't', '{'];
    assert(t@ =~= left_brace());
    tag_is(s, p, &t)
}

fn at_frac(s: &Vec<char>, p: usize) -> (r: bool)
    ensures
        r == matches_at(s@, p as int, frac_tag()),
{
    let t = ['\\', 'f', 'r', 'a', 'c'];
    assert(t@ =~= frac_tag());
    tag_is(s, p, &t)
}

fn at_cdot(s: &Vec<char>, p: usize) -> (r: bool)
    ensures
        r == matches_at(s@, p as int, cdot_tag()),
{
    let t = ['\\', 'c', 'd', 'o', 't'];
    assert(t@ =~= cdot_tag());
    tag_is(s, p, &t)
}

/// The position after `close` or `\right` and `close` at `p`.
fn close_at(s: &Vec<char>, p: usize, close: char) -> (r: Option<usize>)
    requires
        p <= s@.len(),
    ensures
        match r {
            Some(x) => group_close(s@, p as int, close) == Some(x as int) && x <= s@.len(),
            None => group_close(s@, p as int, close) is None,
        },
{
    if char_is(s, p, close) {
        Some(p + 1)
    } else {
        let t = ['\\', 'r', 'i', 'g', 'h', 't', close];
        assert(t@ =~= right_of(close));
        if tag_is(s, p, &t) {
            Some(p + 7)
        } else {
            None
        }
    }
}

pub type ListStep = Result<Option<(Vec<Box<Expression>>, usize)>, ParseError>;

pub type RowsStep = Result<Option<(Vec<Vec<Box<Expression>>>, usize)>, ParseError>;

pub open spec fn rows_terms(v: Seq<Vec<Box<Expression>>>) -> Seq<Seq<Term>> {
    v.map_values(|r: Vec<Box<Expression>>| terms_of(r@))
}

pub open spec fn agrees_list(r: ListStep, o: Outcome<Seq<Term>>) -> bool {
    match r {
        Ok(Some((v, q))) => o == Outcome::Parsed(terms_of(v@), q as int),
        Ok(None) => o is NoMatch,
        Err(x) => o == Outcome::<Seq<Term>>::Failed(x.kind, x.position as int),
    }
}

pub open spec fn agrees_rows(r: RowsStep, o: Outcome<Seq<Seq<Term>>>) -> bool {
    match r {
        Ok(Some((v, q))) => o == Outcome::Parsed(rows_terms(v@), q as int),
        Ok(None) => o is NoMatch,
        Err(x) => o == Outcome::<Seq<Seq<Term>>>::Failed(x.kind, x.position as int),
    }
}

pub open spec fn list_within(r: ListStep, s: Seq<char>, p: int) -> bool {
    match r {
        Ok(Some((_, q))) => advanced(s, p, q as int),
        _ => true,
    }
}

pub open spec fn rows_within(r: RowsStep, s: Seq<char>, p: int) -> bool {
    match r {
        Ok(Some((_, q))) => advanced(s, p, q as int),
        _ => true,
    }
}

/// Additive layer.
fn parse_add_sub(s: &Vec<char>, p: usize, d: usize) -> (r: Step)
    requires
        p <= s@.len(),
    ensures
        agrees(r, sum_at(s@, p as int, d as nat)),
        ends_within(r, s@, p as int),
    decreases s@.len() - p, 9nat,
{
    match parse_mult_div_mod(s, p, d) {
        Ok(Some((e, q))) => sum_tail(s, q, d, e),
        Ok(None) => Ok(None),
        Err(x) => Err(x),
    }
}

fn sum_tail(s: &Vec<char>, p: usize, d: usize, first: Expression) -> (r: Step)
    requires
        p <= s@.len(),
    ensures
        agrees(r, sum_rest(s@, p as int, d as nat, term_of(first))),
        ends_within(r, s@, p as int),
    decreases s@.len() - p, 8nat,
{
    let ghost goal = sum_rest(s@, p as int, d as nat, term_of(first));
    let mut acc = first;
    let mut at = p;
    loop
        invariant
            p <= at <= s@.len(),
            sum_rest(s@, at as int, d as nat, term_of(acc)) == goal,
            goal == sum_rest(s@, p as int, d as nat, term_of(first)),
        decreases s@.len() - at,
    {
        let plus = char_is(s, at, '+');
        if !(plus || char_is(s, at, '-')) {
            return Ok(Some((acc, at)));
        }
        match parse_mult_div_mod(s, at + 1, d) {
            Ok(Some((e, q))) => {
                let op = if plus {
                    BinaryOp::Add
                } else {
                    BinaryOp::Subtract
                };
                acc = parse_binary_op(op, acc, e);
                at = q;
            },
            Ok(None) => {
                return Ok(Some((acc, at)));
            },
            Err(x) => {
                return Err(x);
            },
        }
    }
}

/// Multiplicative layer.
fn parse_mult_div_mod(s: &Vec<char>, p: usize, d: usize) -> (r: Step)
    requires
        p <= s@.len(),
    ensures
        agrees(r, product_at(s@, p as int, d as nat)),
        ends_within(r, s@, p as int),
    decreases s@.len() - p, 7nat,
{
    match parse_unary(s, p, d) {
        Ok(Some((e, q))) => product_tail(s, q, d, e),
        Ok(None) => Ok(None),
        Err(x) => Err(x),
    }
}

fn product_tail(s: &Vec<char>, p: usize, d: usize, first: Expression) -> (r: Step)
    requires
        p <= s@.len(),
    ensures
        agrees(r, product_rest(s@, p as int, d as nat, term_of(first))),
        ends_within(r, s@, p as int),
    decreases s@.len() - p, 6nat,
{
    let ghost goal = product_rest(s@, p as int, d as nat, term_of(first));
    let mut acc = first;
    let mut at = p;
    loop
        invariant
            p <= at <= s@.len(),
            product_rest(s@, at as int, d as nat, term_of(acc)) == goal,
            goal == product_rest(s@, p as int, d as nat, term_of(first)),
        decreases s@.len() - at,
    {
        let cdot = at_cdot(s, at);
        let slash = char_is(s, at, '/');
        if !(cdot || slash || char_is(s, at, '%')) {
            return Ok(Some((acc, at)));
        }
        let n = if cdot {
            at + 5
        } else {
            at + 1
        };
        match parse_unary(s, n, d) {
            Ok(Some((e, q))) => {
                let op = if cdot {
                    BinaryOp::Multiply
                } else if slash {
                    BinaryOp::Divide
                } else {
                    BinaryOp::Modulus
                };
                acc = parse_binary_op(op, acc, e);
                at = q;
            },
            Ok(None) => {
                return Ok(Some((acc, at)));
            },
            Err(x) => {
                return Err(x);
            },
        }
    }
}

/// Unary layer: a negation, or a power.
fn parse_unary(s: &Vec<char>, p: usize, d: usize) -> (r: Step)
    requires
        p <= s@.len(),
    ensures
        agrees(r, unary_at(s@, p as int, d as nat)),
        ends_within(r, s@, p as int),
    decreases s@.len() - p, 5nat,
{
    let b = skip(s, p);
    if char_is(s, b, '-') {
        if d == 0 {
            return Err(ParseError { kind: ErrorKind::StackDepthExceeded, position: b });
        }
        match parse_unary(s, b + 1, d - 1) {
            Ok(Some((e, q))) => {
                let t = skip(s, q);
                return Ok(Some((parse_unary_prefix_op(e), t)));
            },
            Ok(None) => {},
            Err(x) => {
                return Err(x);
            },
        }
    }
    parse_exponents(s, p, d)
}

/// Exponent layer.
fn parse_exponents(s: &Vec<char>, p: usize, d: usize) -> (r: Step)
    requires
        p <= s@.len(),
    ensures
        agrees(r, power_at(s@, p as int, d as nat)),
        ends_within(r, s@, p as int),
    decreases s@.len() - p, 4nat,
{
    match parse_recursive(s, p, d) {
        Ok(Some((b0, q0))) => {
            let (b, q) = if char_is(s, q0, '!') {
                (parse_unary_postfix_op(b0), skip(s, q0 + 1))
            } else {
                (b0, q0)
            };
            if char_is(s, q, '^') {
                if d == 0 {
                    return Err(ParseError { kind: ErrorKind::StackDepthExceeded, position: q });
                }
                match parse_exponents(s, q + 1, d - 1) {
                    Ok(Some((x, r))) => Ok(Some((parse_binary_op(BinaryOp::Power, b, x), r))),
                    Ok(None) => Ok(Some((b, q))),
                    Err(x) => Err(x),
                }
            } else {
                Ok(Some((b, q)))
            }
        },
        Ok(None) => Ok(None),
        Err(x) => Err(x),
    }
}

/// Leaf layer: the first alternative that matches.
fn parse_recursive(s: &Vec<char>, p: usize, d: usize) -> (r: Step)
    requires
        p <= s@.len(),
    ensures
        agrees(r, leaf_at(s@, p as int, d as nat)),
        ends_within(r, s@, p as int),
    decreases s@.len() - p, 3nat,
{
    let b = skip(s, p);
    let r = parse_parentheses(s, b, d);
    if !matches!(r, Ok(None)) {
        return r;
    }
    let r = parse_frac(s, b, d);
    if !matches!(r, Ok(None)) {
        return r;
    }
    let r = parse_vector(s, b, d);
    if !matches!(r, Ok(None)) {
        return r;
    }
    let r = parse_matrix(s, b, d);
    if !matches!(r, Ok(None)) {
        return r;
    }
    let r = parse_numeric(s, b);
    if !matches!(r, Ok(None)) {
        return r;
    }
    let r = parse_function(s, b, d);
    if !matches!(r, Ok(None)) {
        return r;
    }
    let r = parse_escape(s, b);
    if !matches!(r, Ok(None)) {
        return r;
    }
    parse_variable(s, b)
}

/// A parenthesized or braced expression.
fn parse_parentheses(s: &Vec<char>, p: usize, d: usize) -> (r: Step)
    requires
        p <= s@.len(),
    ensures
        agrees(r, group_at(s@, p as int, d as nat)),
        ends_within(r, s@, p as int),
    decreases s@.len() - p, 2nat,
{
    let (inner, close) = if char_is(s, p, '(') {
        (p + 1, ')')
    } else if at_left_paren(s, p) {
        (p + 6, ')')
    } else if char_is(s, p, '{') {
        (p + 1, '}')
    } else if at_left_brace(s, p) {
        (p + 6, '}')
    } else {
        return Ok(None);
    };
    if d == 0 {
        return Err(ParseError { kind: ErrorKind::StackDepthExceeded, position: p });
    }
    match parse_add_sub(s, inner, d - 1) {
        Ok(Some((e, q))) => match close_at(s, q, close) {
            Some(r) => {
                let t = skip(s, r);
                Ok(Some((e, t)))
            },
            None => Ok(None),
        },
        Ok(None) => Ok(None),
        Err(x) => Err(x),
    }
}

/// `\\frac{numerator}{denominator}`.
fn parse_frac(s: &Vec<char>, p: usize, d: usize) -> (r: Step)
    requires
        p <= s@.len(),
    ensures
        agrees(r, frac_at(s@, p as int, d as nat)),
        ends_within(r, s@, p as int),
    decreases s@.len() - p, 2nat,
{
    if !(at_frac(s, p) && 5 < s.len() - p && char_is(s, p + 5, '{')) {
        return Ok(None);
    }
    if d == 0 {
        return Err(ParseError { kind: ErrorKind::StackDepthExceeded, position: p });
    }
    match parse_add_sub(s, p + 6, d - 1) {
        Ok(Some((num, q))) => {
            if !(char_is(s, q, '}') && char_is(s, q + 1, '{')) {
                return Ok(None);
            }
            match parse_add_sub(s, q + 2, d - 1) {
                Ok(Some((den, r))) => {
                    if char_is(s, r, '}') {
                        let t = skip(s, r + 1);
                        Ok(Some((parse_binary_op(BinaryOp::Divide, num, den), t)))
                    } else {
                        Ok(None)
                    }
                },
                Ok(None) => Ok(None),
                Err(x) => Err(x),
            }
        },
        Ok(None) => Ok(None),
        Err(x) => Err(x),
    }
}

/// The outcome `o` of a list rule, with `xs` put in front of what it parsed.
pub open spec fn after<A>(xs: Seq<A>, o: Outcome<Seq<A>>) -> Outcome<Seq<A>> {
    match o {
        Outcome::Parsed(es, r) => Outcome::Parsed(xs + es, r),
        o => o,
    }
}

proof fn lemma_after<A>(xs: Seq<A>, ys: Seq<A>, o: Outcome<Seq<A>>)
    ensures
        after(xs, after(ys, o)) == after(xs + ys, o),
        after(Seq::<A>::empty(), o) == o,
{
    match o {
        Outcome::Parsed(es, r) => {
            assert(xs + (ys + es) =~= (xs + ys) + es);
            assert(Seq::<A>::empty() + es =~= es);
        },
        _ => {},
    }
}

/// One or more comma-separated expressions.
fn parse_list(s: &Vec<char>, p: usize, d: usize) -> (r: ListStep)
    requires
        p <= s@.len(),
    ensures
        agrees_list(r, list_at(s@, p as int, d as nat)),
        list_within(r, s@, p as int),
    decreases s@.len() - p, 11nat,
{
    let ghost goal = list_at(s@, p as int, d as nat);
    let mut items: Vec<Box<Expression>> = Vec::new();
    let mut at = p;
    proof {
        lemma_after(Seq::<Term>::empty(), Seq::<Term>::empty(), goal);
        assert(terms_of(items@) =~= Seq::<Term>::empty());
    }
    loop
        invariant
            p <= at <= s@.len(),
            goal == list_at(s@, p as int, d as nat),
            goal == after(terms_of(items@), list_at(s@, at as int, d as nat)),
        decreases s@.len() - at,
    {
        match parse_add_sub(s, at, d) {
            Ok(Some((e, q))) => {
                let ghost before = items@;
                let ghost te = term_of(e);
                items.push(Box::new(e));
                proof {
                    assert(items@.drop_last() =~= before);
                    assert(terms_of(items@) == terms_of(before).push(te));
                    assert(terms_of(before).push(te) =~= terms_of(before) + seq![te]);
                    lemma_after(terms_of(before), seq![te], list_at(s@, q + 1, d as nat));
                }
                if char_is(s, q, ',') {
                    at = q + 1;
                } else {
                    return Ok(Some((items, q)));
                }
            },
            Ok(None) => {
                return Ok(None);
            },
            Err(x) => {
                return Err(x);
            },
        }
    }
}

/// One or more semicolon-separated rows.
fn parse_rows(s: &Vec<char>, p: usize, d: usize) -> (r: RowsStep)
    requires
        p <= s@.len(),
    ensures
        agrees_rows(r, rows_at(s@, p as int, d as nat)),
        rows_within(r, s@, p as int),
    decreases s@.len() - p, 12nat,
{
    let ghost goal = rows_at(s@, p as int, d as nat);
    let mut rows: Vec<Vec<Box<Expression>>> = Vec::new();
    let mut at = p;
    proof {
        lemma_after(Seq::<Seq<Term>>::empty(), Seq::<Seq<Term>>::empty(), goal);
        assert(rows_terms(rows@) =~= Seq::<Seq<Term>>::empty());
    }
    loop
        invariant
            p <= at <= s@.len(),
            goal == rows_at(s@, p as int, d as nat),
            goal == after(rows_terms(rows@), rows_at(s@, at as int, d as nat)),
        decreases s@.len() - at,
    {
        match parse_list(s, at, d) {
            Ok(Some((row, q))) => {
                let ghost before = rows@;
                let ghost tr = terms_of(row@);
                rows.push(row);
                proof {
                    assert(rows_terms(rows@) =~= rows_terms(before) + seq![tr]);
                    lemma_after(rows_terms(before), seq![tr], rows_at(s@, q + 1, d as nat));
                }
                if char_is(s, q, ';') {
                    at = q + 1;
                } else {
                    return Ok(Some((rows, q)));
                }
            },
            Ok(None) => {
                return Ok(None);
            },
            Err(x) => {
                return Err(x);
            },
        }
    }
}

/// `<e1,...,en>`.
fn parse_vector(s: &Vec<char>, p: usize, d: usize) -> (r: Step)
    requires
        p <= s@.len(),
    ensures
        agrees(r, vector_at(s@, p as int, d as nat)),
        ends_within(r, s@, p as int),
    decreases s@.len() - p, 2nat,
{
    if !char_is(s, p, '<') {
        return Ok(None);
    }
    if d == 0 {
        return Err(ParseError { kind: ErrorKind::StackDepthExceeded, position: p });
    }
    if char_is(s, skip(s, p + 1), '>') {
        return Err(ParseError { kind: ErrorKind::EmptyArgumentList, position: p });
    }
    match parse_list(s, p + 1, d - 1) {
        Ok(Some((items, q))) => {
            if char_is(s, q, '>') {
                let t = skip(s, q + 1);
                proof {
                    lemma_terms_len(items@);
                }
                Ok(Some((Expression::Vector { size: items.len(), backing: items }, t)))
            } else {
                Ok(None)
            }
        },
        Ok(None) => Ok(None),
        Err(x) => Err(x),
    }
}

/// The rows of a matrix one after another, with the row count and the
/// common row length, or `None` where two rows differ in length.
fn flatten_rows(input: Vec<Vec<Box<Expression>>>) -> (r: Option<(Vec<Box<Expression>>, usize, usize)>)
    requires
        input@.len() > 0,
    ensures
        match r {
            Some((flat, nr, nc)) => rows_even(rows_terms(input@)) && terms_of(flat@) == concat_rows(
                rows_terms(input@),
            ) && nr == input@.len() && nc == rows_terms(input@)[0].len(),
            None => !rows_even(rows_terms(input@)),
        },
{
    let ghost all = rows_terms(input@);
    let nr = input.len();
    let nc = input[0].len();
    let mut rows = input;
    let mut flat: Vec<Box<Expression>> = Vec::new();
    let mut i: usize = 0;
    proof {
        lemma_terms_len(rows@[0]@);
        assert(all.take(0) =~= Seq::<Seq<Term>>::empty());
    }
    while rows.len() > 0
        invariant
            i + rows@.len() == nr,
            all == rows_terms(input@),
            all.len() == nr,
            nc == all[0].len(),
            rows_terms(rows@) =~= all.skip(i as int),
            terms_of(flat@) == concat_rows(all.take(i as int)),
            forall|j: int| 0 <= j < i ==> #[trigger] all[j].len() == nc,
        decreases rows@.len(),
    {
        let ghost before = rows@;
        let ghost bt = rows_terms(before);
        let mut row = rows.remove(0);
        assert(rows@ =~= before.subrange(1, before.len() as int));
        assert(rows_terms(rows@) =~= bt.subrange(1, bt.len() as int));
        assert(all[i as int] == terms_of(row@)) by {
            assert(rows_terms(before)[0] == all.skip(i as int)[0]);
        }
        proof {
            lemma_terms_len(row@);
        }
        if row.len() != nc {
            assert(all[i as int].len() != all[0].len());
            assert(!rows_even(all));
            return None;
        }
        let ghost head = flat@;
        let ghost tail = row@;
        flat.append(&mut row);
        proof {
            lemma_terms_concat(head, tail);
            assert(all.take(i + 1).drop_last() =~= all.take(i as int));
        }
        i = i + 1;
        assert(rows_terms(rows@) =~= all.skip(i as int));
    }
    assert(all.take(i as int) =~= all);
    Some((flat, nr, nc))
}

/// `[r1;...;rn]`.
#[verifier::rlimit(40)]
fn parse_matrix(s: &Vec<char>, p: usize, d: usize) -> (r: Step)
    requires
        p <= s@.len(),
    ensures
        agrees(r, matrix_at(s@, p as int, d as nat)),
        ends_within(r, s@, p as int),
    decreases s@.len() - p, 2nat,
{
    if !char_is(s, p, '[') {
        return Ok(None);
    }
    if d == 0 {
        return Err(ParseError { kind: ErrorKind::StackDepthExceeded, position: p });
    }
    match parse_rows(s, p + 1, d - 1) {
        Ok(Some((rows, q))) => {
            if char_is(s, q, ']') {
                let ghost rs = rows_terms(rows@);
                assert(rs.len() == rows@.len());
                assert(rs.len() > 0);
                match flatten_rows(rows) {
                    Some((backing, nr, nc)) => {
                        let t = skip(s, q + 1);
                        assert(term_of(Expression::Matrix { shape: (nr, nc), backing }) == Term::Matrix {
                            rows: rs.len(),
                            cols: rs[0].len(),
                            backing: concat_rows(rs),
                        });
                        Ok(Some((Expression::Matrix { shape: (nr, nc), backing }, t)))
                    },
                    None => Err(ParseError { kind: ErrorKind::MatrixRowLengthMismatch, position: p }),
                }
            } else {
                Ok(None)
            }
        },
        Ok(None) => Ok(None),
        Err(x) => Err(x),
    }
}

/// The start and end of a function name at `p`.
fn name_at(s: &Vec<char>, p: usize) -> (r: Option<(usize, usize)>)
    requires
        p <= s@.len(),
    ensures
        match r {
            Some((b, n)) => name_span(s@, p as int) == Some((b as int, n as int)) && p <= b < n
                <= s@.len(),
            None => name_span(s@, p as int) is None,
        },
{
    let b = if char_is(s, p, '\\') {
        p + 1
    } else {
        p
    };
    if b < s.len() && alphabetic(char_of(s, b)) {
        let n = alnum_end_of(s, b + 1);
        Some((b, n))
    } else {
        None
    }
}

/// `name(a1,...,an)`.
fn parse_function(s: &Vec<char>, p: usize, d: usize) -> (r: Step)
    requires
        p <= s@.len(),
    ensures
        agrees(r, function_at(s@, p as int, d as nat)),
        ends_within(r, s@, p as int),
    decreases s@.len() - p, 2nat,
{
    match name_at(s, p) {
        Some((b, n)) => {
            let paren = char_is(s, n, '(');
            if !(paren || at_left_paren(s, n)) {
                return Ok(None);
            }
            let open = if paren {
                n + 1
            } else {
                n + 6
            };
            if d == 0 {
                return Err(ParseError { kind: ErrorKind::StackDepthExceeded, position: p });
            }
            if close_at(s, skip(s, open), ')').is_some() {
                return Err(ParseError { kind: ErrorKind::EmptyArgumentList, position: p });
            }
            match parse_list(s, open, d - 1) {
                Ok(Some((args, q))) => match close_at(s, q, ')') {
                    Some(r) => {
                        let name = string_from(s, b, n);
                        let t = skip(s, r);
                        Ok(Some((Expression::Function { name, args }, t)))
                    },
                    None => Ok(None),
                },
                Ok(None) => Ok(None),
                Err(x) => Err(x),
            }
        },
        None => Ok(None),
    }
}


/// Parses the whole text as one expression. Fails where the text does not
/// follow the grammar, where a literal does not fit its type, where the rows
/// of a matrix differ in length, or where the text nests too deeply.
pub fn parse(input: &str) -> (r: Result<Expression, ParseError>)
    ensures
        match r {
            Ok(e) => parse_text(input@) == Ok::<Term, (ErrorKind, int)>(term_of(e)),
            Err(x) => parse_text(input@) == Err::<Term, (ErrorKind, int)>((x.kind, x.position as int)),
        },
{
    let s = chars_of(input);
    match parse_add_sub(&s, 0, MAX_DEPTH) {
        Ok(Some((e, q))) => {
            if q == s.len() {
                Ok(e)
            } else {
                Err(ParseError { kind: ErrorKind::Syntax, position: q })
            }
        },
        Ok(None) => Err(ParseError { kind: ErrorKind::Syntax, position: skip(&s, 0) }),
        Err(x) => Err(x),
    }
}

/// Parses the longest expression at the start of the text, and returns it
/// with the number of characters it took; what follows is left alone.
pub fn parse_prefix(input: &str) -> (r: Result<(Expression, usize), ParseError>)
    ensures
        match r {
            Ok((e, n)) => parse_start(input@) == Ok::<(Term, int), (ErrorKind, int)>(
                (term_of(e), n as int),
            ),
            Err(x) => parse_start(input@) == Err::<(Term, int), (ErrorKind, int)>(
                (x.kind, x.position as int),
            ),
        },
{
    let s = chars_of(input);
    match parse_add_sub(&s, 0, MAX_DEPTH) {
        Ok(Some((e, q))) => Ok((e, q)),
        Ok(None) => Err(ParseError { kind: ErrorKind::Syntax, position: skip(&s, 0) }),
        Err(x) => Err(x),
    }
}

} // verus!
