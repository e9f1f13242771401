use vstd::prelude::*;
use crate::expression::{Escape, Leaf, Term};

verus! {

/// What went wrong when a text does not parse.
#[derive(Clone, Copy, Debug, PartialEq, Eq, Structural)]
pub enum ErrorKind {
    /// The text does not follow the grammar from this position on.
    Syntax,
    /// An integer literal does not fit in `i32`, or a slot index does not fit in `u8`.
    InvalidNumericLiteral,
    /// The rows of a matrix literal do not all have the same length.
    MatrixRowLengthMismatch,
    /// The expression nests deeper than the parser allows.
    StackDepthExceeded,
    /// A function call or a vector literal with nothing between its delimiters.
    EmptyArgumentList,
}

/// The outcome of one grammar rule at one position: a value and the position
/// after it, no match (the caller may try another alternative), or a failure
/// that ends the whole parse.
pub enum Outcome<T> {
    Parsed(T, int),
    NoMatch,
    Failed(ErrorKind, int),
}

/// How deeply groups, calls, literals, negations and exponents may nest.
pub const MAX_DEPTH: usize = 100;

pub open spec fn is_space(c: char) -> bool {
    c == ' ' || c == '\t'
}

pub open spec fn is_digit(c: char) -> bool {
    '0' <= c && c <= '9'
}

pub uninterp spec fn is_alphabetic(c: char) -> bool;

pub uninterp spec fn is_alphanumeric(c: char) -> bool;

pub open spec fn char_at(s: Seq<char>, p: int, c: char) -> bool {
    0 <= p < s.len() && s[p] == c
}

pub open spec fn matches_at(s: Seq<char>, p: int, t: Seq<char>) -> bool {
    0 <= p && p + t.len() <= s.len() && forall|i: int| 0 <= i < t.len() ==> s[p + i] == t[i]
}

pub open spec fn left_paren() -> Seq<char> {
    seq!['\\', 'l', 'e', 'f', 't', '(']
}

pub open spec fn left_brace() -> Seq<char> {
    seq!['\\', 'l', 'e', 'f', 't', '{']
}

pub open spec fn right_of(close: char) -> Seq<char> {
    seq!['\\', 'r', 'i', 'g', 'h', 't', close]
}

pub open spec fn frac_tag() -> Seq<char> {
    seq!['\\', 'f', 'r', 'a', 'c']
}

pub open spec fn cdot_tag() -> Seq<char> {
    seq!['\\', 'c', 'd', 'o', 't']
}

/// The first position at or after `p` that is not a space or a tab.
pub open spec fn skip_spaces(s: Seq<char>, p: int) -> int
    decreases s.len() - p,
{
    if 0 <= p < s.len() && is_space(s[p]) {
        skip_spaces(s, p + 1)
    } else {
        p
    }
}

/// The end of the run of decimal digits that starts at `p`.
pub open spec fn digits_end(s: Seq<char>, p: int) -> int
    decreases s.len() - p,
{
    if 0 <= p < s.len() && is_digit(s[p]) {
        digits_end(s, p + 1)
    } else {
        p
    }
}

/// The end of the run of alphanumeric characters that starts at `p`.
pub open spec fn alnum_end(s: Seq<char>, p: int) -> int
    decreases s.len() - p,
{
    if 0 <= p < s.len() && is_alphanumeric(s[p]) {
        alnum_end(s, p + 1)
    } else {
        p
    }
}

/// The value of a string of decimal digits.
pub open spec fn digits_value(t: Seq<char>) -> nat
    decreases t.len(),
{
    if t.len() == 0 {
        0
    } else {
        digits_value(t.drop_last()) * 10 + (t.last() as nat - '0' as nat) as nat
    }
}

pub open spec fn escape_kind(c: char) -> Option<Escape> {
    if c == 'A' {
        Some(Escape::Atom)
    } else if c == 'F' {
        Some(Escape::Function)
    } else if c == 'V' {
        Some(Escape::Vector)
    } else if c == 'M' {
        Some(Escape::Matrix)
    } else if c == '*' {
        Some(Escape::Everything)
    } else {
        None
    }
}

/// A position that a rule may return when it started at `p`.
pub open spec fn advanced(s: Seq<char>, p: int, q: int) -> bool {
    p <= q <= s.len()
}

pub open spec fn fail_as<A, B>(o: Outcome<A>) -> Outcome<B> {
    match o {
        Outcome::Failed(k, x) => Outcome::Failed(k, x),
        _ => Outcome::NoMatch,
    }
}

pub open spec fn or_else<A>(a: Outcome<A>, b: Outcome<A>) -> Outcome<A> {
    match a {
        Outcome::NoMatch => b,
        _ => a,
    }
}

/// A numeric literal at `p`: digits, with at most one decimal point, and at
/// least one digit. With a point it is a decimal, kept as written.
pub open spec fn numeric_at(s: Seq<char>, p: int) -> Outcome<Term> {
    let int_end = digits_end(s, p);
    if char_at(s, int_end, '.') {
        let end = digits_end(s, int_end + 1);
        if end - p >= 2 {
            Outcome::Parsed(Term::Atom(Leaf::Decimal(s.subrange(p, end))), skip_spaces(s, end))
        } else {
            Outcome::NoMatch
        }
    } else if int_end > p {
        let v = digits_value(s.subrange(p, int_end));
        if v <= i32::MAX {
            Outcome::Parsed(Term::Atom(Leaf::Integer(v as i32)), skip_spaces(s, int_end))
        } else {
            Outcome::Failed(ErrorKind::InvalidNumericLiteral, p)
        }
    } else {
        Outcome::NoMatch
    }
}

/// An escape placeholder at `p`: `_`, a kind letter, and a slot index.
pub open spec fn escape_at(s: Seq<char>, p: int) -> Outcome<Term> {
    if char_at(s, p, '_') && p + 2 < s.len() && escape_kind(s[p + 1]) is Some && is_digit(
        s[p + 2],
    ) {
        let end = digits_end(s, p + 2);
        let v = digits_value(s.subrange(p + 2, end));
        if v <= 255 {
            Outcome::Parsed(
                Term::Atom(Leaf::Escape(escape_kind(s[p + 1])->0, v as u8)),
                skip_spaces(s, end),
            )
        } else {
            Outcome::Failed(ErrorKind::InvalidNumericLiteral, p)
        }
    } else {
        Outcome::NoMatch
    }
}

/// The character at `p` as a one-letter variable.
pub open spec fn variable_at(s: Seq<char>, p: int) -> Outcome<Term> {
    if 0 <= p < s.len() {
        Outcome::Parsed(Term::Atom(Leaf::Variable(s[p])), skip_spaces(s, p + 1))
    } else {
        Outcome::NoMatch
    }
}

/// Additive layer: a product, then `+` or `-` and a product, folded to the left.
pub open spec fn sum_at(s: Seq<char>, p: int, d: nat) -> Outcome<Term>
    decreases s.len() - p, 9nat,
{
    match product_at(s, p, d) {
        Outcome::Parsed(e, q) => if advanced(s, p, q) {
            sum_rest(s, q, d, e)
        } else {
            Outcome::NoMatch
        },
        o => o,
    }
}

pub open spec fn sum_rest(s: Seq<char>, p: int, d: nat, acc: Term) -> Outcome<Term>
    decreases s.len() - p, 8nat,
{
    if char_at(s, p, '+') || char_at(s, p, '-') {
        match product_at(s, p + 1, d) {
            Outcome::Parsed(e, q) => if advanced(s, p + 1, q) {
                let next = if s[p] == '+' {
                    Term::Add(Box::new(acc), Box::new(e))
                } else {
                    Term::Subtract(Box::new(acc), Box::new(e))
                };
                sum_rest(s, q, d, next)
            } else {
                Outcome::NoMatch
            },
            Outcome::NoMatch => Outcome::Parsed(acc, p),
            Outcome::Failed(k, x) => Outcome::Failed(k, x),
        }
    } else {
        Outcome::Parsed(acc, p)
    }
}

/// Multiplicative layer: a unary expression, then `\cdot`, `/` or `%` and a
/// unary expression, folded to the left.
pub open spec fn product_at(s: Seq<char>, p: int, d: nat) -> Outcome<Term>
    decreases s.len() - p, 7nat,
{
    match unary_at(s, p, d) {
        Outcome::Parsed(e, q) => if advanced(s, p, q) {
            product_rest(s, q, d, e)
        } else {
            Outcome::NoMatch
        },
        o => o,
    }
}

pub open spec fn product_rest(s: Seq<char>, p: int, d: nat, acc: Term) -> Outcome<Term>
    decreases s.len() - p, 6nat,
{
    let n = if matches_at(s, p, cdot_tag()) {
        p + 5
    } else {
        p + 1
    };
    if matches_at(s, p, cdot_tag()) || char_at(s, p, '/') || char_at(s, p, '%') {
        match unary_at(s, n, d) {
            Outcome::Parsed(e, q) => if advanced(s, n, q) {
                let next = if matches_at(s, p, cdot_tag()) {
                    Term::Multiply(Box::new(acc), Box::new(e))
                } else if s[p] == '/' {
                    Term::Divide(Box::new(acc), Box::new(e))
                } else {
                    Term::Modulus(Box::new(acc), Box::new(e))
                };
                product_rest(s, q, d, next)
            } else {
                Outcome::NoMatch
            },
            Outcome::NoMatch => Outcome::Parsed(acc, p),
            Outcome::Failed(k, x) => Outcome::Failed(k, x),
        }
    } else {
        Outcome::Parsed(acc, p)
    }
}

/// Unary layer: `-` and a unary expression; else a power.
pub open spec fn unary_at(s: Seq<char>, p: int, d: nat) -> Outcome<Term>
    decreases s.len() - p, 5nat,
{
    let b = skip_spaces(s, p);
    let negated = if advanced(s, p, b) && char_at(s, b, '-') {
        if d == 0 {
            Outcome::Failed(ErrorKind::StackDepthExceeded, b)
        } else {
            match unary_at(s, b + 1, (d - 1) as nat) {
                Outcome::Parsed(e, q) => Outcome::Parsed(
                    Term::Negate(Box::new(e)),
                    skip_spaces(s, q),
                ),
                o => o,
            }
        }
    } else {
        Outcome::NoMatch
    };
    or_else(negated, power_at(s, p, d))
}

/// Exponent layer: a leaf, with `!` after it if one follows, then `^` and an
/// exponent expression (right-associative). So `a^b!` is `a` to the power `b!`.
pub open spec fn power_at(s: Seq<char>, p: int, d: nat) -> Outcome<Term>
    decreases s.len() - p, 4nat,
{
    match leaf_at(s, p, d) {
        Outcome::Parsed(b0, q0) => {
            let post = char_at(s, q0, '!');
            let b = if post {
                Term::Factorial(Box::new(b0))
            } else {
                b0
            };
            let q = if post {
                skip_spaces(s, q0 + 1)
            } else {
                q0
            };
            if advanced(s, p, q) && char_at(s, q, '^') {
                if d == 0 {
                    Outcome::Failed(ErrorKind::StackDepthExceeded, q)
                } else {
                    match power_at(s, q + 1, (d - 1) as nat) {
                        Outcome::Parsed(x, r) => Outcome::Parsed(
                            Term::Power(Box::new(b), Box::new(x)),
                            r,
                        ),
                        Outcome::NoMatch => Outcome::Parsed(b, q),
                        Outcome::Failed(k, x) => Outcome::Failed(k, x),
                    }
                }
            } else {
                Outcome::Parsed(b, q)
            }
        },
        o => o,
    }
}

/// Leaf layer: the first alternative that matches after the spaces at `p`.
pub open spec fn leaf_at(s: Seq<char>, p: int, d: nat) -> Outcome<Term>
    decreases s.len() - p, 3nat,
{
    let b = skip_spaces(s, p);
    if advanced(s, p, b) {
        or_else(
            group_at(s, b, d),
            or_else(
                frac_at(s, b, d),
                or_else(
                    vector_at(s, b, d),
                    or_else(
                        matrix_at(s, b, d),
                        or_else(
                            numeric_at(s, b),
                            or_else(function_at(s, b, d), or_else(escape_at(s, b), variable_at(s, b))),
                        ),
                    ),
                ),
            ),
        )
    } else {
        Outcome::NoMatch
    }
}

/// `(`, `\left(`, `{` or `\left{` at `p`, with the position after it and the closing character.
pub open spec fn group_open(s: Seq<char>, p: int) -> Option<(int, char)> {
    if char_at(s, p, '(') {
        Some((p + 1, ')'))
    } else if matches_at(s, p, left_paren()) {
        Some((p + 6, ')'))
    } else if char_at(s, p, '{') {
        Some((p + 1, '}'))
    } else if matches_at(s, p, left_brace()) {
        Some((p + 6, '}'))
    } else {
        None
    }
}

/// The position after `close` or `\right` and `close` at `p`.
pub open spec fn group_close(s: Seq<char>, p: int, close: char) -> Option<int> {
    if char_at(s, p, close) {
        Some(p + 1)
    } else if matches_at(s, p, right_of(close)) {
        Some(p + 7)
    } else {
        None
    }
}

/// A parenthesized or braced expression.
pub open spec fn group_at(s: Seq<char>, p: int, d: nat) -> Outcome<Term>
    decreases s.len() - p, 2nat,
{
    match group_open(s, p) {
        Some((inner, close)) => if d == 0 {
            Outcome::Failed(ErrorKind::StackDepthExceeded, p)
        } else {
            match sum_at(s, inner, (d - 1) as nat) {
                Outcome::Parsed(e, q) => if advanced(s, inner, q) {
                    match group_close(s, q, close) {
                        Some(r) => Outcome::Parsed(e, skip_spaces(s, r)),
                        None => Outcome::NoMatch,
                    }
                } else {
                    Outcome::NoMatch
                },
                o => o,
            }
        },
        None => Outcome::NoMatch,
    }
}

/// `\frac{numerator}{denominator}`.
pub open spec fn frac_at(s: Seq<char>, p: int, d: nat) -> Outcome<Term>
    decreases s.len() - p, 2nat,
{
    if matches_at(s, p, frac_tag()) && char_at(s, p + 5, '{') {
        if d == 0 {
            Outcome::Failed(ErrorKind::StackDepthExceeded, p)
        } else {
            match sum_at(s, p + 6, (d - 1) as nat) {
                Outcome::Parsed(n, q) => if advanced(s, p + 6, q) && char_at(s, q, '}') && char_at(
                    s,
                    q + 1,
                    '{',
                ) {
                    match sum_at(s, q + 2, (d - 1) as nat) {
                        Outcome::Parsed(m, r) => if advanced(s, q + 2, r) && char_at(s, r, '}') {
                            Outcome::Parsed(
                                Term::Divide(Box::new(n), Box::new(m)),
                                skip_spaces(s, r + 1),
                            )
                        } else {
                            Outcome::NoMatch
                        },
                        o => o,
                    }
                } else {
                    Outcome::NoMatch
                },
                o => o,
            }
        }
    } else {
        Outcome::NoMatch
    }
}

/// One or more expressions separated by commas.
pub open spec fn list_at(s: Seq<char>, p: int, d: nat) -> Outcome<Seq<Term>>
    decreases s.len() - p, 11nat,
{
    match sum_at(s, p, d) {
        Outcome::Parsed(e, q) => if !advanced(s, p, q) {
            Outcome::NoMatch
        } else if char_at(s, q, ',') {
            match list_at(s, q + 1, d) {
                Outcome::Parsed(es, r) => Outcome::Parsed(seq![e] + es, r),
                o => o,
            }
        } else {
            Outcome::Parsed(seq![e], q)
        },
        o => fail_as(o),
    }
}

/// One or more lists separated by semicolons.
pub open spec fn rows_at(s: Seq<char>, p: int, d: nat) -> Outcome<Seq<Seq<Term>>>
    decreases s.len() - p, 12nat,
{
    match list_at(s, p, d) {
        Outcome::Parsed(row, q) => if !advanced(s, p, q) {
            Outcome::NoMatch
        } else if char_at(s, q, ';') {
            match rows_at(s, q + 1, d) {
                Outcome::Parsed(rs, r) => Outcome::Parsed(seq![row] + rs, r),
                o => o,
            }
        } else {
            Outcome::Parsed(seq![row], q)
        },
        o => fail_as(o),
    }
}

/// `<e1,...,en>`.
pub open spec fn vector_at(s: Seq<char>, p: int, d: nat) -> Outcome<Term>
    decreases s.len() - p, 2nat,
{
    if char_at(s, p, '<') {
        if d == 0 {
            Outcome::Failed(ErrorKind::StackDepthExceeded, p)
        } else if char_at(s, skip_spaces(s, p + 1), '>') {
            Outcome::Failed(ErrorKind::EmptyArgumentList, p)
        } else {
            match list_at(s, p + 1, (d - 1) as nat) {
                Outcome::Parsed(items, q) => if advanced(s, p + 1, q) && char_at(s, q, '>') {
                    Outcome::Parsed(
                        Term::Vector { size: items.len(), backing: items },
                        skip_spaces(s, q + 1),
                    )
                } else {
                    Outcome::NoMatch
                },
                o => fail_as(o),
            }
        }
    } else {
        Outcome::NoMatch
    }
}

/// The rows, one after another.
pub open spec fn concat_rows(rs: Seq<Seq<Term>>) -> Seq<Term>
    decreases rs.len(),
{
    if rs.len() == 0 {
        Seq::empty()
    } else {
        concat_rows(rs.drop_last()) + rs.last()
    }
}

pub open spec fn rows_even(rs: Seq<Seq<Term>>) -> bool {
    forall|i: int| 0 <= i < rs.len() ==> #[trigger] rs[i].len() == rs[0].len()
}

/// `[r1;...;rn]`, each row a comma-separated list of the same length.
pub open spec fn matrix_at(s: Seq<char>, p: int, d: nat) -> Outcome<Term>
    decreases s.len() - p, 2nat,
{
    if char_at(s, p, '[') {
        if d == 0 {
            Outcome::Failed(ErrorKind::StackDepthExceeded, p)
        } else {
            match rows_at(s, p + 1, (d - 1) as nat) {
                Outcome::Parsed(rs, q) => if advanced(s, p + 1, q) && char_at(s, q, ']') {
                    if rows_even(rs) {
                        Outcome::Parsed(
                            Term::Matrix { rows: rs.len(), cols: rs[0].len(), backing: concat_rows(rs) },
                            skip_spaces(s, q + 1),
                        )
                    } else {
                        Outcome::Failed(ErrorKind::MatrixRowLengthMismatch, p)
                    }
                } else {
                    Outcome::NoMatch
                },
                o => fail_as(o),
            }
        }
    } else {
        Outcome::NoMatch
    }
}

/// The start and end of a function name at `p`: an optional backslash (not
/// part of the name), a letter, then letters and digits.
pub open spec fn name_span(s: Seq<char>, p: int) -> Option<(int, int)> {
    let b = if char_at(s, p, '\\') {
        p + 1
    } else {
        p
    };
    if 0 <= b < s.len() && is_alphabetic(s[b]) {
        Some((b, alnum_end(s, b + 1)))
    } else {
        None
    }
}

/// `name(a1,...,an)`, with `(` or `\left(` and `)` or `\right)`.
pub open spec fn function_at(s: Seq<char>, p: int, d: nat) -> Outcome<Term>
    decreases s.len() - p, 2nat,
{
    match name_span(s, p) {
        Some((b, n)) => {
            let open = if char_at(s, n, '(') {
                n + 1
            } else {
                n + 6
            };
            if char_at(s, n, '(') || matches_at(s, n, left_paren()) {
                if d == 0 {
                    Outcome::Failed(ErrorKind::StackDepthExceeded, p)
                } else if !advanced(s, p, n) {
                    Outcome::NoMatch
                } else if group_close(s, skip_spaces(s, open), ')') is Some {
                    Outcome::Failed(ErrorKind::EmptyArgumentList, p)
                } else {
                    match list_at(s, open, (d - 1) as nat) {
                        Outcome::Parsed(args, q) => if advanced(s, open, q) {
                            match group_close(s, q, ')') {
                                Some(r) => Outcome::Parsed(
                                    Term::Function { name: s.subrange(b, n), args },
                                    skip_spaces(s, r),
                                ),
                                None => Outcome::NoMatch,
                            }
                        } else {
                            Outcome::NoMatch
                        },
                        o => fail_as(o),
                    }
                }
            } else {
                Outcome::NoMatch
            }
        },
        None => Outcome::NoMatch,
    }
}

/// The whole text as one expression, or the first error.
pub open spec fn parse_text(s: Seq<char>) -> Result<Term, (ErrorKind, int)> {
    match sum_at(s, 0, MAX_DEPTH as nat) {
        Outcome::Parsed(e, q) => if q == s.len() {
            Ok(e)
        } else {
            Err((ErrorKind::Syntax, q))
        },
        Outcome::NoMatch => Err((ErrorKind::Syntax, skip_spaces(s, 0))),
        Outcome::Failed(k, x) => Err((k, x)),
    }
}

/// The longest expression at the start of the text and where it ends, or the first error.
pub open spec fn parse_start(s: Seq<char>) -> Result<(Term, int), (ErrorKind, int)> {
    match sum_at(s, 0, MAX_DEPTH as nat) {
        Outcome::Parsed(e, q) => Ok((e, q)),
        Outcome::NoMatch => Err((ErrorKind::Syntax, skip_spaces(s, 0))),
        Outcome::Failed(k, x) => Err((k, x)),
    }
}

} // verus!
