use vstd::prelude::*;
use crate::expression::{Leaf, Term};
use crate::grammar::{
    cdot_tag, char_at, digits_end, frac_at, group_at, group_close, is_digit, is_space, leaf_at,
    left_brace, left_paren, matches_at, matrix_at, numeric_at, parse_text, power_at, product_at,
    product_rest, right_of, skip_spaces, sum_at, sum_rest, unary_at, vector_at, ErrorKind, Outcome,
    MAX_DEPTH,
};
use crate::latex::{
    close_group, is_additive, is_product, is_simple, nat_text, open_group, render, wrap, wrap_if,
};
use crate::laws::lemma_nat_text;

verus! {

/// Digits with exactly one decimal point, and at least one digit.
pub open spec fn decimal_text(t: Seq<char>) -> bool {
    t.len() >= 2 && exists|k: int|
        0 <= k < t.len() && t[k] == '.' && (forall|i: int|
            0 <= i < t.len() && i != k ==> is_digit(#[trigger] t[i]))
}

/// A tree of sums, products, quotients and powers over non-negative integers
/// and decimal literals.
pub open spec fn arith(t: Term) -> bool
    decreases t,
{
    match t {
        Term::Atom(Leaf::Integer(n)) => n >= 0,
        Term::Atom(Leaf::Decimal(x)) => decimal_text(x),
        Term::Add(l, r) => arith(*l) && arith(*r),
        Term::Multiply(l, r) => arith(*l) && arith(*r),
        Term::Divide(l, r) => arith(*l) && arith(*r),
        Term::Power(l, r) => arith(*l) && arith(*r),
        _ => false,
    }
}

pub open spec fn height(t: Term) -> nat
    decreases t,
{
    match t {
        Term::Add(l, r) => 1 + vstd::math::max(height(*l) as int, height(*r) as int) as nat,
        Term::Multiply(l, r) => 1 + vstd::math::max(height(*l) as int, height(*r) as int) as nat,
        Term::Divide(l, r) => 1 + vstd::math::max(height(*l) as int, height(*r) as int) as nat,
        Term::Power(l, r) => 1 + vstd::math::max(height(*l) as int, height(*r) as int) as nat,
        _ => 0,
    }
}

pub open spec fn bump(c: bool) -> nat {
    if c {
        1
    } else {
        0
    }
}

/// How many levels of the parser's nesting bound the text of a tree uses.
pub open spec fn nesting(t: Term) -> nat
    decreases t,
{
    match t {
        Term::Add(l, r) => vstd::math::max(
            nesting(*l) as int,
            (nesting(*r) + bump(is_additive(*r))) as int,
        ) as nat,
        Term::Multiply(l, r) => vstd::math::max(
            (nesting(*l) + bump(is_additive(*l) || *l is Modulus)) as int,
            (nesting(*r) + bump(is_additive(*r) || is_product(*r))) as int,
        ) as nat,
        Term::Divide(l, r) => 1 + vstd::math::max(nesting(*l) as int, nesting(*r) as int) as nat,
        Term::Power(l, r) => vstd::math::max(
            (nesting(*l) + bump(!is_simple(*l))) as int,
            (1 + nesting(*r) + bump(!(*r is Atom))) as int,
        ) as nat,
        _ => 0,
    }
}

/// The text of a tree: bare (0), in `\left(`..`\right)` (1), or in braces (2).
pub open spec fn text(kind: nat, t: Term) -> Seq<char> {
    if kind == 0 {
        render(t)
    } else if kind == 1 {
        wrap(render(t))
    } else {
        seq!['{'] + render(t) + seq!['}']
    }
}

pub open spec fn placed(s: Seq<char>, p: int, x: Seq<char>) -> bool {
    0 <= p && p + x.len() <= s.len() && s.subrange(p, p + x.len()) == x
}

/// What may follow a literal: the end, or a character that does not extend it.
pub open spec fn fine_end(s: Seq<char>, q: int) -> bool {
    q == s.len() || (0 <= q < s.len() && !is_space(s[q]) && !is_digit(s[q]) && s[q] != '.')
}

pub open spec fn no_product_op(s: Seq<char>, q: int) -> bool {
    !matches_at(s, q, cdot_tag()) && !char_at(s, q, '/') && !char_at(s, q, '%')
}

proof fn lemma_split(s: Seq<char>, p: int, a: Seq<char>, b: Seq<char>)
    requires
        placed(s, p, a + b),
    ensures
        placed(s, p, a),
        placed(s, p + a.len(), b),
{
    let w = s.subrange(p, p + (a + b).len());
    assert forall|i: int| 0 <= i < a.len() implies s.subrange(p, p + a.len())[i] == a[i] by {
        assert(w[i] == s[p + i]);
        assert(w[i] == (a + b)[i]);
    }
    assert(s.subrange(p, p + a.len()) =~= a);
    assert forall|i: int| 0 <= i < b.len() implies s.subrange(p + a.len(), p + a.len() + b.len())[i]
        == b[i] by {
        assert(w[a.len() + i] == s[p + a.len() + i]);
        assert(w[a.len() + i] == (a + b)[a.len() + i]);
    }
    assert(s.subrange(p + a.len(), p + a.len() + b.len()) =~= b);
}

proof fn lemma_char(s: Seq<char>, p: int, x: Seq<char>, i: int)
    requires
        placed(s, p, x),
        0 <= i < x.len(),
    ensures
        s[p + i] == x[i],
{
    assert(s.subrange(p, p + x.len())[i] == s[p + i]);
}


proof fn lemma_matches(s: Seq<char>, p: int, x: Seq<char>)
    requires
        placed(s, p, x),
    ensures
        matches_at(s, p, x),
{
    assert forall|i: int| 0 <= i < x.len() implies s[p + i] == x[i] by {
        lemma_char(s, p, x, i);
    }
}

proof fn lemma_digits_run(s: Seq<char>, p: int, q: int)
    requires
        0 <= p <= q <= s.len(),
        forall|i: int| p <= i < q ==> is_digit(#[trigger] s[i]),
        q == s.len() || !is_digit(s[q]),
    ensures
        digits_end(s, p) == q,
    decreases q - p,
{
    if p < q {
        lemma_digits_run(s, p + 1, q);
    }
}

pub open spec fn starts_well(x: Seq<char>) -> bool {
    x.len() >= 1 && (is_digit(x[0]) || x[0] == '.' || x[0] == '\\' || x[0] == '{')
}

proof fn lemma_text_start(t: Term, kind: nat)
    requires
        arith(t),
    ensures
        starts_well(text(kind, t)),
    decreases t,
{
    if kind == 0 {
        match t {
            Term::Atom(Leaf::Integer(n)) => {
                lemma_nat_text(n as nat);
            },
            Term::Atom(Leaf::Decimal(x)) => {
                let k = choose|k: int|
                    0 <= k < x.len() && x[k] == '.' && (forall|i: int|
                        0 <= i < x.len() && i != k ==> is_digit(#[trigger] x[i]));
                if k != 0 {
                    assert(is_digit(x[0]));
                }
            },
            Term::Add(l, r) => {
                lemma_text_start(*l, 0);
            },
            Term::Multiply(l, r) => {
                lemma_text_start(*l, if is_additive(*l) { 1 } else { 0 });
            },
            Term::Power(l, r) => {
                lemma_text_start(*l, if is_simple(*l) { 0 } else { 1 });
            },
            _ => {},
        }
    }
}

/// The leaf layer reads a literal, a fraction, or a group back as the tree it came from.
#[verifier::spinoff_prover]
#[verifier::rlimit(100)]
proof fn lemma_leaf(s: Seq<char>, p: int, d: nat, t: Term, kind: nat)
    requires
        arith(t),
        kind <= 2,
        kind == 0 ==> (t is Atom || t is Divide),
        nesting(t) + bump(kind != 0) <= d,
        placed(s, p, text(kind, t)),
        fine_end(s, p + text(kind, t).len()),
    ensures
        leaf_at(s, p, d) == Outcome::Parsed(t, p + text(kind, t).len()),
    decreases 2 * height(t) + bump(kind != 0), 1nat,
{
    let x = text(kind, t);
    let q = p + x.len();
    if kind == 1 {
        lemma_paren_group(s, p, d, t);
    } else if kind == 2 {
        lemma_brace_group(s, p, d, t);
    } else if t is Divide {
        lemma_frac_leaf(s, p, d, t);
    } else if t->Atom_0 is Decimal {
        lemma_decimal_leaf(s, p, d, t);
    } else {
        lemma_int_leaf(s, p, d, t);
    }
}

#[verifier::spinoff_prover]
#[verifier::rlimit(100)]
proof fn lemma_paren_group(s: Seq<char>, p: int, d: nat, t: Term)
    requires
        arith(t),
        nesting(t) + 1 <= d,
        placed(s, p, text(1, t)),
        fine_end(s, p + text(1, t).len()),
    ensures
        leaf_at(s, p, d) == Outcome::Parsed(t, p + text(1, t).len()),
    decreases 2 * height(t) + 1, 0nat,
{
    let x = text(1, t);
    let q = p + x.len();
    lemma_char(s, p, x, 0);
    assert(skip_spaces(s, p) == p);
    assert(skip_spaces(s, q) == q);
    let inner = render(t);
    lemma_split(s, p, open_group() + inner, close_group());
    lemma_split(s, p, open_group(), inner);
    lemma_matches(s, p, open_group());
    assert(open_group() =~= left_paren());
    let m = p + 6 + inner.len();
    lemma_char(s, m, close_group(), 0);
    lemma_char(s, m, close_group(), 1);
    lemma_matches(s, m, close_group());
    assert(close_group() =~= right_of(')'));
    lemma_sum(s, p + 6, (d - 1) as nat, t, 0);
    assert(sum_rest(s, m, (d - 1) as nat, t) == Outcome::Parsed(t, m));
    assert(group_close(s, m, ')') == Some(q));
    assert(group_at(s, p, d) == Outcome::Parsed(t, q));
}

#[verifier::spinoff_prover]
#[verifier::rlimit(100)]
proof fn lemma_brace_group(s: Seq<char>, p: int, d: nat, t: Term)
    requires
        arith(t),
        nesting(t) + 1 <= d,
        placed(s, p, text(2, t)),
        fine_end(s, p + text(2, t).len()),
    ensures
        leaf_at(s, p, d) == Outcome::Parsed(t, p + text(2, t).len()),
    decreases 2 * height(t) + 1, 0nat,
{
    let x = text(2, t);
    let q = p + x.len();
    lemma_char(s, p, x, 0);
    assert(skip_spaces(s, p) == p);
    assert(skip_spaces(s, q) == q);
    let inner = render(t);
    lemma_split(s, p, seq!['{'] + inner, seq!['}']);
    lemma_split(s, p, seq!['{'], inner);
    lemma_char(s, p, seq!['{'], 0);
    let m = p + 1 + inner.len();
    lemma_char(s, m, seq!['}'], 0);
    lemma_sum(s, p + 1, (d - 1) as nat, t, 0);
    assert(sum_rest(s, m, (d - 1) as nat, t) == Outcome::Parsed(t, m));
    assert(group_close(s, m, '}') == Some(q));
    assert(group_at(s, p, d) == Outcome::Parsed(t, q));
}

#[verifier::spinoff_prover]
#[verifier::rlimit(100)]
proof fn lemma_int_leaf(s: Seq<char>, p: int, d: nat, t: Term)
    requires
        arith(t),
        t is Atom,
        t->Atom_0 is Integer,
        placed(s, p, render(t)),
        fine_end(s, p + render(t).len()),
    ensures
        leaf_at(s, p, d) == Outcome::Parsed(t, p + render(t).len()),
{
    let x = render(t);
    let q = p + x.len();
    let n = t->Atom_0->Integer_0;
    assert(x == nat_text(n as nat));
    lemma_nat_text(n as nat);
    lemma_char(s, p, x, 0);
    assert(skip_spaces(s, p) == p);
    assert(skip_spaces(s, q) == q);
    assert forall|i: int| p <= i < q implies is_digit(#[trigger] s[i]) by {
        lemma_char(s, p, x, i - p);
    }
    lemma_digits_run(s, p, q);
    assert(s.subrange(p, q) == x);
    lemma_numeric_int(s, p, q, n);
    lemma_leaf_numeric(s, p, d);
}

#[verifier::spinoff_prover]
#[verifier::rlimit(100)]
proof fn lemma_decimal_leaf(s: Seq<char>, p: int, d: nat, t: Term)
    requires
        arith(t),
        t is Atom,
        t->Atom_0 is Decimal,
        placed(s, p, render(t)),
        fine_end(s, p + render(t).len()),
    ensures
        leaf_at(s, p, d) == Outcome::Parsed(t, p + render(t).len()),
{
    let x = render(t);
    let q = p + x.len();
    assert(x == t->Atom_0->Decimal_0);
    let k = choose|k: int|
        0 <= k < x.len() && x[k] == '.' && (forall|i: int|
            0 <= i < x.len() && i != k ==> is_digit(#[trigger] x[i]));
    assert forall|i: int| p <= i < q && i != p + k implies is_digit(#[trigger] s[i]) by {
        lemma_char(s, p, x, i - p);
    }
    lemma_char(s, p, x, k);
    lemma_char(s, p, x, 0);
    lemma_digits_run(s, p, p + k);
    lemma_digits_run(s, p + k + 1, q);
    assert(s.subrange(p, q) == x);
    assert(skip_spaces(s, q) == q);
    assert(numeric_at(s, p) == Outcome::Parsed(t, q));
    lemma_leaf_numeric(s, p, d);
}

#[verifier::spinoff_prover]
#[verifier::rlimit(100)]
proof fn lemma_numeric_int(s: Seq<char>, p: int, q: int, n: i32)
    requires
        n >= 0,
        0 <= p < q <= s.len(),
        digits_end(s, p) == q,
        s.subrange(p, q) == nat_text(n as nat),
        crate::grammar::digits_value(nat_text(n as nat)) == n,
        fine_end(s, q),
    ensures
        numeric_at(s, p) == Outcome::Parsed(Term::Atom(Leaf::Integer(n)), q),
{
    assert(skip_spaces(s, q) == q);
}

#[verifier::spinoff_prover]
#[verifier::rlimit(100)]
proof fn lemma_leaf_numeric(s: Seq<char>, p: int, d: nat)
    requires
        0 <= p < s.len(),
        is_digit(s[p]) || s[p] == '.',
        numeric_at(s, p) is Parsed,
    ensures
        leaf_at(s, p, d) == numeric_at(s, p),
{
    assert(skip_spaces(s, p) == p);
    assert(!matches_at(s, p, left_paren())) by {
        assert(left_paren()[0] == '\\');
    }
    assert(!matches_at(s, p, left_brace())) by {
        assert(left_brace()[0] == '\\');
    }
    assert(crate::grammar::group_open(s, p) is None);
    assert(group_at(s, p, d) is NoMatch);
    assert(frac_at(s, p, d) is NoMatch);
    assert(vector_at(s, p, d) is NoMatch);
    assert(matrix_at(s, p, d) is NoMatch);
}

#[verifier::spinoff_prover]
#[verifier::rlimit(100)]
proof fn lemma_leaf_frac(s: Seq<char>, p: int, d: nat)
    requires
        0 <= p && p + 1 < s.len(),
        s[p] == '\\',
        s[p + 1] == 'f',
        frac_at(s, p, d) is Parsed,
    ensures
        leaf_at(s, p, d) == frac_at(s, p, d),
{
    assert(skip_spaces(s, p) == p);
    assert(!matches_at(s, p, left_paren())) by {
        assert(left_paren()[1] == 'l');
    }
    assert(!matches_at(s, p, left_brace())) by {
        assert(left_brace()[1] == 'l');
    }
    assert(crate::grammar::group_open(s, p) is None);
    assert(group_at(s, p, d) is NoMatch);
}

#[verifier::spinoff_prover]
#[verifier::rlimit(100)]
proof fn lemma_frac_leaf(s: Seq<char>, p: int, d: nat, t: Term)
    requires
        arith(t),
        t is Divide,
        nesting(t) <= d,
        placed(s, p, render(t)),
        fine_end(s, p + render(t).len()),
    ensures
        leaf_at(s, p, d) == Outcome::Parsed(t, p + render(t).len()),
    decreases 2 * height(t), 0nat,
{
    let x = render(t);
    let q = p + x.len();
    let l = *t->Divide_0;
    let r = *t->Divide_1;
    assert(arith(l) && arith(r));
    lemma_frac_layout(s, p, l, r);
    let m1 = p + 6 + render(l).len();
    let m2 = m1 + 2 + render(r).len();
    lemma_sum(s, p + 6, (d - 1) as nat, l, 0);
    assert(sum_rest(s, m1, (d - 1) as nat, l) == Outcome::Parsed(l, m1));
    lemma_sum(s, m1 + 2, (d - 1) as nat, r, 0);
    assert(sum_rest(s, m2, (d - 1) as nat, r) == Outcome::Parsed(r, m2));
    lemma_frac_parts(s, p, d, l, r, m1, m2);
    lemma_leaf_frac(s, p, d);
}

#[verifier::spinoff_prover]
#[verifier::rlimit(100)]
proof fn lemma_frac_layout(s: Seq<char>, p: int, l: Term, r: Term)
    requires
        placed(s, p, render(Term::Divide(Box::new(l), Box::new(r)))),
    ensures
        ({
            let m1 = p + 6 + render(l).len();
            let m2 = m1 + 2 + render(r).len();
            &&& matches_at(s, p, crate::grammar::frac_tag())
            &&& s[p] == '\\' && s[p + 1] == 'f'
            &&& char_at(s, p + 5, '{')
            &&& placed(s, p + 6, render(l))
            &&& char_at(s, m1, '}')
            &&& char_at(s, m1 + 1, '{')
            &&& placed(s, m1 + 2, render(r))
            &&& char_at(s, m2, '}')
            &&& m2 + 1 == p + render(Term::Divide(Box::new(l), Box::new(r))).len()
        }),
{
    let x = render(Term::Divide(Box::new(l), Box::new(r)));
    let a = seq!['\\', 'f', 'r', 'a', 'c', '{'];
    let b = seq!['}', '{'];
    let c = seq!['}'];
    let rl = render(l);
    let rr = render(r);
    assert(x == a + rl + b + rr + c);
    lemma_split(s, p, a + rl + b + rr, c);
    lemma_split(s, p, a + rl + b, rr);
    lemma_split(s, p, a + rl, b);
    lemma_split(s, p, a, rl);
    lemma_matches(s, p, a);
    lemma_char(s, p, a, 0);
    lemma_char(s, p, a, 1);
    lemma_char(s, p, a, 5);
    assert(matches_at(s, p, crate::grammar::frac_tag()));
    let m1 = p + 6 + rl.len();
    let m2 = m1 + 2 + rr.len();
    lemma_char(s, m1, b, 0);
    lemma_char(s, m1, b, 1);
    lemma_char(s, m2, c, 0);
}

#[verifier::spinoff_prover]
#[verifier::rlimit(100)]
proof fn lemma_frac_parts(s: Seq<char>, p: int, d: nat, l: Term, r: Term, m1: int, m2: int)
    requires
        d >= 1,
        matches_at(s, p, crate::grammar::frac_tag()),
        char_at(s, p + 5, '{'),
        sum_at(s, p + 6, (d - 1) as nat) == Outcome::Parsed(l, m1),
        p + 6 <= m1,
        m1 + 2 <= m2 < s.len(),
        char_at(s, m1, '}'),
        char_at(s, m1 + 1, '{'),
        sum_at(s, m1 + 2, (d - 1) as nat) == Outcome::Parsed(r, m2),
        char_at(s, m2, '}'),
        fine_end(s, m2 + 1),
    ensures
        frac_at(s, p, d) == Outcome::Parsed(Term::Divide(Box::new(l), Box::new(r)), m2 + 1),
{
    assert(skip_spaces(s, m2 + 1) == m2 + 1);
}

/// The exponent layer reads a power, or anything the leaf layer reads, back.
#[verifier::spinoff_prover]
#[verifier::rlimit(100)]
proof fn lemma_power(s: Seq<char>, p: int, d: nat, t: Term, kind: nat)
    requires
        arith(t),
        kind <= 2,
        kind == 0 ==> (t is Atom || t is Divide || t is Power),
        nesting(t) + bump(kind != 0) <= d,
        placed(s, p, text(kind, t)),
        fine_end(s, p + text(kind, t).len()),
        !char_at(s, p + text(kind, t).len(), '^'),
        !char_at(s, p + text(kind, t).len(), '!'),
    ensures
        power_at(s, p, d) == Outcome::Parsed(t, p + text(kind, t).len()),
    decreases 2 * height(t) + bump(kind != 0), 2nat,
{
    let x = text(kind, t);
    let q = p + x.len();
    if kind == 0 && t is Power {
        let l = *t->Power_0;
        let r = *t->Power_1;
        let kl: nat = if is_simple(l) { 0 } else { 1 };
        let kr: nat = if r is Atom { 0 } else { 2 };
        assert(arith(l) && arith(r));
        assert(kl == 0 ==> l is Atom);
        let tl = text(kl, l);
        let tr = text(kr, r);
        assert(x == tl + seq!['^'] + tr);
        lemma_split(s, p, tl + seq!['^'], tr);
        lemma_split(s, p, tl, seq!['^']);
        let m1 = p + tl.len();
        lemma_char(s, m1, seq!['^'], 0);
        lemma_leaf(s, p, d, l, kl);
        lemma_power(s, m1 + 1, (d - 1) as nat, r, kr);
    } else {
        lemma_leaf(s, p, d, t, kind);
    }
}

#[verifier::spinoff_prover]
#[verifier::rlimit(100)]
proof fn lemma_unary(s: Seq<char>, p: int, d: nat, t: Term, kind: nat)
    requires
        arith(t),
        kind <= 2,
        kind == 0 ==> (t is Atom || t is Divide || t is Power),
        nesting(t) + bump(kind != 0) <= d,
        placed(s, p, text(kind, t)),
        fine_end(s, p + text(kind, t).len()),
        !char_at(s, p + text(kind, t).len(), '^'),
        !char_at(s, p + text(kind, t).len(), '!'),
    ensures
        unary_at(s, p, d) == Outcome::Parsed(t, p + text(kind, t).len()),
    decreases 2 * height(t) + bump(kind != 0), 3nat,
{
    lemma_text_start(t, kind);
    lemma_char(s, p, text(kind, t), 0);
    assert(skip_spaces(s, p) == p);
    lemma_power(s, p, d, t, kind);
}

/// The multiplicative layer reads a product back, and continues after it.
#[verifier::spinoff_prover]
#[verifier::rlimit(100)]
proof fn lemma_product(s: Seq<char>, p: int, d: nat, t: Term, kind: nat)
    requires
        arith(t),
        kind <= 2,
        kind == 0 ==> !is_additive(t),
        nesting(t) + bump(kind != 0) <= d,
        placed(s, p, text(kind, t)),
        fine_end(s, p + text(kind, t).len()),
        !char_at(s, p + text(kind, t).len(), '^'),
        !char_at(s, p + text(kind, t).len(), '!'),
    ensures
        product_at(s, p, d) == product_rest(s, p + text(kind, t).len(), d, t),
    decreases 2 * height(t) + bump(kind != 0), 4nat,
{
    let x = text(kind, t);
    let q = p + x.len();
    if kind == 0 && t is Multiply {
        let l = *t->Multiply_0;
        let r = *t->Multiply_1;
        let kl: nat = if is_additive(l) { 1 } else { 0 };
        let kr: nat = if is_additive(r) || is_product(r) { 1 } else { 0 };
        let tl = text(kl, l);
        let tr = text(kr, r);
        let cd = seq!['\\', 'c', 'd', 'o', 't'];
        assert(arith(l) && arith(r));
        assert(!(l is Modulus));
        assert(tl == wrap_if(is_additive(l) || l is Modulus, render(l)));
        assert(tr == wrap_if(is_additive(r) || is_product(r), render(r)));
        assert(x == tl + cd + tr);
        lemma_split(s, p, tl + cd, tr);
        lemma_split(s, p, tl, cd);
        let m1 = p + tl.len();
        lemma_char(s, m1, cd, 0);
        lemma_matches(s, m1, cd);
        assert(cd =~= cdot_tag());
        lemma_product(s, p, d, l, kl);
        lemma_unary(s, m1 + 5, d, r, kr);
        lemma_product_step(s, m1, d, l, r, q);
    } else {
        lemma_unary(s, p, d, t, kind);
    }
}

/// The additive layer reads a sum back, and continues after it.
#[verifier::spinoff_prover]
#[verifier::rlimit(100)]
proof fn lemma_sum(s: Seq<char>, p: int, d: nat, t: Term, kind: nat)
    requires
        arith(t),
        kind <= 2,
        nesting(t) + bump(kind != 0) <= d,
        placed(s, p, text(kind, t)),
        fine_end(s, p + text(kind, t).len()),
        !char_at(s, p + text(kind, t).len(), '^'),
        !char_at(s, p + text(kind, t).len(), '!'),
        no_product_op(s, p + text(kind, t).len()),
    ensures
        sum_at(s, p, d) == sum_rest(s, p + text(kind, t).len(), d, t),
    decreases 2 * height(t) + bump(kind != 0), 6nat,
{
    let x = text(kind, t);
    let q = p + x.len();
    if kind == 0 && t is Add {
        lemma_sum_add(s, p, d, t);
    } else {
        lemma_product(s, p, d, t, kind);
        lemma_rest_done(s, q, d, t);
        assert(product_at(s, p, d) == Outcome::Parsed(t, q));
    }
}

#[verifier::spinoff_prover]
#[verifier::rlimit(100)]
proof fn lemma_sum_add(s: Seq<char>, p: int, d: nat, t: Term)
    requires
        arith(t),
        t is Add,
        nesting(t) <= d,
        placed(s, p, render(t)),
        fine_end(s, p + render(t).len()),
        !char_at(s, p + render(t).len(), '^'),
        !char_at(s, p + render(t).len(), '!'),
        no_product_op(s, p + render(t).len()),
    ensures
        sum_at(s, p, d) == sum_rest(s, p + render(t).len(), d, t),
    decreases 2 * height(t), 5nat,
{
    let x = render(t);
    let q = p + x.len();
    let l = *t->Add_0;
    let r = *t->Add_1;
    let kr: nat = if is_additive(r) { 1 } else { 0 };
    let tl = render(l);
    let tr = text(kr, r);
    assert(x == tl + seq!['+'] + tr);
    lemma_split(s, p, tl + seq!['+'], tr);
    lemma_split(s, p, tl, seq!['+']);
    let m1 = p + tl.len();
    lemma_char(s, m1, seq!['+'], 0);
    assert(arith(l) && arith(r));
    lemma_sum(s, p, d, l, 0);
    lemma_product(s, m1 + 1, d, r, kr);
    lemma_rest_done(s, q, d, r);
    lemma_sum_step(s, m1, d, l, r, q);
}

proof fn lemma_rest_done(s: Seq<char>, q: int, d: nat, t: Term)
    requires
        no_product_op(s, q),
    ensures
        product_rest(s, q, d, t) == Outcome::Parsed(t, q),
{
}

proof fn lemma_sum_step(s: Seq<char>, m: int, d: nat, l: Term, r: Term, q: int)
    requires
        char_at(s, m, '+'),
        product_at(s, m + 1, d) == Outcome::Parsed(r, q),
        m + 1 <= q <= s.len(),
    ensures
        sum_rest(s, m, d, l) == sum_rest(s, q, d, Term::Add(Box::new(l), Box::new(r))),
{
}

proof fn lemma_product_step(s: Seq<char>, m: int, d: nat, l: Term, r: Term, q: int)
    requires
        matches_at(s, m, cdot_tag()),
        unary_at(s, m + 5, d) == Outcome::Parsed(r, q),
        m + 5 <= q <= s.len(),
    ensures
        product_rest(s, m, d, l) == product_rest(s, q, d, Term::Multiply(Box::new(l), Box::new(r))),
{
}

/// A tree of sums, products, quotients and powers over non-negative integers
/// and decimal literals, nested no deeper than the parser allows, parses back
/// from its text to the same tree.
pub proof fn arith_round_trip(t: Term)
    requires
        arith(t),
        nesting(t) <= MAX_DEPTH,
    ensures
        parse_text(render(t)) == Ok::<Term, (ErrorKind, int)>(t),
{
    let s = render(t);
    assert(s.subrange(0, s.len() as int) =~= s);
    lemma_sum(s, 0, MAX_DEPTH as nat, t, 0);
}

} // verus!
