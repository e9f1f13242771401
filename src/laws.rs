use vstd::prelude::*;
use crate::expression::{Leaf, Term};
use crate::grammar::{
    char_at, digits_value, frac_at, function_at, group_at, is_digit, leaf_at, matrix_at, numeric_at,
    parse_text, power_at, product_at, product_rest, skip_spaces, sum_at, sum_rest, unary_at,
    vector_at, ErrorKind, Outcome, MAX_DEPTH,
};
use crate::latex::{digit_char, nat_text, render};
use crate::grammar::{concat_rows, list_at, rows_at, rows_even};

verus! {

proof fn lemma_digit_char(n: nat)
    requires
        n < 10,
    ensures
        is_digit(digit_char(n)),
        (digit_char(n) as nat - '0' as nat) as nat == n,
{
    let t = seq!['0', '1', '2', '3', '4', '5', '6', '7', '8', '9'];
    assert(t[0] == '0' && t[1] == '1' && t[2] == '2' && t[3] == '3' && t[4] == '4');
    assert(t[5] == '5' && t[6] == '6' && t[7] == '7' && t[8] == '8' && t[9] == '9');
}

pub proof fn lemma_nat_text(n: nat)
    ensures
        nat_text(n).len() >= 1,
        forall|i: int| 0 <= i < nat_text(n).len() ==> is_digit(#[trigger] nat_text(n)[i]),
        digits_value(nat_text(n)) == n,
    decreases n,
{
    if n < 10 {
        lemma_digit_char(n);
        let t = nat_text(n);
        assert(t.drop_last() =~= Seq::<char>::empty());
        assert(digits_value(t.drop_last()) == 0);
        assert(t.last() == digit_char(n));
    } else {
        lemma_nat_text(n / 10);
        lemma_digit_char(n % 10);
        let t = nat_text(n);
        assert(t.drop_last() =~= nat_text(n / 10));
        assert(t.last() == digit_char(n % 10));
        assert(digits_value(t) == (n / 10) * 10 + n % 10);
        assert((n / 10) * 10 + n % 10 == n) by (nonlinear_arith);
        assert(forall|i: int| 0 <= i < t.len() ==> is_digit(#[trigger] t[i])) by {
            assert forall|i: int| 0 <= i < t.len() implies is_digit(#[trigger] t[i]) by {
                if i < t.len() - 1 {
                    assert(t[i] == nat_text(n / 10)[i]);
                }
            }
        }
    }
}

/// The text of a leaf that parses back to it: leaves and no operators.
proof fn lemma_leaf_parses_back(s: Seq<char>, t: Term, d: nat)
    requires
        s.len() >= 1,
        d == MAX_DEPTH as nat,
        leaf_at(s, 0, d) == Outcome::Parsed(t, s.len() as int),
        skip_spaces(s, 0) == 0,
        s[0] != '-',
    ensures
        parse_text(s) == Ok::<Term, (ErrorKind, int)>(t),
{
    assert(power_at(s, 0, d) == Outcome::Parsed(t, s.len() as int));
    assert(unary_at(s, 0, d) == Outcome::Parsed(t, s.len() as int));
    assert(product_rest(s, s.len() as int, d, t) == Outcome::Parsed(t, s.len() as int));
    assert(product_at(s, 0, d) == Outcome::Parsed(t, s.len() as int));
    assert(sum_rest(s, s.len() as int, d, t) == Outcome::Parsed(t, s.len() as int));
    assert(sum_at(s, 0, d) == Outcome::Parsed(t, s.len() as int));
}

/// A variable that is neither a digit, a space, nor a character that opens a
/// construct of the grammar.
pub open spec fn plain_variable(c: char) -> bool {
    !is_digit(c) && c != ' ' && c != '\t' && c != '.' && c != '-' && c != '_' && c != '\\'
        && c != '(' && c != '{' && c != '<' && c != '['
}

/// A plain variable leaf, written out, parses back to the same leaf.
pub proof fn variable_leaf_round_trip(c: char)
    requires
        plain_variable(c),
    ensures
        parse_text(render(Term::Atom(Leaf::Variable(c)))) == Ok::<Term, (ErrorKind, int)>(
            Term::Atom(Leaf::Variable(c)),
        ),
{
    let t = Term::Atom(Leaf::Variable(c));
    let s = render(t);
    let d = MAX_DEPTH as nat;
    assert(s =~= seq![c]);
    assert(group_at(s, 0, d) is NoMatch);
    assert(frac_at(s, 0, d) is NoMatch);
    assert(vector_at(s, 0, d) is NoMatch);
    assert(matrix_at(s, 0, d) is NoMatch);
    assert(numeric_at(s, 0) is NoMatch);
    assert(function_at(s, 0, d) is NoMatch);
    assert(leaf_at(s, 0, d) == Outcome::Parsed(t, 1));
    lemma_leaf_parses_back(s, t, d);
}


proof fn lemma_concat_even(rs: Seq<Seq<Term>>, c: nat)
    requires
        forall|i: int| 0 <= i < rs.len() ==> #[trigger] rs[i].len() == c,
    ensures
        concat_rows(rs).len() == rs.len() * c,
    decreases rs.len(),
{
    if rs.len() > 0 {
        lemma_concat_even(rs.drop_last(), c);
        assert(rs[rs.len() - 1].len() == c);
        assert((rs.len() - 1) * c + c == rs.len() * c) by (nonlinear_arith);
    }
}

/// A matrix literal parses to a matrix with at least one row and one column,
/// whose backing holds the rows one after another, `rows * cols` items in all.
pub proof fn matrix_shape_matches_backing(s: Seq<char>, p: int, d: nat)
    ensures
        matrix_at(s, p, d) matches Outcome::Parsed(Term::Matrix { rows, cols, backing }, _) ==> (
        rows >= 1 && cols >= 1 && backing.len() == rows * cols),
{
    if char_at(s, p, '[') && d > 0 {
        match rows_at(s, p + 1, (d - 1) as nat) {
            Outcome::Parsed(rs, q) => {
                match list_at(s, p + 1, (d - 1) as nat) {
                    Outcome::Parsed(row, q2) => {
                        assert(rs[0] == row);
                    },
                    _ => {},
                }
                if rows_even(rs) {
                    lemma_concat_even(rs, rs[0].len());
                }
            },
            _ => {},
        }
    }
}

} // verus!
