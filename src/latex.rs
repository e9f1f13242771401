use vstd::prelude::*;
use crate::parser::{chars_of, string_from};
use crate::expression::{leaf_of, lemma_terms_len, term_of, terms_of, Atom, Escape, Expression, Leaf, Numeric, Term};

verus! {

pub open spec fn digit_char(n: nat) -> char {
    seq!['0', '1', '2', '3', '4', '5', '6', '7', '8', '9'][n as int]
}

/// The decimal digits of a natural number.
pub open spec fn nat_text(n: nat) -> Seq<char>
    decreases n,
{
    if n < 10 {
        seq![digit_char(n)]
    } else {
        nat_text(n / 10) + seq![digit_char(n % 10)]
    }
}

pub open spec fn int_text(i: int) -> Seq<char> {
    if i < 0 {
        seq!['-'] + nat_text((-i) as nat)
    } else {
        nat_text(i as nat)
    }
}

pub open spec fn kind_char(k: Escape) -> char {
    match k {
        Escape::Atom => 'A',
        Escape::Function => 'F',
        Escape::Vector => 'V',
        Escape::Matrix => 'M',
        Escape::Everything => '*',
    }
}

pub open spec fn leaf_text(l: Leaf) -> Seq<char> {
    match l {
        Leaf::Integer(i) => int_text(i as int),
        Leaf::Decimal(t) => t,
        Leaf::Variable(c) => seq![c],
        Leaf::Escape(k, n) => seq!['_', kind_char(k)] + nat_text(n as nat),
    }
}

pub open spec fn open_group() -> Seq<char> {
    seq!['\\', 'l', 'e', 'f', 't', '(']
}

pub open spec fn close_group() -> Seq<char> {
    seq!['\\', 'r', 'i', 'g', 'h', 't', ')']
}

pub open spec fn wrap(t: Seq<char>) -> Seq<char> {
    open_group() + t + close_group()
}

pub open spec fn wrap_if(c: bool, t: Seq<char>) -> Seq<char> {
    if c {
        wrap(t)
    } else {
        t
    }
}

pub open spec fn is_additive(t: Term) -> bool {
    t is Add || t is Subtract
}

pub open spec fn is_product(t: Term) -> bool {
    t is Multiply || t is Modulus
}

/// A base of a power that needs no parentheses.
pub open spec fn is_simple(t: Term) -> bool {
    t is Atom || t is Function || t is Vector || t is Matrix
}

/// What goes before the item at index `i` of a list: nothing before the
/// first, `;` where a new row of `cols` items starts, else `,`.
pub open spec fn separator(i: int, cols: nat) -> Seq<char> {
    if i == 0 {
        Seq::empty()
    } else if cols > 0 && i % (cols as int) == 0 {
        seq![';']
    } else {
        seq![',']
    }
}

/// The text of a tree, with the parentheses that its shape needs to parse back.
pub open spec fn render(t: Term) -> Seq<char>
    decreases t,
{
    match t {
        Term::Atom(l) => leaf_text(l),
        Term::Negate(x) => seq!['-'] + wrap_if(!(*x is Atom), render(*x)),
        Term::Factorial(x) => wrap_if(!(*x is Atom), render(*x)) + seq!['!'],
        Term::Percent(x) => wrap_if(!(*x is Atom), render(*x)) + seq!['%'],
        Term::Add(l, r) => render(*l) + seq!['+'] + wrap_if(is_additive(*r), render(*r)),
        Term::Subtract(l, r) => render(*l) + seq!['-'] + wrap_if(is_additive(*r), render(*r)),
        Term::Modulus(l, r) => wrap_if(is_additive(*l), render(*l)) + seq!['%'] + wrap_if(
            is_additive(*r) || is_product(*r),
            render(*r),
        ),
        Term::Multiply(l, r) => wrap_if(is_additive(*l) || *l is Modulus, render(*l)) + seq![
            '\\',
            'c',
            'd',
            'o',
            't',
        ] + wrap_if(is_additive(*r) || is_product(*r), render(*r)),
        Term::Divide(l, r) => seq!['\\', 'f', 'r', 'a', 'c', '{'] + render(*l) + seq!['}', '{']
            + render(*r) + seq!['}'],
        Term::Power(l, r) => wrap_if(!is_simple(*l), render(*l)) + seq!['^'] + if *r is Atom {
            render(*r)
        } else {
            seq!['{'] + render(*r) + seq!['}']
        },
        Term::Function { name, args } => name + open_group() + render_items(args, 0) + close_group(),
        Term::Vector { size, backing } => seq!['<'] + render_items(backing, 0) + seq!['>'],
        Term::Matrix { rows, cols, backing } => seq!['['] + render_items(backing, cols) + seq![']'],
    }
}

/// The items of a list, each after its separator.
pub open spec fn render_items(items: Seq<Term>, cols: nat) -> Seq<char>
    decreases items,
{
    if items.len() == 0 {
        Seq::empty()
    } else {
        render_items(items.drop_last(), cols) + separator(items.len() - 1, cols) + render(
            items[items.len() - 1],
        )
    }
}


pub proof fn lemma_terms_index(v: Seq<Box<Expression>>, i: int)
    requires
        0 <= i < v.len(),
    ensures
        terms_of(v).len() == v.len(),
        terms_of(v)[i] == term_of(*v[i]),
    decreases v.len(),
{
    lemma_terms_len(v);
    if i < v.len() - 1 {
        lemma_terms_index(v.drop_last(), i);
    }
}

fn push_all(out: &mut Vec<char>, t: &[char])
    ensures
        final(out)@ == old(out)@ + t@,
{
    let mut i: usize = 0;
    while i < t.len()
        invariant
            0 <= i <= t@.len(),
            out@ == old(out)@ + t@.take(i as int),
        decreases t@.len() - i,
    {
        out.push(t[i]);
        i = i + 1;
        assert(t@.take(i as int) =~= t@.take(i - 1).push(t@[i - 1]));
    }
    assert(t@.take(i as int) =~= t@);
}

fn push_text(out: &mut Vec<char>, t: &String)
    ensures
        final(out)@ == old(out)@ + t@,
{
    let v = chars_of(t.as_str());
    push_all(out, v.as_slice());
}

fn write_nat(n: u32, out: &mut Vec<char>)
    ensures
        final(out)@ == old(out)@ + nat_text(n as nat),
    decreases n,
{
    let digits = ['0', '1', '2', '3', '4', '5', '6', '7', '8', '9'];
    assert(digits@ =~= seq!['0', '1', '2', '3', '4', '5', '6', '7', '8', '9']);
    if n >= 10 {
        write_nat(n / 10, out);
    }
    out.push(digits[(n % 10) as usize]);
    assert(out@ =~= old(out)@ + nat_text(n as nat));
}

fn write_leaf(a: &Atom, out: &mut Vec<char>)
    ensures
        final(out)@ == old(out)@ + leaf_text(leaf_of(*a)),
{
    match a {
        Atom::Numeric(Numeric::Integer(i)) => {
            if *i < 0 {
                out.push('-');
                let m = (0 - (*i as i64)) as u32;
                write_nat(m, out);
            } else {
                write_nat(*i as u32, out);
            }
            assert(out@ =~= old(out)@ + leaf_text(leaf_of(*a)));
        },
        Atom::Numeric(Numeric::Decimal(t)) => push_text(out, t),
        Atom::Variable(c) => {
            out.push(*c);
            assert(out@ =~= old(out)@ + leaf_text(leaf_of(*a)));
        },
        Atom::Escape(k, n) => {
            out.push('_');
            let c = match k {
                Escape::Atom => 'A',
                Escape::Function => 'F',
                Escape::Vector => 'V',
                Escape::Matrix => 'M',
                Escape::Everything => '*',
            };
            out.push(c);
            write_nat(*n as u32, out);
            assert(out@ =~= old(out)@ + leaf_text(leaf_of(*a)));
        },
    }
}

fn write_open(out: &mut Vec<char>)
    ensures
        final(out)@ == old(out)@ + open_group(),
{
    let t = ['\\', 'l', 'e', 'f', 't', '('];
    assert(t@ =~= open_group());
    push_all(out, &t);
}

fn write_close(out: &mut Vec<char>)
    ensures
        final(out)@ == old(out)@ + close_group(),
{
    let t = ['\\', 'r', 'i', 'g', 'h', 't', ')'];
    assert(t@ =~= close_group());
    push_all(out, &t);
}

fn is_additive_node(e: &Expression) -> (r: bool)
    ensures
        r == is_additive(term_of(*e)),
{
    match e {
        Expression::Add(..) | Expression::Subtract(..) => true,
        _ => false,
    }
}

fn is_product_node(e: &Expression) -> (r: bool)
    ensures
        r == is_product(term_of(*e)),
{
    match e {
        Expression::Multiply(..) | Expression::Modulus(..) => true,
        _ => false,
    }
}

fn is_atom_node(e: &Expression) -> (r: bool)
    ensures
        r == term_of(*e) is Atom,
{
    match e {
        Expression::Atom(_) => true,
        _ => false,
    }
}

fn is_simple_node(e: &Expression) -> (r: bool)
    ensures
        r == is_simple(term_of(*e)),
{
    match e {
        Expression::Atom(_) | Expression::Function { .. } | Expression::Vector { .. }
        | Expression::Matrix { .. } => true,
        _ => false,
    }
}

/// Writes the text of `e`, in parentheses where `group` holds.
fn write_wrapped(e: &Expression, group: bool, out: &mut Vec<char>)
    ensures
        final(out)@ == old(out)@ + wrap_if(group, render(term_of(*e))),
    decreases e, 1nat,
{
    if group {
        write_open(out);
        write_term(e, out);
        write_close(out);
        assert(out@ =~= old(out)@ + wrap_if(group, render(term_of(*e))));
    } else {
        write_term(e, out);
    }
}

/// Writes the items of a list with their separators.
fn write_items(v: &Vec<Box<Expression>>, cols: usize, out: &mut Vec<char>)
    ensures
        final(out)@ == old(out)@ + render_items(terms_of(v@), cols as nat),
    decreases v, 0nat,
{
    let ghost items = terms_of(v@);
    proof {
        lemma_terms_len(v@);
    }
    let mut i: usize = 0;
    assert(items.take(0) =~= Seq::<Term>::empty());
    while i < v.len()
        invariant
            0 <= i <= v@.len(),
            items == terms_of(v@),
            items.len() == v@.len(),
            out@ == old(out)@ + render_items(items.take(i as int), cols as nat),
        decreases v@.len() - i,
    {
        if i > 0 {
            if cols > 0 && i % cols == 0 {
                out.push(';');
            } else {
                out.push(',');
            }
        }
        proof {
            lemma_terms_index(v@, i as int);
        }
        write_term(&v[i], out);
        proof {
            let t = items.take(i + 1);
            assert(t.drop_last() =~= items.take(i as int));
            assert(t[t.len() - 1] == term_of(*v@[i as int]));
        }
        i = i + 1;
        assert(out@ =~= old(out)@ + render_items(items.take(i as int), cols as nat));
    }
    assert(items.take(i as int) =~= items);
}

fn write_term(e: &Expression, out: &mut Vec<char>)
    ensures
        final(out)@ == old(out)@ + render(term_of(*e)),
    decreases e, 0nat,
{
    match e {
        Expression::Atom(a) => write_leaf(a, out),
        Expression::Negate(x) => {
            out.push('-');
            write_wrapped(x, !is_atom_node(x), out);
        },
        Expression::Factorial(x) => {
            write_wrapped(x, !is_atom_node(x), out);
            out.push('!');
        },
        Expression::Percent(x) => {
            write_wrapped(x, !is_atom_node(x), out);
            out.push('%');
        },
        Expression::Add(l, r) => {
            write_term(l, out);
            out.push('+');
            write_wrapped(r, is_additive_node(r), out);
        },
        Expression::Subtract(l, r) => {
            write_term(l, out);
            out.push('-');
            write_wrapped(r, is_additive_node(r), out);
        },
        Expression::Modulus(l, r) => {
            write_wrapped(l, is_additive_node(l), out);
            out.push('%');
            write_wrapped(r, is_additive_node(r) || is_product_node(r), out);
        },
        Expression::Multiply(l, r) => {
            let lm = match &**l {
                Expression::Modulus(..) => true,
                _ => false,
            };
            write_wrapped(l, is_additive_node(l) || lm, out);
            let t = ['\\', 'c', 'd', 'o', 't'];
            push_all(out, &t);
            write_wrapped(r, is_additive_node(r) || is_product_node(r), out);
        },
        Expression::Divide(l, r) => {
            let t = ['\\', 'f', 'r', 'a', 'c', '{'];
            push_all(out, &t);
            write_term(l, out);
            out.push('}');
            out.push('{');
            write_term(r, out);
            out.push('}');
        },
        Expression::Power(l, r) => {
            write_wrapped(l, !is_simple_node(l), out);
            out.push('^');
            if is_atom_node(r) {
                write_term(r, out);
            } else {
                out.push('{');
                write_term(r, out);
                out.push('}');
            }
        },
        Expression::Function { name, args } => {
            push_text(out, name);
            write_open(out);
            write_items(args, 0, out);
            write_close(out);
        },
        Expression::Vector { size, backing } => {
            out.push('<');
            write_items(backing, 0, out);
            out.push('>');
        },
        Expression::Matrix { shape, backing } => {
            out.push('[');
            write_items(backing, shape.1, out);
            out.push(']');
        },
    }
    assert(out@ =~= old(out)@ + render(term_of(*e)));
}

/// The text of an expression tree, with the parentheses that its shape needs
/// to parse back to the same tree.
pub fn latexify(expr: &Expression) -> (r: String)
    ensures
        r@ == render(term_of(*expr)),
{
    let mut out: Vec<char> = Vec::new();
    write_term(expr, &mut out);
    assert(out@.subrange(0, out@.len() as int) =~= out@);
    string_from(&out, 0, out.len())
}

} // verus!
