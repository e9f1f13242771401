use vstd::prelude::*;

verus! {

/// The category of hole that an escape placeholder stands for.
#[derive(Clone, Copy, Debug, PartialEq, Eq, Structural)]
pub enum Escape {
    Atom,
    Function,
    Vector,
    Matrix,
    Everything,
}

/// A number as written. A decimal keeps the exact text of its literal
/// (digits with one decimal point), so no precision is lost.
#[derive(Debug, PartialEq)]
pub enum Numeric {
    Integer(i32),
    Decimal(String),
}

/// A leaf of an expression tree.
#[derive(Debug, PartialEq)]
pub enum Atom {
    Numeric(Numeric),
    Variable(char),
    Escape(Escape, u8),
}

/// An expression tree; every node owns its children.
#[derive(Debug, PartialEq)]
pub enum Expression {
    Atom(Atom),
    Negate(Box<Expression>),
    Factorial(Box<Expression>),
    Percent(Box<Expression>),
    Add(Box<Expression>, Box<Expression>),
    Subtract(Box<Expression>, Box<Expression>),
    Multiply(Box<Expression>, Box<Expression>),
    Divide(Box<Expression>, Box<Expression>),
    Power(Box<Expression>, Box<Expression>),
    Modulus(Box<Expression>, Box<Expression>),
    Function { name: String, args: Vec<Box<Expression>> },
    Vector { size: usize, backing: Vec<Box<Expression>> },
    Matrix { shape: (usize, usize), backing: Vec<Box<Expression>> },
}

/// The mathematical value of a leaf.
pub enum Leaf {
    Integer(i32),
    Decimal(Seq<char>),
    Variable(char),
    Escape(Escape, u8),
}

/// The mathematical value of an expression tree.
pub enum Term {
    Atom(Leaf),
    Negate(Box<Term>),
    Factorial(Box<Term>),
    Percent(Box<Term>),
    Add(Box<Term>, Box<Term>),
    Subtract(Box<Term>, Box<Term>),
    Multiply(Box<Term>, Box<Term>),
    Divide(Box<Term>, Box<Term>),
    Power(Box<Term>, Box<Term>),
    Modulus(Box<Term>, Box<Term>),
    Function { name: Seq<char>, args: Seq<Term> },
    Vector { size: nat, backing: Seq<Term> },
    Matrix { rows: nat, cols: nat, backing: Seq<Term> },
}

pub open spec fn leaf_of(a: Atom) -> Leaf {
    match a {
        Atom::Numeric(Numeric::Integer(i)) => Leaf::Integer(i),
        Atom::Numeric(Numeric::Decimal(t)) => Leaf::Decimal(t@),
        Atom::Variable(c) => Leaf::Variable(c),
        Atom::Escape(k, n) => Leaf::Escape(k, n),
    }
}

/// The model of an expression tree.
pub open spec fn term_of(e: Expression) -> Term
    decreases e,
{
    match e {
        Expression::Atom(a) => Term::Atom(leaf_of(a)),
        Expression::Negate(x) => Term::Negate(Box::new(term_of(*x))),
        Expression::Factorial(x) => Term::Factorial(Box::new(term_of(*x))),
        Expression::Percent(x) => Term::Percent(Box::new(term_of(*x))),
        Expression::Add(l, r) => Term::Add(Box::new(term_of(*l)), Box::new(term_of(*r))),
        Expression::Subtract(l, r) => Term::Subtract(Box::new(term_of(*l)), Box::new(term_of(*r))),
        Expression::Multiply(l, r) => Term::Multiply(Box::new(term_of(*l)), Box::new(term_of(*r))),
        Expression::Divide(l, r) => Term::Divide(Box::new(term_of(*l)), Box::new(term_of(*r))),
        Expression::Power(l, r) => Term::Power(Box::new(term_of(*l)), Box::new(term_of(*r))),
        Expression::Modulus(l, r) => Term::Modulus(Box::new(term_of(*l)), Box::new(term_of(*r))),
        Expression::Function { name, args } => Term::Function { name: name@, args: terms_of(args@) },
        Expression::Vector { size, backing } => Term::Vector { size: size as nat, backing: terms_of(backing@) },
        Expression::Matrix { shape, backing } => Term::Matrix {
            rows: shape.0 as nat,
            cols: shape.1 as nat,
            backing: terms_of(backing@),
        },
    }
}

/// The models of a sequence of expression trees, in order.
pub open spec fn terms_of(v: Seq<Box<Expression>>) -> Seq<Term>
    decreases v,
{
    if v.len() == 0 {
        Seq::empty()
    } else {
        terms_of(v.drop_last()).push(term_of(*v.last()))
    }
}


pub proof fn lemma_terms_len(v: Seq<Box<Expression>>)
    ensures
        terms_of(v).len() == v.len(),
    decreases v.len(),
{
    if v.len() > 0 {
        lemma_terms_len(v.drop_last());
    }
}

pub proof fn lemma_terms_concat(a: Seq<Box<Expression>>, b: Seq<Box<Expression>>)
    ensures
        terms_of(a + b) == terms_of(a) + terms_of(b),
    decreases b.len(),
{
    if b.len() == 0 {
        assert(a + b =~= a);
        assert(terms_of(b) =~= Seq::<Term>::empty());
        assert(terms_of(a) + terms_of(b) =~= terms_of(a));
    } else {
        lemma_terms_concat(a, b.drop_last());
        assert((a + b).drop_last() =~= a + b.drop_last());
        assert((a + b).last() == b.last());
        assert(terms_of(a) + terms_of(b) =~= (terms_of(a) + terms_of(b.drop_last())).push(
            term_of(*b.last()),
        ));
    }
}

} // verus!
