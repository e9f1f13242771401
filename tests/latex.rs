use latex_expr::expression::{Atom, Escape, Expression, Numeric};
use latex_expr::grammar::ErrorKind;
use latex_expr::latex::latexify;
use latex_expr::parser::{parse, parse_prefix, ParseError};

fn num(i: i32) -> Box<Expression> {
    Box::new(Expression::Atom(Atom::Numeric(Numeric::Integer(i))))
}

fn var(c: char) -> Box<Expression> {
    Box::new(Expression::Atom(Atom::Variable(c)))
}

fn err(kind: ErrorKind, position: usize) -> Result<Expression, ParseError> {
    Err(ParseError { kind, position })
}

#[test]
fn complex_latex() {
    assert_eq!(
        parse("\\frac{5}{6}\\cdot5+\\left(4^{2+x}\\right)-1!+arc\\left(6\\right)"),
        Ok(Expression::Add(
            Box::new(Expression::Subtract(
                Box::new(Expression::Add(
                    Box::new(Expression::Multiply(
                        Box::new(Expression::Divide(
                            Box::new(Expression::Atom(Atom::Numeric(Numeric::Integer(5)))),
                            Box::new(Expression::Atom(Atom::Numeric(Numeric::Integer(6))))
                        )),
                        Box::new(Expression::Atom(Atom::Numeric(Numeric::Integer(5))))
                    )),
                    Box::new(Expression::Power(
                        Box::new(Expression::Atom(Atom::Numeric(Numeric::Integer(4)))),
                        Box::new(Expression::Add(
                            Box::new(Expression::Atom(Atom::Numeric(Numeric::Integer(2)))),
                            Box::new(Expression::Atom(Atom::Variable('x')))
                        ))
                    ))
                )),
                Box::new(Expression::Factorial(Box::new(Expression::Atom(
                    Atom::Numeric(Numeric::Integer(1))
                ))))
            )),
            Box::new(Expression::Function {
                name: "arc".to_string(),
                args: vec![Box::new(Expression::Atom(Atom::Numeric(Numeric::Integer(6))))],
            })
        ))
    )
}

#[test]
fn recursive_latex() {
    assert_eq!(
        parse("5+(6+7)+8"),
        Ok(Expression::Add(
            Box::new(Expression::Add(
                Box::new(Expression::Atom(Atom::Numeric(Numeric::Integer(5)))),
                Box::new(Expression::Add(
                    Box::new(Expression::Atom(Atom::Numeric(Numeric::Integer(6)))),
                    Box::new(Expression::Atom(Atom::Numeric(Numeric::Integer(7))))
                ))
            )),
            Box::new(Expression::Atom(Atom::Numeric(Numeric::Integer(8))))
        ))
    )
}

#[test]
fn complex_string_latex() {
    assert_eq!(
        "\\frac{5}{6}\\cdot5+4^{2+x}-1!+arc\\left(6\\right)",
        latexify(&Expression::Add(
            Box::new(Expression::Subtract(
                Box::new(Expression::Add(
                    Box::new(Expression::Multiply(
                        Box::new(Expression::Divide(
                            Box::new(Expression::Atom(Atom::Numeric(Numeric::Integer(5)))),
                            Box::new(Expression::Atom(Atom::Numeric(Numeric::Integer(6))))
                        )),
                        Box::new(Expression::Atom(Atom::Numeric(Numeric::Integer(5))))
                    )),
                    Box::new(Expression::Power(
                        Box::new(Expression::Atom(Atom::Numeric(Numeric::Integer(4)))),
                        Box::new(Expression::Add(
                            Box::new(Expression::Atom(Atom::Numeric(Numeric::Integer(2)))),
                            Box::new(Expression::Atom(Atom::Variable('x')))
                        ))
                    ))
                )),
                Box::new(Expression::Factorial(Box::new(Expression::Atom(
                    Atom::Numeric(Numeric::Integer(1))
                ))))
            )),
            Box::new(Expression::Function {
                name: "arc".to_string(),
                args: vec![Box::new(Expression::Atom(Atom::Numeric(Numeric::Integer(6))))],
            })
        ))
    )
}

#[test]
fn addition_folds_left() {
    assert_eq!(parse("5+6+7"), Ok(Expression::Add(Box::new(Expression::Add(num(5), num(6))), num(7))));
}

#[test]
fn subtraction_folds_left() {
    assert_eq!(
        parse("5-6-7"),
        Ok(Expression::Subtract(Box::new(Expression::Subtract(num(5), num(6))), num(7)))
    );
}

#[test]
fn power_groups_right() {
    assert_eq!(
        parse("2^3^4"),
        Ok(Expression::Power(num(2), Box::new(Expression::Power(num(3), num(4)))))
    );
}

#[test]
fn product_binds_tighter_than_sum() {
    assert_eq!(
        parse("2+3\\cdot4"),
        Ok(Expression::Add(num(2), Box::new(Expression::Multiply(num(3), num(4)))))
    );
}

#[test]
fn division_and_modulus_fold_left() {
    assert_eq!(
        parse("8/4%3"),
        Ok(Expression::Modulus(Box::new(Expression::Divide(num(8), num(4))), num(3)))
    );
}

#[test]
fn integer_literal() {
    assert_eq!(parse("3"), Ok(*num(3)));
}

#[test]
fn decimal_literal() {
    let e = parse("3.5").unwrap();
    assert_eq!(e, Expression::Atom(Atom::Numeric(Numeric::Decimal("3.5".to_string()))));
    match e {
        Expression::Atom(Atom::Numeric(Numeric::Decimal(t))) => {
            assert_eq!(t.parse::<f32>().unwrap(), 3.5f32)
        }
        _ => panic!("not a decimal"),
    }
}

#[test]
fn function_with_three_arguments() {
    assert_eq!(
        parse("f(1,2,3)"),
        Ok(Expression::Function { name: "f".to_string(), args: vec![num(1), num(2), num(3)] })
    );
}

#[test]
fn backslash_function_name_with_digits() {
    assert_eq!(
        parse("\\log2\\left(x\\right)"),
        Ok(Expression::Function { name: "log2".to_string(), args: vec![var('x')] })
    );
}

#[test]
fn escape_placeholder() {
    assert_eq!(parse("_A3"), Ok(Expression::Atom(Atom::Escape(Escape::Atom, 3))));
    assert_eq!(parse("_*255"), Ok(Expression::Atom(Atom::Escape(Escape::Everything, 255))));
}

#[test]
fn escape_index_too_large() {
    assert_eq!(parse("_M256"), err(ErrorKind::InvalidNumericLiteral, 0));
}

#[test]
fn matrix_shape_and_order() {
    assert_eq!(
        parse("[1,2;3,4]"),
        Ok(Expression::Matrix { shape: (2, 2), backing: vec![num(1), num(2), num(3), num(4)] })
    );
}

#[test]
fn matrix_rows_must_match() {
    assert_eq!(parse("1+[1,2;3]"), err(ErrorKind::MatrixRowLengthMismatch, 2));
}

#[test]
fn vector_literal() {
    assert_eq!(parse("<1,x>"), Ok(Expression::Vector { size: 2, backing: vec![num(1), var('x')] }));
}

#[test]
fn right_nested_subtraction_round_trips() {
    let t = Expression::Subtract(
        var('a'),
        Box::new(Expression::Subtract(var('b'), var('c'))),
    );
    let text = latexify(&t);
    assert_eq!(text, "a-\\left(b-c\\right)");
    assert_eq!(parse(&text), Ok(t));
}

#[test]
fn nested_products_and_powers_round_trip() {
    let t = Expression::Multiply(
        var('a'),
        Box::new(Expression::Multiply(
            Box::new(Expression::Power(Box::new(Expression::Power(var('b'), num(2))), num(3))),
            Box::new(Expression::Add(var('c'), Box::new(Expression::Add(num(1), num(2))))),
        )),
    );
    let text = latexify(&t);
    assert_eq!(text, "a\\cdot\\left(\\left(b^2\\right)^3\\cdot\\left(c+\\left(1+2\\right)\\right)\\right)");
    assert_eq!(parse(&text), Ok(t));
}

#[test]
fn vector_and_matrix_render_their_items() {
    let v = Expression::Vector { size: 2, backing: vec![num(1), var('y')] };
    assert_eq!(latexify(&v), "<1,y>");
    let m = Expression::Matrix { shape: (2, 2), backing: vec![num(1), num(2), num(3), num(4)] };
    assert_eq!(latexify(&m), "[1,2;3,4]");
    assert_eq!(parse(&latexify(&m)), Ok(m));
}

#[test]
fn leaves_render_as_written() {
    assert_eq!(latexify(&num(-42)), "-42");
    assert_eq!(latexify(&num(1200)), "1200");
    assert_eq!(latexify(&Expression::Atom(Atom::Escape(Escape::Function, 17))), "_F17");
    assert_eq!(latexify(&parse("0.25").unwrap()), "0.25");
}

#[test]
fn unary_operators_render_with_groups() {
    let t = Expression::Negate(Box::new(Expression::Add(var('a'), num(1))));
    assert_eq!(latexify(&t), "-\\left(a+1\\right)");
    assert_eq!(parse(&latexify(&t)), Ok(t));
    let f = Expression::Factorial(Box::new(Expression::Add(var('a'), num(1))));
    assert_eq!(latexify(&f), "\\left(a+1\\right)!");
}

#[test]
fn negation_and_factorial_parse() {
    assert_eq!(parse("--x"), Ok(Expression::Negate(Box::new(Expression::Negate(var('x'))))));
    assert_eq!(
        parse("a^b!"),
        Ok(Expression::Power(var('a'), Box::new(Expression::Factorial(var('b')))))
    );
    assert_eq!(parse("5!"), Ok(Expression::Factorial(num(5))));
    let f = Expression::Factorial(Box::new(Expression::Power(var('a'), var('b'))));
    assert_eq!(latexify(&f), "\\left(a^b\\right)!");
    assert_eq!(parse(&latexify(&f)), Ok(f));
}

#[test]
fn spaces_are_skipped() {
    assert_eq!(parse(" 5 + 6 "), Ok(Expression::Add(num(5), num(6))));
}

#[test]
fn trailing_input_is_an_error() {
    assert_eq!(parse("5+"), err(ErrorKind::Syntax, 1));
    assert_eq!(parse("2x"), err(ErrorKind::Syntax, 1));
}

#[test]
fn empty_input_is_an_error() {
    assert_eq!(parse(""), err(ErrorKind::Syntax, 0));
    assert_eq!(parse("   "), err(ErrorKind::Syntax, 3));
}

#[test]
fn integer_too_large() {
    assert_eq!(parse("2147483647"), Ok(*num(2147483647)));
    assert_eq!(parse("1+2147483648"), err(ErrorKind::InvalidNumericLiteral, 2));
}

#[test]
fn nesting_too_deep() {
    let text = "(".repeat(150) + "1" + &")".repeat(150);
    assert_eq!(parse(&text), err(ErrorKind::StackDepthExceeded, 100));
    let ok = "(".repeat(50) + "1" + &")".repeat(50);
    assert_eq!(parse(&ok), Ok(*num(1)));
}

#[test]
fn prefix_mode_leaves_the_rest() {
    assert_eq!(parse_prefix("5+6 )"), Ok((Expression::Add(num(5), num(6)), 4)));
    assert_eq!(parse_prefix(""), Err(ParseError { kind: ErrorKind::Syntax, position: 0 }));
}

#[test]
fn arithmetic_tree_round_trips() {
    let t = Expression::Power(
        Box::new(Expression::Divide(num(1), num(2))),
        Box::new(Expression::Add(num(3), Box::new(Expression::Multiply(num(4), num(50))))),
    );
    let text = latexify(&t);
    assert_eq!(text, "\\left(\\frac{1}{2}\\right)^{3+4\\cdot50}");
    assert_eq!(parse(&text), Ok(t));
}

#[test]
fn decimal_in_a_product_round_trips() {
    let d = Box::new(Expression::Atom(Atom::Numeric(Numeric::Decimal(".75".to_string()))));
    let t = Expression::Multiply(d, Box::new(Expression::Add(num(1), num(2))));
    let text = latexify(&t);
    assert_eq!(text, ".75\\cdot\\left(1+2\\right)");
    assert_eq!(parse(&text), Ok(t));
}

#[test]
fn empty_argument_lists_are_errors() {
    assert_eq!(parse("f()"), err(ErrorKind::EmptyArgumentList, 0));
    assert_eq!(parse("1+\\sin\\left( \\right)"), err(ErrorKind::EmptyArgumentList, 2));
    assert_eq!(parse("<>"), err(ErrorKind::EmptyArgumentList, 0));
}

#[test]
fn long_flat_inputs_parse() {
    let n = 20000;
    let sum = vec!["1"; n].join("+");
    let mut expected = *num(1);
    for _ in 1..n {
        expected = Expression::Add(Box::new(expected), num(1));
    }
    let parsed = parse(&sum).unwrap();
    assert!(parsed == expected);
    let call = format!("f({})", vec!["2"; n].join(","));
    match parse(&call) {
        Ok(Expression::Function { name, args }) => {
            assert_eq!(name, "f");
            assert_eq!(args.len(), n);
        }
        _ => panic!("not a call"),
    }
}
