use tdd_kata::calculator_ast::{Ast, ParseAstError};

fn num(text: &str) -> Ast {
    Ast::Num(text.to_string())
}

fn op(c: char, l: Ast, r: Ast) -> Ast {
    Ast::Op(c, Box::new(l), Box::new(r))
}

fn value(a: &Ast) -> f64 {
    match a {
        Ast::Num(t) => t.parse::<f64>().unwrap(),
        Ast::Op(..) => panic!("not a leaf"),
    }
}

#[test]
fn error() {
    assert_eq!(Ast::from_str("abc"), Err(ParseAstError))
}

#[test]
fn number() {
    let r = Ast::from_str("1").unwrap();
    assert_eq!(value(&r), 1.0);
    assert_eq!(r, num("1"));
}

#[test]
fn negative_number() {
    let r = Ast::from_str("-5").unwrap();
    assert_eq!(value(&r), -5.0);
    assert_eq!(r, num("-5"));
}

#[test]
fn addition() {
    assert_eq!(Ast::from_str("4+3"), Ok(op('+', num("4"), num("3"))))
}

#[test]
fn subtraction() {
    assert_eq!(Ast::from_str("5-2"), Ok(op('-', num("5"), num("2"))))
}

#[test]
fn multiplication() {
    assert_eq!(Ast::from_str("5*8"), Ok(op('*', num("5"), num("8"))))
}

#[test]
fn division() {
    assert_eq!(Ast::from_str("9/3"), Ok(op('/', num("9"), num("3"))))
}

#[test]
fn multiple_operations() {
    assert_eq!(
        Ast::from_str("3-8*2+45/5"),
        Ok(op(
            '+',
            op('-', num("3"), op('*', num("8"), num("2"))),
            op('/', num("45"), num("5"))
        ))
    )
}

#[test]
fn decimal_literal_is_a_leaf() {
    let r = Ast::from_str("3.25").unwrap();
    assert_eq!(value(&r), 3.25);
    assert_eq!(r, num("3.25"));
}

#[test]
fn literal_forms() {
    assert_eq!(Ast::from_str("1."), Ok(num("1.")));
    assert_eq!(Ast::from_str(".5"), Ok(num(".5")));
    assert_eq!(Ast::from_str("-0.75"), Ok(num("-0.75")));
}

#[test]
fn malformed_literals_fail() {
    assert_eq!(Ast::from_str(""), Err(ParseAstError));
    assert_eq!(Ast::from_str("-"), Err(ParseAstError));
    assert_eq!(Ast::from_str("."), Err(ParseAstError));
    assert_eq!(Ast::from_str("1.2.3"), Err(ParseAstError));
    assert_eq!(Ast::from_str("+1"), Err(ParseAstError));
    assert_eq!(Ast::from_str("5 "), Err(ParseAstError));
}

#[test]
fn missing_operand_after_operator_fails() {
    assert_eq!(Ast::from_str("4+"), Err(ParseAstError));
    assert_eq!(Ast::from_str("4*"), Err(ParseAstError));
    assert_eq!(Ast::from_str("4*/2"), Err(ParseAstError));
    assert_eq!(Ast::from_str("1+2*x"), Err(ParseAstError));
}

#[test]
fn negative_operand_after_operator() {
    assert_eq!(Ast::from_str("5--3"), Ok(op('-', num("5"), num("-3"))));
    assert_eq!(Ast::from_str("2*-4"), Ok(op('*', num("2"), num("-4"))));
}

#[test]
fn same_level_operators_group_to_the_left() {
    assert_eq!(
        Ast::from_str("8*2*3"),
        Ok(op('*', op('*', num("8"), num("2")), num("3")))
    );
    assert_eq!(
        Ast::from_str("9-4-1"),
        Ok(op('-', op('-', num("9"), num("4")), num("1")))
    );
    assert_eq!(
        Ast::from_str("8/2*3"),
        Ok(op('*', op('/', num("8"), num("2")), num("3")))
    );
}

#[test]
fn parsing_twice_gives_equal_trees() {
    let s = "3-8*2+45/5";
    assert_eq!(Ast::from_str(s), Ast::from_str(s));
    assert_eq!(Ast::from_str("abc"), Ast::from_str("abc"));
}

#[test]
fn exponent_literal_is_a_leaf() {
    let r = Ast::from_str("1e5").unwrap();
    assert_eq!(value(&r), 100000.0);
    assert_eq!(r, num("1e5"));
    assert_eq!(Ast::from_str("-2.5E3"), Ok(num("-2.5E3")));
    assert_eq!(Ast::from_str("1e5*2"), Ok(op('*', num("1e5"), num("2"))));
}

#[test]
fn malformed_exponents_fail() {
    assert_eq!(Ast::from_str("1e"), Err(ParseAstError));
    assert_eq!(Ast::from_str("e5"), Err(ParseAstError));
    assert_eq!(Ast::from_str(".e5"), Err(ParseAstError));
    assert_eq!(Ast::from_str("1e5e2"), Err(ParseAstError));
    assert_eq!(Ast::from_str("1e5.0"), Err(ParseAstError));
    assert_eq!(Ast::from_str("1e-5"), Err(ParseAstError));
}
