use infix_calc::evaluator::{infix_to_postfix_calc, to_postfix, Expr, Postfix};
use infix_calc::expression::parse_expression;
use infix_calc::tokenizer::{is_decimal_literal, tokenize, CalcError, Infix, Op};

fn num(i: usize) -> Expr {
    Expr::Number(i)
}

fn bin(op: Op, l: Expr, r: Expr) -> Expr {
    Expr::Binary(op, Box::new(l), Box::new(r))
}

fn tree_of(s: &str) -> Result<Expr, CalcError> {
    parse_expression(s).map(|p| p.tree)
}

fn lit(s: &str) -> Infix {
    Infix::Number(s.to_string())
}

#[test]
fn tokenize_simple_sum() {
    let t = tokenize("1+2").unwrap();
    assert_eq!(t, vec![lit("1"), Infix::Operator(Op::Add), lit("2")]);
}

#[test]
fn tokenize_all_operators_and_whitespace() {
    let t = tokenize(" (1.5 *\t2)/ 3 -\n.5 ").unwrap();
    assert_eq!(
        t,
        vec![
            Infix::Operator(Op::ParenLeft),
            lit("1.5"),
            Infix::Operator(Op::Mul),
            lit("2"),
            Infix::Operator(Op::ParenRight),
            Infix::Operator(Op::Div),
            lit("3"),
            Infix::Operator(Op::Sub),
            lit(".5"),
        ]
    );
}

#[test]
fn tokenize_whitespace_separates_numbers() {
    assert_eq!(tokenize("1 2").unwrap(), vec![lit("1"), lit("2")]);
}

#[test]
fn tokenize_empty_input() {
    assert_eq!(tokenize("").unwrap(), vec![]);
    assert_eq!(tokenize(" \t\n").unwrap(), vec![]);
}

#[test]
fn tokenize_rejects_leading_minus() {
    assert_eq!(tokenize("-1"), Err(CalcError::NumberParseError));
}

#[test]
fn tokenize_rejects_operator_after_operator() {
    assert_eq!(tokenize("2*-3"), Err(CalcError::NumberParseError));
    assert_eq!(tokenize("(+1)"), Err(CalcError::NumberParseError));
}

#[test]
fn tokenize_accepts_operator_after_paren() {
    assert!(tokenize("(1)*2").is_ok());
    assert!(tokenize("()").is_ok());
}

#[test]
fn tokenize_rejects_bad_literals() {
    assert_eq!(tokenize("1..2"), Err(CalcError::NumberParseError));
    assert_eq!(tokenize("1.2.3+4"), Err(CalcError::NumberParseError));
    assert_eq!(tokenize("."), Err(CalcError::NumberParseError));
    assert_eq!(tokenize("abc"), Err(CalcError::NumberParseError));
    assert_eq!(tokenize("1+x"), Err(CalcError::NumberParseError));
}

#[test]
fn decimal_literal_forms() {
    assert!(is_decimal_literal("12"));
    assert!(is_decimal_literal("1.5"));
    assert!(is_decimal_literal("2."));
    assert!(is_decimal_literal(".5"));
    assert!(!is_decimal_literal(""));
    assert!(!is_decimal_literal("."));
    assert!(!is_decimal_literal("1.2.3"));
    assert!(is_decimal_literal("1e5"));
    assert!(is_decimal_literal("2.5E10"));
    assert!(is_decimal_literal(".5e3"));
    assert!(!is_decimal_literal("1e"));
    assert!(!is_decimal_literal("e5"));
    assert!(!is_decimal_literal("1e5.5"));
    assert!(!is_decimal_literal("1e5e2"));
    assert!(!is_decimal_literal(".e5"));
}

#[test]
fn tokenize_exponent_literals() {
    assert_eq!(
        tokenize("1e5*2.5E-1"),
        Err(CalcError::NumberParseError)
    );
    assert_eq!(
        tokenize("1e5 * 2.5E1").unwrap(),
        vec![lit("1e5"), Infix::Operator(Op::Mul), lit("2.5E1")]
    );
    assert_eq!(tree_of("1e5/2"), Ok(bin(Op::Div, num(0), num(2))));
}

#[test]
fn multiplication_binds_tighter() {
    let e = tree_of("2+3*4").unwrap();
    assert_eq!(e, bin(Op::Add, num(0), bin(Op::Mul, num(2), num(4))));
}

#[test]
fn parentheses_override_precedence() {
    let e = tree_of("(2+3)*4").unwrap();
    assert_eq!(e, bin(Op::Mul, bin(Op::Add, num(1), num(3)), num(6)));
}

#[test]
fn subtraction_is_left_associative() {
    let e = tree_of("10-3-2").unwrap();
    assert_eq!(e, bin(Op::Sub, bin(Op::Sub, num(0), num(2)), num(4)));
}

#[test]
fn division_is_left_associative() {
    let e = tree_of("8/4/2").unwrap();
    assert_eq!(e, bin(Op::Div, bin(Op::Div, num(0), num(2)), num(4)));
}

#[test]
fn lower_precedence_reduces_whole_run() {
    // 1-2*3-4 is (1-(2*3))-4
    let e = tree_of("1-2*3-4").unwrap();
    assert_eq!(
        e,
        bin(Op::Sub, bin(Op::Sub, num(0), bin(Op::Mul, num(2), num(4))), num(6))
    );
}

#[test]
fn nested_parentheses() {
    let e = tree_of("((1))").unwrap();
    assert_eq!(e, num(2));
}

#[test]
fn unclosed_paren_is_unbalanced() {
    assert_eq!(tree_of("(1+2"), Err(CalcError::UnbalancedParenthesesError));
}

#[test]
fn unopened_paren_is_unbalanced() {
    assert_eq!(tree_of("1+2)"), Err(CalcError::UnbalancedParenthesesError));
    assert_eq!(tree_of(")"), Err(CalcError::UnbalancedParenthesesError));
}

#[test]
fn two_operands_are_malformed() {
    assert_eq!(tree_of("1 2"), Err(CalcError::MalformedExpressionError));
}

#[test]
fn missing_operand_is_malformed() {
    assert_eq!(tree_of("1+"), Err(CalcError::MalformedExpressionError));
    assert_eq!(tree_of("(1+)"), Err(CalcError::MalformedExpressionError));
    assert_eq!(tree_of("()"), Err(CalcError::MalformedExpressionError));
}

#[test]
fn empty_input_is_malformed() {
    assert_eq!(tree_of(""), Err(CalcError::MalformedExpressionError));
}

#[test]
fn number_error_comes_first() {
    assert_eq!(tree_of("(1+-2"), Err(CalcError::NumberParseError));
}

#[test]
fn division_by_zero_is_no_error() {
    let e = tree_of("2/0").unwrap();
    assert_eq!(e, bin(Op::Div, num(0), num(2)));
}

#[test]
fn automaton_on_tokens() {
    let toks = vec![lit("7"), Infix::Operator(Op::Mul), lit("6")];
    assert_eq!(infix_to_postfix_calc(&toks), Ok(bin(Op::Mul, num(0), num(2))));
    let bad = vec![Infix::Operator(Op::Add)];
    assert_eq!(infix_to_postfix_calc(&bad), Err(CalcError::MalformedExpressionError));
}

#[test]
fn well_formed_expressions_evaluate() {
    for s in ["1", "(1)", "1+2*3", "((1+2)*(3-4))/5", "1*(2+(3/(4-5)))-6", "(((7)))"] {
        assert!(tree_of(s).is_ok(), "{}", s);
    }
}

#[test]
fn parsing_twice_gives_the_same_result() {
    for s in ["2+3*4", "(1+2", "1 2", "-1", "(2+3)*4"] {
        let a = parse_expression(s);
        let b = parse_expression(s);
        match (a, b) {
            (Ok(x), Ok(y)) => {
                assert_eq!(x.tokens, y.tokens);
                assert_eq!(x.tree, y.tree);
            }
            (Err(x), Err(y)) => assert_eq!(x, y),
            _ => panic!("different outcomes for {}", s),
        }
    }
}

#[test]
fn postfix_form() {
    let e = tree_of("(2+3)*4").unwrap();
    assert_eq!(
        to_postfix(&e),
        vec![
            Postfix::Number(1),
            Postfix::Number(3),
            Postfix::Operator(Op::Add),
            Postfix::Number(6),
            Postfix::Operator(Op::Mul),
        ]
    );
}

#[test]
fn tokens_keep_literal_text() {
    let p = parse_expression("12.5 + 3").unwrap();
    assert_eq!(p.tokens[0], lit("12.5"));
    assert_eq!(p.tree, bin(Op::Add, num(0), num(2)));
}
