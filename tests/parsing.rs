use mathrs::{parse, AstNode, Error, ErrorKind, Ops, Parser};

fn num(n: i32) -> AstNode {
    AstNode::Number(n)
}

fn bin(left: AstNode, op: Ops, right: AstNode) -> AstNode {
    AstNode::BinOp { left: Box::new(left), op, right: Box::new(right) }
}

fn un(op: Ops, operand: AstNode) -> AstNode {
    AstNode::UnOp { op, operand: Box::new(operand) }
}

fn value(node: &AstNode) -> f64 {
    match node {
        AstNode::Number(n) => *n as f64,
        AstNode::UnOp { op, operand } => match op {
            Ops::Add => value(operand),
            Ops::Sub => -value(operand),
            _ => panic!("unexpected unary operator {op:?}"),
        },
        AstNode::BinOp { left, op, right } => {
            let l = value(left);
            let r = value(right);
            match op {
                Ops::Add => l + r,
                Ops::Sub => l - r,
                Ops::Mul => l * r,
                Ops::Div => l / r,
                Ops::Pow => l.powf(r),
            }
        }
    }
}

fn eval(text: &str) -> f64 {
    value(&parse(text).unwrap())
}

fn error_kind(text: &str) -> ErrorKind {
    parse(text).unwrap_err().kind
}

fn leaves(node: &AstNode, out: &mut Vec<i32>) {
    match node {
        AstNode::Number(n) => out.push(*n),
        AstNode::UnOp { operand, .. } => leaves(operand, out),
        AstNode::BinOp { left, right, .. } => {
            leaves(left, out);
            leaves(right, out);
        }
    }
}

fn operators(node: &AstNode) -> usize {
    match node {
        AstNode::Number(_) => 0,
        AstNode::UnOp { operand, .. } => 1 + operators(operand),
        AstNode::BinOp { left, right, .. } => 1 + operators(left) + operators(right),
    }
}

#[test]
fn multiplication_binds_tighter_than_addition() {
    assert_eq!(
        parse("2+3*4").unwrap(),
        bin(num(2), Ops::Add, bin(num(3), Ops::Mul, num(4)))
    );
    assert_eq!(eval("2+3*4"), 14.0);
}

#[test]
fn parentheses_group_first() {
    assert_eq!(
        parse("(2+3)*4").unwrap(),
        bin(bin(num(2), Ops::Add, num(3)), Ops::Mul, num(4))
    );
    assert_eq!(eval("(2+3)*4"), 20.0);
}

#[test]
fn power_is_right_associative() {
    assert_eq!(
        parse("2^3^2").unwrap(),
        bin(num(2), Ops::Pow, bin(num(3), Ops::Pow, num(2)))
    );
    assert_eq!(eval("2^3^2"), 512.0);
    assert_ne!(eval("2^3^2"), 64.0);
}

#[test]
fn other_operators_are_left_associative() {
    assert_eq!(
        parse("8-3-2").unwrap(),
        bin(bin(num(8), Ops::Sub, num(3)), Ops::Sub, num(2))
    );
    assert_eq!(eval("8-3-2"), 3.0);
    assert_eq!(eval("16/4/2"), 2.0);
}

#[test]
fn sign_binds_looser_than_power() {
    assert_eq!(parse("-2^2").unwrap(), un(Ops::Sub, bin(num(2), Ops::Pow, num(2))));
    assert_eq!(eval("-2^2"), -4.0);
}

#[test]
fn sign_binds_tighter_than_product() {
    assert_eq!(parse("-2*3").unwrap(), bin(un(Ops::Sub, num(2)), Ops::Mul, num(3)));
    assert_eq!(eval("-2*3"), -6.0);
}

#[test]
fn signs_after_binary_operators() {
    assert_eq!(parse("2*-3").unwrap(), bin(num(2), Ops::Mul, un(Ops::Sub, num(3))));
    assert_eq!(eval("2--3"), 5.0);
    assert_eq!(eval("+4"), 4.0);
    assert_eq!(eval("-(-2)"), 2.0);
}

#[test]
fn unclosed_parenthesis() {
    assert_eq!(error_kind("(1+2"), ErrorKind::UnclosedParen);
    assert_eq!(
        parse("(1+2").unwrap_err(),
        Error { kind: ErrorKind::UnclosedParen, line: 1, column: 4 }
    );
}

#[test]
fn mismatched_parenthesis() {
    assert_eq!(error_kind("1+2)"), ErrorKind::MismatchedParen);
    assert_eq!(
        parse("1+2)").unwrap_err(),
        Error { kind: ErrorKind::MismatchedParen, line: 1, column: 4 }
    );
    assert_eq!(error_kind(")"), ErrorKind::MismatchedParen);
}

#[test]
fn trailing_operator() {
    assert_eq!(error_kind("1+"), ErrorKind::UnexpectedToken);
    assert_eq!(
        parse("1+").unwrap_err(),
        Error { kind: ErrorKind::UnexpectedToken, line: 1, column: 2 }
    );
}

#[test]
fn division_by_zero_is_infinite() {
    assert_eq!(parse("1/0").unwrap(), bin(num(1), Ops::Div, num(0)));
    let v = eval("1/0");
    assert!(v.is_infinite() && v > 0.0);
    assert!(eval("0/0").is_nan());
}

#[test]
fn repeated_parses_agree() {
    let text = "(1 + 2) * 3 ^ 2 / -4";
    let first = parse(text);
    let second = parse(text);
    assert_eq!(first, second);
    assert_eq!(eval(text).to_bits(), eval(text).to_bits());
    assert_eq!(parse("1+"), parse("1+"));
}

#[test]
fn every_token_is_used_once() {
    let tree = parse("1 + 2 * (3 - 4) ^ 5 / -6").unwrap();
    let mut found = Vec::new();
    leaves(&tree, &mut found);
    assert_eq!(found, vec![1, 2, 3, 4, 5, 6]);
    assert_eq!(operators(&tree), 6);
}

#[test]
fn invalid_unary_operators() {
    assert_eq!(error_kind("*2"), ErrorKind::InvalidUnaryOperator);
    assert_eq!(error_kind("2+/3"), ErrorKind::InvalidUnaryOperator);
    assert_eq!(error_kind("(^2)"), ErrorKind::InvalidUnaryOperator);
}

#[test]
fn missing_operands() {
    assert_eq!(error_kind("--2"), ErrorKind::MissingOperand);
    assert_eq!(error_kind("2^-3"), ErrorKind::MissingOperand);
}

#[test]
fn unexpected_tokens() {
    assert_eq!(error_kind("2 3"), ErrorKind::UnexpectedToken);
    assert_eq!(error_kind("x+1"), ErrorKind::UnexpectedToken);
    assert_eq!(error_kind("1+x"), ErrorKind::UnexpectedToken);
    assert_eq!(error_kind("()"), ErrorKind::UnexpectedToken);
    assert_eq!(error_kind(""), ErrorKind::UnexpectedToken);
    assert_eq!(error_kind("2(3)"), ErrorKind::UnexpectedToken);
}

#[test]
fn lexer_errors_reach_the_caller() {
    assert_eq!(
        parse("1 + $").unwrap_err(),
        Error { kind: ErrorKind::UnexpectedCharacter, line: 1, column: 4 }
    );
    assert_eq!(error_kind("2147483648 + 1"), ErrorKind::NumberTooLarge);
    assert_eq!(parse("2147483647").unwrap(), num(2147483647));
}

#[test]
fn errors_on_later_lines() {
    assert_eq!(
        parse("1 +\n2)").unwrap_err(),
        Error { kind: ErrorKind::MismatchedParen, line: 2, column: 3 }
    );
    assert_eq!(eval("1 +\n\t2\r\n"), 3.0);
}

#[test]
fn parser_from_new() {
    let mut parser = Parser::new("(1)").ok().unwrap();
    assert_eq!(parser.parse_expr().unwrap(), num(1));
    assert_eq!(Parser::new("&").err().unwrap().kind, ErrorKind::UnexpectedCharacter);
    assert_eq!(Parser::new(")").err().unwrap().kind, ErrorKind::MismatchedParen);
}

#[test]
fn nested_parentheses() {
    assert_eq!(eval("((2))"), 2.0);
    assert_eq!(eval("2*(3+(4-1))"), 12.0);
    assert_eq!(error_kind("((2)"), ErrorKind::UnclosedParen);
}

#[test]
fn error_texts() {
    let e = parse("(1").unwrap_err();
    assert_eq!(e.kind(), ErrorKind::UnclosedParen);
    assert_eq!(e.line(), 1);
    assert_eq!(e.column(), 2);
    assert_eq!(e.title(), "Unclosed parenthesis");
    assert_eq!(e.description(), "EOF occurred while some parentheses were unclosed");
    assert_eq!(ErrorKind::InvalidUnaryOperator.title(), "Invalid unary operator");
}

#[test]
fn parenthesised_operators_keep_to_their_operands() {
    assert_eq!(error_kind("3^-4"), ErrorKind::MissingOperand);
    assert_eq!(error_kind("2*(3^-4)"), ErrorKind::MissingOperand);
    assert_eq!(error_kind("--3"), ErrorKind::MissingOperand);
    assert_eq!(error_kind("2+(--3)"), ErrorKind::MissingOperand);
    assert_eq!(
        parse("2*(3^-4)").unwrap_err(),
        Error { kind: ErrorKind::MissingOperand, line: 1, column: 6 }
    );
}

#[test]
fn parenthesised_expression_parses_as_alone() {
    assert_eq!(
        parse("2*(3^4-5)").unwrap(),
        bin(num(2), Ops::Mul, parse("3^4-5").unwrap())
    );
    assert_eq!(parse("1-(-2^2)").unwrap(), bin(num(1), Ops::Sub, parse("-2^2").unwrap()));
    assert_eq!(eval("1-(-2^2)"), 5.0);
}

#[test]
fn parser_after_success_holds_eof() {
    let mut parser = Parser::new("(1+2)*3").ok().unwrap();
    assert_eq!(parser.parse_expr().unwrap(), bin(bin(num(1), Ops::Add, num(2)), Ops::Mul, num(3)));
    assert_eq!(parser.parse_expr().unwrap_err().kind, ErrorKind::UnexpectedToken);
}
