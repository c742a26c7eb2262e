use mathrs::{ErrorKind, Lexer, Ops, Token};

fn describe(t: &Token) -> String {
    format!("{t:?}")
}

#[test]
fn tokens_with_positions() {
    let mut lexer = Lexer::new("12 + ab\n(3)^");
    let mut seen = Vec::new();
    loop {
        let (t, line, col) = lexer.next_token().ok().unwrap();
        let done = matches!(t, Token::EOF);
        seen.push((describe(&t), line, col));
        if done {
            break;
        }
    }
    let expected = vec![
        (describe(&Token::Number(12)), 1, 2),
        (describe(&Token::Operator(Ops::Add)), 1, 4),
        (describe(&Token::Identifier("ab".to_string())), 1, 7),
        (describe(&Token::OpenParen), 2, 2),
        (describe(&Token::Number(3)), 2, 3),
        (describe(&Token::CloseParen), 2, 4),
        (describe(&Token::Operator(Ops::Pow)), 2, 5),
        (describe(&Token::EOF), 2, 5),
    ];
    assert_eq!(seen, expected);
}

#[test]
fn eof_repeats() {
    let mut lexer = Lexer::new(" 7 ");
    assert!(matches!(lexer.next_token().ok().unwrap().0, Token::Number(7)));
    for _ in 0..3 {
        let (t, line, col) = lexer.next_token().ok().unwrap();
        assert!(matches!(t, Token::EOF));
        assert_eq!((line, col), (1, 3));
    }
}

#[test]
fn empty_input_is_eof() {
    let mut lexer = Lexer::new("");
    let (t, line, col) = lexer.next_token().ok().unwrap();
    assert!(matches!(t, Token::EOF));
    assert_eq!((line, col), (1, 0));
}

#[test]
fn every_operator_character() {
    let mut lexer = Lexer::new("+-*/^");
    let ops = [Ops::Add, Ops::Sub, Ops::Mul, Ops::Div, Ops::Pow];
    for op in ops {
        match lexer.next_token().ok().unwrap().0 {
            Token::Operator(found) => assert_eq!(found, op),
            other => panic!("expected an operator, found {other:?}"),
        }
    }
}

#[test]
fn unexpected_character() {
    let mut lexer = Lexer::new("1\n  #");
    assert!(matches!(lexer.next_token().ok().unwrap().0, Token::Number(1)));
    let e = lexer.next_token().err().unwrap();
    assert_eq!(e.kind, ErrorKind::UnexpectedCharacter);
    assert_eq!((e.line, e.column), (2, 3));
}

#[test]
fn largest_number() {
    let mut lexer = Lexer::new("2147483647 2147483648");
    assert!(matches!(lexer.next_token().ok().unwrap().0, Token::Number(2147483647)));
    let e = lexer.next_token().err().unwrap();
    assert_eq!(e.kind, ErrorKind::NumberTooLarge);
    assert_eq!((e.line, e.column), (1, 11));
}

#[test]
fn digits_and_letters_split() {
    let mut lexer = Lexer::new("007abc9");
    assert!(matches!(lexer.next_token().ok().unwrap().0, Token::Number(7)));
    match lexer.next_token().ok().unwrap().0 {
        Token::Identifier(name) => assert_eq!(name, "abc"),
        other => panic!("expected an identifier, found {other:?}"),
    }
    assert!(matches!(lexer.next_token().ok().unwrap().0, Token::Number(9)));
}
