use abacas::integer::Integer;
use abacas::lexer::{lex, LexError, Lexer, Operator, Token};
use abacas::rational::Rational;

fn chars(s: &str) -> Vec<char> {
    s.chars().collect()
}

#[test]
fn lexer_lines() {
    let lexer = Lexer::new("// a comment\n\n2.5 * x^2 = y\n(a - 3) % 4");
    let lines = lexer.tokens().unwrap();
    assert_eq!(lines.len(), 2);
    assert_eq!(lines[0].len(), 7);
    assert_eq!(lines[1].len(), 7);
    match &lines[0][0] {
        Token::Number(q) => {
            assert_eq!(*q, Rational::new(&Integer::from_i64(5), &Integer::from_i64(2)))
        }
        other => panic!("expected a number, got {other:?}"),
    }
    match &lines[0][2] {
        Token::Ident(name) => assert_eq!(name, &chars("x")),
        other => panic!("expected a name, got {other:?}"),
    }
    assert!(matches!(lines[0][5], Token::Eq));
    assert!(matches!(lines[1][0], Token::LParen));
    assert!(matches!(lines[1][5], Token::Rem));
}

#[test]
fn lexer_errors() {
    assert!(matches!(lex(&chars("3 + 4.")), Err(LexError::NoDigitAfterDot)));
    assert!(matches!(lex(&chars(".5")), Err(LexError::NoDigitAfterDot)));
    assert!(matches!(lex(&chars("3 # 4")), Err(LexError::InvalidChar('#'))));
    assert!(matches!(Lexer::new("1 + 2\n3 $ 4\n5 .").tokens(), Err(LexError::InvalidChar('$'))));
}

#[test]
fn operators_from_tokens() {
    let tokens = lex(&chars("+-*/^=")).unwrap();
    let ops: Vec<Option<Operator>> = tokens.iter().map(Operator::from_token).collect();
    assert_eq!(
        ops,
        vec![
            Some(Operator::Add),
            Some(Operator::Sub),
            Some(Operator::Mul),
            Some(Operator::Div),
            Some(Operator::Pow),
            None
        ]
    );
}

#[test]
fn lexer_names_and_numbers() {
    let tokens = lex(&chars("12abc 0.125")).unwrap();
    assert_eq!(tokens.len(), 3);
    match &tokens[2] {
        Token::Number(q) => {
            assert_eq!(*q, Rational::new(&Integer::from_i64(1), &Integer::from_i64(8)))
        }
        other => panic!("expected a number, got {other:?}"),
    }
}
