use formulas::tokenizer::{Token, Tokens};

fn next(val: &mut Tokens) -> Token {
    val.next().unwrap().unwrap()
}

#[test]
fn tokenizer_have_16_bytes_token_max() {
    assert!(std::mem::size_of::<Token>() <= 16);
}

#[test]
fn tokenizer_handle_numbers() {
    let mut tokens = Tokens::new("123.123");
    assert!(matches!(tokens.next().unwrap().unwrap(), Token::Number(..)));
    assert!(matches!(tokens.next(), None));
}

#[test]
fn handle_negative_numbers() {
    let mut tokens = Tokens::new("-123");
    assert!(matches!(next(&mut tokens), Token::Operator { .. }));
    assert!(matches!(next(&mut tokens), Token::Number(..)));
    assert!(matches!(tokens.next(), None));
}

#[test]
fn ignore_spaces() {
    let mut tokens = Tokens::new(" 1 + 2 ");
    assert!(matches!(next(&mut tokens), Token::Number(..)));
    assert!(matches!(next(&mut tokens), Token::Operator { .. }));
    assert!(matches!(next(&mut tokens), Token::Number(..)));
    assert!(matches!(tokens.next(), None));
}

#[test]
fn handle_strings() {
    let mut tokens = Tokens::new(" _abc34_8_ ");
    let opt = tokens.next();
    let res = opt.unwrap();
    let token = res.unwrap();
    assert!(matches!(token, Token::Str(..)));
    assert!(matches!(tokens.next(), None));
}

#[test]
fn handle_comma() {
    let mut tokens = Tokens::new(" (1,2) ");
    assert!(matches!(next(&mut tokens), Token::LParen(..)));
    assert!(matches!(next(&mut tokens), Token::Number(..)));
    assert!(matches!(next(&mut tokens), Token::Comma(..)));
    assert!(matches!(next(&mut tokens), Token::Number(..)));
    assert!(matches!(next(&mut tokens), Token::RParen(..)));
    assert!(matches!(tokens.next(), None));
}

#[test]
fn handle_operators() {
    let string = "+-*/=".to_string();
    let mut tokens = Tokens::new(&string);
    while let Some(token) = tokens.next() {
        assert!(matches!(token.unwrap(), Token::Operator { .. }));
    }
}

#[test]
fn handle_mutli_char_operators() {
    let mut tokens = Tokens::new(">=<=");
    assert!(matches!(next(&mut tokens), Token::Operator { .. }));
    assert!(matches!(next(&mut tokens), Token::Operator { .. }));
    assert!(matches!(tokens.next(), None))
}

#[test]
fn handle_single_dot_error() {
    let error = Tokens::new(" . ").next().unwrap().unwrap_err();
    assert_eq!(error.at, 2);
}
