use formulas::operator;
use formulas::parser::parse;
use formulas::tokenizer::Token;
use formulas::{Error, Expr, FuncExpr, Position};

fn number() -> Result<Token, Error> {
    Ok(Token::Number(Position { at: 0, len: 0 }))
}

fn string_item() -> Result<Token, Error> {
    Ok(Token::Str(Position { at: 0, len: 0 }))
}

fn l_paren() -> Result<Token, Error> {
    Ok(Token::LParen(0))
}

fn r_paren() -> Result<Token, Error> {
    Ok(Token::RParen(0))
}

fn operator_item() -> Result<Token, Error> {
    Ok(Token::Operator { at: 0, operator_ix: 0 })
}

#[test]
fn parser_handle_numbers() {
    let tokens = vec![number()];
    assert!(matches!(parse(&tokens), Ok(Expr::Number(..))));
}

#[test]
fn handle_single_unary() {
    let tokens = vec![operator_item(), number()];
    assert!(matches!(parse(&tokens), Ok(Expr::Unary { .. })));
}

#[test]
fn handle_nested_unary() {
    let tokens = vec![operator_item(), operator_item(), number()];
    if let Ok(Expr::Unary { expr: unary, operator_ix: _ }) = parse(&tokens) {
        if let Expr::Unary { expr: num, operator_ix: _ } = *unary {
            assert!(matches!(*num, Expr::Number(..)));
            return;
        }
    }
    assert!(false);
}

#[test]
fn handle_parentheses() {
    let tokens = vec![l_paren(), number(), r_paren()];
    let tree = parse(&tokens);
    assert!(matches!(tree, Ok(Expr::Number(..))));
}

#[test]
fn handle_binary_expr() {
    let tokens = vec![number(), operator_item(), number()];
    assert!(matches!(parse(&tokens), Ok(Expr::Binary(..))));
}

#[test]
fn handle_multiple_binary_expr() {
    let tokens = vec![number(), operator_item(), number(), operator_item(), number()];
    if let Ok(Expr::Binary(bin_expr)) = parse(&tokens) {
        let expr = *bin_expr;
        assert!(matches!(expr.left, Expr::Binary(..)));
        assert!(matches!(expr.right, Expr::Number(..)));
    } else {
        assert!(false)
    }
}

#[test]
fn parser_handle_variable() {
    let tokens = vec![string_item()];
    let expr = parse(&tokens).unwrap();
    assert!(matches!(expr, Expr::Variable(..)));
}

#[test]
fn handle_func_no_params() {
    let tokens = vec![string_item(), l_paren(), r_paren()];
    assert!(matches!(parse(&tokens), Ok(Expr::Func { .. })));
}

#[test]
fn handle_func_with_params() {
    let tokens = vec![
        string_item(),
        l_paren(),
        number(),
        Ok(Token::Comma(0)),
        number(),
        r_paren(),
    ];
    if let Ok(Expr::Func(boxed)) = parse(&tokens) {
        let FuncExpr { name: _, params } = *boxed;
        assert_eq!(params.len(), 2);
    } else {
        assert!(false)
    }
}

#[test]
fn parser_respect_operator_precedence() {
    let tokens = vec![
        number(),
        Ok(Token::Operator { at: 0, operator_ix: operator::is_operator('+').unwrap() }),
        number(),
        Ok(Token::Operator { at: 0, operator_ix: operator::is_operator('*').unwrap() }),
        number(),
    ];
    if let Expr::Binary(bin1) = parse(&tokens).unwrap() {
        if let Expr::Binary(bin2) = (*bin1).right {
            let bin2 = *bin2;
            assert_eq!(operator::from(bin1.operator_ix).char1, '+');
            assert_eq!(operator::from(bin2.operator_ix).char1, '*');
        }
    } else {
        assert!(false);
    }
}

#[test]
fn error_on_missing_parenthesis() {
    let tokens = vec![l_paren(), number()];
    let expr = parse(&tokens);
    assert!(matches!(expr, Err(..)));
}

#[test]
fn error_on_extra_parenthesis() {
    let tokens = vec![l_paren(), number(), r_paren(), r_paren()];
    let expr = parse(&tokens);
    assert!(matches!(expr, Err(..)));
}

#[test]
fn error_on_incomplete() {
    let tokens = vec![number(), operator_item()];
    let expr = parse(&tokens);
    assert!(matches!(expr, Err(..)));
}

#[test]
fn error_on_tokenizer_error() {
    let error: Result<Token, Error> = Err(Error { error: "tokenizer".to_string(), at: 0 });
    let tokens = vec![number(), error, string_item()];
    let expr = parse(&tokens);
    assert!(match expr {
        Err(e) if e.error.contains("tokenizer") => true,
        _ => false,
    });
}
