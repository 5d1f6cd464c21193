use formulas::tokenizer::{Token, Tokens};
use formulas::parser::parse;
use formulas::{Error, Expr};

#[test]
fn lib_have_16_bytes_token_max() {
    assert!(std::mem::size_of::<Expr>() <= 16);
}

/// Scans a whole source string, keeping any scanner error in place.
fn scan(src: &str) -> Vec<Result<Token, Error>> {
    let mut tokens = Tokens::new(src);
    let mut items = Vec::new();
    while let Some(item) = tokens.next() {
        let stop = item.is_err();
        items.push(item);
        if stop {
            break;
        }
    }
    items
}

#[test]
fn malformed_lone_dot_fails() {
    assert!(parse(&scan(" . ")).is_err());
}

#[test]
fn malformed_unclosed_paren_fails() {
    let e = parse(&scan("(1")).unwrap_err();
    assert_eq!(e.error, "Missing closing parenthesis ')'");
}

#[test]
fn malformed_extra_paren_fails() {
    let e = parse(&scan("1))")).unwrap_err();
    assert_eq!(e.error, "Unexpected token ");
}

#[test]
fn malformed_reserved_char_fails() {
    let e = parse(&scan("1 & 2")).unwrap_err();
    assert_eq!(e.error, "Found reserved character");
    assert_eq!(e.at, 3);
}

#[test]
fn empty_input_fails() {
    let e = parse(&scan("")).unwrap_err();
    assert_eq!(e.error, "Expected expression but reached the end");
}

#[test]
fn number_and_identifier_spans_resolve_to_their_text() {
    let src = "12 abc";
    let mut tokens = Tokens::new(src);
    match tokens.next().unwrap().unwrap() {
        Token::Number(p) => {
            assert_eq!(&src[p.to_range()], "12");
        },
        _ => panic!("expected a number"),
    }
    match tokens.next().unwrap().unwrap() {
        Token::Str(p) => {
            assert_eq!(&src[p.to_range()], "abc");
        },
        _ => panic!("expected an identifier"),
    }
    assert!(tokens.next().is_none());
}

#[test]
fn identifier_spans_count_bytes_not_chars() {
    let src = "x\u{e9}y";
    let mut tokens = Tokens::new(src);
    match tokens.next().unwrap().unwrap() {
        Token::Str(p) => {
            assert_eq!(p.at, 0);
            assert_eq!(p.len as usize, src.len());
            assert_eq!(&src[p.to_range()], src);
        },
        _ => panic!("expected an identifier"),
    }
    assert!(tokens.next().is_none());
}

#[test]
fn token_offsets_are_byte_offsets() {
    let mut tokens = Tokens::new(" 1 + 2 ");
    match tokens.next().unwrap().unwrap() {
        Token::Number(p) => {
            assert_eq!(p.at, 1);
            assert_eq!(p.len, 1);
        },
        _ => panic!("expected a number"),
    }
    match tokens.next().unwrap().unwrap() {
        Token::Operator { at, .. } => assert_eq!(at, 3),
        _ => panic!("expected an operator"),
    }
    match tokens.next().unwrap().unwrap() {
        Token::Number(p) => assert_eq!(p.at, 5),
        _ => panic!("expected a number"),
    }
}

#[test]
fn parse_is_deterministic() {
    let first = parse(&scan("1 + 2 * (3 - x)"));
    let second = parse(&scan("1 + 2 * (3 - x)"));
    assert_eq!(format!("{:?}", first), format!("{:?}", second));
}

#[test]
fn multi_dot_number_scans_as_one_token() {
    let mut tokens = Tokens::new("1.2.3");
    match tokens.next().unwrap().unwrap() {
        Token::Number(p) => {
            assert_eq!(p.at, 0);
            assert_eq!(p.len, 5);
        },
        _ => panic!("expected a number"),
    }
    assert!(tokens.next().is_none());
}

#[test]
fn scanner_error_takes_priority_over_partial_parse() {
    let e = parse(&scan("1 + . ")).unwrap_err();
    assert_eq!(e.error, "Unexpected token '.'");
}

#[test]
fn wrong_closing_token_names_the_parenthesis() {
    let e = parse(&scan("(1 2")).unwrap_err();
    assert_eq!(e.error, "Expected closing parenthesis ')' but found ");
}

#[test]
fn precedence_shapes_the_tree() {
    // 3 * 2 + 1 parses as (3 * 2) + 1: the root is `+` with a product on the left.
    let src = "3 * 2 + 1";
    match parse(&scan(src)).unwrap() {
        Expr::Binary(root) => {
            assert_eq!(formulas::operator::from(root.operator_ix).char1, '+');
            assert!(matches!(root.left, Expr::Binary(..)));
            assert!(matches!(root.right, Expr::Number(..)));
        },
        _ => panic!("expected a binary root"),
    }
}

#[test]
fn parentheses_shape_the_tree() {
    // (1 + 3) * 2 parses as a product whose left operand is the sum.
    let src = "(1 + 3) * 2";
    match parse(&scan(src)).unwrap() {
        Expr::Binary(root) => {
            assert_eq!(formulas::operator::from(root.operator_ix).char1, '*');
            assert!(matches!(root.left, Expr::Binary(..)));
        },
        _ => panic!("expected a binary root"),
    }
}

#[test]
fn division_is_left_associative() {
    // 12/2/3 parses as (12/2)/3.
    match parse(&scan("12/2/3")).unwrap() {
        Expr::Binary(root) => {
            assert_eq!(formulas::operator::from(root.operator_ix).char1, '/');
            assert!(matches!(root.left, Expr::Binary(..)));
            assert!(matches!(root.right, Expr::Number(..)));
        },
        _ => panic!("expected a binary root"),
    }
}

#[test]
fn unary_chain_nests() {
    // --2 parses as -(-(2)).
    match parse(&scan("--2")).unwrap() {
        Expr::Unary { expr: inner, .. } => match *inner {
            Expr::Unary { expr: num, .. } => assert!(matches!(*num, Expr::Number(..))),
            _ => panic!("expected a nested unary node"),
        },
        _ => panic!("expected a unary root"),
    }
}

#[test]
fn call_without_leading_comma_takes_separated_arguments() {
    // f(1, 2, 3) keeps its three arguments in order.
    match parse(&scan("f(1, 2, 3)")).unwrap() {
        Expr::Func(f) => assert_eq!(f.params.len(), 3),
        _ => panic!("expected a call"),
    }
}

#[test]
fn if_call_carries_three_arguments() {
    // if(1 > 0, 10, -1) parses as a call named over "if" with three arguments.
    let src = "if(1 > 0, 10, -1)";
    match parse(&scan(src)).unwrap() {
        Expr::Func(f) => {
            assert_eq!(&src[f.name.to_range()], "if");
            assert_eq!(f.params.len(), 3);
        },
        _ => panic!("expected a call"),
    }
}

#[test]
fn failed_term_error_survives_a_tighter_operator() {
    // In (1,+2 the parenthesis fails first; the + and its operand are still
    // consumed, so the parenthesis diagnostic surfaces, not a leftover-token one.
    let e = parse(&scan("(1,+2")).unwrap_err();
    assert_eq!(e.error, "Expected closing parenthesis ')' but found ");
}

#[test]
fn error_position_counts_from_source_start() {
    // In "1 ." the lone dot is the third character of the source.
    let e = parse(&scan("1 .")).unwrap_err();
    assert_eq!(e.error, "Unexpected token '.'");
    assert_eq!(e.at, 3);
}
