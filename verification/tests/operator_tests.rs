use formulas::operator::{from, is_multi_char, is_operator, Operator};

#[test]
fn table_entries_are_fixed() {
    assert_eq!(from(0), Operator { char1: '/', char2: None, precedence: 60, prefix: false });
    assert_eq!(from(1), Operator { char1: '*', char2: None, precedence: 60, prefix: false });
    assert_eq!(from(2), Operator { char1: '+', char2: None, precedence: 50, prefix: true });
    assert_eq!(from(3), Operator { char1: '-', char2: None, precedence: 50, prefix: true });
    assert_eq!(from(4), Operator { char1: '<', char2: None, precedence: 40, prefix: false });
    assert_eq!(from(5), Operator { char1: '>', char2: None, precedence: 40, prefix: false });
    assert_eq!(from(6), Operator { char1: '<', char2: Some('='), precedence: 40, prefix: false });
    assert_eq!(from(7), Operator { char1: '>', char2: Some('='), precedence: 40, prefix: false });
    assert_eq!(from(8), Operator { char1: '=', char2: None, precedence: 30, prefix: false });
}

#[test]
fn single_char_lookup_finds_first_match() {
    assert_eq!(is_operator('/'), Some(0));
    assert_eq!(is_operator('*'), Some(1));
    assert_eq!(is_operator('+'), Some(2));
    assert_eq!(is_operator('-'), Some(3));
    assert_eq!(is_operator('<'), Some(4));
    assert_eq!(is_operator('>'), Some(5));
    assert_eq!(is_operator('='), Some(8));
    assert_eq!(is_operator('&'), None);
    assert_eq!(is_operator('a'), None);
}

#[test]
fn two_char_lookup_matches_both_glyphs() {
    assert_eq!(is_multi_char('<', '='), Some(6));
    assert_eq!(is_multi_char('>', '='), Some(7));
    assert_eq!(is_multi_char('<', '<'), None);
    assert_eq!(is_multi_char('=', '='), None);
}
