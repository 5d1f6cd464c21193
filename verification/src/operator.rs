//! The fixed operator table: nine entries, each a glyph (or glyph pair), a
//! precedence, and whether the operator may be used as a unary prefix.
//! Higher precedence binds tighter.  Token and tree nodes refer to entries by
//! index into this table.
use vstd::prelude::*;

verus! {

/// One entry of the operator table.
#[derive(Debug, PartialEq, Clone, Copy)]
pub struct Operator {
    pub char1: char,
    pub char2: Option<char>,
    pub precedence: u8,
    pub prefix: bool,
}

/// The number of entries in the operator table.
pub const OPERATOR_COUNT: u8 = 9;

/// The operator table entry at index `ix`:
/// `/` and `*` bind at 60, `+` and `-` at 50 (both valid as prefixes),
/// the comparisons `<` `>` `<=` `>=` at 40, and `=` at 30.
pub open spec fn spec_op(ix: int) -> Operator {
    if ix == 0 {
        Operator { char1: '/', char2: None, precedence: 60, prefix: false }
    } else if ix == 1 {
        Operator { char1: '*', char2: None, precedence: 60, prefix: false }
    } else if ix == 2 {
        Operator { char1: '+', char2: None, precedence: 50, prefix: true }
    } else if ix == 3 {
        Operator { char1: '-', char2: None, precedence: 50, prefix: true }
    } else if ix == 4 {
        Operator { char1: '<', char2: None, precedence: 40, prefix: false }
    } else if ix == 5 {
        Operator { char1: '>', char2: None, precedence: 40, prefix: false }
    } else if ix == 6 {
        Operator { char1: '<', char2: Some('='), precedence: 40, prefix: false }
    } else if ix == 7 {
        Operator { char1: '>', char2: Some('='), precedence: 40, prefix: false }
    } else {
        Operator { char1: '=', char2: None, precedence: 30, prefix: false }
    }
}

/// The index of the first table entry whose first glyph is `c`, if any.
/// Single-glyph entries precede their two-glyph forms in the table, so this
/// finds the single-glyph operator for `<` and `>`.
pub open spec fn spec_is_operator(c: char) -> Option<u8> {
    if c == '/' {
        Some(0u8)
    } else if c == '*' {
        Some(1u8)
    } else if c == '+' {
        Some(2u8)
    } else if c == '-' {
        Some(3u8)
    } else if c == '<' {
        Some(4u8)
    } else if c == '>' {
        Some(5u8)
    } else if c == '=' {
        Some(8u8)
    } else {
        None
    }
}

/// The index of the table entry matching the two-glyph operator `c1 c2`, if any.
pub open spec fn spec_is_multi_char(c1: char, c2: char) -> Option<u8> {
    if c1 == '<' && c2 == '=' {
        Some(6u8)
    } else if c1 == '>' && c2 == '=' {
        Some(7u8)
    } else {
        None
    }
}

/// Looks a glyph up as a single-character operator.
pub fn is_operator(char1: char) -> (r: Option<u8>)
    ensures
        r == spec_is_operator(char1),
        r matches Some(ix) ==> ix < OPERATOR_COUNT && spec_op(ix as int).char1 == char1
            && spec_op(ix as int).char2 is None,
{
    if char1 == '/' {
        Some(0)
    } else if char1 == '*' {
        Some(1)
    } else if char1 == '+' {
        Some(2)
    } else if char1 == '-' {
        Some(3)
    } else if char1 == '<' {
        Some(4)
    } else if char1 == '>' {
        Some(5)
    } else if char1 == '=' {
        Some(8)
    } else {
        None
    }
}

/// Looks a glyph pair up as a two-character operator.
pub fn is_multi_char(char1: char, char2: char) -> (r: Option<u8>)
    ensures
        r == spec_is_multi_char(char1, char2),
        r matches Some(ix) ==> ix < OPERATOR_COUNT && spec_op(ix as int).char1 == char1
            && spec_op(ix as int).char2 == Some(char2),
{
    if char1 == '<' && char2 == '=' {
        Some(6)
    } else if char1 == '>' && char2 == '=' {
        Some(7)
    } else {
        None
    }
}

/// Resolves an operator index, as produced by `is_operator` or
/// `is_multi_char`, to its table entry.
pub fn from(operator_ix: u8) -> (r: Operator)
    requires
        operator_ix < OPERATOR_COUNT,
    ensures
        r == spec_op(operator_ix as int),
{
    if operator_ix == 0 {
        Operator::new('/', None, 60, false)
    } else if operator_ix == 1 {
        Operator::new('*', None, 60, false)
    } else if operator_ix == 2 {
        Operator::new('+', None, 50, true)
    } else if operator_ix == 3 {
        Operator::new('-', None, 50, true)
    } else if operator_ix == 4 {
        Operator::new('<', None, 40, false)
    } else if operator_ix == 5 {
        Operator::new('>', None, 40, false)
    } else if operator_ix == 6 {
        Operator::new('<', Some('='), 40, false)
    } else if operator_ix == 7 {
        Operator::new('>', Some('='), 40, false)
    } else {
        Operator::new('=', None, 30, false)
    }
}

impl Operator {
    /// Builds a table entry from its parts.
    pub fn new(char1: char, char2: Option<char>, precedence: u8, prefix: bool) -> (r: Operator)
        ensures
            r == (Operator { char1, char2, precedence, prefix }),
    {
        Operator { char1, char2, precedence, prefix }
    }
}

} // verus!
