//! A small formula engine: expressions made of numbers, variables, function
//! calls, unary and binary operators are scanned into tokens, parsed by
//! precedence climbing into a tree, and the tree is handed to a host for
//! numeric evaluation.  Tokens and tree leaves carry byte spans into the
//! original source text rather than copied substrings.
use vstd::prelude::*;

pub mod laws;
pub mod operator;
pub mod parser;
pub mod tokenizer;

verus! {

/// A half-open byte range into the source string: `at` is the byte offset of
/// the first byte, `len` the number of bytes covered.
#[derive(Debug, PartialEq, Clone, Copy)]
pub struct Position {
    pub at: u32,
    pub len: u16,
}

impl Position {
    /// The span as a range of byte indices, for slicing the source string.
    pub fn to_range(&self) -> (r: core::ops::Range<usize>)
        requires
            self.at + self.len <= usize::MAX,
        ensures
            r.start == self.at,
            r.end == self.at + self.len,
    {
        let start = self.at as usize;
        let end = start + self.len as usize;
        start..end
    }
}

/// An expression tree node.  Leaves hold byte spans into the source; the
/// recursive payloads are boxed so that every variant stays compact.
#[derive(Debug)]
pub enum Expr {
    Number(Position),
    Variable(Position),
    Func(Box<FuncExpr>),
    Unary { expr: Box<Expr>, operator_ix: u8 },
    Binary(Box<BinaryExpr>),
}

/// A function call: the callee's name as a span, and its argument expressions.
#[derive(Debug)]
pub struct FuncExpr {
    pub name: Position,
    pub params: Vec<Expr>,
}

/// An infix application of the operator at `operator_ix` in the operator table.
#[derive(Debug)]
pub struct BinaryExpr {
    pub left: Expr,
    pub right: Expr,
    pub operator_ix: u8,
}

/// A diagnostic: a message and a 1-based character position (0 when the
/// producer has no meaningful position).
#[derive(Debug)]
pub struct Error {
    pub error: String,
    pub at: u32,
}

} // verus!
