//! The parser: consumes a token sequence with one token of lookahead and
//! builds an expression tree by precedence climbing.  The spec functions
//! `sp_expr`, `sp_singular`, `sp_climb`, `sp_params` and `sp_items` are the
//! mathematical model of the parse, producing an abstract tree (`Ast`) or the
//! exact failure; `parse` is proved to follow the model, including how a
//! scanner error in the token stream takes priority over a partial parse.
use vstd::prelude::*;

use crate::operator;
use crate::tokenizer::Token;
use crate::{BinaryExpr, Error, Expr, FuncExpr, Position};

verus! {

broadcast use vstd::std_specs::vec::axiom_spec_len;

// ---------------------------------------------------------------------------
// The abstract tree and parse outcomes
// ---------------------------------------------------------------------------
/// The abstract form of an expression tree, used by the parser's model.
pub enum Ast {
    Num(Position),
    Var(Position),
    Call(Position, Seq<Ast>),
    Un(u8, Box<Ast>),
    Bin(u8, Box<Ast>, Box<Ast>),
}

/// The structural parse failures.
pub enum ParseFail {
    AtEnd,
    BadStart,
    MissingRParen,
    WrongRParen,
}

/// The diagnostic message for each structural parse failure.
pub open spec fn fail_msg(f: ParseFail) -> Seq<char> {
    match f {
        ParseFail::AtEnd => "Expected expression but reached the end"@,
        ParseFail::BadStart => "Expected operator, variable, function or number but found "@,
        ParseFail::MissingRParen => "Missing closing parenthesis ')'"@,
        ParseFail::WrongRParen => "Expected closing parenthesis ')' but found "@,
    }
}

/// The outcome of parsing one expression: a tree and the position after it,
/// or a failure and the position where parsing stopped.
pub enum POut {
    Done(Ast, int),
    Fail(ParseFail, int),
}

/// The outcome of parsing a call's argument list.
pub enum PArgs {
    Done(Seq<Ast>, int),
    Fail(ParseFail, int),
}

/// Whether the executable tree `e` has exactly the abstract form `a`.
pub open spec fn represents(e: Expr, a: Ast) -> bool
    decreases a,
{
    match a {
        Ast::Num(p) => e matches Expr::Number(q) && q == p,
        Ast::Var(p) => e matches Expr::Variable(q) && q == p,
        Ast::Call(name, args) => match e {
            Expr::Func(bf) => bf.name == name && bf.params@.len() == args.len() && (forall|k: int|
                0 <= k < args.len() ==> represents(#[trigger] bf.params@[k], args[k])),
            _ => false,
        },
        Ast::Un(op, arg) => match e {
            Expr::Unary { expr: sub, operator_ix } => operator_ix == op && represents(*sub, *arg),
            _ => false,
        },
        Ast::Bin(op, l, rr) => match e {
            Expr::Binary(bb) => bb.operator_ix == op && represents(bb.left, *l) && represents(
                bb.right,
                *rr,
            ),
            _ => false,
        },
    }
}


/// Law: parsing is deterministic.  An executable tree represents at most one
/// model tree, and the model `sp_expr` is a function of the token stream, so
/// by `parse`'s contract two runs over equal streams return trees of the
/// same form and, in the failure cases, diagnostics with equal content.
pub proof fn lemma_represents_functional(e: Expr, a1: Ast, a2: Ast)
    requires
        represents(e, a1),
        represents(e, a2),
    ensures
        a1 == a2,
    decreases a1,
{
    match a1 {
        Ast::Num(p) => {},
        Ast::Var(p) => {},
        Ast::Call(name, args1) => {
            match (e, a2) {
                (Expr::Func(bf), Ast::Call(name2, args2)) => {
                    assert forall|k: int| 0 <= k < args1.len() implies args1[k] == args2[k] by {
                        lemma_represents_functional(bf.params@[k], args1[k], args2[k]);
                    }
                    assert(args1 =~= args2);
                },
                _ => {},
            }
        },
        Ast::Un(op, arg1) => {
            match (e, a2) {
                (Expr::Unary { expr: sub, operator_ix }, Ast::Un(op2, arg2)) => {
                    lemma_represents_functional(*sub, *arg1, *arg2);
                },
                _ => {},
            }
        },
        Ast::Bin(op, l1, r1) => {
            match (e, a2) {
                (Expr::Binary(bb), Ast::Bin(op2, l2, r2)) => {
                    lemma_represents_functional(bb.left, *l1, *l2);
                    lemma_represents_functional(bb.right, *r1, *r2);
                },
                _ => {},
            }
        },
    }
}

// ---------------------------------------------------------------------------
// The parsing model
// ---------------------------------------------------------------------------
/// The precedence of the operator table entry at `ix`.
pub open spec fn op_prec(ix: u8) -> u8 {
    operator::spec_op(ix as int).precedence
}

/// `j` clamped into `[lo, toks.len()]`; the parser's model only ever applies
/// it to positions already in that range, where it is the identity.
pub open spec fn clamp_pos(toks: Seq<Token>, lo: int, j: int) -> int {
    let a = if j < lo {
        lo
    } else {
        j
    };
    if a > toks.len() {
        toks.len() as int
    } else {
        a
    }
}

/// One atomic term starting at `i`: a unary application, an identifier (a
/// call when followed by `(`, else a variable), a parenthesised expression,
/// or a number.
pub open spec fn sp_singular(toks: Seq<Token>, i: int) -> POut
    decreases toks.len() - i, 0int
        when 0 <= i <= toks.len()
{
    if i == toks.len() {
        POut::Fail(ParseFail::AtEnd, i)
    } else {
        match toks[i] {
            Token::Operator { at: _, operator_ix } => match sp_expr(toks, i + 1, 0) {
                POut::Done(a, j) => POut::Done(Ast::Un(operator_ix, Box::new(a)), j),
                POut::Fail(f, j) => POut::Fail(f, j),
            },
            Token::Str(name) => if i + 1 < toks.len() && toks[i + 1] is LParen {
                match sp_params(toks, i + 1) {
                    PArgs::Done(args, j) => POut::Done(Ast::Call(name, args), j),
                    PArgs::Fail(f, j) => POut::Fail(f, j),
                }
            } else {
                POut::Done(Ast::Var(name), i + 1)
            },
            Token::LParen(_) => match sp_expr(toks, i + 1, 0) {
                POut::Done(a, j) => if j == toks.len() {
                    POut::Fail(ParseFail::MissingRParen, j)
                } else if toks[j] is RParen {
                    POut::Done(a, j + 1)
                } else {
                    POut::Fail(ParseFail::WrongRParen, j + 1)
                },
                POut::Fail(f, j) => POut::Fail(f, j),
            },
            Token::Number(pos) => POut::Done(Ast::Num(pos), i + 1),
            _ => POut::Fail(ParseFail::BadStart, i),
        }
    }
}

/// The climbing loop: with `left` parsed and the position at `j`, absorb
/// operators that bind tighter than `prec`, each with its right operand, into
/// left-associated binary nodes.
pub open spec fn sp_climb(toks: Seq<Token>, left: Ast, j: int, prec: u8) -> POut
    decreases toks.len() - j, 1int
        when 0 <= j <= toks.len()
{
    if j == toks.len() {
        POut::Done(left, j)
    } else {
        match toks[j] {
            Token::Operator { at: _, operator_ix } => if op_prec(operator_ix) > prec {
                match sp_expr(toks, j + 1, op_prec(operator_ix)) {
                    POut::Done(right, j2) => sp_climb(
                        toks,
                        Ast::Bin(operator_ix, Box::new(left), Box::new(right)),
                        clamp_pos(toks, j + 2, j2),
                        prec,
                    ),
                    POut::Fail(f, j2) => POut::Fail(f, j2),
                }
            } else {
                POut::Done(left, j)
            },
            _ => POut::Done(left, j),
        }
    }
}

/// When the atomic term has failed at `j` but the next token is an operator
/// binding tighter than `prec`, that operator and its right operand are still
/// consumed before the term's own failure surfaces, since the binary node
/// that would hold them can no longer be built.
pub open spec fn sp_fail_climb(toks: Seq<Token>, f: ParseFail, j: int, prec: u8) -> POut
    decreases toks.len() - j, 1int
        when 0 <= j <= toks.len()
{
    if j == toks.len() {
        POut::Fail(f, j)
    } else {
        match toks[j] {
            Token::Operator { at: _, operator_ix } => if op_prec(operator_ix) > prec {
                match sp_expr(toks, j + 1, op_prec(operator_ix)) {
                    POut::Done(_, j2) => POut::Fail(f, j2),
                    POut::Fail(_, j2) => POut::Fail(f, j2),
                }
            } else {
                POut::Fail(f, j)
            },
            _ => POut::Fail(f, j),
        }
    }
}

/// One expression starting at `i`: an atomic term, then climbing while the
/// next operator binds tighter than `prec`.
pub open spec fn sp_expr(toks: Seq<Token>, i: int, prec: u8) -> POut
    decreases toks.len() - i, 2int
        when 0 <= i <= toks.len()
{
    match sp_singular(toks, i) {
        POut::Done(a, j) => sp_climb(toks, a, clamp_pos(toks, i + 1, j), prec),
        POut::Fail(f, j) => sp_fail_climb(toks, f, clamp_pos(toks, i, j), prec),
    }
}

/// The items of an argument list, with the accumulated arguments `acc`: `)`
/// closes the list, `,` precedes a further argument, anything else starts an
/// argument directly.
pub open spec fn sp_items(toks: Seq<Token>, q: int, acc: Seq<Ast>) -> PArgs
    decreases toks.len() - q, 3int
        when 0 <= q <= toks.len()
{
    if q == toks.len() {
        PArgs::Fail(ParseFail::MissingRParen, q)
    } else {
        match toks[q] {
            Token::RParen(_) => PArgs::Done(acc, q + 1),
            Token::Comma(_) => match sp_expr(toks, q + 1, 0) {
                POut::Done(a, j) => sp_items(toks, clamp_pos(toks, q + 2, j), acc.push(a)),
                POut::Fail(f, j) => PArgs::Fail(f, j),
            },
            _ => match sp_expr(toks, q, 0) {
                POut::Done(a, j) => sp_items(toks, clamp_pos(toks, q + 1, j), acc.push(a)),
                POut::Fail(f, j) => PArgs::Fail(f, j),
            },
        }
    }
}

/// A call's argument list, starting at the `(` at position `p`.
pub open spec fn sp_params(toks: Seq<Token>, p: int) -> PArgs
    decreases toks.len() - p, 4int
        when 0 <= p <= toks.len()
{
    sp_items(toks, clamp_pos(toks, p + 1, p + 1), Seq::empty())
}

// ---------------------------------------------------------------------------
// The token stream handed to `parse`
// ---------------------------------------------------------------------------
/// Every operator token's index points into the operator table.
pub open spec fn ops_bounded(toks: Seq<Token>) -> bool {
    forall|k: int|
        0 <= k < toks.len() ==> ((#[trigger] toks[k]) matches Token::Operator {
            at: _,
            operator_ix,
        } ==> operator_ix < operator::OPERATOR_COUNT)
}

/// Every operator token in the stream (scanner errors included) points into
/// the operator table; `parse` asks this of its input, as a table index out
/// of range has no meaning and the scanner never produces one (see
/// `crate::tokenizer::lemma_scan_operator_bounded`).
pub open spec fn items_ops_bounded(items: Seq<Result<Token, Error>>) -> bool {
    forall|k: int|
        0 <= k < items.len() ==> ((#[trigger] items[k]) matches Ok(
            Token::Operator { at: _, operator_ix },
        ) ==> operator_ix < operator::OPERATOR_COUNT)
}

/// The index of the first scanner error in the stream, or its length.
pub open spec fn first_err_from(items: Seq<Result<Token, Error>>, i: int) -> int
    decreases items.len() - i
        when 0 <= i <= items.len()
{
    if i == items.len() {
        i
    } else if items[i] is Err {
        i
    } else {
        first_err_from(items, i + 1)
    }
}

pub proof fn lemma_first_err(items: Seq<Result<Token, Error>>, i: int)
    requires
        0 <= i <= items.len(),
    ensures
        i <= first_err_from(items, i) <= items.len(),
        forall|k: int| i <= k < first_err_from(items, i) ==> (#[trigger] items[k]) is Ok,
        first_err_from(items, i) == items.len() || items[first_err_from(items, i)] is Err,
    decreases items.len() - i,
{
    if i < items.len() && !(items[i] is Err) {
        lemma_first_err(items, i + 1);
    }
}

/// The tokens before the first scanner error.
pub open spec fn good_prefix(items: Seq<Result<Token, Error>>) -> Seq<Token> {
    Seq::new(
        first_err_from(items, 0) as nat,
        |k: int|
            match items[k] {
                Ok(t) => t,
                Err(_) => arbitrary(),
            },
    )
}

// ---------------------------------------------------------------------------
// The executable parser
// ---------------------------------------------------------------------------
/// The parser's working state: the tokens before the first scanner error, and
/// the position of the next token.
struct Cursor {
    toks: Vec<Token>,
    pos: usize,
}

impl Cursor {
    spec fn wf(&self) -> bool {
        self.pos <= self.toks@.len() && ops_bounded(self.toks@)
    }
}

/// One token of lookahead.
fn peek(c: &Cursor) -> (r: Option<Token>)
    requires
        c.wf(),
    ensures
        r == (if c.pos < c.toks@.len() {
            Some(c.toks@[c.pos as int])
        } else {
            None::<Token>
        }),
{
    if c.pos < c.toks.len() {
        Some(c.toks[c.pos])
    } else {
        None
    }
}

/// A structural diagnostic carrying no position.
fn error(msg: &str, _token: Token) -> (r: Result<Expr, Error>)
    ensures
        r matches Err(e) && e.error@ == msg@ && e.at == 0,
{
    Err(Error { error: msg.to_string(), at: 0 })
}

fn expr(c: &mut Cursor, precedence: u8) -> (r: Result<Expr, Error>)
    requires
        old(c).wf(),
    ensures
        final(c).wf(),
        final(c).toks@ == old(c).toks@,
        match sp_expr(old(c).toks@, old(c).pos as int, precedence) {
            POut::Done(a, j) => (r matches Ok(e) && represents(e, a)) && final(c).pos == j && old(
                c,
            ).pos < j <= old(c).toks@.len(),
            POut::Fail(f, j) => (r matches Err(er) && er.error@ == fail_msg(f) && er.at == 0)
                && final(c).pos == j && old(c).pos <= j <= old(c).toks@.len(),
        },
    decreases old(c).toks@.len() - old(c).pos, 2int,
{
    let ghost t = c.toks@;
    let ghost i0 = c.pos as int;
    let mut left = match singular(c) {
        Ok(e) => e,
        Err(er) => {
            let ghost j0 = c.pos as int;
            proof {
                assert(clamp_pos(t, i0, j0) == j0);
            }
            // The term failed; a tighter-binding operator and its right
            // operand are still consumed before the failure surfaces, since
            // the binary node that would hold them cannot be built.
            if c.pos < c.toks.len() {
                let token = c.toks[c.pos];
                match token {
                    Token::Operator { at: _, operator_ix } => {
                        let new_prec = operator::from(operator_ix).precedence;
                        if new_prec > precedence {
                            c.pos = c.pos + 1;
                            let _ = expr(c, new_prec);
                            return Err(er);
                        }
                    },
                    _ => {},
                }
            }
            return Err(er);
        },
    };
    let ghost mut la = sp_singular(t, i0)->Done_0;
    proof {
        assert(clamp_pos(t, i0 + 1, c.pos as int) == c.pos as int);
        assert(sp_expr(t, i0, precedence) == sp_climb(t, la, c.pos as int, precedence));
    }
    #[verifier::loop_isolation(false)]
    loop
        invariant
            c.wf(),
            t == c.toks@,
            i0 < c.pos as int <= t.len(),
            represents(left, la),
            sp_climb(t, la, c.pos as int, precedence) == sp_expr(t, i0, precedence),
        decreases t.len() - c.pos,
    {
        if c.pos == c.toks.len() {
            return Ok(left);
        }
        let token = c.toks[c.pos];
        match token {
            Token::Operator { at: _, operator_ix } => {
                let new_prec = operator::from(operator_ix).precedence;
                if new_prec > precedence {
                    let ghost jop = c.pos as int;
                    c.pos = c.pos + 1;
                    let right = match expr(c, new_prec) {
                        Ok(e) => e,
                        Err(er) => {
                            return Err(er);
                        },
                    };
                    let ghost ra = sp_expr(t, jop + 1, new_prec)->Done_0;
                    proof {
                        la = Ast::Bin(operator_ix, Box::new(la), Box::new(ra));
                        assert(clamp_pos(t, jop + 2, c.pos as int) == c.pos as int);
                    }
                    let prev = left;
                    left = Expr::Binary(
                        Box::new(BinaryExpr { left: prev, right, operator_ix }),
                    );
                    proof {
                        assert(represents(left, la));
                    }
                } else {
                    return Ok(left);
                }
            },
            _ => {
                return Ok(left);
            },
        }
    }
}

fn singular(c: &mut Cursor) -> (r: Result<Expr, Error>)
    requires
        old(c).wf(),
    ensures
        final(c).wf(),
        final(c).toks@ == old(c).toks@,
        match sp_singular(old(c).toks@, old(c).pos as int) {
            POut::Done(a, j) => (r matches Ok(e) && represents(e, a)) && final(c).pos == j && old(
                c,
            ).pos < j <= old(c).toks@.len(),
            POut::Fail(f, j) => (r matches Err(er) && er.error@ == fail_msg(f) && er.at == 0)
                && final(c).pos == j && old(c).pos <= j <= old(c).toks@.len(),
        },
    decreases old(c).toks@.len() - old(c).pos, 1int,
{
    let ghost t = c.toks@;
    let ghost i0 = c.pos as int;
    if c.pos == c.toks.len() {
        return Err(Error { error: ("Expected expression but reached the end").to_string(), at: 0 });
    }
    let token = c.toks[c.pos];
    match token {
        Token::Operator { at: _, operator_ix } => {
            c.pos = c.pos + 1;
            match expr(c, 0) {
                Ok(e) => {
                    let node = Expr::Unary { operator_ix, expr: Box::new(e) };
                    proof {
                        assert(represents(node, sp_singular(t, i0)->Done_0));
                    }
                    Ok(node)
                },
                Err(er) => Err(er),
            }
        },
        Token::Str(name) => {
            c.pos = c.pos + 1;
            // An identifier followed by `(` is a call; otherwise a variable.
            let is_call = match peek(c) {
                Some(Token::LParen(_)) => true,
                _ => false,
            };
            if is_call {
                match params(c) {
                    Ok(v) => {
                        let node = Expr::Func(Box::new(FuncExpr { name, params: v }));
                        proof {
                            assert(represents(node, sp_singular(t, i0)->Done_0));
                        }
                        Ok(node)
                    },
                    Err(er) => Err(er),
                }
            } else {
                Ok(Expr::Variable(name))
            }
        },
        Token::LParen(_) => parentheses(c),
        Token::Number(pos) => {
            let number = Ok(Expr::Number(pos));
            c.pos = c.pos + 1;
            number
        },
        _ => error("Expected operator, variable, function or number but found ", token),
    }
}

fn parentheses(c: &mut Cursor) -> (r: Result<Expr, Error>)
    requires
        old(c).wf(),
        old(c).pos < old(c).toks@.len(),
        old(c).toks@[old(c).pos as int] is LParen,
    ensures
        final(c).wf(),
        final(c).toks@ == old(c).toks@,
        match sp_singular(old(c).toks@, old(c).pos as int) {
            POut::Done(a, j) => (r matches Ok(e) && represents(e, a)) && final(c).pos == j && old(
                c,
            ).pos < j <= old(c).toks@.len(),
            POut::Fail(f, j) => (r matches Err(er) && er.error@ == fail_msg(f) && er.at == 0)
                && final(c).pos == j && old(c).pos <= j <= old(c).toks@.len(),
        },
    decreases old(c).toks@.len() - old(c).pos, 0int,
{
    let ghost t = c.toks@;
    let ghost i0 = c.pos as int;
    proof {
        assert(vstd::std_specs::vec::spec_vec_len(&c.toks) == c.toks@.len());
    }
    c.pos = c.pos + 1;  // consume the left parenthesis
    let inner = match expr(c, 0) {
        Ok(e) => e,
        Err(er) => {
            return Err(er);
        },
    };
    if c.pos == c.toks.len() {
        return Err(Error { error: ("Missing closing parenthesis ')'").to_string(), at: 0 });
    }
    let token = c.toks[c.pos];
    c.pos = c.pos + 1;
    match token {
        Token::RParen(_) => Ok(inner),
        _ => error("Expected closing parenthesis ')' but found ", token),
    }
}

fn params(c: &mut Cursor) -> (r: Result<Vec<Expr>, Error>)
    requires
        old(c).wf(),
        old(c).pos < old(c).toks@.len(),
        old(c).toks@[old(c).pos as int] is LParen,
    ensures
        final(c).wf(),
        final(c).toks@ == old(c).toks@,
        match sp_params(old(c).toks@, old(c).pos as int) {
            PArgs::Done(args, j) => (r matches Ok(v) && v@.len() == args.len() && (forall|k: int|
                0 <= k < args.len() ==> represents(#[trigger] v@[k], args[k]))) && final(c).pos == j
                && old(c).pos < j <= old(c).toks@.len(),
            PArgs::Fail(f, j) => (r matches Err(er) && er.error@ == fail_msg(f) && er.at == 0)
                && final(c).pos == j && old(c).pos <= j <= old(c).toks@.len(),
        },
    decreases old(c).toks@.len() - old(c).pos, 3int,
{
    let ghost t = c.toks@;
    let ghost p0 = c.pos as int;
    proof {
        assert(vstd::std_specs::vec::spec_vec_len(&c.toks) == c.toks@.len());
    }
    c.pos = c.pos + 1;  // consume the left parenthesis
    let mut vec: Vec<Expr> = Vec::new();
    let ghost mut argsa: Seq<Ast> = Seq::empty();
    proof {
        assert(clamp_pos(t, p0 + 1, p0 + 1) == p0 + 1);
        assert(sp_params(t, p0) == sp_items(t, p0 + 1, Seq::<Ast>::empty()));
    }
    // Arguments are read until the closing parenthesis; a comma is consumed
    // before each argument after the first.
    #[verifier::loop_isolation(false)]
    loop
        invariant
            c.wf(),
            t == c.toks@,
            p0 < c.pos as int <= t.len(),
            vec@.len() == argsa.len(),
            forall|k: int| 0 <= k < argsa.len() ==> represents(#[trigger] vec@[k], argsa[k]),
            sp_items(t, c.pos as int, argsa) == sp_params(t, p0),
        decreases t.len() - c.pos,
    {
        if c.pos == c.toks.len() {
            return Err(Error { error: ("Missing closing parenthesis ')'").to_string(), at: 0 });
        }
        let token = c.toks[c.pos];
        match token {
            Token::RParen(_) => {
                c.pos = c.pos + 1;
                return Ok(vec);
            },
            Token::Comma(_) => {
                let ghost jc = c.pos as int;
                c.pos = c.pos + 1;
                let arg = match expr(c, 0) {
                    Ok(e) => e,
                    Err(er) => {
                        return Err(er);
                    },
                };
                proof {
                    assert(clamp_pos(t, jc + 2, c.pos as int) == c.pos as int);
                    argsa = argsa.push(sp_expr(t, jc + 1, 0)->Done_0);
                }
                vec.push(arg);
            },
            _ => {
                let ghost jc = c.pos as int;
                let arg = match expr(c, 0) {
                    Ok(e) => e,
                    Err(er) => {
                        return Err(er);
                    },
                };
                proof {
                    assert(clamp_pos(t, jc + 1, c.pos as int) == c.pos as int);
                    argsa = argsa.push(sp_expr(t, jc, 0)->Done_0);
                }
                vec.push(arg);
            },
        }
    }
}

/// Parses the token stream into one expression tree.  A token left over after
/// the expression fails with "Unexpected token "; otherwise a scanner error in
/// the stream takes priority and is returned as it stands; otherwise the
/// parse's own outcome is returned, exactly as the model `sp_expr` describes
/// on the tokens before the first scanner error.
pub fn parse(items: &Vec<Result<Token, Error>>) -> (r: Result<Expr, Error>)
    requires
        items_ops_bounded(items@),
    ensures
        ({
            let toks = good_prefix(items@);
            let fe = first_err_from(items@, 0);
            match sp_expr(toks, 0, 0) {
                POut::Done(a, j) => {
                    if j < toks.len() {
                        r matches Err(e) && e.error@ == "Unexpected token "@ && e.at == 0
                    } else if fe < items@.len() {
                        r matches Err(e) && e.error@ == items@[fe]->Err_0.error@ && e.at
                            == items@[fe]->Err_0.at
                    } else {
                        r matches Ok(e) && represents(e, a)
                    }
                },
                POut::Fail(f, j) => {
                    if j < toks.len() {
                        r matches Err(e) && e.error@ == "Unexpected token "@ && e.at == 0
                    } else if fe < items@.len() {
                        r matches Err(e) && e.error@ == items@[fe]->Err_0.error@ && e.at
                            == items@[fe]->Err_0.at
                    } else {
                        r matches Err(e) && e.error@ == fail_msg(f) && e.at == 0
                    }
                },
            }
        }),
{
    let ghost fe = first_err_from(items@, 0);
    proof {
        lemma_first_err(items@, 0);
    }
    let mut toks_v: Vec<Token> = Vec::new();
    let mut scan_err: Option<Error> = None;
    let mut i: usize = 0;
    loop
        invariant_except_break
            0 <= i as int <= fe,
            toks_v@.len() == i as int,
            forall|k: int| 0 <= k < i as int ==> #[trigger] toks_v@[k] == items@[k]->Ok_0,
            scan_err is None,
        invariant
            fe == first_err_from(items@, 0),
        ensures
            i as int == fe,
            toks_v@.len() == fe,
            forall|k: int| 0 <= k < fe ==> #[trigger] toks_v@[k] == items@[k]->Ok_0,
            match scan_err {
                None => fe == items@.len(),
                Some(e) => fe < items@.len() && e.error@ == items@[fe]->Err_0.error@ && e.at
                    == items@[fe]->Err_0.at,
            },
        decreases items@.len() - i,
    {
        proof {
            lemma_first_err(items@, 0);
        }
        if i == items.len() {
            break ;
        }
        match &items[i] {
            Ok(tok) => {
                toks_v.push(*tok);
                i = i + 1;
            },
            Err(e) => {
                scan_err = Some(Error { error: e.error.clone(), at: e.at });
                break ;
            },
        }
    }
    proof {
        assert(toks_v@ =~= good_prefix(items@));
        assert(ops_bounded(toks_v@));
    }
    let mut cur = Cursor { toks: toks_v, pos: 0 };
    let result = expr(&mut cur, 0);
    // A token the expression did not consume is an error of its own.
    if cur.pos < cur.toks.len() {
        let token = cur.toks[cur.pos];
        return error("Unexpected token ", token);
    }
    // A scanner error reached while parsing takes priority over the outcome.
    match scan_err {
        Some(e) => Err(e),
        None => result,
    }
}

} // verus!

