//! Laws that span the scanner and the parser.
use vstd::prelude::*;

use crate::parser;
use crate::parser::{Ast, POut};
use crate::tokenizer;
use crate::tokenizer::{ScanNext, Token};
use crate::Position;

verus! {

/// Law: a source that consists of one numeric literal — number characters
/// only, not a lone dot — scans to a single `Number` token spanning the whole
/// source, after which the scanner is done, and that one token parses to a
/// `Number` leaf carrying the same span.  The leaf's span therefore reads
/// back exactly the literal's text; turning that text into its numeric value
/// is the evaluator's part.
pub proof fn lemma_numeric_literal_roundtrip(s: Seq<char>)
    requires
        0 < s.len() <= 0xFFFF,
        forall|k: int| 0 <= k < s.len() ==> tokenizer::is_number_char(#[trigger] s[k]),
        !(s.len() == 1 && s[0] == '.'),
    ensures
        ({
            let p = Position { at: 0, len: s.len() as u16 };
            &&& tokenizer::spec_next(s, 0) == ScanNext::Tok(Token::Number(p), s.len() as int)
            &&& tokenizer::spec_next(s, s.len() as int) == ScanNext::End
            &&& parser::sp_expr(seq![Token::Number(p)], 0, 0) == POut::Done(Ast::Num(p), 1)
        }),
{
    let p = Position { at: 0, len: s.len() as u16 };
    // The first character is a digit or a dot, so no whitespace is skipped.
    assert(tokenizer::ws_end(s, 0) == 0);
    assert(tokenizer::utf8_len(s.take(0)) == 0) by {
        assert(s.take(0) =~= Seq::<char>::empty());
    }
    // The number run covers the rest of the source.
    tokenizer::lemma_num_end(s, 1);
    assert(tokenizer::num_end(s, 1) == s.len());
    assert(tokenizer::spec_next(s, 0) == ScanNext::Tok(Token::Number(p), s.len() as int));
    assert(tokenizer::ws_end(s, s.len() as int) == s.len());
    // The single token parses to a Number leaf.
    let toks = seq![Token::Number(p)];
    assert(toks.len() == 1);
    assert(parser::sp_singular(toks, 0) == POut::Done(Ast::Num(p), 1));
    assert(parser::clamp_pos(toks, 1, 1) == 1);
    assert(parser::sp_climb(toks, Ast::Num(p), 1, 0) == POut::Done(Ast::Num(p), 1));
}

/// Law: a source that is a numeric literal with a `+` or `-` prefix scans to
/// that operator's token followed by a single `Number` token spanning the
/// rest, after which the scanner is done, and those two tokens parse to a
/// unary application of the operator to the `Number` leaf.  Together with
/// `lemma_numeric_literal_roundtrip` this pins the tree an optionally signed
/// literal produces; its numeric value is the evaluator's part.
pub proof fn lemma_signed_literal_roundtrip(s: Seq<char>)
    requires
        2 <= s.len() <= 0xFFFF,
        s[0] == '-' || s[0] == '+',
        forall|k: int| 1 <= k < s.len() ==> tokenizer::is_number_char(#[trigger] s[k]),
        !(s.len() == 2 && s[1] == '.'),
    ensures
        ({
            let ix = crate::operator::spec_is_operator(s[0])->Some_0;
            let p = Position { at: 1, len: (s.len() - 1) as u16 };
            let toks = seq![Token::Operator { at: 0, operator_ix: ix }, Token::Number(p)];
            &&& tokenizer::spec_next(s, 0) == ScanNext::Tok(
                Token::Operator { at: 0, operator_ix: ix },
                1,
            )
            &&& tokenizer::spec_next(s, 1) == ScanNext::Tok(Token::Number(p), s.len() as int)
            &&& tokenizer::spec_next(s, s.len() as int) == ScanNext::End
            &&& parser::sp_expr(toks, 0, 0) == POut::Done(
                Ast::Un(ix, Box::new(Ast::Num(p))),
                2,
            )
        }),
{
    let ix = crate::operator::spec_is_operator(s[0])->Some_0;
    let p = Position { at: 1, len: (s.len() - 1) as u16 };
    let toks = seq![Token::Operator { at: 0, operator_ix: ix }, Token::Number(p)];
    // The sign scans as a single-character operator at byte offset 0.
    assert(tokenizer::ws_end(s, 0) == 0);
    assert(tokenizer::utf8_len(s.take(0)) == 0) by {
        assert(s.take(0) =~= Seq::<char>::empty());
    }
    assert(tokenizer::spec_next(s, 0) == ScanNext::Tok(
        Token::Operator { at: 0, operator_ix: ix },
        1,
    ));
    // The digits scan as one Number token at byte offset 1.
    assert(tokenizer::ws_end(s, 1) == 1);
    assert(tokenizer::utf8_len(s.take(1)) == 1) by {
        tokenizer::lemma_utf8_len_take_succ(s, 0);
        assert(tokenizer::utf8_len(s.take(0)) == 0) by {
            assert(s.take(0) =~= Seq::<char>::empty());
        }
    }
    tokenizer::lemma_num_end(s, 2);
    assert(tokenizer::num_end(s, 2) == s.len());
    assert(tokenizer::spec_next(s, 1) == ScanNext::Tok(Token::Number(p), s.len() as int));
    assert(tokenizer::ws_end(s, s.len() as int) == s.len());
    // The two tokens parse to a unary node over a Number leaf.
    assert(toks.len() == 2);
    assert(toks[0] == Token::Operator { at: 0, operator_ix: ix });
    assert(toks[1] == Token::Number(p));
    assert(parser::sp_singular(toks, 1) == POut::Done(Ast::Num(p), 2));
    assert(parser::clamp_pos(toks, 2, 2) == 2);
    assert(parser::sp_climb(toks, Ast::Num(p), 2, 0) == POut::Done(Ast::Num(p), 2));
    assert(parser::sp_expr(toks, 1, 0) == POut::Done(Ast::Num(p), 2));
    assert(parser::sp_singular(toks, 0) == POut::Done(Ast::Un(ix, Box::new(Ast::Num(p))), 2));
    assert(parser::sp_climb(toks, Ast::Un(ix, Box::new(Ast::Num(p))), 2, 0) == POut::Done(
        Ast::Un(ix, Box::new(Ast::Num(p))),
        2,
    ));
    assert(parser::sp_expr(toks, 0, 0) == POut::Done(Ast::Un(ix, Box::new(Ast::Num(p))), 2));
}


/// The tree a chain of `k` prefix applications of the operator at `ix` around
/// a number leaf forms: `k == 0` is the leaf itself.
pub open spec fn sign_chain(k: nat, ix: u8, p: Position) -> Ast
    decreases k,
{
    if k == 0 {
        Ast::Num(p)
    } else {
        Ast::Un(ix, Box::new(sign_chain((k - 1) as nat, ix, p)))
    }
}

/// The token sequence of `k` operator tokens at consecutive offsets followed
/// by one number token.
pub open spec fn sign_tokens(k: nat, ix: u8, p: Position) -> Seq<Token> {
    Seq::new(
        (k + 1) as nat,
        |m: int|
            if m < k {
                Token::Operator { at: m as u32, operator_ix: ix }
            } else {
                Token::Number(p)
            },
    )
}

proof fn lemma_sign_chain_parse(k: nat, ix: u8, p: Position, m: int)
    requires
        0 <= m <= k,
        parser::op_prec(ix) > 0,
    ensures
        parser::sp_expr(sign_tokens(k, ix, p), m, 0) == POut::Done(
            sign_chain((k - m) as nat, ix, p),
            k as int + 1,
        ),
    decreases k - m,
{
    let toks = sign_tokens(k, ix, p);
    assert(toks.len() == k + 1);
    if m == k {
        assert(toks[m] == Token::Number(p));
        assert(parser::sp_singular(toks, m) == POut::Done(Ast::Num(p), k as int + 1));
        assert(parser::clamp_pos(toks, m + 1, k as int + 1) == k as int + 1);
        assert(parser::sp_climb(toks, Ast::Num(p), k as int + 1, 0) == POut::Done(Ast::Num(p), k as int + 1));
        assert(sign_chain((k - m) as nat, ix, p) == Ast::Num(p));
    } else {
        assert(toks[m] == Token::Operator { at: m as u32, operator_ix: ix });
        lemma_sign_chain_parse(k, ix, p, m + 1);
        let inner = sign_chain((k - m - 1) as nat, ix, p);
        assert(parser::sp_singular(toks, m) == POut::Done(Ast::Un(ix, Box::new(inner)), k as int + 1));
        assert(sign_chain((k - m) as nat, ix, p) == Ast::Un(ix, Box::new(inner)));
        assert(parser::clamp_pos(toks, m + 1, k as int + 1) == k as int + 1);
        assert(parser::sp_climb(toks, Ast::Un(ix, Box::new(inner)), k as int + 1, 0)
            == POut::Done(Ast::Un(ix, Box::new(inner)), k as int + 1));
    }
}

/// Law: a source of `k >= 1` `-` signs followed by a numeric literal scans to
/// `k` operator tokens at consecutive offsets and one `Number` token spanning
/// the literal, after which the scanner is done, and those tokens parse to
/// `k` nested unary applications of `-` around the `Number` leaf.  Negating
/// the leaf's value once per sign is the evaluator's part.
pub proof fn lemma_sign_chain_roundtrip(s: Seq<char>, k: nat)
    requires
        1 <= k,
        k < s.len() <= 0xFFFF,
        forall|m: int| 0 <= m < k ==> s[m] == '-',
        forall|j: int| k <= j < s.len() ==> tokenizer::is_number_char(#[trigger] s[j]),
        !(s.len() == k + 1 && s[k as int] == '.'),
    ensures
        ({
            let p = Position { at: k as u32, len: (s.len() - k) as u16 };
            &&& forall|m: int|
                0 <= m < k ==> tokenizer::spec_next(s, m) == ScanNext::Tok(
                    Token::Operator { at: m as u32, operator_ix: 3 },
                    m + 1,
                )
            &&& tokenizer::spec_next(s, k as int) == ScanNext::Tok(Token::Number(p), s.len() as int)
            &&& tokenizer::spec_next(s, s.len() as int) == ScanNext::End
            &&& parser::sp_expr(sign_tokens(k, 3, p), 0, 0) == POut::Done(
                sign_chain(k, 3, p),
                k as int + 1,
            )
        }),
{
    let p = Position { at: k as u32, len: (s.len() - k) as u16 };
    assert forall|m: int| 0 <= m < k implies tokenizer::spec_next(s, m) == ScanNext::Tok(
        Token::Operator { at: m as u32, operator_ix: 3 },
        m + 1,
    ) by {
        assert(tokenizer::ws_end(s, m) == m);
        assert(forall|j: int|
            0 <= j < m ==> tokenizer::char_bytes(#[trigger] s.take(m)[j]) == 1);
        tokenizer::lemma_ascii_run_len(s.take(m));
        assert(tokenizer::utf8_len(s.take(m)) == m);
    }
    // The literal after the signs scans as one Number token.
    assert(tokenizer::ws_end(s, k as int) == k);
    assert(forall|j: int| 0 <= j < k ==> tokenizer::char_bytes(#[trigger] s.take(k as int)[j]) == 1);
    tokenizer::lemma_ascii_run_len(s.take(k as int));
    assert(tokenizer::utf8_len(s.take(k as int)) == k);
    tokenizer::lemma_num_end(s, k as int + 1);
    assert(tokenizer::num_end(s, k as int + 1) == s.len());
    assert(tokenizer::spec_next(s, k as int) == ScanNext::Tok(Token::Number(p), s.len() as int));
    assert(tokenizer::ws_end(s, s.len() as int) == s.len());
    lemma_sign_chain_parse(k, 3, p, 0);
}

} // verus!
