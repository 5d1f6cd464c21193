//! The scanner: turns a source string into a stream of tokens, tracking byte
//! offsets for spans while reporting 1-based character positions in the
//! source in diagnostics.  `spec_next` is the mathematical model of one scanning step;
//! `Tokens::next` is proved to follow it exactly.
use vstd::prelude::*;

use crate::operator;
use crate::{Error, Position};
use vstd::utf8::{encode_scalar, encode_utf8};

verus! {

/// A token produced by the scanner.  Numbers and identifiers carry their byte
/// span; the other tokens carry only the byte offset of their first character.
#[derive(Debug, PartialEq, Clone, Copy)]
pub enum Token {
    Number(Position),
    Str(Position),
    Operator { at: u32, operator_ix: u8 },
    Comma(u32),
    LParen(u32),
    RParen(u32),
}

// ---------------------------------------------------------------------------
// Character classes
// ---------------------------------------------------------------------------
/// ASCII whitespace: space, tab, newline, form feed, carriage return.
pub open spec fn is_ws_char(c: char) -> bool {
    c == ' ' || c == '\t' || c == '\n' || c == '\x0c' || c == '\r'
}

/// An ASCII decimal digit.
pub open spec fn is_digit_char(c: char) -> bool {
    0x30 <= (c as u32) && (c as u32) <= 0x39
}

/// A character that may appear in a number run: a digit or a dot.
pub open spec fn is_number_char(c: char) -> bool {
    is_digit_char(c) || c == '.'
}

/// ASCII punctuation.
pub open spec fn is_ascii_punct_char(c: char) -> bool {
    let u = c as u32;
    (0x21 <= u && u <= 0x2f) || (0x3a <= u && u <= 0x40) || (0x5b <= u && u <= 0x60) || (0x7b <= u
        && u <= 0x7e)
}

/// A character the scanner rejects outright: ASCII punctuation other than `_`
/// (and other than the punctuation consumed by earlier scanner cases).
pub open spec fn is_reserved_char(c: char) -> bool {
    is_ascii_punct_char(c) && c != '_'
}

/// An ASCII letter or digit.
pub open spec fn is_ascii_alnum(c: char) -> bool {
    let u = c as u32;
    is_digit_char(c) || (0x41 <= u && u <= 0x5a) || (0x61 <= u && u <= 0x7a)
}

/// Whether a character counts as alphanumeric under Unicode; the fixed
/// property computed by `char::is_alphanumeric`.
pub uninterp spec fn unicode_alphanumeric(c: char) -> bool;

/// A character that may continue an identifier.
pub open spec fn is_ident_char(c: char) -> bool {
    unicode_alphanumeric(c) || c == '_'
}

/// Relies on char::is_alphanumeric: whether the character is alphanumeric
/// under Unicode, a property of the character alone.  Within ASCII, exactly
/// the letters and digits are alphanumeric.
#[verifier::external_body]
fn char_is_alphanumeric(c: char) -> (r: bool)
    ensures
        r == unicode_alphanumeric(c),
        (c as u32) < 0x80 ==> r == is_ascii_alnum(c),
{
    c.is_alphanumeric()
}

fn is_ws_exec(c: char) -> (r: bool)
    ensures
        r == is_ws_char(c),
{
    c == ' ' || c == '\t' || c == '\n' || c == '\x0c' || c == '\r'
}

fn is_digit_exec(c: char) -> (r: bool)
    ensures
        r == is_digit_char(c),
{
    let u = c as u32;
    0x30 <= u && u <= 0x39
}

fn is_number_exec(c: char) -> (r: bool)
    ensures
        r == is_number_char(c),
{
    is_digit_exec(c) || c == '.'
}

fn is_punct_exec(c: char) -> (r: bool)
    ensures
        r == is_ascii_punct_char(c),
{
    let u = c as u32;
    (0x21 <= u && u <= 0x2f) || (0x3a <= u && u <= 0x40) || (0x5b <= u && u <= 0x60) || (0x7b <= u
        && u <= 0x7e)
}

fn is_ident_exec(c: char) -> (r: bool)
    ensures
        r == is_ident_char(c),
{
    char_is_alphanumeric(c) || c == '_'
}

// ---------------------------------------------------------------------------
// Byte lengths of encoded characters
// ---------------------------------------------------------------------------
/// The number of bytes the UTF-8 encoding of `c` occupies.
pub open spec fn char_bytes(c: char) -> int {
    let u = c as u32;
    if u < 0x80 {
        1
    } else if u < 0x800 {
        2
    } else if u < 0x10000 {
        3
    } else {
        4
    }
}

/// The byte length of the UTF-8 encoding of `s`.
pub open spec fn utf8_len(s: Seq<char>) -> int {
    encode_utf8(s).len() as int
}

fn char_utf8_len(c: char) -> (r: u32)
    ensures
        r == char_bytes(c),
{
    let u = c as u32;
    if u < 0x80 {
        1
    } else if u < 0x800 {
        2
    } else if u < 0x10000 {
        3
    } else {
        4
    }
}

pub proof fn lemma_scalar_len(c: char)
    ensures
        encode_scalar(c as u32).len() == char_bytes(c),
        1 <= char_bytes(c) <= 4,
{
}

pub proof fn lemma_encode_concat(a: Seq<char>, b: Seq<char>)
    ensures
        encode_utf8(a + b) == encode_utf8(a) + encode_utf8(b),
    decreases a.len(),
{
    if a.len() == 0 {
        assert(a + b =~= b);
        assert(encode_utf8(a) + encode_utf8(b) =~= encode_utf8(b));
    } else {
        assert((a + b).drop_first() =~= a.drop_first() + b);
        assert((a + b)[0] == a[0]);
        assert((a + b).len() > 0);
        lemma_encode_concat(a.drop_first(), b);
        assert(encode_utf8(a + b) =~= encode_utf8(a) + encode_utf8(b));
    }
}

pub proof fn lemma_utf8_len_take_succ(s: Seq<char>, i: int)
    requires
        0 <= i < s.len(),
    ensures
        utf8_len(s.take(i + 1)) == utf8_len(s.take(i)) + char_bytes(s[i]),
{
    assert(s.take(i + 1) =~= s.take(i) + seq![s[i]]);
    lemma_encode_concat(s.take(i), seq![s[i]]);
    lemma_scalar_len(s[i]);
    assert(seq![s[i]].len() == 1);
    assert(seq![s[i]][0] == s[i]);
    assert(seq![s[i]].drop_first() =~= Seq::<char>::empty());
    assert(encode_utf8(seq![s[i]].drop_first()) =~= Seq::<u8>::empty());
    assert(encode_utf8(seq![s[i]]) =~= encode_scalar(s[i] as u32));
}

pub proof fn lemma_utf8_len_ge_len(s: Seq<char>)
    ensures
        utf8_len(s) >= s.len(),
    decreases s.len(),
{
    if s.len() > 0 {
        lemma_utf8_len_ge_len(s.drop_first());
        lemma_scalar_len(s[0]);
    }
}

pub proof fn lemma_utf8_len_take_mono(s: Seq<char>, i: int, j: int)
    requires
        0 <= i <= j <= s.len(),
    ensures
        utf8_len(s.take(i)) <= utf8_len(s.take(j)),
    decreases j - i,
{
    if i < j {
        lemma_utf8_len_take_mono(s, i, j - 1);
        lemma_utf8_len_take_succ(s, j - 1);
        lemma_scalar_len(s[j - 1]);
    }
}

pub proof fn lemma_utf8_len_take_all(s: Seq<char>)
    ensures
        utf8_len(s.take(s.len() as int)) == utf8_len(s),
{
    assert(s.take(s.len() as int) =~= s);
}

// ---------------------------------------------------------------------------
// Maximal character runs
// ---------------------------------------------------------------------------
/// The first index at or after `i` holding a non-whitespace character.
pub open spec fn ws_end(s: Seq<char>, i: int) -> int
    decreases s.len() - i when 0 <= i <= s.len()
{
    if i == s.len() {
        i
    } else if is_ws_char(s[i]) {
        ws_end(s, i + 1)
    } else {
        i
    }
}

/// The end of the maximal run of number characters starting at `i`.
pub open spec fn num_end(s: Seq<char>, i: int) -> int
    decreases s.len() - i when 0 <= i <= s.len()
{
    if i == s.len() {
        i
    } else if is_number_char(s[i]) {
        num_end(s, i + 1)
    } else {
        i
    }
}

/// The end of the maximal run of identifier characters starting at `i`.
pub open spec fn ident_end(s: Seq<char>, i: int) -> int
    decreases s.len() - i when 0 <= i <= s.len()
{
    if i == s.len() {
        i
    } else if is_ident_char(s[i]) {
        ident_end(s, i + 1)
    } else {
        i
    }
}

pub proof fn lemma_ws_end(s: Seq<char>, i: int)
    requires
        0 <= i <= s.len(),
    ensures
        i <= ws_end(s, i) <= s.len(),
        forall|k: int| i <= k < ws_end(s, i) ==> is_ws_char(#[trigger] s[k]),
        ws_end(s, i) == s.len() || !is_ws_char(s[ws_end(s, i)]),
    decreases s.len() - i,
{
    if i < s.len() && is_ws_char(s[i]) {
        lemma_ws_end(s, i + 1);
    }
}

pub proof fn lemma_num_end(s: Seq<char>, i: int)
    requires
        0 <= i <= s.len(),
    ensures
        i <= num_end(s, i) <= s.len(),
        forall|k: int| i <= k < num_end(s, i) ==> is_number_char(#[trigger] s[k]),
        num_end(s, i) == s.len() || !is_number_char(s[num_end(s, i)]),
    decreases s.len() - i,
{
    if i < s.len() && is_number_char(s[i]) {
        lemma_num_end(s, i + 1);
    }
}

pub proof fn lemma_ident_end(s: Seq<char>, i: int)
    requires
        0 <= i <= s.len(),
    ensures
        i <= ident_end(s, i) <= s.len(),
        forall|k: int| i <= k < ident_end(s, i) ==> is_ident_char(#[trigger] s[k]),
        ident_end(s, i) == s.len() || !is_ident_char(s[ident_end(s, i)]),
    decreases s.len() - i,
{
    if i < s.len() && is_ident_char(s[i]) {
        lemma_ident_end(s, i + 1);
    }
}


pub proof fn lemma_ascii_run_len(t: Seq<char>)
    requires
        forall|k: int| 0 <= k < t.len() ==> char_bytes(#[trigger] t[k]) == 1,
    ensures
        utf8_len(t) == t.len(),
    decreases t.len(),
{
    if t.len() > 0 {
        assert(forall|k: int| 0 <= k < t.drop_first().len() ==> char_bytes(
            #[trigger] t.drop_first()[k],
        ) == 1);
        lemma_ascii_run_len(t.drop_first());
        lemma_scalar_len(t[0]);
    }
}

pub proof fn lemma_span_slices(s: Seq<char>, w: int, e: int)
    requires
        0 <= w <= e <= s.len(),
    ensures
        utf8_len(s.take(e)) == utf8_len(s.take(w)) + utf8_len(s.subrange(w, e)),
        utf8_len(s.take(e)) <= utf8_len(s),
        0 <= utf8_len(s.take(w)),
        0 <= utf8_len(s.subrange(w, e)),
        encode_utf8(s).subrange(utf8_len(s.take(w)), utf8_len(s.take(e))) == encode_utf8(
            s.subrange(w, e),
        ),
{
    assert(s.take(e) =~= s.take(w) + s.subrange(w, e));
    lemma_encode_concat(s.take(w), s.subrange(w, e));
    assert(s =~= s.take(e) + s.subrange(e, s.len() as int));
    lemma_encode_concat(s.take(e), s.subrange(e, s.len() as int));
    assert(encode_utf8(s) =~= encode_utf8(s.take(w)) + encode_utf8(s.subrange(w, e))
        + encode_utf8(s.subrange(e, s.len() as int)));
    assert(encode_utf8(s).subrange(utf8_len(s.take(w)), utf8_len(s.take(e))) =~= encode_utf8(
        s.subrange(w, e),
    ));
}

/// Law: every Number or identifier token produced by a scanning step names,
/// through its byte span, exactly the text the scanner consumed for it:
/// slicing the UTF-8 encoding of the source at `[at, at + len)` yields the
/// encoding of the consumed character run, and the span lies inside the
/// encoded source.
pub proof fn lemma_token_span_roundtrip(s: Seq<char>, i: int)
    requires
        0 <= i <= s.len(),
        utf8_len(s) <= 0xFFFF,
    ensures
        match spec_next(s, i) {
            ScanNext::Tok(t, ni) => match t {
                Token::Number(p) => ws_end(s, i) <= ni <= s.len() && p.at + p.len <= utf8_len(s)
                    && encode_utf8(s).subrange(p.at as int, p.at + p.len) == encode_utf8(
                    s.subrange(ws_end(s, i), ni),
                ),
                Token::Str(p) => ws_end(s, i) <= ni <= s.len() && p.at + p.len <= utf8_len(s)
                    && encode_utf8(s).subrange(p.at as int, p.at + p.len) == encode_utf8(
                    s.subrange(ws_end(s, i), ni),
                ),
                _ => true,
            },
            _ => true,
        },
{
    lemma_ws_end(s, i);
    let w = ws_end(s, i);
    if w < s.len() {
        let c = s[w];
        lemma_utf8_len_take_mono(s, w, s.len() as int);
        lemma_utf8_len_take_all(s);
        if is_number_char(c) {
            let e = num_end(s, w + 1);
            lemma_num_end(s, w + 1);
            lemma_span_slices(s, w, e);
            assert(forall|k: int| 0 <= k < s.subrange(w, e).len() ==> char_bytes(
                #[trigger] s.subrange(w, e)[k],
            ) == 1);
            lemma_ascii_run_len(s.subrange(w, e));
            lemma_utf8_len_take_mono(s, e, s.len() as int);
        } else if operator::spec_is_operator(c) is Some {
        } else if c == ',' || c == '(' || c == ')' || is_reserved_char(c) {
        } else {
            let e = ident_end(s, w + 1);
            lemma_ident_end(s, w + 1);
            lemma_span_slices(s, w, e);
            lemma_utf8_len_take_mono(s, e, s.len() as int);
        }
    }
}

// ---------------------------------------------------------------------------
// The scanning-step model
// ---------------------------------------------------------------------------
/// The two lexical errors.
pub enum ScanErrKind {
    LoneDot,
    Reserved,
}

/// The diagnostic message for each lexical error.
pub open spec fn scan_msg(k: ScanErrKind) -> Seq<char> {
    match k {
        ScanErrKind::LoneDot => "Unexpected token '.'"@,
        ScanErrKind::Reserved => "Found reserved character"@,
    }
}

/// The outcome of one scanning step: end of input, a token together with the
/// character index where scanning resumes, or a lexical error carrying the
/// offending character's 1-based position in the source (whitespace counted)
/// and the resume index.
pub enum ScanNext {
    End,
    Tok(Token, int),
    Fail(ScanErrKind, u32, int),
}

/// One scanning step on `s` starting at character index `i`: skip whitespace,
/// then classify the first character and consume the token it starts.
pub open spec fn spec_next(s: Seq<char>, i: int) -> ScanNext
    recommends
        0 <= i <= s.len(),
{
    let w = ws_end(s, i);
    if w == s.len() {
        ScanNext::End
    } else {
        let c = s[w];
        let at = utf8_len(s.take(w)) as u32;
        let cn = (w + 1) as u32;
        if is_number_char(c) {
            let e = num_end(s, w + 1);
            if c == '.' && e == w + 1 {
                ScanNext::Fail(ScanErrKind::LoneDot, cn, e)
            } else {
                ScanNext::Tok(Token::Number(Position { at, len: (e - w) as u16 }), e)
            }
        } else if operator::spec_is_operator(c) is Some {
            if w + 1 < s.len() && operator::spec_is_multi_char(c, s[w + 1]) is Some {
                ScanNext::Tok(
                    Token::Operator {
                        at,
                        operator_ix: operator::spec_is_multi_char(c, s[w + 1])->Some_0,
                    },
                    w + 2,
                )
            } else {
                ScanNext::Tok(
                    Token::Operator { at, operator_ix: operator::spec_is_operator(c)->Some_0 },
                    w + 1,
                )
            }
        } else if c == ',' {
            ScanNext::Tok(Token::Comma(at), w + 1)
        } else if c == '(' {
            ScanNext::Tok(Token::LParen(at), w + 1)
        } else if c == ')' {
            ScanNext::Tok(Token::RParen(at), w + 1)
        } else if is_reserved_char(c) {
            ScanNext::Fail(ScanErrKind::Reserved, cn, w + 1)
        } else {
            let e = ident_end(s, w + 1);
            ScanNext::Tok(Token::Str(Position { at, len: (utf8_len(s.take(e)) - at) as u16 }), e)
        }
    }
}


/// Every operator token the scanner produces carries an index into the
/// operator table, so scanner output always satisfies what the parser asks
/// of its token stream.
pub proof fn lemma_scan_operator_bounded(s: Seq<char>, i: int)
    requires
        0 <= i <= s.len(),
    ensures
        match spec_next(s, i) {
            ScanNext::Tok(t, ni) => t matches Token::Operator { at: _, operator_ix }
                ==> operator_ix < crate::operator::OPERATOR_COUNT,
            _ => true,
        },
{
    lemma_ws_end(s, i);
}

// ---------------------------------------------------------------------------
// The scanner
// ---------------------------------------------------------------------------
/// Relies on str::chars: yields exactly the characters of the string, in order.
#[verifier::external_body]
fn chars_of(s: &str) -> (r: Vec<char>)
    ensures
        r@ == s@,
{
    s.chars().collect()
}

/// The scanner's state: the source characters, the index of the next
/// character, and the byte offset of that character in the encoded source.
pub struct Tokens {
    chars: Vec<char>,
    ix: usize,
    byte_ix: u32,
}

impl Tokens {
    /// The source as a character sequence.
    pub closed spec fn src(&self) -> Seq<char> {
        self.chars@
    }

    /// The index of the next character to scan.
    pub closed spec fn pos(&self) -> int {
        self.ix as int
    }

    /// The byte offset of the next character in the encoded source.
    pub closed spec fn byte_pos(&self) -> int {
        self.byte_ix as int
    }

    /// Well-formedness: the position is inside the source, the byte offset is
    /// the encoded length of the consumed prefix, and the whole source encodes
    /// to at most 65535 bytes, so that spans fit their 16-bit lengths.
    pub closed spec fn wf(&self) -> bool {
        &&& self.ix <= self.chars@.len()
        &&& self.byte_ix as int == utf8_len(self.chars@.take(self.ix as int))
        &&& utf8_len(self.chars@) <= 0xFFFF
    }

    /// Builds a scanner over `val`, positioned at its start.
    pub fn new(val: &str) -> (r: Tokens)
        requires
            utf8_len(val@) <= 0xFFFF,
        ensures
            r.wf(),
            r.src() == val@,
            r.pos() == 0,
    {
        let chars = chars_of(val);
        proof {
            assert(chars@.take(0) =~= Seq::<char>::empty());
            assert(encode_utf8(Seq::<char>::empty()) =~= Seq::<u8>::empty());
        }
        Tokens { chars, ix: 0, byte_ix: 0 }
    }

    /// Consumes one character, returning its byte offset and value.
    fn next_char(&mut self) -> (r: Option<(u32, char)>)
        requires
            old(self).wf(),
        ensures
            final(self).wf(),
            final(self).src() == old(self).src(),
            match r {
                None => final(self).pos() == old(self).src().len() && *final(self) == *old(self),
                Some((b, c)) => {
                    &&& old(self).pos() < old(self).src().len()
                    &&& c == old(self).src()[old(self).pos()]
                    &&& b as int == old(self).byte_pos()
                    &&& final(self).pos() == old(self).pos() + 1
                    &&& final(self).byte_pos() == old(self).byte_pos() + char_bytes(c)
                },
            },
    {
        if self.ix < self.chars.len() {
            let ch = self.chars[self.ix];
            let prev_ix = self.byte_ix;
            proof {
                lemma_utf8_len_take_succ(self.chars@, self.ix as int);
                lemma_utf8_len_take_mono(self.chars@, self.ix as int + 1, self.chars@.len() as int);
                lemma_utf8_len_take_all(self.chars@);
                lemma_scalar_len(ch);
            }
            self.byte_ix = self.byte_ix + char_utf8_len(ch);
            self.ix = self.ix + 1;
            Some((prev_ix, ch))
        } else {
            None
        }
    }

    /// Consumes the remainder of a number run whose first character, at byte
    /// offset `at`, has already been consumed, and returns its span.
    fn number(&mut self, at: u32) -> (p: Position)
        requires
            old(self).wf(),
            1 <= old(self).pos(),
        ensures
            final(self).wf(),
            final(self).src() == old(self).src(),
            final(self).pos() == num_end(old(self).src(), old(self).pos()),
            p.at == at,
            p.len as int == num_end(old(self).src(), old(self).pos()) - old(self).pos() + 1,
    {
        let ghost s = self.chars@;
        let ghost start = self.ix as int;
        proof {
            lemma_utf8_len_ge_len(s);
            lemma_num_end(s, start);
        }
        let mut len: u16 = 1;
        while self.ix < self.chars.len() && is_number_exec(self.chars[self.ix])
            invariant
                self.wf(),
                s == self.chars@,
                start <= self.ix as int <= s.len(),
                len as int == self.ix as int - start + 1,
                num_end(s, start) == num_end(s, self.ix as int),
                1 <= start,
                utf8_len(s) <= 0xFFFF,
                s.len() <= utf8_len(s),
            decreases s.len() - self.ix,
        {
            let ghost pre = self.ix as int;
            len = len + 1;
            let _ = self.next_char();
            proof {
                assert(num_end(s, pre) == num_end(s, pre + 1));
            }
        }
        proof {
            assert(num_end(s, self.ix as int) == self.ix as int);
        }
        Position { at, len }
    }

    /// Consumes the remainder of an identifier run whose first character, at
    /// byte offset `at`, has already been consumed, and returns its token.
    fn string(&mut self, at: u32) -> (t: Token)
        requires
            old(self).wf(),
            1 <= old(self).pos(),
            at as int == utf8_len(old(self).src().take(old(self).pos() - 1)),
        ensures
            final(self).wf(),
            final(self).src() == old(self).src(),
            final(self).pos() == ident_end(old(self).src(), old(self).pos()),
            t == Token::Str(
                Position {
                    at,
                    len: (utf8_len(old(self).src().take(ident_end(old(self).src(), old(self).pos())))
                        - at) as u16,
                },
            ),
    {
        let ghost s = self.chars@;
        let ghost start = self.ix as int;
        proof {
            lemma_utf8_len_ge_len(s);
            lemma_ident_end(s, start);
            lemma_utf8_len_take_mono(s, start - 1, start);
            lemma_utf8_len_take_mono(s, start, s.len() as int);
            lemma_utf8_len_take_all(s);
        }
        let mut len: u16 = (self.byte_ix - at) as u16;
        while self.ix < self.chars.len() && is_ident_exec(self.chars[self.ix])
            invariant
                self.wf(),
                s == self.chars@,
                1 <= start <= self.ix as int <= s.len(),
                at as int + len as int == self.byte_pos(),
                at as int == utf8_len(s.take(start - 1)),
                ident_end(s, start) == ident_end(s, self.ix as int),
                utf8_len(s) <= 0xFFFF,
            decreases s.len() - self.ix,
        {
            let ghost pre = self.ix as int;
            let ch = self.chars[self.ix];
            proof {
                lemma_utf8_len_take_succ(s, self.ix as int);
                lemma_utf8_len_take_mono(s, self.ix as int + 1, s.len() as int);
                lemma_utf8_len_take_all(s);
                lemma_scalar_len(ch);
            }
            let b = char_utf8_len(ch);
            len = len + (b as u16);
            let _ = self.next_char();
            proof {
                assert(ident_end(s, pre) == ident_end(s, pre + 1));
            }
        }
        proof {
            assert(ident_end(s, self.ix as int) == self.ix as int);
        }
        Token::Str(Position { at, len })
    }

    /// Scans one token: `None` at the end of the source, a token, or a lexical
    /// error (a lone dot, or a reserved punctuation character), exactly as the
    /// model `spec_next` describes for the current position.
    pub fn next(&mut self) -> (r: Option<Result<Token, Error>>)
        requires
            old(self).wf(),
        ensures
            final(self).wf(),
            final(self).src() == old(self).src(),
            match spec_next(old(self).src(), old(self).pos()) {
                ScanNext::End => r is None && final(self).pos() == old(self).src().len(),
                ScanNext::Tok(t, ni) => r == Some(Result::<Token, Error>::Ok(t)) && final(self).pos()
                    == ni,
                ScanNext::Fail(k, cn, ni) => (r matches Some(res) && res matches Err(e) && e.at
                    == cn && e.error@ == scan_msg(k)) && final(self).pos() == ni,
            },
    {
        let ghost s = self.chars@;
        let ghost i0 = self.ix as int;
        proof {
            lemma_utf8_len_ge_len(s);
            lemma_ws_end(s, i0);
        }
        while self.ix < self.chars.len() && is_ws_exec(self.chars[self.ix])
            invariant
                self.wf(),
                s == self.chars@,
                0 <= i0 <= self.ix as int <= s.len(),
                ws_end(s, i0) == ws_end(s, self.ix as int),
                utf8_len(s) <= 0xFFFF,
                s.len() <= utf8_len(s),
            decreases s.len() - self.ix,
        {
            let ghost pre = self.ix as int;
            let _ = self.next_char();
            proof {
                assert(ws_end(s, pre) == ws_end(s, pre + 1));
            }
        }
        proof {
            assert(ws_end(s, self.ix as int) == self.ix as int);
        }
        // The 1-based character position of the token about to be scanned.
        let char_num: u32 = (self.ix as u32) + 1;
        let ghost pre = self.ix as int;
        match self.next_char() {
            None => {
                return None;
            },
            Some((byte_ix0, ch)) => {
                // `pre` is the index of the first non-whitespace character.
                proof {
                    assert(ws_end(s, i0) == pre);
                    lemma_utf8_len_take_mono(s, pre, s.len() as int);
                    lemma_utf8_len_take_all(s);
                }
                if is_number_exec(ch) {
                    let position = self.number(byte_ix0);
                    proof {
                        lemma_num_end(s, pre + 1);
                    }
                    if position.len == 1 && ch == '.' {
                        return Some(
                            Err(
                                Error {
                                    error: ("Unexpected token '.'").to_string(),
                                    at: char_num,
                                },
                            ),
                        );
                    }
                    return Some(Ok(Token::Number(position)));
                } else {
                    let op1 = operator::is_operator(ch);
                    match op1 {
                        Some(ix1) => {
                            let mut operator_ix = ix1;
                            if self.ix < self.chars.len() {
                                let c2 = self.chars[self.ix];
                                match operator::is_multi_char(ch, c2) {
                                    Some(ix2) => {
                                        let _ = self.next_char();
                                        operator_ix = ix2;
                                    },
                                    None => {},
                                }
                            }
                            return Some(Ok(Token::Operator { at: byte_ix0, operator_ix }));
                        },
                        None => {
                            if ch == ',' {
                                return Some(Ok(Token::Comma(byte_ix0)));
                            } else if ch == '(' {
                                return Some(Ok(Token::LParen(byte_ix0)));
                            } else if ch == ')' {
                                return Some(Ok(Token::RParen(byte_ix0)));
                            } else if is_punct_exec(ch) && ch != '_' {
                                return Some(
                                    Err(
                                        Error {
                                            error: ("Found reserved character").to_string(),
                                            at: char_num,
                                        },
                                    ),
                                );
                            } else {
                                let t = self.string(byte_ix0);
                                proof {
                                    lemma_ident_end(s, pre + 1);
                                }
                                return Some(Ok(t));
                            }
                        },
                    }
                }
            },
        }
    }
}

} // verus!
