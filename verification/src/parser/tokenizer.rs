//! Single-pass byte-level JSON tokenizer.
//!
//! The scanner recognises quoted strings (a backslash consumes exactly one
//! following byte, also at end of input, where the token becomes invalid),
//! numeric literals (optional sign, digit run, optional fraction, optional
//! signed exponent), the keywords `true`, `false` and `null` matched byte for
//! byte, structural punctuation, whitespace runs and everything else as
//! invalid. A depth counter grows on `{` and `[` and shrinks, saturating at
//! zero, on `}` and `]`; an opening token records the depth before its own
//! nesting change.
//!
//! The spec functions in this module give the scanner's result in closed
//! form; every executable function is proved equal to them.

use vstd::prelude::*;

use crate::parser::token::{Token, TokenKind};

verus! {

pub open spec fn is_ws_byte(b: u8) -> bool {
    b == 32 || b == 10 || b == 13 || b == 9
}

pub open spec fn is_digit_byte(b: u8) -> bool {
    48 <= b <= 57
}

/// First position at or after `p` that does not hold whitespace.
pub open spec fn ws_end(s: Seq<u8>, p: int) -> int
    decreases s.len() - p,
{
    if !(0 <= p < s.len()) {
        p
    } else if is_ws_byte(s[p]) {
        ws_end(s, p + 1)
    } else {
        p
    }
}

/// End of a string token whose body starts at `q` (one past the opening
/// quote): one past the closing quote, or end of input if the string never
/// closes. A backslash consumes the following byte.
pub open spec fn string_body_end(s: Seq<u8>, q: int) -> int
    decreases s.len() - q,
{
    if !(0 <= q < s.len()) {
        s.len() as int
    } else if s[q] == 34 {
        q + 1
    } else if s[q] == 92 {
        if q + 1 >= s.len() {
            s.len() as int
        } else {
            string_body_end(s, q + 2)
        }
    } else {
        string_body_end(s, q + 1)
    }
}

/// Whether the string whose body starts at `q` reaches a closing quote.
pub open spec fn string_closes(s: Seq<u8>, q: int) -> bool
    decreases s.len() - q,
{
    if !(0 <= q < s.len()) {
        false
    } else if s[q] == 34 {
        true
    } else if s[q] == 92 {
        q + 1 < s.len() && string_closes(s, q + 2)
    } else {
        string_closes(s, q + 1)
    }
}

/// First position at or after `p` that does not hold an ASCII digit.
pub open spec fn digits_end(s: Seq<u8>, p: int) -> int
    decreases s.len() - p,
{
    if !(0 <= p < s.len()) {
        p
    } else if is_digit_byte(s[p]) {
        digits_end(s, p + 1)
    } else {
        p
    }
}

/// Position after the optional leading minus of a number starting at `p`.
pub open spec fn num_int_start(s: Seq<u8>, p: int) -> int {
    if 0 <= p < s.len() && s[p] == 45 {
        p + 1
    } else {
        p
    }
}

/// End of a numeric token starting at `p`: sign, digit run, optional
/// fraction, optional signed exponent.
pub open spec fn num_end(s: Seq<u8>, p: int) -> int {
    let d1 = digits_end(s, num_int_start(s, p));
    let d2 = if d1 < s.len() && s[d1] == 46 {
        digits_end(s, d1 + 1)
    } else {
        d1
    };
    if d2 < s.len() && (s[d2] == 101 || s[d2] == 69) {
        let pe = if d2 + 1 < s.len() && (s[d2 + 1] == 43 || s[d2 + 1] == 45) {
            d2 + 2
        } else {
            d2 + 1
        };
        digits_end(s, pe)
    } else {
        d2
    }
}

/// A number is valid exactly when its integer part holds at least one digit.
pub open spec fn num_has_digits(s: Seq<u8>, p: int) -> bool {
    digits_end(s, num_int_start(s, p)) > num_int_start(s, p)
}

/// End of a keyword match at `p`: the full keyword if it matches, otherwise
/// one past the first mismatching byte, or the position itself at end of
/// input.
pub open spec fn kw_end(s: Seq<u8>, p: int, kw: Seq<u8>) -> int
    decreases kw.len(),
{
    if kw.len() == 0 {
        p
    } else if !(0 <= p < s.len()) {
        p
    } else if s[p] == kw[0] {
        kw_end(s, p + 1, kw.drop_first())
    } else {
        p + 1
    }
}

pub open spec fn kw_matches(s: Seq<u8>, p: int, kw: Seq<u8>) -> bool
    decreases kw.len(),
{
    if kw.len() == 0 {
        true
    } else if !(0 <= p < s.len()) {
        false
    } else {
        s[p] == kw[0] && kw_matches(s, p + 1, kw.drop_first())
    }
}

pub open spec fn true_bytes() -> Seq<u8> {
    seq![116u8, 114u8, 117u8, 101u8]
}

pub open spec fn false_bytes() -> Seq<u8> {
    seq![102u8, 97u8, 108u8, 115u8, 101u8]
}

pub open spec fn null_bytes() -> Seq<u8> {
    seq![110u8, 117u8, 108u8, 108u8]
}

/// Kind of the token that starts at position `p` (`p` must be in bounds).
pub open spec fn tok_kind(s: Seq<u8>, p: int) -> TokenKind {
    let b = s[p];
    if is_ws_byte(b) {
        TokenKind::Whitespace
    } else if b == 123 {
        TokenKind::BraceOpen
    } else if b == 125 {
        TokenKind::BraceClose
    } else if b == 91 {
        TokenKind::BracketOpen
    } else if b == 93 {
        TokenKind::BracketClose
    } else if b == 58 {
        TokenKind::Colon
    } else if b == 44 {
        TokenKind::Comma
    } else if b == 34 {
        if string_closes(s, p + 1) {
            TokenKind::String
        } else {
            TokenKind::Invalid
        }
    } else if b == 45 || is_digit_byte(b) {
        if num_has_digits(s, p) {
            TokenKind::Number
        } else {
            TokenKind::Invalid
        }
    } else if b == 116 {
        if kw_matches(s, p, true_bytes()) {
            TokenKind::True
        } else {
            TokenKind::Invalid
        }
    } else if b == 102 {
        if kw_matches(s, p, false_bytes()) {
            TokenKind::False
        } else {
            TokenKind::Invalid
        }
    } else if b == 110 {
        if kw_matches(s, p, null_bytes()) {
            TokenKind::Null
        } else {
            TokenKind::Invalid
        }
    } else {
        TokenKind::Invalid
    }
}

/// End of the token that starts at position `p` (`p` must be in bounds).
pub open spec fn tok_end(s: Seq<u8>, p: int) -> int {
    let b = s[p];
    if is_ws_byte(b) {
        ws_end(s, p)
    } else if b == 123 || b == 125 || b == 91 || b == 93 || b == 58 || b == 44 {
        p + 1
    } else if b == 34 {
        string_body_end(s, p + 1)
    } else if b == 45 || is_digit_byte(b) {
        num_end(s, p)
    } else if b == 116 {
        kw_end(s, p, true_bytes())
    } else if b == 102 {
        kw_end(s, p, false_bytes())
    } else if b == 110 {
        kw_end(s, p, null_bytes())
    } else {
        p + 1
    }
}

/// Depth recorded on the token starting at `p`: an opening bracket records
/// the depth before the increment, a closing one the depth after the
/// saturating decrement, everything else the current depth.
pub open spec fn tok_depth(s: Seq<u8>, p: int, depth: u32) -> u32 {
    let b = s[p];
    if b == 125 || b == 93 {
        if depth > 0 {
            (depth - 1) as u32
        } else {
            0u32
        }
    } else {
        depth
    }
}

/// Depth counter after the token starting at `p` has been consumed.
pub open spec fn next_depth(s: Seq<u8>, p: int, depth: u32) -> u32 {
    let b = s[p];
    if b == 123 || b == 91 {
        if depth < u32::MAX {
            (depth + 1) as u32
        } else {
            u32::MAX
        }
    } else if b == 125 || b == 93 {
        if depth > 0 {
            (depth - 1) as u32
        } else {
            0u32
        }
    } else {
        depth
    }
}

/// The whole token stream from position `p` at depth `depth`.
pub open spec fn spec_tokens(s: Seq<u8>, p: int, depth: u32) -> Seq<Token>
    decreases s.len() - p,
{
    if !(0 <= p < s.len()) {
        Seq::empty()
    } else {
        let e = tok_end(s, p);
        let e2 = if p < e <= s.len() {
            e
        } else {
            p + 1
        };
        seq![
            Token {
                kind: tok_kind(s, p),
                start: p as usize,
                end: e2 as usize,
                depth: tok_depth(s, p, depth),
            },
        ] + spec_tokens(s, e2, next_depth(s, p, depth))
    }
}

proof fn lemma_ws_end_bounds(s: Seq<u8>, p: int)
    requires
        0 <= p <= s.len(),
    ensures
        p <= ws_end(s, p) <= s.len(),
    decreases s.len() - p,
{
    if p < s.len() && is_ws_byte(s[p]) {
        lemma_ws_end_bounds(s, p + 1);
    }
}

proof fn lemma_string_body_end_bounds(s: Seq<u8>, q: int)
    requires
        0 <= q <= s.len(),
    ensures
        q <= string_body_end(s, q) <= s.len(),
    decreases s.len() - q,
{
    if q < s.len() && s[q] != 34 {
        if s[q] == 92 {
            if q + 1 < s.len() {
                lemma_string_body_end_bounds(s, q + 2);
            }
        } else {
            lemma_string_body_end_bounds(s, q + 1);
        }
    }
}

proof fn lemma_digits_end_bounds(s: Seq<u8>, p: int)
    requires
        0 <= p <= s.len(),
    ensures
        p <= digits_end(s, p) <= s.len(),
    decreases s.len() - p,
{
    if p < s.len() && is_digit_byte(s[p]) {
        lemma_digits_end_bounds(s, p + 1);
    }
}

proof fn lemma_kw_end_bounds(s: Seq<u8>, p: int, kw: Seq<u8>)
    requires
        0 <= p <= s.len(),
    ensures
        p <= kw_end(s, p, kw) <= s.len(),
    decreases kw.len(),
{
    if kw.len() > 0 && p < s.len() && s[p] == kw[0] {
        lemma_kw_end_bounds(s, p + 1, kw.drop_first());
    }
}

/// Every token makes progress: its end lies strictly after its start and
/// within the input.
pub proof fn lemma_tok_end_progress(s: Seq<u8>, p: int)
    requires
        0 <= p < s.len(),
    ensures
        p < tok_end(s, p) <= s.len(),
{
    let b = s[p];
    if is_ws_byte(b) {
        lemma_ws_end_bounds(s, p + 1);
    } else if b == 34 {
        lemma_string_body_end_bounds(s, p + 1);
    } else if b == 45 || is_digit_byte(b) {
        let p1 = num_int_start(s, p);
        lemma_digits_end_bounds(s, p1);
        let d1 = digits_end(s, p1);
        if is_digit_byte(b) {
            assert(digits_end(s, p) == digits_end(s, p + 1));
            lemma_digits_end_bounds(s, p + 1);
        }
        let d2 = if d1 < s.len() && s[d1] == 46 {
            digits_end(s, d1 + 1)
        } else {
            d1
        };
        if d1 < s.len() && s[d1] == 46 {
            lemma_digits_end_bounds(s, d1 + 1);
        }
        if d2 < s.len() && (s[d2] == 101 || s[d2] == 69) {
            let pe = if d2 + 1 < s.len() && (s[d2 + 1] == 43 || s[d2 + 1] == 45) {
                d2 + 2
            } else {
                d2 + 1
            };
            lemma_digits_end_bounds(s, if pe <= s.len() {
                pe
            } else {
                s.len() as int
            });
            if pe > s.len() {
                assert(digits_end(s, pe) == pe);
            }
        }
    } else if b == 116 {
        lemma_kw_end_bounds(s, p + 1, true_bytes().drop_first());
    } else if b == 102 {
        lemma_kw_end_bounds(s, p + 1, false_bytes().drop_first());
    } else if b == 110 {
        lemma_kw_end_bounds(s, p + 1, null_bytes().drop_first());
    }
}

/// The token stream partitions the scanned input: the first token starts at
/// the scan position, consecutive tokens are adjacent, every token is
/// non-empty and the last one ends at the end of the input.
pub proof fn lemma_spec_tokens_adjacent(s: Seq<u8>, p: int, depth: u32)
    requires
        0 <= p <= s.len(),
        s.len() <= usize::MAX,
    ensures
        (spec_tokens(s, p, depth).len() == 0) == (p == s.len()),
        spec_tokens(s, p, depth).len() > 0 ==> spec_tokens(s, p, depth)[0].start == p,
        spec_tokens(s, p, depth).len() > 0 ==> spec_tokens(s, p, depth).last().end == s.len(),
        forall|i: int|
            0 <= i < spec_tokens(s, p, depth).len() ==> #[trigger] spec_tokens(s, p, depth)[i].start
                < spec_tokens(s, p, depth)[i].end <= s.len(),
        forall|i: int|
            0 <= i < spec_tokens(s, p, depth).len() - 1 ==> #[trigger] spec_tokens(
                s,
                p,
                depth,
            )[i].end == spec_tokens(s, p, depth)[i + 1].start,
    decreases s.len() - p,
{
    if p < s.len() {
        lemma_tok_end_progress(s, p);
        let e = tok_end(s, p);
        lemma_spec_tokens_adjacent(s, e, next_depth(s, p, depth));
        let rest = spec_tokens(s, e, next_depth(s, p, depth));
        let all = spec_tokens(s, p, depth);
        assert(all.len() == 1 + rest.len());
        assert(forall|i: int| 0 <= i < rest.len() ==> all[i + 1] == rest[i]);
        assert forall|i: int| 0 <= i < all.len() implies #[trigger] all[i].start < all[i].end
            <= s.len() by {
            if i > 0 {
                assert(all[i] == rest[i - 1]);
            }
        }
        assert forall|i: int| 0 <= i < all.len() - 1 implies #[trigger] all[i].end == all[i
            + 1].start by {
            if i > 0 {
                assert(all[i] == rest[i - 1]);
                assert(all[i + 1] == rest[i]);
            } else {
                assert(rest.len() > 0);
                assert(all[1] == rest[0]);
            }
        }
        if rest.len() > 0 {
            assert(all.last() == rest.last());
        }
    }
}

pub struct Tokenizer {
    input: Vec<u8>,
    pos: usize,
    depth: u32,
}

impl Tokenizer {
    pub closed spec fn input_bytes(&self) -> Seq<u8> {
        self.input@
    }

    pub closed spec fn spec_pos(&self) -> int {
        self.pos as int
    }

    pub closed spec fn spec_depth(&self) -> u32 {
        self.depth
    }

    pub closed spec fn wf(&self) -> bool {
        self.pos <= self.input@.len()
    }

    /// Scanner over the UTF-8 bytes of `input`, starting at the beginning at
    /// depth zero.
    pub fn new(input: String) -> (t: Tokenizer)
        ensures
            t.input_bytes() == vstd::utf8::encode_utf8(input@),
            t.spec_pos() == 0,
            t.spec_depth() == 0,
            t.wf(),
    {
        Tokenizer { input: input.as_str().as_bytes_vec(), pos: 0, depth: 0 }
    }

    /// Scanner over raw bytes, starting at the beginning at depth zero.
    pub fn from_bytes(input: Vec<u8>) -> (t: Tokenizer)
        ensures
            t.input_bytes() == input@,
            t.spec_pos() == 0,
            t.spec_depth() == 0,
            t.wf(),
    {
        Tokenizer { input, pos: 0, depth: 0 }
    }

    fn peek(&self) -> (r: Option<u8>)
        ensures
            r == if self.spec_pos() < self.input_bytes().len() {
                Some(self.input_bytes()[self.spec_pos()])
            } else {
                Option::<u8>::None
            },
    {
        if self.pos < self.input.len() {
            Some(self.input[self.pos])
        } else {
            None
        }
    }

    fn advance(&mut self) -> (r: Option<u8>)
        ensures
            final(self).input_bytes() == old(self).input_bytes(),
            final(self).spec_depth() == old(self).spec_depth(),
            if old(self).spec_pos() < old(self).input_bytes().len() {
                r == Some(old(self).input_bytes()[old(self).spec_pos()]) && final(self).spec_pos()
                    == old(self).spec_pos() + 1
            } else {
                r is None && final(self).spec_pos() == old(self).spec_pos()
            },
    {
        if self.pos < self.input.len() {
            let ch = self.input[self.pos];
            self.pos = self.pos + 1;
            Some(ch)
        } else {
            None
        }
    }

    fn skip_whitespace(&mut self) -> (r: Option<Token>)
        requires
            old(self).wf(),
        ensures
            final(self).wf(),
            final(self).input_bytes() == old(self).input_bytes(),
            final(self).spec_depth() == old(self).spec_depth(),
            final(self).spec_pos() == ws_end(old(self).input_bytes(), old(self).spec_pos()),
            r == if final(self).spec_pos() > old(self).spec_pos() {
                Some(
                    Token {
                        kind: TokenKind::Whitespace,
                        start: old(self).pos,
                        end: final(self).pos,
                        depth: old(self).depth,
                    },
                )
            } else {
                Option::<Token>::None
            },
    {
        let start = self.pos;
        loop
            invariant
                self.wf(),
                self.input@ == old(self).input@,
                self.depth == old(self).depth,
                start <= self.pos,
                ws_end(self.input@, start as int) == ws_end(self.input@, self.pos as int),
            ensures
                self.pos as int == ws_end(old(self).input@, start as int),
                self.input@ == old(self).input@,
                self.depth == old(self).depth,
                start <= self.pos,
            decreases self.input@.len() - self.pos,
        {
            match self.peek() {
                Some(ch) => {
                    if ch == 32 || ch == 10 || ch == 13 || ch == 9 {
                        self.advance();
                    } else {
                        break ;
                    }
                },
                None => {
                    break ;
                },
            }
        }
        if self.pos > start {
            Some(Token::new(TokenKind::Whitespace, start, self.pos, self.depth))
        } else {
            None
        }
    }

    fn tokenize_string(&mut self, start: usize) -> (t: Token)
        requires
            old(self).wf(),
            start == old(self).spec_pos(),
            old(self).spec_pos() < old(self).input_bytes().len(),
            old(self).input_bytes()[old(self).spec_pos()] == 34,
        ensures
            final(self).wf(),
            final(self).input_bytes() == old(self).input_bytes(),
            final(self).spec_depth() == old(self).spec_depth(),
            final(self).spec_pos() == string_body_end(old(self).input_bytes(), start + 1),
            t == (Token {
                kind: if string_closes(old(self).input_bytes(), start + 1) {
                    TokenKind::String
                } else {
                    TokenKind::Invalid
                },
                start,
                end: final(self).pos,
                depth: old(self).depth,
            }),
    {
        let ghost s = self.input@;
        self.advance();
        let mut closed_quote = false;
        loop
            invariant_except_break
                !closed_quote,
                string_body_end(s, start + 1) == string_body_end(s, self.pos as int),
                string_closes(s, start + 1) == string_closes(s, self.pos as int),
            invariant
                self.wf(),
                self.input@ == s,
                self.depth == old(self).depth,
                start < self.pos,
            ensures
                self.input@ == s,
                self.depth == old(self).depth,
                self.pos as int == string_body_end(s, start + 1),
                closed_quote == string_closes(s, start + 1),
                start < self.pos,
            decreases self.input@.len() - self.pos,
        {
            let ghost q = self.pos as int;
            match self.advance() {
                Some(ch) => {
                    if ch == 34 {
                        proof {
                            assert(string_body_end(s, q) == q + 1);
                        }
                        closed_quote = true;
                        break ;
                    } else if ch == 92 {
                        self.advance();
                    } else {
                    }
                },
                None => {
                    break ;
                },
            }
        }
        if closed_quote {
            Token::new(TokenKind::String, start, self.pos, self.depth)
        } else {
            Token::new(TokenKind::Invalid, start, self.pos, self.depth)
        }
    }

    fn consume_digits(&mut self)
        requires
            old(self).wf(),
        ensures
            final(self).wf(),
            final(self).input_bytes() == old(self).input_bytes(),
            final(self).spec_depth() == old(self).spec_depth(),
            final(self).spec_pos() == digits_end(old(self).input_bytes(), old(self).spec_pos()),
            final(self).spec_pos() >= old(self).spec_pos(),
    {
        loop
            invariant
                self.wf(),
                self.input@ == old(self).input@,
                self.depth == old(self).depth,
                old(self).pos <= self.pos,
                digits_end(self.input@, old(self).pos as int) == digits_end(
                    self.input@,
                    self.pos as int,
                ),
            ensures
                self.input@ == old(self).input@,
                self.depth == old(self).depth,
                self.pos as int == digits_end(old(self).input@, old(self).pos as int),
                old(self).pos <= self.pos,
            decreases self.input@.len() - self.pos,
        {
            match self.peek() {
                Some(ch) => {
                    if 48 <= ch && ch <= 57 {
                        self.advance();
                    } else {
                        break ;
                    }
                },
                None => {
                    break ;
                },
            }
        }
    }

    fn tokenize_number(&mut self, start: usize) -> (t: Token)
        requires
            old(self).wf(),
            start == old(self).spec_pos(),
            old(self).spec_pos() < old(self).input_bytes().len(),
        ensures
            final(self).wf(),
            final(self).input_bytes() == old(self).input_bytes(),
            final(self).spec_depth() == old(self).spec_depth(),
            final(self).spec_pos() == num_end(old(self).input_bytes(), start as int),
            t == (Token {
                kind: if num_has_digits(old(self).input_bytes(), start as int) {
                    TokenKind::Number
                } else {
                    TokenKind::Invalid
                },
                start,
                end: final(self).pos,
                depth: old(self).depth,
            }),
    {
        let ghost s = self.input@;
        match self.peek() {
            Some(ch) => {
                if ch == 45 {
                    self.advance();
                }
            },
            None => {},
        }
        assert(self.pos as int == num_int_start(s, start as int));
        let digit_run_start = self.pos;
        self.consume_digits();
        let has_digits = self.pos > digit_run_start;
        assert(has_digits == num_has_digits(s, start as int));
        let ghost d1 = self.pos as int;

        match self.peek() {
            Some(ch) => {
                if ch == 46 {
                    self.advance();
                    self.consume_digits();
                }
            },
            None => {},
        }
        let ghost d2 = self.pos as int;

        match self.peek() {
            Some(ch) => {
                if ch == 101 || ch == 69 {
                    self.advance();
                    match self.peek() {
                        Some(sign) => {
                            if sign == 43 || sign == 45 {
                                self.advance();
                            }
                        },
                        None => {},
                    }
                    self.consume_digits();
                }
            },
            None => {},
        }
        assert(self.pos as int == num_end(s, start as int));

        if has_digits {
            Token::new(TokenKind::Number, start, self.pos, self.depth)
        } else {
            Token::new(TokenKind::Invalid, start, self.pos, self.depth)
        }
    }

    fn match_keyword(&mut self, start: usize, keyword: &[u8], kind: TokenKind) -> (t: Token)
        requires
            old(self).wf(),
            start == old(self).spec_pos(),
        ensures
            final(self).wf(),
            final(self).input_bytes() == old(self).input_bytes(),
            final(self).spec_depth() == old(self).spec_depth(),
            final(self).spec_pos() == kw_end(old(self).input_bytes(), start as int, keyword@),
            t == (Token {
                kind: if kw_matches(old(self).input_bytes(), start as int, keyword@) {
                    kind
                } else {
                    TokenKind::Invalid
                },
                start,
                end: final(self).pos,
                depth: old(self).depth,
            }),
    {
        let ghost s = self.input@;
        proof {
            assert(keyword@.skip(0) =~= keyword@);
        }
        let mut i: usize = 0;
        loop
            invariant
                self.wf(),
                s == old(self).input@,
                self.input@ == s,
                self.depth == old(self).depth,
                i <= keyword@.len(),
                start == old(self).pos,
                self.pos as int == start + i,
                kw_end(s, start as int, keyword@) == kw_end(s, self.pos as int, keyword@.skip(
                    i as int,
                )),
                kw_matches(s, start as int, keyword@) == kw_matches(
                    s,
                    self.pos as int,
                    keyword@.skip(i as int),
                ),
            ensures
                self.input@ == s,
                self.depth == old(self).depth,
                i == keyword@.len(),
                self.pos as int == start + i,
                kw_end(s, start as int, keyword@) == self.pos as int,
                kw_matches(s, start as int, keyword@),
            decreases keyword@.len() - i,
        {
            if i >= keyword.len() {
                proof {
                    assert(keyword@.skip(i as int).len() == 0);
                }
                break ;
            }
            let expected = keyword[i];
            let ghost rest = keyword@.skip(i as int);
            let ghost q = self.pos as int;
            proof {
                assert(rest[0] == keyword@[i as int]);
                assert(rest.drop_first() =~= keyword@.skip(i as int + 1));
            }
            match self.advance() {
                Some(ch) => {
                    if ch == expected {
                        i = i + 1;
                    } else {
                        proof {
                            assert(s[q] != rest[0]);
                            assert(kw_end(s, q, rest) == q + 1);
                            assert(!kw_matches(s, q, rest));
                        }
                        return Token::new(TokenKind::Invalid, start, self.pos, self.depth);
                    }
                },
                None => {
                    proof {
                        assert(q >= s.len());
                        assert(kw_end(s, q, rest) == q);
                        assert(!kw_matches(s, q, rest));
                    }
                    return Token::new(TokenKind::Invalid, start, self.pos, self.depth);
                },
            }
        }
        Token::new(kind, start, self.pos, self.depth)
    }

    /// Scan one token. Returns `None` exactly at end of input; otherwise the
    /// returned token starts at the current position, ends strictly after it,
    /// and the scanner state advances to its end.
    pub fn next_token(&mut self) -> (r: Option<Token>)
        requires
            old(self).wf(),
        ensures
            final(self).wf(),
            final(self).input_bytes() == old(self).input_bytes(),
            old(self).spec_pos() >= old(self).input_bytes().len() ==> r is None
                && final(self).spec_pos() == old(self).spec_pos()
                && final(self).spec_depth() == old(self).spec_depth(),
            old(self).spec_pos() < old(self).input_bytes().len() ==> {
                let s = old(self).input_bytes();
                let p = old(self).spec_pos();
                &&& r == Some(
                    Token {
                        kind: tok_kind(s, p),
                        start: p as usize,
                        end: tok_end(s, p) as usize,
                        depth: tok_depth(s, p, old(self).spec_depth()),
                    },
                )
                &&& final(self).spec_pos() == tok_end(s, p)
                &&& final(self).spec_depth() == next_depth(s, p, old(self).spec_depth())
            },
    {
        let ghost s = self.input@;
        let ghost p0 = self.pos as int;
        proof {
            lemma_ws_end_bounds(s, p0);
        }
        if let Some(ws_token) = self.skip_whitespace() {
            proof {
                assert(is_ws_byte(s[p0]));
            }
            return Some(ws_token);
        }

        let start = self.pos;
        let ch = match self.peek() {
            Some(c) => c,
            None => {
                return None;
            },
        };
        proof {
            if is_ws_byte(s[start as int]) {
                lemma_ws_end_bounds(s, start + 1);
                assert(ws_end(s, start as int) == ws_end(s, start + 1));
                assert(false);
            }
        }

        let token = if ch == 123 {
            self.advance();
            let d = self.depth;
            self.depth = d.saturating_add(1);
            Token::new(TokenKind::BraceOpen, start, self.pos, d)
        } else if ch == 125 {
            self.depth = self.depth.saturating_sub(1);
            self.advance();
            Token::new(TokenKind::BraceClose, start, self.pos, self.depth)
        } else if ch == 91 {
            self.advance();
            let d = self.depth;
            self.depth = d.saturating_add(1);
            Token::new(TokenKind::BracketOpen, start, self.pos, d)
        } else if ch == 93 {
            self.depth = self.depth.saturating_sub(1);
            self.advance();
            Token::new(TokenKind::BracketClose, start, self.pos, self.depth)
        } else if ch == 58 {
            self.advance();
            Token::new(TokenKind::Colon, start, self.pos, self.depth)
        } else if ch == 44 {
            self.advance();
            Token::new(TokenKind::Comma, start, self.pos, self.depth)
        } else if ch == 34 {
            self.tokenize_string(start)
        } else if ch == 45 || (48 <= ch && ch <= 57) {
            self.tokenize_number(start)
        } else if ch == 116 {
            self.match_keyword(start, &[116u8, 114u8, 117u8, 101u8], TokenKind::True)
        } else if ch == 102 {
            self.match_keyword(start, &[102u8, 97u8, 108u8, 115u8, 101u8], TokenKind::False)
        } else if ch == 110 {
            self.match_keyword(start, &[110u8, 117u8, 108u8, 108u8], TokenKind::Null)
        } else {
            self.advance();
            Token::new(TokenKind::Invalid, start, self.pos, self.depth)
        };

        Some(token)
    }

    /// Scan every remaining token; the result is exactly `spec_tokens` of the
    /// input from the current position and depth.
    pub fn tokenize_all(&mut self) -> (tokens: Vec<Token>)
        requires
            old(self).wf(),
        ensures
            final(self).wf(),
            final(self).input_bytes() == old(self).input_bytes(),
            tokens@ == spec_tokens(
                old(self).input_bytes(),
                old(self).spec_pos(),
                old(self).spec_depth(),
            ),
            final(self).spec_pos() == final(self).input_bytes().len(),
    {
        let ghost s = self.input@;
        let mut tokens: Vec<Token> = Vec::new();
        loop
            invariant
                self.wf(),
                self.input@ == s,
                spec_tokens(s, old(self).pos as int, old(self).depth) == tokens@ + spec_tokens(
                    s,
                    self.pos as int,
                    self.depth,
                ),
            ensures
                self.input@ == s,
                self.pos == s.len(),
                tokens@ == spec_tokens(s, old(self).pos as int, old(self).depth),
            decreases self.input@.len() - self.pos,
        {
            let ghost p = self.pos as int;
            let ghost d = self.depth;
            match self.next_token() {
                Some(token) => {
                    proof {
                        lemma_tok_end_progress(s, p);
                        assert(spec_tokens(s, p, d) == seq![token] + spec_tokens(
                            s,
                            self.pos as int,
                            self.depth,
                        ));
                        assert((tokens@ + seq![token]) + spec_tokens(s, self.pos as int, self.depth)
                            =~= tokens@ + spec_tokens(s, p, d));
                    }
                    tokens.push(token);
                },
                None => {
                    proof {
                        assert(spec_tokens(s, p, d) =~= Seq::<Token>::empty());
                        assert(tokens@ + Seq::<Token>::empty() =~= tokens@);
                    }
                    break ;
                },
            }
        }
        tokens
    }
}

} // verus!
