//! Operators and motions of the modal layer: what an operator acts on is a
//! byte range computed from the buffer, the cursor offset and the motion.
//! Offsets that fall inside a multi-byte character floor to its boundary.

use vstd::prelude::*;

use crate::buffer::{char_floor_exec, BufError, Buffer};
use crate::outside::{char_is_alphanumeric, char_is_whitespace, char_utf8_len, is_alnum_char,
    is_space_char};
use crate::text::{char_floor, lemma_ulen_step, ulen};
use vstd::std_specs::iter::IteratorSpec;
use vstd::utf8::encode_utf8;

verus! {

broadcast use vstd::string::group_string_axioms;

/// Vim-style operators.
#[derive(Debug, Clone, Copy, PartialEq, Eq, Structural)]
pub enum Operator {
    Delete,
    Change,
    Yank,
}

#[derive(Debug, Clone, Copy, PartialEq, Eq, Structural)]
pub enum Direction {
    Forward,
    Backward,
}

#[derive(Debug, Clone, Copy, PartialEq, Eq, Structural)]
pub enum WordMotion {
    /// Next word start.
    Start,
    /// Next word end.
    End,
    /// Previous word start.
    BackStart,
}

#[derive(Debug, Clone, Copy, PartialEq, Eq, Structural)]
pub enum LinePosition {
    /// Column zero.
    Start,
    /// First non-whitespace character.
    FirstNonBlank,
    /// Last position of the line.
    End,
}

/// Text objects: a span around the cursor rather than a movement.
#[derive(Debug, Clone, Copy, PartialEq, Eq, Structural)]
pub enum TextObject {
    Word { inner: bool },
    Quotes { inner: bool },
    SingleQuotes { inner: bool },
    Braces { inner: bool },
    Brackets { inner: bool },
}

/// Vim-style motions, with a repeat count where it applies.
#[derive(Debug, Clone, PartialEq, Eq, Structural)]
pub enum Motion {
    Char(Direction, usize),
    Line(Direction, usize),
    Word(WordMotion, usize),
    LinePosition(LinePosition),
    TextObject(TextObject),
}

/// What applying an operator produced: the byte range it covered and the
/// text that was there.
#[derive(Debug)]
pub struct OperatorResult {
    pub range: core::ops::Range<usize>,
    pub text: String,
}

/// An operator waiting for its motion.
#[derive(Debug, Clone, Copy, PartialEq, Eq, Structural)]
pub struct PendingOperator {
    pub operator: Operator,
    pub count: usize,
}

/// A word character: alphanumeric or underscore.
pub open spec fn is_word_c(c: char) -> bool {
    is_alnum_char(c) || c == '_'
}

/// First index at or after `i` holding a word character.
pub open spec fn fwd_skip_nonword(s: Seq<char>, i: int) -> int
    decreases s.len() - i,
{
    if !(0 <= i < s.len()) {
        s.len() as int
    } else if is_word_c(s[i]) {
        i
    } else {
        fwd_skip_nonword(s, i + 1)
    }
}

/// First index at or after `i` past the current run of word characters.
pub open spec fn fwd_skip_word(s: Seq<char>, i: int) -> int
    decreases s.len() - i,
{
    if !(0 <= i < s.len()) {
        s.len() as int
    } else if !is_word_c(s[i]) {
        i
    } else {
        fwd_skip_word(s, i + 1)
    }
}

/// First index at or after `i` past the current run of whitespace.
pub open spec fn fwd_skip_space(s: Seq<char>, i: int) -> int
    decreases s.len() - i,
{
    if !(0 <= i < s.len()) {
        s.len() as int
    } else if !is_space_char(s[i]) {
        i
    } else {
        fwd_skip_space(s, i + 1)
    }
}

/// Walk backwards from `i` while the character there is not a word
/// character, stopping at the line of zero.
pub open spec fn back_skip_nonword(s: Seq<char>, i: int) -> int
    decreases i,
{
    if i <= 0 {
        0
    } else if !(i < s.len()) {
        i
    } else if is_word_c(s[i]) {
        i
    } else {
        back_skip_nonword(s, i - 1)
    }
}

/// Walk backwards from `i` while the character there is a word character.
pub open spec fn back_skip_word(s: Seq<char>, i: int) -> int
    decreases i,
{
    if i <= 0 {
        0
    } else if !(i < s.len()) {
        i
    } else if !is_word_c(s[i]) {
        i
    } else {
        back_skip_word(s, i - 1)
    }
}

/// Start of the word run ending at `i`: walk back while the previous
/// character is a word character.
pub open spec fn back_word_boundary(s: Seq<char>, i: int) -> int
    decreases i,
{
    if i <= 0 {
        0
    } else if i - 1 < s.len() && is_word_c(s[i - 1]) {
        back_word_boundary(s, i - 1)
    } else {
        i
    }
}

/// One word-motion step at character level.
pub open spec fn word_step(s: Seq<char>, motion: WordMotion, ci: int) -> int {
    match motion {
        WordMotion::Start => fwd_skip_word(s, fwd_skip_nonword(s, ci)),
        WordMotion::End => {
            let c1 = if ci < s.len() {
                ci + 1
            } else {
                ci
            };
            fwd_skip_word(s, fwd_skip_nonword(s, c1))
        },
        WordMotion::BackStart => {
            let c1 = if ci > 0 {
                ci - 1
            } else {
                ci
            };
            back_skip_word(s, back_skip_nonword(s, c1))
        },
    }
}

/// `count` word-motion steps.
pub open spec fn word_scan(s: Seq<char>, motion: WordMotion, ci: int, count: int) -> int
    decreases count,
{
    if count <= 0 {
        ci
    } else {
        word_scan(s, motion, word_step(s, motion, ci), count - 1)
    }
}

/// Index of the first non-whitespace character, or 0 when every character
/// is whitespace.
pub open spec fn first_nonblank(s: Seq<char>) -> int {
    if fwd_skip_space(s, 0) == s.len() {
        0
    } else {
        fwd_skip_space(s, 0)
    }
}

/// Offset of the nearest quote at or before `i` (the index just after it),
/// or 0 when none.
pub open spec fn back_to_byte(b: Seq<u8>, i: int, q: u8) -> int
    decreases i,
{
    if i <= 0 {
        0
    } else if !(i - 1 < b.len()) {
        i
    } else if b[i - 1] == q {
        i
    } else {
        back_to_byte(b, i - 1, q)
    }
}

/// Offset of the nearest quote at or after `i`, or the length when none.
pub open spec fn fwd_to_byte(b: Seq<u8>, i: int, q: u8) -> int
    decreases b.len() - i,
{
    if !(0 <= i < b.len()) {
        b.len() as int
    } else if b[i] == q {
        i
    } else {
        fwd_to_byte(b, i + 1, q)
    }
}

/// The quoted span around byte `pos`: opening quote before, closing quote
/// after, shrunk past the quotes when `inner`.
pub open spec fn enclosing_quotes_spec(b: Seq<u8>, pos: int, q: u8, inner: bool) -> Option<
    (int, int),
> {
    let s0 = back_to_byte(b, pos, q);
    if s0 == 0 {
        None
    } else {
        let e0 = fwd_to_byte(b, pos, q);
        if e0 >= b.len() {
            None
        } else if inner {
            Some((s0, e0))
        } else {
            Some((s0 - 1, e0 + 1))
        }
    }
}

impl Motion {
    /// The byte range this motion covers from `start`, as `(lo, hi)`.
    pub open spec fn spec_range(&self, b: &Buffer, start: int) -> (int, int) {
        let len = Motion::content_len(b);
        match self {
            Motion::Char(dir, count) => {
                let cnt = *count as int;
                let e = match dir {
                    Direction::Forward => if start + cnt < len {
                        start + cnt
                    } else {
                        len
                    },
                    Direction::Backward => if start - cnt > 0 {
                        start - cnt
                    } else {
                        0
                    },
                };
                (Motion::imin(start, e), Motion::imax(start, e))
            },
            Motion::Line(dir, count) => {
                let cnt = *count as int;
                let sl = b.spec_byte_to_line(start);
                let lc = b.spec_line_count();
                let last = if lc > 0 {
                    lc - 1
                } else {
                    0
                };
                let tgt = match dir {
                    Direction::Forward => if sl + cnt < last {
                        sl + cnt
                    } else {
                        last
                    },
                    Direction::Backward => if sl - cnt > 0 {
                        sl - cnt
                    } else {
                        0
                    },
                };
                let hi = Motion::imax(sl, tgt);
                (
                    b.spec_line_to_byte(Motion::imin(sl, tgt)),
                    if hi < usize::MAX {
                        b.spec_line_to_byte(hi + 1)
                    } else {
                        len
                    },
                )
            },
            Motion::Word(motion, count) => {
                let text = b.spec_slice(0, len);
                let cf = word_scan(text, *motion, char_floor(text, start), *count as int);
                let bp = ulen(text.take(cf));
                let bp2 = if *motion is End {
                    Motion::imax(bp - (*count as int), 0)
                } else {
                    bp
                };
                (Motion::imin(start, bp2), Motion::imax(start, bp2))
            },
            Motion::LinePosition(pos) => {
                let line = b.spec_byte_to_line(start);
                let ls = b.spec_line_to_byte(line);
                let le = if line < usize::MAX {
                    b.spec_line_to_byte(line + 1)
                } else {
                    len
                };
                match pos {
                    LinePosition::Start => (start, Motion::imax(ls, start)),
                    LinePosition::End => (start, Motion::imax(Motion::imax(le - 1, 0), start)),
                    LinePosition::FirstNonBlank => {
                        let fnb = first_nonblank(b.spec_get_line(line));
                        (
                            start,
                            if ls + fnb < usize::MAX {
                                ls + fnb
                            } else {
                                usize::MAX as int
                            },
                        )
                    },
                }
            },
            Motion::TextObject(obj) => {
                let text = b.spec_slice(0, len);
                match obj {
                    TextObject::Word { inner } => {
                        let ci = char_floor(text, start);
                        let ws = back_word_boundary(text, ci);
                        let we0 = fwd_skip_word(text, ci);
                        let we = if *inner {
                            we0
                        } else {
                            fwd_skip_space(text, we0)
                        };
                        (ulen(text.take(ws)), ulen(text.take(we)))
                    },
                    TextObject::Quotes { inner } => {
                        match enclosing_quotes_spec(encode_utf8(text), start, 34, *inner) {
                            Some(range) => range,
                            None => (start, start),
                        }
                    },
                    _ => (start, start),
                }
            },
        }
    }

    /// Logical content size in bytes.
    pub open spec fn content_len(b: &Buffer) -> int {
        if b.is_rope_mode() {
            ulen(b.rope_text())
        } else {
            b.src_bytes().len() as int
        }
    }

    pub open spec fn imin(a: int, c: int) -> int {
        if a < c {
            a
        } else {
            c
        }
    }

    pub open spec fn imax(a: int, c: int) -> int {
        if a > c {
            a
        } else {
            c
        }
    }

    /// Byte range the motion covers from `start_offset`; total, and exactly
    /// `spec_range`.
    pub fn calculate_range(&self, buffer: &Buffer, start_offset: usize) -> (r: Result<
        core::ops::Range<usize>,
        BufError,
    >)
        requires
            buffer.wf(),
        ensures
            r is Ok,
            r->Ok_0.start == self.spec_range(buffer, start_offset as int).0,
            r->Ok_0.end == self.spec_range(buffer, start_offset as int).1,
    {
        match self {
            Motion::Char(dir, count) => {
                let len = buffer.len_bytes();
                let end = match dir {
                    Direction::Forward => {
                        let e = start_offset.saturating_add(*count);
                        if e < len {
                            e
                        } else {
                            len
                        }
                    },
                    Direction::Backward => start_offset.saturating_sub(*count),
                };
                let lo = if start_offset < end {
                    start_offset
                } else {
                    end
                };
                let hi = if start_offset > end {
                    start_offset
                } else {
                    end
                };
                Ok(lo..hi)
            },
            Motion::Line(dir, count) => {
                let start_line = buffer.byte_offset_to_line(start_offset);
                let last = buffer.line_count().saturating_sub(1);
                let target_line = match dir {
                    Direction::Forward => {
                        let t = start_line.saturating_add(*count);
                        if t < last {
                            t
                        } else {
                            last
                        }
                    },
                    Direction::Backward => start_line.saturating_sub(*count),
                };
                let lo = if start_line < target_line {
                    start_line
                } else {
                    target_line
                };
                let hi = if start_line > target_line {
                    start_line
                } else {
                    target_line
                };
                let line_start = buffer.line_to_byte_offset(lo);
                let line_end = if hi < usize::MAX {
                    buffer.line_to_byte_offset(hi + 1)
                } else {
                    buffer.len_bytes()
                };
                Ok(line_start..line_end)
            },
            Motion::Word(motion, count) => Motion::calculate_word_range(
                buffer,
                start_offset,
                motion,
                *count,
            ),
            Motion::LinePosition(pos) => {
                let line = buffer.byte_offset_to_line(start_offset);
                let line_start = buffer.line_to_byte_offset(line);
                let line_end = if line < usize::MAX {
                    buffer.line_to_byte_offset(line + 1)
                } else {
                    buffer.len_bytes()
                };
                match pos {
                    LinePosition::Start => {
                        let e = if line_start > start_offset {
                            line_start
                        } else {
                            start_offset
                        };
                        Ok(start_offset..e)
                    },
                    LinePosition::End => {
                        let le = line_end.saturating_sub(1);
                        let e = if le > start_offset {
                            le
                        } else {
                            start_offset
                        };
                        Ok(start_offset..e)
                    },
                    LinePosition::FirstNonBlank => {
                        let line_text = buffer.get_line(line);
                        let chars = string_chars(&line_text);
                        let n = chars.len();
                        let sk = skip_space_exec(&chars, 0);
                        let first_non_blank = if sk == n {
                            0
                        } else {
                            sk
                        };
                        Ok(start_offset..line_start.saturating_add(first_non_blank))
                    },
                }
            },
            Motion::TextObject(obj) => Motion::calculate_text_object_range(
                buffer,
                start_offset,
                obj,
            ),
        }
    }

    fn calculate_word_range(
        buffer: &Buffer,
        start: usize,
        motion: &WordMotion,
        count: usize,
    ) -> (r: Result<core::ops::Range<usize>, BufError>)
        requires
            buffer.wf(),
        ensures
            r is Ok,
            r->Ok_0.start == Motion::Word(*motion, count).spec_range(buffer, start as int).0,
            r->Ok_0.end == Motion::Word(*motion, count).spec_range(buffer, start as int).1,
    {
        let len_b = buffer.len_bytes();
        let text = buffer.slice(0..len_b);
        let ghost t = text@;
        let total = text.as_str().as_bytes().len();
        let chars = string_chars(&text);
        let mut ci = char_floor_exec(&text, start);
        proof {
            crate::text::lemma_char_floor_bounds(t, start as int);
        }
        let mut k: usize = 0;
        while k < count
            invariant
                buffer.wf(),
                chars@ == t,
                ci <= t.len(),
                word_scan(t, *motion, char_floor(t, start as int), count as int) == word_scan(
                    t,
                    *motion,
                    ci as int,
                    count - k,
                ),
            decreases count - k,
        {
            ci = word_step_exec(&chars, motion, ci);
            k = k + 1;
        }
        let bp = width_upto(&chars, ci, total);
        let bp2 = match motion {
            WordMotion::End => bp.saturating_sub(count),
            _ => bp,
        };
        let lo = if start < bp2 {
            start
        } else {
            bp2
        };
        let hi = if start > bp2 {
            start
        } else {
            bp2
        };
        Ok(lo..hi)
    }

    fn calculate_text_object_range(buffer: &Buffer, start: usize, obj: &TextObject) -> (r: Result<
        core::ops::Range<usize>,
        BufError,
    >)
        requires
            buffer.wf(),
        ensures
            r is Ok,
            r->Ok_0.start == Motion::TextObject(*obj).spec_range(buffer, start as int).0,
            r->Ok_0.end == Motion::TextObject(*obj).spec_range(buffer, start as int).1,
    {
        match obj {
            TextObject::Word { inner } => {
                let len_b = buffer.len_bytes();
                let text = buffer.slice(0..len_b);
                let ghost t = text@;
                let total = text.as_str().as_bytes().len();
                let chars = string_chars(&text);
                let ci = char_floor_exec(&text, start);
                proof {
                    crate::text::lemma_char_floor_bounds(t, start as int);
                }
                let word_start = back_word_boundary_exec(&chars, ci);
                let we0 = skip_word_exec(&chars, ci);
                let word_end = if *inner {
                    we0
                } else {
                    skip_space_exec(&chars, we0)
                };
                let byte_start = width_upto(&chars, word_start, total);
                let byte_end = width_upto(&chars, word_end, total);
                Ok(byte_start..byte_end)
            },
            TextObject::Quotes { inner } => {
                let len_b = buffer.len_bytes();
                let text = buffer.slice(0..len_b);
                let bytes = text.as_str().as_bytes_vec();
                match find_enclosing_quotes(&bytes, start, 34, *inner) {
                    Some(range) => Ok(range.0..range.1),
                    None => Ok(start..start),
                }
            },
            _ => Ok(start..start),
        }
    }
}

/// The quoted span around byte `pos`, or `None` when no quote pair encloses
/// it; exactly `enclosing_quotes_spec`.
fn find_enclosing_quotes(bytes: &Vec<u8>, pos: usize, quote: u8, inner: bool) -> (r: Option<
    (usize, usize),
>)
    ensures
        match r {
            Some(range) => enclosing_quotes_spec(bytes@, pos as int, quote, inner) == Some(
                (range.0 as int, range.1 as int),
            ),
            None => enclosing_quotes_spec(bytes@, pos as int, quote, inner) is None,
        },
{
    let mut s: usize = pos;
    while s > 0
        invariant
            back_to_byte(bytes@, pos as int, quote) == back_to_byte(bytes@, s as int, quote),
        ensures
            back_to_byte(bytes@, pos as int, quote) == back_to_byte(bytes@, s as int, quote),
            s == 0 || s - 1 >= bytes@.len() || bytes@[s - 1] == quote,
        decreases s,
    {
        if s - 1 >= bytes.len() {
            break ;
        }
        if bytes[s - 1] == quote {
            break ;
        }
        s = s - 1;
    }
    if s == 0 {
        return None;
    }
    let mut e: usize = pos;
    while e < bytes.len()
        invariant
            pos <= e,
            fwd_to_byte(bytes@, pos as int, quote) == fwd_to_byte(bytes@, e as int, quote),
        ensures
            fwd_to_byte(bytes@, pos as int, quote) == fwd_to_byte(bytes@, e as int, quote),
            e >= bytes@.len() || bytes@[e as int] == quote,
        decreases bytes@.len() - e,
    {
        if bytes[e] == quote {
            break ;
        }
        e = e + 1;
    }
    if e >= bytes.len() {
        return None;
    }
    if inner {
        Some((s, e))
    } else {
        Some((s - 1, e + 1))
    }
}

/// The characters of a string, in order.
fn string_chars(s: &String) -> (v: Vec<char>)
    ensures
        v@ == s@,
{
    let mut it = s.as_str().chars();
    let mut v: Vec<char> = Vec::new();
    loop
        invariant
            v@ + it.remaining() == s@,
            it.obeys_prophetic_iter_laws(),
            it.decrease() is Some,
        ensures
            v@ == s@,
        decreases it.decrease()->0,
    {
        match it.next() {
            Some(c) => {
                proof {
                    assert((v@ + seq![c]) + it.remaining() =~= v@ + (seq![c] + it.remaining()));
                }
                v.push(c);
            },
            None => {
                proof {
                    assert(v@ + it.remaining() =~= v@);
                }
                break ;
            },
        }
    }
    v
}

/// UTF-8 width of the first `c` characters.
fn width_upto(chars: &Vec<char>, c: usize, total: usize) -> (r: usize)
    requires
        c <= chars@.len(),
        total == ulen(chars@),
    ensures
        r == ulen(chars@.take(c as int)),
{
    let ghost t = chars@;
    let mut acc: usize = 0;
    let mut i: usize = 0;
    proof {
        assert(t.take(0) =~= Seq::<char>::empty());
        assert(vstd::utf8::encode_utf8(Seq::<char>::empty()).len() == 0);
    }
    while i < c
        invariant
            i <= c <= t.len(),
            chars@ == t,
            total == ulen(t),
            acc == ulen(t.take(i as int)),
        decreases c - i,
    {
        let w = char_utf8_len(chars[i]);
        proof {
            lemma_ulen_step(t, i as int);
            crate::text::lemma_ulen_take_le(t, i + 1);
        }
        acc = acc + w;
        i = i + 1;
    }
    acc
}

fn skip_nonword_exec(chars: &Vec<char>, from: usize) -> (r: usize)
    requires
        from <= chars@.len(),
    ensures
        r == fwd_skip_nonword(chars@, from as int),
        from <= r <= chars@.len(),
{
    let mut i = from;
    while i < chars.len()
        invariant
            from <= i <= chars@.len(),
            fwd_skip_nonword(chars@, from as int) == fwd_skip_nonword(chars@, i as int),
        decreases chars@.len() - i,
    {
        let c = chars[i];
        if char_is_alphanumeric(c) || c == '_' {
            return i;
        }
        i = i + 1;
    }
    i
}

fn skip_word_exec(chars: &Vec<char>, from: usize) -> (r: usize)
    requires
        from <= chars@.len(),
    ensures
        r == fwd_skip_word(chars@, from as int),
        from <= r <= chars@.len(),
{
    let mut i = from;
    while i < chars.len()
        invariant
            from <= i <= chars@.len(),
            fwd_skip_word(chars@, from as int) == fwd_skip_word(chars@, i as int),
        decreases chars@.len() - i,
    {
        let c = chars[i];
        if !(char_is_alphanumeric(c) || c == '_') {
            return i;
        }
        i = i + 1;
    }
    i
}

fn skip_space_exec(chars: &Vec<char>, from: usize) -> (r: usize)
    requires
        from <= chars@.len(),
    ensures
        r == fwd_skip_space(chars@, from as int),
        from <= r <= chars@.len(),
{
    let mut i = from;
    while i < chars.len()
        invariant
            from <= i <= chars@.len(),
            fwd_skip_space(chars@, from as int) == fwd_skip_space(chars@, i as int),
        decreases chars@.len() - i,
    {
        if !char_is_whitespace(chars[i]) {
            return i;
        }
        i = i + 1;
    }
    i
}

fn back_skip_nonword_exec(chars: &Vec<char>, from: usize) -> (r: usize)
    ensures
        r == back_skip_nonword(chars@, from as int),
        r <= from,
{
    let mut i = from;
    while i > 0
        invariant
            i <= from,
            back_skip_nonword(chars@, from as int) == back_skip_nonword(chars@, i as int),
        decreases i,
    {
        if i >= chars.len() {
            return i;
        }
        let c = chars[i];
        if char_is_alphanumeric(c) || c == '_' {
            return i;
        }
        i = i - 1;
    }
    i
}

fn back_skip_word_exec(chars: &Vec<char>, from: usize) -> (r: usize)
    ensures
        r == back_skip_word(chars@, from as int),
        r <= from,
{
    let mut i = from;
    while i > 0
        invariant
            i <= from,
            back_skip_word(chars@, from as int) == back_skip_word(chars@, i as int),
        decreases i,
    {
        if i >= chars.len() {
            return i;
        }
        let c = chars[i];
        if !(char_is_alphanumeric(c) || c == '_') {
            return i;
        }
        i = i - 1;
    }
    i
}

fn back_word_boundary_exec(chars: &Vec<char>, from: usize) -> (r: usize)
    ensures
        r == back_word_boundary(chars@, from as int),
        r <= from,
{
    let mut i = from;
    while i > 0
        invariant
            i <= from,
            back_word_boundary(chars@, from as int) == back_word_boundary(chars@, i as int),
        decreases i,
    {
        if i - 1 >= chars.len() {
            return i;
        }
        let c = chars[i - 1];
        if !(char_is_alphanumeric(c) || c == '_') {
            return i;
        }
        i = i - 1;
    }
    i
}

/// One word-motion step; exactly `word_step`.
fn word_step_exec(chars: &Vec<char>, motion: &WordMotion, ci: usize) -> (r: usize)
    requires
        ci <= chars@.len(),
    ensures
        r == word_step(chars@, *motion, ci as int),
        r <= chars@.len(),
{
    match motion {
        WordMotion::Start => {
            let a = skip_nonword_exec(chars, ci);
            skip_word_exec(chars, a)
        },
        WordMotion::End => {
            let c1 = if ci < chars.len() {
                ci + 1
            } else {
                ci
            };
            let a = skip_nonword_exec(chars, c1);
            skip_word_exec(chars, a)
        },
        WordMotion::BackStart => {
            let c1 = if ci > 0 {
                ci - 1
            } else {
                ci
            };
            let a = back_skip_nonword_exec(chars, c1);
            let b = back_skip_word_exec(chars, a);
            proof {
                lemma_back_skips_bounded(chars@, c1 as int);
            }
            b
        },
    }
}

/// Backward scans stay within the content.
proof fn lemma_back_skips_bounded(s: Seq<char>, i: int)
    requires
        0 <= i <= s.len(),
    ensures
        back_skip_nonword(s, i) <= s.len(),
        back_skip_word(s, back_skip_nonword(s, i)) <= s.len(),
    decreases i,
{
    if i > 0 && i < s.len() && !is_word_c(s[i]) {
        lemma_back_skips_bounded(s, i - 1);
    } else {
        let a = back_skip_nonword(s, i);
        if a > 0 && a < s.len() && is_word_c(s[a]) {
            lemma_back_word_bounded(s, a);
        }
    }
}

proof fn lemma_back_word_bounded(s: Seq<char>, i: int)
    requires
        0 <= i <= s.len(),
    ensures
        back_skip_word(s, i) <= i,
    decreases i,
{
    if i > 0 && i < s.len() && is_word_c(s[i]) {
        lemma_back_word_bounded(s, i - 1);
    }
}

} // verus!
