//! Spec-level model of line-addressed text.
//!
//! Content is modelled twice, consistently: mapped files as a byte sequence
//! in which line `l` is the half-open segment between consecutive line
//! starts (a line start is offset 0 or the offset just after a newline
//! byte), and rope text as a character sequence whose UTF-8 encoding is
//! given by `vstd::utf8::encode_utf8`.

use vstd::prelude::*;

use vstd::utf8::{encode_scalar, encode_utf8};

verus! {

pub const NEWLINE: u8 = 10;

/// Offsets just after each newline byte, in increasing order.
pub open spec fn nl_starts(bytes: Seq<u8>) -> Seq<int>
    decreases bytes.len(),
{
    if bytes.len() == 0 {
        Seq::empty()
    } else if bytes.last() == NEWLINE {
        nl_starts(bytes.drop_last()).push(bytes.len() as int)
    } else {
        nl_starts(bytes.drop_last())
    }
}

/// Byte offsets of line starts: offset 0, then one entry per newline byte.
pub open spec fn line_starts(bytes: Seq<u8>) -> Seq<int> {
    seq![0int] + nl_starts(bytes)
}

pub proof fn lemma_nl_starts(bytes: Seq<u8>)
    ensures
        forall|k: int| 0 <= k < nl_starts(bytes).len() ==> 0 < #[trigger] nl_starts(bytes)[k]
            <= bytes.len(),
        forall|k: int|
            0 <= k < nl_starts(bytes).len() ==> bytes[#[trigger] nl_starts(bytes)[k] - 1]
                == NEWLINE,
        forall|k1: int, k2: int|
            0 <= k1 < k2 < nl_starts(bytes).len() ==> #[trigger] nl_starts(bytes)[k1]
                < #[trigger] nl_starts(bytes)[k2],
        bytes.len() > 0 && bytes.last() == NEWLINE ==> nl_starts(bytes).len() > 0 && nl_starts(
            bytes,
        ).last() == bytes.len(),
        bytes.len() == 0 || bytes.last() != NEWLINE ==> forall|k: int|
            0 <= k < nl_starts(bytes).len() ==> #[trigger] nl_starts(bytes)[k] < bytes.len(),
    decreases bytes.len(),
{
    if bytes.len() > 0 {
        lemma_nl_starts(bytes.drop_last());
        let pre = bytes.drop_last();
        assert(forall|k: int| 0 <= k < pre.len() ==> pre[k] == bytes[k]);
        let inner = nl_starts(pre);
        if bytes.last() == NEWLINE {
            let all = nl_starts(bytes);
            assert(all == inner.push(bytes.len() as int));
            assert(forall|k: int| 0 <= k < inner.len() ==> all[k] == inner[k]);
            assert forall|k: int| 0 <= k < all.len() implies bytes[#[trigger] all[k] - 1]
                == NEWLINE by {
                if k < inner.len() {
                    assert(pre[inner[k] - 1] == NEWLINE);
                } else {
                    assert(all[k] == bytes.len());
                }
            }
        }
    }
}

/// Line starts begin with 0, are strictly increasing, and stay in range.
pub proof fn lemma_line_starts(bytes: Seq<u8>)
    ensures
        line_starts(bytes).len() >= 1,
        line_starts(bytes)[0] == 0,
        forall|k: int| 0 <= k < line_starts(bytes).len() ==> 0 <= #[trigger] line_starts(bytes)[k]
            <= bytes.len(),
        forall|k1: int, k2: int|
            0 <= k1 < k2 < line_starts(bytes).len() ==> #[trigger] line_starts(bytes)[k1]
                < #[trigger] line_starts(bytes)[k2],
        forall|k: int|
            1 <= k < line_starts(bytes).len() ==> bytes[#[trigger] line_starts(bytes)[k] - 1]
                == NEWLINE,
{
    lemma_nl_starts(bytes);
    let all = line_starts(bytes);
    let inner = nl_starts(bytes);
    assert(forall|k: int| 1 <= k < all.len() ==> all[k] == inner[k - 1]);
}

/// Number of lines: the trailing segment after the last newline counts only
/// when it is non-empty, so `"a\n"` has one line and `"a\nb"` has two.
pub open spec fn line_count_of(bytes: Seq<u8>) -> int {
    if bytes.len() == 0 {
        0
    } else if bytes.last() == NEWLINE {
        line_starts(bytes).len() - 1
    } else {
        line_starts(bytes).len() as int
    }
}

/// Start offset of line `l`.
pub open spec fn seg_start(bytes: Seq<u8>, l: int) -> int {
    line_starts(bytes)[l]
}

/// One-past-the-end offset of line `l`: the next line start, or the end of
/// the content for the last line.
pub open spec fn seg_end(bytes: Seq<u8>, l: int) -> int {
    if l + 1 < line_starts(bytes).len() {
        line_starts(bytes)[l + 1]
    } else {
        bytes.len() as int
    }
}

/// The bytes of line `l`, terminating newline included.
pub open spec fn seg_bytes(bytes: Seq<u8>, l: int) -> Seq<u8> {
    bytes.subrange(seg_start(bytes, l), seg_end(bytes, l))
}

pub proof fn lemma_seg_bounds(bytes: Seq<u8>, l: int)
    requires
        0 <= l < line_starts(bytes).len(),
    ensures
        0 <= seg_start(bytes, l) <= seg_end(bytes, l) <= bytes.len(),
{
    lemma_line_starts(bytes);
}

/// UTF-8 length of a character sequence.
pub open spec fn ulen(s: Seq<char>) -> int {
    encode_utf8(s).len() as int
}

/// Encoding a concatenation encodes the parts in order.
pub proof fn lemma_encode_concat(a: Seq<char>, b: Seq<char>)
    ensures
        encode_utf8(a + b) == encode_utf8(a) + encode_utf8(b),
    decreases a.len(),
{
    if a.len() == 0 {
        assert(a + b =~= b);
        assert(encode_utf8(a) =~= Seq::<u8>::empty());
        assert(encode_utf8(a) + encode_utf8(b) =~= encode_utf8(b));
    } else {
        assert((a + b).drop_first() =~= a.drop_first() + b);
        lemma_encode_concat(a.drop_first(), b);
        assert((a + b)[0] == a[0]);
        assert(encode_utf8(a + b) == encode_scalar((a + b)[0] as u32) + encode_utf8(
            (a + b).drop_first(),
        ));
        assert(encode_scalar(a[0] as u32) + (encode_utf8(a.drop_first()) + encode_utf8(b))
            =~= (encode_scalar(a[0] as u32) + encode_utf8(a.drop_first())) + encode_utf8(b));
    }
}

pub proof fn lemma_encode_singleton(c: char)
    ensures
        encode_utf8(seq![c]) == encode_scalar(c as u32),
{
    assert(seq![c].drop_first() =~= Seq::<char>::empty());
    assert(encode_utf8(seq![c].drop_first()) =~= Seq::<u8>::empty());
    assert(encode_scalar(c as u32) + Seq::<u8>::empty() =~= encode_scalar(c as u32));
}

/// Growing a prefix by one character grows its encoding by that character's
/// width.
pub proof fn lemma_ulen_step(s: Seq<char>, c: int)
    requires
        0 <= c < s.len(),
    ensures
        ulen(s.take(c + 1)) == ulen(s.take(c)) + encode_scalar(s[c] as u32).len(),
{
    assert(s.take(c + 1) =~= s.take(c) + seq![s[c]]);
    lemma_encode_concat(s.take(c), seq![s[c]]);
    lemma_encode_singleton(s[c]);
}

/// A prefix never encodes to more bytes than the whole.
pub proof fn lemma_ulen_take_le(s: Seq<char>, c: int)
    requires
        0 <= c <= s.len(),
    ensures
        0 <= ulen(s.take(c)) <= ulen(s),
{
    assert(s =~= s.take(c) + s.skip(c));
    lemma_encode_concat(s.take(c), s.skip(c));
}

/// Largest character index whose encoded prefix fits within `b` bytes.
pub open spec fn char_floor(s: Seq<char>, b: int) -> int
    decreases s.len(),
{
    if s.len() == 0 {
        0
    } else {
        let w = encode_scalar(s[0] as u32).len() as int;
        if b < w {
            0
        } else {
            1 + char_floor(s.drop_first(), b - w)
        }
    }
}

pub proof fn lemma_char_floor_bounds(s: Seq<char>, b: int)
    requires
        b >= 0,
    ensures
        0 <= char_floor(s, b) <= s.len(),
    decreases s.len(),
{
    if s.len() > 0 {
        let w = encode_scalar(s[0] as u32).len() as int;
        if b >= w {
            lemma_char_floor_bounds(s.drop_first(), b - w);
        }
    }
}

pub proof fn lemma_char_floor_mono(s: Seq<char>, b1: int, b2: int)
    requires
        0 <= b1 <= b2,
    ensures
        char_floor(s, b1) <= char_floor(s, b2),
    decreases s.len(),
{
    if s.len() > 0 {
        let w = encode_scalar(s[0] as u32).len() as int;
        if b1 >= w {
            lemma_char_floor_mono(s.drop_first(), b1 - w, b2 - w);
        } else if b2 >= w {
            lemma_char_floor_bounds(s.drop_first(), b2 - w);
        }
    }
}


/// Index of the last entry at or below `off` in a strictly increasing list
/// of starts whose first entry is 0: the line containing byte `off`.
pub open spec fn floor_idx(starts: Seq<int>, off: int) -> int
    decreases starts.len(),
{
    if starts.len() <= 1 {
        0
    } else if starts.last() <= off {
        starts.len() - 1
    } else {
        floor_idx(starts.drop_last(), off)
    }
}

/// The floor index is the unique position satisfying the bracketing
/// characterisation.
pub proof fn lemma_floor_idx_unique(starts: Seq<int>, off: int, l: int)
    requires
        forall|k1: int, k2: int|
            0 <= k1 < k2 < starts.len() ==> #[trigger] starts[k1] < #[trigger] starts[k2],
        0 <= l < starts.len(),
        starts[l] <= off,
        l == starts.len() - 1 || starts[l + 1] > off,
    ensures
        floor_idx(starts, off) == l,
    decreases starts.len(),
{
    if starts.len() > 1 {
        if starts.last() <= off {
            if l < starts.len() - 1 {
                assert(starts[l + 1] <= starts[starts.len() - 1]);
                assert(false);
            }
        } else {
            assert(l < starts.len() - 1);
            let pre = starts.drop_last();
            assert(forall|k: int| 0 <= k < pre.len() ==> pre[k] == starts[k]);
            lemma_floor_idx_unique(pre, off, l);
        }
    }
}

pub proof fn lemma_floor_idx_bounds(starts: Seq<int>, off: int)
    requires
        starts.len() >= 1,
    ensures
        0 <= floor_idx(starts, off) < starts.len(),
    decreases starts.len(),
{
    if starts.len() > 1 && starts.last() > off {
        lemma_floor_idx_bounds(starts.drop_last(), off);
    }
}

} // verus!
