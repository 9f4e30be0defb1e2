//! Trusted boundary to the outside crates the storage core is built on.
//!
//! `memmap2::Mmap` is held as an opaque read-only byte collection and
//! `ropey::Rope` as an opaque character collection; `mapped_bytes` and
//! `rope_chars` name their contents, and each wrapper states over those
//! names what the crate's source shows for the one call its body makes.
//! Everything here is believed, not proved: keep the bodies to the call and
//! its conversions.
//!
//! The mapped view is read-only and, as `memmap2` requires for soundness,
//! the underlying file must not be changed by others while mapped; its
//! contents are therefore treated as a function of the map value.

use vstd::prelude::*;

use crate::text::{char_floor, floor_idx, line_starts, ulen};
use vstd::utf8::{decode_utf8, encode_scalar, encode_utf8, valid_utf8};

verus! {

#[verifier::external_type_specification]
#[verifier::external_body]
pub struct ExMmap(memmap2::Mmap);

#[verifier::external_type_specification]
#[verifier::external_body]
pub struct ExRope(ropey::Rope);

/// The bytes a mapped view shows.
pub uninterp spec fn mapped_bytes(m: &memmap2::Mmap) -> Seq<u8>;

/// The text a rope holds.
pub uninterp spec fn rope_chars(r: &ropey::Rope) -> Seq<char>;

/// What `String::from_utf8_lossy` decodes arbitrary bytes to.
pub uninterp spec fn lossy_chars(bytes: Seq<u8>) -> Seq<char>;

/// Relies on `memmap2::Mmap::len`: the length of the mapped byte slice.
#[verifier::external_body]
pub fn mmap_len(m: &memmap2::Mmap) -> (r: usize)
    ensures
        r == mapped_bytes(m).len(),
{
    m.len()
}

/// Relies on `memmap2::Mmap` dereferencing to the mapped bytes; copies one
/// byte out of the view.
#[verifier::external_body]
pub fn mmap_byte(m: &memmap2::Mmap, i: usize) -> (r: u8)
    requires
        i < mapped_bytes(m).len(),
    ensures
        r == mapped_bytes(m)[i as int],
{
    m[i]
}

/// Relies on `memmap2::Mmap` dereferencing to the mapped bytes; copies a
/// sub-slice out of the view.
#[verifier::external_body]
pub fn mmap_slice_vec(m: &memmap2::Mmap, start: usize, end: usize) -> (r: Vec<u8>)
    requires
        start <= end <= mapped_bytes(m).len(),
    ensures
        r@ == mapped_bytes(m).subrange(start as int, end as int),
{
    m[start..end].to_vec()
}

/// Relies on `String::from_utf8_lossy`: the result is a function of the
/// bytes alone, and on valid UTF-8 it is exactly their decoding.
#[verifier::external_body]
pub fn lossy_to_string(bytes: &[u8]) -> (r: String)
    ensures
        r@ == lossy_chars(bytes@),
        valid_utf8(bytes@) ==> r@ == decode_utf8(bytes@),
{
    String::from_utf8_lossy(bytes).into_owned()
}

/// Relies on `char::len_utf8`: the UTF-8 width of the character.
#[verifier::external_body]
pub fn char_utf8_len(c: char) -> (r: usize)
    ensures
        r == encode_scalar(c as u32).len(),
{
    c.len_utf8()
}

/// Relies on `ropey::Rope::from_str`: builds a rope holding the text.
#[verifier::external_body]
pub fn rope_from_str(s: &str) -> (r: ropey::Rope)
    ensures
        rope_chars(&r) == s@,
{
    ropey::Rope::from_str(s)
}

/// Relies on `ropey::Rope::clone`: a clone holds the same text.
#[verifier::external_body]
pub fn rope_clone(r: &ropey::Rope) -> (c: ropey::Rope)
    ensures
        rope_chars(&c) == rope_chars(r),
{
    r.clone()
}

/// Relies on `ropey::Rope::len_chars`.
#[verifier::external_body]
pub fn rope_len_chars(r: &ropey::Rope) -> (n: usize)
    ensures
        n == rope_chars(r).len(),
{
    r.len_chars()
}

/// Relies on `ropey::Rope::len_bytes`: ropey stores text as UTF-8.
#[verifier::external_body]
pub fn rope_len_bytes(r: &ropey::Rope) -> (n: usize)
    ensures
        n == ulen(rope_chars(r)),
{
    r.len_bytes()
}

/// Relies on `ropey::Rope::len_lines` with line feeds as the only line
/// break (the crate is compiled without its extra line-break features): one
/// more than the number of newline characters, which is the number of line
/// starts of the encoded text.
#[verifier::external_body]
pub fn rope_len_lines(r: &ropey::Rope) -> (n: usize)
    ensures
        n == line_starts(encode_utf8(rope_chars(r))).len(),
{
    r.len_lines()
}

/// Relies on `ropey::Rope::line` and on `RopeSlice`'s `Display`: the line's
/// text, terminating newline included, encoded as the byte segment between
/// consecutive line starts.
#[verifier::external_body]
pub fn rope_line_string(r: &ropey::Rope, line_idx: usize) -> (s: String)
    requires
        (line_idx as int) < line_starts(encode_utf8(rope_chars(r))).len(),
    ensures
        encode_utf8(s@) == ({
            let enc = encode_utf8(rope_chars(r));
            let starts = line_starts(enc);
            enc.subrange(
                starts[line_idx as int],
                if line_idx + 1 < starts.len() {
                    starts[line_idx as int + 1]
                } else {
                    enc.len() as int
                },
            )
        }),
{
    r.line(line_idx).to_string()
}

/// Relies on `ropey::Rope::insert` at a character index.
#[verifier::external_body]
pub fn rope_insert(r: &mut ropey::Rope, char_idx: usize, text: &str)
    requires
        char_idx <= rope_chars(old(r)).len(),
    ensures
        rope_chars(final(r)) == rope_chars(old(r)).take(char_idx as int) + text@ + rope_chars(
            old(r),
        ).skip(char_idx as int),
{
    r.insert(char_idx, text)
}

/// Relies on `ropey::Rope::remove` over a character range.
#[verifier::external_body]
pub fn rope_remove(r: &mut ropey::Rope, start: usize, end: usize)
    requires
        start <= end <= rope_chars(old(r)).len(),
    ensures
        rope_chars(final(r)) == rope_chars(old(r)).take(start as int) + rope_chars(old(r)).skip(
            end as int,
        ),
{
    r.remove(start..end)
}

/// Relies on `ropey::Rope::char`.
#[verifier::external_body]
pub fn rope_char_at(r: &ropey::Rope, char_idx: usize) -> (c: char)
    requires
        char_idx < rope_chars(r).len(),
    ensures
        c == rope_chars(r)[char_idx as int],
{
    r.char(char_idx)
}

/// Relies on `ropey::Rope::slice` over a character range and on
/// `RopeSlice`'s `Display`.
#[verifier::external_body]
pub fn rope_slice_string(r: &ropey::Rope, start: usize, end: usize) -> (s: String)
    requires
        start <= end <= rope_chars(r).len(),
    ensures
        s@ == rope_chars(r).subrange(start as int, end as int),
{
    r.slice(start..end).to_string()
}

/// Relies on `ropey::Rope::byte_to_char`: the index of the character the
/// byte belongs to, one-past-the-end mapping to one-past-the-end.
#[verifier::external_body]
pub fn rope_byte_to_char(r: &ropey::Rope, byte_idx: usize) -> (c: usize)
    requires
        byte_idx as int <= ulen(rope_chars(r)),
    ensures
        c == char_floor(rope_chars(r), byte_idx as int),
{
    r.byte_to_char(byte_idx)
}

/// Relies on `ropey::Rope::char_to_byte`: the byte offset of the character.
#[verifier::external_body]
pub fn rope_char_to_byte(r: &ropey::Rope, char_idx: usize) -> (b: usize)
    requires
        char_idx <= rope_chars(r).len(),
    ensures
        b == ulen(rope_chars(r).take(char_idx as int)),
{
    r.char_to_byte(char_idx)
}

/// Relies on `ropey::Rope::byte_to_line`: the index of the line holding the
/// byte, which is the number of line endings before it.
#[verifier::external_body]
pub fn rope_byte_to_line(r: &ropey::Rope, byte_idx: usize) -> (l: usize)
    requires
        byte_idx as int <= ulen(rope_chars(r)),
    ensures
        l as int == floor_idx(line_starts(encode_utf8(rope_chars(r))), byte_idx as int),
{
    r.byte_to_line(byte_idx)
}

/// Relies on `ropey::Rope::line_to_byte`: the byte offset of the line's
/// first byte, one-past-the-end mapping to the total byte length.
#[verifier::external_body]
pub fn rope_line_to_byte(r: &ropey::Rope, line_idx: usize) -> (b: usize)
    requires
        line_idx as int <= line_starts(encode_utf8(rope_chars(r))).len(),
    ensures
        b as int == ({
            let starts = line_starts(encode_utf8(rope_chars(r)));
            if (line_idx as int) < starts.len() {
                starts[line_idx as int]
            } else {
                ulen(rope_chars(r))
            }
        }),
{
    r.line_to_byte(line_idx)
}

/// Relies on `ropey::Rope::chunk_at_char`: the chunk holding the character,
/// with the chunk's first character index; chunks of a non-empty rope are
/// non-empty, and a one-past-the-end index returns the last chunk.
#[verifier::external_body]
pub fn rope_chunk_at_char(r: &ropey::Rope, char_idx: usize) -> (res: (String, usize))
    requires
        char_idx <= rope_chars(r).len(),
    ensures
        res.1 <= char_idx,
        res.1 + res.0@.len() <= rope_chars(r).len(),
        res.0@ == rope_chars(r).subrange(res.1 as int, res.1 + res.0@.len()),
        char_idx < rope_chars(r).len() ==> char_idx < res.1 + res.0@.len(),
        char_idx == rope_chars(r).len() ==> res.1 + res.0@.len() == rope_chars(r).len(),
{
    let (chunk, _b, c0, _l) = r.chunk_at_char(char_idx);
    (chunk.to_string(), c0)
}

/// What `char::is_alphanumeric` returns: a function of the character alone.
pub uninterp spec fn is_alnum_char(c: char) -> bool;

/// Relies on `char::is_alphanumeric`.
#[verifier::external_body]
pub fn char_is_alphanumeric(c: char) -> (r: bool)
    ensures
        r == is_alnum_char(c),
{
    c.is_alphanumeric()
}

/// What `char::is_whitespace` returns: a function of the character alone.
pub uninterp spec fn is_space_char(c: char) -> bool;

/// Relies on `char::is_whitespace`.
#[verifier::external_body]
pub fn char_is_whitespace(c: char) -> (r: bool)
    ensures
        r == is_space_char(c),
{
    c.is_whitespace()
}

} // verus!
