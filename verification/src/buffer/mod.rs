//! Storage core: representation-transparent access to file content.
//!
//! A buffer holds its content in one of two representations. Small files
//! live in a rope (`ropey::Rope`), an edit-efficient character structure.
//! Large files stay in an immutable byte source (a memory map, or owned
//! bytes) indexed by a line-offset table, read through a bounded LRU line
//! cache, and patched by a sparse per-line edit overlay that always takes
//! precedence. The mode transition is one-directional: the first mutation
//! that the overlay cannot absorb escalates a mapped buffer to a rope.
//!
//! The save engine's synchronous half also lives here: the content image a
//! save writes, the merge of raw edit records, and the progress/flag state
//! machine the interactive thread polls. The background I/O itself (writing
//! the temporary file and the atomic rename) happens outside; its outcome
//! comes back as one event.

pub mod cursor;

use std::collections::HashMap;

use vstd::prelude::*;

use crate::outside::{
    char_utf8_len, lossy_chars, lossy_to_string, mapped_bytes, mmap_byte, mmap_len,
    mmap_slice_vec, rope_byte_to_char, rope_byte_to_line, rope_char_at, rope_chars, rope_chunk_at_char,
    rope_clone, rope_from_str, rope_insert, rope_len_bytes, rope_len_chars, rope_len_lines,
    rope_line_string, rope_line_to_byte, rope_remove, rope_slice_string,
};
use crate::text::{
    char_floor, floor_idx, lemma_char_floor_bounds, lemma_char_floor_mono, lemma_encode_concat,
    lemma_floor_idx_unique, lemma_line_starts, lemma_seg_bounds, line_count_of, line_starts,
    seg_bytes, seg_end, seg_start, ulen, NEWLINE,
};
use vstd::multiset::Multiset;
use vstd::utf8::{decode_utf8, encode_utf8};

verus! {

broadcast use {vstd::std_specs::hash::group_hash_axioms, vstd::utf8::encode_utf8_decode_utf8};

/// Files below this size load into a rope; larger ones stay mapped.
pub const ROPE_THRESHOLD: usize = 10 * 1024 * 1024;

/// Most lines the LRU cache may hold.
pub const MAX_CACHE_LINES: usize = 1000;

/// Most overlay entries a mapped buffer absorbs before a mutation escalates
/// it to rope mode; a policy constant, not a correctness requirement.
pub const OVERLAY_LIMIT: usize = 100;

/// Read-only base bytes of a mapped buffer: an OS-level file view, or owned
/// bytes (useful where no file is involved).
pub enum ByteSource {
    Mapped(memmap2::Mmap),
    Owned(Vec<u8>),
}

impl ByteSource {
    pub open spec fn bytes(&self) -> Seq<u8> {
        match self {
            ByteSource::Mapped(m) => mapped_bytes(m),
            ByteSource::Owned(v) => v@,
        }
    }

    pub fn len(&self) -> (r: usize)
        ensures
            r == self.bytes().len(),
    {
        match self {
            ByteSource::Mapped(m) => mmap_len(m),
            ByteSource::Owned(v) => v.len(),
        }
    }

    pub fn byte_at(&self, i: usize) -> (r: u8)
        requires
            i < self.bytes().len(),
        ensures
            r == self.bytes()[i as int],
    {
        match self {
            ByteSource::Mapped(m) => mmap_byte(m, i),
            ByteSource::Owned(v) => v[i],
        }
    }

    pub fn slice_vec(&self, start: usize, end: usize) -> (r: Vec<u8>)
        requires
            start <= end <= self.bytes().len(),
        ensures
            r@ == self.bytes().subrange(start as int, end as int),
    {
        match self {
            ByteSource::Mapped(m) => mmap_slice_vec(m, start, end),
            ByteSource::Owned(v) => {
                let mut out: Vec<u8> = Vec::new();
                let mut i = start;
                while i < end
                    invariant
                        start <= i <= end <= v@.len(),
                        out@ == v@.subrange(start as int, i as int),
                    decreases end - i,
                {
                    out.push(v[i]);
                    proof {
                        assert(v@.subrange(start as int, i + 1) =~= v@.subrange(
                            start as int,
                            i as int,
                        ).push(v@[i as int]));
                    }
                    i = i + 1;
                }
                out
            },
        }
    }

    /// The decoded text of a byte range, with lossy UTF-8 decoding.
    pub fn slice_string(&self, start: usize, end: usize) -> (r: String)
        requires
            start <= end <= self.bytes().len(),
        ensures
            r@ == lossy_chars(self.bytes().subrange(start as int, end as int)),
    {
        let v = self.slice_vec(start, end);
        lossy_to_string(v.as_slice())
    }
}

/// Progress and flags of the save engine, polled by the interactive thread
/// and mirrored into atomics by whoever runs the background write.
pub struct SaveState {
    /// Percent complete, 0 to 100.
    pub progress: u32,
    /// A background write is running.
    pub in_progress: bool,
    /// A finished save still awaits reconciliation by `finalize_save`.
    pub pending: bool,
}

/// Errors of the storage core's own operations.
#[derive(Debug, Clone, Copy, PartialEq, Eq, Structural)]
pub enum BufError {
    /// No file path is known yet.
    NoPath,
    /// The buffer holds nothing a save could write.
    NoContent,
}

/// The line offset table matches the line starts of the base bytes.
pub open spec fn offsets_match(offsets: Seq<usize>, bytes: Seq<u8>) -> bool {
    &&& offsets.len() == line_starts(bytes).len()
    &&& forall|k: int|
        0 <= k < offsets.len() ==> #[trigger] offsets[k] as int == line_starts(bytes)[k]
}

pub struct Buffer {
    source: Option<ByteSource>,
    file_size: usize,
    line_offsets: Vec<usize>,
    line_cache: HashMap<usize, String>,
    cache_order: Vec<usize>,
    max_cache_lines: usize,
    edits: HashMap<usize, String>,
    rope: Option<ropey::Rope>,
    use_rope: bool,
    save_state: SaveState,
    path: Option<String>,
    modified: bool,
}

impl Buffer {
    // ----- the mathematical model -----
    /// Whether the buffer is in rope mode.
    pub closed spec fn is_rope_mode(&self) -> bool {
        self.use_rope
    }

    /// Base bytes of a mapped buffer.
    pub closed spec fn src_bytes(&self) -> Seq<u8> {
        match self.source {
            Some(s) => s.bytes(),
            None => Seq::empty(),
        }
    }

    /// Text of a rope-mode buffer.
    pub closed spec fn rope_text(&self) -> Seq<char> {
        rope_chars(&self.rope->Some_0)
    }

    /// The sparse per-line edit overlay.
    pub closed spec fn overlay(&self) -> Map<usize, String> {
        self.edits@
    }

    /// The LRU cache contents.
    pub closed spec fn cache_map(&self) -> Map<usize, String> {
        self.line_cache@
    }

    /// Number of cached lines.
    pub closed spec fn cache_len(&self) -> int {
        self.cache_order@.len() as int
    }

    /// Configured bound of the LRU cache.
    pub closed spec fn cache_capacity(&self) -> int {
        self.max_cache_lines as int
    }

    pub closed spec fn spec_modified(&self) -> bool {
        self.modified
    }

    pub closed spec fn spec_path(&self) -> Option<Seq<char>> {
        match self.path {
            Some(p) => Some(p@),
            None => None,
        }
    }

    pub closed spec fn spec_save(&self) -> SaveState {
        SaveState {
            progress: self.save_state.progress,
            in_progress: self.save_state.in_progress,
            pending: self.save_state.pending,
        }
    }

    /// UTF-8 encoding of the rope text; line structure in rope mode is
    /// defined over these bytes, exactly as in mapped mode.
    pub open spec fn rope_enc(&self) -> Seq<u8> {
        encode_utf8(self.rope_text())
    }

    /// Number of lines of the active representation. A rope counts the
    /// trailing segment after the last newline even when empty; the mapped
    /// table does not.
    pub open spec fn spec_line_count(&self) -> int {
        if self.is_rope_mode() {
            line_starts(self.rope_enc()).len() as int
        } else {
            line_count_of(self.src_bytes())
        }
    }

    /// Text of line `i`, terminating newline included: in mapped mode the
    /// overlay entry if one exists, else the decoded base segment; in rope
    /// mode the rope's line. Out of range lines are empty, never an error.
    pub closed spec fn spec_get_line(&self, i: int) -> Seq<char> {
        if self.is_rope_mode() {
            if 0 <= i < line_starts(self.rope_enc()).len() {
                decode_utf8(
                    self.rope_enc().subrange(
                        seg_start(self.rope_enc(), i),
                        seg_end(self.rope_enc(), i),
                    ),
                )
            } else {
                Seq::empty()
            }
        } else {
            if self.overlay().contains_key(i as usize) && 0 <= i {
                self.overlay()[i as usize]@
            } else if 0 <= i < line_starts(self.src_bytes()).len() {
                lossy_chars(seg_bytes(self.src_bytes(), i))
            } else {
                Seq::empty()
            }
        }
    }

    /// Concatenation of up to `count` lines from `start`, stopping at the
    /// end of the content: what a viewport of that many rows renders.
    pub open spec fn rendered(&self, start: int, count: int) -> Seq<char>
        decreases count,
    {
        if count <= 0 || start >= self.spec_line_count() || start < 0 {
            Seq::empty()
        } else {
            self.spec_get_line(start) + self.rendered(start + 1, count - 1)
        }
    }

    /// Line index of the byte at `offset`, clamped to the last line start.
    pub open spec fn spec_byte_to_line(&self, offset: int) -> int {
        if self.is_rope_mode() {
            floor_idx(
                line_starts(self.rope_enc()),
                if offset <= ulen(self.rope_text()) {
                    offset
                } else {
                    ulen(self.rope_text())
                },
            )
        } else {
            floor_idx(line_starts(self.src_bytes()), offset)
        }
    }

    /// Byte offset of the first byte of `line`, clamping past-the-end lines
    /// to the end of the content.
    pub open spec fn spec_line_to_byte(&self, line: int) -> int {
        if self.is_rope_mode() {
            if 0 <= line < line_starts(self.rope_enc()).len() {
                seg_start(self.rope_enc(), line)
            } else {
                ulen(self.rope_text())
            }
        } else {
            if 0 <= line < line_starts(self.src_bytes()).len() {
                seg_start(self.src_bytes(), line)
            } else {
                self.src_bytes().len() as int
            }
        }
    }

    /// Well-formedness: every constructor establishes it and every method
    /// preserves it.
    ///
    /// In rope mode the rope is present. In mapped mode the recorded size
    /// and the offset table match the base bytes, and the cache is sound: a
    /// bounded set of lines, each holding exactly the decoded base segment
    /// it caches.
    pub closed spec fn wf(&self) -> bool {
        &&& self.save_state.progress <= 100
        &&& self.max_cache_lines == MAX_CACHE_LINES
        &&& if self.use_rope {
            &&& self.rope is Some
            &&& self.cache_order@.len() == 0
        } else {
            &&& self.file_size == self.src_bytes().len()
            &&& offsets_match(self.line_offsets@, self.src_bytes())
            &&& self.cache_order@.no_duplicates()
            &&& self.cache_order@.len() <= self.max_cache_lines
            &&& forall|k: usize|
                self.line_cache@.contains_key(k) <==> self.cache_order@.contains(k)
            &&& forall|k: usize|
                #[trigger] self.line_cache@.contains_key(k) ==> (k as int) < line_starts(
                    self.src_bytes(),
                ).len() && self.line_cache@[k]@ == lossy_chars(seg_bytes(self.src_bytes(), k as int))
        }
    }

    // ----- construction and loading -----
    /// An empty buffer: no content, no path, nothing modified.
    pub fn new() -> (b: Buffer)
        ensures
            b.wf(),
            !b.is_rope_mode(),
            b.src_bytes() =~= Seq::<u8>::empty(),
            b.overlay() =~= Map::<usize, String>::empty(),
            !b.spec_modified(),
            b.spec_path() is None,
            !b.spec_save().in_progress,
            !b.spec_save().pending,
            b.spec_save().progress == 0,
    {
        let mut offsets: Vec<usize> = Vec::new();
        offsets.push(0);
        proof {
            assert(line_starts(Seq::<u8>::empty()) =~= seq![0int]);
        }
        Buffer {
            source: None,
            file_size: 0,
            line_offsets: offsets,
            line_cache: HashMap::new(),
            cache_order: Vec::new(),
            max_cache_lines: MAX_CACHE_LINES,
            edits: HashMap::new(),
            rope: None,
            use_rope: false,
            save_state: SaveState { progress: 0, in_progress: false, pending: false },
            path: None,
            modified: false,
        }
    }

    /// Build the line offset table by one linear scan for newline bytes.
    fn build_line_index(src: &ByteSource) -> (offsets: Vec<usize>)
        ensures
            offsets_match(offsets@, src.bytes()),
    {
        let ghost bytes = src.bytes();
        let mut offsets: Vec<usize> = Vec::new();
        offsets.push(0);
        let n = src.len();
        let mut i: usize = 0;
        proof {
            assert(bytes.take(0) =~= Seq::<u8>::empty());
            assert(line_starts(bytes.take(0)) =~= seq![0int]);
        }
        while i < n
            invariant
                i <= n == bytes.len(),
                src.bytes() == bytes,
                offsets_match(offsets@, bytes.take(i as int)),
            decreases n - i,
        {
            let b = src.byte_at(i);
            proof {
                assert(bytes.take(i + 1).drop_last() =~= bytes.take(i as int));
                assert(bytes.take(i + 1).last() == bytes[i as int]);
            }
            if b == 10 {
                offsets.push(i + 1);
            }
            i = i + 1;
        }
        proof {
            assert(bytes.take(n as int) =~= bytes);
        }
        offsets
    }

    /// Load content, choosing the representation by size: below
    /// `ROPE_THRESHOLD` the bytes are decoded into a rope, otherwise the
    /// buffer keeps the byte source and indexes its lines. Any previous
    /// content, overlay, cache and save state is discarded.
    pub fn load_source(&mut self, src: ByteSource, path: Option<String>)
        ensures
            final(self).wf(),
            final(self).is_rope_mode() == (src.bytes().len() < ROPE_THRESHOLD),
            final(self).is_rope_mode() ==> final(self).rope_text() == lossy_chars(src.bytes()),
            !final(self).is_rope_mode() ==> final(self).src_bytes() == src.bytes(),
            final(self).overlay() =~= Map::<usize, String>::empty(),
            final(self).cache_len() == 0,
            !final(self).spec_modified(),
            final(self).spec_path() == match path {
                Some(p) => Some(p@),
                None => Option::<Seq<char>>::None,
            },
            !final(self).spec_save().in_progress,
            !final(self).spec_save().pending,
            final(self).spec_save().progress == 0,
    {
        let size = src.len();
        if size < ROPE_THRESHOLD {
            let text = src.slice_string(0, size);
            proof {
                assert(src.bytes().subrange(0, src.bytes().len() as int) =~= src.bytes());
            }
            let rope = rope_from_str(text.as_str());
            *self = Buffer {
                source: Some(src),
                file_size: size,
                line_offsets: Vec::new(),
                line_cache: HashMap::new(),
                cache_order: Vec::new(),
                max_cache_lines: MAX_CACHE_LINES,
                edits: HashMap::new(),
                rope: Some(rope),
                use_rope: true,
                save_state: SaveState { progress: 0, in_progress: false, pending: false },
                path,
                modified: false,
            };
        } else {
            let offsets = Buffer::build_line_index(&src);
            *self = Buffer {
                source: Some(src),
                file_size: size,
                line_offsets: offsets,
                line_cache: HashMap::new(),
                cache_order: Vec::new(),
                max_cache_lines: MAX_CACHE_LINES,
                edits: HashMap::new(),
                rope: None,
                use_rope: false,
                save_state: SaveState { progress: 0, in_progress: false, pending: false },
                path,
                modified: false,
            };
        }
    }

    // ----- size and mode queries -----
    pub fn is_empty(&self) -> (r: bool)
        requires
            self.wf(),
        ensures
            r == if self.is_rope_mode() {
                self.rope_text().len() == 0
            } else {
                self.src_bytes().len() == 0
            },
    {
        if self.use_rope {
            match &self.rope {
                Some(r) => rope_len_chars(r) == 0,
                None => true,
            }
        } else {
            self.file_size == 0
        }
    }

    /// Number of lines of the active representation.
    pub fn line_count(&self) -> (r: usize)
        requires
            self.wf(),
        ensures
            r == self.spec_line_count(),
    {
        if self.use_rope {
            match &self.rope {
                Some(r) => rope_len_lines(r),
                None => 0,
            }
        } else {
            proof {
                lemma_line_starts(self.src_bytes());
            }
            if self.file_size == 0 {
                0
            } else {
                let last = match &self.source {
                    Some(s) => s.byte_at(self.file_size - 1),
                    None => 0,
                };
                if last == 10 {
                    self.line_offsets.len() - 1
                } else {
                    self.line_offsets.len()
                }
            }
        }
    }

    /// Logical size in bytes.
    pub fn len_bytes(&self) -> (r: usize)
        requires
            self.wf(),
        ensures
            r == if self.is_rope_mode() {
                ulen(self.rope_text())
            } else {
                self.src_bytes().len() as int
            },
    {
        if self.use_rope {
            match &self.rope {
                Some(r) => rope_len_bytes(r),
                None => 0,
            }
        } else {
            self.file_size
        }
    }

    /// Logical size in characters; in mapped mode the byte size stands in
    /// as an estimate.
    pub fn len_chars(&self) -> (r: usize)
        requires
            self.wf(),
        ensures
            r == if self.is_rope_mode() {
                self.rope_text().len() as int
            } else {
                self.src_bytes().len() as int
            },
    {
        if self.use_rope {
            match &self.rope {
                Some(r) => rope_len_chars(r),
                None => 0,
            }
        } else {
            self.file_size
        }
    }

    /// Same as `len_bytes`: the size the renderer reports.
    pub fn get_file_size(&self) -> (r: usize)
        requires
            self.wf(),
        ensures
            r == if self.is_rope_mode() {
                ulen(self.rope_text())
            } else {
                self.src_bytes().len() as int
            },
    {
        self.len_bytes()
    }

    pub fn path(&self) -> (r: Option<&String>)
        ensures
            match r {
                Some(p) => self.spec_path() == Some(p@),
                None => self.spec_path() is None,
            },
    {
        self.path.as_ref()
    }

    pub fn is_modified(&self) -> (r: bool)
        ensures
            r == self.spec_modified(),
    {
        self.modified
    }

    // ----- line and byte addressing -----
    /// Line index containing byte `offset`; offsets beyond the content
    /// clamp to the last line start. Total: never an error.
    pub fn byte_offset_to_line(&self, offset: usize) -> (r: usize)
        requires
            self.wf(),
        ensures
            r == self.spec_byte_to_line(offset as int),
    {
        if self.use_rope {
            let rope = match &self.rope {
                Some(r) => r,
                None => {
                    proof {
                        assert(false);
                    }
                    return 0;
                },
            };
            let nb = rope_len_bytes(rope);
            let clamped = if offset < nb {
                offset
            } else {
                nb
            };
            rope_byte_to_line(rope, clamped)
        } else {
            let ghost starts = line_starts(self.src_bytes());
            proof {
                lemma_line_starts(self.src_bytes());
            }
            let n = self.line_offsets.len();
            if self.line_offsets[0] > offset {
                proof {
                    assert(false);
                }
                return 0;
            }
            let mut lo: usize = 0;
            let mut hi: usize = n - 1;
            while lo < hi
                invariant
                    lo <= hi < self.line_offsets@.len(),
                    offsets_match(self.line_offsets@, self.src_bytes()),
                    starts == line_starts(self.src_bytes()),
                    self.line_offsets@[lo as int] <= offset,
                    hi as int == starts.len() - 1 || self.line_offsets@[hi + 1] > offset,
                decreases hi - lo,
            {
                let mid = hi - (hi - lo) / 2;
                if self.line_offsets[mid] <= offset {
                    lo = mid;
                } else {
                    hi = mid - 1;
                }
            }
            proof {
                lemma_floor_idx_unique(starts, offset as int, lo as int);
            }
            lo
        }
    }

    /// Byte offset of line `line`'s first byte; lines beyond the content
    /// clamp to its end. Total: never an error.
    pub fn line_to_byte_offset(&self, line: usize) -> (r: usize)
        requires
            self.wf(),
        ensures
            r == self.spec_line_to_byte(line as int),
    {
        if self.use_rope {
            let rope = match &self.rope {
                Some(r) => r,
                None => {
                    proof {
                        assert(false);
                    }
                    return 0;
                },
            };
            let nl = rope_len_lines(rope);
            if line >= nl {
                rope_len_bytes(rope)
            } else {
                rope_line_to_byte(rope, line)
            }
        } else {
            if line < self.line_offsets.len() {
                self.line_offsets[line]
            } else {
                self.file_size
            }
        }
    }

    // ----- line reads -----
    /// Read line `i` without touching the cache: overlay entry first, else
    /// cache entry, else the decoded base segment; the rope's line in rope
    /// mode; empty out of range.
    pub fn get_line(&self, line_idx: usize) -> (r: String)
        requires
            self.wf(),
        ensures
            r@ == self.spec_get_line(line_idx as int),
    {
        if self.use_rope {
            let rope = match &self.rope {
                Some(r) => r,
                None => {
                    proof {
                        assert(false);
                    }
                    return String::new();
                },
            };
            if line_idx >= rope_len_lines(rope) {
                return String::new();
            }
            let s = rope_line_string(rope, line_idx);
            proof {
                assert(decode_utf8(encode_utf8(s@)) == s@);
            }
            return s;
        }
        match self.edits.get(&line_idx) {
            Some(edited) => {
                return edited.clone();
            },
            None => {},
        }
        match self.line_cache.get(&line_idx) {
            Some(cached) => {
                return cached.clone();
            },
            None => {},
        }
        if line_idx < self.line_offsets.len() {
            let start = self.line_offsets[line_idx];
            let end = if line_idx + 1 < self.line_offsets.len() {
                self.line_offsets[line_idx + 1]
            } else {
                self.file_size
            };
            proof {
                lemma_seg_bounds(self.src_bytes(), line_idx as int);
            }
            match &self.source {
                Some(src) => src.slice_string(start, end),
                None => {
                    // an unloaded buffer has one empty line
                    let empty: Vec<u8> = Vec::new();
                    let r = lossy_to_string(empty.as_slice());
                    proof {
                        assert(empty@ =~= seg_bytes(self.src_bytes(), line_idx as int));
                    }
                    r
                },
            }
        } else {
            String::new()
        }
    }

    /// Concatenate up to `count` lines from `start_line`, stopping at the
    /// end of the content: the viewport's text and the tokenizer's input
    /// window.
    pub fn get_visible_lines(&self, start_line: usize, count: usize) -> (r: String)
        requires
            self.wf(),
        ensures
            r@ == self.rendered(start_line as int, count as int),
    {
        let mut result = String::new();
        let max_line = self.line_count();
        let remaining = if start_line < max_line {
            max_line - start_line
        } else {
            0
        };
        let todo = if count < remaining {
            count
        } else {
            remaining
        };
        let mut i: usize = 0;
        while i < todo
            invariant
                self.wf(),
                i <= todo <= count,
                max_line == self.spec_line_count(),
                todo > 0 ==> start_line + todo <= max_line,
                todo < count ==> start_line + todo >= max_line,
                result@ + self.rendered(start_line + i, count - i) == self.rendered(
                    start_line as int,
                    count as int,
                ),
            decreases todo - i,
        {
            let line = self.get_line(start_line + i);
            proof {
                assert((result@ + line@) + self.rendered(start_line + i + 1, count - i - 1)
                    =~= result@ + self.rendered(start_line + i, count - i));
            }
            result.append(line.as_str());
            i = i + 1;
        }
        proof {
            assert(self.rendered(start_line + i, count - i) =~= Seq::<char>::empty());
            assert(result@ + Seq::<char>::empty() =~= result@);
        }
        result
    }

    // ----- byte-range reads -----
    /// Text of the byte range, clamped to the content; in rope mode the
    /// range is floored to character boundaries. Total: never an error.
    pub fn slice(&self, range: core::ops::Range<usize>) -> (r: String)
        requires
            self.wf(),
        ensures
            r@ == self.spec_slice(range.start as int, range.end as int),
    {
        if self.use_rope {
            let rope = match &self.rope {
                Some(r) => r,
                None => {
                    proof {
                        assert(false);
                    }
                    return String::new();
                },
            };
            let nb = rope_len_bytes(rope);
            let start = if range.start < nb {
                range.start
            } else {
                nb
            };
            let end = if range.end < nb {
                range.end
            } else {
                nb
            };
            if start >= end {
                return String::new();
            }
            let c1 = rope_byte_to_char(rope, start);
            let c2 = rope_byte_to_char(rope, end);
            proof {
                lemma_char_floor_mono(self.rope_text(), start as int, end as int);
                lemma_char_floor_bounds(self.rope_text(), end as int);
            }
            rope_slice_string(rope, c1, c2)
        } else {
            match &self.source {
                Some(src) => {
                    let n = self.file_size;
                    let start = if range.start < n {
                        range.start
                    } else {
                        n
                    };
                    let end = if range.end < n {
                        range.end
                    } else {
                        n
                    };
                    if start >= end {
                        return String::new();
                    }
                    src.slice_string(start, end)
                },
                None => {
                    proof {
                        assert(self.src_bytes().len() == 0);
                    }
                    String::new()
                },
            }
        }
    }

    /// What `slice` returns: the clamped byte range's text.
    pub open spec fn spec_slice(&self, start: int, end: int) -> Seq<char> {
        if self.is_rope_mode() {
            let nb = ulen(self.rope_text());
            let s = if start < nb {
                start
            } else {
                nb
            };
            let e = if end < nb {
                end
            } else {
                nb
            };
            if s >= e {
                Seq::empty()
            } else {
                self.rope_text().subrange(
                    char_floor(self.rope_text(), s),
                    char_floor(self.rope_text(), e),
                )
            }
        } else {
            let n = self.src_bytes().len() as int;
            let s = if start < n {
                start
            } else {
                n
            };
            let e = if end < n {
                end
            } else {
                n
            };
            if s >= e {
                Seq::empty()
            } else {
                lossy_chars(self.src_bytes().subrange(s, e))
            }
        }
    }

    /// Character at a byte offset: the character containing the byte in
    /// rope mode, the raw byte in mapped mode; `None` out of range.
    pub fn char_at(&self, byte_offset: usize) -> (r: Option<char>)
        requires
            self.wf(),
        ensures
            r == self.spec_char_at(byte_offset as int),
    {
        if self.use_rope {
            let rope = match &self.rope {
                Some(r) => r,
                None => {
                    proof {
                        assert(false);
                    }
                    return None;
                },
            };
            if byte_offset >= rope_len_bytes(rope) {
                return None;
            }
            let ci = rope_byte_to_char(rope, byte_offset);
            proof {
                lemma_char_floor_in_range(self.rope_text(), byte_offset as int);
            }
            Some(rope_char_at(rope, ci))
        } else {
            if byte_offset < self.file_size {
                match &self.source {
                    Some(src) => Some(src.byte_at(byte_offset) as char),
                    None => {
                        proof {
                            assert(false);
                        }
                        None
                    },
                }
            } else {
                None
            }
        }
    }

    pub open spec fn spec_char_at(&self, byte_offset: int) -> Option<char> {
        if self.is_rope_mode() {
            if byte_offset < ulen(self.rope_text()) && byte_offset >= 0 {
                Some(self.rope_text()[char_floor(self.rope_text(), byte_offset)])
            } else {
                None
            }
        } else {
            if 0 <= byte_offset < self.src_bytes().len() {
                Some(self.src_bytes()[byte_offset] as char)
            } else {
                None
            }
        }
    }
}

/// A byte offset strictly inside the encoding floors to a character index
/// strictly inside the text.
pub proof fn lemma_char_floor_in_range(s: Seq<char>, b: int)
    requires
        0 <= b < ulen(s),
    ensures
        0 <= char_floor(s, b) < s.len(),
    decreases s.len(),
{
    if s.len() == 0 {
        assert(encode_utf8(s) =~= Seq::<u8>::empty());
    } else {
        let w = encode_scalar_len_pos(s[0]);
        if b >= w {
            assert(s.drop_first() =~= s.skip(1));
            assert(s =~= seq![s[0]] + s.drop_first());
            lemma_encode_concat(seq![s[0]], s.drop_first());
            crate::text::lemma_encode_singleton(s[0]);
            lemma_char_floor_in_range(s.drop_first(), b - w);
        }
    }
}

/// The encoding of one character is non-empty; returns its width.
proof fn encode_scalar_len_pos(c: char) -> (w: int)
    ensures
        w == vstd::utf8::encode_scalar(c as u32).len(),
        w >= 1,
{
    broadcast use vstd::utf8::char_is_scalar;

    vstd::utf8::encode_scalar(c as u32).len() as int
}

/// Splice `text` into `t` at byte offset `offset`, clamped to the content
/// and floored to a character boundary.
pub open spec fn spliced_text(t: Seq<char>, offset: int, text: Seq<char>) -> Seq<char> {
    let b = if offset < ulen(t) {
        offset
    } else {
        ulen(t)
    };
    let c = char_floor(t, b);
    t.take(c) + text + t.skip(c)
}

/// Remove the byte range `start..end` from `t`, clamped and floored to
/// character boundaries.
pub open spec fn deleted_text(t: Seq<char>, start: int, end: int) -> Seq<char> {
    let s = if start < ulen(t) {
        start
    } else {
        ulen(t)
    };
    let e = if end < ulen(t) {
        end
    } else {
        ulen(t)
    };
    t.take(char_floor(t, s)) + t.skip(char_floor(t, e))
}

impl Buffer {
    /// Fields the mutation operations never touch.
    pub open spec fn frame_post(pre: &Buffer, post: &Buffer) -> bool {
        &&& post.spec_path() == pre.spec_path()
        &&& post.spec_save() == pre.spec_save()
        &&& post.cache_capacity() == pre.cache_capacity()
    }

    /// What `insert` does. In rope mode the text splices into the rope at
    /// the offset. In mapped mode, a full overlay (at or past
    /// `OVERLAY_LIMIT` entries) first escalates the buffer to a rope built
    /// from the rendered content; otherwise the line containing the offset
    /// is patched in memory and written back as a whole-line overlay entry,
    /// and an offset past the line's text leaves the content unchanged.
    pub open spec fn insert_post(pre: &Buffer, post: &Buffer, offset: int, text: Seq<char>) -> bool {
        &&& post.wf()
        &&& post.spec_modified()
        &&& Buffer::frame_post(pre, post)
        &&& if pre.is_rope_mode() {
            &&& post.is_rope_mode()
            &&& post.rope_text() == spliced_text(pre.rope_text(), offset, text)
        } else if pre.overlay().len() >= OVERLAY_LIMIT {
            &&& post.is_rope_mode()
            &&& post.rope_text() == spliced_text(
                pre.rendered(0, pre.spec_line_count()),
                offset,
                text,
            )
        } else {
            let line = pre.spec_byte_to_line(offset);
            let ls = pre.spec_line_to_byte(line);
            let pos = if offset >= ls {
                offset - ls
            } else {
                0
            };
            let s = pre.spec_get_line(line);
            &&& !post.is_rope_mode()
            &&& post.src_bytes() == pre.src_bytes()
            &&& post.cache_map() == pre.cache_map()
            &&& if line < pre.spec_line_count() && pos <= ulen(s) {
                let c = char_floor(s, pos);
                &&& post.overlay().dom() =~= pre.overlay().dom().insert(line as usize)
                &&& post.overlay()[line as usize]@ == s.take(c) + text + s.skip(c)
                &&& forall|k: usize|
                    pre.overlay().contains_key(k) && k != line ==> post.overlay()[k]
                        == #[trigger] pre.overlay()[k]
            } else {
                post.overlay() == pre.overlay()
            }
        }
    }

    /// What `delete` does. An empty range changes nothing. In rope mode the
    /// byte range leaves the rope. In mapped mode, a full overlay or a
    /// multi-line range first escalates to a rope built from the rendered
    /// content; a range within one line is spliced out of that line and
    /// written back as a whole-line overlay entry, and a range past the
    /// line's text leaves the content unchanged.
    pub open spec fn delete_post(pre: &Buffer, post: &Buffer, start: int, end: int) -> bool {
        &&& post.wf()
        &&& post.spec_modified()
        &&& Buffer::frame_post(pre, post)
        &&& if pre.is_rope_mode() {
            &&& post.is_rope_mode()
            &&& post.rope_text() == deleted_text(pre.rope_text(), start, end)
        } else if pre.overlay().len() >= OVERLAY_LIMIT || pre.spec_byte_to_line(start)
            != pre.spec_byte_to_line(end) {
            &&& post.is_rope_mode()
            &&& post.rope_text() == deleted_text(
                pre.rendered(0, pre.spec_line_count()),
                start,
                end,
            )
        } else {
            let line = pre.spec_byte_to_line(start);
            let ls = pre.spec_line_to_byte(line);
            let pos_start = if start >= ls {
                start - ls
            } else {
                0
            };
            let pos_end = if end >= ls {
                end - ls
            } else {
                0
            };
            let s = pre.spec_get_line(line);
            &&& !post.is_rope_mode()
            &&& post.src_bytes() == pre.src_bytes()
            &&& post.cache_map() == pre.cache_map()
            &&& if pos_start < ulen(s) {
                let c1 = char_floor(s, pos_start);
                let c2 = char_floor(
                    s,
                    if pos_end < ulen(s) {
                        pos_end
                    } else {
                        ulen(s)
                    },
                );
                &&& post.overlay().dom() =~= pre.overlay().dom().insert(line as usize)
                &&& post.overlay()[line as usize]@ == s.take(c1) + s.skip(c2)
                &&& forall|k: usize|
                    pre.overlay().contains_key(k) && k != line ==> post.overlay()[k]
                        == #[trigger] pre.overlay()[k]
            } else {
                post.overlay() == pre.overlay()
            }
        }
    }

    /// The whole logical content, merged: every line in order, overlay
    /// precedence applied. Exactly what the viewport renders over the full
    /// range, and what a save of an edited mapped buffer writes.
    pub fn merged_content(&self) -> (r: String)
        requires
            self.wf(),
        ensures
            r@ == self.rendered(0, self.spec_line_count()),
    {
        let n = self.line_count();
        self.get_visible_lines(0, n)
    }

    /// One-directional mode escalation: the mapped content, overlay
    /// applied, moves into a rope; the overlay and cache empty out.
    fn escalate(&mut self)
        requires
            old(self).wf(),
            !old(self).is_rope_mode(),
        ensures
            final(self).wf(),
            final(self).is_rope_mode(),
            final(self).rope_text() == old(self).rendered(0, old(self).spec_line_count()),
            final(self).spec_modified() == old(self).spec_modified(),
            Buffer::frame_post(old(self), final(self)),
    {
        let merged = self.merged_content();
        let rope = rope_from_str(merged.as_str());
        self.rope = Some(rope);
        self.use_rope = true;
        self.edits = HashMap::new();
        self.line_cache = HashMap::new();
        self.cache_order = Vec::new();
    }

    /// Insert `text` at byte offset `offset`; see `insert_post`. Marks the
    /// buffer modified. Never fails: an unabsorbable mapped edit escalates
    /// to rope mode instead.
    pub fn insert(&mut self, offset: usize, text: &str) -> (r: Result<(), BufError>)
        requires
            old(self).wf(),
        ensures
            r is Ok,
            Buffer::insert_post(old(self), final(self), offset as int, text@),
    {
        if !self.use_rope && self.edits.len() >= OVERLAY_LIMIT {
            self.escalate();
        }
        if self.use_rope {
            let mut rope = match self.rope.take() {
                Some(r) => r,
                None => {
                    proof {
                        assert(false);
                    }
                    return Err(BufError::NoContent);
                },
            };
            let nb = rope_len_bytes(&rope);
            let off = if offset < nb {
                offset
            } else {
                nb
            };
            let ci = rope_byte_to_char(&rope, off);
            proof {
                lemma_char_floor_bounds(rope_chars(&rope), off as int);
            }
            rope_insert(&mut rope, ci, text);
            self.rope = Some(rope);
            self.modified = true;
            return Ok(());
        }
        let line_num = self.byte_offset_to_line(offset);
        let line_count = self.line_count();
        if line_num < line_count {
            let line_content = self.get_line(line_num);
            let line_start = self.line_to_byte_offset(line_num);
            let pos_in_line = if offset >= line_start {
                offset - line_start
            } else {
                0
            };
            if pos_in_line <= line_content.as_str().as_bytes().len() {
                let c = char_floor_exec(&line_content, pos_in_line);
                let new_content = splice_in(&line_content, c, text);
                self.edits.insert(line_num, new_content);
            }
        }
        self.modified = true;
        Ok(())
    }

    /// Delete the byte range `start..end`; see `delete_post`. An empty
    /// range is a no-op; anything else marks the buffer modified. Never
    /// fails: a multi-line mapped delete escalates to rope mode instead.
    pub fn delete(&mut self, start: usize, end: usize) -> (r: Result<(), BufError>)
        requires
            old(self).wf(),
        ensures
            r is Ok,
            start >= end ==> *final(self) == *old(self),
            start < end ==> Buffer::delete_post(old(self), final(self), start as int, end as int),
    {
        if start >= end {
            return Ok(());
        }
        if !self.use_rope {
            let start_line = self.byte_offset_to_line(start);
            let end_line = self.byte_offset_to_line(end);
            if self.edits.len() >= OVERLAY_LIMIT || start_line != end_line {
                self.escalate();
            }
        }
        if self.use_rope {
            let mut rope = match self.rope.take() {
                Some(r) => r,
                None => {
                    proof {
                        assert(false);
                    }
                    return Err(BufError::NoContent);
                },
            };
            let nb = rope_len_bytes(&rope);
            let s = if start < nb {
                start
            } else {
                nb
            };
            let e = if end < nb {
                end
            } else {
                nb
            };
            let c1 = rope_byte_to_char(&rope, s);
            let c2 = rope_byte_to_char(&rope, e);
            proof {
                lemma_char_floor_mono(rope_chars(&rope), s as int, e as int);
                lemma_char_floor_bounds(rope_chars(&rope), e as int);
            }
            rope_remove(&mut rope, c1, c2);
            self.rope = Some(rope);
            self.modified = true;
            return Ok(());
        }
        let start_line = self.byte_offset_to_line(start);
        let line_content = self.get_line(start_line);
        let line_start = self.line_to_byte_offset(start_line);
        let pos_start = if start >= line_start {
            start - line_start
        } else {
            0
        };
        let pos_end = if end >= line_start {
            end - line_start
        } else {
            0
        };
        let nb = line_content.as_str().as_bytes().len();
        if pos_start < nb {
            let actual_end = if pos_end < nb {
                pos_end
            } else {
                nb
            };
            let c1 = char_floor_exec(&line_content, pos_start);
            let c2 = char_floor_exec(&line_content, actual_end);
            proof {
                lemma_char_floor_mono(line_content@, pos_start as int, actual_end as int);
            }
            let new_content = splice_out(&line_content, c1, c2);
            self.edits.insert(start_line, new_content);
        }
        self.modified = true;
        Ok(())
    }

    /// Replace the byte range `start..end` with `new_text`: a delete
    /// followed by an insert at `start`.
    pub fn replace(&mut self, start: usize, end: usize, new_text: &str) -> (r: Result<
        (),
        BufError,
    >)
        requires
            old(self).wf(),
        ensures
            r is Ok,
            exists|mid: Buffer|
                {
                    &&& (start < end ==> Buffer::delete_post(old(self), &mid, start as int, end as int))
                    &&& (start >= end ==> mid == *old(self))
                    &&& #[trigger] Buffer::insert_post(&mid, final(self), start as int, new_text@)
                },
            final(self).wf(),
    {
        let ghost pre = *old(self);
        self.delete(start, end)?;
        let ghost mid = *self;
        self.insert(start, new_text)?;
        proof {
            assert((start < end ==> Buffer::delete_post(&pre, &mid, start as int, end as int)) && (
            start >= end ==> mid == pre) && Buffer::insert_post(
                &mid,
                self,
                start as int,
                new_text@,
            ));
        }
        Ok(())
    }

    /// Read line `line_idx` and remember it: in mapped mode a cache miss
    /// materializes the line into the LRU cache, evicting the least
    /// recently used lines beyond the bound. The visible content of every
    /// line is unchanged.
    pub fn get_line_cached(&mut self, line_idx: usize) -> (r: String)
        requires
            old(self).wf(),
        ensures
            final(self).wf(),
            r@ == old(self).spec_get_line(line_idx as int),
            forall|j: int| final(self).spec_get_line(j) == old(self).spec_get_line(j),
            final(self).is_rope_mode() == old(self).is_rope_mode(),
            final(self).src_bytes() == old(self).src_bytes(),
            final(self).overlay() == old(self).overlay(),
            final(self).spec_modified() == old(self).spec_modified(),
            final(self).spec_line_count() == old(self).spec_line_count(),
            Buffer::frame_post(old(self), final(self)),
            final(self).cache_len() <= final(self).cache_capacity(),
    {
        if self.use_rope {
            return self.get_line(line_idx);
        }
        let ghost pre = *self;
        match self.edits.get(&line_idx) {
            Some(edited) => {
                return edited.clone();
            },
            None => {},
        }
        let cached = match self.line_cache.get(&line_idx) {
            Some(c) => Some(c.clone()),
            None => None,
        };
        match cached {
            Some(c) => {
                // refresh recency: move the line to the back of the order
                match position_in(&self.cache_order, line_idx) {
                    Some(pos) => {
                        let ghost order0 = self.cache_order@;
                        self.cache_order.remove(pos);
                        proof {
                            lemma_remove_keeps(order0, pos as int);
                        }
                        self.cache_order.push(line_idx);
                        proof {
                            lemma_requeue_wf(order0, pos as int, line_idx);
                            assert(self.cache_order@ == order0.remove(pos as int).push(line_idx));
                            assert forall|k: usize|
                                self.line_cache@.contains_key(k)
                                    <==> self.cache_order@.contains(k) by {
                                assert(old(self).line_cache@.contains_key(k) <==> order0.contains(
                                    k,
                                ));
                            }
                            assert(forall|j: int|
                                self.spec_get_line(j) == pre.spec_get_line(j));
                        }
                    },
                    None => {
                        proof {
                            assert(false);
                        }
                    },
                }
                return c;
            },
            None => {},
        }
        if line_idx >= self.line_offsets.len() {
            return String::new();
        }
        let line = self.read_base_line(line_idx);
        let ghost order0 = self.cache_order@;
        self.line_cache.insert(line_idx, line.clone());
        self.cache_order.push(line_idx);
        proof {
            assert(!order0.contains(line_idx));
            lemma_enqueue_wf(order0, line_idx);
            assert(self.cache_order@ == order0.push(line_idx));
            assert forall|k: usize|
                self.line_cache@.contains_key(k) <==> self.cache_order@.contains(k) by {
                assert(old(self).line_cache@.contains_key(k) <==> order0.contains(k));
                assert(self.line_cache@.contains_key(k) <==> (old(self).line_cache@.contains_key(k)
                    || k == line_idx));
            }
        }
        while self.cache_order.len() > self.max_cache_lines
            invariant
                !self.use_rope,
                self.source == old(self).source,
                self.file_size == old(self).file_size,
                self.line_offsets == old(self).line_offsets,
                self.edits == old(self).edits,
                self.rope == old(self).rope,
                self.max_cache_lines == old(self).max_cache_lines,
                self.save_state == old(self).save_state,
                self.path == old(self).path,
                self.modified == old(self).modified,
                self.cache_order@.no_duplicates(),
                forall|k: usize|
                    self.line_cache@.contains_key(k) <==> self.cache_order@.contains(k),
                forall|k: usize|
                    #[trigger] self.line_cache@.contains_key(k) ==> (k as int) < line_starts(
                        self.src_bytes(),
                    ).len() && self.line_cache@[k]@ == lossy_chars(
                        seg_bytes(self.src_bytes(), k as int),
                    ),
            decreases self.cache_order@.len(),
        {
            let old_idx = self.cache_order[0];
            let ghost order1 = self.cache_order@;
            self.cache_order.remove(0);
            self.line_cache.remove(&old_idx);
            proof {
                lemma_remove_keeps(order1, 0);
                assert forall|k: usize|
                    self.line_cache@.contains_key(k) <==> self.cache_order@.contains(k) by {
                    if k != old_idx && order1.contains(k) {
                        assert(order1[0] == old_idx);
                        let j = choose|j: int| 0 <= j < order1.len() && order1[j] == k;
                        assert(order1.remove(0)[j - 1] == k);
                    }
                }
            }
        }
        line
    }

    /// Decode line `line_idx` straight from the base bytes.
    fn read_base_line(&self, line_idx: usize) -> (r: String)
        requires
            self.wf(),
            !self.is_rope_mode(),
            (line_idx as int) < line_starts(self.src_bytes()).len(),
        ensures
            r@ == lossy_chars(seg_bytes(self.src_bytes(), line_idx as int)),
    {
        let noff = self.line_offsets.len();
        let start = self.line_offsets[line_idx];
        let end = if noff - line_idx > 1 {
            self.line_offsets[line_idx + 1]
        } else {
            self.file_size
        };
        proof {
            lemma_seg_bounds(self.src_bytes(), line_idx as int);
        }
        match &self.source {
            Some(src) => src.slice_string(start, end),
            None => {
                let empty: Vec<u8> = Vec::new();
                let r = lossy_to_string(empty.as_slice());
                proof {
                    assert(empty@ =~= seg_bytes(self.src_bytes(), line_idx as int));
                }
                r
            },
        }
    }
}

/// Largest character index of `s` whose encoded prefix fits within `b`
/// bytes.
pub(crate) fn char_floor_exec(s: &String, b: usize) -> (c: usize)
    ensures
        c == char_floor(s@, b as int),
        c <= s@.len(),
{
    let ghost text = s@;
    let n = s.as_str().unicode_len();
    let mut i: usize = 0;
    let mut acc: usize = 0;
    proof {
        assert(text.skip(0) =~= text);
    }
    while i < n
        invariant
            i <= n == text.len(),
            s@ == text,
            acc <= b,
            char_floor(text, b as int) == i + char_floor(text.skip(i as int), b - acc),
        decreases n - i,
    {
        let ch = s.as_str().get_char(i);
        let w = char_utf8_len(ch);
        let ghost rest = text.skip(i as int);
        proof {
            assert(rest[0] == text[i as int]);
            assert(rest.drop_first() =~= text.skip(i as int + 1));
        }
        if w > b - acc {
            proof {
                assert(char_floor(rest, b - acc) == 0);
            }
            return i;
        }
        acc = acc + w;
        i = i + 1;
    }
    proof {
        assert(text.skip(i as int).len() == 0);
        assert(char_floor(text.skip(i as int), b - acc) == 0);
    }
    i
}

/// `prefix ++ text ++ suffix` around character index `c`.
fn splice_in(line: &String, c: usize, text: &str) -> (r: String)
    requires
        c <= line@.len(),
    ensures
        r@ == line@.take(c as int) + text@ + line@.skip(c as int),
{
    let n = line.as_str().unicode_len();
    let prefix = line.as_str().substring_char(0, c);
    let suffix = line.as_str().substring_char(c, n);
    let mut out = String::from_str(prefix);
    out.append(text);
    out.append(suffix);
    proof {
        assert(line@.subrange(0, c as int) =~= line@.take(c as int));
        assert(line@.subrange(c as int, line@.len() as int) =~= line@.skip(c as int));
    }
    out
}

/// The line with characters `c1..c2` removed.
fn splice_out(line: &String, c1: usize, c2: usize) -> (r: String)
    requires
        c1 <= c2 <= line@.len(),
    ensures
        r@ == line@.take(c1 as int) + line@.skip(c2 as int),
{
    let n = line.as_str().unicode_len();
    let prefix = line.as_str().substring_char(0, c1);
    let suffix = line.as_str().substring_char(c2, n);
    let mut out = String::from_str(prefix);
    out.append(suffix);
    proof {
        assert(line@.subrange(0, c1 as int) =~= line@.take(c1 as int));
        assert(line@.subrange(c2 as int, line@.len() as int) =~= line@.skip(c2 as int));
    }
    out
}

/// First position of `x` in `v`.
fn position_in(v: &Vec<usize>, x: usize) -> (r: Option<usize>)
    ensures
        match r {
            Some(i) => (i as int) < v@.len() && v@[i as int] == x,
            None => !v@.contains(x),
        },
{
    let mut i: usize = 0;
    while i < v.len()
        invariant
            i <= v@.len(),
            forall|k: int| 0 <= k < i ==> v@[k] != x,
        decreases v@.len() - i,
    {
        if v[i] == x {
            return Some(i);
        }
        i = i + 1;
    }
    None
}

fn contains_val(v: &Vec<usize>, x: usize) -> (r: bool)
    ensures
        r == v@.contains(x),
{
    match position_in(v, x) {
        Some(_) => true,
        None => false,
    }
}

proof fn lemma_remove_keeps(s: Seq<usize>, i: int)
    requires
        0 <= i < s.len(),
    ensures
        forall|x: usize| s.remove(i).contains(x) ==> s.contains(x),
        s.no_duplicates() ==> s.remove(i).no_duplicates(),
        s.no_duplicates() ==> !s.remove(i).contains(s[i]),
        forall|x: usize| s.contains(x) && x != s[i] ==> s.remove(i).contains(x),
{
    let t = s.remove(i);
    assert forall|x: usize| t.contains(x) implies s.contains(x) by {
        let k = choose|k: int| 0 <= k < t.len() && t[k] == x;
        if k < i {
            assert(s[k] == x);
        } else {
            assert(s[k + 1] == x);
        }
    }
    if s.no_duplicates() {
        assert forall|x: usize| t.contains(x) implies x != s[i] by {
            let k = choose|k: int| 0 <= k < t.len() && t[k] == x;
            if k < i {
                assert(s[k] == x);
            } else {
                assert(s[k + 1] == x);
            }
        }
    }
    assert forall|x: usize| s.contains(x) && x != s[i] implies t.contains(x) by {
        let k = choose|k: int| 0 <= k < s.len() && s[k] == x;
        if k < i {
            assert(t[k] == x);
        } else {
            assert(k > i);
            assert(t[k - 1] == x);
        }
    }
}

proof fn lemma_enqueue_wf(s: Seq<usize>, x: usize)
    requires
        s.no_duplicates(),
        !s.contains(x),
    ensures
        s.push(x).no_duplicates(),
        forall|y: usize| s.push(x).contains(y) <==> (s.contains(y) || y == x),
{
    let t = s.push(x);
    assert forall|y: usize| t.contains(y) <==> (s.contains(y) || y == x) by {
        if t.contains(y) {
            let k = choose|k: int| 0 <= k < t.len() && t[k] == y;
            if k < t.len() - 1 {
                assert(s[k] == y);
            }
        }
        if s.contains(y) {
            let k = choose|k: int| 0 <= k < s.len() && s[k] == y;
            assert(t[k] == y);
        }
        if y == x {
            assert(t[t.len() - 1] == x);
        }
    }
}

proof fn lemma_requeue_wf(s: Seq<usize>, i: int, x: usize)
    requires
        0 <= i < s.len(),
        s[i] == x,
        s.no_duplicates(),
    ensures
        s.remove(i).push(x).no_duplicates(),
        s.remove(i).push(x).len() == s.len(),
        forall|y: usize| s.remove(i).push(x).contains(y) <==> s.contains(y),
{
    lemma_remove_keeps(s, i);
    let t = s.remove(i).push(x);
    assert forall|y: usize| t.contains(y) <==> s.contains(y) by {
        if t.contains(y) {
            let k = choose|k: int| 0 <= k < t.len() && t[k] == y;
            if k < t.len() - 1 {
                assert(s.remove(i)[k] == y);
                assert(s.remove(i).contains(y));
            } else {
                assert(y == x);
            }
        }
        if s.contains(y) {
            if y == x {
                assert(t[t.len() - 1] == x);
            } else {
                assert(s.remove(i).contains(y));
                let k = choose|k: int| 0 <= k < s.remove(i).len() && s.remove(i)[k] == y;
                assert(t[k] == y);
            }
        }
    }
}

// ----- raw edit records and their merge -----
/// A raw edit record for the incremental save strategies: `old_len` bytes at
/// `file_offset` of the original file are replaced by `new_text`.
#[derive(Debug, Clone)]
pub struct Edit {
    pub file_offset: usize,
    pub old_len: usize,
    pub new_text: String,
}

/// The ghost image of an edit record.
pub ghost struct EditModel {
    pub offset: int,
    pub old_len: int,
    pub text: Seq<char>,
}

impl Edit {
    pub open spec fn model(&self) -> EditModel {
        EditModel {
            offset: self.file_offset as int,
            old_len: self.old_len as int,
            text: self.new_text@,
        }
    }

    /// One past the last replaced byte.
    pub open spec fn spec_end(&self) -> int {
        self.file_offset + self.old_len
    }
}

pub open spec fn edit_models(s: Seq<Edit>) -> Seq<EditModel> {
    s.map_values(|e: Edit| e.model())
}

pub open spec fn sorted_by_offset(s: Seq<Edit>) -> bool {
    forall|i: int, j: int|
        0 <= i < j < s.len() ==> #[trigger] s[i].file_offset <= #[trigger] s[j].file_offset
}

impl EditModel {
    pub open spec fn end(&self) -> int {
        self.offset + self.old_len
    }
}

/// Two overlapping or adjacent edits merged into one spanning their union,
/// replacement texts concatenated in order.
pub open spec fn merge_two(a: EditModel, b: EditModel) -> EditModel {
    EditModel {
        offset: a.offset,
        old_len: (if b.end() > a.end() {
            b.end()
        } else {
            a.end()
        }) - a.offset,
        text: a.text + b.text,
    }
}

/// Coalesce a sorted run: `cur` absorbs every following edit that starts at
/// or before its end; the first edit past the end starts a new record.
pub open spec fn coalesce_from(s: Seq<EditModel>, i: int, cur: EditModel) -> Seq<EditModel>
    decreases s.len() - i,
{
    if !(0 <= i < s.len()) {
        seq![cur]
    } else if s[i].offset <= cur.end() {
        coalesce_from(s, i + 1, merge_two(cur, s[i]))
    } else {
        seq![cur] + coalesce_from(s, i + 1, s[i])
    }
}

pub open spec fn coalesce_spec(s: Seq<EditModel>) -> Seq<EditModel> {
    if s.len() == 0 {
        Seq::empty()
    } else {
        coalesce_from(s, 1, s[0])
    }
}

/// Coalesced runs never overlap and never touch: each record ends strictly
/// before the next begins.
pub proof fn lemma_coalesce_gaps(s: Seq<EditModel>, i: int, cur: EditModel)
    ensures
        coalesce_from(s, i, cur).len() >= 1,
        coalesce_from(s, i, cur)[0].offset == cur.offset,
        forall|k: int|
            0 <= k < coalesce_from(s, i, cur).len() - 1 ==> #[trigger] coalesce_from(s, i, cur)[
                k
            ].end() < coalesce_from(s, i, cur)[k + 1].offset,
    decreases s.len() - i,
{
    if 0 <= i < s.len() {
        if s[i].offset <= cur.end() {
            lemma_coalesce_gaps(s, i + 1, merge_two(cur, s[i]));
        } else {
            lemma_coalesce_gaps(s, i + 1, s[i]);
            let rest = coalesce_from(s, i + 1, s[i]);
            let all = coalesce_from(s, i, cur);
            assert(all == seq![cur] + rest);
            assert(forall|k: int| 0 <= k < rest.len() ==> all[k + 1] == rest[k]);
            assert forall|k: int| 0 <= k < all.len() - 1 implies #[trigger] all[k].end() < all[k
                + 1].offset by {
                if k == 0 {
                    assert(all[1] == rest[0]);
                } else {
                    assert(all[k] == rest[k - 1]);
                    assert(all[k + 1] == rest[k]);
                }
            }
        }
    }
}

/// Sort edit records by file offset: a permutation of the input, ordered.
fn sort_edits(edits: Vec<Edit>) -> (r: Vec<Edit>)
    ensures
        sorted_by_offset(r@),
        r@.to_multiset() == edits@.to_multiset(),
        r@.len() == edits@.len(),
{
    broadcast use vstd::seq_lib::group_to_multiset_ensures;

    let ghost orig = edits@;
    let mut rem = edits;
    let mut out: Vec<Edit> = Vec::new();
    proof {
        assert(out@.to_multiset().add(rem@.to_multiset()) =~= orig.to_multiset());
    }
    while rem.len() > 0
        invariant
            out@.to_multiset().add(rem@.to_multiset()) == orig.to_multiset(),
            out@.len() + rem@.len() == orig.len(),
            sorted_by_offset(out@),
            forall|i: int, j: int|
                0 <= i < out@.len() && 0 <= j < rem@.len() ==> #[trigger] out@[i].file_offset
                    <= #[trigger] rem@[j].file_offset,
        decreases rem@.len(),
    {
        let mut mi: usize = 0;
        let mut k: usize = 1;
        while k < rem.len()
            invariant
                mi < k <= rem@.len() || (k <= rem@.len() && mi == 0),
                mi < rem@.len(),
                forall|j: int| 0 <= j < k ==> rem@[mi as int].file_offset <= #[trigger] rem@[
                    j
                ].file_offset,
            decreases rem@.len() - k,
        {
            if rem[k].file_offset < rem[mi].file_offset {
                mi = k;
            }
            k = k + 1;
        }
        let ghost rem0 = rem@;
        let e = rem.remove(mi);
        let ghost out0 = out@;
        out.push(e);
        proof {
            assert(rem@ == rem0.remove(mi as int));
            assert(out@ == out0.push(e));
            vstd::seq_lib::to_multiset_remove(rem0, mi as int);
            vstd::seq_lib::to_multiset_build(out0, e);
            assert(rem0.contains(e)) by {
                assert(rem0[mi as int] == e);
            }
            vstd::seq_lib::to_multiset_contains(rem0, e);
            assert(rem0.to_multiset().count(e) > 0);
            assert(rem@.to_multiset().insert(e) =~= rem0.to_multiset());
            assert(out@.to_multiset().add(rem@.to_multiset()) =~= out0.to_multiset().add(
                rem0.to_multiset(),
            ));
            assert forall|i: int, j: int|
                0 <= i < out@.len() && 0 <= j < rem@.len() implies #[trigger] out@[i].file_offset
                <= #[trigger] rem@[j].file_offset by {
                if j < mi {
                    assert(rem@[j] == rem0[j]);
                } else {
                    assert(rem@[j] == rem0[j + 1]);
                }
                if i < out0.len() {
                    assert(out@[i] == out0[i]);
                } else {
                    assert(out@[i] == e);
                }
            }
            assert forall|i: int, j: int| 0 <= i < j < out@.len() implies #[trigger] out@[
                i
            ].file_offset <= #[trigger] out@[j].file_offset by {
                if j < out0.len() {
                } else {
                    assert(out@[j] == e);
                    assert(out@[i] == out0[i]);
                }
            }
        }
    }
    proof {
        vstd::seq_lib::to_multiset_len(rem@);
        assert(rem@.to_multiset() =~= Multiset::<Edit>::empty());
        assert(out@.to_multiset().add(Multiset::<Edit>::empty()) =~= out@.to_multiset());
    }
    out
}

/// Merge raw edit records: sort by file offset, then coalesce overlapping
/// or adjacent records into single records spanning their union, with
/// replacement texts concatenated in offset order. The result is ordered
/// with a strict gap between consecutive records.
pub fn merge_edits(edits: Vec<Edit>) -> (r: Vec<Edit>)
    requires
        forall|i: int|
            0 <= i < edits@.len() ==> #[trigger] edits@[i].file_offset + edits@[i].old_len
                <= usize::MAX,
    ensures
        forall|k: int|
            0 <= k < r@.len() - 1 ==> #[trigger] r@[k].spec_end() < r@[k + 1].file_offset,
        edits@.len() == 0 ==> r@.len() == 0,
        edits@.len() > 0 ==> r@.len() >= 1,
        exists|s: Seq<Edit>|
            {
                &&& s.to_multiset() == edits@.to_multiset()
                &&& sorted_by_offset(s)
                &&& #[trigger] edit_models(r@) == coalesce_spec(edit_models(s))
            },
{
    broadcast use vstd::seq_lib::group_to_multiset_ensures;

    let ghost orig = edits@;
    let sorted = sort_edits(edits);
    let ghost sorted_seq = sorted@;
    proof {
        assert forall|i: int| 0 <= i < sorted@.len() implies #[trigger] sorted@[i].file_offset
            + sorted@[i].old_len <= usize::MAX by {
            assert(sorted@.to_multiset().contains(sorted@[i]));
            assert(orig.to_multiset().count(sorted@[i]) > 0);
            assert(orig.contains(sorted@[i]));
            let j = choose|j: int| 0 <= j < orig.len() && orig[j] == sorted@[i];
            assert(orig[j].file_offset + orig[j].old_len <= usize::MAX);
        }
    }
    if sorted.len() == 0 {
        let r: Vec<Edit> = Vec::new();
        proof {
            assert(edit_models(r@) =~= coalesce_spec(edit_models(sorted_seq)));
        }
        return r;
    }
    let ghost ms = edit_models(sorted_seq);
    let mut out: Vec<Edit> = Vec::new();
    let mut rest = sorted;
    let mut cur = rest.remove(0);
    let mut j: usize = 0;
    proof {
        assert(edit_models(out@) + coalesce_from(ms, 1, cur.model()) =~= coalesce_spec(ms));
    }
    while j < rest.len()
        invariant
            j <= rest@.len(),
            rest@ == sorted_seq.drop_first(),
            ms == edit_models(sorted_seq),
            ms.len() == rest@.len() + 1,
            forall|k: int|
                0 <= k < sorted_seq.len() ==> #[trigger] sorted_seq[k].file_offset
                    + sorted_seq[k].old_len <= usize::MAX,
            cur.spec_end() <= usize::MAX,
            edit_models(out@) + coalesce_from(ms, j + 1, cur.model()) == coalesce_spec(ms),
        decreases rest@.len() - j,
    {
        let e = &rest[j];
        proof {
            assert(ms[j + 1] == sorted_seq[j + 1].model());
            assert(sorted_seq[j + 1] == rest@[j as int]);
        }
        let cur_end = cur.file_offset + cur.old_len;
        if e.file_offset <= cur_end {
            let e_end = e.file_offset + e.old_len;
            let new_end = if e_end > cur_end {
                e_end
            } else {
                cur_end
            };
            let ghost cm = cur.model();
            cur.old_len = new_end - cur.file_offset;
            cur.new_text.append(e.new_text.as_str());
            proof {
                assert(cur.model() == merge_two(cm, ms[j + 1]));
            }
        } else {
            let ghost out0 = out@;
            let ghost cm = cur.model();
            let next = rest[j].clone_record();
            out.push(cur);
            cur = next;
            proof {
                assert(edit_models(out@) =~= edit_models(out0).push(cm));
                assert(cur.model() == ms[j + 1]);
                assert(coalesce_from(ms, j + 1, cm) == seq![cm] + coalesce_from(
                    ms,
                    j + 2,
                    ms[j + 1],
                ));
                assert(edit_models(out0) + (seq![cm] + coalesce_from(ms, j + 2, ms[j + 1]))
                    =~= (edit_models(out0).push(cm)) + coalesce_from(ms, j + 2, ms[j + 1]));
            }
        }
        j = j + 1;
    }
    let ghost out0 = out@;
    let ghost cm = cur.model();
    out.push(cur);
    proof {
        assert(coalesce_from(ms, j + 1, cm) == seq![cm]);
        assert(edit_models(out@) =~= edit_models(out0).push(cm));
        assert(edit_models(out0) + seq![cm] =~= edit_models(out0).push(cm));
        assert(edit_models(out@) == coalesce_spec(ms));
        lemma_coalesce_gaps(ms, 1, ms[0]);
        assert forall|k: int| 0 <= k < out@.len() - 1 implies #[trigger] out@[k].spec_end() < out@[
            k + 1
        ].file_offset by {
            assert(edit_models(out@)[k] == out@[k].model());
            assert(edit_models(out@)[k + 1] == out@[k + 1].model());
            assert(coalesce_spec(ms)[k].end() < coalesce_spec(ms)[k + 1].offset);
        }
        assert(sorted_seq.to_multiset() == orig.to_multiset() && sorted_by_offset(sorted_seq)
            && edit_models(out@) == coalesce_spec(edit_models(sorted_seq)));
    }
    out
}

impl Edit {
    /// A copy of the record.
    pub fn clone_record(&self) -> (r: Edit)
        ensures
            r == *self,
    {
        Edit {
            file_offset: self.file_offset,
            old_len: self.old_len,
            new_text: self.new_text.clone(),
        }
    }
}

// ----- the save engine's synchronous half -----
/// What a save writes: the merged mapped content as one string, or the
/// rope's own chunk sequence (never materialized whole, so peak memory
/// stays within a small multiple of the rope's chunk size).
pub enum SavePlan {
    MergedText(String),
    FromRope(ropey::Rope),
}

impl SavePlan {
    /// The characters this plan writes.
    pub open spec fn plan_chars(&self) -> Seq<char> {
        match self {
            SavePlan::MergedText(s) => s@,
            SavePlan::FromRope(r) => rope_chars(r),
        }
    }

    /// Next piece of a rope plan from character position `char_pos`: a
    /// non-empty slice of the content starting there, and the position
    /// after it. `None` once the content is exhausted (a merged-text plan
    /// is written whole instead).
    pub fn next_chunk(&self, char_pos: usize) -> (r: Option<(String, usize)>)
        ensures
            match r {
                Some(piece) => {
                    &&& char_pos < piece.1 <= self.plan_chars().len()
                    &&& piece.0@ == self.plan_chars().subrange(char_pos as int, piece.1 as int)
                },
                None => self is MergedText || char_pos >= self.plan_chars().len(),
            },
    {
        match self {
            SavePlan::MergedText(_) => None,
            SavePlan::FromRope(rope) => {
                let n = rope_len_chars(rope);
                if char_pos >= n {
                    return None;
                }
                let (chunk, c0) = rope_chunk_at_char(rope, char_pos);
                let clen = chunk.as_str().unicode_len();
                let piece = chunk.as_str().substring_char(char_pos - c0, clen);
                let next = c0 + clen;
                proof {
                    assert(piece@ =~= rope_chars(rope).subrange(char_pos as int, next as int));
                }
                Some((String::from_str(piece), next))
            },
        }
    }
}

/// A save captured for a background writer: the destination path and the
/// content plan. Edits made after the capture are invisible to it.
pub struct SaveJob {
    pub path: String,
    pub plan: SavePlan,
}

impl Buffer {
    /// Whether a background save is running, per the last event received.
    pub fn is_saving(&self) -> (r: bool)
        ensures
            r == self.spec_save().in_progress,
    {
        self.save_state.in_progress
    }

    /// Save progress percent, 0 to 100.
    pub fn save_progress_percent(&self) -> (r: u32)
        requires
            self.wf(),
        ensures
            r == self.spec_save().progress,
            r <= 100,
    {
        self.save_state.progress
    }

    /// Capture a save. Fails with `NoPath` when no path is known and with
    /// `NoContent` for a mapped buffer without edits; otherwise the job's
    /// plan holds exactly the rendered content (the merged lines of an
    /// edited mapped buffer, or the rope), the in-progress and pending
    /// flags rise and progress starts at 10.
    pub fn save(&mut self) -> (r: Result<SaveJob, BufError>)
        requires
            old(self).wf(),
        ensures
            final(self).wf(),
            old(self).spec_path() is None ==> r == Err::<SaveJob, BufError>(BufError::NoPath)
                && *final(self) == *old(self),
            old(self).spec_path() is Some && !old(self).is_rope_mode() && old(self).overlay().len()
                == 0 ==> r == Err::<SaveJob, BufError>(BufError::NoContent) && *final(self)
                == *old(self),
            old(self).spec_path() is Some && (old(self).is_rope_mode() || old(
                self,
            ).overlay().len() > 0) ==> {
                &&& r is Ok
                &&& Some(r->Ok_0.path@) == old(self).spec_path()
                &&& r->Ok_0.plan.plan_chars() == if old(self).is_rope_mode() {
                    old(self).rope_text()
                } else {
                    old(self).rendered(0, old(self).spec_line_count())
                }
                &&& final(self).spec_save().in_progress
                &&& final(self).spec_save().pending
                &&& final(self).spec_save().progress == 10
                &&& final(self).is_rope_mode() == old(self).is_rope_mode()
                &&& final(self).src_bytes() == old(self).src_bytes()
                &&& final(self).overlay() == old(self).overlay()
                &&& (final(self).is_rope_mode() ==> final(self).rope_text() == old(self).rope_text())
                &&& final(self).spec_modified() == old(self).spec_modified()
                &&& final(self).spec_path() == old(self).spec_path()
            },
    {
        let path = match &self.path {
            Some(p) => p.clone(),
            None => {
                return Err(BufError::NoPath);
            },
        };
        if self.use_rope {
            let rope = match &self.rope {
                Some(r) => rope_clone(r),
                None => {
                    proof {
                        assert(false);
                    }
                    return Err(BufError::NoContent);
                },
            };
            self.save_state = SaveState { progress: 10, in_progress: true, pending: true };
            Ok(SaveJob { path, plan: SavePlan::FromRope(rope) })
        } else {
            if self.edits.is_empty() {
                return Err(BufError::NoContent);
            }
            let content = self.merged_content();
            self.save_state = SaveState { progress: 10, in_progress: true, pending: true };
            Ok(SaveJob { path, plan: SavePlan::MergedText(content) })
        }
    }

    /// Set the path, then capture a save to it.
    pub fn save_as(&mut self, path: String) -> (r: Result<SaveJob, BufError>)
        requires
            old(self).wf(),
        ensures
            final(self).wf(),
            final(self).spec_path() == Some(path@),
            !old(self).is_rope_mode() && old(self).overlay().len() == 0 ==> r == Err::<
                SaveJob,
                BufError,
            >(BufError::NoContent),
            (old(self).is_rope_mode() || old(self).overlay().len() > 0) ==> {
                &&& r is Ok
                &&& r->Ok_0.path@ == path@
                &&& r->Ok_0.plan.plan_chars() == if old(self).is_rope_mode() {
                    old(self).rope_text()
                } else {
                    old(self).rendered(0, old(self).spec_line_count())
                }
                &&& final(self).spec_save().in_progress
                &&& final(self).spec_save().pending
            },
    {
        self.path = Some(path);
        let ghost mid = *self;
        let r = self.save();
        proof {
            assert(forall|j: int| mid.spec_get_line(j) == old(self).spec_get_line(j));
            lemma_rendered_congruence(&mid, old(self), 0, old(self).spec_line_count());
        }
        r
    }

    /// Event from whoever ran the background write: it finished, well or
    /// badly. Success parks progress at 100 until finalization; failure
    /// resets progress to 0. Either way the in-progress flag clears and
    /// the content is untouched.
    pub fn mark_save_done(&mut self, ok: bool)
        requires
            old(self).wf(),
        ensures
            final(self).wf(),
            !final(self).spec_save().in_progress,
            final(self).spec_save().pending == old(self).spec_save().pending,
            final(self).spec_save().progress == if ok {
                100int
            } else {
                0int
            },
            final(self).is_rope_mode() == old(self).is_rope_mode(),
            final(self).src_bytes() == old(self).src_bytes(),
            final(self).overlay() == old(self).overlay(),
            final(self).is_rope_mode() ==> final(self).rope_text() == old(self).rope_text(),
            final(self).spec_modified() == old(self).spec_modified(),
            final(self).spec_path() == old(self).spec_path(),
            forall|j: int| final(self).spec_get_line(j) == old(self).spec_get_line(j),
    {
        self.save_state = SaveState {
            progress: if ok {
                100
            } else {
                0
            },
            in_progress: false,
            pending: self.save_state.pending,
        };
    }

    /// Reconcile after a finished save: when a save is pending and no
    /// write is running, adopt the re-read byte source as the new base (in
    /// mapped mode), drop the overlay and cache that the save folded in,
    /// and clear the progress, pending and modified flags. A rope buffer
    /// keeps its rope. Any other state is left untouched.
    pub fn finalize_save(&mut self, reloaded: Option<ByteSource>)
        requires
            old(self).wf(),
        ensures
            final(self).wf(),
            !(old(self).spec_save().pending && !old(self).spec_save().in_progress) ==> *final(self)
                == *old(self),
            old(self).spec_save().pending && !old(self).spec_save().in_progress ==> {
                &&& final(self).spec_save().progress == 0
                &&& !final(self).spec_save().pending
                &&& !final(self).spec_save().in_progress
                &&& !final(self).spec_modified()
                &&& final(self).spec_path() == old(self).spec_path()
                &&& final(self).is_rope_mode() == old(self).is_rope_mode()
                &&& (final(self).is_rope_mode() ==> final(self).rope_text() == old(self).rope_text())
                &&& (!final(self).is_rope_mode() ==> match reloaded {
                    Some(src) => final(self).src_bytes() == src.bytes() && final(self).overlay()
                        =~= Map::<usize, String>::empty(),
                    None => final(self).src_bytes() == old(self).src_bytes()
                        && final(self).overlay() == old(self).overlay(),
                })
            },
    {
        if self.save_state.pending && !self.save_state.in_progress {
            if !self.use_rope {
                match reloaded {
                    Some(src) => {
                        let size = src.len();
                        let offsets = Buffer::build_line_index(&src);
                        self.source = Some(src);
                        self.file_size = size;
                        self.line_offsets = offsets;
                        self.edits = HashMap::new();
                        self.line_cache = HashMap::new();
                        self.cache_order = Vec::new();
                    },
                    None => {},
                }
            }
            self.save_state = SaveState { progress: 0, in_progress: false, pending: false };
            self.modified = false;
        }
    }
}

/// Percent shown during the write phase: 20 at the start, 90 at the end,
/// linear in the bytes written.
pub fn write_phase_percent(written: usize, total: usize) -> (r: u32)
    ensures
        20 <= r <= 90,
        total > 0 && written <= total ==> r as int == 20 + (written * 70) / (total as int),
{
    if total == 0 {
        return 90;
    }
    let frac128 = (written as u128) * 70 / (total as u128);
    let frac = if frac128 > 70 {
        70u32
    } else {
        frac128 as u32
    };
    proof {
        if written <= total {
            assert((written * 70) / (total as int) <= 70) by (nonlinear_arith)
                requires
                    0 < total,
                    0 <= written <= total,
            ;
        }
    }
    20 + frac
}

// ----- the laws the storage core obeys -----
/// Overlay precedence: once line `i` has an overlay entry, that entry is
/// the line's text, whatever the cache or the mapped bytes hold.
pub proof fn lemma_overlay_precedence(b: &Buffer, i: int)
    requires
        !b.is_rope_mode(),
        0 <= i,
        b.overlay().contains_key(i as usize),
    ensures
        b.spec_get_line(i) == b.overlay()[i as usize]@,
{
}

/// Monotonic offsets: line starts strictly increase, and mapping a line to
/// its byte offset and back returns the same line.
pub proof fn lemma_offset_roundtrip(b: &Buffer, n: int)
    requires
        b.wf(),
        0 <= n < b.spec_line_count(),
    ensures
        b.spec_byte_to_line(b.spec_line_to_byte(n)) == n,
        forall|n2: int|
            n < n2 < b.spec_line_count() ==> b.spec_line_to_byte(n) < #[trigger] b.spec_line_to_byte(
                n2,
            ),
{
    if b.is_rope_mode() {
        let starts = line_starts(b.rope_enc());
        lemma_line_starts(b.rope_enc());
        assert(b.spec_line_to_byte(n) == starts[n]);
        assert(starts[n] <= ulen(b.rope_text()));
        lemma_floor_idx_unique(starts, starts[n], n);
    } else {
        let starts = line_starts(b.src_bytes());
        lemma_line_starts(b.src_bytes());
        assert(b.spec_line_to_byte(n) == starts[n]);
        lemma_floor_idx_unique(starts, starts[n], n);
    }
}

/// Two buffers that agree line by line render the same text.
pub proof fn lemma_rendered_congruence(a: &Buffer, b: &Buffer, start: int, count: int)
    requires
        forall|j: int| a.spec_get_line(j) == b.spec_get_line(j),
        a.spec_line_count() == b.spec_line_count(),
    ensures
        a.rendered(start, count) == b.rendered(start, count),
    decreases count,
{
    if !(count <= 0 || start >= a.spec_line_count() || start < 0) {
        lemma_rendered_congruence(a, b, start + 1, count - 1);
    }
}

/// LRU bound: the cache never holds more entries than its configured
/// capacity.
pub proof fn lemma_lru_bound(b: &Buffer)
    requires
        b.wf(),
    ensures
        b.cache_len() <= b.cache_capacity(),
{
}

/// In valid UTF-8, the position right after an ASCII byte is a character
/// boundary.
proof fn lemma_boundary_after_ascii(bytes: Seq<u8>, p: int)
    requires
        vstd::utf8::valid_utf8(bytes),
        1 <= p <= bytes.len(),
        bytes[p - 1] < 128,
    ensures
        vstd::utf8::is_char_boundary(bytes, p),
{
    broadcast use vstd::utf8::group_utf8_lib;

    if p == bytes.len() {
        vstd::utf8::is_char_boundary_start_end_of_seq(bytes);
    } else {
        vstd::utf8::is_char_boundary_iff_not_is_continuation_byte(bytes, p - 1);
        assert(vstd::utf8::is_char_boundary(bytes, p - 1));
        vstd::utf8::valid_utf8_split(bytes, p - 1);
        let t = bytes.subrange(p - 1, bytes.len() as int);
        assert(vstd::utf8::valid_utf8(t));
        assert(t[0] == bytes[p - 1]);
        assert(vstd::utf8::is_leading_byte_width_1(t[0]));
        assert(vstd::utf8::length_of_first_scalar(t) == 1) by {
            assert(vstd::utf8::valid_first_scalar(t));
        }
        assert(vstd::utf8::is_char_boundary(t, 1)) by {
            reveal_with_fuel(vstd::utf8::is_char_boundary, 2);
        }
        vstd::utf8::is_char_boundary_iff_not_is_continuation_byte(t, 1);
        assert(t[1] == bytes[p]);
        vstd::utf8::is_char_boundary_iff_not_is_continuation_byte(bytes, p);
    }
}

/// Line starts of the encoded rope text are character boundaries.
proof fn lemma_rope_starts_are_boundaries(enc: Seq<u8>, pos: int)
    requires
        vstd::utf8::valid_utf8(enc),
        0 <= pos <= enc.len(),
        pos == 0 || enc[pos - 1] == NEWLINE,
    ensures
        vstd::utf8::is_char_boundary(enc, pos),
{
    if pos == 0 {
        vstd::utf8::is_char_boundary_start_end_of_seq(enc);
    } else {
        lemma_boundary_after_ascii(enc, pos);
    }
}

impl Buffer {
    /// Rendering every line from `l` on reproduces the decoded suffix of
    /// the encoded rope text from line `l`'s start.
    proof fn lemma_rope_render_suffix(&self, l: int)
        requires
            self.wf(),
            self.is_rope_mode(),
            0 <= l <= line_starts(self.rope_enc()).len(),
        ensures
            self.rendered(l, line_starts(self.rope_enc()).len() - l) == decode_utf8(
                self.rope_enc().skip(
                    if l < line_starts(self.rope_enc()).len() {
                        line_starts(self.rope_enc())[l]
                    } else {
                        self.rope_enc().len() as int
                    },
                ),
            ),
        decreases line_starts(self.rope_enc()).len() - l,
    {
        broadcast use vstd::utf8::encode_utf8_valid_utf8;

        let enc = self.rope_enc();
        let starts = line_starts(enc);
        let count = starts.len() as int;
        lemma_line_starts(enc);
        if l == count {
            assert(enc.skip(enc.len() as int) =~= Seq::<u8>::empty());
            assert(decode_utf8(Seq::<u8>::empty()) =~= Seq::<char>::empty());
            assert(self.rendered(l, 0) =~= Seq::<char>::empty());
        } else {
            self.lemma_rope_render_suffix(l + 1);
            let s_l = starts[l];
            let e_l = seg_end(enc, l);
            assert(self.spec_line_count() == count);
            assert(self.rendered(l, count - l) == self.spec_get_line(l) + self.rendered(
                l + 1,
                count - l - 1,
            ));
            lemma_rope_starts_are_boundaries(enc, s_l);
            vstd::utf8::valid_utf8_split(enc, s_l);
            let suffix = enc.subrange(s_l, enc.len() as int);
            assert(suffix =~= enc.skip(s_l));
            let k = e_l - s_l;
            assert(0 <= k <= suffix.len()) by {
                lemma_seg_bounds(enc, l);
            }
            assert(vstd::utf8::is_char_boundary(suffix, k)) by {
                if k == suffix.len() {
                    vstd::utf8::is_char_boundary_start_end_of_seq(suffix);
                } else {
                    if l + 1 < starts.len() {
                        assert(e_l == starts[l + 1]);
                        assert(enc[e_l - 1] == NEWLINE);
                        assert(suffix[k - 1] == enc[e_l - 1]);
                        assert(k >= 1) by {
                            lemma_seg_bounds(enc, l);
                        }
                        lemma_boundary_after_ascii(suffix, k);
                    } else {
                        assert(e_l == enc.len());
                        assert(false);
                    }
                }
            }
            vstd::utf8::decode_utf8_split(suffix, k);
            assert(suffix.subrange(0, k) =~= enc.subrange(s_l, e_l));
            assert(suffix.subrange(k, suffix.len() as int) =~= enc.skip(e_l));
            assert(self.spec_get_line(l) == decode_utf8(enc.subrange(s_l, e_l)));
            assert(e_l == if l + 1 < starts.len() {
                starts[l + 1]
            } else {
                enc.len() as int
            });
        }
    }
}

/// Round trip of content through a save: the image a save writes equals the
/// full rendered range. For an edited mapped buffer both are the merged
/// lines by construction; for a rope buffer, rendering every line
/// reproduces the rope's text.
pub proof fn lemma_save_image_matches_viewport(b: &Buffer)
    requires
        b.wf(),
        b.is_rope_mode(),
    ensures
        b.rendered(0, b.spec_line_count()) == b.rope_text(),
{
    broadcast use vstd::utf8::encode_utf8_valid_utf8;

    let enc = b.rope_enc();
    lemma_line_starts(enc);
    b.lemma_rope_render_suffix(0);
    assert(line_starts(enc)[0] == 0);
    assert(enc.skip(0) =~= enc);
    assert(decode_utf8(encode_utf8(b.rope_text())) == b.rope_text());
}


impl Default for Buffer {
    /// An empty buffer, as `new` builds it.
    fn default() -> (b: Buffer)
        ensures
            b.wf(),
            !b.is_rope_mode(),
            b.src_bytes() =~= Seq::<u8>::empty(),
            b.overlay() =~= Map::<usize, String>::empty(),
            !b.spec_modified(),
            b.spec_path() is None,
    {
        Buffer::new()
    }
}

} // verus!
