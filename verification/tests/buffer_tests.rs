use jim::buffer::{BufError, ByteSource, Edit, SavePlan};
use jim::Buffer;

fn rope_buffer(text: &str) -> Buffer {
    let mut buffer = Buffer::new();
    buffer.load_source(ByteSource::Owned(text.as_bytes().to_vec()), None);
    buffer
}

/// At least 10 MiB so the buffer stays mapped: one long first line without
/// any newline near offset 0, then many short lines.
fn big_mapped_bytes() -> Vec<u8> {
    let mut data = vec![b'x'; 1024 * 1024];
    for i in 0..(10 * 1024 * 1024) {
        if i % 8 == 0 {
            data.push(b'\n');
        } else {
            data.push(b'y');
        }
    }
    data
}

fn full_render(buffer: &Buffer) -> String {
    buffer.get_visible_lines(0, buffer.line_count())
}

#[test]
fn test_rope_mode_basics() {
    let buffer = rope_buffer("alpha\nbeta\ngamma");
    assert!(!buffer.is_empty());
    assert_eq!(buffer.line_count(), 3);
    assert_eq!(buffer.len_bytes(), 16);
    assert_eq!(buffer.len_chars(), 16);
    assert_eq!(buffer.get_line(0), "alpha\n");
    assert_eq!(buffer.get_line(1), "beta\n");
    assert_eq!(buffer.get_line(2), "gamma");
    assert_eq!(buffer.get_line(99), "");
    assert_eq!(buffer.get_visible_lines(1, 2), "beta\ngamma");
    assert_eq!(buffer.slice(6..10), "beta");
    assert_eq!(buffer.char_at(6), Some('b'));
    assert_eq!(buffer.char_at(999), None);
}

#[test]
fn test_rope_mutations() {
    let mut buffer = rope_buffer("hello world");
    assert!(!buffer.is_modified());

    buffer.insert(5, ",").unwrap();
    assert!(buffer.is_modified());
    assert_eq!(full_render(&buffer), "hello, world");

    buffer.delete(0, 6).unwrap();
    assert_eq!(full_render(&buffer), " world");

    buffer.replace(1, 6, "there").unwrap();
    assert_eq!(full_render(&buffer), " there");
}

#[test]
fn test_offset_round_trip() {
    let buffer = rope_buffer("one\ntwo\nthree\n");
    for n in 0..buffer.line_count() {
        let off = buffer.line_to_byte_offset(n);
        assert_eq!(buffer.byte_offset_to_line(off), n);
    }
    assert_eq!(buffer.byte_offset_to_line(0), 0);
    assert_eq!(buffer.byte_offset_to_line(5), 1);
    assert_eq!(buffer.line_to_byte_offset(2), 8);
    // beyond the content, clamped
    assert_eq!(buffer.line_to_byte_offset(99), 14);
}

#[test]
fn test_mapped_mode_reads() {
    let data = big_mapped_bytes();
    let total = data.len();
    let mut buffer = Buffer::new();
    buffer.load_source(ByteSource::Owned(data), None);

    // still byte-addressed over the mapped source
    assert_eq!(buffer.len_bytes(), total);
    let first = buffer.get_line(0);
    assert!(first.starts_with("xxxx"));
    assert!(first.ends_with("\n"));
    // the offset table round-trips
    for n in [0usize, 1, 2, 1000] {
        let off = buffer.line_to_byte_offset(n);
        assert_eq!(buffer.byte_offset_to_line(off), n);
    }
}

#[test]
fn test_mapped_single_insert_uses_overlay() {
    // a large file with no newline near offset 0: one character inserted
    // creates one overlay line and no mode escalation
    let data = big_mapped_bytes();
    let total = data.len();
    let mut buffer = Buffer::new();
    buffer.load_source(ByteSource::Owned(data), None);

    let second_line_before = buffer.get_line(1);
    buffer.insert(5, "Q").unwrap();
    assert!(buffer.is_modified());

    // mapped mode keeps reporting the mapped size: no escalation happened
    assert_eq!(buffer.len_bytes(), total);
    let first = buffer.get_line(0);
    assert_eq!(&first[0..6], "xxxxxQ");
    // exactly one line is overlaid
    assert_eq!(buffer.get_line(1), second_line_before);
}

#[test]
fn test_overlay_precedence_survives_reads() {
    let data = big_mapped_bytes();
    let mut buffer = Buffer::new();
    buffer.load_source(ByteSource::Owned(data), None);

    buffer.insert(buffer.line_to_byte_offset(2), "HEAD").unwrap();
    let patched = buffer.get_line(2);
    assert!(patched.starts_with("HEAD"));

    // churn the cache with many reads, then read the overlaid line again
    for n in 0..1500 {
        let line = buffer.get_line_cached(3 + n);
        assert!(line.ends_with('\n') || line.is_empty());
    }
    assert_eq!(buffer.get_line(2), patched);
    assert_eq!(buffer.get_line_cached(2), patched);
    assert_eq!(buffer.get_line(2), patched);
}

#[test]
fn test_mapped_multiline_delete_escalates() {
    let data = big_mapped_bytes();
    let total = data.len();
    let mut buffer = Buffer::new();
    buffer.load_source(ByteSource::Owned(data), None);

    let start = buffer.line_to_byte_offset(1);
    let end = buffer.line_to_byte_offset(3);
    buffer.delete(start, end).unwrap();

    // the buffer escalated to a rope holding the shortened content
    assert_eq!(buffer.len_bytes(), total - (end - start));
}

#[test]
fn test_mapped_lossy_decoding() {
    let mut data = vec![0xFFu8, b'a', b'\n'];
    data.resize(11 * 1024 * 1024, b'z');
    let mut buffer = Buffer::new();
    buffer.load_source(ByteSource::Owned(data), None);
    // the invalid byte decodes to the replacement character
    assert_eq!(buffer.get_line(0), "\u{FFFD}a\n");
}

#[test]
fn test_save_requires_path() {
    let mut buffer = rope_buffer("abc");
    match buffer.save() {
        Err(e) => assert_eq!(e, BufError::NoPath),
        Ok(_) => panic!("a save without a path must fail"),
    }
}

#[test]
fn test_save_unedited_mapped_has_no_content() {
    let data = big_mapped_bytes();
    let mut buffer = Buffer::new();
    buffer.load_source(ByteSource::Owned(data), Some("big.json".to_string()));
    match buffer.save() {
        Err(e) => assert_eq!(e, BufError::NoContent),
        Ok(_) => panic!("an unedited mapped save must fail"),
    }
}

#[test]
fn test_save_rope_streams_chunks() {
    let mut buffer = rope_buffer("line one\nline two\nline three\n");
    let rendered = full_render(&buffer);
    let job = buffer.save_as("out.json".to_string()).unwrap();
    assert_eq!(job.path, "out.json");
    assert!(buffer.is_saving());
    assert_eq!(buffer.save_progress_percent(), 10);

    // the chunk stream reassembles exactly the rendered content
    let mut streamed = String::new();
    let mut pos = 0;
    while let Some((piece, next)) = job.plan.next_chunk(pos) {
        assert!(next > pos);
        streamed.push_str(&piece);
        pos = next;
    }
    assert_eq!(streamed, rendered);

    buffer.mark_save_done(true);
    assert!(!buffer.is_saving());
    assert_eq!(buffer.save_progress_percent(), 100);
    buffer.finalize_save(None);
    assert_eq!(buffer.save_progress_percent(), 0);
    assert!(!buffer.is_modified());
}

#[test]
fn test_save_merged_matches_viewport() {
    // the saved image of an edited mapped buffer equals what the viewport
    // renders over the full range
    let data = big_mapped_bytes();
    let mut buffer = Buffer::new();
    buffer.load_source(ByteSource::Owned(data), Some("big.json".to_string()));
    buffer.insert(3, "EDIT").unwrap();

    let rendered = full_render(&buffer);
    let job = buffer.save().unwrap();
    match job.plan {
        SavePlan::MergedText(content) => assert_eq!(content, rendered),
        SavePlan::FromRope(_) => panic!("an edited mapped buffer saves merged text"),
    }
}

#[test]
fn test_failed_save_resets_progress() {
    // a failed background write reports progress 0 with the flag cleared,
    // and the content is untouched
    let mut buffer = rope_buffer("data");
    let before = full_render(&buffer);
    let _job = buffer.save_as("out.json".to_string()).unwrap();
    assert!(buffer.is_saving());
    buffer.mark_save_done(false);
    assert!(!buffer.is_saving());
    assert_eq!(buffer.save_progress_percent(), 0);
    assert_eq!(full_render(&buffer), before);
}

#[test]
fn test_write_phase_percent() {
    assert_eq!(jim::buffer::write_phase_percent(0, 100), 20);
    assert_eq!(jim::buffer::write_phase_percent(50, 100), 55);
    assert_eq!(jim::buffer::write_phase_percent(100, 100), 90);
    assert_eq!(jim::buffer::write_phase_percent(7, 0), 90);
}

#[test]
fn test_merge_edits_coalesces() {
    let edits = vec![
        Edit { file_offset: 10, old_len: 5, new_text: "AA".to_string() },
        Edit { file_offset: 3, old_len: 2, new_text: "B".to_string() },
        Edit { file_offset: 14, old_len: 4, new_text: "C".to_string() },
    ];
    let merged = jim::buffer::merge_edits(edits);
    assert_eq!(merged.len(), 2);
    assert_eq!(merged[0].file_offset, 3);
    assert_eq!(merged[0].old_len, 2);
    assert_eq!(merged[0].new_text, "B");
    assert_eq!(merged[1].file_offset, 10);
    assert_eq!(merged[1].old_len, 8);
    assert_eq!(merged[1].new_text, "AAC");
    for w in merged.windows(2) {
        assert!(w[0].file_offset + w[0].old_len < w[1].file_offset);
    }
}

#[test]
fn test_finalize_adopts_reloaded_source() {
    let data = big_mapped_bytes();
    let mut buffer = Buffer::new();
    buffer.load_source(ByteSource::Owned(data), Some("big.json".to_string()));
    buffer.insert(0, "A").unwrap();
    let job = buffer.save().unwrap();
    let saved = match job.plan {
        SavePlan::MergedText(content) => content,
        SavePlan::FromRope(_) => panic!("an edited mapped buffer saves merged text"),
    };
    buffer.mark_save_done(true);
    buffer.finalize_save(Some(ByteSource::Owned(saved.clone().into_bytes())));
    assert!(!buffer.is_modified());
    assert_eq!(buffer.save_progress_percent(), 0);
    // the reloaded bytes render exactly the saved image
    assert_eq!(full_render(&buffer), saved);
}
