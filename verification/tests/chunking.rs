use chunked_stats::chunk::split_chunks;
use chunked_stats::chunk::split_window;
use chunked_stats::chunk::Chunk;
use chunked_stats::chunk::ChunkReader;
use chunked_stats::chunk::ReadStep;
use chunked_stats::error::Error;
use chunked_stats::text::find_first;
use chunked_stats::text::find_last_end;

fn bytes_of(chunks: &[Chunk]) -> Vec<Vec<u8>> {
    chunks.iter().map(|c| c.bytes.clone()).collect()
}

#[test]
fn chunk_new_copies_data_that_fits() {
    let chunk = Chunk::new(3, b"a;1\n", 4).expect("four bytes fit a window of four");
    assert_eq!(chunk.id, 3);
    assert_eq!(chunk.bytes, b"a;1\n".to_vec());
}

#[test]
fn chunk_new_refuses_data_longer_than_the_window() {
    assert!(Chunk::new(0, b"a;1\nb", 4).is_none());
}

#[test]
fn chunk_new_accepts_empty_data() {
    let chunk = Chunk::new(7, b"", 0).expect("nothing fits any window");
    assert_eq!(chunk.id, 7);
    assert!(chunk.bytes.is_empty());
}

#[test]
fn find_first_reports_the_first_occurrence_or_the_end() {
    assert_eq!(find_first(b"ab;cd;e", 0, b';'), 2);
    assert_eq!(find_first(b"ab;cd;e", 3, b';'), 5);
    assert_eq!(find_first(b"ab;cd;e", 6, b';'), 7);
    assert_eq!(find_first(b"", 0, b';'), 0);
}

#[test]
fn find_last_end_reports_the_end_of_the_last_occurrence_or_zero() {
    assert_eq!(find_last_end(b"a\nb\nc", b'\n'), 4);
    assert_eq!(find_last_end(b"abc", b'\n'), 0);
    assert_eq!(find_last_end(b"\n", b'\n'), 1);
}

#[test]
fn split_window_cuts_after_the_last_terminator() {
    assert_eq!(split_window(b"a;1\nb;2\nc;"), 8);
}

#[test]
fn split_window_keeps_a_window_that_ends_in_a_terminator_whole() {
    assert_eq!(split_window(b"a;1\nb;2\n"), 8);
}

#[test]
fn split_window_keeps_a_window_without_terminator_whole() {
    assert_eq!(split_window(b"a;1"), 3);
    assert_eq!(split_window(b""), 0);
}

#[test]
fn split_window_treats_a_zero_byte_as_content() {
    assert_eq!(split_window(b"a;1\nb\0"), 4);
    assert_eq!(split_window(b"a\0b"), 3);
}

#[test]
fn split_chunks_ends_every_chunk_at_a_terminator() {
    let data = b"a;1\nbb;2\nccc;3\n";
    let chunks = split_chunks(data, 9).expect("every line fits the window");
    assert_eq!(bytes_of(&chunks), vec![b"a;1\nbb;2\n".to_vec(), b"ccc;3\n".to_vec()]);
    assert_eq!(chunks[0].id, 0);
    assert_eq!(chunks[1].id, 1);
}

#[test]
fn split_chunks_reproduces_the_input_for_every_window() {
    let data = b"Paris;10.0\nParis;20.0\nLondon;5.0\nRome;-3.5\nOslo;0.1";
    for window in 11..=data.len() + 3 {
        let chunks = split_chunks(data, window).expect("the longest line has eleven bytes");
        let mut joined: Vec<u8> = Vec::new();
        for (at, chunk) in chunks.iter().enumerate() {
            assert_eq!(chunk.id, at);
            assert!(!chunk.bytes.is_empty());
            assert!(chunk.bytes.len() <= window);
            if at + 1 < chunks.len() {
                assert_eq!(chunk.bytes.last(), Some(&b'\n'));
            }
            joined.extend_from_slice(&chunk.bytes);
        }
        assert_eq!(joined, data.to_vec());
    }
}

#[test]
fn split_chunks_gives_no_chunk_for_an_empty_input() {
    let chunks = split_chunks(b"", 4).expect("nothing to cut");
    assert!(chunks.is_empty());
}

#[test]
fn split_chunks_keeps_a_last_line_without_terminator() {
    let chunks = split_chunks(b"a;1\nb;2", 4).expect("both lines fit");
    assert_eq!(bytes_of(&chunks), vec![b"a;1\n".to_vec(), b"b;2".to_vec()]);
}

#[test]
fn split_chunks_reports_a_line_longer_than_the_window() {
    let out = split_chunks(b"a;1\nlongkey;2\nb;3\n", 5);
    assert_eq!(out.err(), Some(Error::BoundaryOverflow { chunk: 1 }));
}

#[test]
fn split_chunks_reports_a_first_line_longer_than_the_window() {
    let out = split_chunks(b"abcdefghij\n", 10);
    assert_eq!(out.err(), Some(Error::BoundaryOverflow { chunk: 0 }));
}

#[test]
fn split_chunks_accepts_an_unterminated_input_as_long_as_the_window() {
    let chunks = split_chunks(b"abcdefghij", 10).expect("the input ends with the window");
    assert_eq!(bytes_of(&chunks), vec![b"abcdefghij".to_vec()]);
}

#[test]
fn reader_emits_the_cut_and_asks_for_the_rest_again() {
    let mut reader = ChunkReader::new(16);
    assert_eq!(reader.window(), 16);
    assert_eq!(reader.next_id(), 0);
    match reader.on_read(b"a;1\nb;2\nc;") {
        Ok(ReadStep::Emit { chunk, rewind }) => {
            assert_eq!(chunk.id, 0);
            assert_eq!(chunk.bytes, b"a;1\nb;2\n".to_vec());
            assert_eq!(rewind, 2);
        }
        other => panic!("unexpected step {:?}", other),
    }
    assert_eq!(reader.next_id(), 1);
    assert!(!reader.holds());
}

#[test]
fn reader_does_not_rewind_when_the_window_ends_in_a_terminator() {
    let mut reader = ChunkReader::new(8);
    match reader.on_read(b"a;1\nb;2\n") {
        Ok(ReadStep::Emit { chunk, rewind }) => {
            assert_eq!(chunk.bytes, b"a;1\nb;2\n".to_vec());
            assert_eq!(rewind, 0);
        }
        other => panic!("unexpected step {:?}", other),
    }
}

#[test]
fn reader_finishes_on_an_empty_read() {
    let mut reader = ChunkReader::new(8);
    assert!(matches!(reader.on_read(b""), Ok(ReadStep::Finished)));
    assert_eq!(reader.next_id(), 0);
}

#[test]
fn reader_holds_back_a_window_without_terminator_until_the_input_ends() {
    let mut reader = ChunkReader::new(8);
    assert!(matches!(reader.on_read(b"a;1"), Ok(ReadStep::ReadOn)));
    assert!(reader.holds());
    assert_eq!(reader.next_id(), 0);
    match reader.on_read(b"") {
        Ok(ReadStep::Emit { chunk, rewind }) => {
            assert_eq!(chunk.id, 0);
            assert_eq!(chunk.bytes, b"a;1".to_vec());
            assert_eq!(rewind, 0);
        }
        other => panic!("unexpected step {:?}", other),
    }
    assert!(!reader.holds());
    assert_eq!(reader.next_id(), 1);
    assert!(matches!(reader.on_read(b""), Ok(ReadStep::Finished)));
}

#[test]
fn reader_reports_bytes_that_follow_a_window_without_terminator() {
    let mut reader = ChunkReader::new(4);
    assert!(matches!(reader.on_read(b"a;1\n"), Ok(ReadStep::Emit { .. })));
    assert!(matches!(reader.on_read(b"long"), Ok(ReadStep::ReadOn)));
    match reader.on_read(b"er;2") {
        Err(e) => assert_eq!(e, Error::BoundaryOverflow { chunk: 1 }),
        other => panic!("unexpected step {:?}", other),
    }
    assert!(reader.holds());
    assert_eq!(reader.next_id(), 1);
}
