use record_stats::separator::find_byte;
use record_stats::region::{chunk_end, split_chunks, Span};
use record_stats::stream::{chunk_reads, StreamScanner};

fn sample() -> Vec<u8> {
    b"alpha;1.5\nbeta;-2.25\nalpha;3\ngamma;10.125\nbeta;0.5\n".to_vec()
}

#[test]
fn find_byte_stops_at_first_match() {
    assert_eq!(find_byte(b"ab;cd;e", 0, b';'), 2);
    assert_eq!(find_byte(b"ab;cd;e", 3, b';'), 5);
    assert_eq!(find_byte(b"ab;cd;e", 6, b';'), 7);
    assert_eq!(find_byte(b"", 0, b';'), 0);
}

#[test]
fn chunk_end_moves_to_after_next_separator() {
    let input = b"aa;1\nbb;2\ncc;3\n";
    assert_eq!(chunk_end(input, 0, 2), 5);
    assert_eq!(chunk_end(input, 0, 4), 5);
    assert_eq!(chunk_end(input, 0, 5), 10);
    assert_eq!(chunk_end(input, 5, 100), 15);
    assert_eq!(chunk_end(input, 10, 0), 15);
}

#[test]
fn chunk_end_without_following_separator_is_input_end() {
    let input = b"aa;1\nbb;2";
    assert_eq!(chunk_end(input, 0, 6), 9);
    assert_eq!(chunk_end(input, 0, usize::MAX), 9);
}

#[test]
fn split_chunks_exact_spans() {
    let input = b"aa;1\nbb;2\ncc;3\n";
    let chunks = split_chunks(input, 3);
    assert_eq!(
        chunks,
        vec![Span { start: 0, end: 5 }, Span { start: 5, end: 10 }, Span { start: 10, end: 15 }]
    );
    assert_eq!(split_chunks(input, 100), vec![Span { start: 0, end: 15 }]);
    assert_eq!(split_chunks(b"", 4), vec![]);
}

#[test]
fn chunks_cover_input_for_every_stride() {
    let input = sample();
    for stride in 0..input.len() + 3 {
        let mut joined: Vec<u8> = Vec::new();
        let mut at = 0;
        for span in split_chunks(&input, stride) {
            assert_eq!(span.start, at);
            assert!(span.start < span.end);
            joined.extend_from_slice(&input[span.start..span.end]);
            at = span.end;
        }
        assert_eq!(joined, input);
    }
}

#[test]
fn chunks_end_on_record_separator() {
    let input = b"alpha;1.5\nbeta;-2.25\nalpha;3\ngamma;10.125".to_vec();
    for stride in 0..input.len() + 3 {
        let chunks = split_chunks(&input, stride);
        for (i, span) in chunks.iter().enumerate() {
            if i + 1 < chunks.len() {
                assert_eq!(input[span.end - 1], b'\n');
            } else {
                assert_eq!(span.end, input.len());
            }
        }
    }
}

#[test]
fn first_read_is_held_back() {
    let mut scanner = StreamScanner::new();
    assert_eq!(scanner.push(b"A;1.0\nB;2"), None);
    assert_eq!(scanner.push(b".0\nC;3.0\n"), Some(b"A;1.0\nB;2.0\n".to_vec()));
    assert_eq!(scanner.push(b"D;4.0\n"), Some(b"C;3.0\n".to_vec()));
    assert_eq!(scanner.finish(), Some(b"D;4.0\n".to_vec()));
}

#[test]
fn read_without_separator_stays_pending() {
    let mut scanner = StreamScanner::new();
    assert_eq!(scanner.push(b"A;1"), None);
    assert_eq!(scanner.push(b"23"), None);
    assert_eq!(scanner.push(b"4.5\nB;1\n"), Some(b"A;1234.5\n".to_vec()));
    assert_eq!(scanner.finish(), Some(b"B;1\n".to_vec()));
}

#[test]
fn finish_without_reads_gives_no_chunk() {
    assert_eq!(StreamScanner::new().finish(), None);
    assert_eq!(chunk_reads(&vec![]), Vec::<Vec<u8>>::new());
}

#[test]
fn finish_hands_on_unterminated_tail() {
    let mut scanner = StreamScanner::new();
    assert_eq!(scanner.push(b"A;1.0\nB;2.0"), None);
    assert_eq!(scanner.finish(), Some(b"A;1.0\nB;2.0".to_vec()));
}

#[test]
fn chunk_reads_splits_record_across_reads() {
    let reads = vec![b"A;12".to_vec(), b"3.0\nB;4.0\n".to_vec()];
    assert_eq!(chunk_reads(&reads), vec![b"A;123.0\n".to_vec(), b"B;4.0\n".to_vec()]);
}

#[test]
fn stream_chunks_cover_and_align_for_every_read_size() {
    let input = sample();
    for size in 1..input.len() + 2 {
        let reads: Vec<Vec<u8>> = input.chunks(size).map(|c| c.to_vec()).collect();
        let chunks = chunk_reads(&reads);
        assert_eq!(chunks.concat(), input);
        for (i, chunk) in chunks.iter().enumerate() {
            assert!(!chunk.is_empty());
            if i + 1 < chunks.len() {
                assert_eq!(*chunk.last().unwrap(), b'\n');
            }
        }
    }
}
