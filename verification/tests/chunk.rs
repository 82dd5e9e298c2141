use extsort::chunk::{find_last_terminator, split_chunks, ChunkProducer};
use extsort::lines::split_records;
use extsort::record::SortError;

fn chunks(input: &[u8], capacity: usize) -> Vec<Vec<u8>> {
    split_chunks(input, capacity).unwrap()
}

#[test]
fn the_last_terminator_is_found() {
    assert_eq!(find_last_terminator(b"a\nb\nc"), Some(3));
    assert_eq!(find_last_terminator(b"a\nb\r"), Some(3));
    assert_eq!(find_last_terminator(b"\nabc"), Some(0));
    assert_eq!(find_last_terminator(b"abc"), None);
    assert_eq!(find_last_terminator(b""), None);
}

#[test]
fn a_short_input_is_one_chunk() {
    assert_eq!(chunks(b"1..a\n2..b\n", 100), vec![b"1..a\n2..b\n".to_vec()]);
    assert_eq!(chunks(b"", 4), vec![Vec::<u8>::new()]);
}

#[test]
fn a_full_buffer_is_cut_at_its_last_terminator() {
    // The buffer holds "1..a\n2..b\n3." and is cut before the second newline.
    assert_eq!(
        chunks(b"1..a\n2..b\n3..c\n", 12),
        vec![b"1..a\n2..b".to_vec(), b"\n3..c\n".to_vec()]
    );
}

#[test]
fn an_input_as_long_as_the_buffer_is_cut() {
    assert_eq!(chunks(b"1..a\n2..b\n", 10), vec![b"1..a\n2..b".to_vec(), b"\n".to_vec()]);
}

#[test]
fn a_buffer_that_begins_with_its_only_terminator_is_cut_behind_it() {
    assert_eq!(
        chunks(b"\n1..abc\n", 7),
        vec![b"\n".to_vec(), b"1..abc".to_vec(), b"\n".to_vec()]
    );
}

#[test]
fn a_line_as_long_as_the_buffer_stays_whole() {
    assert_eq!(
        chunks(b"3..banana\n1..apple\n10..apple\n", 9),
        vec![
            b"3..banana".to_vec(),
            b"\n".to_vec(),
            b"1..apple".to_vec(),
            b"\n".to_vec(),
            b"10..apple".to_vec(),
            b"\n".to_vec(),
        ]
    );
}

#[test]
fn a_line_longer_than_the_buffer_is_refused() {
    assert_eq!(split_chunks(b"12..abcdefgh\n", 5), Err(SortError::RecordTooLarge));
    assert_eq!(split_chunks(b"1..a\n12..abcdefgh", 8), Err(SortError::RecordTooLarge));
    assert_eq!(split_chunks(b"3..banana\n", 8), Err(SortError::RecordTooLarge));
    assert_eq!(split_chunks(b"ab", 1), Err(SortError::RecordTooLarge));
}

#[test]
fn a_buffer_of_one_byte_takes_lines_of_one_byte() {
    assert_eq!(
        chunks(b"a\nb\n", 1),
        vec![b"a".to_vec(), b"\n".to_vec(), b"b".to_vec(), b"\n".to_vec(), Vec::new()]
    );
}

#[test]
fn the_chunks_are_the_input() {
    let input = b"3..banana\r\n1..apple\n\n10..apple\r\n7..cherry\n2..fig";
    for capacity in 10..60 {
        let joined: Vec<u8> = chunks(input, capacity).concat();
        assert_eq!(joined, input.to_vec(), "capacity {}", capacity);
    }
}

#[test]
fn no_chunk_is_longer_than_the_buffer() {
    let input = b"3..banana\r\n1..apple\n\n10..apple\r\n7..cherry\n2..fig";
    for capacity in 10..60 {
        for chunk in chunks(input, capacity) {
            assert!(chunk.len() <= capacity, "capacity {}", capacity);
        }
    }
}

#[test]
fn the_chunks_hold_the_lines_of_the_input() {
    let input = b"3..banana\r\n1..apple\n\n10..apple\r\n7..cherry\n2..fig";
    let whole = split_records(input);
    for capacity in 10..60 {
        let mut lines = Vec::new();
        for chunk in chunks(input, capacity) {
            lines.extend(split_records(&chunk));
        }
        assert_eq!(lines, whole, "capacity {}", capacity);
    }
}

#[test]
fn a_producer_keeps_what_follows_the_cut() {
    let mut producer = ChunkProducer::new(8);
    assert_eq!(producer.room(), 8);
    let first = producer.fill(b"1..a\n2..").unwrap();
    assert_eq!(first.chunk, b"1..a".to_vec());
    assert!(!first.last);
    assert_eq!(producer.room(), 4);
    let second = producer.fill(b"b\n").unwrap();
    assert_eq!(second.chunk, b"\n2..b\n".to_vec());
    assert!(second.last);
    assert_eq!(producer.room(), 8);
}

#[test]
fn a_producer_ends_with_an_empty_chunk_behind_a_full_buffer() {
    let mut producer = ChunkProducer::new(4);
    let first = producer.fill(b"1..a").unwrap();
    assert_eq!(first.chunk, b"1..a".to_vec());
    assert!(!first.last);
    let second = producer.fill(b"").unwrap();
    assert_eq!(second.chunk, Vec::<u8>::new());
    assert!(second.last);
}

#[test]
fn a_producer_refuses_to_go_on_with_a_line_that_filled_the_buffer() {
    let mut producer = ChunkProducer::new(4);
    let first = producer.fill(b"1..a").unwrap();
    assert_eq!(first.chunk, b"1..a".to_vec());
    assert_eq!(producer.fill(b"bcd\n").err(), Some(SortError::RecordTooLarge));
    // Nothing has changed: a terminator is still accepted.
    let next = producer.fill(b"\n2.").unwrap();
    assert_eq!(next.chunk, b"\n2.".to_vec());
    assert!(next.last);
}

#[test]
fn a_buffer_of_no_bytes_takes_no_line() {
    assert_eq!(split_chunks(b"a", 0), Err(SortError::RecordTooLarge));
    assert_eq!(split_chunks(b"\n1..a\n", 0), Err(SortError::RecordTooLarge));
    assert_eq!(chunks(b"\n\r\n", 0), vec![b"\n\r\n".to_vec()]);
    assert_eq!(chunks(b"", 0), vec![Vec::<u8>::new()]);
}
