use extsort::lines::{split_records, terminates};
use extsort::stream::{read_line_bytes, strip_line_end, ByteReader};

fn lines(buffer: &[u8]) -> Vec<Vec<u8>> {
    split_records(buffer)
}

#[test]
fn newline_and_carriage_return_end_a_line() {
    assert!(terminates(b'\n'));
    assert!(terminates(b'\r'));
    assert!(!terminates(b'.'));
    assert!(!terminates(0));
}

#[test]
fn a_buffer_is_taken_apart_at_its_terminators() {
    assert_eq!(lines(b"1..a\n2..b\n"), vec![b"1..a".to_vec(), b"2..b".to_vec()]);
    assert_eq!(lines(b"1..a\r\n2..b\r\n"), vec![b"1..a".to_vec(), b"2..b".to_vec()]);
    assert_eq!(lines(b"1..a\r2..b"), vec![b"1..a".to_vec(), b"2..b".to_vec()]);
}

#[test]
fn empty_lines_are_left_out() {
    assert_eq!(lines(b"\n\n1..a\n\n\n2..b\n\n"), vec![b"1..a".to_vec(), b"2..b".to_vec()]);
    assert_eq!(lines(b""), Vec::<Vec<u8>>::new());
    assert_eq!(lines(b"\n\r\n"), Vec::<Vec<u8>>::new());
}

#[test]
fn a_last_line_needs_no_terminator() {
    assert_eq!(lines(b"1..a\n2..b"), vec![b"1..a".to_vec(), b"2..b".to_vec()]);
    assert_eq!(lines(b"1..a"), vec![b"1..a".to_vec()]);
}

#[test]
fn the_line_end_is_taken_off() {
    let mut buffer = b"1..a\n".to_vec();
    strip_line_end(&mut buffer);
    assert_eq!(buffer, b"1..a".to_vec());
    let mut buffer = b"1..a\r\n".to_vec();
    strip_line_end(&mut buffer);
    assert_eq!(buffer, b"1..a".to_vec());
}

#[test]
fn only_one_line_end_is_taken_off() {
    let mut buffer = b"1..a\r".to_vec();
    strip_line_end(&mut buffer);
    assert_eq!(buffer, b"1..a\r".to_vec());
    let mut buffer = b"1..a\n\n".to_vec();
    strip_line_end(&mut buffer);
    assert_eq!(buffer, b"1..a\n".to_vec());
    let mut buffer = b"1..a\r\r\n".to_vec();
    strip_line_end(&mut buffer);
    assert_eq!(buffer, b"1..a\r".to_vec());
    let mut buffer = b"\n".to_vec();
    strip_line_end(&mut buffer);
    assert_eq!(buffer, Vec::<u8>::new());
    let mut buffer = Vec::<u8>::new();
    strip_line_end(&mut buffer);
    assert_eq!(buffer, Vec::<u8>::new());
}

#[test]
fn read_until_takes_the_byte_it_reads_up_to() {
    let data = b"ab;cd;e";
    let mut reader = ByteReader::new(data);
    let mut buffer = Vec::new();
    assert_eq!(reader.read_until(b';', &mut buffer), 3);
    assert_eq!(buffer, b"ab;".to_vec());
    assert_eq!(reader.read_until(b';', &mut buffer), 3);
    assert_eq!(buffer, b"ab;cd;".to_vec());
    assert_eq!(reader.read_until(b';', &mut buffer), 1);
    assert_eq!(buffer, b"ab;cd;e".to_vec());
    assert_eq!(reader.read_until(b';', &mut buffer), 0);
    assert_eq!(buffer, b"ab;cd;e".to_vec());
}

#[test]
fn lines_are_read_one_after_the_other() {
    let data = b"1..a\n2..b\r\n3..c";
    let mut reader = ByteReader::new(data);
    let mut read = Vec::new();
    for _ in 0..5 {
        let mut buffer = Vec::new();
        read_line_bytes(&mut reader, &mut buffer);
        read.push(buffer);
    }
    assert_eq!(
        read,
        vec![b"1..a".to_vec(), b"2..b".to_vec(), b"3..c".to_vec(), Vec::new(), Vec::new()]
    );
}

#[test]
fn a_line_is_read_behind_what_the_buffer_holds() {
    let data = b"b\nc\n";
    let mut reader = ByteReader::new(data);
    let mut buffer = b"a".to_vec();
    read_line_bytes(&mut reader, &mut buffer);
    assert_eq!(buffer, b"ab".to_vec());
}
