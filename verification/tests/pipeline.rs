use core::cmp::Ordering;

use extsort::lines::split_records;
use extsort::pipeline::external_sort;
use extsort::record::{Item, SortError};

const SAMPLE: &[u8] = b"3..banana\r\n1..apple\n\n10..apple\r\n7..cherry\n2..fig\n-4..apple\n3..banana\n12..date\n007..fig\n7..fig\n";

fn sorted(input: &[u8], capacity: usize) -> Vec<u8> {
    external_sort(input, capacity).unwrap()
}

#[test]
fn the_example_is_sorted_by_text_then_by_integer() {
    assert_eq!(
        sorted(b"3..banana\n1..apple\n10..apple\n", 100),
        b"1..apple\n10..apple\n3..banana\n".to_vec()
    );
}

#[test]
fn a_buffer_as_long_as_the_first_line_keeps_the_lines_whole() {
    let input = b"3..banana\n1..apple\n10..apple\n";
    assert_eq!(sorted(input, 9), b"1..apple\n10..apple\n3..banana\n".to_vec());
    assert_eq!(sorted(b"3..banana\n", 9), b"3..banana\n".to_vec());
    assert_eq!(sorted(b"3..banana", 9), b"3..banana\n".to_vec());
}

#[test]
fn the_output_is_in_order() {
    for capacity in [10, 11, 16, 33, 1000] {
        let out = sorted(SAMPLE, capacity);
        let lines: Vec<Item> =
            split_records(&out).into_iter().map(|line| Item::parse(line).unwrap()).collect();
        for pair in lines.windows(2) {
            assert_ne!(pair[0].cmp(&pair[1]), Ordering::Greater, "capacity {}", capacity);
        }
    }
}

#[test]
fn the_output_holds_the_lines_of_the_input() {
    let mut expected = split_records(SAMPLE);
    expected.sort();
    for capacity in [10, 11, 16, 33, 1000] {
        let mut lines = split_records(&sorted(SAMPLE, capacity));
        lines.sort();
        assert_eq!(lines, expected, "capacity {}", capacity);
    }
}

#[test]
fn the_capacity_does_not_show_in_the_output() {
    let whole = sorted(SAMPLE, 1000);
    assert_eq!(
        whole,
        b"-4..apple\n1..apple\n10..apple\n3..banana\n3..banana\n7..cherry\n12..date\n2..fig\n007..fig\n7..fig\n"
            .to_vec()
    );
    for capacity in 10..120 {
        assert_eq!(sorted(SAMPLE, capacity), whole, "capacity {}", capacity);
    }
}

#[test]
fn lines_with_the_same_text_stand_in_the_order_of_their_integers() {
    let input = b"30..k\n-1..k\n4..k\n100..k\n0..k\n";
    for capacity in [6, 7, 12, 100] {
        assert_eq!(sorted(input, capacity), b"-1..k\n0..k\n4..k\n30..k\n100..k\n".to_vec());
    }
}

#[test]
fn an_empty_input_gives_an_empty_output() {
    assert_eq!(sorted(b"", 8), Vec::<u8>::new());
    assert_eq!(sorted(b"\n\r\n\n", 2), Vec::<u8>::new());
}

#[test]
fn a_line_longer_than_the_buffer_fails_the_sort() {
    assert_eq!(external_sort(b"3..banana\n1..apple\n", 8), Err(SortError::RecordTooLarge));
}

#[test]
fn a_line_that_is_no_record_fails_the_sort() {
    assert_eq!(external_sort(b"3..banana\napple\n", 100), Err(SortError::MalformedRecord));
    assert_eq!(external_sort(b"3..banana\nx..apple\n", 9), Err(SortError::MalformedRecord));
}

#[test]
fn a_line_that_is_too_long_counts_before_one_that_is_no_record() {
    assert_eq!(external_sort(b"apple\n3..banana\n", 8), Err(SortError::RecordTooLarge));
}

#[test]
fn a_buffer_of_no_bytes_sorts_an_input_without_lines() {
    assert_eq!(sorted(b"\n\n", 0), Vec::<u8>::new());
    assert_eq!(external_sort(b"1..a\n", 0), Err(SortError::RecordTooLarge));
}

#[test]
fn lines_that_tie_stand_as_they_stand_in_the_input() {
    assert_eq!(sorted(b"1.Ya\n1.Xa\n", 100), b"1.Ya\n1.Xa\n".to_vec());
    assert_eq!(sorted(b"1.Xa\n1.Ya\n", 100), b"1.Xa\n1.Ya\n".to_vec());
    assert_eq!(sorted(b"2..b\n1.Ya\n01.Xa\n1..a\n", 100), b"1.Ya\n01.Xa\n1..a\n2..b\n".to_vec());
}

#[test]
fn lines_that_tie_stand_as_they_stand_whatever_the_capacity() {
    let input = b"5.Zk\n9..m\n5.Yk\n1..a\n05.Xk\n9.Qm\n5.Wk\n+5.Vk\n1.Ba\n5.Uk\n";
    let whole = sorted(input, 1000);
    assert_eq!(
        whole,
        b"1..a\n1.Ba\n5.Zk\n5.Yk\n05.Xk\n5.Wk\n+5.Vk\n5.Uk\n9..m\n9.Qm\n".to_vec()
    );
    for capacity in 6..80 {
        assert_eq!(sorted(input, capacity), whole, "capacity {}", capacity);
    }
}

#[test]
fn sorting_two_parts_and_merging_them_is_sorting_the_whole() {
    let first = b"1.Ya\n3..c\n2.Ab\n";
    let second = b"2.Bb\n1.Xa\n3.Zc\n";
    let whole: Vec<u8> = [&first[..], &second[..]].concat();
    let runs = vec![
        extsort::sorter::process_buffer(first).unwrap(),
        extsort::sorter::process_buffer(second).unwrap(),
    ];
    assert_eq!(
        extsort::merge::merge_runs(&runs),
        extsort::sorter::process_buffer(&whole)
    );
    assert_eq!(
        extsort::sorter::process_buffer(&whole),
        Ok(b"1.Ya\n1.Xa\n2.Ab\n2.Bb\n3..c\n3.Zc\n".to_vec())
    );
}
