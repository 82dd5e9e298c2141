use extsort::record::{Item, SortError};
use extsort::sorter::{parse_all, process_buffer, sorted_order, write_lines};

fn items(lines: &[&str]) -> Vec<Item> {
    parse_all(lines.iter().map(|line| line.as_bytes().to_vec()).collect()).unwrap()
}

#[test]
fn parse_all_reads_every_line() {
    let parsed = items(&["3..banana", "1..apple"]);
    assert_eq!(parsed.len(), 2);
    assert_eq!(parsed[0], Item(1, b"3..banana".to_vec()));
    assert_eq!(parsed[1], Item(1, b"1..apple".to_vec()));
}

#[test]
fn parse_all_fails_on_a_line_that_is_no_record() {
    let lines = vec![b"3..banana".to_vec(), b"apple".to_vec(), b"1..apple".to_vec()];
    assert_eq!(parse_all(lines), Err(SortError::MalformedRecord));
}

#[test]
fn sorted_order_names_the_items_in_order() {
    let parsed = items(&["3..banana", "1..apple", "10..apple"]);
    assert_eq!(sorted_order(&parsed), vec![1, 2, 0]);
}

#[test]
fn sorted_order_names_every_item_once() {
    let parsed = items(&["5..e", "4..d", "3..c", "2..b", "1..a", "5..e", "0..a", "9..c"]);
    let mut order = sorted_order(&parsed);
    order.sort();
    assert_eq!(order, vec![0, 1, 2, 3, 4, 5, 6, 7]);
}

#[test]
fn sorted_order_of_nothing_is_empty() {
    assert_eq!(sorted_order(&Vec::new()), Vec::<usize>::new());
}

#[test]
fn write_lines_follows_the_order() {
    let parsed = items(&["3..banana", "1..apple"]);
    assert_eq!(write_lines(&parsed, &vec![1, 0, 1]), b"1..apple\n3..banana\n1..apple\n".to_vec());
    assert_eq!(write_lines(&parsed, &Vec::new()), Vec::<u8>::new());
}

#[test]
fn process_buffer_sorts_the_example() {
    assert_eq!(
        process_buffer(b"3..banana\n1..apple\n10..apple\n"),
        Ok(b"1..apple\n10..apple\n3..banana\n".to_vec())
    );
}

#[test]
fn process_buffer_ends_every_line_with_one_newline() {
    assert_eq!(
        process_buffer(b"\r\n2..b\r\n\r\n1..a"),
        Ok(b"1..a\n2..b\n".to_vec())
    );
    assert_eq!(process_buffer(b""), Ok(Vec::new()));
    assert_eq!(process_buffer(b"\n\n"), Ok(Vec::new()));
}

#[test]
fn process_buffer_keeps_lines_that_occur_twice() {
    assert_eq!(
        process_buffer(b"2..b\n1..a\n2..b\n1..a\n"),
        Ok(b"1..a\n1..a\n2..b\n2..b\n".to_vec())
    );
}

#[test]
fn process_buffer_leaves_records_that_tie_as_they_stand() {
    assert_eq!(process_buffer(b"1.Ya\n1.Xa\n"), Ok(b"1.Ya\n1.Xa\n".to_vec()));
    assert_eq!(process_buffer(b"1.Xa\n1.Ya\n"), Ok(b"1.Xa\n1.Ya\n".to_vec()));
    assert_eq!(
        process_buffer(b"7..a\n9..b\n007..a\n7.xa\n0..a\n+7..a\n"),
        Ok(b"0..a\n7..a\n007..a\n7.xa\n+7..a\n9..b\n".to_vec())
    );
}

#[test]
fn sorted_order_names_records_that_tie_as_they_stand() {
    let parsed = items(&["7..a", "9..b", "007..a", "7.xa", "0..a", "+7..a"]);
    assert_eq!(sorted_order(&parsed), vec![4, 0, 2, 3, 5, 1]);
}

#[test]
fn process_buffer_fails_on_a_line_that_is_no_record() {
    assert_eq!(process_buffer(b"1..a\nbroken\n"), Err(SortError::MalformedRecord));
    assert_eq!(process_buffer(b"1..a\nx..b\n"), Err(SortError::MalformedRecord));
}

#[test]
fn process_buffer_sorts_many_lines() {
    let mut input = Vec::new();
    let mut expected = Vec::new();
    for i in (0..200).rev() {
        input.extend_from_slice(format!("{}..key{:03}\n", i % 7, i).as_bytes());
    }
    for i in 0..200 {
        expected.extend_from_slice(format!("{}..key{:03}\n", i % 7, i).as_bytes());
    }
    assert_eq!(process_buffer(&input), Ok(expected));
}

#[test]
fn sorted_order_names_equal_lines_as_they_stand() {
    let parsed = items(&["2..b", "1..a", "2..b", "1..a", "2..b"]);
    assert_eq!(sorted_order(&parsed), vec![1, 3, 0, 2, 4]);
}
