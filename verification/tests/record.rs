use core::cmp::Ordering;

use extsort::lex::mismatch;
use extsort::number::parse_number;
use extsort::record::{find_delimiter, Item, SortError};

fn item(line: &str) -> Item {
    Item::parse(line.as_bytes().to_vec()).unwrap()
}

#[test]
fn mismatch_is_the_length_of_the_common_prefix() {
    assert_eq!(mismatch(b"apple", b"apply"), 4);
    assert_eq!(mismatch(b"app", b"apple"), 3);
    assert_eq!(mismatch(b"", b"apple"), 0);
    assert_eq!(mismatch(b"same", b"same"), 4);
}

#[test]
fn numbers_are_read_with_an_optional_sign() {
    assert_eq!(parse_number(b"0"), Some(0));
    assert_eq!(parse_number(b"10"), Some(10));
    assert_eq!(parse_number(b"+7"), Some(7));
    assert_eq!(parse_number(b"-7"), Some(-7));
    assert_eq!(parse_number(b"-0"), Some(0));
    assert_eq!(parse_number(b"00042"), Some(42));
}

#[test]
fn numbers_reach_the_limits_of_32_bits() {
    assert_eq!(parse_number(b"2147483647"), Some(i32::MAX));
    assert_eq!(parse_number(b"-2147483648"), Some(i32::MIN));
    assert_eq!(parse_number(b"2147483648"), None);
    assert_eq!(parse_number(b"-2147483649"), None);
    assert_eq!(parse_number(b"000000000000000000002147483647"), Some(i32::MAX));
    assert_eq!(parse_number(b"99999999999999999999999999"), None);
}

#[test]
fn what_is_no_number_is_not_read() {
    assert_eq!(parse_number(b""), None);
    assert_eq!(parse_number(b"+"), None);
    assert_eq!(parse_number(b"-"), None);
    assert_eq!(parse_number(b"12a"), None);
    assert_eq!(parse_number(b" 12"), None);
    assert_eq!(parse_number(b"1 "), None);
    assert_eq!(parse_number(b"--1"), None);
    assert_eq!(parse_number(b"1_000"), None);
}

#[test]
fn numbers_agree_with_the_standard_parser() {
    let samples: [&str; 12] =
        ["", "+", "-", "0", "-0", "+0", "17", "-17", "2147483647", "2147483648", "-2147483648", "1x"];
    for text in samples {
        assert_eq!(parse_number(text.as_bytes()), text.parse::<i32>().ok(), "{}", text);
    }
}

#[test]
fn find_delimiter_gives_the_first_one() {
    assert_eq!(find_delimiter(b"10..apple"), 2);
    assert_eq!(find_delimiter(b".x"), 0);
    assert_eq!(find_delimiter(b"no delimiter"), 12);
    assert_eq!(find_delimiter(b""), 0);
}

#[test]
fn parse_locates_the_first_delimiter() {
    let parsed = item("10..apple");
    assert_eq!(parsed.0, 2);
    assert_eq!(parsed.1, b"10..apple".to_vec());
    assert_eq!(parsed.seq(), 10);
    assert_eq!(parsed.key(), b"apple");
}

#[test]
fn parse_gives_the_fields_of_the_example_lines() {
    let banana = item("3..banana");
    assert_eq!((banana.seq(), banana.key()), (3, &b"banana"[..]));
    let apple = item("1..apple");
    assert_eq!((apple.seq(), apple.key()), (1, &b"apple"[..]));
    let other = item("10..apple");
    assert_eq!((other.seq(), other.key()), (10, &b"apple"[..]));
}

#[test]
fn the_text_begins_two_bytes_behind_the_delimiter() {
    assert_eq!(item("5. pear").key(), b"pear");
    assert_eq!(item("5.xpear").key(), b"pear");
    assert_eq!(item("5..a.b.c").key(), b"a.b.c");
    assert_eq!(item("5..").key(), b"");
    assert_eq!(item("5.").key(), b"");
}

#[test]
fn parse_rejects_a_line_without_delimiter() {
    assert_eq!(Item::parse(b"12 apple".to_vec()), Err(SortError::MalformedRecord));
    assert_eq!(Item::parse(b"".to_vec()), Err(SortError::MalformedRecord));
}

#[test]
fn parse_rejects_a_line_without_integer() {
    assert_eq!(Item::parse(b"..apple".to_vec()), Err(SortError::MalformedRecord));
    assert_eq!(Item::parse(b"x1..apple".to_vec()), Err(SortError::MalformedRecord));
    assert_eq!(Item::parse(b"1 ..apple".to_vec()), Err(SortError::MalformedRecord));
    assert_eq!(Item::parse(b"99999999999..apple".to_vec()), Err(SortError::MalformedRecord));
}

#[test]
fn serialize_gives_the_line_back() {
    let lines: [&[u8]; 4] = [b"3..banana", b"-4. x", b"+0..", &[b'7', b'.', 0xff, 0x00, 0x80]];
    for line in lines {
        assert_eq!(Item::parse(line.to_vec()).unwrap().serialize(), line.to_vec());
    }
}

#[test]
fn cmp_orders_by_text_then_by_integer() {
    assert_eq!(item("3..banana").cmp(&item("1..apple")), Ordering::Greater);
    assert_eq!(item("1..apple").cmp(&item("3..banana")), Ordering::Less);
    assert_eq!(item("1..apple").cmp(&item("10..apple")), Ordering::Less);
    assert_eq!(item("10..apple").cmp(&item("1..apple")), Ordering::Greater);
    assert_eq!(item("10..apple").cmp(&item("10..apple")), Ordering::Equal);
}

#[test]
fn cmp_takes_integers_by_value() {
    assert_eq!(item("9..apple").cmp(&item("10..apple")), Ordering::Less);
    assert_eq!(item("-2..apple").cmp(&item("1..apple")), Ordering::Less);
    assert_eq!(item("-2..apple").cmp(&item("-10..apple")), Ordering::Greater);
    assert_eq!(item("007..apple").cmp(&item("7..apple")), Ordering::Equal);
    assert_eq!(item("7.xapple").cmp(&item("7.yapple")), Ordering::Equal);
}

#[test]
fn cmp_takes_a_text_before_its_extensions() {
    assert_eq!(item("5..app").cmp(&item("1..apple")), Ordering::Less);
    assert_eq!(item("1..apple").cmp(&item("5..app")), Ordering::Greater);
    assert_eq!(item("5..").cmp(&item("1..a")), Ordering::Less);
}

#[test]
fn cmp_takes_text_byte_by_byte() {
    assert_eq!(item("1..Zebra").cmp(&item("1..apple")), Ordering::Less);
    let low = Item::parse(vec![b'1', b'.', b'.', 0x7f]).unwrap();
    let high = Item::parse(vec![b'1', b'.', b'.', 0x80]).unwrap();
    assert_eq!(low.cmp(&high), Ordering::Less);
}

#[test]
fn precedes_holds_of_records_that_are_ordered_before_or_tie() {
    assert!(item("1..apple").precedes(&item("3..banana")));
    assert!(!item("3..banana").precedes(&item("1..apple")));
    assert!(item("1..apple").precedes(&item("1..apple")));
    assert!(item("007..apple").precedes(&item("7..apple")));
    assert!(item("7..apple").precedes(&item("007..apple")));
    assert!(item("1.Ya").precedes(&item("1.Xa")));
    assert!(item("1.Xa").precedes(&item("1.Ya")));
}
