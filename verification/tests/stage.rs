use extsort::stage::OutputStage;

#[test]
fn lines_are_collected_until_the_next_would_not_fit() {
    let mut stage = OutputStage::new(12);
    assert_eq!(stage.push_line(b"1..a"), None);
    assert_eq!(stage.push_line(b"2..b"), None);
    assert_eq!(stage.push_line(b"3..c"), Some(b"1..a\n2..b\n".to_vec()));
    assert_eq!(stage.finish(), b"3..c\n".to_vec());
}

#[test]
fn lines_that_fill_the_stage_exactly_are_kept() {
    let mut stage = OutputStage::new(10);
    assert_eq!(stage.push_line(b"1..a"), None);
    assert_eq!(stage.push_line(b"2..b"), None);
    assert_eq!(stage.finish(), b"1..a\n2..b\n".to_vec());
}

#[test]
fn a_line_longer_than_the_stage_is_handed_back_alone() {
    let mut stage = OutputStage::new(4);
    assert_eq!(stage.push_line(b"1..a"), None);
    assert_eq!(stage.push_line(b"2..bcdefg"), Some(b"1..a\n".to_vec()));
    assert_eq!(stage.push_line(b"3..c"), Some(b"2..bcdefg\n".to_vec()));
    assert_eq!(stage.finish(), b"3..c\n".to_vec());
}

#[test]
fn an_empty_stage_hands_back_nothing() {
    assert_eq!(OutputStage::new(8).finish(), Vec::<u8>::new());
}

#[test]
fn all_that_is_handed_back_is_the_lines_in_order() {
    let lines: [&[u8]; 6] = [b"1..a", b"22..bb", b"3..", b"4..dddddddd", b"5..e", b"6..f"];
    for capacity in 0..40 {
        let mut stage = OutputStage::new(capacity);
        let mut written = Vec::new();
        let mut expected = Vec::new();
        for line in lines {
            if let Some(bytes) = stage.push_line(line) {
                written.extend(bytes);
            }
            expected.extend_from_slice(line);
            expected.push(b'\n');
        }
        written.extend(stage.finish());
        assert_eq!(written, expected, "capacity {}", capacity);
    }
}
