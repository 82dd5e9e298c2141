use extsort::spill::SpillCounter;

#[test]
fn numbers_start_at_one_and_have_no_gaps() {
    let mut counter = SpillCounter::new();
    assert_eq!(counter.last(), 0);
    assert_eq!(counter.allocate(), Some(1));
    assert_eq!(counter.allocate(), Some(2));
    assert_eq!(counter.allocate(), Some(3));
    assert_eq!(counter.last(), 3);
}
