use core::cmp::Ordering;

use extsort::by_fst::ByFst;

#[test]
fn pairs_are_equal_by_their_first_components() {
    assert!(ByFst(1, "a") == ByFst(1, "b"));
    assert!(ByFst(1, "a") != ByFst(2, "a"));
}

#[test]
fn pairs_are_ordered_by_their_first_components() {
    assert_eq!(ByFst(1, "z").partial_cmp(&ByFst(2, "a")), Some(Ordering::Less));
    assert_eq!(ByFst(2, "a").partial_cmp(&ByFst(1, "z")), Some(Ordering::Greater));
    assert_eq!(ByFst(2, "a").partial_cmp(&ByFst(2, "z")), Some(Ordering::Equal));
    assert!(ByFst(1, 9) < ByFst(2, 0));
}

#[test]
fn cmp_takes_the_first_components() {
    assert_eq!(ByFst(1, "z").cmp(&ByFst(2, "a")), Ordering::Less);
    assert_eq!(ByFst(3, "a").cmp(&ByFst(2, "z")), Ordering::Greater);
    assert_eq!(ByFst(2, "a").cmp(&ByFst(2, "z")), Ordering::Equal);
}
