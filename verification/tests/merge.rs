use extsort::by_fst::ByFst;
use extsort::frontier::MergeFrontier;
use extsort::engine::MergeEngine;
use extsort::merge::merge_runs;
use extsort::record::{Item, SortError};

fn item(line: &str) -> Item {
    Item::parse(line.as_bytes().to_vec()).unwrap()
}

fn popped(frontier: &mut MergeFrontier) -> Option<(Vec<u8>, usize)> {
    frontier.pop().map(|entry| (entry.0.1, entry.1))
}

#[test]
fn a_new_frontier_holds_nothing() {
    let mut frontier = MergeFrontier::new(3);
    assert_eq!(frontier.runs(), 3);
    assert!(frontier.pop().is_none());
}

#[test]
fn the_frontier_gives_out_the_least_head() {
    let mut frontier = MergeFrontier::new(3);
    frontier.push(ByFst(item("3..banana"), 0));
    frontier.push(ByFst(item("1..apple"), 1));
    frontier.push(ByFst(item("10..apple"), 2));
    assert_eq!(popped(&mut frontier), Some((b"1..apple".to_vec(), 1)));
    assert_eq!(popped(&mut frontier), Some((b"10..apple".to_vec(), 2)));
    assert_eq!(popped(&mut frontier), Some((b"3..banana".to_vec(), 0)));
    assert_eq!(popped(&mut frontier), None);
}

#[test]
fn of_equal_heads_the_frontier_gives_out_the_first_run() {
    let mut frontier = MergeFrontier::new(3);
    frontier.push(ByFst(item("1..a"), 2));
    frontier.push(ByFst(item("1..a"), 0));
    frontier.push(ByFst(item("1..a"), 1));
    assert_eq!(popped(&mut frontier), Some((b"1..a".to_vec(), 0)));
    assert_eq!(popped(&mut frontier), Some((b"1..a".to_vec(), 1)));
    assert_eq!(popped(&mut frontier), Some((b"1..a".to_vec(), 2)));
}

#[test]
fn of_heads_that_tie_the_frontier_gives_out_the_first_run() {
    let mut frontier = MergeFrontier::new(3);
    frontier.push(ByFst(item("1.Za"), 0));
    frontier.push(ByFst(item("01.Aa"), 2));
    frontier.push(ByFst(item("1.Ya"), 1));
    assert_eq!(popped(&mut frontier), Some((b"1.Za".to_vec(), 0)));
    assert_eq!(popped(&mut frontier), Some((b"1.Ya".to_vec(), 1)));
    assert_eq!(popped(&mut frontier), Some((b"01.Aa".to_vec(), 2)));
}

#[test]
fn a_run_gets_a_new_head_after_its_head_was_taken() {
    let mut frontier = MergeFrontier::new(2);
    frontier.push(ByFst(item("1..a"), 0));
    frontier.push(ByFst(item("2..b"), 1));
    assert_eq!(popped(&mut frontier), Some((b"1..a".to_vec(), 0)));
    frontier.push(ByFst(item("3..c"), 0));
    assert_eq!(popped(&mut frontier), Some((b"2..b".to_vec(), 1)));
    assert_eq!(popped(&mut frontier), Some((b"3..c".to_vec(), 0)));
}

#[test]
fn an_engine_without_runs_is_done() {
    let engine = MergeEngine::new(0);
    assert_eq!(engine.awaited_stream(), None);
}

#[test]
fn an_engine_takes_the_first_lines_then_the_line_of_the_run_it_gave_out() {
    let mut engine = MergeEngine::new(2);
    assert_eq!(engine.awaited_stream(), Some(0));
    assert_eq!(engine.feed(b"2..b".to_vec()), Ok(None));
    assert_eq!(engine.awaited_stream(), Some(1));
    assert_eq!(engine.feed(b"1..a".to_vec()), Ok(Some(b"1..a".to_vec())));
    assert_eq!(engine.awaited_stream(), Some(1));
    assert_eq!(engine.feed(b"3..c".to_vec()), Ok(Some(b"2..b".to_vec())));
    assert_eq!(engine.awaited_stream(), Some(0));
    assert_eq!(engine.feed(Vec::new()), Ok(Some(b"3..c".to_vec())));
    assert_eq!(engine.awaited_stream(), Some(1));
    assert_eq!(engine.feed(Vec::new()), Ok(None));
    assert_eq!(engine.awaited_stream(), None);
}

#[test]
fn an_engine_passes_over_runs_without_lines() {
    let mut engine = MergeEngine::new(3);
    assert_eq!(engine.feed(Vec::new()), Ok(None));
    assert_eq!(engine.feed(b"1..a".to_vec()), Ok(None));
    assert_eq!(engine.feed(Vec::new()), Ok(Some(b"1..a".to_vec())));
    assert_eq!(engine.awaited_stream(), Some(1));
    assert_eq!(engine.feed(Vec::new()), Ok(None));
    assert_eq!(engine.awaited_stream(), None);
}

#[test]
fn an_engine_refuses_a_line_that_is_no_record_and_stays_as_it_was() {
    let mut engine = MergeEngine::new(1);
    assert_eq!(engine.feed(b"broken".to_vec()), Err(SortError::MalformedRecord));
    assert_eq!(engine.awaited_stream(), Some(0));
    assert_eq!(engine.feed(b"1..a".to_vec()), Ok(Some(b"1..a".to_vec())));
}

#[test]
fn runs_are_merged_in_order() {
    let runs = vec![
        b"1..apple\n3..banana\n".to_vec(),
        b"10..apple\n2..cherry\n".to_vec(),
        b"0..banana\n".to_vec(),
    ];
    assert_eq!(
        merge_runs(&runs),
        Ok(b"1..apple\n10..apple\n0..banana\n3..banana\n2..cherry\n".to_vec())
    );
}

#[test]
fn empty_runs_add_nothing() {
    let runs = vec![Vec::new(), b"1..a\n".to_vec(), Vec::new()];
    assert_eq!(merge_runs(&runs), Ok(b"1..a\n".to_vec()));
    assert_eq!(merge_runs(&vec![Vec::new(), Vec::new()]), Ok(Vec::new()));
    assert_eq!(merge_runs(&Vec::new()), Ok(Vec::new()));
}

#[test]
fn lines_of_runs_lose_their_carriage_return() {
    let runs = vec![b"2..b\r\n".to_vec(), b"1..a".to_vec()];
    assert_eq!(merge_runs(&runs), Ok(b"1..a\n2..b\n".to_vec()));
}

#[test]
fn a_run_that_is_not_sorted_keeps_all_its_lines() {
    let runs = vec![b"2..b\n1..a\n".to_vec(), b"3..c\n".to_vec()];
    assert_eq!(merge_runs(&runs), Ok(b"2..b\n1..a\n3..c\n".to_vec()));
}

#[test]
fn a_run_with_a_line_that_is_no_record_fails_the_merge() {
    let runs = vec![b"1..a\n".to_vec(), b"2..b\nbroken\n".to_vec()];
    assert_eq!(merge_runs(&runs), Err(SortError::MalformedRecord));
}

#[test]
fn many_heads_come_out_in_order() {
    let count = 64;
    let mut frontier = MergeFrontier::new(count);
    let mut expected = Vec::new();
    for run in 0..count {
        let number = (run * 37 + 11) % 23;
        let line = format!("{}..k{:02}", number, (run * 29) % 17);
        expected.push((line.clone().into_bytes(), run));
        frontier.push(ByFst(item(&line), run));
    }
    expected.sort_by(|a, b| {
        let (x, y) = (item(core::str::from_utf8(&a.0).unwrap()), item(core::str::from_utf8(&b.0).unwrap()));
        x.cmp(&y).then(a.1.cmp(&b.1))
    });
    let mut got = Vec::new();
    while let Some(entry) = popped(&mut frontier) {
        got.push(entry);
    }
    assert_eq!(got, expected);
}

#[test]
fn heads_that_are_put_back_take_their_turn() {
    let mut frontier = MergeFrontier::new(5);
    let mut next = [0usize; 5];
    let lines: [[&str; 3]; 5] = [
        ["1..a", "5..c", "9..e"],
        ["2..a", "2..b", "2..f"],
        ["0..b", "1..b", "7..d"],
        ["3..a", "4..a", "5..a"],
        ["1..g", "2..g", "3..g"],
    ];
    for run in 0..5 {
        frontier.push(ByFst(item(lines[run][0]), run));
        next[run] = 1;
    }
    let mut got = Vec::new();
    while let Some((line, run)) = popped(&mut frontier) {
        got.push(String::from_utf8(line).unwrap());
        if next[run] < 3 {
            frontier.push(ByFst(item(lines[run][next[run]]), run));
            next[run] += 1;
        }
    }
    assert_eq!(
        got,
        vec![
            "1..a", "2..a", "3..a", "4..a", "5..a", "0..b", "1..b", "2..b", "5..c", "7..d",
            "9..e", "2..f", "1..g", "2..g", "3..g",
        ]
    );
}

#[test]
fn many_runs_are_merged_in_order() {
    let mut runs = Vec::new();
    let mut all = Vec::new();
    for run in 0..40usize {
        let mut lines: Vec<String> =
            (0..25usize).map(|i| format!("{}..key{:03}", run, (i * 40 + run * 7) % 1000)).collect();
        lines.sort_by(|a, b| a[a.find("..").unwrap()..].cmp(&b[b.find("..").unwrap()..]));
        all.extend(lines.iter().cloned());
        runs.push(lines.iter().map(|line| format!("{}\n", line)).collect::<String>().into_bytes());
    }
    all.sort_by(|a, b| item(a).cmp(&item(b)));
    let expected = all.iter().map(|line| format!("{}\n", line)).collect::<String>().into_bytes();
    assert_eq!(merge_runs(&runs), Ok(expected));
}

#[test]
fn of_lines_that_tie_those_of_the_earlier_run_come_first() {
    let runs = vec![b"1.Ya\n1.Za\n2..b\n".to_vec(), b"1.Xa\n2.Ab\n".to_vec()];
    assert_eq!(merge_runs(&runs), Ok(b"1.Ya\n1.Za\n1.Xa\n2..b\n2.Ab\n".to_vec()));
}
