//! Sorting one chunk into a run.

use vstd::prelude::*;
use vstd::relations::*;
use vstd::seq_lib::*;

use crate::lines::{
    all_lines, is_line, join_lines, lemma_records_are_lines, lemma_records_of_joined, lines_of,
    records, split_records, NEWLINE,
};
use crate::record::{
    comes_before, comparator_order, lemma_comes_before_transitive, lemma_trichotomy, ties,
    well_formed, Item, SortError,
};
use crate::stable::{
    class_of, is_stable_sort, lemma_class_add, lemma_class_none, lemma_class_push, same_ties,
};

verus! {

/// The lines that `items` hold.
pub open spec fn item_lines(items: Seq<Item>) -> Seq<Seq<u8>> {
    items.map_values(|item: Item| item@)
}

/// Every member of `items` is a located record.
pub open spec fn all_wf(items: Seq<Item>) -> bool {
    forall|i: int| 0 <= i < items.len() ==> (#[trigger] items[i]).wf()
}

/// Every member of `lines` is a record.
pub open spec fn all_well_formed(lines: Seq<Seq<u8>>) -> bool {
    forall|i: int| 0 <= i < lines.len() ==> well_formed(#[trigger] lines[i])
}

/// Reads every line of `lines` as a record. Fails with `MalformedRecord`
/// exactly when one of them is none.
pub fn parse_all(lines: Vec<Vec<u8>>) -> (r: Result<Vec<Item>, SortError>)
    ensures
        match r {
            Ok(items) => all_well_formed(lines_of(lines@)) && all_wf(items@) && item_lines(items@)
                == lines_of(lines@),
            Err(e) => e == SortError::MalformedRecord && !all_well_formed(lines_of(lines@)),
        },
{
    let mut items: Vec<Item> = Vec::new();
    let ghost all = lines_of(lines@);
    for line in it: lines
        invariant
            it.seq() == lines@,
            all == lines_of(lines@),
            items@.len() == it.index(),
            all_wf(items@),
            all_well_formed(all.take(it.index() as int)),
            item_lines(items@) == all.take(it.index() as int),
    {
        let ghost at = it.index() as int;
        proof {
            assert(all[at] == line@);
        }
        match Item::parse(line) {
            Ok(item) => {
                proof {
                    assert(item@ == all[at]);
                    assert(item_lines(items@.push(item)) =~= item_lines(items@).push(item@));
                    assert(item_lines(items@.push(item)) =~= all.take(at + 1));
                    assert forall|i: int| 0 <= i < at + 1 implies well_formed(
                        #[trigger] all.take(at + 1)[i],
                    ) by {
                        if i < at {
                            assert(all.take(at + 1)[i] == all.take(at)[i]);
                        }
                    }
                }
                items.push(item);
            },
            Err(e) => {
                return Err(e);
            },
        }
    }
    proof {
        assert(all.take(all.len() as int) =~= all);
    }
    Ok(items)
}

/// The members of `lines` that `order` names, in the order in which it names
/// them.
pub open spec fn select(lines: Seq<Seq<u8>>, order: Seq<usize>) -> Seq<Seq<u8>> {
    order.map_values(|i: usize| lines[i as int])
}

/// Every member of `order` names one of `n` things.
pub open spec fn in_range(order: Seq<usize>, n: int) -> bool {
    forall|k: int| 0 <= k < order.len() ==> #[trigger] order[k] < n
}

/// Lines that are the same lines as lines that can stand in a buffer can
/// stand in a buffer.
pub proof fn lemma_same_lines_are_lines(arranged: Seq<Seq<u8>>, lines: Seq<Seq<u8>>)
    requires
        arranged.to_multiset() == lines.to_multiset(),
        all_lines(lines),
    ensures
        all_lines(arranged),
{
    assert forall|i: int| 0 <= i < arranged.len() implies is_line(#[trigger] arranged[i]) by {
        assert(arranged.contains(arranged[i]));
        to_multiset_contains(arranged, arranged[i]);
        to_multiset_contains(lines, arranged[i]);
        let j = choose|j: int| 0 <= j < lines.len() && lines[j] == arranged[i];
        assert(is_line(lines[j]));
    }
}

/// Lines that are the same lines as records are records.
pub proof fn lemma_same_lines_well_formed(arranged: Seq<Seq<u8>>, lines: Seq<Seq<u8>>)
    requires
        arranged.to_multiset() == lines.to_multiset(),
        all_well_formed(lines),
    ensures
        all_well_formed(arranged),
{
    assert forall|i: int| 0 <= i < arranged.len() implies well_formed(#[trigger] arranged[i]) by {
        assert(arranged.contains(arranged[i]));
        to_multiset_contains(arranged, arranged[i]);
        to_multiset_contains(lines, arranged[i]);
        let j = choose|j: int| 0 <= j < lines.len() && lines[j] == arranged[i];
        assert(well_formed(lines[j]));
    }
}

/// Line `a` is written before line `b`, where they are the lines at `a` and `b`
/// of `lines`: it is ordered first, or they tie and `a` stands first.
pub open spec fn written_before(lines: Seq<Seq<u8>>, a: usize, b: usize) -> bool {
    comes_before(lines[a as int], lines[b as int]) || (ties(lines[a as int], lines[b as int]) && a
        < b)
}

/// `order` names lines in the order in which they are written out, and of
/// lines that tie the one that stands first in `lines` first. It names no
/// line twice.
pub open spec fn in_written_order(lines: Seq<Seq<u8>>, order: Seq<usize>) -> bool {
    forall|k: int, l: int|
        0 <= k < l < order.len() ==> written_before(lines, #[trigger] order[k], #[trigger] order[l])
}

/// Every member of `order` lies from `lo` up to `hi`.
spec fn in_span(order: Seq<usize>, lo: int, hi: int) -> bool {
    forall|k: int| 0 <= k < order.len() ==> lo <= #[trigger] order[k] < hi
}

/// Being written before is transitive.
proof fn lemma_written_before_transitive(lines: Seq<Seq<u8>>, a: usize, b: usize, c: usize)
    requires
        written_before(lines, a, b),
        written_before(lines, b, c),
    ensures
        written_before(lines, a, c),
{
    lemma_comes_before_transitive(lines[a as int], lines[b as int], lines[c as int]);
}

/// Lines that are named in written order are in order.
proof fn lemma_written_order_sorted(lines: Seq<Seq<u8>>, order: Seq<usize>)
    requires
        in_written_order(lines, order),
    ensures
        sorted_by(select(lines, order), comparator_order()),
{
    let chosen = select(lines, order);
    assert forall|k: int, l: int| 0 <= k < l < chosen.len() implies #[trigger] comparator_order()(
        chosen[k],
        chosen[l],
    ) by {
        assert(written_before(lines, order[k], order[l]));
    }
}

/// With the next line of the first selection merged in, the ties of what is
/// merged are still those of what was taken of the first selection, then
/// those of what was taken of the second: no line that was taken of the
/// second ties with the line that is merged in.
proof fn lemma_merge_left(
    merged: Seq<Seq<u8>>,
    first: Seq<Seq<u8>>,
    second: Seq<Seq<u8>>,
    line: Seq<u8>,
    x: Seq<u8>,
)
    requires
        class_of(merged, x) == class_of(first, x) + class_of(second, x),
        forall|k: int| 0 <= k < second.len() ==> comes_before(#[trigger] second[k], line),
    ensures
        class_of(merged.push(line), x) == class_of(first.push(line), x) + class_of(second, x),
{
    lemma_class_push(merged, line, x);
    lemma_class_push(first, line, x);
    if ties(x, line) {
        assert forall|k: int| 0 <= k < second.len() implies !ties(x, #[trigger] second[k]) by {
            lemma_trichotomy(second[k], line);
        }
        lemma_class_none(second, x);
        assert(class_of(first, x).push(line) + Seq::<Seq<u8>>::empty() =~= (class_of(first, x)
            + Seq::<Seq<u8>>::empty()).push(line));
    }
}

/// With the next line of the second selection merged in, the ties of what is
/// merged are still those of what was taken of the first selection, then
/// those of what was taken of the second.
proof fn lemma_merge_right(
    merged: Seq<Seq<u8>>,
    first: Seq<Seq<u8>>,
    second: Seq<Seq<u8>>,
    line: Seq<u8>,
    x: Seq<u8>,
)
    requires
        class_of(merged, x) == class_of(first, x) + class_of(second, x),
    ensures
        class_of(merged.push(line), x) == class_of(first, x) + class_of(second.push(line), x),
{
    lemma_class_push(merged, line, x);
    lemma_class_push(second, line, x);
    if ties(x, line) {
        assert(class_of(first, x) + class_of(second, x).push(line) =~= (class_of(first, x)
            + class_of(second, x)).push(line));
    }
}

/// Merges two sorted selections of `items` into one, lines that tie from the
/// first selection first. The first names items from `lo` up to `mid`, the
/// second items from `mid` up to `hi`.
fn merge_orders(
    items: &Vec<Item>,
    left: &Vec<usize>,
    right: &Vec<usize>,
    Ghost(lo): Ghost<int>,
    Ghost(mid): Ghost<int>,
    Ghost(hi): Ghost<int>,
) -> (out: Vec<usize>)
    requires
        all_wf(items@),
        0 <= lo <= mid <= hi <= items@.len(),
        in_span(left@, lo, mid),
        in_span(right@, mid, hi),
        in_written_order(item_lines(items@), left@),
        in_written_order(item_lines(items@), right@),
    ensures
        out@.len() == left@.len() + right@.len(),
        in_span(out@, lo, hi),
        in_written_order(item_lines(items@), out@),
        select(item_lines(items@), out@).to_multiset() == select(
            item_lines(items@),
            left@,
        ).to_multiset().add(select(item_lines(items@), right@).to_multiset()),
        forall|x: Seq<u8>|
            #[trigger] class_of(select(item_lines(items@), out@), x) == class_of(
                select(item_lines(items@), left@),
                x,
            ) + class_of(select(item_lines(items@), right@), x),
{
    broadcast use group_to_multiset_ensures;
    broadcast use vstd::multiset::group_multiset_axioms;

    let ghost lines = item_lines(items@);
    let ghost a = select(lines, left@);
    let ghost b = select(lines, right@);
    let mut out: Vec<usize> = Vec::new();
    let mut i: usize = 0;
    let mut j: usize = 0;
    proof {
        assert(a.take(0).to_multiset() =~= b.take(0).to_multiset());
        assert(select(lines, out@).to_multiset() =~= a.take(0).to_multiset().add(
            b.take(0).to_multiset(),
        ));
        assert forall|x: Seq<u8>| #[trigger] class_of(select(lines, out@), x) == class_of(
            a.take(0),
            x,
        ) + class_of(b.take(0), x) by {
            lemma_class_none(select(lines, out@), x);
            lemma_class_none(a.take(0), x);
            lemma_class_none(b.take(0), x);
        }
    }
    while i < left.len() || j < right.len()
        invariant
            i <= left@.len(),
            j <= right@.len(),
            out@.len() == i + j,
            all_wf(items@),
            0 <= lo <= mid <= hi <= items@.len(),
            in_span(left@, lo, mid),
            in_span(right@, mid, hi),
            in_span(out@, lo, hi),
            lines == item_lines(items@),
            a == select(lines, left@),
            b == select(lines, right@),
            in_written_order(lines, left@),
            in_written_order(lines, right@),
            in_written_order(lines, out@),
            select(lines, out@).to_multiset() == a.take(i as int).to_multiset().add(
                b.take(j as int).to_multiset(),
            ),
            forall|x: Seq<u8>|
                #[trigger] class_of(select(lines, out@), x) == class_of(a.take(i as int), x)
                    + class_of(b.take(j as int), x),
            forall|k: int|
                0 <= k < out@.len() && i < left@.len() ==> written_before(
                    lines,
                    #[trigger] out@[k],
                    left@[i as int],
                ),
            forall|k: int|
                0 <= k < out@.len() && j < right@.len() ==> written_before(
                    lines,
                    #[trigger] out@[k],
                    right@[j as int],
                ),
            forall|k: int|
                0 <= k < j && i < left@.len() ==> comes_before(#[trigger] b[k], a[i as int]),
        decreases left@.len() - i + right@.len() - j,
    {
        let from_left = if j == right.len() {
            true
        } else if i == left.len() {
            false
        } else {
            items[left[i]].precedes(&items[right[j]])
        };
        let ghost before = out@;
        let ghost chosen = select(lines, out@);
        if from_left {
            let x = left[i];
            proof {
                assert(select(lines, before.push(x)) =~= chosen.push(a[i as int]));
                assert(a.take(i + 1) =~= a.take(i as int).push(a[i as int]));
                to_multiset_build(chosen, a[i as int]);
                to_multiset_build(a.take(i as int), a[i as int]);
                assert(chosen.push(a[i as int]).to_multiset() =~= a.take(i + 1).to_multiset().add(
                    b.take(j as int).to_multiset(),
                ));
                assert forall|y: Seq<u8>| #[trigger] class_of(chosen.push(a[i as int]), y)
                    == class_of(a.take(i + 1), y) + class_of(b.take(j as int), y) by {
                    assert(class_of(chosen, y) == class_of(a.take(i as int), y) + class_of(
                        b.take(j as int),
                        y,
                    ));
                    lemma_merge_left(chosen, a.take(i as int), b.take(j as int), a[i as int], y);
                }
                if i + 1 < left@.len() {
                    let next = left@[i + 1];
                    assert(written_before(lines, x, next));
                    assert forall|k: int| 0 <= k < before.len() implies written_before(
                        lines,
                        #[trigger] before[k],
                        next,
                    ) by {
                        lemma_written_before_transitive(lines, before[k], x, next);
                    }
                    assert forall|k: int| 0 <= k < j implies comes_before(
                        #[trigger] b[k],
                        a[i + 1],
                    ) by {
                        lemma_comes_before_transitive(b[k], a[i as int], a[i + 1]);
                    }
                }
            }
            out.push(x);
            i += 1;
        } else {
            let y = right[j];
            proof {
                assert(select(lines, before.push(y)) =~= chosen.push(b[j as int]));
                assert(b.take(j + 1) =~= b.take(j as int).push(b[j as int]));
                to_multiset_build(chosen, b[j as int]);
                to_multiset_build(b.take(j as int), b[j as int]);
                assert(chosen.push(b[j as int]).to_multiset() =~= a.take(i as int).to_multiset().add(
                    b.take(j + 1).to_multiset(),
                ));
                assert forall|z: Seq<u8>| #[trigger] class_of(chosen.push(b[j as int]), z)
                    == class_of(a.take(i as int), z) + class_of(b.take(j + 1), z) by {
                    assert(class_of(chosen, z) == class_of(a.take(i as int), z) + class_of(
                        b.take(j as int),
                        z,
                    ));
                    lemma_merge_right(chosen, a.take(i as int), b.take(j as int), b[j as int], z);
                }
                if j + 1 < right@.len() {
                    let next = right@[j + 1];
                    assert(written_before(lines, y, next));
                    assert forall|k: int| 0 <= k < before.len() implies written_before(
                        lines,
                        #[trigger] before[k],
                        next,
                    ) by {
                        lemma_written_before_transitive(lines, before[k], y, next);
                    }
                }
                if i < left@.len() {
                    lemma_trichotomy(a[i as int], b[j as int]);
                }
            }
            out.push(y);
            j += 1;
        }
    }
    proof {
        assert(a.take(i as int) =~= a);
        assert(b.take(j as int) =~= b);
    }
    out
}

/// Sorts the items from `lo` up to `hi`: the result names each of them once, in
/// the order in which their lines are written out.
fn sort_range(items: &Vec<Item>, lo: usize, hi: usize) -> (out: Vec<usize>)
    requires
        lo <= hi <= items@.len(),
        all_wf(items@),
    ensures
        out@.len() == hi - lo,
        in_span(out@, lo as int, hi as int),
        in_written_order(item_lines(items@), out@),
        select(item_lines(items@), out@).to_multiset() == item_lines(items@).subrange(
            lo as int,
            hi as int,
        ).to_multiset(),
        same_ties(
            select(item_lines(items@), out@),
            item_lines(items@).subrange(lo as int, hi as int),
        ),
    decreases hi - lo,
{
    broadcast use group_to_multiset_ensures;

    let ghost lines = item_lines(items@);
    if hi - lo == 0 {
        let out: Vec<usize> = Vec::new();
        proof {
            assert(select(lines, out@) =~= lines.subrange(lo as int, hi as int));
        }
        out
    } else if hi - lo == 1 {
        let mut out: Vec<usize> = Vec::new();
        out.push(lo);
        proof {
            assert(select(lines, out@) =~= lines.subrange(lo as int, hi as int));
        }
        out
    } else {
        let mid = lo + (hi - lo) / 2;
        let left = sort_range(items, lo, mid);
        let right = sort_range(items, mid, hi);
        let out = merge_orders(
            items,
            &left,
            &right,
            Ghost(lo as int),
            Ghost(mid as int),
            Ghost(hi as int),
        );
        proof {
            let first = lines.subrange(lo as int, mid as int);
            let second = lines.subrange(mid as int, hi as int);
            assert(lines.subrange(lo as int, hi as int) =~= first + second);
            lemma_multiset_commutative(first, second);
            assert forall|x: Seq<u8>| #[trigger] class_of(select(lines, out@), x) == class_of(
                lines.subrange(lo as int, hi as int),
                x,
            ) by {
                lemma_class_add(first, second, x);
                assert(class_of(select(lines, left@), x) == class_of(first, x));
                assert(class_of(select(lines, right@), x) == class_of(second, x));
            }
        }
        out
    }
}

/// The order in which to write `items` out. The result names every item
/// once, in written order: by their lines, and items whose lines tie as they
/// stand in `items`. The lines it names, taken in its order, are the lines of
/// `items` sorted, with ties as they stand.
pub fn sorted_order(items: &Vec<Item>) -> (order: Vec<usize>)
    requires
        all_wf(items@),
    ensures
        order@.len() == items@.len(),
        in_range(order@, items@.len() as int),
        in_written_order(item_lines(items@), order@),
        is_stable_sort(select(item_lines(items@), order@), item_lines(items@)),
        select(item_lines(items@), order@).to_multiset() == item_lines(items@).to_multiset(),
{
    let order = sort_range(items, 0, items.len());
    proof {
        let lines = item_lines(items@);
        assert(lines.subrange(0, lines.len() as int) =~= lines);
        lemma_written_order_sorted(lines, order@);
    }
    order
}

/// Writes the lines of `items` out in the order that `order` gives, each
/// followed by a newline.
pub fn write_lines(items: &Vec<Item>, order: &Vec<usize>) -> (out: Vec<u8>)
    requires
        in_range(order@, items@.len() as int),
    ensures
        out@ == join_lines(select(item_lines(items@), order@)),
{
    let ghost chosen = select(item_lines(items@), order@);
    let mut out: Vec<u8> = Vec::new();
    let mut k: usize = 0;
    while k < order.len()
        invariant
            k <= order@.len(),
            in_range(order@, items@.len() as int),
            chosen == select(item_lines(items@), order@),
            out@ == join_lines(chosen.take(k as int)),
        decreases order@.len() - k,
    {
        let ghost before = out@;
        let item = &items[order[k]];
        out.extend_from_slice(item.1.as_slice());
        out.push(NEWLINE);
        proof {
            assert(chosen.take(k + 1).drop_last() =~= chosen.take(k as int));
            assert(chosen.take(k + 1).last() == item@);
            assert(out@ =~= before + item@ + seq![NEWLINE]);
        }
        k += 1;
    }
    proof {
        assert(chosen.take(k as int) =~= chosen);
    }
    out
}

/// Sorts one chunk into a run: takes `buffer` apart into its lines, reads each
/// as a record, and writes the records out in order, each followed by a
/// newline. Records that tie stand in the run as they stand in `buffer`.
/// Fails with `MalformedRecord` exactly when a line is no record.
pub fn process_buffer(buffer: &[u8]) -> (r: Result<Vec<u8>, SortError>)
    ensures
        match r {
            Ok(run) => {
                &&& all_well_formed(records(buffer@))
                &&& run@ == join_lines(records(run@))
                &&& is_stable_sort(records(run@), records(buffer@))
                &&& records(run@).to_multiset() == records(buffer@).to_multiset()
            },
            Err(e) => e == SortError::MalformedRecord && !all_well_formed(records(buffer@)),
        },
{
    let lines = split_records(buffer);
    match parse_all(lines) {
        Ok(items) => {
            let order = sorted_order(&items);
            let run = write_lines(&items, &order);
            proof {
                let sorted = select(item_lines(items@), order@);
                lemma_records_are_lines(buffer@);
                lemma_same_lines_are_lines(sorted, records(buffer@));
                lemma_records_of_joined(sorted);
            }
            Ok(run)
        },
        Err(e) => Err(e),
    }
}

} // verus!
