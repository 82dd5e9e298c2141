//! The whole sort, on an input that is held in memory: cut into chunks, sort
//! each chunk into a run, merge the runs.

use vstd::prelude::*;
use vstd::relations::*;
use vstd::seq_lib::*;

use crate::chunk::{
    chunk_records, chunks_of, has_oversized_record, lemma_chunk_records, split_chunks,
};
use crate::lines::{
    is_boundary, join_lines, lemma_records_are_lines, lemma_records_concat,
    lemma_records_of_joined, lines_of, records,
};
use crate::merge::{all_records, is_merge_of, merge_runs, run_lines, runs_sorted};
use crate::record::{
    comes_before, comparator_order, key_of, lemma_trichotomy, seq_of, well_formed, SortError,
};
use crate::sorter::{
    all_well_formed, lemma_same_lines_are_lines, lemma_same_lines_well_formed, process_buffer,
};
use crate::stable::{
    class_of, is_stable_sort, lemma_class_add, lemma_same_ties_same_lines,
    lemma_stable_sort_unique,
};
use crate::stream::lemma_stream_lines_of_joined;

verus! {

/// `out` is `input` sorted: it holds lines, each followed by a newline, and
/// they are the lines of `input` in order, those that tie as they stand in
/// `input`.
pub open spec fn is_sorted_output(out: Seq<u8>, input: Seq<u8>) -> bool {
    out == join_lines(records(out)) && is_stable_sort(records(out), records(input))
}

/// The lines of all chunks are records exactly when the lines of each chunk
/// are.
proof fn lemma_chunk_records_well_formed(chunks: Seq<Seq<u8>>)
    ensures
        all_well_formed(chunk_records(chunks)) <==> forall|i: int|
            0 <= i < chunks.len() ==> all_well_formed(records(#[trigger] chunks[i])),
    decreases chunks.len(),
{
    if chunks.len() > 0 {
        let first = records(chunks[0]);
        let rest = chunks.drop_first();
        let others = chunk_records(rest);
        let all = chunk_records(chunks);
        lemma_chunk_records_well_formed(rest);
        assert(all == first + others);
        if all_well_formed(all) {
            assert forall|k: int| 0 <= k < first.len() implies well_formed(#[trigger] first[k]) by {
                assert(first[k] == all[k]);
            }
            assert forall|k: int| 0 <= k < others.len() implies well_formed(
                #[trigger] others[k],
            ) by {
                assert(others[k] == all[first.len() + k]);
            }
            assert forall|i: int| 0 <= i < chunks.len() implies all_well_formed(
                records(#[trigger] chunks[i]),
            ) by {
                if i > 0 {
                    assert(chunks[i] == rest[i - 1]);
                }
            }
        }
        if forall|i: int| 0 <= i < chunks.len() ==> all_well_formed(records(#[trigger] chunks[i])) {
            assert(all_well_formed(first));
            assert forall|i: int| 0 <= i < rest.len() implies all_well_formed(
                records(#[trigger] rest[i]),
            ) by {
                assert(rest[i] == chunks[i + 1]);
            }
            assert forall|k: int| 0 <= k < all.len() implies well_formed(#[trigger] all[k]) by {
                if k < first.len() {
                    assert(all[k] == first[k]);
                } else {
                    assert(all[k] == others[k - first.len()]);
                }
            }
        }
    }
}

/// Runs that hold the lines of their chunks hold, together, the lines of all
/// chunks.
proof fn lemma_runs_hold_records(chunks: Seq<Seq<u8>>, runs: Seq<Seq<Seq<u8>>>)
    requires
        runs.len() == chunks.len(),
        forall|i: int|
            0 <= i < chunks.len() ==> (#[trigger] runs[i]).to_multiset() == records(
                chunks[i],
            ).to_multiset(),
    ensures
        runs.flatten().to_multiset() == chunk_records(chunks).to_multiset(),
    decreases chunks.len(),
{
    if chunks.len() > 0 {
        assert forall|i: int| 0 <= i < chunks.drop_first().len() implies (
        #[trigger] runs.drop_first()[i]).to_multiset() == records(
            chunks.drop_first()[i],
        ).to_multiset() by {
            assert(runs.drop_first()[i] == runs[i + 1]);
            assert(chunks.drop_first()[i] == chunks[i + 1]);
        }
        lemma_runs_hold_records(chunks.drop_first(), runs.drop_first());
        lemma_multiset_commutative(runs[0], runs.drop_first().flatten());
        lemma_multiset_commutative(records(chunks[0]), chunk_records(chunks.drop_first()));
        assert(runs[0].to_multiset() == records(chunks[0]).to_multiset());
    }
}

/// Runs that hold the ties of their chunks hold, one after the other, the
/// ties of all chunks.
proof fn lemma_runs_keep_ties(chunks: Seq<Seq<u8>>, runs: Seq<Seq<Seq<u8>>>, x: Seq<u8>)
    requires
        runs.len() == chunks.len(),
        forall|i: int|
            0 <= i < chunks.len() ==> class_of(#[trigger] runs[i], x) == class_of(
                records(chunks[i]),
                x,
            ),
    ensures
        class_of(runs.flatten(), x) == class_of(chunk_records(chunks), x),
    decreases chunks.len(),
{
    if chunks.len() > 0 {
        assert forall|i: int| 0 <= i < chunks.drop_first().len() implies class_of(
            #[trigger] runs.drop_first()[i],
            x,
        ) == class_of(records(chunks.drop_first()[i]), x) by {
            assert(runs.drop_first()[i] == runs[i + 1]);
            assert(chunks.drop_first()[i] == chunks[i + 1]);
        }
        lemma_runs_keep_ties(chunks.drop_first(), runs.drop_first(), x);
        lemma_class_add(runs[0], runs.drop_first().flatten(), x);
        lemma_class_add(records(chunks[0]), chunk_records(chunks.drop_first()), x);
        assert(class_of(runs[0], x) == class_of(records(chunks[0]), x));
    }
}

/// Sorting each chunk into a run and merging the runs, ties from the earlier
/// run first, gives the lines of all chunks sorted, ties as they stand.
pub proof fn lemma_merged_runs(
    chunks: Seq<Seq<u8>>,
    runs: Seq<Seq<Seq<u8>>>,
    merged: Seq<Seq<u8>>,
)
    requires
        runs.len() == chunks.len(),
        forall|i: int|
            0 <= i < chunks.len() ==> is_stable_sort(#[trigger] runs[i], records(chunks[i])),
        is_stable_sort(merged, runs.flatten()),
    ensures
        is_stable_sort(merged, chunk_records(chunks)),
{
    assert forall|x: Seq<u8>| #[trigger] class_of(merged, x) == class_of(
        chunk_records(chunks),
        x,
    ) by {
        assert(class_of(merged, x) == class_of(runs.flatten(), x));
        assert forall|i: int| 0 <= i < chunks.len() implies class_of(#[trigger] runs[i], x)
            == class_of(records(chunks[i]), x) by {
            assert(is_stable_sort(runs[i], records(chunks[i])));
        }
        lemma_runs_keep_ties(chunks, runs, x);
    }
}

/// Sorting a buffer that is made of two parts gives what sorting each part and
/// merging the two, ties from the first part first, gives.
pub proof fn lemma_sort_of_parts(
    x: Seq<u8>,
    y: Seq<u8>,
    first: Seq<Seq<u8>>,
    second: Seq<Seq<u8>>,
    merged: Seq<Seq<u8>>,
    whole: Seq<Seq<u8>>,
)
    requires
        is_boundary(x + y, x.len() as int),
        is_stable_sort(first, records(x)),
        is_stable_sort(second, records(y)),
        is_stable_sort(merged, first + second),
        is_stable_sort(whole, records(x + y)),
    ensures
        merged == whole,
{
    lemma_records_concat(x, y);
    assert forall|line: Seq<u8>| #[trigger] class_of(merged, line) == class_of(
        records(x + y),
        line,
    ) by {
        assert(class_of(merged, line) == class_of(first + second, line));
        assert(class_of(first, line) == class_of(records(x), line));
        assert(class_of(second, line) == class_of(records(y), line));
        lemma_class_add(first, second, line);
        lemma_class_add(records(x), records(y), line);
    }
    lemma_stable_sort_unique(merged, whole, records(x + y));
}

/// Sorts `input` with a buffer of `capacity` bytes: cuts it into chunks, sorts
/// each chunk into a run, and merges the runs.
///
/// The result holds the lines of `input` in order, each followed by a newline,
/// whatever the capacity is: no line is ordered after one that follows it,
/// lines that tie stand as they stand in `input`, and every line of the input
/// is there as often as the input holds it. Fails with `RecordTooLarge`
/// exactly when a line is longer than `capacity` bytes, and otherwise with
/// `MalformedRecord` exactly when a line is no record.
pub fn external_sort(input: &[u8], capacity: usize) -> (r: Result<Vec<u8>, SortError>)
    ensures
        match r {
            Ok(out) => {
                &&& !has_oversized_record(input@, capacity as int)
                &&& all_well_formed(records(input@))
                &&& is_sorted_output(out@, input@)
                &&& records(out@).to_multiset() == records(input@).to_multiset()
            },
            Err(SortError::RecordTooLarge) => has_oversized_record(input@, capacity as int),
            Err(SortError::MalformedRecord) => {
                &&& !has_oversized_record(input@, capacity as int)
                &&& !all_well_formed(records(input@))
            },
        },
{
    let chunks = match split_chunks(input, capacity) {
        Ok(chunks) => chunks,
        Err(e) => {
            return Err(e);
        },
    };
    let ghost parts = lines_of(chunks@);
    proof {
        lemma_chunk_records(input@, capacity as int);
        lemma_chunk_records_well_formed(parts);
    }
    let mut runs: Vec<Vec<u8>> = Vec::new();
    let mut k: usize = 0;
    while k < chunks.len()
        invariant
            k <= chunks@.len(),
            runs@.len() == k,
            parts == lines_of(chunks@),
            forall|j: int| 0 <= j < k ==> all_well_formed(records(#[trigger] parts[j])),
            forall|j: int|
                0 <= j < k ==> (#[trigger] runs@[j])@ == join_lines(records(runs@[j]@)),
            forall|j: int|
                0 <= j < k ==> is_stable_sort(records((#[trigger] runs@[j])@), records(parts[j])),
            all_well_formed(chunk_records(parts)) <==> forall|i: int|
                0 <= i < parts.len() ==> all_well_formed(records(#[trigger] parts[i])),
            chunk_records(parts) == records(input@),
            !has_oversized_record(input@, capacity as int),
        decreases chunks@.len() - k,
    {
        proof {
            assert(parts[k as int] == chunks@[k as int]@);
        }
        match process_buffer(chunks[k].as_slice()) {
            Ok(run) => {
                runs.push(run);
            },
            Err(e) => {
                return Err(e);
            },
        }
        k += 1;
    }
    let ghost lines = run_lines(runs@);
    proof {
        assert forall|j: int| 0 <= j < lines.len() implies #[trigger] lines[j] == records(
            runs@[j]@,
        ) by {
            lemma_records_are_lines(runs@[j]@);
            lemma_stream_lines_of_joined(records(runs@[j]@));
        }
        assert(runs_sorted(lines, comparator_order())) by {
            assert forall|j: int| 0 <= j < lines.len() implies sorted_by(
                #[trigger] lines[j],
                comparator_order(),
            ) by {
                assert(is_stable_sort(records(runs@[j]@), records(parts[j])));
            }
        }
        assert(all_records(lines)) by {
            assert forall|j: int, i: int|
                0 <= j < lines.len() && 0 <= i < lines[j].len() implies well_formed(
                #[trigger] lines[j][i],
            ) by {
                assert(is_stable_sort(records(runs@[j]@), records(parts[j])));
                assert(all_well_formed(records(parts[j])));
                lemma_same_ties_same_lines(lines[j], records(parts[j]));
                lemma_same_lines_well_formed(lines[j], records(parts[j]));
            }
        }
    }
    match merge_runs(&runs) {
        Ok(out) => {
            proof {
                let merged = choose|merged: Seq<Seq<u8>>|
                    #[trigger] join_lines(merged) == out@ && is_merge_of(merged, lines);
                assert forall|j: int| 0 <= j < parts.len() implies is_stable_sort(
                    #[trigger] lines[j],
                    records(parts[j]),
                ) by {
                    assert(is_stable_sort(records(runs@[j]@), records(parts[j])));
                }
                lemma_merged_runs(parts, lines, merged);
                lemma_same_ties_same_lines(merged, records(input@));
                lemma_records_are_lines(input@);
                lemma_same_lines_are_lines(merged, records(input@));
                lemma_records_of_joined(merged);
            }
            Ok(out)
        },
        Err(e) => Err(e),
    }
}

/// An input has one sorted output.
pub proof fn lemma_sorted_output_unique(first: Seq<u8>, second: Seq<u8>, input: Seq<u8>)
    requires
        is_sorted_output(first, input),
        is_sorted_output(second, input),
    ensures
        first == second,
{
    lemma_stable_sort_unique(records(first), records(second), records(input));
}

/// The output is in order: no line is ordered after a line that follows it,
/// so of two lines that stand side by side the second is never ordered
/// strictly before the first.
pub proof fn lemma_output_sorted(out: Seq<u8>, input: Seq<u8>)
    requires
        is_sorted_output(out, input),
    ensures
        sorted_by(records(out), comparator_order()),
        forall|i: int|
            #![trigger records(out)[i]]
            0 <= i && i + 1 < records(out).len() ==> !comes_before(
                records(out)[i + 1],
                records(out)[i],
            ),
{
    let lines = records(out);
    assert forall|i: int| #![trigger lines[i]] 0 <= i && i + 1 < lines.len() implies !comes_before(
        lines[i + 1],
        lines[i],
    ) by {
        assert(comparator_order()(lines[i], lines[i + 1]));
        lemma_trichotomy(lines[i], lines[i + 1]);
    }
}

/// The output holds every line of the input as often as the input holds it:
/// no line is lost, doubled or changed.
pub proof fn lemma_output_holds_input(out: Seq<u8>, input: Seq<u8>)
    requires
        is_sorted_output(out, input),
    ensures
        records(out).to_multiset() == records(input).to_multiset(),
{
    lemma_same_ties_same_lines(records(out), records(input));
}

/// The buffer's capacity does not show in the output. Cut with any capacity
/// that no line exceeds, each chunk sorted into a run and the runs merged,
/// ties from the earlier run first, the lines that come out are the same: the
/// lines of the input sorted, ties as they stand.
pub proof fn lemma_capacity_independent(
    input: Seq<u8>,
    first: int,
    first_runs: Seq<Seq<Seq<u8>>>,
    first_merged: Seq<Seq<u8>>,
    second: int,
    second_runs: Seq<Seq<Seq<u8>>>,
    second_merged: Seq<Seq<u8>>,
)
    requires
        !has_oversized_record(input, first),
        !has_oversized_record(input, second),
        first_runs.len() == chunks_of(input, first).len(),
        second_runs.len() == chunks_of(input, second).len(),
        forall|i: int|
            0 <= i < first_runs.len() ==> is_stable_sort(
                #[trigger] first_runs[i],
                records(chunks_of(input, first)[i]),
            ),
        forall|i: int|
            0 <= i < second_runs.len() ==> is_stable_sort(
                #[trigger] second_runs[i],
                records(chunks_of(input, second)[i]),
            ),
        is_stable_sort(first_merged, first_runs.flatten()),
        is_stable_sort(second_merged, second_runs.flatten()),
    ensures
        first_merged == second_merged,
        is_stable_sort(first_merged, records(input)),
{
    lemma_chunk_records(input, first);
    lemma_chunk_records(input, second);
    lemma_merged_runs(chunks_of(input, first), first_runs, first_merged);
    lemma_merged_runs(chunks_of(input, second), second_runs, second_merged);
    lemma_stable_sort_unique(first_merged, second_merged, records(input));
}

/// Lines with the same text stand in the output in the order of their
/// integers.
pub proof fn lemma_tie_break(out: Seq<u8>, input: Seq<u8>, i: int, j: int)
    requires
        is_sorted_output(out, input),
        0 <= i < j < records(out).len(),
        key_of(records(out)[i]) == key_of(records(out)[j]),
    ensures
        seq_of(records(out)[i]) <= seq_of(records(out)[j]),
{
    let lines = records(out);
    assert(comparator_order()(lines[i], lines[j]));
}

} // verus!
