//! Merging sorted runs into one sorted output.

use vstd::prelude::*;
use vstd::relations::*;
use vstd::seq_lib::*;

use crate::engine::MergeEngine;
use crate::frontier::is_least;
use crate::lines::{join_lines, NEWLINE};
use crate::record::{
    comes_before, comparator_le, comparator_order, lemma_comes_before_transitive,
    lemma_comparator_order, lemma_trichotomy, ties, well_formed, SortError,
};
use crate::stable::{
    class_of, is_stable_sort, lemma_class_push, lemma_flatten_class_push_at, same_ties,
};
use crate::stream::{first_line, read_line_bytes, span_through, stream_lines, ByteReader};

verus! {

/// The lines that a reader finds in each of `runs`.
pub open spec fn run_lines(runs: Seq<Vec<u8>>) -> Seq<Seq<Seq<u8>>> {
    runs.map_values(|run: Vec<u8>| stream_lines(run@))
}

/// Every run is sorted by `order`.
pub open spec fn runs_sorted(
    lines: Seq<Seq<Seq<u8>>>,
    order: spec_fn(Seq<u8>, Seq<u8>) -> bool,
) -> bool {
    forall|i: int| 0 <= i < lines.len() ==> sorted_by(#[trigger] lines[i], order)
}

/// Every line of every run is a record.
pub open spec fn all_records(lines: Seq<Seq<Seq<u8>>>) -> bool {
    forall|i: int, k: int|
        0 <= i < lines.len() && 0 <= k < lines[i].len() ==> well_formed(#[trigger] lines[i][k])
}

/// `places` says where in `whole` each member of `part` stands, and the
/// members stand there in their order.
pub open spec fn embeds(part: Seq<Seq<u8>>, whole: Seq<Seq<u8>>, places: Seq<int>) -> bool {
    &&& places.len() == part.len()
    &&& forall|k: int|
        0 <= k < part.len() ==> 0 <= #[trigger] places[k] < whole.len() && whole[places[k]]
            == part[k]
    &&& forall|k: int, l: int|
        0 <= k < l < part.len() ==> #[trigger] places[k] < #[trigger] places[l]
}

/// The members of `part` stand in `whole`, in their order.
pub open spec fn is_subsequence(part: Seq<Seq<u8>>, whole: Seq<Seq<u8>>) -> bool {
    exists|places: Seq<int>| embeds(part, whole, places)
}

/// `merged` is what merging the runs `lines` gives: it holds the lines of all
/// runs, each as often as the runs hold it, and those of each run in their
/// order. Where the runs are in order, it is the lines of all runs sorted:
/// lines that tie stand as they stand in their run, and those of an earlier
/// run before those of a later one.
pub open spec fn is_merge_of(merged: Seq<Seq<u8>>, lines: Seq<Seq<Seq<u8>>>) -> bool {
    &&& merged.to_multiset() == lines.flatten().to_multiset()
    &&& forall|i: int| 0 <= i < lines.len() ==> is_subsequence(#[trigger] lines[i], merged)
    &&& runs_sorted(lines, comparator_order()) ==> is_stable_sort(merged, lines.flatten())
}

/// What stands in order in something sorted is sorted.
pub proof fn lemma_subsequence_sorted(
    part: Seq<Seq<u8>>,
    whole: Seq<Seq<u8>>,
    order: spec_fn(Seq<u8>, Seq<u8>) -> bool,
)
    requires
        is_subsequence(part, whole),
        sorted_by(whole, order),
    ensures
        sorted_by(part, order),
{
    let places = choose|places: Seq<int>| embeds(part, whole, places);
    assert forall|k: int, l: int| 0 <= k < l < part.len() implies #[trigger] order(
        part[k],
        part[l],
    ) by {
        assert(places[k] < places[l]);
        assert(order(whole[places[k]], whole[places[l]]));
    }
}

/// A merge is in order only if every run is: a run that is not in order shows
/// in whatever is merged from it.
pub proof fn lemma_sorted_merge_has_sorted_runs(
    merged: Seq<Seq<u8>>,
    lines: Seq<Seq<Seq<u8>>>,
    order: spec_fn(Seq<u8>, Seq<u8>) -> bool,
)
    requires
        is_merge_of(merged, lines),
        sorted_by(merged, order),
    ensures
        runs_sorted(lines, order),
{
    assert forall|i: int| 0 <= i < lines.len() implies sorted_by(#[trigger] lines[i], order) by {
        lemma_subsequence_sorted(lines[i], merged, order);
    }
}

/// The first `counts[i]` lines of each run `i`.
spec fn taken(lines: Seq<Seq<Seq<u8>>>, counts: Seq<int>) -> Seq<Seq<Seq<u8>>> {
    Seq::new(lines.len(), |i: int| lines[i].take(counts[i]))
}

/// The line that is held of run `i`, if one is.
spec fn head_of(heads: Map<int, Seq<u8>>, i: int) -> Option<Seq<u8>> {
    if heads.dom().contains(i) {
        Some(heads[i])
    } else {
        None
    }
}

/// Whether the next line of run `i` is still to be read.
spec fn waiting(i: int, awaited: Option<int>, opening: bool) -> bool {
    awaited matches Some(s) && (i == s || (opening && i > s))
}

/// How one run stands in a merge: `count` of its lines are written, all lines
/// read so far are records, the line held is the next one, and `unread` are
/// the lines behind what was read. A run that has no line held and is not
/// waited for is written out whole.
spec fn stream_ok(
    lines: Seq<Seq<u8>>,
    count: int,
    unread: Seq<Seq<u8>>,
    head: Option<Seq<u8>>,
    waits: bool,
) -> bool {
    &&& 0 <= count <= lines.len()
    &&& forall|k: int| 0 <= k < count ==> well_formed(#[trigger] lines[k])
    &&& match head {
        Some(line) => {
            &&& count < lines.len()
            &&& line == lines[count]
            &&& well_formed(line)
            &&& unread == lines.skip(count + 1)
        },
        None => if waits {
            unread == lines.skip(count)
        } else {
            count == lines.len()
        },
    }
}

/// Every run stands as `stream_ok` says.
spec fn streams_ok(
    lines: Seq<Seq<Seq<u8>>>,
    counts: Seq<int>,
    unread: Seq<Seq<Seq<u8>>>,
    heads: Map<int, Seq<u8>>,
    awaited: Option<int>,
    opening: bool,
) -> bool {
    &&& counts.len() == lines.len()
    &&& unread.len() == lines.len()
    &&& forall|i: int|
        0 <= i < lines.len() ==> stream_ok(
            #[trigger] lines[i],
            counts[i],
            unread[i],
            head_of(heads, i),
            waiting(i, awaited, opening),
        )
}

/// The output holds the lines that are counted as written.
spec fn holds_written(lines: Seq<Seq<Seq<u8>>>, counts: Seq<int>, output: Seq<Seq<u8>>) -> bool {
    output.to_multiset() == taken(lines, counts).flatten().to_multiset()
}

/// No line of `output` is ordered after a line that is still to be written: a
/// line of a run `i` from `counts[i]` on.
spec fn below(
    output: Seq<Seq<u8>>,
    lines: Seq<Seq<Seq<u8>>>,
    counts: Seq<int>,
    order: spec_fn(Seq<u8>, Seq<u8>) -> bool,
) -> bool {
    forall|x: int, i: int, k: int|
        #![trigger output[x], lines[i][k]]
        0 <= x < output.len() && 0 <= i < lines.len() && counts[i] <= k < lines[i].len()
            ==> order(output[x], lines[i][k])
}

/// Where the runs are in order, the output is in order and comes before all
/// that is still to be written.
spec fn keeps_order(
    lines: Seq<Seq<Seq<u8>>>,
    counts: Seq<int>,
    output: Seq<Seq<u8>>,
    order: spec_fn(Seq<u8>, Seq<u8>) -> bool,
) -> bool {
    runs_sorted(lines, order) ==> sorted_by(output, order) && below(output, lines, counts, order)
}

/// `places[i]` says where in the output the written lines of run `i` stand.
spec fn placed(
    lines: Seq<Seq<Seq<u8>>>,
    counts: Seq<int>,
    output: Seq<Seq<u8>>,
    places: Seq<Seq<int>>,
) -> bool {
    &&& places.len() == lines.len()
    &&& forall|i: int|
        0 <= i < lines.len() ==> embeds(
            (#[trigger] lines[i]).take(counts[i]),
            output,
            places[i],
        )
}

/// `order` holds wherever `comparator_le` does, and is transitive.
spec fn merge_order(order: spec_fn(Seq<u8>, Seq<u8>) -> bool) -> bool {
    &&& forall|a: Seq<u8>, b: Seq<u8>| comparator_le(a, b) ==> #[trigger] order(a, b)
    &&& transitive(order)
}

/// Every line that is written of a run is ordered strictly before every line
/// that is still to be written of an earlier run.
spec fn strictly_below(lines: Seq<Seq<Seq<u8>>>, counts: Seq<int>) -> bool {
    forall|i: int, k: int, t: int, l: int|
        #![trigger lines[i][k], lines[t][l]]
        0 <= t < i < lines.len() && 0 <= k < counts[i] && counts[t] <= l < lines[t].len()
            ==> comes_before(lines[i][k], lines[t][l])
}

/// Where the runs are in order, lines that tie stand in the output as they
/// stand in what is counted as written, run after run.
spec fn keeps_ties(lines: Seq<Seq<Seq<u8>>>, counts: Seq<int>, output: Seq<Seq<u8>>) -> bool {
    runs_sorted(lines, comparator_order()) ==> strictly_below(lines, counts) && same_ties(
        output,
        taken(lines, counts).flatten(),
    )
}

/// One more element in one of the sequences is one more element in all of
/// them together.
proof fn lemma_flatten_push_at(xs: Seq<Seq<Seq<u8>>>, t: int, a: Seq<u8>)
    requires
        0 <= t < xs.len(),
    ensures
        xs.update(t, xs[t].push(a)).flatten().to_multiset() == xs.flatten().to_multiset().insert(
            a,
        ),
    decreases xs.len(),
{
    broadcast use vstd::multiset::group_multiset_axioms;

    let ys = xs.update(t, xs[t].push(a));
    let rest = xs.drop_first();
    lemma_multiset_commutative(xs[0], rest.flatten());
    if t == 0 {
        assert(ys.drop_first() =~= rest);
        lemma_multiset_commutative(xs[0].push(a), rest.flatten());
        to_multiset_build(xs[0], a);
        assert(ys.flatten().to_multiset() =~= xs.flatten().to_multiset().insert(a));
    } else {
        assert(ys.drop_first() =~= rest.update(t - 1, rest[t - 1].push(a)));
        lemma_flatten_push_at(rest, t - 1, a);
        lemma_multiset_commutative(xs[0], ys.drop_first().flatten());
        assert(ys.flatten().to_multiset() =~= xs.flatten().to_multiset().insert(a));
    }
}

/// Sequences that are no longer, each, than those of another family are no
/// longer all together.
proof fn lemma_flatten_len_le(xs: Seq<Seq<Seq<u8>>>, ys: Seq<Seq<Seq<u8>>>)
    requires
        xs.len() == ys.len(),
        forall|i: int| 0 <= i < xs.len() ==> (#[trigger] xs[i]).len() <= ys[i].len(),
    ensures
        xs.flatten().len() <= ys.flatten().len(),
    decreases xs.len(),
{
    if xs.len() > 0 {
        assert forall|i: int| 0 <= i < xs.drop_first().len() implies (
        #[trigger] xs.drop_first()[i]).len() <= ys.drop_first()[i].len() by {
            assert(xs.drop_first()[i] == xs[i + 1]);
        }
        lemma_flatten_len_le(xs.drop_first(), ys.drop_first());
        assert(xs[0].len() <= ys[0].len());
    }
}

/// Empty sequences together are empty.
proof fn lemma_flatten_empties(xs: Seq<Seq<Seq<u8>>>)
    requires
        forall|i: int| 0 <= i < xs.len() ==> (#[trigger] xs[i]).len() == 0,
    ensures
        xs.flatten().len() == 0,
    decreases xs.len(),
{
    if xs.len() > 0 {
        assert forall|i: int| 0 <= i < xs.drop_first().len() implies (
        #[trigger] xs.drop_first()[i]).len() == 0 by {
            assert(xs.drop_first()[i] == xs[i + 1]);
        }
        lemma_flatten_empties(xs.drop_first());
        assert(xs[0].len() == 0);
    }
}

/// The output is never longer than all runs together.
proof fn lemma_output_len(
    lines: Seq<Seq<Seq<u8>>>,
    counts: Seq<int>,
    output: Seq<Seq<u8>>,
    unread: Seq<Seq<Seq<u8>>>,
    heads: Map<int, Seq<u8>>,
    awaited: Option<int>,
    opening: bool,
)
    requires
        streams_ok(lines, counts, unread, heads, awaited, opening),
        holds_written(lines, counts, output),
    ensures
        output.len() <= lines.flatten().len(),
{
    let part = taken(lines, counts);
    assert forall|i: int| 0 <= i < part.len() implies (#[trigger] part[i]).len()
        <= lines[i].len() by {
        assert(stream_ok(
            lines[i],
            counts[i],
            unread[i],
            head_of(heads, i),
            waiting(i, awaited, opening),
        ));
    }
    lemma_flatten_len_le(part, lines);
    to_multiset_len(output);
    to_multiset_len(part.flatten());
}

/// A merge stands as it should before anything is read.
proof fn lemma_merge_start(lines: Seq<Seq<Seq<u8>>>)
    ensures
        ({
            let counts = Seq::new(lines.len(), |i: int| 0int);
            let output = Seq::<Seq<u8>>::empty();
            &&& streams_ok(
                lines,
                counts,
                lines,
                Map::empty(),
                if lines.len() > 0 {
                    Some(0int)
                } else {
                    None
                },
                lines.len() > 0,
            )
            &&& holds_written(lines, counts, output)
            &&& keeps_order(lines, counts, output, comparator_order())
            &&& keeps_ties(lines, counts, output)
            &&& placed(lines, counts, output, Seq::new(lines.len(), |i: int| Seq::<int>::empty()))
        }),
{
    let counts = Seq::new(lines.len(), |i: int| 0int);
    let part = taken(lines, counts);
    assert forall|i: int| 0 <= i < lines.len() implies lines[i].skip(0) == #[trigger] lines[i] by {
        assert(lines[i].skip(0) =~= lines[i]);
    }
    assert(part.flatten() =~= Seq::<Seq<u8>>::empty()) by {
        assert forall|i: int| 0 <= i < part.len() implies (#[trigger] part[i]).len() == 0 by {}
        lemma_flatten_empties(part);
    }
}

/// The line that was read is held: the run it came from stands as it should
/// without being waited for. `line` is what was read, with no bytes where the
/// run had no line left, and `rest` are the lines behind it.
proof fn lemma_merge_hold(
    lines: Seq<Seq<Seq<u8>>>,
    counts: Seq<int>,
    unread: Seq<Seq<Seq<u8>>>,
    heads: Map<int, Seq<u8>>,
    from: int,
    opening: bool,
    line: Seq<u8>,
    rest: Seq<Seq<u8>>,
)
    requires
        streams_ok(lines, counts, unread, heads, Some(from), opening),
        0 <= from < lines.len(),
        !heads.dom().contains(from),
        opening ==> forall|s: int| #[trigger] heads.dom().contains(s) ==> s < from,
        unread[from] == if line.len() == 0 {
            Seq::<Seq<u8>>::empty()
        } else {
            seq![line] + rest
        },
        line.len() == 0 || well_formed(line),
    ensures
        ({
            let held = if line.len() > 0 {
                heads.insert(from, line)
            } else {
                heads
            };
            if opening && from + 1 < lines.len() {
                streams_ok(lines, counts, unread.update(from, rest), held, Some(from + 1), true)
            } else {
                streams_ok(lines, counts, unread.update(from, rest), held, None, false)
            }
        }),
{
    let held = if line.len() > 0 {
        heads.insert(from, line)
    } else {
        heads
    };
    let after = if opening && from + 1 < lines.len() {
        Some(from + 1)
    } else {
        None
    };
    let still = opening && from + 1 < lines.len();
    let unread2 = unread.update(from, rest);
    assert forall|i: int| 0 <= i < lines.len() implies stream_ok(
        #[trigger] lines[i],
        counts[i],
        unread2[i],
        head_of(held, i),
        waiting(i, after, still),
    ) by {
        assert(stream_ok(
            lines[i],
            counts[i],
            unread[i],
            head_of(heads, i),
            waiting(i, Some(from), opening),
        ));
        if i == from {
            let own = lines[i];
            let count = counts[i];
            assert(unread[i] == own.skip(count));
            if line.len() == 0 {
                assert(own.skip(count).len() == 0);
            } else {
                assert(own.skip(count)[0] == line);
                assert(own.skip(count).drop_first() =~= own.skip(count + 1));
                assert((seq![line] + rest).drop_first() =~= rest);
            }
        }
    }
}

/// With the least line written out, every run stands as it should, and the
/// run of that line is waited for.
proof fn lemma_emit_streams(
    lines: Seq<Seq<Seq<u8>>>,
    counts: Seq<int>,
    unread: Seq<Seq<Seq<u8>>>,
    held: Map<int, Seq<u8>>,
    next: int,
)
    requires
        streams_ok(lines, counts, unread, held, None, false),
        0 <= next < lines.len(),
        held.dom().contains(next),
    ensures
        counts[next] < lines[next].len(),
        held[next] == lines[next][counts[next]],
        streams_ok(
            lines,
            counts.update(next, counts[next] + 1),
            unread,
            held.remove(next),
            Some(next),
            false,
        ),
{
    let counts2 = counts.update(next, counts[next] + 1);
    let heads2 = held.remove(next);
    assert(stream_ok(
        lines[next],
        counts[next],
        unread[next],
        head_of(held, next),
        waiting(next, None, false),
    ));
    assert forall|i: int| 0 <= i < lines.len() implies stream_ok(
        #[trigger] lines[i],
        counts2[i],
        unread[i],
        head_of(heads2, i),
        waiting(i, Some(next), false),
    ) by {
        assert(stream_ok(
            lines[i],
            counts[i],
            unread[i],
            head_of(held, i),
            waiting(i, None, false),
        ));
    }
}

/// With the next line of a run written out, the output holds what is counted
/// as written.
proof fn lemma_emit_written(
    lines: Seq<Seq<Seq<u8>>>,
    counts: Seq<int>,
    output: Seq<Seq<u8>>,
    next: int,
)
    requires
        counts.len() == lines.len(),
        0 <= next < lines.len(),
        0 <= counts[next] < lines[next].len(),
        holds_written(lines, counts, output),
    ensures
        holds_written(
            lines,
            counts.update(next, counts[next] + 1),
            output.push(lines[next][counts[next]]),
        ),
{
    let line = lines[next][counts[next]];
    let part = taken(lines, counts);
    assert(taken(lines, counts.update(next, counts[next] + 1)) =~= part.update(
        next,
        part[next].push(line),
    )) by {
        assert(lines[next].take(counts[next] + 1) =~= lines[next].take(counts[next]).push(line));
    }
    lemma_flatten_push_at(part, next, line);
    to_multiset_build(output, line);
}

/// With the least line written out, the output is still in order and comes
/// before all that is still to be written.
proof fn lemma_emit_order(
    lines: Seq<Seq<Seq<u8>>>,
    counts: Seq<int>,
    output: Seq<Seq<u8>>,
    unread: Seq<Seq<Seq<u8>>>,
    held: Map<int, Seq<u8>>,
    next: int,
    order: spec_fn(Seq<u8>, Seq<u8>) -> bool,
)
    requires
        streams_ok(lines, counts, unread, held, None, false),
        0 <= next < lines.len(),
        is_least(held, next),
        merge_order(order),
        keeps_order(lines, counts, output, order),
    ensures
        keeps_order(
            lines,
            counts.update(next, counts[next] + 1),
            output.push(held[next]),
            order,
        ),
{
    let line = held[next];
    let counts2 = counts.update(next, counts[next] + 1);
    let output2 = output.push(line);
    assert(stream_ok(
        lines[next],
        counts[next],
        unread[next],
        head_of(held, next),
        waiting(next, None, false),
    ));
    if runs_sorted(lines, order) {
        assert forall|x: int, y: int| 0 <= x < y < output2.len() implies #[trigger] order(
            output2[x],
            output2[y],
        ) by {
            if y < output.len() {
                assert(order(output[x], output[y]));
            } else {
                assert(order(output[x], lines[next][counts[next]]));
            }
        }
        assert forall|x: int, i: int, k: int|
            #![trigger output2[x], lines[i][k]]
            0 <= x < output2.len() && 0 <= i < lines.len() && counts2[i] <= k
                < lines[i].len() implies order(output2[x], lines[i][k]) by {
            if x < output.len() {
                assert(order(output[x], lines[i][k]));
            } else {
                assert(stream_ok(
                    lines[i],
                    counts[i],
                    unread[i],
                    head_of(held, i),
                    waiting(i, None, false),
                ));
                assert(held.dom().contains(i));
                let first = lines[i][counts[i]];
                assert(comparator_le(line, first));
                assert(order(line, first));
                if k > counts[i] {
                    assert(sorted_by(lines[i], order));
                    assert(order(first, lines[i][k]));
                }
            }
        }
    }
}

/// With the least line written out, lines that tie still stand in the output
/// as they stand in what is counted as written.
proof fn lemma_emit_ties(
    lines: Seq<Seq<Seq<u8>>>,
    counts: Seq<int>,
    output: Seq<Seq<u8>>,
    unread: Seq<Seq<Seq<u8>>>,
    held: Map<int, Seq<u8>>,
    next: int,
)
    requires
        streams_ok(lines, counts, unread, held, None, false),
        0 <= next < lines.len(),
        is_least(held, next),
        keeps_ties(lines, counts, output),
    ensures
        keeps_ties(lines, counts.update(next, counts[next] + 1), output.push(held[next])),
{
    let line = held[next];
    let counts2 = counts.update(next, counts[next] + 1);
    let part = taken(lines, counts);
    assert(stream_ok(
        lines[next],
        counts[next],
        unread[next],
        head_of(held, next),
        waiting(next, None, false),
    ));
    if runs_sorted(lines, comparator_order()) {
        assert forall|i: int, k: int, t: int, l: int|
            #![trigger lines[i][k], lines[t][l]]
            0 <= t < i < lines.len() && 0 <= k < counts2[i] && counts2[t] <= l
                < lines[t].len() implies comes_before(lines[i][k], lines[t][l]) by {
            if i == next && k == counts[next] {
                assert(stream_ok(
                    lines[t],
                    counts[t],
                    unread[t],
                    head_of(held, t),
                    waiting(t, None, false),
                ));
                assert(held.dom().contains(t));
                let first = lines[t][counts[t]];
                lemma_trichotomy(line, first);
                assert(comes_before(line, first));
                if l > counts[t] {
                    assert(sorted_by(lines[t], comparator_order()));
                    assert(comparator_order()(first, lines[t][l]));
                    lemma_comes_before_transitive(line, first, lines[t][l]);
                }
            } else {
                assert(comes_before(lines[i][k], lines[t][l]));
            }
        }
        assert(taken(lines, counts2) =~= part.update(next, part[next].push(line))) by {
            assert(lines[next].take(counts[next] + 1) =~= lines[next].take(counts[next]).push(
                line,
            ));
        }
        assert forall|x: Seq<u8>| #[trigger] class_of(output.push(line), x) == class_of(
            taken(lines, counts2).flatten(),
            x,
        ) by {
            assert(class_of(output, x) == class_of(part.flatten(), x));
            lemma_class_push(output, line, x);
            if ties(x, line) {
                assert forall|i: int, k: int|
                    next < i < part.len() && 0 <= k < part[i].len() implies !ties(
                    x,
                    #[trigger] part[i][k],
                ) by {
                    assert(stream_ok(
                        lines[i],
                        counts[i],
                        unread[i],
                        head_of(held, i),
                        waiting(i, None, false),
                    ));
                    assert(part[i][k] == lines[i][k]);
                    assert(comes_before(lines[i][k], lines[next][counts[next]]));
                    lemma_trichotomy(lines[i][k], line);
                }
            }
            lemma_flatten_class_push_at(part, next, line, x);
        }
    }
}

/// With the next line of a run written out, the written lines of every run
/// have their places in the output.
proof fn lemma_emit_placed(
    lines: Seq<Seq<Seq<u8>>>,
    counts: Seq<int>,
    output: Seq<Seq<u8>>,
    places: Seq<Seq<int>>,
    next: int,
)
    requires
        counts.len() == lines.len(),
        0 <= next < lines.len(),
        0 <= counts[next] < lines[next].len(),
        placed(lines, counts, output, places),
    ensures
        placed(
            lines,
            counts.update(next, counts[next] + 1),
            output.push(lines[next][counts[next]]),
            places.update(next, places[next].push(output.len() as int)),
        ),
{
    let line = lines[next][counts[next]];
    let counts2 = counts.update(next, counts[next] + 1);
    let output2 = output.push(line);
    let places2 = places.update(next, places[next].push(output.len() as int));
    assert forall|i: int| 0 <= i < lines.len() implies embeds(
        (#[trigger] lines[i]).take(counts2[i]),
        output2,
        places2[i],
    ) by {
        let part = lines[i].take(counts[i]);
        let here = places[i];
        assert(embeds(part, output, here));
        if i == next {
            let part2 = lines[i].take(counts2[i]);
            let here2 = places2[i];
            assert forall|k: int| 0 <= k < part2.len() implies 0 <= #[trigger] here2[k]
                < output2.len() && output2[here2[k]] == part2[k] by {
                if k < part.len() {
                    assert(here2[k] == here[k]);
                    assert(part2[k] == part[k]);
                }
            }
            assert forall|k: int, l: int| 0 <= k < l < part2.len() implies #[trigger] here2[k]
                < #[trigger] here2[l] by {
                assert(here2[k] == here[k]);
                if l < part.len() {
                    assert(here2[l] == here[l]);
                }
            }
        } else {
            assert forall|k: int| 0 <= k < part.len() implies 0 <= #[trigger] here[k]
                < output2.len() && output2[here[k]] == part[k] by {
                assert(output[here[k]] == part[k]);
            }
        }
    }
}

/// With no line held and no run waited for, every run is written out whole:
/// all lines are records, and the output is a merge of the runs.
proof fn lemma_merge_done(
    lines: Seq<Seq<Seq<u8>>>,
    counts: Seq<int>,
    output: Seq<Seq<u8>>,
    unread: Seq<Seq<Seq<u8>>>,
    places: Seq<Seq<int>>,
)
    requires
        streams_ok(lines, counts, unread, Map::empty(), None, false),
        holds_written(lines, counts, output),
        keeps_order(lines, counts, output, comparator_order()),
        keeps_ties(lines, counts, output),
        placed(lines, counts, output, places),
    ensures
        all_records(lines),
        is_merge_of(output, lines),
{
    let none = Map::<int, Seq<u8>>::empty();
    assert forall|i: int| 0 <= i < lines.len() implies counts[i] == (#[trigger] lines[i]).len()
        && forall|k: int| 0 <= k < lines[i].len() ==> well_formed(#[trigger] lines[i][k]) by {
        assert(stream_ok(
            lines[i],
            counts[i],
            unread[i],
            head_of(none, i),
            waiting(i, None, false),
        ));
    }
    assert(taken(lines, counts) =~= lines) by {
        assert forall|i: int| 0 <= i < lines.len() implies taken(lines, counts)[i] == lines[i] by {
            assert(lines[i].take(lines[i].len() as int) =~= lines[i]);
        }
    }
    assert forall|i: int| 0 <= i < lines.len() implies is_subsequence(
        #[trigger] lines[i],
        output,
    ) by {
        assert(lines[i].take(counts[i]) =~= lines[i]);
        assert(embeds(lines[i], output, places[i]));
    }
}

/// The lines that are left in each of `readers`.
spec fn unread_of(readers: Seq<ByteReader>) -> Seq<Seq<Seq<u8>>> {
    readers.map_values(|reader: ByteReader| stream_lines(reader.remaining()))
}

/// Merges `runs` into one output, each line followed by a newline. Of every
/// run the lines count that a reader finds in it.
///
/// The output is a merge of the runs, as `is_merge_of` says: it holds every
/// line of every run, those of each run in their order, and is in order
/// exactly when every run is. Of lines that tie, those of an earlier run come
/// first. Fails with `MalformedRecord` exactly when a line of a run is no
/// record.
pub fn merge_runs(runs: &Vec<Vec<u8>>) -> (r: Result<Vec<u8>, SortError>)
    ensures
        match r {
            Ok(out) => {
                &&& all_records(run_lines(runs@))
                &&& exists|merged: Seq<Seq<u8>>|
                    #[trigger] join_lines(merged) == out@ && is_merge_of(
                        merged,
                        run_lines(runs@),
                    )
            },
            Err(e) => e == SortError::MalformedRecord && !all_records(run_lines(runs@)),
        },
{
    let ghost lines = run_lines(runs@);
    let mut readers: Vec<ByteReader> = Vec::new();
    let mut i: usize = 0;
    while i < runs.len()
        invariant
            i <= runs@.len(),
            readers@.len() == i,
            forall|j: int| 0 <= j < i ==> (#[trigger] readers@[j]).wf(),
            forall|j: int| 0 <= j < i ==> (#[trigger] readers@[j]).remaining() == runs@[j]@,
        decreases runs@.len() - i,
    {
        readers.push(ByteReader::new(runs[i].as_slice()));
        i += 1;
    }
    let mut engine = MergeEngine::new(runs.len());
    let mut out: Vec<u8> = Vec::new();
    let ghost mut counts: Seq<int> = Seq::new(lines.len(), |i: int| 0int);
    let ghost mut output: Seq<Seq<u8>> = Seq::empty();
    let ghost mut places: Seq<Seq<int>> = Seq::new(lines.len(), |i: int| Seq::<int>::empty());
    proof {
        lemma_merge_start(lines);
        lemma_comparator_order();
        assert(unread_of(readers@) =~= lines);
    }
    loop
        invariant
            lines == run_lines(runs@),
            engine.wf(),
            engine.streams() == lines.len(),
            readers@.len() == lines.len(),
            forall|j: int| 0 <= j < readers@.len() ==> (#[trigger] readers@[j]).wf(),
            streams_ok(
                lines,
                counts,
                unread_of(readers@),
                engine.heads(),
                engine.awaited(),
                engine.opening(),
            ),
            holds_written(lines, counts, output),
            keeps_order(lines, counts, output, comparator_order()),
            keeps_ties(lines, counts, output),
            placed(lines, counts, output, places),
            merge_order(comparator_order()),
            output.len() <= lines.flatten().len(),
            out@ == join_lines(output),
        decreases
                (if engine.opening() {
                    1int
                } else {
                    0int
                }),
                (match engine.awaited() {
                    Some(s) if engine.opening() => lines.len() - s,
                    _ => 0int,
                }),
                lines.flatten().len() - output.len(),
                (if engine.awaited() is Some {
                    1int
                } else {
                    0int
                }),
    {
        let ghost unread = unread_of(readers@);
        let ghost heads = engine.heads();
        let ghost opening = engine.opening();
        proof {
            engine.lemma_wf();
        }
        let from = match engine.awaited_stream() {
            None => {
                proof {
                    lemma_merge_done(lines, counts, output, unread, places);
                }
                return Ok(out);
            },
            Some(from) => from,
        };
        let ghost before = readers@[from as int].remaining();
        let mut line: Vec<u8> = Vec::new();
        read_line_bytes(&mut readers[from], &mut line);
        let ghost rest = stream_lines(readers@[from as int].remaining());
        proof {
            assert(Seq::<u8>::empty() + before.take(span_through(before, NEWLINE))
                =~= before.take(span_through(before, NEWLINE)));
            assert(line@ == first_line(before));
            assert(unread_of(readers@) =~= unread.update(from as int, rest));
            assert(unread[from as int] == stream_lines(before));
            assert(stream_ok(
                lines[from as int],
                counts[from as int],
                unread[from as int],
                head_of(heads, from as int),
                waiting(from as int, Some(from as int), opening),
            ));
            if line@.len() > 0 {
                assert(unread[from as int] == seq![line@] + rest);
                assert(lines[from as int].skip(counts[from as int])[0] == line@);
            }
        }
        match engine.feed(line) {
            Err(e) => {
                proof {
                    assert(!well_formed(lines[from as int][counts[from as int]]));
                }
                return Err(e);
            },
            Ok(least) => {
                proof {
                    engine.lemma_wf();
                    lemma_merge_hold(
                        lines,
                        counts,
                        unread,
                        heads,
                        from as int,
                        opening,
                        line@,
                        rest,
                    );
                }
                match least {
                    None => {},
                    Some(bytes) => {
                        proof {
                            let held = if line@.len() > 0 {
                                heads.insert(from as int, line@)
                            } else {
                                heads
                            };
                            let next = engine.awaited().unwrap();
                            let now = unread_of(readers@);
                            let previous = output;
                            lemma_emit_streams(lines, counts, now, held, next);
                            lemma_emit_written(lines, counts, output, next);
                            lemma_emit_ties(lines, counts, output, now, held, next);
                            lemma_emit_order(
                                lines,
                                counts,
                                output,
                                now,
                                held,
                                next,
                                comparator_order(),
                            );
                            lemma_emit_placed(lines, counts, output, places, next);
                            places = places.update(next, places[next].push(output.len() as int));
                            counts = counts.update(next, counts[next] + 1);
                            output = output.push(bytes@);
                            assert(output.drop_last() =~= previous);
                            lemma_output_len(
                                lines,
                                counts,
                                output,
                                now,
                                engine.heads(),
                                engine.awaited(),
                                engine.opening(),
                            );
                        }
                        let ghost written = out@;
                        out.extend_from_slice(bytes.as_slice());
                        out.push(NEWLINE);
                        proof {
                            assert(out@ =~= written + bytes@ + seq![NEWLINE]);
                        }
                    },
                }
            },
        }
    }
}

} // verus!
