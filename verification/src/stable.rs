//! Sorting that leaves lines that tie as they stand.

use vstd::prelude::*;
use vstd::relations::*;
use vstd::seq_lib::*;

use crate::record::{comparator_order, lemma_trichotomy, ties};

verus! {

/// The lines that tie with `x`.
pub open spec fn tied_with(x: Seq<u8>) -> spec_fn(Seq<u8>) -> bool {
    |y: Seq<u8>| ties(x, y)
}

/// The members of `lines` that tie with `x`, in their order.
pub open spec fn class_of(lines: Seq<Seq<u8>>, x: Seq<u8>) -> Seq<Seq<u8>> {
    lines.filter(tied_with(x))
}

/// `a` and `b` hold the same lines, and lines that tie stand in the same
/// order in both.
pub open spec fn same_ties(a: Seq<Seq<u8>>, b: Seq<Seq<u8>>) -> bool {
    forall|x: Seq<u8>| #[trigger] class_of(a, x) == class_of(b, x)
}

/// `sorted` is `lines` sorted: no line is ordered after one that follows it,
/// and lines that tie stand as they stand in `lines`.
pub open spec fn is_stable_sort(sorted: Seq<Seq<u8>>, lines: Seq<Seq<u8>>) -> bool {
    sorted_by(sorted, comparator_order()) && same_ties(sorted, lines)
}

/// With one more line at the end, the lines that tie with `x` are one more if
/// that line ties with `x`, and the same otherwise.
pub proof fn lemma_class_push(lines: Seq<Seq<u8>>, line: Seq<u8>, x: Seq<u8>)
    ensures
        class_of(lines.push(line), x) == if ties(x, line) {
            class_of(lines, x).push(line)
        } else {
            class_of(lines, x)
        },
{
    reveal(Seq::filter);
    assert(lines.push(line).drop_last() =~= lines);
}

/// No lines hold no ties.
pub proof fn lemma_class_empty(x: Seq<u8>)
    ensures
        class_of(Seq::empty(), x) == Seq::<Seq<u8>>::empty(),
{
    reveal(Seq::filter);
}

/// The ties of two stretches of lines, one after the other, are the ties of
/// the first, then those of the second.
pub proof fn lemma_class_add(a: Seq<Seq<u8>>, b: Seq<Seq<u8>>, x: Seq<u8>)
    ensures
        class_of(a + b, x) == class_of(a, x) + class_of(b, x),
{
    Seq::filter_distributes_over_add(a, b, tied_with(x));
}

/// Lines of which none ties with `x` hold no ties with `x`.
pub proof fn lemma_class_none(lines: Seq<Seq<u8>>, x: Seq<u8>)
    requires
        forall|k: int| 0 <= k < lines.len() ==> !ties(x, #[trigger] lines[k]),
    ensures
        class_of(lines, x) == Seq::<Seq<u8>>::empty(),
    decreases lines.len(),
{
    if lines.len() == 0 {
        assert(lines =~= Seq::empty());
        lemma_class_empty(x);
    } else {
        let front = lines.drop_last();
        assert forall|k: int| 0 <= k < front.len() implies !ties(x, #[trigger] front[k]) by {
            assert(front[k] == lines[k]);
        }
        lemma_class_none(front, x);
        lemma_class_push(front, lines.last(), x);
        assert(front.push(lines.last()) =~= lines);
    }
}

/// Every line among the ties with `x` ties with `x` and is one of the lines.
pub proof fn lemma_class_members(lines: Seq<Seq<u8>>, x: Seq<u8>, i: int)
    requires
        0 <= i < class_of(lines, x).len(),
    ensures
        ties(x, class_of(lines, x)[i]),
        lines.contains(class_of(lines, x)[i]),
{
    lines.filter_lemma(tied_with(x));
    assert(class_of(lines, x).contains(class_of(lines, x)[i]));
    lines.lemma_filter_contains_rev(tied_with(x), class_of(lines, x)[i]);
}

/// Lines that are sorted and hold the same ties in the same order are the
/// same lines in the same order: lines have one stable sort.
pub proof fn lemma_same_ties_sorted(a: Seq<Seq<u8>>, b: Seq<Seq<u8>>)
    requires
        sorted_by(a, comparator_order()),
        sorted_by(b, comparator_order()),
        same_ties(a, b),
    ensures
        a == b,
    decreases a.len() + b.len(),
{
    if a.len() == 0 && b.len() == 0 {
        assert(a =~= b);
    } else if a.len() == 0 || b.len() == 0 {
        // One of them holds a line, which is among its ties, and the other
        // holds none.
        let full = if a.len() == 0 {
            b
        } else {
            a
        };
        let none = if a.len() == 0 {
            a
        } else {
            b
        };
        let t = full.last();
        lemma_class_push(full.drop_last(), t, t);
        assert(full.drop_last().push(t) =~= full);
        assert(none =~= Seq::empty());
        lemma_class_empty(t);
        assert(class_of(a, t) == class_of(b, t));
    } else {
        let s = a.last();
        let t = b.last();
        let front = a.drop_last();
        let other = b.drop_last();
        assert(front.push(s) =~= a);
        assert(other.push(t) =~= b);
        lemma_class_push(front, s, s);
        lemma_class_push(other, t, t);
        lemma_class_push(front, s, t);
        lemma_class_push(other, t, s);
        assert(class_of(a, s) == class_of(b, s));
        assert(class_of(a, t) == class_of(b, t));
        // `s` stands in `b`, so it is not ordered after `t`; and the other
        // way round.
        let in_b = class_of(b, s);
        lemma_class_members(b, s, in_b.len() - 1);
        let j = choose|j: int| 0 <= j < b.len() && b[j] == in_b[in_b.len() - 1];
        assert(in_b[in_b.len() - 1] == s);
        if j < b.len() - 1 {
            assert(comparator_order()(b[j], b[b.len() - 1]));
        }
        let in_a = class_of(a, t);
        lemma_class_members(a, t, in_a.len() - 1);
        let i = choose|i: int| 0 <= i < a.len() && a[i] == in_a[in_a.len() - 1];
        assert(in_a[in_a.len() - 1] == t);
        if i < a.len() - 1 {
            assert(comparator_order()(a[i], a[a.len() - 1]));
        }
        lemma_trichotomy(s, t);
        assert(ties(s, t));
        assert(s == t);
        assert forall|x: Seq<u8>| #[trigger] class_of(front, x) == class_of(other, x) by {
            lemma_class_push(front, s, x);
            lemma_class_push(other, t, x);
            assert(class_of(a, x) == class_of(b, x));
            if ties(x, s) {
                assert(class_of(front, x) =~= class_of(front, x).push(s).drop_last());
                assert(class_of(other, x) =~= class_of(other, x).push(s).drop_last());
            }
        }
        assert forall|k: int, l: int| 0 <= k < l < front.len() implies #[trigger] comparator_order()(
        front[k], front[l]) by {
            assert(comparator_order()(a[k], a[l]));
        }
        assert forall|k: int, l: int| 0 <= k < l < other.len() implies #[trigger] comparator_order()(
        other[k], other[l]) by {
            assert(comparator_order()(b[k], b[l]));
        }
        lemma_same_ties_sorted(front, other);
    }
}

/// Lines have one stable sort.
pub proof fn lemma_stable_sort_unique(a: Seq<Seq<u8>>, b: Seq<Seq<u8>>, lines: Seq<Seq<u8>>)
    requires
        is_stable_sort(a, lines),
        is_stable_sort(b, lines),
    ensures
        a == b,
{
    assert forall|x: Seq<u8>| #[trigger] class_of(a, x) == class_of(b, x) by {
        assert(class_of(a, x) == class_of(lines, x));
        assert(class_of(b, x) == class_of(lines, x));
    }
    lemma_same_ties_sorted(a, b);
}

/// A line is among the lines as often as it is among those that tie with it.
pub proof fn lemma_class_count(lines: Seq<Seq<u8>>, line: Seq<u8>)
    ensures
        class_of(lines, line).to_multiset().count(line) == lines.to_multiset().count(line),
    decreases lines.len(),
{
    broadcast use vstd::multiset::group_multiset_axioms;

    if lines.len() == 0 {
        assert(lines =~= Seq::empty());
        lemma_class_empty(line);
    } else {
        let front = lines.drop_last();
        let last = lines.last();
        assert(front.push(last) =~= lines);
        lemma_class_count(front, line);
        lemma_class_push(front, last, line);
        to_multiset_build(front, last);
        to_multiset_build(class_of(front, line), last);
    }
}

/// Lines that hold the same ties in the same order are the same lines, each
/// as often in the one as in the other.
pub proof fn lemma_same_ties_same_lines(a: Seq<Seq<u8>>, b: Seq<Seq<u8>>)
    requires
        same_ties(a, b),
    ensures
        a.to_multiset() == b.to_multiset(),
{
    broadcast use vstd::multiset::group_multiset_axioms;

    assert forall|line: Seq<u8>| a.to_multiset().count(line) == b.to_multiset().count(line) by {
        lemma_class_count(a, line);
        lemma_class_count(b, line);
        assert(class_of(a, line) == class_of(b, line));
    }
    assert(a.to_multiset() =~= b.to_multiset());
}

/// Families of lines that hold, one by one, the same ties with `x` hold the
/// same ties with `x` when each is laid out one after the other.
pub proof fn lemma_flatten_class(xs: Seq<Seq<Seq<u8>>>, ys: Seq<Seq<Seq<u8>>>, x: Seq<u8>)
    requires
        xs.len() == ys.len(),
        forall|i: int| 0 <= i < xs.len() ==> class_of(#[trigger] xs[i], x) == class_of(ys[i], x),
    ensures
        class_of(xs.flatten(), x) == class_of(ys.flatten(), x),
    decreases xs.len(),
{
    if xs.len() > 0 {
        assert forall|i: int| 0 <= i < xs.drop_first().len() implies class_of(
            #[trigger] xs.drop_first()[i],
            x,
        ) == class_of(ys.drop_first()[i], x) by {
            assert(xs.drop_first()[i] == xs[i + 1]);
            assert(ys.drop_first()[i] == ys[i + 1]);
        }
        lemma_flatten_class(xs.drop_first(), ys.drop_first(), x);
        lemma_class_add(xs[0], xs.drop_first().flatten(), x);
        lemma_class_add(ys[0], ys.drop_first().flatten(), x);
        assert(class_of(xs[0], x) == class_of(ys[0], x));
    }
}

/// A family of lines of which none ties with `x` holds no ties with `x`.
pub proof fn lemma_flatten_class_none(xs: Seq<Seq<Seq<u8>>>, x: Seq<u8>)
    requires
        forall|i: int, k: int|
            0 <= i < xs.len() && 0 <= k < xs[i].len() ==> !ties(x, #[trigger] xs[i][k]),
    ensures
        class_of(xs.flatten(), x) == Seq::<Seq<u8>>::empty(),
    decreases xs.len(),
{
    if xs.len() == 0 {
        lemma_class_empty(x);
    } else {
        let rest = xs.drop_first();
        assert forall|i: int, k: int| 0 <= i < rest.len() && 0 <= k < rest[i].len() implies !ties(
            x,
            #[trigger] rest[i][k],
        ) by {
            assert(rest[i][k] == xs[i + 1][k]);
        }
        lemma_flatten_class_none(rest, x);
        lemma_class_none(xs[0], x);
        lemma_class_add(xs[0], rest.flatten(), x);
    }
}

/// One more line at the end of member `t` of a family is one more tie with
/// `x` at the end of all ties, if it ties with `x` and no line of a later
/// member does; and no more tie if it does not tie with `x`.
pub proof fn lemma_flatten_class_push_at(
    xs: Seq<Seq<Seq<u8>>>,
    t: int,
    line: Seq<u8>,
    x: Seq<u8>,
)
    requires
        0 <= t < xs.len(),
        ties(x, line) ==> forall|i: int, k: int|
            t < i < xs.len() && 0 <= k < xs[i].len() ==> !ties(x, #[trigger] xs[i][k]),
    ensures
        class_of(xs.update(t, xs[t].push(line)).flatten(), x) == if ties(x, line) {
            class_of(xs.flatten(), x).push(line)
        } else {
            class_of(xs.flatten(), x)
        },
    decreases xs.len(),
{
    let ys = xs.update(t, xs[t].push(line));
    let rest = xs.drop_first();
    lemma_class_add(xs[0], rest.flatten(), x);
    if t == 0 {
        assert(ys.drop_first() =~= rest);
        lemma_class_add(xs[0].push(line), rest.flatten(), x);
        lemma_class_push(xs[0], line, x);
        if ties(x, line) {
            assert forall|i: int, k: int|
                0 <= i < rest.len() && 0 <= k < rest[i].len() implies !ties(
                x,
                #[trigger] rest[i][k],
            ) by {
                assert(rest[i][k] == xs[i + 1][k]);
            }
            lemma_flatten_class_none(rest, x);
            assert(class_of(xs[0], x).push(line) + Seq::<Seq<u8>>::empty() =~= (class_of(xs[0], x)
                + Seq::<Seq<u8>>::empty()).push(line));
        }
    } else {
        assert(ys.drop_first() =~= rest.update(t - 1, rest[t - 1].push(line)));
        if ties(x, line) {
            assert forall|i: int, k: int|
                t - 1 < i < rest.len() && 0 <= k < rest[i].len() implies !ties(
                x,
                #[trigger] rest[i][k],
            ) by {
                assert(rest[i][k] == xs[i + 1][k]);
            }
        }
        lemma_flatten_class_push_at(rest, t - 1, line, x);
        lemma_class_add(xs[0], ys.drop_first().flatten(), x);
        if ties(x, line) {
            assert(class_of(xs[0], x) + class_of(rest.flatten(), x).push(line) =~= (class_of(
                xs[0],
                x,
            ) + class_of(rest.flatten(), x)).push(line));
        }
    }
}

} // verus!
