//! Lines in a buffer of bytes: where they end, and how a buffer is taken apart
//! into lines and put together from them.

use vstd::prelude::*;
use vstd::slice::{slice_subrange, slice_to_vec};

verus! {

/// The byte that ends a line.
pub const NEWLINE: u8 = 10;

/// The byte that may stand before `NEWLINE` at the end of a line.
pub const CARRIAGE_RETURN: u8 = 13;

/// The bytes that end a line: a newline or a carriage return.
pub open spec fn is_terminator(b: u8) -> bool {
    b == NEWLINE || b == CARRIAGE_RETURN
}

/// Whether `b` ends a line.
pub fn terminates(b: u8) -> (r: bool)
    ensures
        r == is_terminator(b),
{
    b == NEWLINE || b == CARRIAGE_RETURN
}

/// How many bytes stand at the head of `bytes` before its first terminator.
pub open spec fn run_length(bytes: Seq<u8>) -> int
    decreases bytes.len(),
{
    if bytes.len() == 0 || is_terminator(bytes[0]) {
        0
    } else {
        1 + run_length(bytes.drop_first())
    }
}

/// The lines of `bytes`: the stretches of bytes between terminators, in order,
/// without the empty ones.
pub open spec fn records(bytes: Seq<u8>) -> Seq<Seq<u8>>
    decreases bytes.len(),
    via records_decreases
{
    if bytes.len() == 0 {
        Seq::empty()
    } else if is_terminator(bytes[0]) {
        records(bytes.drop_first())
    } else {
        seq![bytes.take(run_length(bytes))] + records(bytes.skip(run_length(bytes)))
    }
}

#[via_fn]
proof fn records_decreases(bytes: Seq<u8>) {
    lemma_run_length(bytes);
}

/// `lines` written out, each followed by a newline.
pub open spec fn join_lines(lines: Seq<Seq<u8>>) -> Seq<u8>
    decreases lines.len(),
{
    if lines.len() == 0 {
        Seq::empty()
    } else {
        join_lines(lines.drop_last()) + lines.last() + seq![NEWLINE]
    }
}

/// `line` can stand in a buffer as one line: it is not empty and holds no
/// terminator.
pub open spec fn is_line(line: Seq<u8>) -> bool {
    line.len() > 0 && forall|j: int| 0 <= j < line.len() ==> !is_terminator(#[trigger] line[j])
}

/// Every member of `lines` can stand in a buffer as one line.
pub open spec fn all_lines(lines: Seq<Seq<u8>>) -> bool {
    forall|i: int| 0 <= i < lines.len() ==> is_line(#[trigger] lines[i])
}

/// The byte strings that a vector of byte vectors holds.
pub open spec fn lines_of(v: Seq<Vec<u8>>) -> Seq<Seq<u8>> {
    v.map_values(|line: Vec<u8>| line@)
}

/// There is a boundary between lines at position `at` of `bytes`: no line has
/// bytes on both sides of it.
pub open spec fn is_boundary(bytes: Seq<u8>, at: int) -> bool {
    0 <= at <= bytes.len() && (at == 0 || at == bytes.len() || is_terminator(bytes[at - 1])
        || is_terminator(bytes[at]))
}

/// The run at the head of `bytes` ends inside `bytes` or at its end, holds no
/// terminator, and a terminator follows it unless `bytes` ends there.
pub proof fn lemma_run_length(bytes: Seq<u8>)
    ensures
        0 <= run_length(bytes) <= bytes.len(),
        forall|j: int| 0 <= j < run_length(bytes) ==> !is_terminator(bytes[j]),
        run_length(bytes) < bytes.len() ==> is_terminator(bytes[run_length(bytes)]),
    decreases bytes.len(),
{
    if bytes.len() > 0 && !is_terminator(bytes[0]) {
        let rest = bytes.drop_first();
        lemma_run_length(rest);
        assert forall|j: int| 0 <= j < run_length(bytes) implies !is_terminator(bytes[j]) by {
            if j > 0 {
                assert(bytes[j] == rest[j - 1]);
            }
        }
        assert(run_length(rest) < rest.len() ==> bytes[run_length(bytes)] == rest[run_length(
            rest,
        )]);
    }
}

/// A length with no terminator before it, and a terminator at it unless it is
/// the end of the bytes, is the length of the run at the head.
pub proof fn lemma_run_length_is(bytes: Seq<u8>, n: int)
    requires
        0 <= n <= bytes.len(),
        forall|j: int| 0 <= j < n ==> !is_terminator(bytes[j]),
        n < bytes.len() ==> is_terminator(bytes[n]),
    ensures
        run_length(bytes) == n,
{
    lemma_run_length(bytes);
}

/// Every line of a buffer is not empty and holds no terminator.
pub proof fn lemma_records_are_lines(bytes: Seq<u8>)
    ensures
        all_lines(records(bytes)),
    decreases bytes.len(),
{
    if bytes.len() == 0 {
    } else if is_terminator(bytes[0]) {
        lemma_records_are_lines(bytes.drop_first());
    } else {
        let n = run_length(bytes);
        lemma_run_length(bytes);
        lemma_records_are_lines(bytes.skip(n));
        let rest = records(bytes.skip(n));
        assert forall|i: int| 0 <= i < records(bytes).len() implies is_line(
            #[trigger] records(bytes)[i],
        ) by {
            if i > 0 {
                assert(records(bytes)[i] == rest[i - 1]);
            }
        }
    }
}

/// A buffer cut at a boundary between lines has the lines of its first part,
/// then those of its second part.
pub proof fn lemma_records_concat(a: Seq<u8>, b: Seq<u8>)
    requires
        is_boundary(a + b, a.len() as int),
    ensures
        records(a + b) == records(a) + records(b),
    decreases a.len(),
{
    let whole = a + b;
    if a.len() == 0 {
        assert(whole =~= b);
        assert(records(a) + records(b) =~= records(b));
    } else if is_terminator(a[0]) {
        assert(whole.drop_first() =~= a.drop_first() + b);
        assert(is_boundary(a.drop_first() + b, a.drop_first().len() as int)) by {
            if a.len() > 1 && b.len() > 0 {
                assert(whole[a.len() - 1] == (a.drop_first() + b)[a.len() - 2]);
                assert(whole[a.len() as int] == (a.drop_first() + b)[a.len() - 1]);
            }
        }
        lemma_records_concat(a.drop_first(), b);
    } else {
        let n = run_length(a);
        lemma_run_length(a);
        assert(run_length(whole) == n) by {
            assert forall|j: int| 0 <= j < n implies !is_terminator(whole[j]) by {
                assert(whole[j] == a[j]);
            }
            if n < a.len() {
                assert(whole[n] == a[n]);
            } else if b.len() > 0 {
                assert(whole[a.len() - 1] == a[a.len() - 1]);
                assert(whole[n] == b[0]);
            }
            lemma_run_length_is(whole, n);
        }
        assert(whole.take(n) =~= a.take(n));
        assert(whole.skip(n) =~= a.skip(n) + b);
        assert(is_boundary(a.skip(n) + b, a.skip(n).len() as int)) by {
            if n < a.len() && b.len() > 0 {
                assert(whole[a.len() - 1] == (a.skip(n) + b)[a.len() - n - 1]);
                assert(whole[a.len() as int] == (a.skip(n) + b)[a.len() - n]);
            }
        }
        lemma_records_concat(a.skip(n), b);
        assert(records(whole) =~= records(a) + records(b));
    }
}

/// Lines written out with one more line are the lines written out, then that
/// line and a newline; written from the front, the first line and a newline,
/// then the other lines written out.
pub proof fn lemma_join_lines_front(lines: Seq<Seq<u8>>)
    requires
        lines.len() > 0,
    ensures
        join_lines(lines) == lines[0] + seq![NEWLINE] + join_lines(lines.drop_first()),
    decreases lines.len(),
{
    if lines.len() == 1 {
        assert(lines.drop_last() =~= Seq::<Seq<u8>>::empty());
        assert(lines.drop_first() =~= Seq::<Seq<u8>>::empty());
        assert(join_lines(lines) =~= lines[0] + seq![NEWLINE] + join_lines(lines.drop_first()));
    } else {
        lemma_join_lines_front(lines.drop_last());
        assert(lines.drop_last().drop_first() =~= lines.drop_first().drop_last());
        assert(lines.drop_last()[0] == lines[0]);
        assert(lines.drop_first().last() == lines.last());
        assert(join_lines(lines) =~= lines[0] + seq![NEWLINE] + join_lines(lines.drop_first()));
    }
}

/// Taking apart what `join_lines` put together gives the lines back.
pub proof fn lemma_records_of_joined(lines: Seq<Seq<u8>>)
    requires
        all_lines(lines),
    ensures
        records(join_lines(lines)) == lines,
    decreases lines.len(),
{
    if lines.len() == 0 {
        assert(records(join_lines(lines)) =~= lines);
    } else {
        let first = lines[0];
        let rest = lines.drop_first();
        let tail = seq![NEWLINE] + join_lines(rest);
        let joined = join_lines(lines);
        lemma_join_lines_front(lines);
        assert(joined =~= first + tail);
        assert(is_line(first));
        assert(all_lines(rest)) by {
            assert forall|i: int| 0 <= i < rest.len() implies is_line(#[trigger] rest[i]) by {
                assert(rest[i] == lines[i + 1]);
            }
        }
        lemma_records_of_joined(rest);
        assert(run_length(joined) == first.len()) by {
            assert forall|j: int| 0 <= j < first.len() implies !is_terminator(joined[j]) by {
                assert(joined[j] == first[j]);
            }
            assert(joined[first.len() as int] == NEWLINE);
            lemma_run_length_is(joined, first.len() as int);
        }
        assert(joined[0] == first[0]);
        assert(joined.take(first.len() as int) =~= first);
        assert(joined.skip(first.len() as int) =~= tail);
        assert(tail.drop_first() =~= join_lines(rest));
        assert(tail[0] == NEWLINE);
        assert(records(tail) == rest);
        assert(lines =~= seq![first] + rest);
    }
}

/// Takes `buffer` apart into its lines.
pub fn split_records(buffer: &[u8]) -> (lines: Vec<Vec<u8>>)
    ensures
        lines_of(lines@) == records(buffer@),
{
    let mut lines: Vec<Vec<u8>> = Vec::new();
    let mut at: usize = 0;
    proof {
        assert(buffer@.skip(0) =~= buffer@);
        assert(lines_of(lines@) + records(buffer@) =~= records(buffer@));
    }
    while at < buffer.len()
        invariant
            at <= buffer@.len(),
            lines_of(lines@) + records(buffer@.skip(at as int)) == records(buffer@),
        decreases buffer@.len() - at,
    {
        let ghost rest = buffer@.skip(at as int);
        if terminates(buffer[at]) {
            proof {
                assert(rest.drop_first() =~= buffer@.skip(at + 1));
            }
            at += 1;
        } else {
            let start = at;
            at += 1;
            while at < buffer.len() && !terminates(buffer[at])
                invariant
                    start < at <= buffer@.len(),
                    forall|j: int| start <= j < at ==> !is_terminator(buffer@[j]),
                decreases buffer@.len() - at,
            {
                at += 1;
            }
            let line = slice_to_vec(slice_subrange(buffer, start, at));
            proof {
                lemma_run_length_is(rest, at - start);
                assert(rest.take(at - start) =~= line@);
                assert(rest.skip(at - start) =~= buffer@.skip(at as int));
                assert(lines_of(lines@.push(line)) =~= lines_of(lines@).push(line@));
                assert(lines_of(lines@).push(line@) + records(buffer@.skip(at as int))
                    =~= lines_of(lines@) + records(rest));
            }
            lines.push(line);
        }
    }
    proof {
        assert(lines_of(lines@) + records(buffer@.skip(at as int)) =~= lines_of(lines@));
    }
    lines
}

} // verus!
