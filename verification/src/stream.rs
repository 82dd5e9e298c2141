//! Reading a run back, line by line.

use vstd::prelude::*;

use crate::lines::{
    all_lines, is_line, is_terminator, join_lines, lemma_join_lines_front, CARRIAGE_RETURN,
    NEWLINE,
};

verus! {

/// How many bytes of `data` a reader takes that reads up to `byte` and takes
/// it too: all of `data` if it does not hold `byte`.
pub open spec fn span_through(data: Seq<u8>, byte: u8) -> int
    decreases data.len(),
{
    if data.len() == 0 {
        0
    } else if data[0] == byte {
        1
    } else {
        1 + span_through(data.drop_first(), byte)
    }
}

/// `raw` without the newline at its end, and without the carriage return that
/// stands before that newline.
pub open spec fn trim_line_end(raw: Seq<u8>) -> Seq<u8> {
    if raw.len() > 0 && raw.last() == NEWLINE {
        if raw.len() > 1 && raw[raw.len() - 2] == CARRIAGE_RETURN {
            raw.take(raw.len() - 2)
        } else {
            raw.take(raw.len() - 1)
        }
    } else {
        raw
    }
}

/// The first line that a reader finds in `data`: the bytes through the first
/// newline, without their line end.
pub open spec fn first_line(data: Seq<u8>) -> Seq<u8> {
    trim_line_end(data.take(span_through(data, NEWLINE)))
}

/// The lines that a reader finds in `data` before it stops: it stops at the
/// end of `data`, and at the first line that is empty.
pub open spec fn stream_lines(data: Seq<u8>) -> Seq<Seq<u8>>
    decreases data.len(),
    via stream_lines_decreases
{
    if first_line(data).len() == 0 {
        Seq::empty()
    } else {
        seq![first_line(data)] + stream_lines(data.skip(span_through(data, NEWLINE)))
    }
}

#[via_fn]
proof fn stream_lines_decreases(data: Seq<u8>) {
    lemma_span_through(data, NEWLINE);
}

/// The span ends inside `data` or at its end, `byte` is its last byte and not
/// among the others, unless `data` does not hold `byte`; only of no bytes at
/// all it is empty.
pub proof fn lemma_span_through(data: Seq<u8>, byte: u8)
    ensures
        0 <= span_through(data, byte) <= data.len(),
        data.len() > 0 ==> span_through(data, byte) >= 1,
        forall|j: int| 0 <= j < span_through(data, byte) - 1 ==> data[j] != byte,
        span_through(data, byte) < data.len() ==> data[span_through(data, byte) - 1] == byte,
    decreases data.len(),
{
    if data.len() > 0 && data[0] != byte {
        let rest = data.drop_first();
        lemma_span_through(rest, byte);
        assert forall|j: int| 0 <= j < span_through(data, byte) - 1 implies data[j] != byte by {
            if j > 0 {
                assert(data[j] == rest[j - 1]);
            }
        }
        if span_through(data, byte) < data.len() {
            assert(data[span_through(data, byte) - 1] == rest[span_through(rest, byte) - 1]);
        }
    }
}

/// The one length that ends with the first `byte` is the span.
pub proof fn lemma_span_through_is(data: Seq<u8>, byte: u8, n: int)
    requires
        1 <= n <= data.len(),
        forall|j: int| 0 <= j < n - 1 ==> data[j] != byte,
        data[n - 1] == byte || n == data.len(),
    ensures
        span_through(data, byte) == n,
    decreases data.len(),
{
    if data[0] != byte {
        if n == 1 {
            assert(data.len() == 1);
            assert(span_through(data.drop_first(), byte) == 0);
        } else {
            let rest = data.drop_first();
            assert forall|j: int| 0 <= j < n - 2 implies rest[j] != byte by {
                assert(rest[j] == data[j + 1]);
            }
            assert(rest[n - 2] == data[n - 1]);
            lemma_span_through_is(rest, byte, n - 1);
        }
    }
}

/// A run that was written out of lines is read back as those lines.
pub proof fn lemma_stream_lines_of_joined(lines: Seq<Seq<u8>>)
    requires
        all_lines(lines),
    ensures
        stream_lines(join_lines(lines)) == lines,
    decreases lines.len(),
{
    let joined = join_lines(lines);
    if lines.len() == 0 {
        assert(stream_lines(joined) =~= lines);
    } else {
        let first = lines[0];
        let rest = lines.drop_first();
        let n = first.len() as int + 1;
        lemma_join_lines_front(lines);
        assert(joined =~= first + seq![NEWLINE] + join_lines(rest));
        assert(is_line(first));
        assert forall|j: int| 0 <= j < n - 1 implies joined[j] != NEWLINE by {
            assert(joined[j] == first[j]);
            assert(!is_terminator(first[j]));
        }
        assert(joined[n - 1] == NEWLINE);
        lemma_span_through_is(joined, NEWLINE, n);
        let raw = joined.take(n);
        assert(raw =~= first + seq![NEWLINE]);
        assert(raw.last() == NEWLINE);
        if raw.len() > 1 {
            assert(raw[raw.len() - 2] == first[first.len() - 1]);
            assert(!is_terminator(first[first.len() - 1]));
        }
        assert(raw.take(raw.len() - 1) =~= first);
        assert(first_line(joined) == first);
        assert(joined.skip(n) =~= join_lines(rest));
        assert(all_lines(rest)) by {
            assert forall|i: int| 0 <= i < rest.len() implies is_line(#[trigger] rest[i]) by {
                assert(rest[i] == lines[i + 1]);
            }
        }
        lemma_stream_lines_of_joined(rest);
        assert(stream_lines(joined) =~= lines);
    }
}

/// Takes the line end off `buffer`: the newline at its end, and the carriage
/// return before that newline.
pub fn strip_line_end(buffer: &mut Vec<u8>)
    ensures
        final(buffer)@ == trim_line_end(old(buffer)@),
{
    let n = buffer.len();
    if n > 0 && buffer[n - 1] == NEWLINE {
        buffer.pop();
        if n > 1 && buffer[n - 2] == CARRIAGE_RETURN {
            buffer.pop();
        }
    }
    assert(buffer@ =~= trim_line_end(old(buffer)@));
}

/// A reader over bytes that are held in memory.
pub struct ByteReader<'a> {
    data: &'a [u8],
    pos: usize,
}

impl<'a> ByteReader<'a> {
    /// The bytes that have not been read yet.
    pub closed spec fn remaining(&self) -> Seq<u8> {
        self.data@.skip(self.pos as int)
    }

    /// The reader stands inside its bytes or at their end.
    pub closed spec fn wf(&self) -> bool {
        self.pos <= self.data@.len()
    }

    /// A reader at the start of `data`.
    pub fn new(data: &'a [u8]) -> (reader: ByteReader<'a>)
        ensures
            reader.wf(),
            reader.remaining() == data@,
    {
        proof {
            assert(data@.skip(0) =~= data@);
        }
        ByteReader { data, pos: 0 }
    }

    /// Reads up to `byte` and takes it too, or up to the end where `byte` does
    /// not come; adds what it read to `buffer` and returns how many bytes that
    /// were.
    pub fn read_until(&mut self, byte: u8, buffer: &mut Vec<u8>) -> (n: usize)
        requires
            old(self).wf(),
        ensures
            final(self).wf(),
            n == span_through(old(self).remaining(), byte),
            final(buffer)@ == old(buffer)@ + old(self).remaining().take(n as int),
            final(self).remaining() == old(self).remaining().skip(n as int),
    {
        let start = self.pos;
        let ghost rest = self.remaining();
        let mut found = false;
        while self.pos < self.data.len() && !found
            invariant
                self.data == old(self).data,
                start <= self.pos <= self.data@.len(),
                rest == self.data@.skip(start as int),
                buffer@ == old(buffer)@ + rest.take(self.pos - start),
                forall|j: int| 0 <= j < self.pos - start - 1 ==> rest[j] != byte,
                found ==> self.pos > start && rest[self.pos - start - 1] == byte,
                !found && self.pos > start ==> rest[self.pos - start - 1] != byte,
            decreases self.data@.len() - self.pos,
        {
            let b = self.data[self.pos];
            proof {
                assert(rest[self.pos - start] == b);
                assert(rest.take(self.pos - start + 1) =~= rest.take(self.pos - start).push(b));
            }
            buffer.push(b);
            self.pos += 1;
            found = b == byte;
        }
        proof {
            if self.pos > start {
                lemma_span_through_is(rest, byte, self.pos - start);
            }
            assert(self.data@.skip(self.pos as int) =~= rest.skip(self.pos - start));
        }
        self.pos - start
    }
}

/// Reads the next line of `reader` into `buffer`: the bytes through the next
/// newline, without their line end.
pub fn read_line_bytes(reader: &mut ByteReader, buffer: &mut Vec<u8>)
    requires
        old(reader).wf(),
    ensures
        final(reader).wf(),
        final(buffer)@ == trim_line_end(
            old(buffer)@ + old(reader).remaining().take(
                span_through(old(reader).remaining(), NEWLINE),
            ),
        ),
        final(reader).remaining() == old(reader).remaining().skip(
            span_through(old(reader).remaining(), NEWLINE),
        ),
{
    reader.read_until(NEWLINE, buffer);
    strip_line_end(buffer);
}

} // verus!
