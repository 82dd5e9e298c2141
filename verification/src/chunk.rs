//! Cutting the input into chunks that fit a buffer and end between lines.

use vstd::prelude::*;
use vstd::slice::{slice_subrange, slice_to_vec};

use crate::lines::{
    is_boundary, is_terminator, lemma_records_concat, lines_of, records, terminates,
};
use crate::record::SortError;

verus! {

/// Where the last terminator of `bytes` stands, if it holds one.
pub open spec fn last_terminator(bytes: Seq<u8>) -> Option<int>
    decreases bytes.len(),
{
    if bytes.len() == 0 {
        None
    } else if is_terminator(bytes.last()) {
        Some(bytes.len() - 1)
    } else {
        last_terminator(bytes.drop_last())
    }
}

/// Where a full buffer is cut: at its last terminator, so that the line after
/// it stays whole; behind a terminator that is its first byte and its only
/// one; at its end if it holds no terminator.
pub open spec fn cut_of(buffer: Seq<u8>) -> int {
    match last_terminator(buffer) {
        None => buffer.len() as int,
        Some(at) => if at == 0 {
            1
        } else {
            at
        },
    }
}

/// The chunks into which a buffer of `capacity` bytes cuts `input`: while at
/// least `capacity` bytes are left, the first `capacity` of them are cut as
/// `cut_of` says; what is left at the end is the last chunk.
pub open spec fn chunks_of(input: Seq<u8>, capacity: int) -> Seq<Seq<u8>>
    decreases input.len(),
    via chunks_of_decreases
{
    if capacity < 1 || input.len() < capacity {
        seq![input]
    } else {
        seq![input.take(cut_of(input.take(capacity)))] + chunks_of(
            input.skip(cut_of(input.take(capacity))),
            capacity,
        )
    }
}

#[via_fn]
proof fn chunks_of_decreases(input: Seq<u8>, capacity: int) {
    if !(capacity < 1 || input.len() < capacity) {
        lemma_cut_of(input.take(capacity));
    }
}

/// The `capacity + 1` bytes of `input` from `at` on hold a terminator.
pub open spec fn window_has_terminator(input: Seq<u8>, at: int, capacity: int) -> bool {
    exists|j: int| at <= j <= at + capacity && is_terminator(#[trigger] input[j])
}

/// Some line of `input` is longer than `capacity` bytes: somewhere
/// `capacity + 1` bytes in a row hold no terminator.
pub open spec fn has_oversized_record(input: Seq<u8>, capacity: int) -> bool {
    exists|at: int|
        0 <= at && at + capacity < input.len() && !#[trigger] window_has_terminator(
            input,
            at,
            capacity,
        )
}

/// The lines of all of `chunks`, in order.
pub open spec fn chunk_records(chunks: Seq<Seq<u8>>) -> Seq<Seq<u8>>
    decreases chunks.len(),
{
    if chunks.len() == 0 {
        Seq::empty()
    } else {
        records(chunks[0]) + chunk_records(chunks.drop_first())
    }
}

/// The last terminator stands inside the bytes, is a terminator, and no
/// terminator follows it; where there is none, no byte is a terminator.
pub proof fn lemma_last_terminator(bytes: Seq<u8>)
    ensures
        match last_terminator(bytes) {
            Some(at) => 0 <= at < bytes.len() && is_terminator(bytes[at]) && forall|j: int|
                at < j < bytes.len() ==> !is_terminator(bytes[j]),
            None => forall|j: int| 0 <= j < bytes.len() ==> !is_terminator(bytes[j]),
        },
    decreases bytes.len(),
{
    if bytes.len() > 0 && !is_terminator(bytes.last()) {
        let front = bytes.drop_last();
        lemma_last_terminator(front);
        match last_terminator(front) {
            Some(at) => {
                assert(bytes[at] == front[at]);
                assert forall|j: int| at < j < bytes.len() implies !is_terminator(bytes[j]) by {
                    if j < front.len() {
                        assert(bytes[j] == front[j]);
                    }
                }
            },
            None => {
                assert forall|j: int| 0 <= j < bytes.len() implies !is_terminator(bytes[j]) by {
                    if j < front.len() {
                        assert(bytes[j] == front[j]);
                    }
                }
            },
        }
    }
}

/// A buffer that is not empty is cut behind at least one byte and no later
/// than at its end.
pub proof fn lemma_cut_of(buffer: Seq<u8>)
    requires
        buffer.len() >= 1,
    ensures
        1 <= cut_of(buffer) <= buffer.len(),
{
    lemma_last_terminator(buffer);
}

/// Where the last terminator of `bytes` stands, if it holds one.
pub fn find_last_terminator(bytes: &[u8]) -> (r: Option<usize>)
    ensures
        match r {
            Some(at) => last_terminator(bytes@) == Some(at as int),
            None => last_terminator(bytes@) is None,
        },
{
    let mut end: usize = bytes.len();
    proof {
        assert(bytes@.take(end as int) =~= bytes@);
    }
    while end > 0
        invariant
            end <= bytes@.len(),
            last_terminator(bytes@) == last_terminator(bytes@.take(end as int)),
        decreases end,
    {
        proof {
            assert(bytes@.take(end as int).drop_last() =~= bytes@.take(end - 1));
        }
        if terminates(bytes[end - 1]) {
            return Some(end - 1);
        }
        end -= 1;
    }
    None
}

/// What one filling of the buffer gives: a chunk, and whether it is the last.
pub struct Emitted {
    /// The bytes of the chunk.
    pub chunk: Vec<u8>,
    /// Whether the input has ended, so that no chunk follows this one.
    pub last: bool,
}

/// Cuts a stream of bytes into chunks. The caller reads the stream and hands
/// over what it read; the producer keeps what follows the last cut until the
/// next filling.
pub struct ChunkProducer {
    capacity: usize,
    carried: Vec<u8>,
    unterminated: bool,
}

impl ChunkProducer {
    /// How many bytes the buffer holds.
    pub closed spec fn capacity(&self) -> nat {
        self.capacity as nat
    }

    /// The bytes kept from the last filling: those behind its cut.
    pub closed spec fn carried(&self) -> Seq<u8> {
        self.carried@
    }

    /// Whether the last chunk was a full buffer without a terminator, so that
    /// its last line ends only if a terminator or the end of the input
    /// follows.
    pub closed spec fn unterminated(&self) -> bool {
        self.unterminated
    }

    /// The buffer holds at least one byte, the kept bytes leave room in it,
    /// and nothing is kept behind a chunk without a terminator.
    pub open spec fn wf(&self) -> bool {
        &&& self.capacity() >= 1
        &&& self.carried().len() < self.capacity()
        &&& self.unterminated() ==> self.carried().len() == 0
    }

    /// How many bytes the next filling may bring.
    pub open spec fn spec_room(&self) -> int {
        self.capacity() - self.carried().len()
    }

    /// A producer with an empty buffer of `capacity` bytes.
    pub fn new(capacity: usize) -> (producer: ChunkProducer)
        requires
            capacity >= 1,
        ensures
            producer.wf(),
            producer.capacity() == capacity,
            producer.carried() == Seq::<u8>::empty(),
            !producer.unterminated(),
    {
        ChunkProducer { capacity, carried: Vec::new(), unterminated: false }
    }

    /// How many bytes the next filling may bring.
    pub fn room(&self) -> (n: usize)
        requires
            self.wf(),
        ensures
            n == self.spec_room(),
            n >= 1,
    {
        self.capacity - self.carried.len()
    }

    /// Takes the bytes that were read behind the kept ones and cuts a chunk.
    ///
    /// `data` holds as many bytes as there is room for, or fewer where the
    /// input has ended; it then ends the last chunk. A full buffer is cut as
    /// `cut_of` says, and what stands behind the cut is kept. Fails with
    /// `RecordTooLarge`, and changes nothing, exactly when the chunk before
    /// was a full buffer without a terminator and `data` goes on with the same
    /// line.
    pub fn fill(&mut self, data: &[u8]) -> (r: Result<Emitted, SortError>)
        requires
            old(self).wf(),
            data@.len() <= old(self).spec_room(),
        ensures
            final(self).wf(),
            final(self).capacity() == old(self).capacity(),
            match r {
                Err(e) => {
                    &&& e == SortError::RecordTooLarge
                    &&& old(self).unterminated() && data@.len() > 0 && !is_terminator(data@[0])
                    &&& final(self).carried() == old(self).carried()
                    &&& final(self).unterminated()
                },
                Ok(emitted) => {
                    let buffer = old(self).carried() + data@;
                    &&& !(old(self).unterminated() && data@.len() > 0 && !is_terminator(data@[0]))
                    &&& emitted.last == (data@.len() < old(self).spec_room())
                    &&& emitted.last ==> {
                        &&& emitted.chunk@ == buffer
                        &&& final(self).carried() == Seq::<u8>::empty()
                        &&& !final(self).unterminated()
                    }
                    &&& !emitted.last ==> {
                        &&& emitted.chunk@ == buffer.take(cut_of(buffer))
                        &&& final(self).carried() == buffer.skip(cut_of(buffer))
                        &&& final(self).unterminated() == (last_terminator(buffer) is None)
                    }
                },
            },
    {
        if self.unterminated && data.len() > 0 && !terminates(data[0]) {
            return Err(SortError::RecordTooLarge);
        }
        let room = self.capacity - self.carried.len();
        let mut chunk: Vec<u8> = Vec::new();
        core::mem::swap(&mut self.carried, &mut chunk);
        chunk.extend_from_slice(data);
        assert(chunk@ =~= old(self).carried() + data@);
        if data.len() < room {
            self.unterminated = false;
            return Ok(Emitted { chunk, last: true });
        }
        proof {
            lemma_last_terminator(chunk@);
        }
        match find_last_terminator(chunk.as_slice()) {
            None => {
                self.unterminated = true;
            },
            Some(at) => {
                let cut = if at == 0 {
                    1
                } else {
                    at
                };
                self.carried = chunk.split_off(cut);
                self.unterminated = false;
            },
        }
        proof {
            let buffer = old(self).carried() + data@;
            assert(chunk@ =~= buffer.take(cut_of(buffer)));
            assert(self.carried@ =~= buffer.skip(cut_of(buffer)));
        }
        Ok(Emitted { chunk, last: false })
    }
}

/// What holds of a producer that has taken the first `pos` bytes of `input` and
/// keeps those from `start` on: no line that ends before `pos` is longer than
/// the buffer, and `start` is a boundary between lines, unless the chunk before
/// was a full buffer without a terminator.
spec fn in_step(input: Seq<u8>, capacity: int, start: int, pos: int, unterminated: bool) -> bool {
    &&& capacity >= 1
    &&& 0 <= start <= pos <= input.len()
    &&& pos - start < capacity
    &&& forall|at: int|
        0 <= at && at + capacity < pos ==> #[trigger] window_has_terminator(input, at, capacity)
    &&& !unterminated ==> start == 0 || is_terminator(input[start - 1]) || (start < pos
        && is_terminator(input[start]))
    &&& unterminated ==> start == pos && pos >= capacity && forall|j: int|
        pos - capacity <= j < pos ==> !is_terminator(input[j])
}

/// The line that a full buffer without a terminator began goes on: it is longer
/// than the buffer.
proof fn lemma_step_fails(input: Seq<u8>, capacity: int, start: int, pos: int)
    requires
        in_step(input, capacity, start, pos, true),
        pos < input.len(),
        !is_terminator(input[pos]),
    ensures
        has_oversized_record(input, capacity),
{
    assert(!window_has_terminator(input, pos - capacity, capacity));
}

/// A window that reaches over `start` holds a terminator.
proof fn lemma_window_over_start(
    input: Seq<u8>,
    capacity: int,
    start: int,
    pos: int,
    unterminated: bool,
    at: int,
)
    requires
        in_step(input, capacity, start, pos, unterminated),
        !(unterminated && pos < input.len() && !is_terminator(input[pos])),
        0 <= at < start,
        pos <= at + capacity < input.len(),
    ensures
        window_has_terminator(input, at, capacity),
{
    if unterminated {
        assert(is_terminator(input[pos]));
    } else if is_terminator(input[start - 1]) {
    } else {
        assert(is_terminator(input[start]));
    }
}

/// With fewer bytes left than the buffer holds, they are the last chunk, and
/// no line of the input was longer than the buffer.
proof fn lemma_step_last(input: Seq<u8>, capacity: int, start: int, pos: int, unterminated: bool)
    requires
        in_step(input, capacity, start, pos, unterminated),
        !(unterminated && pos < input.len() && !is_terminator(input[pos])),
        input.len() - start < capacity,
    ensures
        !has_oversized_record(input, capacity),
        chunks_of(input.skip(start), capacity) == seq![input.skip(start)],
{
    assert forall|at: int| 0 <= at && at + capacity < input.len() implies #[trigger] window_has_terminator(
    input, at, capacity) by {
        if at + capacity >= pos {
            lemma_window_over_start(input, capacity, start, pos, unterminated, at);
        }
    }
}

/// With a full buffer cut, what holds of the producer holds again behind the
/// cut, and the chunks of what was left are the cut chunk, then those of what
/// is left now.
proof fn lemma_step_cut(input: Seq<u8>, capacity: int, start: int, pos: int, unterminated: bool)
    requires
        in_step(input, capacity, start, pos, unterminated),
        !(unterminated && pos < input.len() && !is_terminator(input[pos])),
        input.len() - start >= capacity,
    ensures
        ({
            let buffer = input.subrange(start, start + capacity);
            let cut = cut_of(buffer);
            &&& 1 <= cut <= capacity
            &&& in_step(
                input,
                capacity,
                start + cut,
                start + capacity,
                last_terminator(buffer) is None,
            )
            &&& chunks_of(input.skip(start), capacity) == seq![buffer.take(cut)] + chunks_of(
                input.skip(start + cut),
                capacity,
            )
        }),
{
    let buffer = input.subrange(start, start + capacity);
    let cut = cut_of(buffer);
    let rest = input.skip(start);
    lemma_cut_of(buffer);
    lemma_last_terminator(buffer);
    assert(rest.take(capacity) =~= buffer);
    assert(rest.take(cut) =~= buffer.take(cut));
    assert(rest.skip(cut) =~= input.skip(start + cut));
    assert forall|at: int| 0 <= at && at + capacity < start + capacity implies #[trigger] window_has_terminator(
    input, at, capacity) by {
        if at + capacity >= pos {
            lemma_window_over_start(input, capacity, start, pos, unterminated, at);
        }
    }
    match last_terminator(buffer) {
        Some(at) => {
            assert(buffer[at] == input[start + at]);
        },
        None => {
            assert forall|j: int| start <= j < start + capacity implies !is_terminator(
                input[j],
            ) by {
                assert(buffer[j - start] == input[j]);
            }
        },
    }
}

/// Cuts `input` into chunks with a buffer of `capacity` bytes, as a producer
/// does that is filled from `input` until it ends. Fails with `RecordTooLarge`
/// exactly when a line of `input` is longer than `capacity` bytes. A buffer of
/// no bytes takes an input without lines, as one chunk.
pub fn split_chunks(input: &[u8], capacity: usize) -> (r: Result<Vec<Vec<u8>>, SortError>)
    ensures
        match r {
            Ok(chunks) => !has_oversized_record(input@, capacity as int) && lines_of(chunks@)
                == chunks_of(input@, capacity as int),
            Err(e) => e == SortError::RecordTooLarge && has_oversized_record(
                input@,
                capacity as int,
            ),
        },
{
    let mut chunks: Vec<Vec<u8>> = Vec::new();
    if capacity == 0 {
        let mut at: usize = 0;
        while at < input.len()
            invariant
                capacity == 0,
                at <= input@.len(),
                forall|j: int| 0 <= j < at ==> is_terminator(input@[j]),
            decreases input@.len() - at,
        {
            if !terminates(input[at]) {
                proof {
                    assert(!window_has_terminator(input@, at as int, capacity as int));
                    assert(has_oversized_record(input@, capacity as int));
                }
                return Err(SortError::RecordTooLarge);
            }
            at += 1;
        }
        proof {
            assert forall|at: int| 0 <= at < input@.len() implies #[trigger] window_has_terminator(
            input@, at, capacity as int) by {
                assert(is_terminator(input@[at]));
            }
        }
        chunks.push(slice_to_vec(input));
        assert(lines_of(chunks@) =~= seq![input@]);
        return Ok(chunks);
    }
    let mut producer = ChunkProducer::new(capacity);
    let mut pos: usize = 0;
    proof {
        assert(input@.skip(0) =~= input@);
        assert(lines_of(chunks@) + chunks_of(input@, capacity as int) =~= chunks_of(
            input@,
            capacity as int,
        ));
        assert(producer.carried() =~= input@.subrange(0, 0));
    }
    loop
        invariant
            producer.wf(),
            producer.capacity() == capacity,
            producer.carried().len() <= pos,
            in_step(
                input@,
                capacity as int,
                pos - producer.carried().len(),
                pos as int,
                producer.unterminated(),
            ),
            producer.carried() == input@.subrange(pos - producer.carried().len(), pos as int),
            lines_of(chunks@) + chunks_of(
                input@.skip(pos - producer.carried().len()),
                capacity as int,
            ) == chunks_of(input@, capacity as int),
        decreases input@.len() - (pos - producer.carried().len()),
    {
        let ghost start = pos - producer.carried().len();
        let ghost unterminated = producer.unterminated();
        let ghost done = lines_of(chunks@);
        let room = producer.room();
        let left = input.len() - pos;
        let n = if left < room {
            left
        } else {
            room
        };
        let data = slice_subrange(input, pos, pos + n);
        proof {
            assert(producer.carried() + data@ =~= input@.subrange(start, pos + n));
            if n > 0 {
                assert(data@[0] == input@[pos as int]);
            }
        }
        match producer.fill(data) {
            Err(e) => {
                proof {
                    lemma_step_fails(input@, capacity as int, start, pos as int);
                }
                return Err(e);
            },
            Ok(emitted) => {
                proof {
                    assert(lines_of(chunks@.push(emitted.chunk)) =~= done.push(emitted.chunk@));
                    if emitted.last {
                        lemma_step_last(input@, capacity as int, start, pos as int, unterminated);
                        assert(input@.skip(start) =~= emitted.chunk@);
                        assert(done.push(emitted.chunk@) =~= done + seq![emitted.chunk@]);
                    } else {
                        lemma_step_cut(input@, capacity as int, start, pos as int, unterminated);
                        let buffer = input@.subrange(start, start + capacity);
                        let cut = cut_of(buffer);
                        assert(buffer.skip(cut) =~= input@.subrange(start + cut, pos + n));
                        assert(done.push(emitted.chunk@) + chunks_of(
                            input@.skip(start + cut),
                            capacity as int,
                        ) =~= done + (seq![emitted.chunk@] + chunks_of(
                            input@.skip(start + cut),
                            capacity as int,
                        )));
                    }
                }
                pos += n;
                chunks.push(emitted.chunk);
                if emitted.last {
                    return Ok(chunks);
                }
            },
        }
    }
}

/// The chunks, one after the other, are the input: no byte is lost, added or
/// moved.
pub proof fn lemma_chunks_concat(input: Seq<u8>, capacity: int)
    ensures
        chunks_of(input, capacity).flatten() == input,
    decreases input.len(),
{
    let chunks = chunks_of(input, capacity);
    if capacity < 1 || input.len() < capacity {
        chunks.lemma_flatten_one_element();
    } else {
        let cut = cut_of(input.take(capacity));
        lemma_cut_of(input.take(capacity));
        lemma_chunks_concat(input.skip(cut), capacity);
        assert(chunks.drop_first() =~= chunks_of(input.skip(cut), capacity));
        assert(chunks.flatten() =~= input.take(cut) + input.skip(cut));
        assert(input.take(cut) + input.skip(cut) =~= input);
    }
}

/// No chunk is longer than the buffer.
pub proof fn lemma_chunks_fit(input: Seq<u8>, capacity: int)
    requires
        capacity >= 1,
    ensures
        forall|k: int|
            0 <= k < chunks_of(input, capacity).len() ==> (#[trigger] chunks_of(
                input,
                capacity,
            )[k]).len() <= capacity,
    decreases input.len(),
{
    if input.len() >= capacity {
        let cut = cut_of(input.take(capacity));
        lemma_cut_of(input.take(capacity));
        lemma_chunks_fit(input.skip(cut), capacity);
        let rest = chunks_of(input.skip(cut), capacity);
        assert forall|k: int| 0 <= k < chunks_of(input, capacity).len() implies (
        #[trigger] chunks_of(input, capacity)[k]).len() <= capacity by {
            if k > 0 {
                assert(chunks_of(input, capacity)[k] == rest[k - 1]);
            }
        }
    }
}

/// Where no line is longer than the buffer, what is left behind a cut holds
/// no such line either.
proof fn lemma_oversized_in_rest(input: Seq<u8>, capacity: int, cut: int)
    requires
        0 <= cut <= input.len(),
        has_oversized_record(input.skip(cut), capacity),
    ensures
        has_oversized_record(input, capacity),
{
    let rest = input.skip(cut);
    let at = choose|at: int|
        0 <= at && at + capacity < rest.len() && !#[trigger] window_has_terminator(
            rest,
            at,
            capacity,
        );
    if window_has_terminator(input, cut + at, capacity) {
        let j = choose|j: int| cut + at <= j <= cut + at + capacity && is_terminator(
            #[trigger] input[j],
        );
        assert(rest[j - cut] == input[j]);
    }
}

/// Where no line is longer than the buffer, every cut falls between lines: the
/// chunks hold the lines of the input, each whole and in its place.
pub proof fn lemma_chunk_records(input: Seq<u8>, capacity: int)
    requires
        !has_oversized_record(input, capacity),
    ensures
        chunk_records(chunks_of(input, capacity)) == records(input),
    decreases input.len(),
{
    let chunks = chunks_of(input, capacity);
    if capacity < 1 || input.len() < capacity {
        assert(chunk_records(chunks.drop_first()) =~= Seq::<Seq<u8>>::empty());
        assert(chunk_records(chunks) =~= records(input));
    } else {
        let buffer = input.take(capacity);
        let cut = cut_of(buffer);
        let first = input.take(cut);
        let rest = input.skip(cut);
        lemma_cut_of(buffer);
        lemma_last_terminator(buffer);
        assert(input =~= first + rest);
        assert(is_boundary(input, cut)) by {
            match last_terminator(buffer) {
                Some(at) => {
                    assert(buffer[at] == input[at]);
                },
                None => {
                    if capacity < input.len() {
                        assert(window_has_terminator(input, 0, capacity));
                        let j = choose|j: int| 0 <= j <= capacity && is_terminator(
                            #[trigger] input[j],
                        );
                        if j < capacity {
                            assert(buffer[j] == input[j]);
                        }
                    }
                },
            }
        }
        lemma_records_concat(first, rest);
        if has_oversized_record(rest, capacity) {
            lemma_oversized_in_rest(input, capacity, cut);
        }
        lemma_chunk_records(rest, capacity);
        assert(chunks.drop_first() =~= chunks_of(rest, capacity));
        assert(chunks[0] == first);
    }
}

} // verus!
