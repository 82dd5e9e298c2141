//! Records: what a line holds, and the order of lines.

use core::cmp::Ordering;
use vstd::prelude::*;
use vstd::relations::*;
use vstd::slice::slice_subrange;

use crate::lex::{
    lemma_lex_antisymmetric, lemma_lex_reflexive, lemma_lex_total, lemma_lex_transitive, lex_le,
    lex_lt, mismatch,
};
use crate::number::{parse_int, parse_number};

verus! {

/// The byte that ends the integer of a line.
pub const DELIMITER: u8 = 46;

/// How many bytes lie between the integer and the text: the delimiter and one
/// byte of padding.
pub const DELIMITER_WIDTH: usize = 2;

/// Why an input cannot be sorted.
#[derive(Debug, Clone, Copy, PartialEq, Eq, Structural)]
pub enum SortError {
    /// A line has no delimiter, or what stands before it is no integer.
    MalformedRecord,
    /// A single line is longer than the buffer that chunks are cut with.
    RecordTooLarge,
}

/// Where the first delimiter of `line` stands; the length of `line` if it has
/// none.
pub open spec fn delimiter_index(line: Seq<u8>) -> int
    decreases line.len(),
{
    if line.len() == 0 || line[0] == DELIMITER {
        0
    } else {
        1 + delimiter_index(line.drop_first())
    }
}

/// Where the text of `line` begins: `DELIMITER_WIDTH` bytes after the start of
/// the delimiter, or at the end of a line that stops before that.
pub open spec fn key_start(line: Seq<u8>) -> int {
    if delimiter_index(line) + DELIMITER_WIDTH <= line.len() {
        delimiter_index(line) + DELIMITER_WIDTH
    } else {
        line.len() as int
    }
}

/// The text of `line`, by which lines are ordered first.
pub open spec fn key_of(line: Seq<u8>) -> Seq<u8> {
    line.skip(key_start(line))
}

/// The bytes of `line` before its first delimiter.
pub open spec fn prefix_of(line: Seq<u8>) -> Seq<u8> {
    line.take(delimiter_index(line))
}

/// The integer of `line`, by which lines with the same text are ordered; zero
/// where the line writes none.
pub open spec fn seq_of(line: Seq<u8>) -> int {
    match parse_int(prefix_of(line)) {
        Some(v) => v,
        None => 0,
    }
}

/// `line` is a record: it has a delimiter, and an integer before it.
pub open spec fn well_formed(line: Seq<u8>) -> bool {
    delimiter_index(line) < line.len() && parse_int(prefix_of(line)) is Some
}

/// `a` is ordered strictly before `b`: by its text, or with the same text by
/// its integer.
pub open spec fn comes_before(a: Seq<u8>, b: Seq<u8>) -> bool {
    lex_lt(key_of(a), key_of(b)) || (key_of(a) == key_of(b) && seq_of(a) < seq_of(b))
}

/// `a` and `b` have the same text and the same integer.
pub open spec fn ties(a: Seq<u8>, b: Seq<u8>) -> bool {
    key_of(a) == key_of(b) && seq_of(a) == seq_of(b)
}

/// `a` is not ordered after `b`.
pub open spec fn comparator_le(a: Seq<u8>, b: Seq<u8>) -> bool {
    comes_before(a, b) || ties(a, b)
}

/// `comparator_le` as a relation.
pub open spec fn comparator_order() -> spec_fn(Seq<u8>, Seq<u8>) -> bool {
    |a: Seq<u8>, b: Seq<u8>| comparator_le(a, b)
}

/// The first delimiter stands inside the line or at its end, no delimiter
/// stands before it, and one stands there unless the line has none.
pub proof fn lemma_delimiter_index(line: Seq<u8>)
    ensures
        0 <= delimiter_index(line) <= line.len(),
        forall|j: int| 0 <= j < delimiter_index(line) ==> line[j] != DELIMITER,
        delimiter_index(line) < line.len() ==> line[delimiter_index(line)] == DELIMITER,
    decreases line.len(),
{
    if line.len() > 0 && line[0] != DELIMITER {
        let rest = line.drop_first();
        lemma_delimiter_index(rest);
        assert forall|j: int| 0 <= j < delimiter_index(line) implies line[j] != DELIMITER by {
            if j > 0 {
                assert(line[j] == rest[j - 1]);
            }
        }
        assert(delimiter_index(rest) < rest.len() ==> line[delimiter_index(line)]
            == rest[delimiter_index(rest)]);
    }
}

/// A position with no delimiter before it, and a delimiter at it unless it
/// is the end of the line, is where the first delimiter stands.
pub proof fn lemma_delimiter_index_is(line: Seq<u8>, i: int)
    requires
        0 <= i <= line.len(),
        forall|j: int| 0 <= j < i ==> line[j] != DELIMITER,
        i < line.len() ==> line[i] == DELIMITER,
    ensures
        delimiter_index(line) == i,
{
    lemma_delimiter_index(line);
}

/// Of two lines exactly one holds: the first is ordered before the second, they
/// tie, or the second is ordered before the first.
pub proof fn lemma_trichotomy(a: Seq<u8>, b: Seq<u8>)
    ensures
        comes_before(a, b) || ties(a, b) || comes_before(b, a),
        !(comes_before(a, b) && ties(a, b)),
        !(comes_before(b, a) && ties(a, b)),
        !(comes_before(a, b) && comes_before(b, a)),
{
    lemma_lex_total(key_of(a), key_of(b));
    if lex_le(key_of(a), key_of(b)) && lex_le(key_of(b), key_of(a)) {
        lemma_lex_antisymmetric(key_of(a), key_of(b));
    }
}

/// Being ordered strictly before is transitive, also across a tie.
pub proof fn lemma_comes_before_transitive(a: Seq<u8>, b: Seq<u8>, c: Seq<u8>)
    requires
        comparator_le(a, b),
        comparator_le(b, c),
    ensures
        comparator_le(a, c),
        comes_before(a, b) || comes_before(b, c) ==> comes_before(a, c),
{
    if lex_lt(key_of(a), key_of(b)) || lex_lt(key_of(b), key_of(c)) {
        lemma_lex_reflexive(key_of(b));
        lemma_lex_transitive(key_of(a), key_of(b), key_of(c));
        if key_of(a) == key_of(c) {
            lemma_lex_antisymmetric(key_of(a), key_of(b));
        }
    }
}

/// `comparator_le` is reflexive and transitive and compares every pair. Lines
/// that tie under it need not be the same line.
pub proof fn lemma_comparator_order()
    ensures
        pre_ordering(comparator_order()),
        strongly_connected(comparator_order()),
{
    let r = comparator_order();
    assert forall|x: Seq<u8>, y: Seq<u8>, z: Seq<u8>| #[trigger] r(x, y) && #[trigger] r(
        y,
        z,
    ) implies r(x, z) by {
        lemma_comes_before_transitive(x, y, z);
    }
    assert forall|x: Seq<u8>, y: Seq<u8>| #[trigger] r(x, y) || #[trigger] r(y, x) by {
        lemma_trichotomy(x, y);
    }
}

/// One line of the input: where its first delimiter stands, and its bytes
/// without the line terminator.
#[derive(Debug, PartialEq, Eq)]
pub struct Item(pub usize, pub Vec<u8>);

impl View for Item {
    type V = Seq<u8>;

    /// The bytes of the line.
    open spec fn view(&self) -> Seq<u8> {
        self.1@
    }
}

impl Item {
    /// The line is a record, and the first field is where its first delimiter
    /// stands.
    pub open spec fn wf(&self) -> bool {
        well_formed(self@) && self.0 == delimiter_index(self@)
    }

    /// Reads `line` as a record. Fails with `MalformedRecord` exactly when the
    /// line has no delimiter or no integer before it.
    pub fn parse(line: Vec<u8>) -> (r: Result<Item, SortError>)
        ensures
            match r {
                Ok(item) => well_formed(line@) && item.wf() && item.1 == line,
                Err(e) => !well_formed(line@) && e == SortError::MalformedRecord,
            },
    {
        let at = find_delimiter(line.as_slice());
        if at == line.len() {
            return Err(SortError::MalformedRecord);
        }
        let parsed = parse_number(slice_subrange(line.as_slice(), 0, at));
        if parsed.is_none() {
            return Err(SortError::MalformedRecord);
        }
        Ok(Item(at, line))
    }

    /// The bytes of the line, as they were read.
    pub fn serialize(&self) -> (bytes: Vec<u8>)
        ensures
            bytes@ == self@,
    {
        self.1.clone()
    }

    /// The integer of the record.
    pub fn seq(&self) -> (v: i32)
        requires
            self.wf(),
        ensures
            v == seq_of(self@),
    {
        match parse_number(slice_subrange(self.1.as_slice(), 0, self.0)) {
            Some(v) => v,
            None => 0,
        }
    }

    /// The text of the record.
    pub fn key(&self) -> (k: &[u8])
        requires
            self.wf(),
        ensures
            k@ == key_of(self@),
    {
        let len = self.1.len();
        let start = if len - self.0 >= DELIMITER_WIDTH {
            self.0 + DELIMITER_WIDTH
        } else {
            len
        };
        slice_subrange(self.1.as_slice(), start, len)
    }

    /// Orders two records: by text, byte by byte, and records with the same
    /// text by their integers.
    pub fn cmp(&self, other: &Item) -> (o: Ordering)
        requires
            self.wf(),
            other.wf(),
        ensures
            o == Ordering::Less <==> comes_before(self@, other@),
            o == Ordering::Equal <==> ties(self@, other@),
            o == Ordering::Greater <==> comes_before(other@, self@),
    {
        proof {
            lemma_trichotomy(self@, other@);
        }
        let mine = self.key();
        let theirs = other.key();
        let n = mismatch(mine, theirs);
        if n < mine.len() && n < theirs.len() {
            if mine[n] < theirs[n] {
                Ordering::Less
            } else {
                Ordering::Greater
            }
        } else if n < theirs.len() {
            Ordering::Less
        } else if n < mine.len() {
            Ordering::Greater
        } else {
            let x = self.seq();
            let y = other.seq();
            if x < y {
                Ordering::Less
            } else if x > y {
                Ordering::Greater
            } else {
                Ordering::Equal
            }
        }
    }

    /// Whether this record is not ordered after `other`: it is ordered before
    /// it, or ties with it.
    pub fn precedes(&self, other: &Item) -> (r: bool)
        requires
            self.wf(),
            other.wf(),
        ensures
            r == comparator_le(self@, other@),
    {
        proof {
            lemma_trichotomy(self@, other@);
        }
        match self.cmp(other) {
            Ordering::Less => true,
            Ordering::Equal => true,
            Ordering::Greater => false,
        }
    }
}

/// Where the first delimiter of `line` stands; the length of `line` if it has
/// none.
pub fn find_delimiter(line: &[u8]) -> (at: usize)
    ensures
        at == delimiter_index(line@),
        at <= line@.len(),
{
    let mut at: usize = 0;
    while at < line.len() && line[at] != DELIMITER
        invariant
            at <= line@.len(),
            forall|j: int| 0 <= j < at ==> line@[j] != DELIMITER,
        decreases line@.len() - at,
    {
        at += 1;
    }
    proof {
        lemma_delimiter_index_is(line@, at as int);
    }
    at
}

} // verus!
