//! Staging the output in memory, so that it is written in large pieces.

use vstd::prelude::*;

use crate::lines::NEWLINE;

verus! {

/// The bytes that were handed back, if any were.
pub open spec fn written(flushed: Option<Vec<u8>>) -> Seq<u8> {
    match flushed {
        Some(bytes) => bytes@,
        None => Seq::empty(),
    }
}

/// Collects lines until they fill a buffer. What it hands back is to be
/// written out, in the order in which it is handed back.
pub struct OutputStage {
    capacity: usize,
    staged: Vec<u8>,
}

impl OutputStage {
    /// How many bytes are collected before they are handed back.
    pub closed spec fn capacity(&self) -> nat {
        self.capacity as nat
    }

    /// The bytes that are collected and not handed back yet.
    pub closed spec fn staged(&self) -> Seq<u8> {
        self.staged@
    }

    /// An empty stage that collects up to `capacity` bytes.
    pub fn new(capacity: usize) -> (stage: OutputStage)
        ensures
            stage.capacity() == capacity,
            stage.staged() == Seq::<u8>::empty(),
    {
        OutputStage { capacity, staged: Vec::new() }
    }

    /// Adds `line` and a newline. Where they would not fit behind the bytes
    /// that are collected, those bytes are handed back first, to be written
    /// out.
    pub fn push_line(&mut self, line: &[u8]) -> (flushed: Option<Vec<u8>>)
        ensures
            final(self).capacity() == old(self).capacity(),
            written(flushed) + final(self).staged() == old(self).staged() + line@ + seq![NEWLINE],
            match flushed {
                Some(bytes) => {
                    &&& old(self).staged().len() + line@.len() + 1 > old(self).capacity()
                    &&& old(self).staged().len() > 0
                    &&& bytes@ == old(self).staged()
                    &&& final(self).staged() == line@ + seq![NEWLINE]
                },
                None => {
                    &&& old(self).staged().len() + line@.len() + 1 <= old(self).capacity()
                        || old(self).staged().len() == 0
                    &&& final(self).staged() == old(self).staged() + line@ + seq![NEWLINE]
                },
            },
    {
        let room = if self.capacity >= self.staged.len() {
            self.capacity - self.staged.len()
        } else {
            0
        };
        let fits = line.len() < room;
        let mut flushed: Option<Vec<u8>> = None;
        if !fits && self.staged.len() > 0 {
            let mut bytes: Vec<u8> = Vec::new();
            core::mem::swap(&mut self.staged, &mut bytes);
            flushed = Some(bytes);
        }
        let ghost before = self.staged@;
        self.staged.extend_from_slice(line);
        self.staged.push(NEWLINE);
        assert(self.staged@ =~= before + line@ + seq![NEWLINE]);
        assert(written(flushed) + self.staged@ =~= old(self).staged() + line@ + seq![NEWLINE]);
        flushed
    }

    /// Hands back what is left, to be written out last.
    pub fn finish(self) -> (bytes: Vec<u8>)
        ensures
            bytes@ == self.staged(),
    {
        self.staged
    }
}

} // verus!
