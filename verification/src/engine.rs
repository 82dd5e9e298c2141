//! The steps of a merge, decided one line at a time.

use vstd::prelude::*;

use crate::by_fst::ByFst;
use crate::frontier::{is_least, MergeFrontier};
use crate::record::{well_formed, Item, SortError};

verus! {

/// Decides the steps of a merge. Whoever drives it reads the runs: it asks
/// which run the engine waits for, reads the next line of that run, hands the
/// line over, and writes out what the engine gives back, until the engine
/// waits for no run.
///
/// The engine first takes the first line of every run, in the order of the
/// runs. From then on each line that it is handed comes from the run whose line
/// it gave out last, and it gives out the least of the lines that it holds.
pub struct MergeEngine {
    frontier: MergeFrontier,
    awaited: usize,
    opening: bool,
}

impl MergeEngine {
    /// How many runs are merged.
    pub closed spec fn streams(&self) -> nat {
        self.frontier.slots()
    }

    /// The line that is held of each run, by the number of the run.
    pub closed spec fn heads(&self) -> Map<int, Seq<u8>> {
        self.frontier@
    }

    /// The run whose next line the engine waits for; none once the merge is
    /// done.
    pub closed spec fn awaited(&self) -> Option<int> {
        if self.awaited < self.frontier.slots() {
            Some(self.awaited as int)
        } else {
            None
        }
    }

    /// Whether the engine is still taking the first lines of the runs.
    pub closed spec fn opening(&self) -> bool {
        self.opening
    }

    /// The engine holds no line of the run it waits for, while it takes the
    /// first lines only lines of the runs before that one, and no line once it
    /// waits for no run.
    pub closed spec fn wf(&self) -> bool {
        &&& self.frontier.wf()
        &&& self.awaited <= self.frontier.slots()
        &&& !self.frontier@.dom().contains(self.awaited as int)
        &&& self.opening ==> self.awaited < self.frontier.slots() && forall|s: int|
            #[trigger] self.frontier@.dom().contains(s) ==> s < self.awaited
        &&& self.awaited == self.frontier.slots() ==> self.frontier@ == Map::<
            int,
            Seq<u8>,
        >::empty()
    }

    /// What `wf` says, for those who see the engine from outside.
    pub proof fn lemma_wf(&self)
        requires
            self.wf(),
        ensures
            forall|s: int| #[trigger] self.heads().dom().contains(s) ==> 0 <= s < self.streams(),
            self.awaited() matches Some(s) ==> 0 <= s < self.streams()
                && !self.heads().dom().contains(s),
            self.opening() ==> self.awaited() is Some && forall|s: int|
                #[trigger] self.heads().dom().contains(s) ==> s < self.awaited().unwrap(),
            self.awaited() is None ==> self.heads() == Map::<int, Seq<u8>>::empty(),
    {
        self.frontier.lemma_bounds();
    }

    /// An engine for `streams` runs that holds no line yet and waits for the
    /// first run, if there is one.
    pub fn new(streams: usize) -> (engine: MergeEngine)
        ensures
            engine.wf(),
            engine.streams() == streams,
            engine.heads() == Map::<int, Seq<u8>>::empty(),
            engine.awaited() == if streams > 0 {
                Some(0int)
            } else {
                None
            },
            engine.opening() == (streams > 0),
    {
        MergeEngine { frontier: MergeFrontier::new(streams), awaited: 0, opening: streams > 0 }
    }

    /// The run whose next line the engine waits for; none once the merge is
    /// done.
    pub fn awaited_stream(&self) -> (r: Option<usize>)
        requires
            self.wf(),
        ensures
            match r {
                Some(s) => self.awaited() == Some(s as int),
                None => self.awaited() is None,
            },
    {
        if self.awaited < self.frontier.runs() {
            Some(self.awaited)
        } else {
            None
        }
    }

    /// Takes `line`, the next line of the awaited run, or no bytes where that
    /// run has no line left, and gives back the line to write out next, if one
    /// is due.
    ///
    /// A line is held as the head of its run. While first lines are still to
    /// be taken, the engine then waits for the next run and gives nothing
    /// back. Otherwise it gives back the least line that it holds, as `is_least`
    /// says, and waits for the run of that line; with no line held the merge
    /// is done. Fails with `MalformedRecord`, and changes nothing, exactly when
    /// `line` has bytes and is no record.
    pub fn feed(&mut self, line: Vec<u8>) -> (r: Result<Option<Vec<u8>>, SortError>)
        requires
            old(self).wf(),
            old(self).awaited() is Some,
        ensures
            final(self).wf(),
            final(self).streams() == old(self).streams(),
            match r {
                Err(e) => {
                    &&& e == SortError::MalformedRecord
                    &&& line@.len() > 0 && !well_formed(line@)
                    &&& final(self).heads() == old(self).heads()
                    &&& final(self).awaited() == old(self).awaited()
                    &&& final(self).opening() == old(self).opening()
                },
                Ok(out) => {
                    let from = old(self).awaited().unwrap();
                    let held = if line@.len() > 0 {
                        old(self).heads().insert(from, line@)
                    } else {
                        old(self).heads()
                    };
                    &&& line@.len() == 0 || well_formed(line@)
                    &&& if old(self).opening() && from + 1 < old(self).streams() {
                        &&& out is None
                        &&& final(self).heads() == held
                        &&& final(self).awaited() == Some(from + 1)
                        &&& final(self).opening()
                    } else {
                        &&& !final(self).opening()
                        &&& match out {
                            None => {
                                &&& held == Map::<int, Seq<u8>>::empty()
                                &&& final(self).heads() == held
                                &&& final(self).awaited() is None
                            },
                            Some(least) => {
                                &&& final(self).awaited() matches Some(next)
                                &&& is_least(held, next)
                                &&& least@ == held[next]
                                &&& final(self).heads() == held.remove(next)
                            },
                        }
                    }
                },
            },
    {
        let from = self.awaited;
        proof {
            self.frontier.lemma_bounds();
        }
        if line.len() > 0 {
            match Item::parse(line) {
                Err(e) => {
                    return Err(e);
                },
                Ok(item) => {
                    self.frontier.push(ByFst(item, from));
                },
            }
        }
        let ghost held = self.frontier@;
        if self.opening && self.frontier.runs() - from > 1 {
            self.awaited = from + 1;
            return Ok(None);
        }
        self.opening = false;
        match self.frontier.pop() {
            None => {
                self.awaited = self.frontier.runs();
                Ok(None)
            },
            Some(entry) => {
                let ByFst(item, next) = entry;
                let Item(_, bytes) = item;
                self.awaited = next;
                proof {
                    self.frontier.lemma_bounds();
                    assert(held.dom().contains(next as int));
                }
                Ok(Some(bytes))
            },
        }
    }
}

} // verus!
