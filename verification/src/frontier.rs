//! The merge frontier: the line at the head of every run that has lines left.

use vstd::prelude::*;

use crate::by_fst::ByFst;
use crate::record::{
    comes_before, comparator_le, lemma_comes_before_transitive, lemma_trichotomy, ties, Item,
};

verus! {

/// `t` names the head to take next among `heads`: no head is ordered before
/// it, and of the runs whose heads tie with it it is the first.
pub open spec fn is_least(heads: Map<int, Seq<u8>>, t: int) -> bool {
    &&& heads.dom().contains(t)
    &&& forall|s: int|
        #![trigger heads.dom().contains(s)]
        heads.dom().contains(s) ==> comparator_le(heads[t], heads[s]) && (ties(heads[t], heads[s])
            ==> t <= s)
}

/// The line at the head of run `s`.
spec fn line_at(heads: Seq<Option<Item>>, s: int) -> Seq<u8> {
    heads[s].unwrap()@
}

/// Run `a` is taken no later than run `b`: its head is ordered first, or the
/// heads tie and `a` is the earlier run.
spec fn entry_le(heads: Seq<Option<Item>>, a: usize, b: usize) -> bool {
    comes_before(line_at(heads, a as int), line_at(heads, b as int)) || (ties(
        line_at(heads, a as int),
        line_at(heads, b as int),
    ) && a <= b)
}

/// Of two runs one is taken no later than the other.
proof fn lemma_entry_le_total(heads: Seq<Option<Item>>, a: usize, b: usize)
    ensures
        entry_le(heads, a, b) || entry_le(heads, b, a),
{
    lemma_trichotomy(line_at(heads, a as int), line_at(heads, b as int));
}

/// Being taken no later is transitive.
proof fn lemma_entry_le_transitive(heads: Seq<Option<Item>>, a: usize, b: usize, c: usize)
    requires
        entry_le(heads, a, b),
        entry_le(heads, b, c),
    ensures
        entry_le(heads, a, c),
{
    let x = line_at(heads, a as int);
    let y = line_at(heads, b as int);
    let z = line_at(heads, c as int);
    lemma_comes_before_transitive(x, y, z);
}

/// The place above place `i` of a heap.
spec fn parent(i: int) -> int {
    (i - 1) / 2
}

/// The heap and the places agree: every member of the heap is a run with a
/// head whose place is where it stands, and every run with a head stands in
/// the heap at its place.
spec fn linked(heads: Seq<Option<Item>>, heap: Seq<usize>, place: Seq<usize>) -> bool {
    &&& place.len() == heads.len()
    &&& forall|i: int|
        0 <= i < heap.len() ==> (#[trigger] heap[i]) < heads.len() && heads[heap[i] as int] is Some
            && place[heap[i] as int] == i
    &&& forall|s: int|
        0 <= s < heads.len() && (#[trigger] heads[s]) is Some ==> place[s] < heap.len()
            && heap[place[s] as int] == s
}

/// No member of the heap is taken later than the one at the place above it.
spec fn heap_ordered(heads: Seq<Option<Item>>, heap: Seq<usize>) -> bool {
    forall|j: int| 1 <= j < heap.len() ==> entry_le(heads, heap[parent(j)], #[trigger] heap[j])
}

/// The heap is in order but for the member at place `i`, which may have to
/// move up: what stands below it is in order with what stands above it.
spec fn ordered_but_up(heads: Seq<Option<Item>>, heap: Seq<usize>, i: int) -> bool {
    &&& forall|j: int|
        1 <= j < heap.len() && j != i ==> entry_le(heads, heap[parent(j)], #[trigger] heap[j])
    &&& forall|j: int|
        1 <= j < heap.len() && parent(j) == i && i >= 1 ==> entry_le(
            heads,
            heap[parent(i)],
            #[trigger] heap[j],
        )
}

/// The heap is in order but for the member at place `i`, which may have to
/// move down: what stands below it is in order with what stands above it.
spec fn ordered_but_down(heads: Seq<Option<Item>>, heap: Seq<usize>, i: int) -> bool {
    &&& forall|j: int|
        1 <= j < heap.len() && parent(j) != i ==> entry_le(
            heads,
            heap[parent(j)],
            #[trigger] heap[j],
        )
    &&& forall|j: int|
        1 <= j < heap.len() && parent(j) == i && i >= 1 ==> entry_le(
            heads,
            heap[parent(i)],
            #[trigger] heap[j],
        )
}

/// The two members at `i` and `j` with their places changed.
spec fn swapped(heap: Seq<usize>, i: int, j: int) -> Seq<usize> {
    heap.update(i, heap[j]).update(j, heap[i])
}

/// In a heap that is in order, the member at the top is taken first.
proof fn lemma_top_is_least(heads: Seq<Option<Item>>, heap: Seq<usize>, j: int)
    requires
        heap_ordered(heads, heap),
        0 <= j < heap.len(),
        heads[heap[0] as int] is Some,
    ensures
        entry_le(heads, heap[0], heap[j]),
    decreases j,
{
    if j == 0 {
        lemma_entry_le_total(heads, heap[0], heap[0]);
    } else {
        lemma_top_is_least(heads, heap, parent(j));
        assert(entry_le(heads, heap[parent(j)], heap[j]));
        lemma_entry_le_transitive(heads, heap[0], heap[parent(j)], heap[j]);
    }
}

/// A member that is taken before the one above it moves up: the heap is then
/// in order but for the place above.
proof fn lemma_move_up(heads: Seq<Option<Item>>, heap: Seq<usize>, i: int)
    requires
        1 <= i < heap.len(),
        ordered_but_up(heads, heap, i),
        !entry_le(heads, heap[parent(i)], heap[i]),
    ensures
        ordered_but_up(heads, swapped(heap, i, parent(i)), parent(i)),
{
    let p = parent(i);
    let after = swapped(heap, i, p);
    lemma_entry_le_total(heads, heap[p], heap[i]);
    assert forall|j: int| 1 <= j < after.len() && j != p implies entry_le(
        heads,
        after[parent(j)],
        #[trigger] after[j],
    ) by {
        if j == i {
        } else if parent(j) == i {
            assert(entry_le(heads, heap[p], heap[j]));
        } else if parent(j) == p {
            assert(entry_le(heads, heap[p], heap[j]));
            lemma_entry_le_transitive(heads, heap[i], heap[p], heap[j]);
        } else {
            assert(entry_le(heads, heap[parent(j)], heap[j]));
        }
    }
    assert forall|j: int| 1 <= j < after.len() && parent(j) == p && p >= 1 implies entry_le(
        heads,
        after[parent(p)],
        #[trigger] after[j],
    ) by {
        assert(entry_le(heads, heap[parent(p)], heap[p]));
        if j != i {
            assert(entry_le(heads, heap[p], heap[j]));
            lemma_entry_le_transitive(heads, heap[parent(p)], heap[p], heap[j]);
        }
    }
}

/// A member that is taken after the least of those below it moves down: the
/// heap is then in order but for the place it moved to.
proof fn lemma_move_down(heads: Seq<Option<Item>>, heap: Seq<usize>, i: int, c: int)
    requires
        0 <= i < c < heap.len(),
        parent(c) == i,
        ordered_but_down(heads, heap, i),
        !entry_le(heads, heap[i], heap[c]),
        forall|d: int|
            0 <= d < heap.len() && parent(d) == i && d >= 1 ==> entry_le(
                heads,
                heap[c],
                #[trigger] heap[d],
            ),
    ensures
        ordered_but_down(heads, swapped(heap, i, c), c),
{
    let after = swapped(heap, i, c);
    lemma_entry_le_total(heads, heap[i], heap[c]);
    assert forall|j: int| 1 <= j < after.len() && parent(j) != c implies entry_le(
        heads,
        after[parent(j)],
        #[trigger] after[j],
    ) by {
        if j == c {
        } else if parent(j) == i {
            assert(entry_le(heads, heap[c], heap[j]));
        } else if j == i {
            assert(entry_le(heads, heap[parent(i)], heap[c]));
        } else {
            assert(entry_le(heads, heap[parent(j)], heap[j]));
        }
    }
    assert forall|j: int| 1 <= j < after.len() && parent(j) == c && c >= 1 implies entry_le(
        heads,
        after[parent(c)],
        #[trigger] after[j],
    ) by {
        assert(entry_le(heads, heap[c], heap[j]));
    }
}

/// A priority queue that holds, for each of a fixed number of runs, at most
/// one record: the one at the head of the run. It gives out the record that
/// is written next.
///
/// The records lie at the numbers of their runs. The runs that have a record
/// stand in a binary heap, and every run knows its place in the heap.
pub struct MergeFrontier {
    heads: Vec<Option<Item>>,
    heap: Vec<usize>,
    place: Vec<usize>,
}

impl View for MergeFrontier {
    type V = Map<int, Seq<u8>>;

    /// The line at the head of each run that has one here, by the number of
    /// the run.
    closed spec fn view(&self) -> Map<int, Seq<u8>> {
        Map::new(
            |s: int| 0 <= s < self.heads@.len() && self.heads@[s] is Some,
            |s: int| self.heads@[s].unwrap()@,
        )
    }
}

impl MergeFrontier {
    /// How many runs there are.
    pub closed spec fn slots(&self) -> nat {
        self.heads@.len()
    }

    /// Every head is a located record and is held at its place.
    spec fn held(&self) -> bool {
        &&& forall|s: int|
            0 <= s < self.heads@.len() && self.heads@[s] is Some ==> (
            #[trigger] self.heads@[s]).unwrap().wf()
        &&& linked(self.heads@, self.heap@, self.place@)
    }

    /// Every head is a located record, and the heap of the runs that have one
    /// is in order.
    pub closed spec fn wf(&self) -> bool {
        self.held() && heap_ordered(self.heads@, self.heap@)
    }

    /// Only runs that there are have a head.
    pub proof fn lemma_bounds(&self)
        ensures
            forall|s: int| #[trigger] self@.dom().contains(s) ==> 0 <= s < self.slots(),
    {
    }

    /// A frontier for `streams` runs, none of which has a head yet.
    pub fn new(streams: usize) -> (frontier: MergeFrontier)
        ensures
            frontier.wf(),
            frontier.slots() == streams,
            frontier@ == Map::<int, Seq<u8>>::empty(),
    {
        let mut heads: Vec<Option<Item>> = Vec::new();
        let mut place: Vec<usize> = Vec::new();
        let mut s: usize = 0;
        while s < streams
            invariant
                s <= streams,
                heads@.len() == s,
                place@.len() == s,
                forall|t: int| 0 <= t < s ==> heads@[t] is None,
            decreases streams - s,
        {
            heads.push(None);
            place.push(0);
            s += 1;
        }
        let frontier = MergeFrontier { heads, heap: Vec::new(), place };
        assert(frontier@ =~= Map::<int, Seq<u8>>::empty());
        frontier
    }

    /// How many runs there are.
    pub fn runs(&self) -> (n: usize)
        ensures
            n == self.slots(),
    {
        self.heads.len()
    }

    /// Whether the run at place `i` of the heap is taken no later than the
    /// one at place `j`.
    fn in_order(&self, i: usize, j: usize) -> (r: bool)
        requires
            self.held(),
            i < self.heap@.len(),
            j < self.heap@.len(),
        ensures
            r == entry_le(self.heads@, self.heap@[i as int], self.heap@[j as int]),
    {
        let a = self.heap[i];
        let b = self.heap[j];
        match (&self.heads[a], &self.heads[b]) {
            (Some(first), Some(second)) => {
                proof {
                    lemma_trichotomy(first@, second@);
                }
                if a <= b {
                    first.precedes(second)
                } else {
                    !second.precedes(first)
                }
            },
            _ => true,
        }
    }

    /// Changes the places of the runs at `i` and `j` of the heap.
    fn swap(&mut self, i: usize, j: usize)
        requires
            old(self).held(),
            i < old(self).heap@.len(),
            j < old(self).heap@.len(),
        ensures
            final(self).held(),
            final(self).heads == old(self).heads,
            final(self).heap@ == swapped(old(self).heap@, i as int, j as int),
    {
        let a = self.heap[i];
        let b = self.heap[j];
        self.heap[i] = b;
        self.heap[j] = a;
        self.place[b] = i;
        self.place[a] = j;
    }

    /// Moves the run at place `start` of the heap up to where it belongs.
    fn sift_up(&mut self, start: usize)
        requires
            old(self).held(),
            start < old(self).heap@.len(),
            ordered_but_up(old(self).heads@, old(self).heap@, start as int),
        ensures
            final(self).wf(),
            final(self).heads == old(self).heads,
    {
        let mut i = start;
        while i > 0 && !self.in_order((i - 1) / 2, i)
            invariant
                self.held(),
                self.heads == old(self).heads,
                i < self.heap@.len(),
                ordered_but_up(self.heads@, self.heap@, i as int),
            decreases i,
        {
            proof {
                lemma_move_up(self.heads@, self.heap@, i as int);
            }
            let above = (i - 1) / 2;
            self.swap(i, above);
            i = above;
        }
    }

    /// Moves the run at the top of the heap down to where it belongs.
    fn sift_down(&mut self)
        requires
            old(self).held(),
            ordered_but_down(old(self).heads@, old(self).heap@, 0),
        ensures
            final(self).wf(),
            final(self).heads == old(self).heads,
    {
        let n = self.heap.len();
        let mut i: usize = 0;
        while i < n / 2
            invariant
                self.held(),
                self.heads == old(self).heads,
                n == self.heap@.len(),
                ordered_but_down(self.heads@, self.heap@, i as int),
            decreases n - i,
        {
            let left = 2 * i + 1;
            let right = left + 1;
            let least = if right < n && !self.in_order(left, right) {
                right
            } else {
                left
            };
            proof {
                lemma_entry_le_total(self.heads@, self.heap@[left as int], self.heap@[left as int]);
                if right < n {
                    lemma_entry_le_total(
                        self.heads@,
                        self.heap@[left as int],
                        self.heap@[right as int],
                    );
                    lemma_entry_le_total(
                        self.heads@,
                        self.heap@[right as int],
                        self.heap@[right as int],
                    );
                }
                assert forall|d: int|
                    0 <= d < n && parent(d) == i && d >= 1 implies entry_le(
                    self.heads@,
                    self.heap@[least as int],
                    #[trigger] self.heap@[d],
                ) by {
                    assert(d == left || d == right);
                }
            }
            if self.in_order(i, least) {
                proof {
                    assert forall|j: int| 1 <= j < n implies entry_le(
                        self.heads@,
                        self.heap@[parent(j)],
                        #[trigger] self.heap@[j],
                    ) by {
                        if parent(j) == i {
                            lemma_entry_le_transitive(
                                self.heads@,
                                self.heap@[i as int],
                                self.heap@[least as int],
                                self.heap@[j],
                            );
                        }
                    }
                }
                return ;
            }
            proof {
                lemma_move_down(self.heads@, self.heap@, i as int, least as int);
            }
            self.swap(i, least);
            i = least;
        }
        proof {
            assert forall|j: int| 1 <= j < n implies entry_le(
                self.heads@,
                self.heap@[parent(j)],
                #[trigger] self.heap@[j],
            ) by {
                assert(parent(j) != i);
            }
        }
    }

    /// Puts the record `entry.0` at the head of run `entry.1`, which has no
    /// head here.
    pub fn push(&mut self, entry: ByFst<Item, usize>)
        requires
            old(self).wf(),
            entry.0.wf(),
            entry.1 < old(self).slots(),
            !old(self)@.dom().contains(entry.1 as int),
        ensures
            final(self).wf(),
            final(self).slots() == old(self).slots(),
            final(self)@ == old(self)@.insert(entry.1 as int, entry.0@),
    {
        let ByFst(item, stream) = entry;
        let last = self.heap.len();
        self.heads[stream] = Some(item);
        self.heap.push(stream);
        self.place[stream] = last;
        proof {
            assert(self@ =~= old(self)@.insert(stream as int, item@));
            assert forall|j: int| 1 <= j < self.heap@.len() && j != last implies entry_le(
                self.heads@,
                self.heap@[parent(j)],
                #[trigger] self.heap@[j],
            ) by {
                assert(entry_le(old(self).heads@, old(self).heap@[parent(j)], old(self).heap@[j]));
            }
        }
        self.sift_up(last);
    }

    /// Takes out the record that is written next, with the number of its
    /// run: the least head, and of heads that tie the one of the first run.
    /// Gives nothing, and changes nothing, when no run has a head.
    pub fn pop(&mut self) -> (r: Option<ByFst<Item, usize>>)
        requires
            old(self).wf(),
        ensures
            final(self).wf(),
            final(self).slots() == old(self).slots(),
            match r {
                None => old(self)@ == Map::<int, Seq<u8>>::empty() && final(self)@ == old(self)@,
                Some(entry) => {
                    &&& is_least(old(self)@, entry.1 as int)
                    &&& entry.0@ == old(self)@[entry.1 as int]
                    &&& entry.0.wf()
                    &&& final(self)@ == old(self)@.remove(entry.1 as int)
                },
            },
    {
        if self.heap.len() == 0 {
            assert(self@ =~= Map::<int, Seq<u8>>::empty());
            return None;
        }
        let best = self.heap[0];
        proof {
            self.lemma_top_is_least_head();
        }
        let taken = self.detach_top();
        proof {
            assert(self@ =~= old(self)@.remove(best as int));
        }
        match taken {
            Some(item) => Some(ByFst(item, best)),
            None => None,
        }
    }

    /// The run at the top of the heap has the head that is taken next.
    proof fn lemma_top_is_least_head(&self)
        requires
            self.wf(),
            self.heap@.len() > 0,
        ensures
            is_least(self@, self.heap@[0] as int),
    {
        let best = self.heap@[0];
        assert forall|s: int|
            #![trigger self@.dom().contains(s)]
            self@.dom().contains(s) implies comparator_le(self@[best as int], self@[s]) && (ties(
                self@[best as int],
                self@[s],
            ) ==> best <= s) by {
            assert(self.heads@[s] is Some);
            let at = self.place@[s] as int;
            lemma_top_is_least(self.heads@, self.heap@, at);
        }
    }

    /// Takes the run at the top out of the heap, and its record from its
    /// head.
    fn detach_top(&mut self) -> (taken: Option<Item>)
        requires
            old(self).wf(),
            old(self).heap@.len() > 0,
        ensures
            final(self).wf(),
            taken == old(self).heads@[old(self).heap@[0] as int],
            final(self).heads@ == old(self).heads@.update(old(self).heap@[0] as int, None),
    {
        let best = self.heap[0];
        let taken = self.heads[best].take();
        let last = self.heap.pop();
        proof {
            lemma_detach(old(self).heads@, old(self).heap@, old(self).place@);
        }
        match last {
            Some(moved) => {
                if self.heap.len() > 0 {
                    self.heap[0] = moved;
                    self.place[moved] = 0;
                    self.sift_down();
                }
            },
            None => {},
        }
        taken
    }
}

/// The record at the head of a run does not show in how other runs compare.
proof fn lemma_entry_le_elsewhere(heads: Seq<Option<Item>>, gone: int, a: usize, b: usize)
    requires
        0 <= gone < heads.len(),
        a < heads.len(),
        b < heads.len(),
        a != gone,
        b != gone,
    ensures
        entry_le(heads.update(gone, None), a, b) == entry_le(heads, a, b),
{
}

/// With the run at the top taken out and the last run put in its place, the
/// heap agrees with the places and is in order but for its top.
proof fn lemma_detach(heads: Seq<Option<Item>>, heap: Seq<usize>, place: Seq<usize>)
    requires
        linked(heads, heap, place),
        heap_ordered(heads, heap),
        heap.len() > 0,
    ensures
        ({
            let left = heads.update(heap[0] as int, None);
            if heap.len() == 1 {
                &&& linked(left, heap.drop_last(), place)
                &&& heap_ordered(left, heap.drop_last())
            } else {
                let moved = heap.last();
                let shorter = heap.drop_last().update(0, moved);
                &&& linked(left, shorter, place.update(moved as int, 0))
                &&& ordered_but_down(left, shorter, 0)
            }
        }),
{
    let best = heap[0];
    let left = heads.update(best as int, None);
    assert(forall|i: int| 0 < i < heap.len() ==> heap[i] != best) by {
        assert forall|i: int| 0 < i < heap.len() implies heap[i] != best by {
            assert(place[heap[i] as int] == i);
            assert(place[heap[0] as int] == 0);
        }
    }
    if heap.len() > 1 {
        let moved = heap.last();
        let shorter = heap.drop_last().update(0, moved);
        let place2 = place.update(moved as int, 0);
        assert forall|i: int| 0 <= i < shorter.len() implies (#[trigger] shorter[i]) < left.len()
            && left[shorter[i] as int] is Some && place2[shorter[i] as int] == i by {
            if i > 0 {
                assert(shorter[i] == heap[i]);
                assert(place[heap[i] as int] == i);
                assert(place[moved as int] == heap.len() - 1);
            }
        }
        assert forall|s: int| 0 <= s < left.len() && (#[trigger] left[s]) is Some implies place2[s]
            < shorter.len() && shorter[place2[s] as int] == s by {
            assert(heads[s] is Some);
            if s != moved {
                assert(heap[place[s] as int] == s);
            }
        }
        assert forall|j: int| 1 <= j < shorter.len() && parent(j) != 0 implies entry_le(
            left,
            shorter[parent(j)],
            #[trigger] shorter[j],
        ) by {
            assert(entry_le(heads, heap[parent(j)], heap[j]));
            lemma_entry_le_elsewhere(heads, best as int, heap[parent(j)], heap[j]);
        }
    }
}

} // verus!
