//! The segmented array itself: a fixed table of progressively larger
//! segments, each a buffer that is allocated once and never moved, plus the
//! borrowing and consuming iterators over it.

use vstd::prelude::*;

verus! {

use crate::addressing::{
    seg_capacity,
    seg_slots,
    segment_of_index,
    slot_of_index,
    live_in_segment,
    lemma_seg_capacity_increases,
    lemma_seg_capacity_strictly_increases,
    lemma_seg_capacity_unfold,
    lemma_segment_of_index_below,
    lemma_live_in_segment_step,
    lemma_live_in_segment_monotonic,
    lemma_live_below_slot,
    lemma_slot_within_live,
    lemma_segment_arithmetic,
    lemma_seg_slots_fits,
    capacity_for_segment_count,
    segment_for_index,
    slots_in_segment,
    MAX_CAPACITY,
    MAX_SEGMENT_COUNT,
};

/// Append-only growable array that uses a table of progressively larger
/// segments to avoid the allocate-and-copy that typical growable data
/// structures employ. Elements never move once appended.
///
/// Segment `s` is allocated with room for exactly `seg_slots(s)` elements and
/// holds the elements with global indices `seg_capacity(s) ..
/// seg_capacity(s + 1)`; only its prefix of currently live elements is
/// constructed.
pub struct SegmentedArray<T> {
    count: u64,
    segments: Vec<Vec<T>>,
}

impl<T> View for SegmentedArray<T> {
    type V = Seq<T>;

    /// The abstract contents: the live elements in index order.
    closed spec fn view(&self) -> Seq<T> {
        Seq::new(
            self.count as nat,
            |i: int|
                self.segments@[segment_of_index(i as nat) as int]@[slot_of_index(i as nat) as int],
        )
    }
}

impl<T> SegmentedArray<T> {
    /// Structural invariant: the segment table never exceeds its fixed size,
    /// the live count fits in the allocated segments, and each allocated
    /// segment holds exactly its share of the first `count` elements.
    pub closed spec fn wf(self) -> bool {
        &&& self.segments@.len() <= MAX_SEGMENT_COUNT
        &&& self.count <= seg_capacity(self.segments@.len() as nat)
        &&& forall|s: int|
            0 <= s < self.segments@.len() ==> (#[trigger] self.segments@[s])@.len()
                == live_in_segment(self.count as nat, s as nat)
    }

    /// How many segments have been allocated so far. Segments are only ever
    /// added, one at a time, when the current capacity is exhausted; they are
    /// retained by `pop` and `clear` so their memory is reused.
    pub closed spec fn used_segments(self) -> nat {
        self.segments@.len() as nat
    }

    /// Return an empty segmented array with zero capacity.
    ///
    /// Note that pre-allocating capacity has no benefit with this data
    /// structure since append operations are always constant time.
    pub fn new() -> (r: Self)
        ensures
            r.wf(),
            r@ == Seq::<T>::empty(),
            r.used_segments() == 0,
    {
        let r = SegmentedArray { count: 0, segments: Vec::new() };
        proof {
            lemma_segment_arithmetic();
            assert(r@ =~= Seq::<T>::empty());
        }
        r
    }

    /// Appends an element to the back of the collection, in constant time.
    ///
    /// If the current capacity is exhausted, exactly one new segment is
    /// allocated; elements already stored are never moved. The caller must
    /// stay below the fixed capacity ceiling of `MAX_CAPACITY` elements;
    /// there is no provision for growth beyond the 26-entry segment table.
    pub fn push(&mut self, value: T)
        requires
            old(self).wf(),
            old(self)@.len() < MAX_CAPACITY,
        ensures
            final(self).wf(),
            final(self)@ == old(self)@.push(value),
            old(self)@.len() == seg_capacity(old(self).used_segments())
                ==> final(self).used_segments() == old(self).used_segments() + 1,
            old(self)@.len() < seg_capacity(old(self).used_segments())
                ==> final(self).used_segments() == old(self).used_segments(),
    {
        proof {
            lemma_segment_arithmetic();
        }
        if self.count >= capacity_for_segment_count(self.segments.len()) {
            proof {
                // The table cannot already be full: its cumulative capacity
                // equals the count, which sits below the ceiling.
                if self.segments@.len() >= MAX_SEGMENT_COUNT {
                    lemma_seg_capacity_increases(
                        MAX_SEGMENT_COUNT as nat,
                        self.segments@.len() as nat,
                    );
                    assert(false);
                }
                lemma_seg_capacity_increases(
                    self.segments@.len() as nat,
                    self.segments@.len() as nat + 1,
                );
            }
            let segment_len = slots_in_segment(self.segments.len());
            let new_segment: Vec<T> = Vec::with_capacity(segment_len as usize);
            self.segments.push(new_segment);
        }
        proof {
            assert(self.segments@.len() >= 1);
            lemma_seg_capacity_strictly_increases(
                (self.segments@.len() - 1) as nat,
                self.segments@.len() as nat,
            );
            assert(self.count < seg_capacity(self.segments@.len() as nat));
        }
        let seg = segment_for_index(self.count);
        proof {
            lemma_segment_of_index_below(self.count as nat, self.segments@.len() as nat);
        }
        self.segments[seg].push(value);
        self.count = self.count + 1;
        proof {
            let pre = *old(self);
            assert forall|s: int| 0 <= s < self.segments@.len() implies (
            #[trigger] self.segments@[s])@.len() == live_in_segment(
                self.count as nat,
                s as nat,
            ) by {
                lemma_live_in_segment_step((self.count - 1) as nat, s as nat);
            }
            assert(self@ =~= pre@.push(value)) by {
                assert forall|i: int| 0 <= i < pre@.len() implies self@[i] == pre@[i] by {
                    lemma_slot_within_live(i as nat, pre.count as nat);
                    lemma_segment_of_index_below(i as nat, pre.segments@.len() as nat);
                }
                lemma_slot_within_live(pre.count as nat, self.count as nat);
            }
        }
    }

    /// Removes the last element from the array and returns it, or `None` if
    /// it is empty. Allocated segment memory is retained.
    pub fn pop(&mut self) -> (r: Option<T>)
        requires
            old(self).wf(),
        ensures
            final(self).wf(),
            final(self).used_segments() == old(self).used_segments(),
            old(self)@.len() == 0 ==> r is None && final(self)@ == old(self)@,
            old(self)@.len() > 0 ==> r == Some(old(self)@.last()) && final(self)@ == old(
                self,
            )@.drop_last(),
    {
        if self.count > 0 {
            proof {
                lemma_segment_arithmetic();
                lemma_seg_capacity_increases(
                    self.segments@.len() as nat,
                    MAX_SEGMENT_COUNT as nat,
                );
            }
            self.count = self.count - 1;
            let seg = segment_for_index(self.count);
            proof {
                lemma_segment_of_index_below(self.count as nat, self.segments@.len() as nat);
                lemma_slot_within_live(self.count as nat, self.count as nat + 1);
            }
            let value = self.segments[seg].pop();
            proof {
                let pre = *old(self);
                assert forall|s: int| 0 <= s < self.segments@.len() implies (
                #[trigger] self.segments@[s])@.len() == live_in_segment(
                    self.count as nat,
                    s as nat,
                ) by {
                    lemma_live_in_segment_step(self.count as nat, s as nat);
                }
                assert(self@ =~= pre@.drop_last()) by {
                    assert forall|i: int| 0 <= i < self@.len() implies self@[i] == pre@[i] by {
                        lemma_slot_within_live(i as nat, self.count as nat);
                        lemma_segment_of_index_below(i as nat, self.segments@.len() as nat);
                    }
                }
                assert(value == Some(pre@.last()));
            }
            value
        } else {
            proof {
                assert(self@ =~= old(self)@);
            }
            None
        }
    }

    /// Retrieve a reference to the element at the given offset, or `None` if
    /// the offset is out of bounds.
    pub fn get(&self, index: u64) -> (r: Option<&T>)
        requires
            self.wf(),
        ensures
            match r {
                Some(v) => index < self@.len() && *v == self@[index as int],
                None => index >= self@.len(),
            },
    {
        if index >= self.count {
            None
        } else {
            proof {
                lemma_segment_arithmetic();
                lemma_seg_capacity_increases(
                    self.segments@.len() as nat,
                    MAX_SEGMENT_COUNT as nat,
                );
                lemma_segment_of_index_below(index as nat, self.segments@.len() as nat);
                lemma_slot_within_live(index as nat, self.count as nat);
                lemma_seg_slots_fits(segment_of_index(index as nat));
                lemma_seg_capacity_unfold(segment_of_index(index as nat));
            }
            let seg = segment_for_index(index);
            let slot = index - capacity_for_segment_count(seg);
            let segment = &self.segments[seg];
            Some(&segment[slot as usize])
        }
    }

    /// Retrieve a reference to the element at the given offset, which must be
    /// in bounds; call sites assert validity by construction.
    pub fn index(&self, index: u64) -> (r: &T)
        requires
            self.wf(),
            index < self@.len(),
        ensures
            *r == self@[index as int],
    {
        match self.get(index) {
            Some(item) => item,
            None => vstd::pervasive::unreached(),
        }
    }

    /// Return the number of elements in the array.
    pub fn len(&self) -> (r: u64)
        ensures
            r == self@.len(),
    {
        self.count
    }

    /// Returns true if the array has a length of 0.
    pub fn is_empty(&self) -> (r: bool)
        ensures
            r <==> self@.len() == 0,
    {
        self.count == 0
    }

    /// Clears the segmented array, removing all values.
    ///
    /// Note that this method has no effect on the allocated capacity of the
    /// segmented array: segment memory is retained for reuse, so subsequent
    /// pushes need not allocate.
    pub fn clear(&mut self)
        requires
            old(self).wf(),
        ensures
            final(self).wf(),
            final(self)@ == Seq::<T>::empty(),
            final(self).used_segments() == old(self).used_segments(),
    {
        if self.count > 0 {
            let mut seg: usize = 0;
            while seg < self.segments.len()
                invariant
                    seg <= self.segments@.len(),
                    self.segments@.len() == old(self).segments@.len(),
                    self.segments@.len() <= MAX_SEGMENT_COUNT,
                    forall|s: int| 0 <= s < seg ==> (#[trigger] self.segments@[s])@.len() == 0,
                decreases self.segments@.len() - seg,
            {
                self.segments[seg].clear();
                seg = seg + 1;
            }
            self.count = 0;
        }
        proof {
            assert(self@ =~= Seq::<T>::empty());
        }
    }

    /// Returns an iterator over the segmented array.
    ///
    /// The iterator yields references to all items from start to end; it does
    /// not affect the container.
    pub fn iter(&self) -> (r: SegArrayIter<'_, T>)
        requires
            self.wf(),
        ensures
            r.wf(),
            r.remaining() == self@,
    {
        let r = SegArrayIter { array: self, index: 0 };
        proof {
            assert(r.remaining() =~= self@);
        }
        r
    }

    /// Transfers ownership of the array's count and segment table into a
    /// consuming iterator. The array handle is consumed; the iterator owns
    /// every element and every segment, and disposes of whatever the caller
    /// does not consume.
    pub fn into_iter(self) -> (r: SegArrayIntoIter<T>)
        requires
            self.wf(),
        ensures
            r.wf(),
            r.remaining() == self@,
    {
        let ghost contents = self@;
        let SegmentedArray { count, segments } = self;
        let r = SegArrayIntoIter { index: 0, count, segments };
        proof {
            assert(r.remaining() =~= contents);
        }
        r
    }

    /// Builds a new container from a sequence of values by applying `push`
    /// once per element, preserving input order. The input may not exceed the
    /// capacity ceiling of `MAX_CAPACITY` elements.
    pub fn from_sequence(values: Vec<T>) -> (r: Self)
        requires
            values@.len() <= MAX_CAPACITY,
        ensures
            r.wf(),
            r@ == values@,
    {
        let ghost all = values@;
        let mut arr = SegmentedArray::new();
        let mut vals = values;
        while vals.len() > 0
            invariant
                arr.wf(),
                arr@ + vals@ == all,
                all.len() <= MAX_CAPACITY,
            decreases vals@.len(),
        {
            let v = vals.remove(0);
            arr.push(v);
            proof {
                assert(arr@ + vals@ =~= all);
            }
        }
        proof {
            assert(arr@ =~= all);
        }
        arr
    }
}

/// Law: appending one element keeps every existing element at its index, puts
/// the new element at the old length, and grows the length by one. Chained
/// over a sequence of pushes, index `i` holds the `i`-th pushed value, in
/// push order.
pub proof fn lemma_push_appends<T>(s: Seq<T>, v: T)
    ensures
        s.push(v).len() == s.len() + 1,
        forall|i: int| 0 <= i < s.len() ==> s.push(v)[i] == s[i],
        s.push(v)[s.len() as int] == v,
{
}

/// Law: pushing a value and then immediately popping returns that value and
/// leaves the contents, and so the length, unchanged from before the push.
pub proof fn lemma_push_pop_round_trip<T>(s: Seq<T>, v: T)
    ensures
        s.push(v).last() == v,
        s.push(v).drop_last() == s,
{
    assert(s.push(v).drop_last() =~= s);
}

/// Law: after `clear` the contents equal those of a freshly constructed
/// container. Every method's contract speaks only of the contents and
/// well-formedness, both re-established by `clear`, so a subsequent push/get
/// sequence behaves exactly as on a fresh container.
pub proof fn lemma_cleared_matches_fresh<T>(cleared: SegmentedArray<T>, fresh: SegmentedArray<T>)
    requires
        cleared@ == Seq::<T>::empty(),
        fresh@ == Seq::<T>::empty(),
    ensures
        cleared@ == fresh@,
{
}

/// Law: consuming contents `s` front to back visits exactly its elements in
/// order: after `k` steps the next element is `s[k]`, and taking it leaves
/// the remainder starting at `k + 1`. With the contracts of `from_sequence`,
/// `iter`, `into_iter` and `next`, iterating a container built from a
/// sequence yields that sequence, in order and length-preserving.
pub proof fn lemma_iteration_in_order<T>(s: Seq<T>, k: int)
    requires
        0 <= k < s.len(),
    ensures
        s.skip(k)[0] == s[k],
        s.skip(k).drop_first() == s.skip(k + 1),
{
    assert(s.skip(k).drop_first() =~= s.skip(k + 1));
}

/// Immutable segmented array iterator: yields references to the elements in
/// ascending index order, bounded by the container's length when the iterator
/// was created, without affecting the container.
pub struct SegArrayIter<'a, T> {
    array: &'a SegmentedArray<T>,
    index: u64,
}

impl<'a, T> SegArrayIter<'a, T> {
    /// The borrowed container is well formed and the cursor never passes its
    /// length.
    pub closed spec fn wf(self) -> bool {
        &&& self.array.wf()
        &&& self.index <= self.array@.len()
    }

    /// The elements not yet yielded, in the order they will come.
    pub closed spec fn remaining(self) -> Seq<T> {
        self.array@.skip(self.index as int)
    }

    /// Yields a reference to the next element in index order, or `None` once
    /// the iteration is exhausted.
    pub fn next(&mut self) -> (r: Option<&'a T>)
        requires
            old(self).wf(),
        ensures
            final(self).wf(),
            match r {
                Some(v) => old(self).remaining().len() > 0 && *v == old(self).remaining()[0]
                    && final(self).remaining() == old(self).remaining().drop_first(),
                None => old(self).remaining().len() == 0 && *final(self) == *old(self),
            },
    {
        let value = self.array.get(self.index);
        if value.is_some() {
            self.index = self.index + 1;
            proof {
                assert(self.remaining() =~= old(self).remaining().drop_first());
            }
        }
        value
    }
}

/// An iterator that moves out of a segmented array. It owns everything the
/// array owned; elements it yields are transferred out one at a time, and
/// both the unyielded elements and all segment memory are released when the
/// iterator itself is dropped, however early the caller stops consuming it.
pub struct SegArrayIntoIter<T> {
    index: u64,
    count: u64,
    segments: Vec<Vec<T>>,
}

impl<T> SegArrayIntoIter<T> {
    /// The cursor never passes the element count, the segment table respects
    /// its fixed bound, and each segment holds exactly the not-yet-consumed
    /// elements of its index range.
    pub closed spec fn wf(self) -> bool {
        &&& self.index <= self.count
        &&& self.segments@.len() <= MAX_SEGMENT_COUNT
        &&& self.count <= seg_capacity(self.segments@.len() as nat)
        &&& forall|s: int|
            0 <= s < self.segments@.len() ==> (#[trigger] self.segments@[s])@.len()
                == live_in_segment(self.count as nat, s as nat) - live_in_segment(
                self.index as nat,
                s as nat,
            )
    }

    /// The elements not yet yielded, in the order they will come.
    pub closed spec fn remaining(self) -> Seq<T> {
        Seq::new(
            (self.count - self.index) as nat,
            |k: int|
                {
                    let j = (self.index + k) as nat;
                    self.segments@[segment_of_index(j) as int]@[slot_of_index(j)
                        - live_in_segment(self.index as nat, segment_of_index(j))]
                },
        )
    }

    /// Transfers the next element out of its slot and yields it, or yields
    /// `None` once every element has been consumed.
    pub fn next(&mut self) -> (r: Option<T>)
        requires
            old(self).wf(),
        ensures
            final(self).wf(),
            old(self).remaining().len() > 0 ==> r == Some(old(self).remaining()[0])
                && final(self).remaining() == old(self).remaining().drop_first(),
            old(self).remaining().len() == 0 ==> r is None && *final(self) == *old(self),
    {
        if self.index < self.count {
            proof {
                lemma_segment_arithmetic();
                lemma_seg_capacity_increases(
                    self.segments@.len() as nat,
                    MAX_SEGMENT_COUNT as nat,
                );
                lemma_segment_of_index_below(self.index as nat, self.segments@.len() as nat);
                lemma_slot_within_live(self.index as nat, self.count as nat);
                lemma_live_below_slot(self.index as nat, self.index as nat);
            }
            let seg = segment_for_index(self.index);
            let value = self.segments[seg].remove(0);
            self.index = self.index + 1;
            proof {
                let pre = *old(self);
                assert forall|s: int| 0 <= s < self.segments@.len() implies (
                #[trigger] self.segments@[s])@.len() == live_in_segment(
                    self.count as nat,
                    s as nat,
                ) - live_in_segment(self.index as nat, s as nat) by {
                    lemma_live_in_segment_step(pre.index as nat, s as nat);
                    lemma_live_in_segment_monotonic(self.index as nat, self.count as nat, s as nat);
                }
                assert(self.remaining() =~= pre.remaining().drop_first()) by {
                    assert forall|k: int|
                        0 <= k < self.remaining().len() implies self.remaining()[k]
                        == pre.remaining()[k + 1] by {
                        let j = (pre.index + 1 + k) as nat;
                        lemma_segment_of_index_below(j, self.segments@.len() as nat);
                        lemma_slot_within_live(j, self.count as nat);
                        lemma_live_below_slot((pre.index + 1) as nat, j);
                        lemma_live_below_slot(pre.index as nat, j);
                        lemma_live_in_segment_step(pre.index as nat, segment_of_index(j));
                    }
                }
                assert(value == pre.remaining()[0]);
            }
            Some(value)
        } else {
            None
        }
    }
}

} // verus!

