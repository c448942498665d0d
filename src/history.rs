//! The bounded history of batches, newest first.
use vstd::prelude::*;
use vstd::math::min;
use std::collections::VecDeque;
use crate::packet::PacketChunk;
use crate::partition::{LogListPartitioner, Rect};

verus! {

/// The history after `item` arrives: it goes in front, and the oldest entries beyond
/// `capacity` leave.
pub open spec fn spec_insert(entries: Seq<PacketChunk>, item: PacketChunk, capacity: nat) -> Seq<PacketChunk> {
    (seq![item] + entries).take(min(capacity as int, entries.len() as int + 1))
}

/// A history of at most `max` batches, newest at index 0, that also keeps the lowest
/// latency of every batch it was given.
pub struct LogList {
    items: VecDeque<PacketChunk>,
    min_latency: u64,
    max: usize,
}

impl LogList {
    /// The batches held, newest first.
    pub closed spec fn entries(&self) -> Seq<PacketChunk> {
        self.items@
    }

    /// The lowest latency of any batch inserted so far; `u64::MAX` before the first.
    pub closed spec fn spec_min_latency(&self) -> u64 {
        self.min_latency
    }

    pub closed spec fn capacity(&self) -> nat {
        self.max as nat
    }

    pub open spec fn wf(&self) -> bool {
        &&& 1 <= self.capacity()
        &&& self.entries().len() <= self.capacity()
        &&& forall|i: int| 0 <= i < self.entries().len() ==> (#[trigger] self.entries()[i]).wf()
    }

    pub fn new(max: usize) -> (r: LogList)
        requires
            max >= 1,
        ensures
            r.wf(),
            r.entries() == Seq::<PacketChunk>::empty(),
            r.capacity() == max,
            r.spec_min_latency() == u64::MAX,
    {
        LogList { items: VecDeque::new(), min_latency: u64::MAX, max }
    }

    /// Puts `item` in front, dropping the oldest batch when more than the capacity are held.
    pub fn insert(&mut self, item: PacketChunk)
        requires
            old(self).wf(),
            item.wf(),
        ensures
            final(self).wf(),
            final(self).capacity() == old(self).capacity(),
            final(self).entries() == spec_insert(old(self).entries(), item, old(self).capacity()),
            final(self).spec_min_latency() == min(old(self).spec_min_latency() as int, item.spec_latency()),
            final(self).spec_min_latency() <= old(self).spec_min_latency(),
    {
        let latency = item.latency();
        if latency < self.min_latency {
            self.min_latency = latency;
        }
        self.items.push_front(item);
        if self.items.len() > self.max {
            self.items.pop_back();
        }
        proof {
            assert(self.items@ =~= spec_insert(old(self).entries(), item, old(self).capacity()));
        }
    }

    pub fn len(&self) -> (r: usize)
        ensures
            r == self.entries().len(),
    {
        self.items.len()
    }

    /// The lowest latency of any batch inserted so far; `u64::MAX` before the first.
    pub fn min_latency(&self) -> (r: u64)
        ensures
            r == self.spec_min_latency(),
    {
        self.min_latency
    }

    /// The batch at `i`, counted from the newest.
    pub fn get(&self, i: usize) -> (r: &PacketChunk)
        requires
            i < self.entries().len(),
        ensures
            *r == self.entries()[i as int],
    {
        &self.items[i]
    }

    /// The walk that lays the history out over `size`, one block per batch.
    pub fn partition(&self, size: Rect) -> (r: LogListPartitioner)
        requires
            size.fits(),
        ensures
            r == LogListPartitioner::spec_start(size, self.entries().len()),
            r.inv(),
    {
        LogListPartitioner::new(size, self.items.len())
    }

    /// Sets the highlight weight of the batch at `i`, leaving everything else as it was.
    pub fn set_tint_weight(&mut self, i: usize, weight: u32)
        requires
            old(self).wf(),
            i < old(self).entries().len(),
        ensures
            final(self).wf(),
            final(self).capacity() == old(self).capacity(),
            final(self).spec_min_latency() == old(self).spec_min_latency(),
            final(self).entries() == old(self).entries().update(
                i as int,
                (PacketChunk {
                    tint_weight: if weight > 100 { 100 } else { weight as u8 },
                    ..old(self).entries()[i as int]
                }),
            ),
    {
        let mut item = self.items.remove(i).unwrap();
        item.tint_weight(weight);
        self.items.insert(i, item);
        proof {
            assert(self.items@ =~= old(self).entries().update(i as int, item));
        }
    }
}


/// The history after `items` arrive one by one, oldest first, starting from `entries`.
pub open spec fn spec_fill(entries: Seq<PacketChunk>, items: Seq<PacketChunk>, capacity: nat) -> Seq<PacketChunk>
    decreases items.len(),
{
    if items.len() == 0 {
        entries
    } else {
        spec_insert(spec_fill(entries, items.drop_last(), capacity), items.last(), capacity)
    }
}

/// The lowest latency kept after `items` arrive one by one, starting from `lowest`.
pub open spec fn spec_min_after(lowest: int, items: Seq<PacketChunk>) -> int
    decreases items.len(),
{
    if items.len() == 0 {
        lowest
    } else {
        min(spec_min_after(lowest, items.drop_last()), items.last().spec_latency())
    }
}

/// However many batches arrive, an empty history with room for `capacity` holds no more
/// than `capacity` of them: the most recent ones, newest first, the older ones gone.
pub proof fn lemma_fill_keeps_newest(items: Seq<PacketChunk>, capacity: nat)
    requires
        capacity >= 1,
    ensures
        spec_fill(Seq::empty(), items, capacity).len() == min(capacity as int, items.len() as int),
        forall|k: int|
            0 <= k < spec_fill(Seq::empty(), items, capacity).len() ==> #[trigger] spec_fill(
                Seq::empty(),
                items,
                capacity,
            )[k] == items[items.len() - 1 - k],
    decreases items.len(),
{
    if items.len() > 0 {
        let prev = items.drop_last();
        lemma_fill_keeps_newest(prev, capacity);
        let r = spec_fill(Seq::empty(), prev, capacity);
        let r2 = spec_fill(Seq::empty(), items, capacity);
        assert forall|k: int| 0 <= k < r2.len() implies #[trigger] r2[k] == items[items.len() - 1 - k] by {
            if k > 0 {
                assert(r2[k] == r[k - 1]);
                assert(prev[prev.len() - 1 - (k - 1)] == items[items.len() - 1 - k]);
            }
        }
    }
}

/// The lowest latency never rises as batches arrive, and ends at or below the latency of
/// every batch that arrived.
pub proof fn lemma_min_latency_never_rises(lowest: int, items: Seq<PacketChunk>, i: int, j: int)
    requires
        0 <= i <= j <= items.len(),
    ensures
        spec_min_after(lowest, items.take(j)) <= spec_min_after(lowest, items.take(i)),
        spec_min_after(lowest, items) <= lowest,
        forall|k: int| 0 <= k < items.len() ==> spec_min_after(lowest, items) <= (#[trigger] items[k]).spec_latency(),
    decreases items.len(),
{
    if items.len() > 0 {
        let prev = items.drop_last();
        if j == items.len() {
            if i < j {
                lemma_min_latency_never_rises(lowest, prev, i, j - 1);
                assert(items.take(j - 1) == prev.take(j - 1));
                assert(items.take(i) == prev.take(i));
                assert(items.take(j) == items);
                assert(prev.take(j - 1) == prev);
            }
        } else {
            lemma_min_latency_never_rises(lowest, prev, i, j);
            assert(items.take(j) == prev.take(j));
            assert(items.take(i) == prev.take(i));
        }
        lemma_min_latency_never_rises(lowest, prev, 0, 0);
        assert forall|k: int| 0 <= k < items.len() implies spec_min_after(lowest, items) <= (
        #[trigger] items[k]).spec_latency() by {
            if k < items.len() - 1 {
                assert(prev[k] == items[k]);
            }
        }
    }
}

} // verus!
