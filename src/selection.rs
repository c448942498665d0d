//! The history with a movable selection, and the layout that shows the selected batch.
use vstd::prelude::*;
use crate::history::{spec_insert, LogList};
use crate::packet::PacketChunk;
use crate::partition::{spec_partition, Rect};

verus! {

/// The highlight weight, in percent, of the selected batch.
pub const SELECTED_TINT: u32 = 50;

/// The fewest rows the view of the selected batch takes.
pub const MIN_INSPECT_HEIGHT: u16 = 5;

/// `entries` with the selected one highlighted at half weight and every other one plain.
pub open spec fn highlighted(entries: Seq<PacketChunk>, selection: Option<usize>) -> Seq<PacketChunk> {
    Seq::new(
        entries.len(),
        |j: int|
            PacketChunk {
                tint_weight: if is_selected(selection, j) {
                    50u8
                } else {
                    0u8
                },
                ..entries[j]
            },
    )
}

/// Whether `selection` is on index `j`.
pub open spec fn is_selected(selection: Option<usize>, j: int) -> bool {
    selection matches Some(s) && s == j
}

/// `item` without a highlight.
pub open spec fn plain(item: PacketChunk) -> PacketChunk {
    PacketChunk { tint_weight: 0, ..item }
}

/// Highlighting twice is highlighting once with the second selection.
proof fn lemma_rehighlight(entries: Seq<PacketChunk>, first: Option<usize>, second: Option<usize>)
    ensures
        highlighted(highlighted(entries, first), second) == highlighted(entries, second),
{
    assert(highlighted(highlighted(entries, first), second) =~= highlighted(entries, second));
}

/// A history of batches with at most one of them selected and highlighted.
pub struct SelectableLogList {
    selection: Option<usize>,
    list: LogList,
}

impl SelectableLogList {
    /// The batches held, newest first.
    pub closed spec fn entries(&self) -> Seq<PacketChunk> {
        self.list.entries()
    }

    /// The index of the selected batch, if one is selected.
    pub closed spec fn spec_selection(&self) -> Option<usize> {
        self.selection
    }

    pub closed spec fn capacity(&self) -> nat {
        self.list.capacity()
    }

    /// The lowest latency of any batch inserted so far; `u64::MAX` before the first.
    pub closed spec fn spec_min_latency(&self) -> u64 {
        self.list.spec_min_latency()
    }

    pub closed spec fn history_wf(&self) -> bool {
        self.list.wf()
    }

    pub open spec fn wf(&self) -> bool {
        &&& self.history_wf()
        &&& self.entries().len() <= self.capacity()
        &&& forall|i: int| 0 <= i < self.entries().len() ==> (#[trigger] self.entries()[i]).wf()
        &&& self.spec_selection() matches Some(i) ==> i < self.entries().len()
        &&& self.entries() == highlighted(self.entries(), self.spec_selection())
    }

    pub fn new(max: usize) -> (r: SelectableLogList)
        requires
            max >= 1,
        ensures
            r.wf(),
            r.entries() == Seq::<PacketChunk>::empty(),
            r.capacity() == max,
            r.spec_selection().is_none(),
            r.spec_min_latency() == u64::MAX,
    {
        let r = SelectableLogList { selection: None, list: LogList::new(max) };
        proof {
            assert(r.entries() =~= highlighted(r.entries(), None));
        }
        r
    }

    /// Puts `item` in front, without a highlight. The selection stays on the batch it was
    /// on, now one further down, and is dropped if that batch left the history.
    pub fn insert(&mut self, item: PacketChunk)
        requires
            old(self).wf(),
            item.wf(),
        ensures
            final(self).wf(),
            final(self).capacity() == old(self).capacity(),
            final(self).entries() == spec_insert(old(self).entries(), plain(item), old(self).capacity()),
            final(self).spec_min_latency() == vstd::math::min(
                old(self).spec_min_latency() as int,
                item.spec_latency(),
            ),
            final(self).spec_selection() == match old(self).spec_selection() {
                Some(i) => if i + 1 < final(self).entries().len() {
                    Some((i + 1) as usize)
                } else {
                    None
                },
                None => None,
            },
    {
        let mut item = item;
        item.tint_weight(0);
        let ghost old_entries = self.list.entries();
        let old_len = self.list.len();
        self.list.insert(item);
        match self.selection {
            Some(i) => {
                if i + 1 < self.list.len() {
                    self.selection = Some(i + 1);
                } else {
                    self.selection = None;
                }
            },
            None => {},
        }
        proof {
            let e = self.list.entries();
            assert(e =~= highlighted(e, self.selection)) by {
                assert forall|j: int| 0 <= j < e.len() implies e[j] == highlighted(e, self.selection)[j] by {
                    if j > 0 {
                        assert(e[j] == old_entries[j - 1]);
                        assert(old_entries[j - 1] == highlighted(old_entries, old(self).selection)[j - 1]);
                    }
                }
            }
        }
    }

    pub fn len(&self) -> (r: usize)
        ensures
            r == self.entries().len(),
    {
        self.list.len()
    }

    /// The batch at `i`, counted from the newest.
    pub fn get(&self, i: usize) -> (r: &PacketChunk)
        requires
            i < self.entries().len(),
        ensures
            *r == self.entries()[i as int],
    {
        self.list.get(i)
    }

    /// The lowest latency of any batch inserted so far; `u64::MAX` before the first.
    pub fn min_latency(&self) -> (r: u64)
        ensures
            r == self.spec_min_latency(),
    {
        self.list.min_latency()
    }

    /// The index of the selected batch, if one is selected.
    pub fn selection(&self) -> (r: Option<usize>)
        ensures
            r == self.spec_selection(),
    {
        self.selection
    }

    /// Moves the selection to `i`, highlighting that batch alone.
    pub fn select(&mut self, i: usize)
        requires
            old(self).wf(),
            i < old(self).entries().len(),
        ensures
            final(self).wf(),
            final(self).spec_selection() == Some(i),
            final(self).entries() == highlighted(old(self).entries(), Some(i)),
            final(self).capacity() == old(self).capacity(),
            final(self).spec_min_latency() == old(self).spec_min_latency(),
    {
        let ghost e0 = self.list.entries();
        if let Some(j) = self.selection {
            self.list.set_tint_weight(j, 0);
        }
        self.selection = Some(i);
        self.list.set_tint_weight(i, SELECTED_TINT);
        proof {
            let e = self.list.entries();
            assert forall|k: int| 0 <= k < e.len() implies e[k] == highlighted(e0, Some(i))[k] by {
                assert(e0[k] == highlighted(e0, old(self).selection)[k]);
            }
            assert(e =~= highlighted(e0, Some(i)));
            lemma_rehighlight(e0, Some(i), Some(i));
        }
    }

    /// Drops the selection, leaving every batch without a highlight.
    pub fn clear(&mut self)
        requires
            old(self).wf(),
        ensures
            final(self).wf(),
            final(self).spec_selection().is_none(),
            final(self).entries() == highlighted(old(self).entries(), None),
            final(self).capacity() == old(self).capacity(),
            final(self).spec_min_latency() == old(self).spec_min_latency(),
    {
        let ghost e0 = self.list.entries();
        if let Some(i) = self.selection {
            self.list.set_tint_weight(i, 0);
        }
        self.selection = None;
        proof {
            let e = self.list.entries();
            assert forall|k: int| 0 <= k < e.len() implies e[k] == highlighted(e0, None)[k] by {
                assert(e0[k] == highlighted(e0, old(self).selection)[k]);
            }
            assert(e =~= highlighted(e0, None));
            lemma_rehighlight(e0, None, None);
        }
    }

    /// Whether a batch that the history still holds is selected.
    pub fn has_selection(&self) -> (r: bool)
        ensures
            r == (self.spec_selection() matches Some(i) && i < self.entries().len()),
    {
        match self.selection {
            Some(i) => i < self.list.len(),
            None => false,
        }
    }

    /// Selects the next older batch, or the newest when none is selected; stays on the
    /// oldest, and does nothing on an empty history.
    pub fn select_next(&mut self)
        requires
            old(self).wf(),
        ensures
            final(self).wf(),
            final(self).spec_selection() == match old(self).spec_selection() {
                Some(i) => if i + 1 < old(self).entries().len() {
                    Some((i + 1) as usize)
                } else {
                    Some(i)
                },
                None => if old(self).entries().len() == 0 {
                    None
                } else {
                    Some(0usize)
                },
            },
            final(self).entries() == highlighted(old(self).entries(), final(self).spec_selection()),
            final(self).capacity() == old(self).capacity(),
            final(self).spec_min_latency() == old(self).spec_min_latency(),
    {
        let len = self.list.len();
        match self.selection {
            Some(i) => {
                if i + 1 < len {
                    self.select(i + 1);
                }
            },
            None => {
                if len > 0 {
                    self.select(0);
                }
            },
        }
    }

    /// Selects the next newer batch, or the newest when none is selected; stays on the
    /// newest, and does nothing on an empty history.
    pub fn select_prev(&mut self)
        requires
            old(self).wf(),
        ensures
            final(self).wf(),
            final(self).spec_selection() == match old(self).spec_selection() {
                Some(i) => if i > 0 {
                    Some((i - 1) as usize)
                } else {
                    Some(i)
                },
                None => if old(self).entries().len() == 0 {
                    None
                } else {
                    Some(0usize)
                },
            },
            final(self).entries() == highlighted(old(self).entries(), final(self).spec_selection()),
            final(self).capacity() == old(self).capacity(),
            final(self).spec_min_latency() == old(self).spec_min_latency(),
    {
        match self.selection {
            Some(i) => {
                if i > 0 {
                    self.select(i - 1);
                }
            },
            None => {
                if self.list.len() > 0 {
                    self.select(0);
                }
            },
        }
    }

    /// Selects the oldest batch; does nothing on an empty history.
    pub fn select_last(&mut self)
        requires
            old(self).wf(),
        ensures
            final(self).wf(),
            final(self).spec_selection() == if old(self).entries().len() == 0 {
                old(self).spec_selection()
            } else {
                Some((old(self).entries().len() - 1) as usize)
            },
            final(self).entries() == highlighted(old(self).entries(), final(self).spec_selection()),
            final(self).capacity() == old(self).capacity(),
            final(self).spec_min_latency() == old(self).spec_min_latency(),
    {
        let len = self.list.len();
        if len > 0 {
            self.select(len - 1);
        }
    }

    /// Selects the newest batch; does nothing on an empty history.
    pub fn select_first(&mut self)
        requires
            old(self).wf(),
        ensures
            final(self).wf(),
            final(self).spec_selection() == if old(self).entries().len() == 0 {
                old(self).spec_selection()
            } else {
                Some(0usize)
            },
            final(self).entries() == highlighted(old(self).entries(), final(self).spec_selection()),
            final(self).capacity() == old(self).capacity(),
            final(self).spec_min_latency() == old(self).spec_min_latency(),
    {
        if self.list.len() > 0 {
            self.select(0);
        }
    }
}


/// In a well-formed history at most one batch is highlighted, and only the selected one;
/// with nothing selected, none is.
pub proof fn lemma_one_highlight(list: SelectableLogList)
    requires
        list.wf(),
    ensures
        forall|j: int|
            0 <= j < list.entries().len() && (#[trigger] list.entries()[j]).tint_weight != 0 ==> is_selected(
                list.spec_selection(),
                j,
            ),
        forall|j: int, k: int|
            0 <= j < list.entries().len() && 0 <= k < list.entries().len() && (#[trigger] list.entries()[j]).tint_weight
                != 0 && (#[trigger] list.entries()[k]).tint_weight != 0 ==> j == k,
        list.spec_selection().is_none() ==> forall|j: int|
            0 <= j < list.entries().len() ==> (#[trigger] list.entries()[j]).tint_weight == 0,
{
    let e = list.entries();
    assert forall|j: int| 0 <= j < e.len() implies (#[trigger] e[j]).tint_weight == if is_selected(
        list.spec_selection(),
        j,
    ) {
        50u8
    } else {
        0u8
    } by {
        assert(e[j] == highlighted(e, list.spec_selection())[j]);
    }
}

/// What the view of a selected batch takes of `area`: the first block of the layout,
/// made at least `MIN_INSPECT_HEIGHT` rows and an odd number of them, and the rows below
/// it for the rest of the history; nothing when no batch is selected, the area has no
/// cells, or that block does not fit.
pub open spec fn spec_inspect_layout(area: Rect, count: nat, selected: bool) -> Option<(Rect, Rect)> {
    if area.is_empty() || !selected || count == 0 {
        None
    } else {
        let first = spec_partition(area, count)[0];
        let h0 = if first.height < MIN_INSPECT_HEIGHT { MIN_INSPECT_HEIGHT as int } else { first.height as int };
        let h = if h0 % 2 == 0 { h0 + 1 } else { h0 };
        if h > area.height || first.width > area.width {
            None
        } else {
            Some((
                Rect { height: h as u16, ..first },
                Rect { x: area.x, y: (area.y + h) as u16, width: area.width, height: (area.height - h) as u16 },
            ))
        }
    }
}

impl SelectableLogList {
    /// Where the selected batch and the rest of the history go in `area`, or `None` where
    /// the history is drawn as a whole.
    pub fn inspect_layout(&self, area: Rect) -> (r: Option<(Rect, Rect)>)
        requires
            self.wf(),
            area.fits(),
        ensures
            r == spec_inspect_layout(area, self.entries().len(), self.spec_selection().is_some()),
    {
        if area.width == 0 || area.height == 0 || !self.has_selection() {
            return None;
        }
        let mut walk = self.list.partition(area);
        proof {
            crate::partition::lemma_partition_tiles(area, self.entries().len());
            assert(walk.remaining() == seq![walk.current()] + walk.advanced().remaining());
        }
        let first = match walk.next() {
            Some(block) => block,
            None => {
                return None;
            },
        };
        let mut height: u16 = if first.height < MIN_INSPECT_HEIGHT {
            MIN_INSPECT_HEIGHT
        } else {
            first.height
        };
        if height % 2 == 0 {
            height = height + 1;
        }
        if height > area.height || first.width > area.width {
            return None;
        }
        Some((
            Rect { x: first.x, y: first.y, width: first.width, height },
            Rect { x: area.x, y: area.y + height, width: area.width, height: area.height - height },
        ))
    }
}

} // verus!
