//! Splitting a rectangle of character cells into one cell block per history entry.
use vstd::prelude::*;
use vstd::math::min;

verus! {

/// A block of character cells: columns `x .. x + width`, rows `y .. y + height`.
#[derive(Clone, Copy, Debug, PartialEq, Eq, Structural)]
pub struct Rect {
    pub x: u16,
    pub y: u16,
    pub width: u16,
    pub height: u16,
}

impl Rect {
    /// The right and bottom edges lie inside the coordinate space.
    pub open spec fn fits(self) -> bool {
        self.x + self.width <= u16::MAX && self.y + self.height <= u16::MAX
    }

    pub open spec fn cells(self) -> int {
        self.width * self.height
    }

    pub open spec fn is_empty(self) -> bool {
        self.width == 0 || self.height == 0
    }

    pub open spec fn within(self, outer: Rect) -> bool {
        &&& outer.x <= self.x
        &&& self.x + self.width <= outer.x + outer.width
        &&& outer.y <= self.y
        &&& self.y + self.height <= outer.y + outer.height
    }

    /// No cell belongs to both rectangles.
    pub open spec fn disjoint(self, other: Rect) -> bool {
        ||| self.x + self.width <= other.x
        ||| other.x + other.width <= self.x
        ||| self.y + self.height <= other.y
        ||| other.y + other.height <= self.y
    }

    /// `self` comes before `other` in reading order: on an earlier row, or on the same row
    /// and wholly to its left.
    pub open spec fn precedes(self, other: Rect) -> bool {
        ||| self.y < other.y
        ||| (self.y == other.y && self.x + self.width <= other.x)
    }

    pub fn new(x: u16, y: u16, width: u16, height: u16) -> (r: Rect)
        ensures
            r == (Rect { x, y, width, height }),
    {
        Rect { x, y, width, height }
    }
}

/// `a / b` rounded up; zero when either is zero.
pub open spec fn ceil_div(a: int, b: int) -> int {
    if a == 0 || b == 0 {
        0
    } else {
        1 + (a - 1) / b
    }
}

proof fn lemma_ceil_div_bounds(a: int, b: int)
    requires
        a >= 1,
        b >= 1,
    ensures
        1 <= ceil_div(a, b) <= a,
        b == 1 ==> ceil_div(a, b) == a,
        b >= a ==> ceil_div(a, b) == 1,
{
    assert((a - 1) / b <= a - 1) by (nonlinear_arith)
        requires
            a >= 1,
            b >= 1,
    ;
    assert((a - 1) / b >= 0) by (nonlinear_arith)
        requires
            a >= 1,
            b >= 1,
    ;
    if b >= a {
        vstd::arithmetic::div_mod::lemma_basic_div(a - 1, b);
    }
}

/// Division rounded up, with a zero divisor giving zero.
pub fn ceil(a: u16, b: u16) -> (r: u16)
    ensures
        r == ceil_div(a as int, b as int),
{
    if a == 0 || b == 0 {
        0
    } else {
        proof {
            lemma_ceil_div_bounds(a as int, b as int);
        }
        1 + (a - 1) / b
    }
}


/// The state of a walk over an area that hands out one block per entry, row by row.
///
/// `x`, `y` locate the next block relative to the area's corner `offset_x`, `offset_y`;
/// `width` is what is left of the current row, `height` the rows left from the current
/// one down, and `length` the entries still to place.
#[derive(Clone, Copy, Debug)]
pub struct LogListPartitioner {
    pub x: u16,
    pub y: u16,
    pub offset_x: u16,
    pub offset_y: u16,
    pub width: u16,
    pub max_width: u16,
    pub height: u16,
    pub length: u32,
}

impl LogListPartitioner {
    pub open spec fn inv(self) -> bool {
        &&& self.offset_x + self.max_width <= u16::MAX
        &&& self.offset_y + self.y + self.height <= u16::MAX
        &&& self.x + self.width == self.max_width || (self.width == 0 && self.x == 0)
        &&& self.width == 0 ==> (self.height <= 1 || self.max_width == 0)
    }

    /// The walk that starts at the corner of `area` with `n` entries to place.
    pub open spec fn spec_start(area: Rect, n: nat) -> LogListPartitioner {
        LogListPartitioner {
            x: 0,
            y: 0,
            offset_x: area.x,
            offset_y: area.y,
            width: area.width,
            max_width: area.width,
            height: area.height,
            length: min(n as int, u32::MAX as int) as u32,
        }
    }

    pub open spec fn is_done(self) -> bool {
        self.height == 0 || self.length == 0 || self.width == 0
    }

    /// Entries that fit in the rows below the current one, one per cell.
    pub open spec fn after(self) -> int {
        min(self.length as int, (self.height - 1) * self.max_width)
    }

    /// How many blocks the rest of the current row is shared among.
    pub open spec fn width_divisor(self) -> int {
        let d = self.length - self.after() + 1;
        if self.height == 1 && d > 0 {
            d - 1
        } else {
            d
        }
    }

    pub open spec fn cell_width(self) -> int {
        ceil_div(self.width as int, self.width_divisor())
    }

    pub open spec fn cell_height(self) -> int {
        ceil_div(self.height as int, min(self.height as int, self.length as int))
    }

    /// The block handed out next.
    pub open spec fn current(self) -> Rect {
        Rect {
            x: (self.x + self.offset_x) as u16,
            y: (self.y + self.offset_y) as u16,
            width: self.cell_width() as u16,
            height: self.cell_height() as u16,
        }
    }

    /// Whether handing out the current block finishes its row and starts the next one.
    pub open spec fn wraps(self) -> bool {
        self.width - self.cell_width() == 0 && self.height - (self.cell_height() - 1) > 1
    }

    /// The state after handing out the current block.
    pub open spec fn advanced(self) -> LogListPartitioner {
        let w1 = self.width - self.cell_width();
        let h1 = self.height - (self.cell_height() - 1);
        let x1 = self.x + self.cell_width();
        LogListPartitioner {
            x: (if x1 == self.max_width { 0 } else { x1 }) as u16,
            y: (self.y + self.cell_height() - 1 + if self.wraps() { 1int } else { 0int }) as u16,
            width: (if self.wraps() { self.max_width as int } else { w1 }) as u16,
            height: (if self.wraps() { h1 - 1 } else { h1 }) as u16,
            length: (self.length - 1) as u32,
            ..self
        }
    }

    /// The blocks that the walk hands out from this state on.
    pub open spec fn remaining(self) -> Seq<Rect>
        decreases self.length,
    {
        if self.is_done() {
            seq![]
        } else {
            seq![self.current()] + self.advanced().remaining()
        }
    }

    /// Cells not yet handed out: the rest of this row and the rows below.
    pub open spec fn free_cells(self) -> int {
        if self.height == 0 {
            0
        } else {
            self.width + (self.height - 1) * self.max_width
        }
    }

    /// The area the walk was started on.
    pub open spec fn bounds(self) -> Rect {
        Rect {
            x: self.offset_x,
            y: self.offset_y,
            width: self.max_width,
            height: (self.y + self.height) as u16,
        }
    }

    /// `q` lies in the part of the area not yet handed out.
    pub open spec fn ahead(self, q: Rect) -> bool {
        ||| q.y > self.y + self.offset_y
        ||| (q.y == self.y + self.offset_y && q.x >= self.x + self.offset_x)
    }

    /// The walk over `area` for `n` entries.
    pub fn new(area: Rect, n: usize) -> (r: LogListPartitioner)
        requires
            area.fits(),
        ensures
            r == Self::spec_start(area, n as nat),
            r.inv(),
    {
        let length: u32 = if n > u32::MAX as usize { u32::MAX } else { n as u32 };
        LogListPartitioner {
            x: 0,
            y: 0,
            offset_x: area.x,
            offset_y: area.y,
            width: area.width,
            max_width: area.width,
            height: area.height,
            length,
        }
    }

    /// Hands out the next block, or `None` once every entry is placed or the area is used up.
    pub fn next(&mut self) -> (r: Option<Rect>)
        requires
            old(self).inv(),
        ensures
            final(self).inv(),
            old(self).is_done() ==> r.is_none() && *final(self) == *old(self),
            !old(self).is_done() ==> r == Some(old(self).current()) && *final(self)
                == old(self).advanced(),
    {
        if self.height == 0 || self.length == 0 || self.width == 0 {
            return None;
        }
        let ghost s = *self;
        proof {
            lemma_step(s);
        }
        let x = self.x;
        let y = self.y;
        proof {
            assert((s.height - 1) * s.max_width <= 65535 * 65535) by (nonlinear_arith)
                requires
                    1 <= s.height <= 65535,
                    s.max_width <= 65535,
            ;
        }
        let below: u64 = (self.height as u64 - 1) * self.max_width as u64;
        let after: u64 = if (self.length as u64) < below { self.length as u64 } else { below };
        let mut wdiv: u64 = self.length as u64 - after + 1;
        let hdiv: u16 = if (self.height as u32) < self.length { self.height } else { self.length as u16 };
        if self.height == 1 && wdiv > 0 {
            wdiv = wdiv - 1;
        }
        let wdiv16: u16 = if wdiv > u16::MAX as u64 { u16::MAX } else { wdiv as u16 };
        proof {
            if wdiv > u16::MAX as u64 {
                lemma_ceil_div_bounds(s.width as int, wdiv as int);
                lemma_ceil_div_bounds(s.width as int, wdiv16 as int);
            }
        }
        let width = ceil(self.width, wdiv16);
        let height = ceil(self.height, hdiv);
        self.width = self.width - width;
        self.height = self.height - (height - 1);
        if self.width == 0 && self.height > 1 {
            self.width = self.max_width;
            self.height = self.height - 1;
            self.y = self.y + 1;
        }
        self.x = self.x + width;
        self.y = self.y + (height - 1);
        if self.x == self.max_width {
            self.x = 0;
        }
        self.length = self.length - 1;
        Some(Rect { x: x + self.offset_x, y: y + self.offset_y, width, height })
    }
}

/// One step of the walk keeps its invariant, and the block it hands out is non-empty and
/// fits in what was left.
proof fn lemma_step(s: LogListPartitioner)
    requires
        s.inv(),
        !s.is_done(),
    ensures
        s.width_divisor() >= 1,
        1 <= s.cell_width() <= s.width,
        1 <= s.cell_height() <= s.height,
        s.cell_height() > 1 ==> s.cell_width() == s.width,
        s.advanced().inv(),
        s.advanced().length == s.length - 1,
        s.advanced().y + s.advanced().height == s.y + s.height,
{
    let d = s.width_divisor();
    let hd = min(s.height as int, s.length as int);
    assert((s.height - 1) * s.max_width >= 0) by (nonlinear_arith)
        requires
            s.height >= 1,
    ;
    if s.height == 1 {
        assert((s.height - 1) * s.max_width == 0) by (nonlinear_arith)
            requires
                s.height == 1,
        ;
    }
    assert(d >= 1);
    lemma_ceil_div_bounds(s.width as int, d);
    lemma_ceil_div_bounds(s.height as int, hd);
    if s.cell_height() > 1 {
        assert(hd < s.height);
        assert((s.height - 1) * s.max_width >= s.height - 1) by (nonlinear_arith)
            requires
                s.max_width >= 1,
                s.height >= 1,
        ;
    }
}


/// `t / d <= t - d + k` once `t >= d - k`, for `k` of 1 or 2.
proof fn lemma_div_small(t: int, d: int, k: int)
    requires
        t >= 0,
        d >= 1,
        k == 1 || k == 2,
        t >= d - k,
    ensures
        t / d <= t - d + k,
{
    let q = t / d;
    vstd::arithmetic::div_mod::lemma_fundamental_div_mod(t, d);
    assert(t % d >= 0);
    assert(q >= 0) by (nonlinear_arith)
        requires
            t >= 0,
            d >= 1,
            q == t / d,
    ;
    if t < d {
        vstd::arithmetic::div_mod::lemma_basic_div(t, d);
    } else {
        assert(q * d <= t);
        assert(q <= t - d + k) by (nonlinear_arith)
            requires
                q * d <= t,
                t >= d,
                d >= 1,
                q >= 0,
                k >= 1,
        ;
    }
}

/// `h - ceil(h / m) >= m - 1` when `2 <= m < h`.
proof fn lemma_rows_left(h: int, m: int)
    requires
        2 <= m < h,
    ensures
        h - ceil_div(h, m) >= m - 1,
{
    let t = h - 1;
    let q = t / m;
    vstd::arithmetic::div_mod::lemma_fundamental_div_mod(t, m);
    assert(q * m <= t);
    assert(t - q >= m - 1) by (nonlinear_arith)
        requires
            q * m <= t,
            t >= m,
            m >= 2,
    ;
}

/// Placing one block leaves room for all but one of the entries that had room.
proof fn lemma_count_step(s: LogListPartitioner)
    requires
        s.inv(),
        !s.is_done(),
    ensures
        min(s.length - 1, s.advanced().free_cells()) == min(s.length as int, s.free_cells()) - 1,
{
    lemma_step(s);
    let a = s.advanced();
    let w = s.width as int;
    let h = s.height as int;
    let mw = s.max_width as int;
    let len = s.length as int;
    let cw = s.cell_width();
    let ch = s.cell_height();
    let d = s.width_divisor();
    assert((h - 1) * mw >= 0) by (nonlinear_arith)
        requires
            h >= 1,
            mw >= 0,
    ;
    if h == 1 {
        assert((h - 1) * mw == 0) by (nonlinear_arith)
            requires
                h == 1,
        ;
        assert(d == len);
        assert(ch == 1);
        assert(a.free_cells() == w - cw) by {
            assert((a.height - 1) * a.max_width == 0) by (nonlinear_arith)
                requires
                    a.height == 1,
            ;
        }
        if len <= w {
            lemma_div_small(w - 1, d, 1);
        } else {
            lemma_ceil_div_bounds(w, d);
        }
    } else if len <= (h - 1) * mw {
        assert(d == 1);
        assert(cw == w);
        let m = min(h, len);
        if len == 1 {
            lemma_ceil_div_bounds(h, 1);
            assert(ch == h);
            assert(a.free_cells() == 0) by {
                assert((a.height - 1) * a.max_width == 0) by (nonlinear_arith)
                    requires
                        a.height == 1,
                ;
            }
        } else {
            lemma_ceil_div_bounds(h, m);
            if len >= h {
                assert(ch == 1);
            } else {
                lemma_rows_left(h, m);
            }
            assert(ch < h) by {
                vstd::arithmetic::div_mod::lemma_div_is_ordered_by_denominator(h - 1, 1, m);
                if (h - 1) / m == h - 1 {
                    assert((h - 1) / m * m <= h - 1) by {
                        vstd::arithmetic::div_mod::lemma_fundamental_div_mod(h - 1, m);
                    }
                    assert(false) by (nonlinear_arith)
                        requires
                            (h - 1) / m == h - 1,
                            (h - 1) / m * m <= h - 1,
                            m >= 2,
                            h >= 2,
                    ;
                }
            }
            assert(s.wraps());
            assert(a.free_cells() == (h - ch) * mw) by (nonlinear_arith)
                requires
                    a.free_cells() == mw + (h - ch - 1) * mw,
            ;
            assert((h - ch) * mw >= len - 1) by (nonlinear_arith)
                requires
                    len >= h ==> ch == 1 && (h - 1) * mw >= len,
                    len < h ==> h - ch >= len - 1,
                    mw >= 1,
                    h - ch >= 1,
            ;
        }
    } else {
        assert(s.after() == (h - 1) * mw);
        assert((h - 1) * mw >= h - 1) by (nonlinear_arith)
            requires
                h >= 1,
                mw >= 1,
        ;
        assert(ch == 1) by {
            lemma_ceil_div_bounds(h, h);
        }
        assert(d == len - (h - 1) * mw + 1);
        if s.wraps() {
            assert(mw + (h - 2) * mw == (h - 1) * mw) by (nonlinear_arith);
        }
        assert(a.free_cells() == s.free_cells() - cw);
        if len <= s.free_cells() {
            lemma_div_small(w - 1, d, 2);
        } else {
            lemma_ceil_div_bounds(w, d);
        }
    }
}

/// What a walk hands out from a state on: non-empty blocks inside the area, ahead of the
/// state, pairwise disjoint and in reading order, one for each entry as long as cells are
/// left.
pub proof fn lemma_remaining(s: LogListPartitioner)
    requires
        s.inv(),
    ensures
        s.remaining().len() == min(s.length as int, s.free_cells()),
        forall|i: int|
            0 <= i < s.remaining().len() ==> {
                &&& s.ahead(#[trigger] s.remaining()[i])
                &&& s.remaining()[i].within(s.bounds())
                &&& s.remaining()[i].width >= 1
                &&& s.remaining()[i].height >= 1
            },
        forall|i: int, j: int|
            0 <= i < j < s.remaining().len() ==> #[trigger] s.remaining()[i].disjoint(
                #[trigger] s.remaining()[j],
            ) && s.remaining()[i].precedes(s.remaining()[j]),
    decreases s.length,
{
    if s.is_done() {
        if s.height != 0 && s.length != 0 {
            assert((s.height - 1) * s.max_width == 0) by (nonlinear_arith)
                requires
                    s.height == 1 || s.max_width == 0,
            ;
        }
    } else {
        lemma_step(s);
        lemma_count_step(s);
        let a = s.advanced();
        lemma_remaining(a);
        let c = s.current();
        let r = s.remaining();
        assert(r == seq![c] + a.remaining());
        assert(a.bounds() == s.bounds());
        if !s.wraps() && s.width - s.cell_width() == 0 {
            assert(a.is_done());
            assert(a.remaining().len() == 0);
        }
        assert forall|i: int| 0 <= i < r.len() implies {
            &&& s.ahead(#[trigger] r[i])
            &&& r[i].within(s.bounds())
            &&& r[i].width >= 1
            &&& r[i].height >= 1
        } by {
            if i > 0 {
                assert(r[i] == a.remaining()[i - 1]);
            }
        }
        assert forall|i: int, j: int| 0 <= i < j < r.len() implies #[trigger] r[i].disjoint(
            #[trigger] r[j],
        ) && r[i].precedes(r[j]) by {
            assert(r[j] == a.remaining()[j - 1]);
            assert(a.ahead(a.remaining()[j - 1]));
            if i > 0 {
                assert(r[i] == a.remaining()[i - 1]);
            }
        }
    }
}


/// The blocks that `area` is split into for `n` entries, in the order they are handed out.
pub open spec fn spec_partition(area: Rect, n: nat) -> Seq<Rect> {
    LogListPartitioner::spec_start(area, n).remaining()
}

/// Splits `area` into one block per entry, row by row from the top left: as many blocks as
/// there are entries, or as cells when the entries outnumber them.
pub fn partition(area: Rect, n: usize) -> (r: Vec<Rect>)
    requires
        area.fits(),
    ensures
        r@ == spec_partition(area, n as nat),
        r@.len() == min(n as int, area.cells()),
        forall|i: int| 0 <= i < r@.len() ==> (#[trigger] r@[i]).within(area) && !r@[i].is_empty(),
        forall|i: int, j: int|
            0 <= i < j < r@.len() ==> (#[trigger] r@[i]).disjoint(#[trigger] r@[j]),
{
    proof {
        lemma_partition_tiles(area, n as nat);
    }
    let mut walk = LogListPartitioner::new(area, n);
    let mut out: Vec<Rect> = Vec::new();
    loop
        invariant
            walk.inv(),
            out@ + walk.remaining() == spec_partition(area, n as nat),
        ensures
            out@ == spec_partition(area, n as nat),
        decreases walk.length,
    {
        let ghost before = walk;
        match walk.next() {
            Some(block) => {
                proof {
                    lemma_step(before);
                    assert(before.remaining() == seq![block] + walk.remaining());
                    assert(out@.push(block) + walk.remaining() =~= out@ + before.remaining());
                }
                out.push(block);
            },
            None => {
                assert(out@ =~= spec_partition(area, n as nat));
                break ;
            },
        }
    }
    out
}

/// The blocks for `n` entries in `area` number `n`, or the cells of `area` when `n` is
/// larger; each is non-empty and lies within `area`, no two share a cell, and they come
/// in reading order, row by row and left to right.
pub proof fn lemma_partition_tiles(area: Rect, n: nat)
    requires
        area.fits(),
    ensures
        spec_partition(area, n).len() == min(n as int, area.cells()),
        forall|i: int|
            0 <= i < spec_partition(area, n).len() ==> (#[trigger] spec_partition(area, n)[i]).within(area)
                && !spec_partition(area, n)[i].is_empty(),
        forall|i: int, j: int|
            0 <= i < j < spec_partition(area, n).len() ==> (#[trigger] spec_partition(area, n)[i]).disjoint(
                #[trigger] spec_partition(area, n)[j],
            ) && spec_partition(area, n)[i].precedes(spec_partition(area, n)[j]),
{
    let s = LogListPartitioner::spec_start(area, n);
    lemma_remaining(s);
    assert(s.bounds() == area);
    if area.height > 0 {
        assert(area.width + (area.height - 1) * area.width == area.width * area.height) by (nonlinear_arith);
    } else {
        assert(area.width * area.height == 0) by (nonlinear_arith)
            requires
                area.height == 0,
        ;
    }
    assert(area.cells() <= u32::MAX) by (nonlinear_arith)
        requires
            area.width <= 65535,
            area.height <= 65535,
    ;
}

/// A single entry gets the whole area.
pub proof fn lemma_partition_single(area: Rect)
    requires
        area.fits(),
        !area.is_empty(),
    ensures
        spec_partition(area, 1) == seq![area],
{
    let s = LogListPartitioner::spec_start(area, 1);
    assert((s.height - 1) * s.max_width >= s.height - 1) by (nonlinear_arith)
        requires
            s.height >= 1,
            s.max_width >= 1,
    ;
    if s.height == 1 {
        assert((s.height - 1) * s.max_width == 0) by (nonlinear_arith)
            requires
                s.height == 1,
        ;
    }
    assert(s.width_divisor() == 1);
    lemma_ceil_div_bounds(s.width as int, 1);
    lemma_ceil_div_bounds(s.height as int, 1);
    assert(s.current() == area);
    assert(s.advanced().is_done());
    assert(s.advanced().remaining() == Seq::<Rect>::empty());
    assert(s.remaining() == seq![s.current()] + s.advanced().remaining());
    assert(spec_partition(area, 1) =~= seq![area]);
}

/// No entries, or an area without cells, gives no blocks.
pub proof fn lemma_partition_empty(area: Rect, n: nat)
    requires
        n == 0 || area.is_empty(),
    ensures
        spec_partition(area, n) == Seq::<Rect>::empty(),
{
    assert(LogListPartitioner::spec_start(area, n).is_done());
}


/// The cells of all blocks in `rs` together.
pub open spec fn total_cells(rs: Seq<Rect>) -> int
    decreases rs.len(),
{
    if rs.len() == 0 {
        0
    } else {
        rs[0].cells() + total_cells(rs.drop_first())
    }
}

impl LogListPartitioner {
    /// Part way along a row, the entries left fill at least every row below it.
    pub open spec fn row_inv(self) -> bool {
        0 < self.width < self.max_width ==> self.length >= (self.height - 1) * self.max_width
    }
}

/// One step keeps `row_inv`, and the block it hands out has exactly the cells that the
/// step takes from what is left.
proof fn lemma_step_cells(s: LogListPartitioner)
    requires
        s.inv(),
        s.row_inv(),
        !s.is_done(),
    ensures
        s.advanced().row_inv(),
        s.current().cells() == s.free_cells() - s.advanced().free_cells(),
        s.length == 1 ==> s.advanced().free_cells() == 0,
{
    lemma_step(s);
    let a = s.advanced();
    let w = s.width as int;
    let h = s.height as int;
    let mw = s.max_width as int;
    let len = s.length as int;
    let cw = s.cell_width();
    let ch = s.cell_height();
    let m = min(h, len);
    assert((h - 1) * mw >= 0) by (nonlinear_arith)
        requires
            h >= 1,
            mw >= 0,
    ;
    assert(s.current().cells() == cw * ch);
    if h == 1 {
        assert((h - 1) * mw == 0) by (nonlinear_arith)
            requires
                h == 1,
        ;
        assert(ch == 1);
        assert((a.height - 1) * a.max_width == 0) by (nonlinear_arith)
            requires
                a.height == 1,
        ;
        if len == 1 {
            lemma_ceil_div_bounds(w, 1);
        }
    } else {
        assert((h - 1) * mw >= h - 1) by (nonlinear_arith)
            requires
                h >= 1,
                mw >= 1,
        ;
        if len == 1 {
            lemma_ceil_div_bounds(w, 1);
            lemma_ceil_div_bounds(h, 1);
            assert((a.height - 1) * a.max_width == 0) by (nonlinear_arith)
                requires
                    a.height == 1,
            ;
            if w < mw {
                assert(false) by (nonlinear_arith)
                    requires
                        1 >= (h - 1) * mw,
                        h >= 2,
                        1 <= w < mw,
                ;
            }
            assert(w == mw);
            assert(s.current().cells() == w * h);
            assert(h * mw == mw + (h - 1) * mw) by (nonlinear_arith);
        } else if ch == 1 {
            if s.wraps() {
                assert(mw + (h - 2) * mw == (h - 1) * mw) by (nonlinear_arith);
            }
            if 0 < a.width < a.max_width {
                if len <= (h - 1) * mw {
                    assert(s.width_divisor() == 1);
                    lemma_ceil_div_bounds(w, 1);
                }
            }
        } else {
            lemma_ceil_div_bounds(h, m);
            assert(m < h);
            if w < mw {
                assert(false) by (nonlinear_arith)
                    requires
                        len >= (h - 1) * mw,
                        len < h,
                        h >= 2,
                        1 <= w < mw,
                ;
            }
            assert(w == mw);
            if ch == h {
                assert((a.height - 1) * a.max_width == 0) by (nonlinear_arith)
                    requires
                        a.height == 1,
                ;
                assert(h * mw == mw + (h - 1) * mw) by (nonlinear_arith);
            } else {
                assert(s.wraps());
                assert(a.free_cells() == mw + (h - ch - 1) * mw);
                assert(s.current().cells() == mw * ch);
                assert(mw * ch == mw + (h - 1) * mw - (mw + (h - ch - 1) * mw)) by (nonlinear_arith);
            }
        }
    }
}

/// Walking on from a state with no more entries than free cells uses every free cell.
proof fn lemma_cover(s: LogListPartitioner)
    requires
        s.inv(),
        s.row_inv(),
        1 <= s.length <= s.free_cells(),
    ensures
        total_cells(s.remaining()) == s.free_cells(),
    decreases s.length,
{
    assert(!s.is_done()) by {
        if s.width == 0 {
            if s.height == 0 {
            } else {
                assert((s.height - 1) * s.max_width == 0) by (nonlinear_arith)
                    requires
                        s.height == 1 || s.max_width == 0,
                ;
            }
        }
    }
    lemma_step(s);
    lemma_step_cells(s);
    lemma_count_step(s);
    let a = s.advanced();
    let r = s.remaining();
    assert(r == seq![s.current()] + a.remaining());
    assert(r.drop_first() == a.remaining());
    assert(r[0] == s.current());
    assert(total_cells(r) == s.current().cells() + total_cells(a.remaining()));
    if s.length == 1 {
        assert(a.is_done());
        assert(a.remaining().len() == 0);
    } else {
        lemma_cover(a);
    }
}

/// With at least one entry and no more entries than cells, the blocks' cells add up to the
/// whole area; as they lie inside it and share no cell, they cover every cell of it.
pub proof fn lemma_partition_covers(area: Rect, n: nat)
    requires
        area.fits(),
        1 <= n <= area.cells(),
    ensures
        total_cells(spec_partition(area, n)) == area.cells(),
{
    let s = LogListPartitioner::spec_start(area, n);
    assert(area.cells() <= u32::MAX) by (nonlinear_arith)
        requires
            area.width <= 65535,
            area.height <= 65535,
            area.cells() == area.width * area.height,
    ;
    assert(area.height >= 1) by {
        if area.height == 0 {
            assert(area.width * area.height == 0) by (nonlinear_arith)
                requires
                    area.height == 0,
            ;
        }
    }
    assert(area.width + (area.height - 1) * area.width == area.width * area.height) by (nonlinear_arith);
    lemma_cover(s);
}

} // verus!
