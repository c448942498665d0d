//! One batch of probes: its loss, its latency and the color it is drawn in.
use vstd::prelude::*;
use crate::partition::Rect;

verus! {

/// The answer to one probe: whether it was dropped, and its round trip in microseconds.
#[derive(Clone, Copy, Debug, PartialEq, Eq, Structural)]
pub struct ProbeResult {
    pub dropped: bool,
    pub latency_us: u32,
}

/// A color by its red, green and blue channels.
#[derive(Clone, Copy, Debug, PartialEq, Eq, Structural)]
pub struct Rgb {
    pub r: u8,
    pub g: u8,
    pub b: u8,
}

impl Rgb {
    pub fn new(r: u8, g: u8, b: u8) -> (c: Rgb)
        ensures
            c == (Rgb { r, g, b }),
    {
        Rgb { r, g, b }
    }

    /// The color of a batch without loss at the best latency seen.
    pub open spec fn spec_good() -> Rgb {
        Rgb { r: 14, g: 204, b: 80 }
    }

    /// The color of a batch that lost every probe.
    pub open spec fn spec_bad() -> Rgb {
        Rgb { r: 224, g: 15, b: 71 }
    }

    pub fn good() -> (c: Rgb)
        ensures
            c == Rgb::spec_good(),
    {
        Rgb { r: 14, g: 204, b: 80 }
    }

    pub fn bad() -> (c: Rgb)
        ensures
            c == Rgb::spec_bad(),
    {
        Rgb { r: 224, g: 15, b: 71 }
    }
}

/// A fraction `num / den`.
#[derive(Clone, Copy, Debug, PartialEq, Eq, Structural)]
pub struct Fraction {
    pub num: u64,
    pub den: u64,
}

/// One channel of `a * t + b * (1 - t)` with `t = num / den`, rounded to the nearest
/// integer, halves up.
pub open spec fn mix_channel(a: int, b: int, num: int, den: int) -> int {
    (2 * (a * num + b * (den - num)) + den) / (2 * den)
}

pub open spec fn spec_mix(num: int, den: int, a: Rgb, b: Rgb) -> Rgb {
    Rgb {
        r: mix_channel(a.r as int, b.r as int, num, den) as u8,
        g: mix_channel(a.g as int, b.g as int, num, den) as u8,
        b: mix_channel(a.b as int, b.b as int, num, den) as u8,
    }
}

/// The largest denominator that a blend is computed with.
pub const MAX_MIX_DEN: u128 = 0x1_0000_0000_0000_0000_0000_0000;

/// `x / den` rounded to the nearest integer lies within any integer bounds of `x / den`.
proof fn lemma_round_within(x: int, den: int, lo: int, hi: int)
    requires
        den > 0,
        lo * den <= x <= hi * den,
    ensures
        lo <= (2 * x + den) / (2 * den) <= hi,
{
    let y = 2 * x + den;
    let d = 2 * den;
    let q = y / d;
    let r = y % d;
    vstd::arithmetic::div_mod::lemma_fundamental_div_mod(y, d);
    assert(0 <= r < d);
    assert(y == q * d + r) by (nonlinear_arith)
        requires
            y == d * q + r,
    ;
    assert(lo <= q) by (nonlinear_arith)
        requires
            y == q * d + r,
            r < d,
            d == 2 * den,
            y == 2 * x + den,
            lo * den <= x,
            den > 0,
    ;
    assert(q <= hi) by (nonlinear_arith)
        requires
            y == q * d + r,
            r >= 0,
            d == 2 * den,
            y == 2 * x + den,
            x <= hi * den,
            den > 0,
    ;
}

proof fn lemma_mix_channel(a: int, b: int, num: int, den: int)
    requires
        0 <= a <= 255,
        0 <= b <= 255,
        0 <= num <= den,
        den > 0,
    ensures
        0 <= mix_channel(a, b, num, den) <= 255,
        vstd::math::min(a, b) <= mix_channel(a, b, num, den) <= vstd::math::max(a, b),
        num == 0 ==> mix_channel(a, b, num, den) == b,
        num == den ==> mix_channel(a, b, num, den) == a,
{
    let x = a * num + b * (den - num);
    let lo = vstd::math::min(a, b);
    let hi = vstd::math::max(a, b);
    assert(lo * den <= x <= hi * den) by (nonlinear_arith)
        requires
            x == a * num + b * (den - num),
            lo <= a <= hi,
            lo <= b <= hi,
            0 <= num <= den,
    ;
    lemma_round_within(x, den, lo, hi);
    if num == 0 {
        assert(x == b * den) by (nonlinear_arith)
            requires
                x == a * num + b * (den - num),
                num == 0,
        ;
        lemma_round_within(x, den, b, b);
    }
    if num == den {
        assert(x == a * den) by (nonlinear_arith)
            requires
                x == a * num + b * (den - num),
                num == den,
        ;
        lemma_round_within(x, den, a, a);
    }
}

/// Blends `a` over `b` with weight `num / den`: all of `b` at zero, all of `a` at one,
/// each channel rounded to the nearest integer in between.
pub fn mix_colors(num: u128, den: u128, a: Rgb, b: Rgb) -> (c: Rgb)
    requires
        num <= den,
        0 < den <= MAX_MIX_DEN,
    ensures
        c == spec_mix(num as int, den as int, a, b),
        num == 0 ==> c == b,
        num == den ==> c == a,
{
    proof {
        lemma_mix_channel(a.r as int, b.r as int, num as int, den as int);
        lemma_mix_channel(a.g as int, b.g as int, num as int, den as int);
        lemma_mix_channel(a.b as int, b.b as int, num as int, den as int);
    }
    let r = mix_one(a.r, b.r, num, den);
    let g = mix_one(a.g, b.g, num, den);
    let bl = mix_one(a.b, b.b, num, den);
    Rgb { r, g, b: bl }
}

fn mix_one(a: u8, b: u8, num: u128, den: u128) -> (c: u8)
    requires
        num <= den,
        0 < den <= MAX_MIX_DEN,
    ensures
        c == mix_channel(a as int, b as int, num as int, den as int),
        vstd::math::min(a as int, b as int) <= c <= vstd::math::max(a as int, b as int),
{
    proof {
        lemma_mix_channel(a as int, b as int, num as int, den as int);
        assert(a * num <= 255 * MAX_MIX_DEN) by (nonlinear_arith)
            requires
                a <= 255,
                num <= MAX_MIX_DEN,
        ;
        assert(b * (den - num) <= 255 * MAX_MIX_DEN) by (nonlinear_arith)
            requires
                b <= 255,
                den - num <= MAX_MIX_DEN,
        ;
    }
    let x: u128 = a as u128 * num + b as u128 * (den - num);
    ((2 * x + den) / (2 * den)) as u8
}

/// Whether a probe came back.
pub open spec fn is_received(a: Option<ProbeResult>) -> bool {
    match a {
        Some(p) => !p.dropped,
        None => false,
    }
}

/// What a probe adds to a batch's latency: its round trip, or the timeout when it was
/// dropped or never sent.
pub open spec fn effective_latency(a: Option<ProbeResult>, timeout_us: u32) -> int {
    match a {
        Some(p) => if p.dropped {
            timeout_us as int
        } else {
            p.latency_us as int
        },
        None => timeout_us as int,
    }
}

pub open spec fn received_count(p: Seq<Option<ProbeResult>>) -> int
    decreases p.len(),
{
    if p.len() == 0 {
        0
    } else {
        received_count(p.drop_last()) + if is_received(p.last()) {
            1int
        } else {
            0int
        }
    }
}

pub open spec fn total_latency(p: Seq<Option<ProbeResult>>, timeout_us: u32) -> int
    decreases p.len(),
{
    if p.len() == 0 {
        0
    } else {
        total_latency(p.drop_last(), timeout_us) + effective_latency(p.last(), timeout_us)
    }
}

proof fn lemma_counts(p: Seq<Option<ProbeResult>>, timeout_us: u32)
    ensures
        0 <= received_count(p) <= p.len(),
        0 <= total_latency(p, timeout_us) <= p.len() * u32::MAX,
    decreases p.len(),
{
    if p.len() > 0 {
        lemma_counts(p.drop_last(), timeout_us);
        assert((p.len() - 1) * u32::MAX + u32::MAX == p.len() * u32::MAX) by (nonlinear_arith);
    }
}

/// The most probes one batch holds.
pub const MAX_PROBES: usize = 0xffff_ffff;

/// One batch of probes sent together.
///
/// `packets` holds one slot per probe, `None` where sending failed; `time` is when the batch
/// was taken, in seconds since the Unix epoch; `timeout` stands in, in microseconds, for
/// the round trip of a probe that did not come back. `tint` and `tint_weight` (a percentage)
/// blend a highlight over the batch's color.
#[derive(Clone, Debug)]
pub struct PacketChunk {
    pub packets: Vec<Option<ProbeResult>>,
    pub time: i64,
    pub timeout: u32,
    pub tint: Rgb,
    pub tint_weight: u8,
}

impl PacketChunk {
    pub open spec fn wf(&self) -> bool {
        self.packets@.len() <= MAX_PROBES && self.tint_weight <= 100
    }

    pub open spec fn spec_received(&self) -> int {
        received_count(self.packets@)
    }

    pub open spec fn spec_latency(&self) -> int {
        total_latency(self.packets@, self.timeout)
    }

    /// The loss as a fraction: probes lost over probes sent, and zero for an empty batch.
    pub open spec fn spec_loss(&self) -> Fraction {
        if self.packets@.len() == 0 {
            Fraction { num: 0, den: 1 }
        } else {
            Fraction {
                num: (self.packets@.len() - self.spec_received()) as u64,
                den: self.packets@.len() as u64,
            }
        }
    }

    /// The share of the best latency in this batch's latency, as a fraction: one when the
    /// batch took no time or no longer than `min_latency`.
    pub open spec fn latency_ratio(&self, min_latency: u64) -> (int, int) {
        if self.spec_latency() == 0 || min_latency >= self.spec_latency() {
            (1, 1)
        } else {
            (min_latency as int, self.spec_latency())
        }
    }

    /// The weight of the good color: the share received times the latency ratio.
    pub open spec fn health(&self, min_latency: u64) -> (int, int) {
        let (rn, rd) = if self.packets@.len() == 0 {
            (1int, 1int)
        } else {
            (self.spec_received(), self.packets@.len() as int)
        };
        let (ln, ld) = self.latency_ratio(min_latency);
        (rn * ln, rd * ld)
    }

    pub open spec fn spec_color(&self, min_latency: u64) -> Rgb {
        let (n, d) = self.health(min_latency);
        let base = spec_mix(n, d, Rgb::spec_good(), Rgb::spec_bad());
        spec_mix(self.tint_weight as int, 100, self.tint, base)
    }

    /// An empty batch taken at `time` with probes timing out after `timeout` microseconds.
    pub fn new(timeout: u32, time: i64) -> (r: PacketChunk)
        ensures
            r.wf(),
            r.packets@ == Seq::<Option<ProbeResult>>::empty(),
            r.time == time,
            r.timeout == timeout,
            r.tint == (Rgb { r: 0, g: 0, b: 0 }),
            r.tint_weight == 0,
    {
        PacketChunk { packets: Vec::new(), time, timeout, tint: Rgb { r: 0, g: 0, b: 0 }, tint_weight: 0 }
    }

    /// Adds the outcome of one more probe.
    pub fn record(&mut self, probe: Option<ProbeResult>)
        requires
            old(self).wf(),
            old(self).packets@.len() < MAX_PROBES,
        ensures
            final(self).wf(),
            final(self).packets@ == old(self).packets@.push(probe),
            final(self).time == old(self).time,
            final(self).timeout == old(self).timeout,
            final(self).tint == old(self).tint,
            final(self).tint_weight == old(self).tint_weight,
    {
        self.packets.push(probe);
    }

    pub fn sent(&self) -> (r: usize)
        ensures
            r == self.packets@.len(),
    {
        self.packets.len()
    }

    /// The probes that came back.
    pub fn received(&self) -> (r: usize)
        ensures
            r == self.spec_received(),
    {
        let mut count: usize = 0;
        let mut i: usize = 0;
        while i < self.packets.len()
            invariant
                i <= self.packets@.len(),
                count == received_count(self.packets@.subrange(0, i as int)),
                count <= i,
            decreases self.packets@.len() - i,
        {
            let ghost pre = self.packets@.subrange(0, i as int);
            assert(self.packets@.subrange(0, i + 1).drop_last() == pre);
            match self.packets[i] {
                Some(p) => {
                    if !p.dropped {
                        count = count + 1;
                    }
                },
                None => {},
            }
            i = i + 1;
        }
        assert(self.packets@.subrange(0, i as int) == self.packets@);
        count
    }

    /// The share of probes lost, zero for an empty batch.
    pub fn loss(&self) -> (r: Fraction)
        ensures
            r == self.spec_loss(),
            r.num <= r.den,
            r.den > 0,
            self.packets@.len() == 0 ==> r.num == 0,
    {
        proof {
            lemma_counts(self.packets@, self.timeout);
        }
        let sent = self.sent();
        if sent == 0 {
            Fraction { num: 0, den: 1 }
        } else {
            let received = self.received();
            Fraction { num: (sent - received) as u64, den: sent as u64 }
        }
    }

    /// The loss in whole percent, rounded down.
    pub fn loss_percent(&self) -> (r: u8)
        ensures
            r == self.spec_loss().num * 100 / self.spec_loss().den as int,
            r <= 100,
    {
        let l = self.loss();
        proof {
            assert(l.num * 100 <= l.den * 100) by (nonlinear_arith)
                requires
                    l.num <= l.den,
            ;
            vstd::arithmetic::div_mod::lemma_div_is_ordered(l.num * 100, l.den * 100, l.den as int);
            vstd::arithmetic::div_mod::lemma_div_multiples_vanish(100, l.den as int);
            assert(l.den * 100 == 100 * l.den) by (nonlinear_arith);
        }
        ((l.num as u128 * 100) / l.den as u128) as u8
    }

    pub fn tint(&mut self, color: Rgb)
        ensures
            *final(self) == (PacketChunk { tint: color, ..*old(self) }),
    {
        self.tint = color;
    }

    /// Sets the highlight's weight in percent, capped at 100.
    pub fn tint_weight(&mut self, weight: u32)
        ensures
            *final(self) == (PacketChunk {
                tint_weight: if weight > 100 { 100 } else { weight as u8 },
                ..*old(self)
            }),
    {
        if weight > 100 {
            self.tint_weight = 100;
        } else {
            self.tint_weight = weight as u8;
        }
    }

    /// The summed latency in microseconds, a lost probe counting as the timeout.
    pub fn latency(&self) -> (r: u64)
        requires
            self.wf(),
        ensures
            r == self.spec_latency(),
    {
        let mut acc: u64 = 0;
        let mut i: usize = 0;
        while i < self.packets.len()
            invariant
                self.wf(),
                i <= self.packets@.len(),
                acc == total_latency(self.packets@.subrange(0, i as int), self.timeout),
            decreases self.packets@.len() - i,
        {
            let ghost pre = self.packets@.subrange(0, i as int);
            proof {
                assert(self.packets@.subrange(0, i + 1).drop_last() == pre);
                lemma_counts(self.packets@.subrange(0, i + 1), self.timeout);
                assert((i + 1) * u32::MAX <= MAX_PROBES * u32::MAX) by (nonlinear_arith)
                    requires
                        i + 1 <= MAX_PROBES,
                ;
            }
            let add: u32 = match self.packets[i] {
                Some(p) => if p.dropped {
                    self.timeout
                } else {
                    p.latency_us
                },
                None => self.timeout,
            };
            acc = acc + add as u64;
            i = i + 1;
        }
        assert(self.packets@.subrange(0, i as int) == self.packets@);
        acc
    }

    /// The summed latency in tenths of a millisecond, rounded to the nearest, halves up.
    pub fn latency_tenths_ms(&self) -> (r: u64)
        requires
            self.wf(),
        ensures
            r == (self.spec_latency() + 50) / 100,
    {
        proof {
            lemma_counts(self.packets@, self.timeout);
            assert(self.packets@.len() * u32::MAX <= MAX_PROBES * u32::MAX) by (nonlinear_arith)
                requires
                    self.packets@.len() <= MAX_PROBES,
            ;
        }
        (self.latency() + 50) / 100
    }

    /// The summed latency in whole milliseconds, rounded to the nearest, halves up.
    pub fn latency_ms(&self) -> (r: u64)
        requires
            self.wf(),
        ensures
            r == (self.spec_latency() + 500) / 1000,
    {
        proof {
            lemma_counts(self.packets@, self.timeout);
            assert(self.packets@.len() * u32::MAX <= MAX_PROBES * u32::MAX) by (nonlinear_arith)
                requires
                    self.packets@.len() <= MAX_PROBES,
            ;
        }
        (self.latency() + 500) / 1000
    }

    /// The batch's color: the good color weighted by the share received and by how close
    /// its latency comes to `min_latency`, the bad color for the rest, and the highlight
    /// blended on top by its weight.
    pub fn color(&self, min_latency: u64) -> (c: Rgb)
        requires
            self.wf(),
        ensures
            c == self.spec_color(min_latency),
    {
        proof {
            lemma_counts(self.packets@, self.timeout);
            assert(self.packets@.len() * u32::MAX <= MAX_PROBES * u32::MAX) by (nonlinear_arith)
                requires
                    self.packets@.len() <= MAX_PROBES,
            ;
        }
        let sent = self.sent();
        let lat = self.latency();
        let (rn, rd): (u128, u128) = if sent == 0 {
            (1, 1)
        } else {
            (self.received() as u128, sent as u128)
        };
        let (ln, ld): (u128, u128) = if lat == 0 || min_latency >= lat {
            (1, 1)
        } else {
            (min_latency as u128, lat as u128)
        };
        proof {
            assert(rn * ln <= rd * ld) by (nonlinear_arith)
                requires
                    rn <= rd,
                    ln <= ld,
            ;
            assert(rd * ld <= MAX_PROBES * (MAX_PROBES * u32::MAX)) by (nonlinear_arith)
                requires
                    1 <= rd <= MAX_PROBES,
                    1 <= ld <= MAX_PROBES * u32::MAX,
            ;
            assert(rd * ld >= 1) by (nonlinear_arith)
                requires
                    rd >= 1,
                    ld >= 1,
            ;
        }
        let base = mix_colors(rn * ln, rd * ld, Rgb::good(), Rgb::bad());
        mix_colors(self.tint_weight as u128, 100, self.tint, base)
    }
}


/// Which of the two texts a batch is labelled with.
#[derive(Clone, Copy, Debug, PartialEq, Eq, Structural)]
pub enum LabelKind {
    Long,
    Short,
}

/// Where a label goes: its text, the cell its first character is drawn in, and the columns
/// it may take.
#[derive(Clone, Copy, Debug, PartialEq, Eq, Structural)]
pub struct LabelPlacement {
    pub kind: LabelKind,
    pub x: u16,
    pub y: u16,
    pub max_width: u16,
}

/// The label for a block: the long text where it fits, else the short one where that fits,
/// else none; centred in the block, rows and columns rounded down.
pub open spec fn spec_label(area: Rect, long_len: nat, short_len: nat) -> Option<LabelPlacement> {
    if area.is_empty() {
        None
    } else {
        let (kind, len) = if area.width >= long_len {
            (LabelKind::Long, long_len)
        } else {
            (LabelKind::Short, short_len)
        };
        if area.width < len {
            None
        } else {
            let half = area.width / 2;
            let shift = if half >= len / 2 { half - len / 2 } else { 0 };
            Some(LabelPlacement {
                kind,
                x: (area.x + shift) as u16,
                y: (area.y + area.height / 2) as u16,
                max_width: area.width,
            })
        }
    }
}

/// A batch together with the best latency it is drawn against.
pub struct DrawablePacket<'a> {
    pub packet: &'a PacketChunk,
    pub min_latency: u64,
}

impl<'a> DrawablePacket<'a> {
    pub fn new(packet: &'a PacketChunk, min: u64) -> (r: DrawablePacket<'a>)
        ensures
            r.packet == packet,
            r.min_latency == min,
    {
        DrawablePacket { packet, min_latency: min }
    }

    /// The color the block is filled with.
    pub fn background(&self) -> (c: Rgb)
        requires
            self.packet.wf(),
        ensures
            c == self.packet.spec_color(self.min_latency),
    {
        self.packet.color(self.min_latency)
    }

    /// Where the label goes in `area`, given the lengths of the long and short texts.
    pub fn label(&self, area: Rect, long_len: usize, short_len: usize) -> (r: Option<LabelPlacement>)
        requires
            area.fits(),
        ensures
            r == spec_label(area, long_len as nat, short_len as nat),
    {
        if area.width == 0 || area.height == 0 {
            return None;
        }
        let len: usize = if area.width as usize >= long_len {
            long_len
        } else {
            short_len
        };
        if (area.width as usize) < len {
            return None;
        }
        let kind = if area.width as usize >= long_len {
            LabelKind::Long
        } else {
            LabelKind::Short
        };
        let half: u16 = area.width / 2;
        let half_len: u16 = (len / 2) as u16;
        let shift: u16 = if half >= half_len { half - half_len } else { 0 };
        Some(LabelPlacement { kind, x: area.x + shift, y: area.y + area.height / 2, max_width: area.width })
    }
}

} // verus!
