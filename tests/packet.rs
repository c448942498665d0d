use packetloss::packet::{mix_colors, DrawablePacket, Fraction, LabelKind, LabelPlacement, PacketChunk, ProbeResult, Rgb};
use packetloss::partition::Rect;

fn chunk(probes: &[Option<ProbeResult>], timeout: u32) -> PacketChunk {
    let mut c = PacketChunk::new(timeout, 0);
    for p in probes {
        c.record(*p);
    }
    c
}

fn ok(latency_us: u32) -> Option<ProbeResult> {
    Some(ProbeResult { dropped: false, latency_us })
}

fn lost() -> Option<ProbeResult> {
    Some(ProbeResult { dropped: true, latency_us: 7 })
}

#[test]
fn empty_batch_has_no_loss() {
    let c = chunk(&[], 5000);
    assert_eq!(c.sent(), 0);
    assert_eq!(c.received(), 0);
    assert_eq!(c.loss(), Fraction { num: 0, den: 1 });
    assert_eq!(c.loss_percent(), 0);
    assert_eq!(c.latency(), 0);
    assert_eq!(c.color(10), Rgb::good());
}

#[test]
fn loss_counts_drops_and_failed_sends() {
    let c = chunk(&[ok(1000), lost(), None, ok(2000)], 5000);
    assert_eq!(c.sent(), 4);
    assert_eq!(c.received(), 2);
    assert_eq!(c.loss(), Fraction { num: 2, den: 4 });
    assert_eq!(c.loss_percent(), 50);
    let all_lost = chunk(&[lost(), None], 5000);
    assert_eq!(all_lost.loss(), Fraction { num: 2, den: 2 });
    assert_eq!(all_lost.loss_percent(), 100);
    assert_eq!(chunk(&[ok(1), ok(1), lost()], 1).loss_percent(), 33);
}

#[test]
fn latency_counts_lost_probes_as_timeout() {
    let c = chunk(&[ok(1000), lost(), None, ok(2000)], 5000);
    assert_eq!(c.latency(), 13000);
    let big = chunk(&[ok(u32::MAX), None], u32::MAX);
    assert_eq!(big.latency(), 2 * u32::MAX as u64);
}

#[test]
fn color_blends_by_loss_and_latency() {
    let c = chunk(&[ok(1000), None], 5000);
    assert_eq!(c.latency(), 6000);
    assert_eq!(c.color(3000), Rgb::new(172, 62, 73));
    assert_eq!(c.color(u64::MAX), Rgb::new(119, 110, 76));
    let perfect = chunk(&[ok(1000), ok(1000)], 5000);
    assert_eq!(perfect.color(2000), Rgb::good());
    assert_eq!(perfect.color(u64::MAX), Rgb::good());
    let dead = chunk(&[None, lost()], 5000);
    assert_eq!(dead.color(1), Rgb::bad());
}

#[test]
fn highlight_blends_on_top() {
    let mut c = chunk(&[ok(1000), None], 5000);
    c.tint(Rgb::new(0, 0, 0));
    c.tint_weight(50);
    assert_eq!(c.tint_weight, 50);
    assert_eq!(c.color(3000), Rgb::new(86, 31, 37));
    c.tint_weight(250);
    assert_eq!(c.tint_weight, 100);
    assert_eq!(c.color(3000), Rgb::new(0, 0, 0));
    c.tint_weight(0);
    assert_eq!(c.color(3000), Rgb::new(172, 62, 73));
}

#[test]
fn mix_ends_and_middle() {
    let a = Rgb::new(200, 100, 0);
    let b = Rgb::new(0, 50, 255);
    assert_eq!(mix_colors(0, 7, a, b), b);
    assert_eq!(mix_colors(7, 7, a, b), a);
    assert_eq!(mix_colors(1, 2, a, b), Rgb::new(100, 75, 128));
    assert_eq!(mix_colors(2, 3, Rgb::new(1, 1, 1), Rgb::new(0, 0, 0)), Rgb::new(1, 1, 1));
    assert_eq!(mix_colors(1, 3, Rgb::new(1, 1, 1), Rgb::new(0, 0, 0)), Rgb::new(0, 0, 0));
}

#[test]
fn label_picks_the_text_that_fits() {
    let c = chunk(&[ok(1000)], 5000);
    let d = DrawablePacket::new(&c, 1000);
    assert_eq!(d.background(), Rgb::good());
    let area = Rect::new(10, 4, 40, 6);
    assert_eq!(
        d.label(area, 30, 12),
        Some(LabelPlacement { kind: LabelKind::Long, x: 15, y: 7, max_width: 40 })
    );
    assert_eq!(
        d.label(area, 50, 12),
        Some(LabelPlacement { kind: LabelKind::Short, x: 24, y: 7, max_width: 40 })
    );
    assert_eq!(d.label(area, 50, 41), None);
    assert_eq!(d.label(Rect::new(0, 0, 0, 5), 0, 0), None);
}

#[test]
fn latency_rounds_to_tenths_and_whole_milliseconds() {
    let c = chunk(&[ok(1249), ok(1001)], 5000);
    assert_eq!(c.latency(), 2250);
    assert_eq!(c.latency_tenths_ms(), 23);
    assert_eq!(c.latency_ms(), 2);
    let d = chunk(&[ok(1549)], 5000);
    assert_eq!(d.latency_tenths_ms(), 15);
    assert_eq!(d.latency_ms(), 2);
    let e = chunk(&[ok(1449)], 5000);
    assert_eq!(e.latency_tenths_ms(), 14);
    assert_eq!(e.latency_ms(), 1);
}
