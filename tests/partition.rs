use packetloss::partition::{ceil, partition, LogListPartitioner, Rect};

fn disjoint(a: &Rect, b: &Rect) -> bool {
    a.x + a.width <= b.x || b.x + b.width <= a.x || a.y + a.height <= b.y || b.y + b.height <= a.y
}

fn within(r: &Rect, outer: &Rect) -> bool {
    outer.x <= r.x
        && r.x + r.width <= outer.x + outer.width
        && outer.y <= r.y
        && r.y + r.height <= outer.y + outer.height
}

fn check_tiling(area: Rect, rects: &[Rect]) {
    for (i, a) in rects.iter().enumerate() {
        assert!(within(a, &area), "{:?} outside {:?}", a, area);
        assert!(a.width > 0 && a.height > 0);
        for b in rects.iter().skip(i + 1) {
            assert!(disjoint(a, b), "{:?} overlaps {:?}", a, b);
        }
    }
}

#[test]
fn ceil_rounds_up_and_guards_zero() {
    assert_eq!(ceil(0, 5), 0);
    assert_eq!(ceil(5, 0), 0);
    assert_eq!(ceil(7, 2), 4);
    assert_eq!(ceil(6, 3), 2);
    assert_eq!(ceil(1, 9), 1);
    assert_eq!(ceil(65535, 1), 65535);
}

#[test]
fn five_entries_on_80_by_24() {
    let area = Rect::new(0, 0, 80, 24);
    let rects = partition(area, 5);
    assert_eq!(
        rects,
        vec![
            Rect::new(0, 0, 80, 5),
            Rect::new(0, 5, 80, 5),
            Rect::new(0, 10, 80, 5),
            Rect::new(0, 15, 80, 5),
            Rect::new(0, 20, 80, 4),
        ]
    );
    let covered: u32 = rects.iter().map(|r| r.width as u32 * r.height as u32).sum();
    assert_eq!(covered, 80 * 24);
    check_tiling(area, &rects);
}

#[test]
fn single_entry_takes_whole_area() {
    let area = Rect::new(3, 4, 10, 7);
    assert_eq!(partition(area, 1), vec![area]);
    let line = Rect::new(0, 9, 12, 1);
    assert_eq!(partition(line, 1), vec![line]);
}

#[test]
fn nothing_to_place_or_no_room() {
    assert!(partition(Rect::new(0, 0, 80, 24), 0).is_empty());
    assert!(partition(Rect::new(0, 0, 0, 24), 5).is_empty());
    assert!(partition(Rect::new(0, 0, 80, 0), 5).is_empty());
}

#[test]
fn more_entries_than_cells_fill_every_cell() {
    let area = Rect::new(1, 1, 3, 2);
    let rects = partition(area, 7);
    assert_eq!(rects.len(), 6);
    for r in &rects {
        assert_eq!((r.width, r.height), (1, 1));
    }
    check_tiling(area, &rects);
    assert_eq!(partition(area, usize::MAX).len(), 6);
}

#[test]
fn rows_split_when_entries_outnumber_rows() {
    let area = Rect::new(0, 0, 10, 2);
    let rects = partition(area, 15);
    assert_eq!(rects.len(), 15);
    check_tiling(area, &rects);
    assert_eq!(rects[0], Rect::new(0, 0, 2, 1));
}

#[test]
fn counts_match_entries_or_cells() {
    for w in 0..9u16 {
        for h in 0..7u16 {
            for n in 0..70usize {
                let area = Rect::new(2, 3, w, h);
                let rects = partition(area, n);
                assert_eq!(rects.len(), n.min(w as usize * h as usize));
                check_tiling(area, &rects);
                for pair in rects.windows(2) {
                    let (a, b) = (&pair[0], &pair[1]);
                    assert!(a.y < b.y || (a.y == b.y && a.x + a.width <= b.x));
                }
                if n >= 1 && n <= w as usize * h as usize {
                    let covered: usize = rects.iter().map(|r| r.width as usize * r.height as usize).sum();
                    assert_eq!(covered, w as usize * h as usize);
                }
            }
        }
    }
}

#[test]
fn walk_hands_out_blocks_one_by_one() {
    let area = Rect::new(0, 0, 80, 24);
    let mut walk = LogListPartitioner::new(area, 2);
    assert_eq!(walk.next(), Some(Rect::new(0, 0, 80, 12)));
    assert_eq!(walk.next(), Some(Rect::new(0, 12, 80, 12)));
    assert_eq!(walk.next(), None);
    assert_eq!(walk.next(), None);
}
