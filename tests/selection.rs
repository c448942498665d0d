use packetloss::packet::{PacketChunk, ProbeResult};
use packetloss::partition::Rect;
use packetloss::selection::SelectableLogList;

fn entry(latency_us: u32) -> PacketChunk {
    let mut c = PacketChunk::new(100_000, 0);
    c.record(Some(ProbeResult { dropped: false, latency_us }));
    c
}

fn tints(list: &SelectableLogList) -> Vec<u8> {
    (0..list.len()).map(|i| list.get(i).tint_weight).collect()
}

fn filled(n: u32, max: usize) -> SelectableLogList {
    let mut list = SelectableLogList::new(max);
    for l in 0..n {
        list.insert(entry(l + 1));
    }
    list
}

#[test]
fn moving_on_empty_history_does_nothing() {
    let mut list = SelectableLogList::new(4);
    list.select_next();
    assert_eq!(list.selection(), None);
    list.select_prev();
    list.select_first();
    list.select_last();
    assert_eq!(list.selection(), None);
    assert!(!list.has_selection());
}

#[test]
fn next_and_prev_move_and_stop_at_ends() {
    let mut list = filled(3, 10);
    list.select_next();
    assert_eq!(list.selection(), Some(0));
    list.select_next();
    list.select_next();
    assert_eq!(list.selection(), Some(2));
    list.select_next();
    assert_eq!(list.selection(), Some(2));
    list.select_prev();
    assert_eq!(list.selection(), Some(1));
    list.select_prev();
    list.select_prev();
    assert_eq!(list.selection(), Some(0));
    list.clear();
    list.select_prev();
    assert_eq!(list.selection(), Some(0));
    list.select_last();
    assert_eq!(list.selection(), Some(2));
    list.select_first();
    assert_eq!(list.selection(), Some(0));
}

#[test]
fn only_selected_entry_is_highlighted() {
    let mut list = filled(4, 10);
    assert_eq!(tints(&list), vec![0, 0, 0, 0]);
    list.select(2);
    assert_eq!(tints(&list), vec![0, 0, 50, 0]);
    list.select(1);
    assert_eq!(tints(&list), vec![0, 50, 0, 0]);
    list.clear();
    assert_eq!(tints(&list), vec![0, 0, 0, 0]);
    assert!(!list.has_selection());
}

#[test]
fn selection_follows_its_entry_on_insert() {
    let mut list = filled(3, 10);
    list.select(1);
    let chosen = list.get(1).latency();
    list.insert(entry(99));
    assert_eq!(list.selection(), Some(2));
    assert_eq!(list.get(2).latency(), chosen);
    assert_eq!(tints(&list), vec![0, 0, 50, 0]);
    list.select(0);
    list.insert(entry(98));
    assert_eq!(list.selection(), Some(1));
    assert_eq!(tints(&list), vec![0, 50, 0, 0, 0]);
}

#[test]
fn inserted_highlight_is_dropped() {
    let mut list = filled(2, 10);
    let mut e = entry(5);
    e.tint_weight(80);
    list.insert(e);
    assert_eq!(tints(&list), vec![0, 0, 0]);
}

#[test]
fn selection_leaves_with_evicted_entry() {
    let mut list = filled(3, 3);
    list.select_last();
    assert_eq!(list.selection(), Some(2));
    list.insert(entry(50));
    assert_eq!(list.selection(), None);
    assert_eq!(tints(&list), vec![0, 0, 0]);
}

#[test]
fn inspect_layout_reserves_odd_top_block() {
    let area = Rect::new(0, 0, 80, 24);
    let mut list = filled(5, 40);
    assert_eq!(list.inspect_layout(area), None);
    list.select(3);
    assert_eq!(
        list.inspect_layout(area),
        Some((Rect::new(0, 0, 80, 5), Rect::new(0, 5, 80, 19)))
    );
    let mut many = filled(30, 40);
    many.select(0);
    assert_eq!(
        many.inspect_layout(area),
        Some((Rect::new(0, 0, 80, 5), Rect::new(0, 5, 80, 19)))
    );
    let mut six = filled(6, 40);
    six.select(0);
    assert_eq!(
        six.inspect_layout(area),
        Some((Rect::new(0, 0, 80, 5), Rect::new(0, 5, 80, 19)))
    );
    let mut two = filled(2, 40);
    two.select(0);
    assert_eq!(
        two.inspect_layout(area),
        Some((Rect::new(0, 0, 80, 13), Rect::new(0, 13, 80, 11)))
    );
    let mut one = filled(1, 40);
    one.select(0);
    assert_eq!(one.inspect_layout(area), None);
    assert_eq!(one.inspect_layout(Rect::new(0, 0, 0, 24)), None);
}
