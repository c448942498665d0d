use packetloss::history::LogList;
use packetloss::packet::{PacketChunk, ProbeResult};
use packetloss::partition::{LogListPartitioner, Rect};

fn entry(latency_us: u32) -> PacketChunk {
    let mut c = PacketChunk::new(100_000, latency_us as i64);
    c.record(Some(ProbeResult { dropped: false, latency_us }));
    c
}

fn latencies(list: &LogList) -> Vec<u64> {
    (0..list.len()).map(|i| list.get(i).latency()).collect()
}

#[test]
fn capacity_three_keeps_three_newest() {
    let mut list = LogList::new(3);
    for l in [50, 30, 70, 10] {
        list.insert(entry(l));
    }
    assert_eq!(latencies(&list), vec![10, 70, 30]);
    assert_eq!(list.min_latency(), 10);
}

#[test]
fn never_holds_more_than_capacity() {
    let mut list = LogList::new(2);
    assert_eq!(list.len(), 0);
    for (i, l) in [5, 6, 7, 8, 9].iter().enumerate() {
        list.insert(entry(*l));
        assert_eq!(list.len(), (i + 1).min(2));
    }
    assert_eq!(latencies(&list), vec![9, 8]);
    let mut one = LogList::new(1);
    one.insert(entry(4));
    one.insert(entry(3));
    assert_eq!(latencies(&one), vec![3]);
}

#[test]
fn lowest_latency_never_rises() {
    let mut list = LogList::new(2);
    assert_eq!(list.min_latency(), u64::MAX);
    let mut last = list.min_latency();
    for l in [40, 60, 20, 90, 20, 5, 80] {
        list.insert(entry(l));
        assert!(list.min_latency() <= last);
        last = list.min_latency();
    }
    assert_eq!(list.min_latency(), 5);
    assert_eq!(latencies(&list), vec![80, 5]);
}

#[test]
fn evicted_lowest_is_remembered() {
    let mut list = LogList::new(1);
    list.insert(entry(7));
    list.insert(entry(50));
    assert_eq!(latencies(&list), vec![50]);
    assert_eq!(list.min_latency(), 7);
}

#[test]
fn partition_covers_history() {
    let mut list = LogList::new(10);
    for l in [1, 2, 3] {
        list.insert(entry(l));
    }
    let area = Rect::new(0, 0, 30, 9);
    let mut walk: LogListPartitioner = list.partition(area);
    assert_eq!(walk.next(), Some(Rect::new(0, 0, 30, 3)));
    assert_eq!(walk.next(), Some(Rect::new(0, 3, 30, 3)));
    assert_eq!(walk.next(), Some(Rect::new(0, 6, 30, 3)));
    assert_eq!(walk.next(), None);
}
