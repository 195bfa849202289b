use bytes::Bytes;
use stream_assembler::fragment::Buffer;
use stream_assembler::range_set::RangeSet;
use stream_assembler::store::Store;
use stream_assembler::State;

fn buffer(offset: u64, bytes: &'static [u8]) -> Buffer {
    Buffer::new(offset, Bytes::from_static(bytes), bytes.len())
}

#[test]
fn range_set_reports_what_it_held() {
    let mut set = RangeSet::new();
    assert_eq!(set.replace(3, 6), vec![]);
    assert_eq!(set.replace(0, 9), vec![(3, 6)]);
    assert_eq!(set.replace(0, 4), vec![(0, 4)]);
    assert_eq!(set.replace(8, 12), vec![(8, 9)]);
    assert_eq!(set.replace(0, 12), vec![(0, 12)]);
}

#[test]
fn range_set_reports_separate_runs() {
    let mut set = RangeSet::new();
    set.insert(0, 2);
    set.insert(4, 6);
    set.insert(9, 10);
    assert_eq!(set.replace(1, 5), vec![(1, 2), (4, 5)]);
    assert_eq!(set.replace(0, 20), vec![(0, 6), (9, 10)]);
    assert_eq!(set.replace(19, 25), vec![(19, 20)]);
}

#[test]
fn range_set_merges_ranges_that_touch() {
    let mut set = RangeSet::new();
    set.insert(0, 3);
    set.insert(6, 9);
    set.insert(3, 6);
    assert_eq!(set.replace(0, 9), vec![(0, 9)]);
    let mut set = RangeSet::new();
    set.insert(5, 8);
    assert_eq!(set.replace(8, 10), vec![]);
    assert_eq!(set.replace(2, 5), vec![]);
    assert_eq!(set.replace(0, 12), vec![(2, 10)]);
}

#[test]
fn range_set_ignores_empty_ranges() {
    let mut set = RangeSet::new();
    assert_eq!(set.replace(5, 5), vec![]);
    assert_eq!(set.replace(7, 2), vec![]);
    set.insert(4, 4);
    assert_eq!(set.replace(0, 10), vec![]);
    assert_eq!(set.replace(5, 5), vec![]);
    assert_eq!(set.replace(0, 10), vec![(0, 10)]);
}

#[test]
fn store_hands_out_in_read_order() {
    let mut store = Store::new();
    assert_eq!(store.len(), 0);
    assert!(store.peek().is_none());
    assert!(store.pop().is_none());
    store.push(buffer(5, b"fgh"));
    store.push(buffer(0, b"ab"));
    store.push(buffer(9, b"j"));
    store.push(buffer(0, b"abcd"));
    store.push(buffer(5, b"f"));
    assert_eq!(store.len(), 5);
    assert_eq!(store.get(0).offset(), 9);
    assert_eq!(store.get(4).size(), 4);
    let top = store.peek().unwrap();
    assert_eq!((top.offset(), top.size()), (0, 4));
    let mut order = Vec::new();
    while let Some(b) = store.pop() {
        order.push((b.offset(), b.size()));
    }
    assert_eq!(order, vec![(0, 4), (0, 2), (5, 3), (5, 1), (9, 1)]);
}

#[test]
fn store_reads_equal_fragments_in_order_of_arrival() {
    let mut store = Store::new();
    store.push(Buffer::new(2, Bytes::from_static(b"xy"), 2));
    store.push(Buffer::new(2, Bytes::from_static(b"uv"), 7));
    store.push(Buffer::new(2, Bytes::from_static(b"st"), 9));
    let mut order = Vec::new();
    while let Some(b) = store.pop() {
        let (offset, bytes, allocation_size) = b.into_parts();
        order.push((offset, bytes, allocation_size));
    }
    assert_eq!(
        order,
        vec![
            (2, Bytes::from_static(b"xy"), 2),
            (2, Bytes::from_static(b"uv"), 7),
            (2, Bytes::from_static(b"st"), 9),
        ]
    );
}

#[test]
fn store_clear_drops_everything() {
    let mut store = Store::new();
    store.push(buffer(5, b"fgh"));
    store.push(buffer(0, b"ab"));
    store.clear();
    assert_eq!(store.len(), 0);
    assert!(store.pop().is_none());
}

#[test]
fn buffer_is_trimmed_and_split_without_copying() {
    let mut b = Buffer::new(10, Bytes::from_static(b"abcdefgh"), 20);
    assert_eq!((b.offset(), b.size(), b.allocation_size()), (10, 8, 20));
    b.advance_to(13);
    assert_eq!((b.offset(), b.size(), b.allocation_size()), (13, 5, 20));
    assert_eq!(b.bytes(), &Bytes::from_static(b"defgh"));
    let head = b.split_front(2);
    assert_eq!(head, Bytes::from_static(b"de"));
    assert_eq!((b.offset(), b.size(), b.allocation_size()), (15, 3, 20));
    assert_eq!(b.bytes(), &Bytes::from_static(b"fgh"));
    let head = b.split_front(0);
    assert_eq!(head, Bytes::new());
    assert_eq!((b.offset(), b.size()), (15, 3));
    b.advance_to(15);
    assert_eq!(b.into_parts(), (15, Bytes::from_static(b"fgh"), 20));
}

#[test]
fn buffer_is_made_only_of_a_well_formed_fragment() {
    let b = Buffer::try_new(7, Bytes::from_static(b"hij"), 5).unwrap();
    assert_eq!((b.offset(), b.size(), b.allocation_size()), (7, 3, 5));
    assert_eq!(b.bytes(), &Bytes::from_static(b"hij"));
    assert!(Buffer::try_new(7, Bytes::from_static(b"hij"), 3).is_some());
    assert!(Buffer::try_new(7, Bytes::from_static(b"hij"), 2).is_none());
    assert!(Buffer::try_new(7, Bytes::new(), 2).is_none());
    assert!(Buffer::try_new(u64::MAX - 2, Bytes::from_static(b"hij"), 3).is_none());
    assert!(Buffer::try_new(u64::MAX - 3, Bytes::from_static(b"hij"), 3).is_some());
}

#[test]
fn buffer_read_order() {
    let early = buffer(1, b"b");
    let late = buffer(2, b"cdef");
    let long = buffer(2, b"cdefgh");
    assert!(early.reads_before(&late));
    assert!(!late.reads_before(&early));
    assert!(long.reads_before(&late));
    assert!(!late.reads_before(&long));
    assert!(!late.reads_before(&late));
    assert!(early.reads_before(&long));
}

#[test]
fn state_is_ordered_only_at_first() {
    assert!(State::Ordered.is_ordered());
    assert!(State::default().is_ordered());
    assert!(!State::Unordered { recvd: RangeSet::new() }.is_ordered());
}
