use bytes::Bytes;
use stream_assembler::{Assembler, Chunk};

const STREAM: &[u8] = b"0123456789abcdefghijklmnopqrstuvwxyz";

fn piece(from: usize, to: usize) -> Bytes {
    Bytes::from_static(&STREAM[from..to])
}

fn feed(x: &mut Assembler, from: usize, to: usize) {
    x.insert(from as u64, piece(from, to), to - from);
}

fn drain(x: &mut Assembler, max: usize) -> Vec<u8> {
    let mut out = Vec::new();
    while let Some(chunk) = x.read(max, true) {
        assert_eq!(chunk.offset as usize + chunk.bytes.len(), x.bytes_read() as usize);
        out.extend_from_slice(&chunk.bytes);
    }
    out
}

fn within_bound(x: &Assembler) -> bool {
    let over = (x.allocated() - x.buffered()) as u128;
    over <= 4096 || 2 * over <= 3 * x.buffered() as u128
}

#[test]
fn ordered_reads_reproduce_the_stream() {
    let mut x = Assembler::new();
    let mut out = Vec::new();
    feed(&mut x, 10, 20);
    assert_eq!(x.read(7, true), None);
    feed(&mut x, 4, 12);
    feed(&mut x, 0, 5);
    feed(&mut x, 2, 3);
    for max in [1, 3, 2, 50] {
        let offset = x.bytes_read();
        let chunk = x.read(max, true).unwrap();
        assert_eq!(chunk.offset, offset);
        assert!(chunk.bytes.len() <= max);
        assert!(!chunk.bytes.is_empty());
        out.extend_from_slice(&chunk.bytes);
    }
    feed(&mut x, 30, 36);
    feed(&mut x, 18, 30);
    out.extend(drain(&mut x, 5));
    assert_eq!(out, STREAM);
    assert_eq!(x.bytes_read(), 36);
    assert_eq!(x.len(), 0);
    assert_eq!(x.buffered(), 0);
    assert_eq!(x.allocated(), 0);
}

#[test]
fn ordered_read_stops_at_a_gap() {
    let mut x = Assembler::new();
    feed(&mut x, 0, 4);
    feed(&mut x, 5, 9);
    assert_eq!(drain(&mut x, usize::MAX), &STREAM[0..4]);
    assert_eq!(x.bytes_read(), 4);
    assert_eq!(x.len(), 1);
    feed(&mut x, 4, 5);
    assert_eq!(drain(&mut x, usize::MAX), &STREAM[4..9]);
}

#[test]
fn duplicate_gives_same_output_ordered() {
    let mut once = Assembler::new();
    let mut twice = Assembler::new();
    for x in [&mut once, &mut twice] {
        feed(x, 3, 9);
        feed(x, 0, 5);
    }
    feed(&mut twice, 0, 5);
    feed(&mut twice, 3, 9);
    assert_eq!(drain(&mut once, 2), &STREAM[0..9]);
    assert_eq!(drain(&mut twice, 2), &STREAM[0..9]);
    assert_eq!(once.bytes_read(), twice.bytes_read());
}

#[test]
fn duplicate_changes_nothing_unordered() {
    let mut x = Assembler::new();
    x.ensure_ordering(false).unwrap();
    feed(&mut x, 3, 9);
    feed(&mut x, 3, 9);
    x.insert(3, piece(3, 9), 100);
    assert_eq!(x.len(), 1);
    assert_eq!(x.buffered(), 6);
    assert_eq!(x.allocated(), 6);
    assert_eq!(x.read(usize::MAX, false), Some(Chunk::new(3, piece(3, 9))));
    assert_eq!(x.read(usize::MAX, false), None);
    feed(&mut x, 3, 9);
    assert_eq!(x.read(usize::MAX, false), None);
}

#[test]
fn unordered_stores_only_what_is_new() {
    let mut x = Assembler::new();
    x.ensure_ordering(false).unwrap();
    feed(&mut x, 2, 4);
    feed(&mut x, 6, 8);
    assert_eq!(x.read(usize::MAX, false), Some(Chunk::new(2, piece(2, 4))));
    feed(&mut x, 0, 10);
    assert_eq!(x.len(), 4);
    assert_eq!(x.buffered(), 8);
    assert_eq!(x.allocated(), 32);
    assert_eq!(x.read(usize::MAX, false), Some(Chunk::new(0, piece(0, 2))));
    assert_eq!(x.read(usize::MAX, false), Some(Chunk::new(4, piece(4, 6))));
    assert_eq!(x.read(usize::MAX, false), Some(Chunk::new(6, piece(6, 8))));
    assert_eq!(x.read(usize::MAX, false), Some(Chunk::new(8, piece(8, 10))));
    assert_eq!(x.read(usize::MAX, false), None);
    assert_eq!(x.bytes_read(), 0);
}

#[test]
fn first_bytes_win_unordered() {
    let mut x = Assembler::new();
    x.ensure_ordering(false).unwrap();
    x.insert(1, Bytes::from_static(b"bc"), 2);
    x.insert(0, Bytes::from_static(b"AXYD"), 4);
    assert_eq!(
        x.read(usize::MAX, false),
        Some(Chunk::new(0, Bytes::from_static(b"A")))
    );
    assert_eq!(
        x.read(usize::MAX, false),
        Some(Chunk::new(1, Bytes::from_static(b"bc")))
    );
    assert_eq!(
        x.read(usize::MAX, false),
        Some(Chunk::new(3, Bytes::from_static(b"D")))
    );
    assert_eq!(x.read(usize::MAX, false), None);
}

#[test]
fn ordered_drops_what_was_read() {
    let mut x = Assembler::new();
    feed(&mut x, 0, 6);
    assert_eq!(x.read(4, true), Some(Chunk::new(0, piece(0, 4))));
    feed(&mut x, 0, 4);
    assert_eq!(x.len(), 1);
    feed(&mut x, 2, 8);
    assert_eq!(x.len(), 2);
    assert_eq!(x.buffered(), 2 + 4);
    assert_eq!(x.allocated(), 6 + 6);
    assert_eq!(drain(&mut x, usize::MAX), &STREAM[4..8]);
}

#[test]
fn entering_unordered_mode_remembers_what_was_read_and_buffered() {
    let mut x = Assembler::new();
    feed(&mut x, 0, 3);
    assert_eq!(x.read(usize::MAX, true), Some(Chunk::new(0, piece(0, 3))));
    feed(&mut x, 5, 7);
    x.ensure_ordering(false).unwrap();
    feed(&mut x, 0, 8);
    assert_eq!(x.read(usize::MAX, false), Some(Chunk::new(3, piece(3, 5))));
    assert_eq!(x.read(usize::MAX, false), Some(Chunk::new(5, piece(5, 7))));
    assert_eq!(x.read(usize::MAX, false), Some(Chunk::new(7, piece(7, 8))));
    assert_eq!(x.read(usize::MAX, false), None);
    assert_eq!(x.bytes_read(), 3);
}

#[test]
fn ordered_read_is_refused_once_unordered() {
    let mut x = Assembler::new();
    assert!(x.ensure_ordering(true).is_ok());
    assert!(x.ensure_ordering(false).is_ok());
    assert!(x.ensure_ordering(false).is_ok());
    feed(&mut x, 0, 3);
    assert!(x.ensure_ordering(true).is_err());
    assert_eq!(x.len(), 1);
    assert_eq!(x.bytes_read(), 0);
    assert!(x.ensure_ordering(false).is_ok());
    feed(&mut x, 0, 3);
    assert_eq!(x.len(), 1);
    assert_eq!(x.read(usize::MAX, false), Some(Chunk::new(0, piece(0, 3))));
}

#[test]
fn defragmentation_does_not_change_what_is_read() {
    let mut plain = Assembler::new();
    let mut compacted = Assembler::new();
    for x in [&mut plain, &mut compacted] {
        x.insert(8, piece(8, 12), 9);
        x.insert(0, piece(0, 3), 3);
        x.insert(2, piece(2, 6), 8);
        x.insert(5, piece(5, 9), 4);
        x.insert(20, piece(20, 22), 7);
        x.insert(11, piece(11, 15), 6);
    }
    compacted.defragment();
    assert_eq!(compacted.allocated(), compacted.buffered());
    assert!(plain.allocated() > plain.buffered());
    assert_eq!(drain(&mut plain, usize::MAX), &STREAM[0..15]);
    assert_eq!(drain(&mut compacted, usize::MAX), &STREAM[0..15]);
    assert_eq!(plain.bytes_read(), compacted.bytes_read());
    for x in [&mut plain, &mut compacted] {
        feed(x, 15, 20);
    }
    assert_eq!(drain(&mut plain, 3), &STREAM[15..22]);
    assert_eq!(drain(&mut compacted, 3), &STREAM[15..22]);
}

#[test]
fn defragmentation_merges_wasteful_and_keeps_tight() {
    let mut x = Assembler::new();
    x.insert(0, piece(0, 3), 4);
    x.insert(3, piece(3, 6), 3);
    x.insert(6, piece(6, 9), 4);
    x.insert(8, piece(8, 12), 5);
    x.insert(9, piece(9, 10), 2);
    x.insert(20, piece(20, 23), 9);
    assert_eq!(x.buffered(), 17);
    assert_eq!(x.allocated(), 27);
    x.defragment();
    assert_eq!(x.len(), 4);
    assert_eq!(x.buffered(), 15);
    assert_eq!(x.allocated(), 15);
    assert_eq!(x.read(usize::MAX, false), Some(Chunk::new(0, piece(0, 3))));
    assert_eq!(x.read(usize::MAX, false), Some(Chunk::new(3, piece(3, 6))));
    assert_eq!(x.read(usize::MAX, false), Some(Chunk::new(6, piece(6, 12))));
    assert_eq!(x.read(usize::MAX, false), Some(Chunk::new(20, piece(20, 23))));
    assert_eq!(x.read(usize::MAX, false), None);
}

#[test]
fn bytes_read_never_goes_back() {
    let mut x = Assembler::new();
    let mut last = x.bytes_read();
    let mut check = |x: &Assembler| {
        assert!(x.bytes_read() >= last);
        last = x.bytes_read();
    };
    feed(&mut x, 0, 6);
    check(&x);
    x.read(2, true);
    check(&x);
    assert_eq!(x.bytes_read(), 2);
    feed(&mut x, 1, 3);
    check(&x);
    x.defragment();
    check(&x);
    x.read(0, true);
    check(&x);
    assert_eq!(x.bytes_read(), 2);
    x.read(usize::MAX, true);
    check(&x);
    assert_eq!(x.bytes_read(), 6);
    x.read(usize::MAX, true);
    check(&x);
    x.ensure_ordering(false).unwrap();
    check(&x);
    feed(&mut x, 10, 16);
    x.read(3, false);
    check(&x);
    x.clear();
    check(&x);
    assert_eq!(x.bytes_read(), 6);
}

#[test]
fn over_allocation_stays_bounded() {
    let mut x = Assembler::new();
    for i in 0..36usize {
        x.insert(i as u64, piece(i, i + 1), 1500);
        assert!(within_bound(&x));
    }
    assert_eq!(x.buffered(), 36);
    assert_eq!(drain(&mut x, usize::MAX), STREAM);
}

#[test]
fn over_allocation_of_the_floor_is_kept() {
    let mut x = Assembler::new();
    x.insert(0, piece(0, 1), 4097);
    assert_eq!(x.buffered(), 1);
    assert_eq!(x.allocated(), 4097);
    let mut y = Assembler::new();
    y.insert(0, piece(0, 1), 4098);
    assert_eq!(y.buffered(), 1);
    assert_eq!(y.allocated(), 1);
    assert_eq!(y.read(usize::MAX, true), Some(Chunk::new(0, piece(0, 1))));
}

#[test]
fn over_allocation_of_one_and_a_half_times_is_kept() {
    let data = Bytes::from(vec![7u8; 4000]);
    let mut x = Assembler::new();
    x.insert(0, data.clone(), 10000);
    assert_eq!(x.buffered(), 4000);
    assert_eq!(x.allocated(), 10000);
    let mut y = Assembler::new();
    y.insert(0, data.clone(), 10001);
    assert_eq!(y.buffered(), 4000);
    assert_eq!(y.allocated(), 4000);
    assert_eq!(y.read(usize::MAX, true), Some(Chunk::new(0, data)));
}

#[test]
fn over_allocation_is_tested_when_the_tail_is_dropped() {
    let mut x = Assembler::new();
    x.ensure_ordering(false).unwrap();
    x.insert(5, Bytes::from_static(b"f"), 1);
    x.insert(0, Bytes::from_static(b"abcdef"), 10000);
    assert_eq!(x.len(), 2);
    assert_eq!(x.buffered(), 6);
    assert_eq!(x.allocated(), 6);
    assert!(within_bound(&x));
    assert_eq!(
        x.read(usize::MAX, false),
        Some(Chunk::new(0, Bytes::from_static(b"abcde")))
    );
    assert_eq!(
        x.read(usize::MAX, false),
        Some(Chunk::new(5, Bytes::from_static(b"f")))
    );
    assert_eq!(x.read(usize::MAX, false), None);
}

#[test]
fn over_allocation_is_tested_when_nothing_is_stored() {
    let mut x = Assembler::new();
    x.insert(0, piece(0, 10), 10);
    x.insert(20, piece(20, 22), 4000);
    assert_eq!((x.len(), x.buffered(), x.allocated()), (2, 12, 4010));
    assert_eq!(x.read(usize::MAX, true), Some(Chunk::new(0, piece(0, 10))));
    x.insert(30, piece(30, 31), 1000);
    assert_eq!((x.len(), x.buffered(), x.allocated()), (2, 3, 3));
    let data = Bytes::from(vec![7u8; 4000]);
    let mut x = Assembler::new();
    x.insert(0, data.clone(), 4000);
    x.insert(5000, piece(20, 22), 5000);
    assert_eq!((x.len(), x.buffered(), x.allocated()), (2, 4002, 9000));
    assert_eq!(x.read(usize::MAX, true), Some(Chunk::new(0, data.clone())));
    assert_eq!((x.len(), x.buffered(), x.allocated()), (1, 2, 5000));
    assert!(!within_bound(&x));
    x.insert(0, data.slice(0..5), 5);
    assert_eq!((x.len(), x.buffered(), x.allocated()), (1, 2, 2));
    assert!(within_bound(&x));
    assert_eq!(x.read(usize::MAX, false), Some(Chunk::new(5000, piece(20, 22))));
}

#[test]
fn counters_follow_the_store() {
    let mut x = Assembler::new();
    x.insert(0, piece(0, 6), 10);
    assert_eq!((x.len(), x.buffered(), x.allocated()), (1, 6, 10));
    assert_eq!(x.read(2, true), Some(Chunk::new(0, piece(0, 2))));
    assert_eq!((x.len(), x.buffered(), x.allocated()), (1, 4, 10));
    let top = x.peek().unwrap();
    assert_eq!((top.offset(), top.size(), top.allocation_size()), (2, 4, 10));
    assert_eq!(top.bytes(), &piece(2, 6));
    x.insert(1, piece(1, 3), 2);
    assert_eq!((x.len(), x.buffered(), x.allocated()), (2, 5, 12));
    assert_eq!(x.read(usize::MAX, true), Some(Chunk::new(2, piece(2, 6))));
    assert_eq!((x.len(), x.buffered(), x.allocated()), (1, 1, 2));
    assert_eq!(x.read(usize::MAX, true), None);
    assert_eq!((x.len(), x.buffered(), x.allocated()), (0, 0, 0));
    assert!(x.peek().is_none());
}

#[test]
fn read_of_no_bytes() {
    let mut x = Assembler::new();
    assert_eq!(x.read(0, true), None);
    feed(&mut x, 0, 3);
    assert_eq!(x.read(0, true), Some(Chunk::new(0, Bytes::new())));
    assert_eq!(x.bytes_read(), 0);
    assert_eq!(x.buffered(), 3);
    assert_eq!(x.read(0, false), Some(Chunk::new(0, Bytes::new())));
    assert_eq!(x.read(3, true), Some(Chunk::new(0, piece(0, 3))));
}

#[test]
fn unordered_read_splits_and_leaves_bytes_read() {
    let mut x = Assembler::new();
    x.ensure_ordering(false).unwrap();
    feed(&mut x, 4, 10);
    assert_eq!(x.read(2, false), Some(Chunk::new(4, piece(4, 6))));
    assert_eq!(x.read(6, false), Some(Chunk::new(6, piece(6, 10))));
    assert_eq!(x.read(6, false), None);
    assert_eq!(x.bytes_read(), 0);
}

#[test]
fn longer_fragment_is_read_first() {
    let mut x = Assembler::new();
    feed(&mut x, 0, 2);
    feed(&mut x, 0, 5);
    feed(&mut x, 0, 3);
    let top = x.peek().unwrap();
    assert_eq!((top.offset(), top.size()), (0, 5));
    assert_eq!(x.read(usize::MAX, true), Some(Chunk::new(0, piece(0, 5))));
    assert_eq!(x.read(usize::MAX, true), None);
    assert_eq!(x.len(), 0);
}

#[test]
fn empty_fragment_is_ignored() {
    let mut x = Assembler::new();
    x.insert(4, Bytes::new(), 0);
    x.insert(0, Bytes::new(), 10);
    assert_eq!((x.len(), x.buffered(), x.allocated()), (0, 0, 0));
    x.ensure_ordering(false).unwrap();
    x.insert(4, Bytes::new(), 0);
    assert_eq!(x.len(), 0);
    feed(&mut x, 4, 6);
    assert_eq!(x.read(usize::MAX, false), Some(Chunk::new(4, piece(4, 6))));
}

#[test]
fn clear_drops_data_and_keeps_position_and_mode() {
    let mut x = Assembler::new();
    feed(&mut x, 0, 4);
    feed(&mut x, 6, 9);
    assert_eq!(x.read(2, true), Some(Chunk::new(0, piece(0, 2))));
    x.clear();
    assert_eq!((x.len(), x.buffered(), x.allocated()), (0, 0, 0));
    assert_eq!(x.bytes_read(), 2);
    assert_eq!(x.read(usize::MAX, true), None);
    feed(&mut x, 2, 4);
    assert_eq!(x.read(usize::MAX, true), Some(Chunk::new(2, piece(2, 4))));
    x.ensure_ordering(false).unwrap();
    feed(&mut x, 10, 12);
    x.clear();
    assert!(x.ensure_ordering(true).is_err());
    feed(&mut x, 10, 13);
    assert_eq!(x.read(usize::MAX, false), Some(Chunk::new(12, piece(12, 13))));
}

#[test]
fn set_bytes_read_moves_the_read_position() {
    let mut x = Assembler::new();
    feed(&mut x, 0, 10);
    x.set_bytes_read(4);
    assert_eq!(x.bytes_read(), 4);
    assert_eq!(x.read(3, true), Some(Chunk::new(4, piece(4, 7))));
    x.set_bytes_read(20);
    assert_eq!(x.read(3, true), None);
    assert_eq!(x.len(), 0);
    feed(&mut x, 15, 22);
    assert_eq!(x.read(usize::MAX, true), Some(Chunk::new(20, piece(20, 22))));
    assert_eq!(x.bytes_read(), 22);
}

#[test]
fn default_is_a_new_assembler() {
    let mut x = Assembler::default();
    assert_eq!(x.bytes_read(), 0);
    assert_eq!(x.len(), 0);
    assert!(x.ensure_ordering(true).is_ok());
    assert_eq!(x.read(usize::MAX, true), None);
}

#[test]
fn try_insert_takes_what_insert_takes() {
    let mut x = Assembler::new();
    assert!(x.try_insert(3, piece(3, 9), 6));
    assert!(x.try_insert(0, piece(0, 5), 8));
    assert_eq!((x.len(), x.buffered(), x.allocated()), (2, 11, 14));
    assert_eq!(drain(&mut x, 4), &STREAM[0..9]);
    x.ensure_ordering(false).unwrap();
    assert!(x.try_insert(12, piece(12, 14), 2));
    assert!(x.try_insert(10, piece(10, 16), 6));
    assert_eq!((x.len(), x.buffered(), x.allocated()), (3, 6, 14));
    assert_eq!(x.read(usize::MAX, false), Some(Chunk::new(10, piece(10, 12))));
}

#[test]
fn try_insert_refuses_bytes_that_do_not_fit_their_allocation() {
    let mut x = Assembler::new();
    assert!(!x.try_insert(0, piece(0, 5), 4));
    assert_eq!((x.len(), x.buffered(), x.allocated()), (0, 0, 0));
    assert_eq!(x.read(usize::MAX, true), None);
}

#[test]
fn try_insert_refuses_an_end_past_the_last_offset() {
    let mut x = Assembler::new();
    assert!(!x.try_insert(u64::MAX - 2, piece(0, 3), 3));
    assert_eq!(x.len(), 0);
    assert!(x.try_insert(u64::MAX - 3, piece(0, 3), 3));
    assert_eq!(x.len(), 1);
    assert_eq!(
        x.read(usize::MAX, false),
        Some(Chunk::new(u64::MAX - 3, piece(0, 3)))
    );
}

#[test]
fn try_insert_refuses_what_the_counters_cannot_take() {
    let mut x = Assembler::new();
    assert!(x.try_insert(0, piece(0, 2), usize::MAX - 1));
    assert_eq!((x.len(), x.buffered(), x.allocated()), (1, 2, 2));
    let mut x = Assembler::new();
    assert!(x.try_insert(0, piece(0, 1), 4000));
    assert!(!x.try_insert(1, piece(1, 2), usize::MAX - 3999));
    assert!(x.try_insert(1, piece(1, 2), usize::MAX - 4000));
    assert_eq!((x.len(), x.buffered(), x.allocated()), (1, 2, 2));
    x.ensure_ordering(false).unwrap();
    assert!(!x.try_insert(2, piece(2, 5), usize::MAX / 2));
    assert!(x.try_insert(2, piece(2, 3), usize::MAX / 2));
    assert_eq!(drain(&mut x, usize::MAX), &STREAM[0..3]);
}
