//! The assembler: fragments in, chunks of the stream out.

use crate::defragment::{
    compacted, lemma_defragmented, lemma_flushed, lemma_step, Window,
};
use crate::fragment::{
    agree, all_tight, all_well_formed, covered, in_read_order, lemma_drop_last_covered, lemma_insert_covered,
    lemma_insert_totals, lemma_placed_all, lemma_placed_all_first, lemma_rank_bounds,
    lemma_total_len_take, lemma_totals_bounds, placed, placed_all, rank, total_allocation,
    total_len, Buffer, Fragment,
};
use crate::model::{
    bytes_of, lemma_drop_last, lemma_inserted, lemma_read_in_order, lemma_room_suffices,
    lemma_taken, lemma_unknown_parts, lemma_unknown_run, lemma_unknown_skip, over_allocated,
    read_in_order, unknown_count, unknown_parts, Assembly, DEFRAGMENT_FLOOR,
};
use crate::payload;
use crate::payload::{contents, written};
use crate::range_set::{interval, separated, union_of, within, RangeSet};
use crate::store::Store;
use bytes::Bytes;
use bytes::BytesMut;
use vstd::prelude::*;

verus! {

/// A chunk of the stream, handed to the reader.
#[derive(Debug, PartialEq)]
pub struct Chunk {
    /// The offset in the stream.
    pub offset: u64,
    /// The contents of the chunk.
    pub bytes: Bytes,
}

impl View for Chunk {
    type V = (int, Seq<u8>);

    open spec fn view(&self) -> (int, Seq<u8>) {
        (self.offset as int, contents(self.bytes))
    }
}

impl Chunk {
    /// The chunk that holds `bytes` at `offset`.
    pub fn new(offset: u64, bytes: Bytes) -> (chunk: Chunk)
        ensures
            chunk.offset == offset,
            chunk.bytes == bytes,
    {
        Chunk { offset, bytes }
    }
}

/// The fragment that arrives with a call of [`Assembler::insert`]: `bytes`
/// at `offset`, sliced from an allocation of `allocation_size` bytes.
pub open spec fn arriving(offset: u64, bytes: Bytes, allocation_size: usize) -> Fragment {
    Fragment {
        offset: offset as int,
        data: contents(bytes),
        allocation_size: allocation_size as int,
    }
}

/// Defragmentation under way, with the store, the window's offset and the
/// scratch buffer as they are at run time.
spec fn window_of(out: Seq<Fragment>, offset: u64, scratch: BytesMut) -> Window {
    Window { out, offset: offset as int, scratch: written(scratch) }
}

/// What a read handed out: the chunk's offset and bytes.
pub open spec fn handed_out(chunk: Option<Chunk>) -> Option<(int, Seq<u8>)> {
    match chunk {
        Some(chunk) => Some(chunk@),
        None => None,
    }
}

/// An ordered read was asked of a stream that has been read unordered.
#[derive(Debug)]
pub struct IllegalOrderedRead;

/// How the stream is read. Once unordered, always unordered.
#[derive(Debug)]
pub enum State {
    /// Chunks are handed out in stream order.
    Ordered,
    /// Chunks are handed out as they come.
    Unordered {
        /// The offsets that were received, read or not.
        recvd: RangeSet,
    },
}

impl State {
    /// The received offsets, in unordered mode.
    pub open spec fn seen(self) -> Option<Set<int>> {
        match self {
            State::Ordered => None,
            State::Unordered { recvd } => Some(recvd@),
        }
    }

    /// Whether the stream is still read in order.
    pub fn is_ordered(&self) -> (r: bool)
        ensures
            r == (self is Ordered),
    {
        matches!(self, State::Ordered)
    }
}

impl Default for State {
    fn default() -> (s: State)
        ensures
            s is Ordered,
    {
        State::Ordered
    }
}

/// Assembles the fragments of a stream, which arrive in any order, for
/// reading in stream order or as they come.
#[derive(Debug)]
pub struct Assembler {
    state: State,
    data: Store,
    buffered: usize,
    allocated: usize,
    /// Number of bytes handed out by ordered reads: while only ordered reads
    /// are used, the length of the prefix of the stream that was read.
    bytes_read: u64,
}

impl View for Assembler {
    type V = Assembly;

    closed spec fn view(&self) -> Assembly {
        Assembly {
            seen: self.state.seen(),
            store: self.data@,
            bytes_read: self.bytes_read as int,
        }
    }
}

impl Default for Assembler {
    fn default() -> (a: Assembler)
        ensures
            a.well_formed(),
            a@ == Assembly::empty(),
    {
        Assembler::new()
    }
}

impl Assembler {
    /// The assembler's invariant: the store is well formed, the counters
    /// are its totals, and in unordered mode every buffered offset was
    /// received.
    pub closed spec fn well_formed(&self) -> bool {
        &&& self.data.well_formed()
        &&& self.buffered == total_len(self.data@)
        &&& self.allocated == total_allocation(self.data@)
        &&& self.buffered <= isize::MAX
        &&& self.state matches State::Unordered { recvd } ==> recvd.well_formed() && covered(
            self.data@,
        ).subset_of(recvd@)
    }

    /// A well-formed assembler holds a well-formed assembly.
    pub proof fn lemma_well_formed(&self)
        requires
            self.well_formed(),
        ensures
            self@.well_formed(),
    {
        self.data.lemma_well_formed();
    }

    /// An assembler for a new stream: ordered mode, nothing buffered,
    /// nothing read.
    pub fn new() -> (a: Assembler)
        ensures
            a.well_formed(),
            a@ == Assembly::empty(),
    {
        Assembler {
            state: State::Ordered,
            data: Store::new(),
            buffered: 0,
            allocated: 0,
            bytes_read: 0,
        }
    }

    /// Number of bytes handed out by ordered reads.
    pub fn bytes_read(&self) -> (r: u64)
        ensures
            r == self@.bytes_read,
    {
        self.bytes_read
    }

    /// Sets the number of bytes handed out by ordered reads, for an owner
    /// that knows how much of the stream was consumed.
    pub fn set_bytes_read(&mut self, new: u64)
        requires
            old(self).well_formed(),
        ensures
            final(self).well_formed(),
            final(self)@ == old(self)@.with_bytes_read(new as int),
    {
        self.bytes_read = new;
    }

    /// Bytes carried by the buffered fragments.
    pub fn buffered(&self) -> (r: usize)
        requires
            self.well_formed(),
        ensures
            r == total_len(self@.store),
    {
        self.buffered
    }

    /// Sum of the allocation sizes behind the buffered fragments.
    pub fn allocated(&self) -> (r: usize)
        requires
            self.well_formed(),
        ensures
            r == total_allocation(self@.store),
    {
        self.allocated
    }

    /// Number of buffered fragments.
    pub fn len(&self) -> (r: usize)
        ensures
            r == self@.store.len(),
    {
        self.data.len()
    }

    /// The buffered fragment that is read next, if there is one.
    pub fn peek(&self) -> (top: Option<&Buffer>)
        requires
            self.well_formed(),
        ensures
            top is None <==> self@.store.len() == 0,
            top matches Some(b) ==> b.well_formed() && b@ == self@.store.last(),
    {
        self.data.peek()
    }

    /// Discards all buffered data. The mode and `bytes_read` stay.
    pub fn clear(&mut self)
        requires
            old(self).well_formed(),
        ensures
            final(self).well_formed(),
            final(self)@ == old(self)@.cleared(),
    {
        self.data.clear();
        self.buffered = 0;
        self.allocated = 0;
        proof {
            assert(covered(self.data@) =~= Set::<int>::empty());
        }
    }

    /// Asks for a mode of reading. Ordered reading is refused once the
    /// stream is unordered, and nothing changes then; unordered reading
    /// switches an ordered stream over for good.
    pub fn ensure_ordering(&mut self, ordered: bool) -> (r: Result<(), IllegalOrderedRead>)
        requires
            old(self).well_formed(),
        ensures
            final(self).well_formed(),
            r is Err <==> ordered && old(self)@.seen is Some,
            final(self)@ == if ordered {
                old(self)@
            } else {
                old(self)@.unordered()
            },
    {
        let is_ordered = self.state.is_ordered();
        if ordered && !is_ordered {
            return Err(IllegalOrderedRead);
        } else if !ordered && is_ordered {
            let ghost store = self.data@;
            let mut recvd = RangeSet::new();
            recvd.insert(0, self.bytes_read);
            let n = self.data.len();
            let mut i: usize = 0;
            proof {
                assert(covered(store.take(0)) =~= Set::<int>::empty());
                assert(recvd@ =~= interval(0, self.bytes_read as int).union(covered(store.take(0))));
                self.data.lemma_well_formed();
            }
            while i < n
                invariant
                    self.data.well_formed(),
                    all_well_formed(store),
                    self.data@ == store,
                    n == store.len(),
                    0 <= i <= n,
                    recvd.well_formed(),
                    recvd@ == interval(0, self.bytes_read as int).union(
                        covered(store.take(i as int)),
                    ),
                decreases n - i,
            {
                let b = self.data.get(i);
                let start = b.offset();
                assert(store[i as int].well_formed());
                let end = start + b.size() as u64;
                recvd.insert(start, end);
                proof {
                    let next = store.take(i + 1);
                    assert(next.drop_last() =~= store.take(i as int));
                    lemma_drop_last_covered(next);
                    assert(next.last().span() =~= interval(start as int, end as int));
                    assert(recvd@ =~= interval(0, self.bytes_read as int).union(covered(next)));
                }
                i += 1;
            }
            assert(store.take(n as int) =~= store);
            self.state = State::Unordered { recvd };
        }
        Ok(())
    }

    /// Hands out the next chunk, of at most `max_length` bytes.
    ///
    /// An ordered read hands out the bytes that follow those read before, or
    /// nothing while they are missing; it drops what it finds buffered of
    /// the part already read. An unordered read hands out the buffered
    /// fragment with the lowest offset. Either way a fragment longer than
    /// `max_length` stays buffered with what was not handed out.
    pub fn read(&mut self, max_length: usize, ordered: bool) -> (chunk: Option<Chunk>)
        requires
            old(self).well_formed(),
        ensures
            final(self).well_formed(),
            final(self)@ == old(self)@.read(max_length as int, ordered).0,
            handed_out(chunk) == old(self)@.read(max_length as int, ordered).1,
            chunk is Some <==> if ordered {
                covered(old(self)@.store).contains(old(self)@.bytes_read)
            } else {
                old(self)@.store.len() > 0
            },
            chunk matches Some(c) ==> contents(c.bytes).len() <= max_length && (ordered ==> c.offset
                == old(self)@.bytes_read),
            final(self)@.bytes_read == if ordered {
                old(self)@.bytes_read + bytes_of(handed_out(chunk)).len()
            } else {
                old(self)@.bytes_read
            },
    {
        proof {
            self.data.lemma_well_formed();
            lemma_read_in_order(self@.store, self@.bytes_read, max_length as int);
            if self@.store.len() > 0 {
                lemma_drop_last(self@.store);
                lemma_taken(self@.store.drop_last(), self@.store.last(), max_length as int);
            }
        }
        if ordered {
            // What lies before the read position is of no use any more.
            loop
                invariant
                    ordered,
                    self.well_formed(),
                    old(self)@.read(max_length as int, true).1 is Some <==> covered(
                        old(self)@.store,
                    ).contains(old(self)@.bytes_read),
                    self@.seen == old(self)@.seen,
                    self@.bytes_read == old(self)@.bytes_read,
                    read_in_order(self@.store, self@.bytes_read, max_length as int)
                        == read_in_order(
                        old(self)@.store,
                        old(self)@.bytes_read,
                        max_length as int,
                    ),
                ensures
                    self@.store.len() > 0,
                    self@.store.last().offset <= self@.bytes_read < self@.store.last().end(),
                decreases self@.store.len(),
            {
                let (offset, size) = match self.data.peek() {
                    None => {
                        return None;
                    },
                    Some(top) => {
                        proof {
                            top.lemma_well_formed();
                        }
                        (top.offset(), top.size())
                    },
                };
                if offset > self.bytes_read {
                    return None;
                } else if offset + size as u64 > self.bytes_read {
                    break ;
                }
                self.take_top();
            }
        } else if self.data.len() == 0 {
            return None;
        }
        let mut top = self.take_top();
        let ghost found = top@;
        proof {
            top.lemma_well_formed();
        }
        if ordered && top.offset() < self.bytes_read {
            top.advance_to(self.bytes_read);
        }
        let ghost whole = top@;
        proof {
            top.lemma_well_formed();
            if ordered {
                assert(found.data.skip(0) =~= found.data);
                assert(whole == found.from(self@.bytes_read));
            }
        }
        let offset = top.offset();
        if max_length < top.size() {
            let head = top.split_front(max_length);
            if ordered {
                self.bytes_read = self.bytes_read + max_length as u64;
            }
            proof {
                top.lemma_well_formed();
                assert(top@.span().subset_of(whole.span()));
            }
            self.put_back(top);
            Some(Chunk::new(offset, head))
        } else {
            if ordered {
                self.bytes_read = self.bytes_read + top.size() as u64;
            }
            let (offset, bytes, _) = top.into_parts();
            Some(Chunk::new(offset, bytes))
        }
    }

    /// Takes the next fragment out of the store and off the counters.
    fn take_top(&mut self) -> (top: Buffer)
        requires
            old(self).well_formed(),
            old(self)@.store.len() > 0,
        ensures
            final(self).well_formed(),
            top.well_formed(),
            top@ == old(self)@.store.last(),
            final(self)@ == (Assembly {
                seen: old(self)@.seen,
                store: old(self)@.store.drop_last(),
                bytes_read: old(self)@.bytes_read,
            }),
            covered(final(self)@.store).union(top@.span()) == covered(old(self)@.store),
    {
        proof {
            self.data.lemma_well_formed();
            lemma_totals_bounds(self.data@.drop_last());
            lemma_drop_last_covered(self.data@);
        }
        let top = self.data.pop().unwrap();
        proof {
            top.lemma_well_formed();
        }
        self.buffered = self.buffered - top.size();
        self.allocated = self.allocated - top.allocation_size();
        top
    }

    /// Puts a fragment into the store and onto the counters.
    fn put_back(&mut self, b: Buffer)
        requires
            old(self).well_formed(),
            b.well_formed(),
            total_len(old(self)@.store) + b@.len() <= isize::MAX,
            total_allocation(old(self)@.store) + b@.allocation_size <= usize::MAX,
            old(self)@.seen matches Some(seen) ==> b@.span().subset_of(seen),
        ensures
            final(self).well_formed(),
            final(self)@ == (Assembly {
                seen: old(self)@.seen,
                store: placed(old(self)@.store, b@),
                bytes_read: old(self)@.bytes_read,
            }),
    {
        proof {
            b.lemma_well_formed();
            lemma_rank_bounds(self.data@, b@);
            lemma_insert_totals(self.data@, rank(self.data@, b@), b@);
            lemma_insert_covered(self.data@, rank(self.data@, b@), b@);
        }
        self.buffered = self.buffered + b.size();
        self.allocated = self.allocated + b.allocation_size();
        self.data.push(b);
    }

    /// Takes in a fragment: `bytes` at `offset`, sliced from an allocation of
    /// `allocation_size` bytes.
    ///
    /// Bytes at offsets that are known (received before, in unordered mode;
    /// read before, in ordered mode) are dropped, and what is left is
    /// buffered as one fragment for each run of new offsets. When the store
    /// keeps too much memory alive after that, it is defragmented.
    pub fn insert(&mut self, offset: u64, bytes: Bytes, allocation_size: usize)
        requires
            old(self).well_formed(),
            arriving(offset, bytes, allocation_size).is_valid_input(),
            old(self)@.fits(arriving(offset, bytes, allocation_size)),
        ensures
            final(self).well_formed(),
            final(self)@ == old(self)@.inserted(arriving(offset, bytes, allocation_size)),
            final(self)@.bytes_read == old(self)@.bytes_read,
            final(self)@.seen is Some <==> old(self)@.seen is Some,
            covered(final(self)@.store) == covered(old(self)@.store).union(
                interval(offset as int, offset + contents(bytes).len()).difference(
                    old(self)@.known(),
                ),
            ),
            !over_allocated(final(self)@.store),
            over_allocated(old(self)@.stored(arriving(offset, bytes, allocation_size)))
                ==> total_allocation(final(self)@.store) == total_len(final(self)@.store),
            total_len(final(self)@.store) <= total_len(old(self)@.store) + unknown_count(
                old(self)@.known(),
                offset as int,
                offset + contents(bytes).len(),
            ),
            !over_allocated(old(self)@.stored(arriving(offset, bytes, allocation_size)))
                ==> total_len(final(self)@.store) == total_len(old(self)@.store) + unknown_count(
                old(self)@.known(),
                offset as int,
                offset + contents(bytes).len(),
            ),
            interval(offset as int, offset + contents(bytes).len()).subset_of(old(self)@.known())
                && !over_allocated(old(self)@.store) ==> final(self)@.store == old(self)@.store,
            forall|stream: Seq<u8>|
                agree(old(self)@.store, stream) && arriving(
                    offset,
                    bytes,
                    allocation_size,
                ).agrees_with(stream) ==> #[trigger] agree(final(self)@.store, stream),
    {
        let ghost whole = arriving(offset, bytes, allocation_size);
        let ghost known = self@.known();
        let ghost target = self@.stored(whole);
        proof {
            self.lemma_well_formed();
            lemma_inserted(self@, whole);
        }
        let mut offset = offset;
        let mut bytes = bytes;
        let end = offset + payload::len(&bytes) as u64;
        let duplicates = match &mut self.state {
            State::Unordered { recvd } => Some(recvd.replace(offset, end)),
            State::Ordered => None,
        };
        proof {
            assert(contents(bytes) =~= whole.data.skip(0));
            assert forall|at: int| covered(self@.store).contains(at) implies self@.known().contains(at)
                || self@.seen is None by {}
        }
        match duplicates {
            Some(duplicates) => {
                // Old data wins: what was received before is cut out.
                let mut i: usize = 0;
                proof {
                    let d = duplicates@;
                    assert forall|m: int| 0 <= m < d.len() implies offset <= (#[trigger] d[m]).0 by {
                        assert(within(d[m], d[m].0 as int));
                        assert(union_of(d).contains(d[m].0 as int));
                    }
                }
                while i < duplicates.len()
                    invariant
                        self.well_formed(),
                        self@.seen == Some(known.union(interval(whole.offset, whole.end()))),
                        self@.bytes_read == old(self)@.bytes_read,
                        whole.well_formed() || whole.data.len() == 0,
                        0 <= whole.offset,
                        whole.data.len() <= whole.allocation_size == allocation_size,
                        whole.end() == end,
                        whole.offset <= offset <= end,
                        contents(bytes) == whole.data.skip(offset - whole.offset),
                        placed_all(self@.store, unknown_parts(known, whole, offset as int))
                            == target,
                        total_len(target) <= isize::MAX,
                        total_allocation(target) <= usize::MAX,
                        separated(duplicates@),
                        union_of(duplicates@) == known.intersect(
                            interval(whole.offset, whole.end()),
                        ),
                        0 <= i <= duplicates.len(),
                        offset == if i == 0 {
                            whole.offset
                        } else {
                            duplicates@[i - 1].1 as int
                        },
                        forall|m: int| 0 <= m < i ==> (#[trigger] duplicates@[m]).1 <= offset,
                        forall|m: int|
                            i <= m < duplicates.len() ==> offset <= (#[trigger] duplicates@[m]).0,
                    decreases duplicates.len() - i,
                {
                    let (start, stop) = duplicates[i];
                    proof {
                        let d = duplicates@;
                        assert(d[i as int] == (start, stop));
                        assert(start < stop);
                        assert(within(d[i as int], stop - 1));
                        assert(union_of(d).contains(stop - 1));
                        assert forall|at: int| offset <= at < start implies !known.contains(at) by {
                            if known.contains(at) {
                                assert(within(d[i as int], start as int));
                                assert(union_of(d).contains(start as int));
                                assert(union_of(d).contains(at));
                                let m = choose|m: int| 0 <= m < d.len() && within(#[trigger] d[m], at);
                                if m > i {
                                    assert(d[i as int].1 < d[m].0);
                                }
                            }
                        }
                        assert forall|at: int| start <= at < stop implies known.contains(at) by {
                            assert(within(d[i as int], at));
                            assert(union_of(d).contains(at));
                        }
                        lemma_unknown_skip(known, whole, start as int, stop as int);
                    }
                    if start > offset {
                        let head = payload::split_to(&mut bytes, (start - offset) as usize);
                        proof {
                            let part = whole.part(offset as int, start as int);
                            let rest = unknown_parts(known, whole, start as int);
                            lemma_unknown_run(known, whole, offset as int, start as int);
                            assert(contents(head) =~= part.data);
                            assert(contents(bytes) =~= whole.data.skip(start - whole.offset));
                            lemma_placed_all_first(self@.store, part, rest);
                            lemma_unknown_parts(known, whole, start as int);
                            lemma_totals_bounds(rest);
                            lemma_placed_all(placed(self@.store, part), rest);
                            self.lemma_well_formed();
                            lemma_rank_bounds(self@.store, part);
                            lemma_insert_totals(self@.store, rank(self@.store, part), part);
                        }
                        self.put_back(Buffer::new(offset, head, allocation_size));
                    }
                    payload::advance(&mut bytes, (stop - start) as usize);
                    proof {
                        assert(contents(bytes) =~= whole.data.skip(stop - whole.offset));
                        assert forall|m: int| i + 1 <= m < duplicates.len() implies stop <= (
                        #[trigger] duplicates@[m]).0 by {
                            assert(duplicates@[i as int].1 < duplicates@[m].0);
                        }
                    }
                    offset = stop;
                    i += 1;
                }
                proof {
                    let d = duplicates@;
                    assert forall|at: int| offset <= at < end implies !known.contains(at) by {
                        if known.contains(at) {
                            assert(union_of(d).contains(at));
                            let m = choose|m: int| 0 <= m < d.len() && within(#[trigger] d[m], at);
                            assert(d[m].1 <= offset);
                        }
                    }
                }
            },
            None => {
                if offset < self.bytes_read {
                    // What was read is of no use any more.
                    let from = if end < self.bytes_read {
                        end
                    } else {
                        self.bytes_read
                    };
                    proof {
                        lemma_unknown_skip(known, whole, offset as int, from as int);
                    }
                    payload::advance(&mut bytes, (from - offset) as usize);
                    offset = from;
                }
            },
        }
        assert(placed_all(self@.store, unknown_parts(known, whole, offset as int)) == target);
        if payload::len(&bytes) > 0 {
            proof {
                let part = whole.part(offset as int, end as int);
                let rest = unknown_parts(known, whole, end as int);
                lemma_unknown_run(known, whole, offset as int, end as int);
                assert(contents(bytes) =~= part.data);
                lemma_placed_all_first(self@.store, part, rest);
                assert(target == placed(self@.store, part));
                self.lemma_well_formed();
                lemma_rank_bounds(self@.store, part);
                lemma_insert_totals(self@.store, rank(self@.store, part), part);
            }
            self.put_back(Buffer::new(offset, bytes, allocation_size));
        }
        // A peer that sends tiny fragments of large allocations must not
        // make the store keep them all alive: over-allocation is held in
        // proportion to what is buffered.
        proof {
            self.lemma_well_formed();
            lemma_totals_bounds(self@.store);
        }
        let over = self.allocated - self.buffered;
        if over > DEFRAGMENT_FLOOR && (over as u128) * 2 > (self.buffered as u128) * 3 {
            self.defragment();
        }
    }

    /// Takes in a fragment if it is valid input and the counters have room
    /// for all of it, and says whether it did. A fragment that is refused
    /// changes nothing.
    pub fn try_insert(&mut self, offset: u64, bytes: Bytes, allocation_size: usize) -> (taken: bool)
        requires
            old(self).well_formed(),
        ensures
            final(self).well_formed(),
            taken <==> arriving(offset, bytes, allocation_size).is_valid_input()
                && old(self)@.has_room(arriving(offset, bytes, allocation_size)),
            final(self)@ == if taken {
                old(self)@.inserted(arriving(offset, bytes, allocation_size))
            } else {
                old(self)@
            },
    {
        let ghost whole = arriving(offset, bytes, allocation_size);
        let len = payload::len(&bytes);
        proof {
            self.lemma_well_formed();
            lemma_totals_bounds(self@.store);
        }
        if len > allocation_size || len as u64 > u64::MAX - offset || len > isize::MAX as usize
            - self.buffered {
            return false;
        }
        let parts = if self.state.is_ordered() {
            1
        } else {
            len
        };
        let room = usize::MAX - self.allocated;
        match parts.checked_mul(allocation_size) {
            None => false,
            Some(most) => {
                if most > room {
                    return false;
                }
                proof {
                    lemma_room_suffices(self@, whole);
                }
                self.insert(offset, bytes, allocation_size);
                true
            },
        }
    }

    /// Copies the buffered fragments that keep more memory alive than they
    /// use into allocations of their own size, merging those that overlap
    /// or abut, and leaves the tight ones as they are.
    pub fn defragment(&mut self)
        requires
            old(self).well_formed(),
            old(self)@.store.len() > 0,
        ensures
            final(self).well_formed(),
            final(self)@ == old(self)@.defragmented(),
            covered(final(self)@.store) == covered(old(self)@.store),
            all_tight(final(self)@.store),
            total_allocation(final(self)@.store) == total_len(final(self)@.store),
            total_len(final(self)@.store) <= total_len(old(self)@.store),
            forall|stream: Seq<u8>|
                agree(old(self)@.store, stream) ==> #[trigger] agree(final(self)@.store, stream),
    {
        let ghost orig = self.data@;
        proof {
            self.data.lemma_well_formed();
            lemma_defragmented(orig);
        }
        let n = self.data.len();
        let mut wasteful: usize = 0;
        let mut i: usize = 0;
        while i < n
            invariant
                self.data.well_formed(),
                self.data@ == orig,
                all_well_formed(orig),
                n == orig.len(),
                0 <= i <= n,
                wasteful <= total_len(orig.take(i as int)) <= total_len(orig) <= isize::MAX,
            decreases n - i,
        {
            let b = self.data.get(i);
            proof {
                assert(orig.take(i + 1).drop_last() =~= orig.take(i as int));
                assert(orig[i as int].well_formed());
                lemma_total_len_take(orig, i + 1);
            }
            if b.size() < b.allocation_size() {
                wasteful = wasteful + b.size();
            }
            i += 1;
        }
        let mut taken = Store::new();
        core::mem::swap(&mut self.data, &mut taken);
        let mut scratch = payload::with_capacity(wasteful);
        let mut window: u64 = 0;
        let mut buffered: usize = 0;
        while taken.len() > 0
            invariant
                taken.well_formed(),
                self.data.well_formed(),
                all_well_formed(taken@),
                in_read_order(taken@),
                window_of(self.data@, window, scratch).well_formed(),
                compacted(taken@, window_of(self.data@, window, scratch)) == compacted(
                    orig,
                    Window::start(),
                ),
                written(scratch).len() > 0 ==> forall|k: int|
                    0 <= k < taken@.len() ==> window <= (#[trigger] taken@[k]).offset,
                total_len(self.data@) + written(scratch).len() + total_len(taken@) <= total_len(
                    orig,
                ) <= isize::MAX,
                buffered == total_len(self.data@),
                self.state == old(self).state,
                self.bytes_read == old(self).bytes_read,
            decreases taken@.len(),
        {
            let ghost w = window_of(self.data@, window, scratch);
            let ghost all = taken@;
            let ghost rest = taken@.drop_last();
            let chunk = taken.pop().unwrap();
            proof {
                chunk.lemma_well_formed();
                taken.lemma_well_formed();
                lemma_totals_bounds(rest);
                lemma_totals_bounds(self.data@);
                lemma_step(w, chunk@);
                assert forall|k: int| 0 <= k < rest.len() implies chunk@.offset <= (
                #[trigger] rest[k]).offset by {
                    assert(!all[k].reads_before(all[all.len() - 1]));
                }
            }
            if chunk.size() < chunk.allocation_size() {
                let have = payload::written_len(&scratch);
                if have > 0 && chunk.offset() <= window + have as u64 {
                    let overlap = (window + have as u64 - chunk.offset()) as usize;
                    if overlap < chunk.size() {
                        let carried = payload::as_slice(chunk.bytes());
                        let fresh = vstd::slice::slice_subrange(carried, overlap, chunk.size());
                        payload::extend_from_slice(&mut scratch, fresh);
                        assert(written(scratch) =~= w.step(chunk@).scratch);
                    } else {
                        assert(written(scratch) =~= w.step(chunk@).scratch);
                    }
                } else {
                    flush(&mut self.data, window, &mut scratch, &mut buffered);
                    window = chunk.offset();
                    payload::extend_from_slice(&mut scratch, payload::as_slice(chunk.bytes()));
                    assert(written(scratch) =~= w.step(chunk@).scratch);
                }
            } else {
                flush(&mut self.data, window, &mut scratch, &mut buffered);
                proof {
                    lemma_rank_bounds(self.data@, chunk@);
                    lemma_insert_totals(self.data@, rank(self.data@, chunk@), chunk@);
                }
                buffered = buffered + chunk.size();
                self.data.push(chunk);
            }
        }
        proof {
            lemma_flushed(window_of(self.data@, window, scratch));
            lemma_totals_bounds(self.data@);
        }
        flush(&mut self.data, window, &mut scratch, &mut buffered);
        self.buffered = buffered;
        self.allocated = buffered;
        proof {
            self.data.lemma_well_formed();
            lemma_totals_bounds(self.data@);
        }
    }
}

/// Puts what was copied into the window, if anything, into the store as one
/// tight fragment at `window`, and empties the window.
fn flush(store: &mut Store, window: u64, scratch: &mut BytesMut, buffered: &mut usize)
    requires
        old(store).well_formed(),
        window_of(old(store)@, window, *old(scratch)).well_formed(),
        *old(buffered) == total_len(old(store)@),
        total_len(old(store)@) + written(*old(scratch)).len() <= usize::MAX,
    ensures
        final(store).well_formed(),
        final(store)@ == window_of(old(store)@, window, *old(scratch)).flushed(),
        written(*final(scratch)) == Seq::<u8>::empty(),
        *final(buffered) == total_len(final(store)@),
{
    if payload::written_len(scratch) > 0 {
        let bytes = payload::freeze(payload::split(scratch));
        let size = payload::len(&bytes);
        proof {
            let w = window_of(store@, window, *old(scratch));
            lemma_flushed(w);
            lemma_totals_bounds(w.flushed());
            lemma_rank_bounds(store@, w.pending());
            lemma_insert_totals(store@, rank(store@, w.pending()), w.pending());
        }
        *buffered = *buffered + size;
        store.push(Buffer::new(window, bytes, size));
    }
}

} // verus!
