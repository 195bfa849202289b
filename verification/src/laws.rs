//! What holds of an assembler whatever arrives and however it is read.
//!
//! The laws are stated over [`Assembly`], the model that the contracts of
//! [`Assembler`](crate::assembler::Assembler) are stated over, so each holds
//! of every run of the executable code.

use crate::defragment::{
    lemma_defragmented, lemma_defragmented_apart, lemma_defragmented_keeps_apart,
};
use crate::fragment::{
    agree, all_tight, apart, covered, lemma_placed_all, lemma_placed_all_keeps_apart,
    lemma_totals_bounds, total_allocation, total_len, Fragment,
};
use crate::model::{
    bytes_of, lemma_drop_last, lemma_inserted, lemma_read_in_order,
    lemma_read_in_order_keeps_apart, lemma_taken, lemma_taken_keeps_apart,
    lemma_unknown_parts, lemma_unknown_parts_apart, lemma_unknown_skip, over_allocated,
    span_of, unknown_count, Assembly,
};
use crate::range_set::interval;
use vstd::prelude::*;

verus! {

/// A step in the life of a stream that is read in order.
pub enum Op {
    /// A fragment arrives.
    Insert(Fragment),
    /// An ordered read of at most so many bytes.
    Read(int),
}

/// The assembler after one step, and the bytes that the step handed out.
pub open spec fn step(a: Assembly, op: Op) -> (Assembly, Seq<u8>) {
    match op {
        Op::Insert(whole) => (a.inserted(whole), Seq::empty()),
        Op::Read(max) => (a.read(max, true).0, bytes_of(a.read(max, true).1)),
    }
}

/// The assembler after the steps of `ops`, and the bytes that they handed
/// out, in the order of the reads.
pub open spec fn run(a: Assembly, ops: Seq<Op>) -> (Assembly, Seq<u8>)
    decreases ops.len(),
{
    if ops.len() == 0 {
        (a, Seq::empty())
    } else {
        let first = step(a, ops.first());
        let rest = run(first.0, ops.drop_first());
        (rest.0, first.1 + rest.1)
    }
}

/// Whether a step is one that an assembler for `stream` can be asked for:
/// an arriving fragment is valid input, fits the counters and carries bytes
/// of the stream; a read asks for a length.
pub open spec fn allowed(a: Assembly, op: Op, stream: Seq<u8>) -> bool {
    match op {
        Op::Insert(whole) => whole.is_valid_input() && a.fits(whole) && whole.agrees_with(stream),
        Op::Read(max) => 0 <= max,
    }
}

/// Whether each step of `ops` is allowed when its turn comes.
pub open spec fn all_allowed(a: Assembly, ops: Seq<Op>, stream: Seq<u8>) -> bool
    decreases ops.len(),
{
    ops.len() == 0 || (allowed(a, ops.first(), stream) && all_allowed(
        step(a, ops.first()).0,
        ops.drop_first(),
        stream,
    ))
}

/// Whether every step of `ops` is a read of at least one byte.
pub open spec fn all_reads(ops: Seq<Op>) -> bool {
    forall|i: int| 0 <= i < ops.len() ==> (#[trigger] ops[i] matches Op::Read(max) && max >= 1)
}

/// An ordered read hands out the next bytes of the stream or nothing.
///
/// It hands out a chunk exactly when the read position is covered by a
/// buffered fragment. The chunk starts at the read position, holds the
/// stream's bytes from there, at most `max` of them and at least one unless
/// `max` is zero, and the read position moves to its end. What is buffered
/// at or after the new read position stays buffered, and what stays buffered
/// still agrees with the stream.
pub proof fn law_read_in_order(a: Assembly, max: int, stream: Seq<u8>)
    requires
        a.well_formed(),
        agree(a.store, stream),
        0 <= max,
    ensures
        ({
            let after = a.read(max, true).0;
            let chunk = a.read(max, true).1;
            &&& after.well_formed()
            &&& agree(after.store, stream)
            &&& after.seen == a.seen
            &&& chunk is Some <==> covered(a.store).contains(a.bytes_read)
            &&& chunk matches Some(c) ==> c.0 == a.bytes_read && c.1.len() <= max && (max > 0
                ==> c.1.len() > 0) && c.1 == stream.subrange(
                a.bytes_read,
                a.bytes_read + c.1.len(),
            )
            &&& after.bytes_read == a.bytes_read + bytes_of(chunk).len()
            &&& span_of(chunk).subset_of(covered(a.store))
            &&& forall|at: int|
                after.bytes_read <= at ==> (covered(after.store).contains(at) <==> covered(
                    a.store,
                ).contains(at))
        }),
{
    lemma_read_in_order(a.store, a.bytes_read, max);
    let after = a.read(max, true).0;
    let chunk = a.read(max, true).1;
    let n = bytes_of(chunk).len() as int;
    if n > 0 {
        let at = a.bytes_read + n - 1;
        assert(covered(a.store).contains(at));
        let i = choose|i: int| 0 <= i < a.store.len() && (#[trigger] a.store[i]).covers(at);
        assert(a.store[i].well_formed());
    }
    assert(after.bytes_read <= u64::MAX);
    assert(after.well_formed());
    assert(span_of(chunk).subset_of(covered(a.store)));
    assert(agree(after.store, stream));
}

/// Whatever fragments of a stream arrive, in whatever order and however
/// they overlap, the ordered reads hand out, one after another, exactly the
/// bytes of the stream from where reading stood to where it stands, with
/// no byte left out and none handed out twice.
pub proof fn law_reads_follow_stream(a: Assembly, stream: Seq<u8>, ops: Seq<Op>)
    requires
        a.well_formed(),
        agree(a.store, stream),
        a.bytes_read <= stream.len(),
        all_allowed(a, ops, stream),
    ensures
        run(a, ops).0.well_formed(),
        agree(run(a, ops).0.store, stream),
        a.bytes_read <= run(a, ops).0.bytes_read <= stream.len(),
        run(a, ops).1 == stream.subrange(a.bytes_read, run(a, ops).0.bytes_read),
    decreases ops.len(),
{
    if ops.len() == 0 {
        assert(run(a, ops).1 =~= stream.subrange(a.bytes_read, a.bytes_read));
    } else {
        let first = step(a, ops.first());
        match ops.first() {
            Op::Insert(whole) => {
                lemma_inserted(a, whole);
            },
            Op::Read(max) => {
                law_read_in_order(a, max, stream);
                lemma_read_bound(a, max, stream);
            },
        }
        law_reads_follow_stream(first.0, stream, ops.drop_first());
        let last = run(first.0, ops.drop_first());
        assert(first.1 =~= stream.subrange(a.bytes_read, first.0.bytes_read));
        assert(first.1 + last.1 =~= stream.subrange(a.bytes_read, last.0.bytes_read));
    }
}

/// A chunk that holds bytes of a stream ends within the stream.
proof fn lemma_read_bound(a: Assembly, max: int, stream: Seq<u8>)
    requires
        a.well_formed(),
        agree(a.store, stream),
        a.bytes_read <= stream.len(),
        0 <= max,
    ensures
        a.read(max, true).0.bytes_read <= stream.len(),
{
    law_read_in_order(a, max, stream);
    let n = bytes_of(a.read(max, true).1).len() as int;
    if n > 0 {
        let at = a.bytes_read + n - 1;
        assert(span_of(a.read(max, true).1).contains(at));
        let i = choose|i: int| 0 <= i < a.store.len() && (#[trigger] a.store[i]).covers(at);
        assert(a.store[i].agrees_with(stream));
    }
}

/// Reading on until nothing comes hands out the stream up to the first gap.
///
/// Where the buffered fragments cover the stream from the read position up
/// to `end` and not at `end`, reads of at least one byte each, at least as
/// many as there are bytes up to `end`, hand out exactly those bytes and
/// leave the read position at `end`. So what ordered reading can get out of
/// an assembler depends on the stream, the read position and the positions
/// covered, and on nothing else: not on how the bytes are spread over
/// fragments.
pub proof fn law_reading_reaches_the_gap(a: Assembly, stream: Seq<u8>, ops: Seq<Op>, end: int)
    requires
        a.well_formed(),
        agree(a.store, stream),
        a.bytes_read <= end,
        a.bytes_read <= stream.len(),
        forall|at: int| a.bytes_read <= at < end ==> covered(a.store).contains(at),
        !covered(a.store).contains(end),
        all_reads(ops),
        ops.len() >= end - a.bytes_read,
    ensures
        run(a, ops).0.bytes_read == end,
        end <= stream.len(),
        run(a, ops).1 == stream.subrange(a.bytes_read, end),
    decreases ops.len(),
{
    if ops.len() == 0 {
        assert(run(a, ops).1 =~= stream.subrange(a.bytes_read, end));
    } else {
        let max = ops.first()->Read_0;
        assert(ops[0] matches Op::Read(m) && m >= 1);
        let first = step(a, ops.first());
        let rest = ops.drop_first();
        law_read_in_order(a, max, stream);
        lemma_read_bound(a, max, stream);
        assert forall|i: int| 0 <= i < rest.len() implies (#[trigger] rest[i] matches Op::Read(m)
            && m >= 1) by {
            assert(rest[i] == ops[i + 1]);
        }
        let n = first.1.len() as int;
        if n > 0 {
            // The chunk lies within what was covered, so it ends before the gap.
            assert(first.0.bytes_read <= end) by {
                if first.0.bytes_read > end {
                    assert(span_of(a.read(max, true).1).contains(end));
                }
            }
        }
        law_reading_reaches_the_gap(first.0, stream, rest, end);
        let last = run(first.0, rest);
        assert(first.1 =~= stream.subrange(a.bytes_read, first.0.bytes_read));
        assert(first.1 + last.1 =~= stream.subrange(a.bytes_read, end));
    }
}

/// In unordered mode a fragment that arrives a second time changes nothing
/// at all, whatever allocation it is sliced from.
pub proof fn law_duplicate_changes_nothing_unordered(a: Assembly, whole: Fragment, again: Fragment)
    requires
        a.well_formed(),
        a.seen is Some,
        whole.is_valid_input(),
        a.fits(whole),
        again.offset == whole.offset,
        again.data == whole.data,
    ensures
        a.inserted(whole).inserted(again) == a.inserted(whole),
{
    let once = a.inserted(whole);
    let twice = once.inserted(again);
    lemma_inserted(a, whole);
    lemma_unknown_skip(once.known(), again, again.offset, again.end());
    assert(once.seen->Some_0.union(interval(again.offset, again.end())) =~= once.seen->Some_0);
}

/// A fragment of the stream that arrives a second time leaves the read
/// position, the positions covered and the agreement with the stream as
/// they were after the first time, and so, by
/// [`law_reading_reaches_the_gap`], what ordered reading hands out.
pub proof fn law_duplicate_changes_no_output(
    a: Assembly,
    whole: Fragment,
    again: Fragment,
    stream: Seq<u8>,
    ops: Seq<Op>,
    end: int,
)
    requires
        a.well_formed(),
        agree(a.store, stream),
        a.bytes_read <= stream.len(),
        whole.is_valid_input(),
        whole.agrees_with(stream),
        a.fits(whole),
        again.is_valid_input(),
        again.offset == whole.offset,
        again.data == whole.data,
        a.inserted(whole).fits(again),
        a.bytes_read <= end,
        forall|at: int|
            a.bytes_read <= at < end ==> covered(a.inserted(whole).store).contains(at),
        !covered(a.inserted(whole).store).contains(end),
        all_reads(ops),
        ops.len() >= end - a.bytes_read,
    ensures
        a.inserted(whole).inserted(again).bytes_read == a.inserted(whole).bytes_read,
        covered(a.inserted(whole).inserted(again).store) == covered(a.inserted(whole).store),
        agree(a.inserted(whole).store, stream),
        agree(a.inserted(whole).inserted(again).store, stream),
        run(a.inserted(whole).inserted(again), ops).1 == run(a.inserted(whole), ops).1,
{
    let once = a.inserted(whole);
    let twice = once.inserted(again);
    lemma_inserted(a, whole);
    lemma_inserted(once, again);
    assert(covered(twice.store) =~= covered(once.store));
    law_reading_reaches_the_gap(once, stream, ops, end);
    law_reading_reaches_the_gap(twice, stream, ops, end);
}

/// Of a fragment that arrives, only the positions that are not known
/// (received before, in unordered mode; read before, in ordered mode) are
/// stored, each once and with the byte that the fragment has there, and
/// what was known stays known. What is stored weighs as many bytes more as
/// there are such positions, until it is defragmented.
pub proof fn law_only_new_bytes_are_stored(a: Assembly, whole: Fragment)
    requires
        a.well_formed(),
        whole.is_valid_input(),
        a.fits(whole),
    ensures
        covered(a.accepted(whole)).disjoint(a.known()),
        covered(a.accepted(whole)) == interval(whole.offset, whole.end()).difference(a.known()),
        covered(a.inserted(whole).store) == covered(a.store).union(covered(a.accepted(whole))),
        a.known().subset_of(a.inserted(whole).known()),
        a.seen matches Some(seen) ==> a.inserted(whole).seen == Some(
            seen.union(interval(whole.offset, whole.end())),
        ),
        forall|i: int|
            0 <= i < a.accepted(whole).len() ==> {
                let p = #[trigger] a.accepted(whole)[i];
                p == whole.part(p.offset, p.end()) && whole.offset <= p.offset < p.end()
                    <= whole.end()
            },
        forall|i: int, j: int|
            0 <= i < j < a.accepted(whole).len() ==> (#[trigger] a.accepted(whole)[i]).end() < (
            #[trigger] a.accepted(whole)[j]).offset,
        total_len(a.stored(whole)) == total_len(a.store) + unknown_count(
            a.known(),
            whole.offset,
            whole.end(),
        ),
        !over_allocated(a.stored(whole)) ==> a.inserted(whole).store == a.stored(whole),
        total_len(a.inserted(whole).store) <= total_len(a.stored(whole)),
{
    lemma_inserted(a, whole);
    lemma_unknown_parts_apart(a.known(), whole, whole.offset);
}

/// In unordered mode, where the buffered fragments lie apart, the arrival
/// of a fragment makes the store weigh exactly as many bytes more as the
/// fragment has positions that were not seen, whether or not the store is
/// defragmented on the way; and what is stored lies apart again.
pub proof fn law_new_bytes_weigh_what_they_count(a: Assembly, whole: Fragment)
    requires
        a.well_formed(),
        a.seen is Some,
        apart(a.store),
        whole.is_valid_input(),
        a.fits(whole),
    ensures
        apart(a.stored(whole)),
        total_len(a.inserted(whole).store) == total_len(a.store) + unknown_count(
            a.known(),
            whole.offset,
            whole.end(),
        ),
{
    let parts = a.accepted(whole);
    lemma_inserted(a, whole);
    lemma_unknown_parts(a.known(), whole, whole.offset);
    lemma_unknown_parts_apart(a.known(), whole, whole.offset);
    assert forall|at: int| covered(parts).contains(at) implies !covered(a.store).contains(at) by {
        assert(interval(whole.offset, whole.end()).difference(a.known()).contains(at));
    }
    lemma_placed_all_keeps_apart(a.store, parts);
    lemma_placed_all(a.store, parts);
    if over_allocated(a.stored(whole)) {
        lemma_defragmented_apart(a.stored(whole));
    }
}

/// Where no position is buffered twice, none ever is in unordered mode:
/// fragments that lie apart still do after an arrival in unordered mode,
/// after a read of either kind, after defragmentation and after clearing.
/// A stream that is unordered from the start, whose store is empty then,
/// so never holds a byte twice.
pub proof fn law_fragments_stay_apart(a: Assembly, whole: Fragment, max: int, ordered: bool)
    requires
        a.well_formed(),
        apart(a.store),
        0 <= max,
    ensures
        apart(Assembly::empty().unordered().store),
        a.seen is Some && whole.is_valid_input() && a.fits(whole) ==> apart(
            a.inserted(whole).store,
        ),
        apart(a.read(max, ordered).0.store),
        apart(a.defragmented().store),
        apart(a.cleared().store),
{
    if a.seen is Some && whole.is_valid_input() && a.fits(whole) {
        law_new_bytes_weigh_what_they_count(a, whole);
        lemma_placed_all(a.store, a.accepted(whole));
        lemma_unknown_parts(a.known(), whole, whole.offset);
        if over_allocated(a.stored(whole)) {
            lemma_defragmented_keeps_apart(a.stored(whole));
        }
    }
    if ordered {
        lemma_read_in_order_keeps_apart(a.store, a.bytes_read, max);
    } else if a.store.len() > 0 {
        let below = a.store.drop_last();
        lemma_drop_last(a.store);
        assert forall|i: int, j: int| 0 <= i < j < below.len() implies (#[trigger] below[j]).end()
            <= (#[trigger] below[i]).offset by {
            assert(a.store[j].end() <= a.store[i].offset);
        }
        assert forall|i: int| 0 <= i < below.len() implies a.store.last().end() <= (
        #[trigger] below[i]).offset by {
            assert(a.store[a.store.len() - 1].end() <= a.store[i].offset);
        }
        lemma_taken_keeps_apart(below, a.store.last(), max);
    }
    lemma_defragmented_keeps_apart(a.store);
}

/// What a read hands out is known from then on, so that it is not stored
/// when it arrives again. This holds of ordered reads, and of unordered
/// reads once the stream is in unordered mode.
pub proof fn law_what_is_read_is_known(a: Assembly, max: int, ordered: bool)
    requires
        a.well_formed(),
        0 <= max,
        ordered || a.seen is Some,
    ensures
        span_of(a.read(max, ordered).1).subset_of(a.read(max, ordered).0.known()),
        a.known().subset_of(a.read(max, ordered).0.known()),
        a.read(max, ordered).0.seen == a.seen,
{
    if ordered {
        lemma_read_in_order(a.store, a.bytes_read, max);
    } else if a.store.len() > 0 {
        lemma_drop_last(a.store);
        lemma_taken(a.store.drop_last(), a.store.last(), max);
        assert(covered(a.store).contains(a.store.last().offset)) by {
            assert(a.store[a.store.len() - 1].covers(a.store.last().offset));
        }
        assert forall|at: int| span_of(a.read(max, ordered).1).contains(at) implies covered(
            a.store,
        ).contains(at) by {
            assert(a.store[a.store.len() - 1].covers(at));
        }
    }
}

/// An unordered read takes the fragment that is read next, all of it or its
/// first `max` bytes, and leaves the assembler well formed; it hands out
/// nothing only when nothing is buffered.
pub proof fn law_read_unordered(a: Assembly, max: int, stream: Seq<u8>)
    requires
        a.well_formed(),
        agree(a.store, stream),
        0 <= max,
    ensures
        ({
            let after = a.read(max, false).0;
            let chunk = a.read(max, false).1;
            &&& after.well_formed()
            &&& agree(after.store, stream)
            &&& after.bytes_read == a.bytes_read
            &&& chunk is None <==> a.store.len() == 0
            &&& chunk matches Some(c) ==> c.0 == a.store.last().offset && c.1.len() <= max
                && c.1 == stream.subrange(c.0, c.0 + c.1.len())
            &&& covered(a.store) == covered(after.store).union(span_of(chunk))
        }),
{
    if a.store.len() > 0 {
        let top = a.store.last();
        let below = a.store.drop_last();
        lemma_drop_last(a.store);
        lemma_taken(below, top, max);
        lemma_totals_bounds(below);
        crate::fragment::lemma_drop_last_covered(a.store);
        let t = a.read(max, false);
        assert(covered(a.store) =~= covered(t.0.store).union(span_of(t.1)));
    } else {
        assert(covered(a.store) =~= covered(a.store).union(Set::<int>::empty()));
    }
}

/// Defragmentation changes neither the mode nor the read position nor the
/// positions covered, and a store that agreed with a stream still does; so,
/// by [`law_reading_reaches_the_gap`], ordered reading hands out what it
/// would have handed out. What changes is how the bytes are spread over
/// fragments and allocations: afterwards every fragment is tight, and the
/// store keeps no more memory alive than it carries bytes.
pub proof fn law_defragment_is_transparent(a: Assembly, stream: Seq<u8>, ops: Seq<Op>, end: int)
    requires
        a.well_formed(),
        agree(a.store, stream),
        a.bytes_read <= stream.len(),
        a.bytes_read <= end,
        forall|at: int| a.bytes_read <= at < end ==> covered(a.store).contains(at),
        !covered(a.store).contains(end),
        all_reads(ops),
        ops.len() >= end - a.bytes_read,
    ensures
        a.defragmented().well_formed(),
        a.defragmented().seen == a.seen,
        a.defragmented().bytes_read == a.bytes_read,
        covered(a.defragmented().store) == covered(a.store),
        agree(a.defragmented().store, stream),
        all_tight(a.defragmented().store),
        total_allocation(a.defragmented().store) == total_len(a.defragmented().store),
        total_len(a.defragmented().store) <= total_len(a.store),
        run(a.defragmented(), ops).1 == run(a, ops).1,
{
    lemma_defragmented(a.store);
    lemma_totals_bounds(a.defragmented().store);
    law_reading_reaches_the_gap(a, stream, ops, end);
    law_reading_reaches_the_gap(a.defragmented(), stream, ops, end);
}

/// No arrival, read, defragmentation, change of mode or clearing moves
/// `bytes_read` back, and only an ordered read moves it at all.
pub proof fn law_bytes_read_never_decreases(a: Assembly, whole: Fragment, max: int, ordered: bool)
    requires
        a.well_formed(),
        0 <= max,
    ensures
        a.inserted(whole).bytes_read == a.bytes_read,
        a.read(max, ordered).0.bytes_read >= a.bytes_read,
        !ordered ==> a.read(max, ordered).0.bytes_read == a.bytes_read,
        a.defragmented().bytes_read == a.bytes_read,
        a.unordered().bytes_read == a.bytes_read,
        a.cleared().bytes_read == a.bytes_read,
{
}

/// After the arrival of a fragment, whatever is stored of it, the memory
/// that the store keeps alive beyond the bytes it carries is at most one
/// and a half times those bytes, or at most the floor.
pub proof fn law_allocation_bound(a: Assembly, whole: Fragment)
    requires
        a.well_formed(),
        whole.is_valid_input(),
        a.fits(whole),
    ensures
        ({
            let store = a.inserted(whole).store;
            let over = total_allocation(store) - total_len(store);
            0 <= over && (over <= crate::model::DEFRAGMENT_FLOOR || 2 * over <= 3 * total_len(store))
        }),
{
    lemma_inserted(a, whole);
    lemma_totals_bounds(a.inserted(whole).store);
}

} // verus!
