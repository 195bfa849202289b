//! The assembler as contracts speak of it: what it holds, and what each
//! operation makes of it.

use crate::defragment::{defragmented, lemma_defragmented};
use crate::fragment::{
    agree, all_well_formed, apart, covered, in_read_order, lemma_drop_last_covered,
    lemma_insert_keeps_apart,
    lemma_insert_agree, lemma_insert_covered, lemma_insert_keeps_order, lemma_insert_totals,
    lemma_insert_well_formed, lemma_placed_all, lemma_rank_bounds, lemma_totals_bounds, placed,
    placed_all, rank, total_allocation, total_len, Fragment,
};
use crate::range_set::interval;
use vstd::prelude::*;

verus! {

/// Over-allocation up to this many bytes is never a reason to defragment.
pub const DEFRAGMENT_FLOOR: usize = 4096;

/// The first position from `from` on that is in `known`, or `end` if there
/// is none before it.
pub open spec fn run_end(known: Set<int>, from: int, end: int) -> int
    decreases end - from,
{
    if from >= end || known.contains(from) {
        from
    } else {
        run_end(known, from + 1, end)
    }
}

/// A run ends within bounds, holds nothing known, and ends at a known
/// position or at the end.
pub proof fn lemma_run_end(known: Set<int>, from: int, end: int)
    requires
        from <= end,
    ensures
        from <= run_end(known, from, end) <= end,
        forall|at: int| from <= at < run_end(known, from, end) ==> !known.contains(at),
        run_end(known, from, end) < end ==> known.contains(run_end(known, from, end)),
    decreases end - from,
{
    if from >= end || known.contains(from) {
    } else {
        lemma_run_end(known, from + 1, end);
    }
}

/// The run that starts at `from` ends at the one position `to` that is known
/// or the end, with nothing known before it.
pub proof fn lemma_run_end_unique(known: Set<int>, from: int, end: int, to: int)
    requires
        from <= to <= end,
        forall|at: int| from <= at < to ==> !known.contains(at),
        to < end ==> known.contains(to),
    ensures
        run_end(known, from, end) == to,
    decreases to - from,
{
    if from < to {
        lemma_run_end_unique(known, from + 1, end, to);
    }
}

/// The parts of `whole` from position `from` on that are not in `known`, as
/// fragments: one for each maximal run of such positions, in stream order.
pub open spec fn unknown_parts(known: Set<int>, whole: Fragment, from: int) -> Seq<Fragment>
    decreases whole.end() - from,
{
    if from >= whole.end() {
        Seq::empty()
    } else if known.contains(from) {
        unknown_parts(known, whole, from + 1)
    } else {
        let to = run_end(known, from + 1, whole.end());
        proof {
            lemma_run_end(known, from + 1, whole.end());
        }
        seq![whole.part(from, to)] + unknown_parts(known, whole, to)
    }
}

/// The number of positions from `from` up to, not including, `end` that
/// are not in `known`.
pub open spec fn unknown_count(known: Set<int>, from: int, end: int) -> int
    decreases end - from,
{
    if from >= end {
        0
    } else if known.contains(from) {
        unknown_count(known, from + 1, end)
    } else {
        1 + unknown_count(known, from + 1, end)
    }
}

/// A run of unknown positions counts in full.
pub proof fn lemma_unknown_count_run(known: Set<int>, from: int, to: int, end: int)
    requires
        from <= to <= end,
        forall|at: int| from <= at < to ==> !known.contains(at),
    ensures
        unknown_count(known, from, end) == to - from + unknown_count(known, to, end),
    decreases to - from,
{
    if from < to {
        lemma_unknown_count_run(known, from + 1, to, end);
    }
}

/// The unknown parts of a fragment lie apart, in stream order: each is a
/// part of the fragment that starts at an unknown position at or after
/// `from`, and ends before the next one starts.
pub proof fn lemma_unknown_parts_apart(known: Set<int>, whole: Fragment, from: int)
    requires
        whole.is_valid_input(),
        whole.offset <= from,
    ensures
        forall|i: int|
            0 <= i < unknown_parts(known, whole, from).len() ==> {
                let p = #[trigger] unknown_parts(known, whole, from)[i];
                &&& from <= p.offset < p.end() <= whole.end()
                &&& !known.contains(p.offset)
                &&& p == whole.part(p.offset, p.end())
            },
        forall|i: int, j: int|
            0 <= i < j < unknown_parts(known, whole, from).len() ==> (#[trigger] unknown_parts(
                known,
                whole,
                from,
            )[i]).end() < (#[trigger] unknown_parts(known, whole, from)[j]).offset,
    decreases whole.end() - from,
{
    let parts = unknown_parts(known, whole, from);
    if from >= whole.end() {
    } else if known.contains(from) {
        let rest = unknown_parts(known, whole, from + 1);
        lemma_unknown_parts_apart(known, whole, from + 1);
        assert(parts == rest);
    } else {
        let to = run_end(known, from + 1, whole.end());
        lemma_run_end(known, from + 1, whole.end());
        let p = whole.part(from, to);
        let rest = unknown_parts(known, whole, to);
        lemma_unknown_parts_apart(known, whole, to);
        assert(parts =~= rest.insert(0, p));
        assert(parts[0] == p);
        assert(p.end() == to);
        assert forall|i: int| 0 <= i < parts.len() implies {
            let q = #[trigger] parts[i];
            &&& from <= q.offset < q.end() <= whole.end()
            &&& !known.contains(q.offset)
            &&& q == whole.part(q.offset, q.end())
        } by {
            if i > 0 {
                assert(parts[i] == rest[i - 1]);
                let q = rest[i - 1];
                assert(to <= q.offset < q.end() <= whole.end());
            }
        }
        assert forall|i: int, j: int| 0 <= i < j < parts.len() implies (#[trigger] parts[i]).end()
            < (#[trigger] parts[j]).offset by {
            assert(parts[j] == rest[j - 1]);
            let q = rest[j - 1];
            assert(to <= q.offset && !known.contains(q.offset));
            if i > 0 {
                assert(parts[i] == rest[i - 1]);
                assert(rest[i - 1].end() < rest[j - 1].offset);
            }
        }
    }
}

/// A run of unknown positions is one part, and the rest follows it.
pub proof fn lemma_unknown_run(known: Set<int>, whole: Fragment, from: int, to: int)
    requires
        from < to <= whole.end(),
        forall|at: int| from <= at < to ==> !known.contains(at),
        to < whole.end() ==> known.contains(to),
    ensures
        unknown_parts(known, whole, from) == seq![whole.part(from, to)] + unknown_parts(
            known,
            whole,
            to,
        ),
{
    lemma_run_end_unique(known, from + 1, whole.end(), to);
}

/// A run of known positions holds no part.
pub proof fn lemma_unknown_skip(known: Set<int>, whole: Fragment, from: int, to: int)
    requires
        from <= to,
        forall|at: int| from <= at < to ==> known.contains(at),
    ensures
        unknown_parts(known, whole, from) == unknown_parts(known, whole, to),
    decreases to - from,
{
    if from < to && from < whole.end() {
        lemma_unknown_skip(known, whole, from + 1, to);
    }
}

/// The unknown parts of a fragment are well-formed fragments that cover
/// exactly its unknown positions and carry its bytes there.
pub proof fn lemma_unknown_parts(known: Set<int>, whole: Fragment, from: int)
    requires
        0 <= whole.offset <= from,
        whole.data.len() <= whole.allocation_size <= usize::MAX,
        whole.end() <= u64::MAX,
    ensures
        all_well_formed(unknown_parts(known, whole, from)),
        covered(unknown_parts(known, whole, from)) == interval(from, whole.end()).difference(
            known,
        ),
        forall|stream: Seq<u8>|
            whole.agrees_with(stream) ==> #[trigger] agree(
                unknown_parts(known, whole, from),
                stream,
            ),
    decreases whole.end() - from,
{
    let parts = unknown_parts(known, whole, from);
    if from >= whole.end() {
        assert(covered(parts) =~= interval(from, whole.end()).difference(known));
    } else if known.contains(from) {
        lemma_unknown_parts(known, whole, from + 1);
        assert(covered(parts) =~= interval(from, whole.end()).difference(known));
    } else {
        let to = run_end(known, from + 1, whole.end());
        lemma_run_end(known, from + 1, whole.end());
        let p = whole.part(from, to);
        let rest = unknown_parts(known, whole, to);
        lemma_unknown_parts(known, whole, to);
        assert(parts =~= rest.insert(0, p));
        lemma_insert_well_formed(rest, 0, p);
        lemma_insert_covered(rest, 0, p);
        assert(covered(parts) =~= interval(from, whole.end()).difference(known));
        assert forall|stream: Seq<u8>| whole.agrees_with(stream) implies #[trigger] agree(
            parts,
            stream,
        ) by {
            lemma_insert_agree(rest, 0, p, stream);
            assert(p.data =~= stream.subrange(p.offset, p.end()));
        }
    }
}

/// The unknown parts of a fragment carry as many bytes as it has unknown
/// positions from `from` on, are no more than those bytes, and each keeps
/// the fragment's allocation alive.
pub proof fn lemma_unknown_parts_weight(known: Set<int>, whole: Fragment, from: int)
    requires
        whole.is_valid_input(),
        whole.offset <= from,
    ensures
        0 <= unknown_parts(known, whole, from).len() <= total_len(
            unknown_parts(known, whole, from),
        ),
        from <= whole.end() ==> total_len(unknown_parts(known, whole, from)) <= whole.end() - from,
        from > whole.end() ==> total_len(unknown_parts(known, whole, from)) == 0,
        total_len(unknown_parts(known, whole, from)) == unknown_count(known, from, whole.end()),
        total_allocation(unknown_parts(known, whole, from)) == unknown_parts(
            known,
            whole,
            from,
        ).len() * whole.allocation_size,
    decreases whole.end() - from,
{
    let parts = unknown_parts(known, whole, from);
    if from >= whole.end() {
    } else if known.contains(from) {
        lemma_unknown_parts_weight(known, whole, from + 1);
    } else {
        let to = run_end(known, from + 1, whole.end());
        lemma_run_end(known, from + 1, whole.end());
        let p = whole.part(from, to);
        let rest = unknown_parts(known, whole, to);
        lemma_unknown_parts_weight(known, whole, to);
        lemma_unknown_count_run(known, from, to, whole.end());
        assert(parts =~= rest.insert(0, p));
        lemma_insert_totals(rest, 0, p);
        assert((rest.len() + 1) * whole.allocation_size == rest.len() * whole.allocation_size
            + whole.allocation_size) by (nonlinear_arith);
    }
}

/// Where everything before a position is known and nothing from it on, a
/// fragment has at most one unknown part.
pub proof fn lemma_unknown_parts_of_prefix(whole: Fragment, from: int, read: int)
    requires
        0 <= whole.offset <= from,
    ensures
        unknown_parts(interval(0, read), whole, from).len() <= 1,
    decreases whole.end() - from,
{
    let known = interval(0, read);
    if from >= whole.end() {
    } else if known.contains(from) {
        lemma_unknown_parts_of_prefix(whole, from + 1, read);
    } else {
        lemma_run_end_unique(known, from + 1, whole.end(), whole.end());
        assert(unknown_parts(known, whole, whole.end()) =~= Seq::<Fragment>::empty());
        assert(unknown_parts(known, whole, from) =~= seq![whole.part(from, whole.end())]);
    }
}

/// Whether a store keeps so much memory alive beyond the bytes it carries
/// that it is to be defragmented: more than one and a half times those
/// bytes, and more than the floor.
pub open spec fn over_allocated(s: Seq<Fragment>) -> bool {
    let over = total_allocation(s) - total_len(s);
    over > DEFRAGMENT_FLOOR && 2 * over > 3 * total_len(s)
}

/// What a read takes of the fragment `f`, which has left the store `below`:
/// the store that is left, and the offset and bytes handed out. A fragment
/// longer than `max` gives its first `max` bytes and goes back with the rest.
pub open spec fn taken(below: Seq<Fragment>, f: Fragment, max: int) -> (
    Seq<Fragment>,
    (int, Seq<u8>),
) {
    if max < f.len() {
        (placed(below, f.from(f.offset + max)), (f.offset, f.data.take(max)))
    } else {
        (below, (f.offset, f.data))
    }
}

/// What a read in stream order makes of `store` when `bytes_read` bytes of
/// the stream were read before: fragments that end at or before that
/// position are dropped, a gap before the next fragment leaves the read
/// empty-handed, and else the next fragment gives what it has from that
/// position on, up to `max` bytes.
pub open spec fn read_in_order(store: Seq<Fragment>, bytes_read: int, max: int) -> (
    Seq<Fragment>,
    Option<(int, Seq<u8>)>,
)
    decreases store.len(),
{
    if store.len() == 0 || store.last().offset > bytes_read {
        (store, None)
    } else if store.last().end() <= bytes_read {
        read_in_order(store.drop_last(), bytes_read, max)
    } else {
        let t = taken(store.drop_last(), store.last().from(bytes_read), max);
        (t.0, Some(t.1))
    }
}

/// Dropping the last fragment of a store keeps the rest well formed and in
/// read order, and takes the fragment off the totals.
pub proof fn lemma_drop_last(s: Seq<Fragment>)
    requires
        s.len() > 0,
        all_well_formed(s),
        in_read_order(s),
    ensures
        all_well_formed(s.drop_last()),
        in_read_order(s.drop_last()),
        s.last().well_formed(),
        forall|i: int| 0 <= i < s.len() ==> s.last().offset <= (#[trigger] s[i]).offset,
        forall|stream: Seq<u8>|
            agree(s, stream) ==> #[trigger] agree(s.drop_last(), stream) && s.last().agrees_with(
                stream,
            ),
{
    let t = s.drop_last();
    assert forall|i: int| 0 <= i < t.len() implies (#[trigger] t[i]).well_formed() by {
        assert(s[i].well_formed());
    }
    assert forall|i: int, j: int| 0 <= i < j < t.len() implies !(#[trigger] t[i]).reads_before(
        #[trigger] t[j],
    ) by {
        assert(!s[i].reads_before(s[j]));
    }
    assert forall|i: int| 0 <= i < s.len() implies s.last().offset <= (#[trigger] s[i]).offset by {
        if i < s.len() - 1 {
            assert(!s[i].reads_before(s[s.len() - 1]));
        }
    }
    assert forall|stream: Seq<u8>| agree(s, stream) implies #[trigger] agree(t, stream)
        && s.last().agrees_with(stream) by {
        assert(s[s.len() - 1].agrees_with(stream));
        assert forall|i: int| 0 <= i < t.len() implies (#[trigger] t[i]).agrees_with(stream) by {
            assert(s[i].agrees_with(stream));
        }
    }
}

/// What a read takes of a fragment is its first bytes, as many as `max`
/// allows; the rest of it stays covered, and the store stays well formed.
pub proof fn lemma_taken(below: Seq<Fragment>, f: Fragment, max: int)
    requires
        all_well_formed(below),
        in_read_order(below),
        f.well_formed(),
        0 <= max,
    ensures
        ({
            let t = taken(below, f, max);
            let n = t.1.1.len() as int;
            &&& all_well_formed(t.0)
            &&& in_read_order(t.0)
            &&& t.1.0 == f.offset
            &&& n == if max < f.len() {
                max
            } else {
                f.len()
            }
            &&& t.1.1 == f.data.take(n)
            &&& covered(t.0) == covered(below).union(interval(f.offset + n, f.end()))
            &&& total_len(t.0) == total_len(below) + f.len() - n
            &&& total_allocation(t.0) <= total_allocation(below) + f.allocation_size
            &&& t.0.len() <= below.len() + 1
            &&& max >= f.len() ==> t.0 == below
            &&& forall|stream: Seq<u8>|
                agree(below, stream) && f.agrees_with(stream) ==> #[trigger] agree(t.0, stream)
                    && t.1.1 == stream.subrange(f.offset, f.offset + n)
        }),
{
    let t = taken(below, f, max);
    let n = t.1.1.len() as int;
    lemma_totals_bounds(below);
    if max < f.len() {
        let rest = f.from(f.offset + max);
        lemma_rank_bounds(below, rest);
        let k = rank(below, rest);
        lemma_insert_keeps_order(below, rest);
        lemma_insert_well_formed(below, k, rest);
        lemma_insert_covered(below, k, rest);
        lemma_insert_totals(below, k, rest);
        assert(rest.span() =~= interval(f.offset + n, f.end()));
        assert forall|stream: Seq<u8>|
            agree(below, stream) && f.agrees_with(stream) implies #[trigger] agree(t.0, stream)
            && t.1.1 == stream.subrange(f.offset, f.offset + n) by {
            lemma_insert_agree(below, k, rest, stream);
            assert(rest.data =~= stream.subrange(rest.offset, rest.end()));
            assert(t.1.1 =~= stream.subrange(f.offset, f.offset + n));
        }
    } else {
        assert(t.1.1 =~= f.data.take(n));
        assert(covered(below).union(interval(f.offset + n, f.end())) =~= covered(below));
        assert forall|stream: Seq<u8>|
            agree(below, stream) && f.agrees_with(stream) implies #[trigger] agree(t.0, stream)
            && t.1.1 == stream.subrange(f.offset, f.offset + n) by {}
    }
}

/// What a read in stream order does. It hands out a chunk exactly when the
/// read position is covered; the chunk starts at the read position, holds
/// at most `max` bytes and at least one unless `max` is zero, and lies
/// within what was covered. Nothing at or after the end of the chunk stops
/// being covered, and nothing new is. The store stays well formed and
/// weighs no more. If the store agreed with a stream, it still does, and
/// the chunk holds the stream's bytes.
pub proof fn lemma_read_in_order(store: Seq<Fragment>, bytes_read: int, max: int)
    requires
        all_well_formed(store),
        in_read_order(store),
        0 <= bytes_read,
        0 <= max,
    ensures
        ({
            let r = read_in_order(store, bytes_read, max);
            let n = match r.1 {
                Some(chunk) => chunk.1.len() as int,
                None => 0,
            };
            &&& all_well_formed(r.0)
            &&& in_read_order(r.0)
            &&& r.1 is Some <==> covered(store).contains(bytes_read)
            &&& r.1 matches Some(chunk) ==> chunk.0 == bytes_read
            &&& 0 <= n <= max
            &&& r.1 is Some && max > 0 ==> n > 0
            &&& forall|at: int| bytes_read <= at < bytes_read + n ==> covered(store).contains(at)
            &&& forall|at: int|
                bytes_read + n <= at ==> (covered(r.0).contains(at) <==> covered(store).contains(
                    at,
                ))
            &&& covered(r.0).subset_of(covered(store))
            &&& r.0.len() <= store.len()
            &&& total_len(r.0) + n <= total_len(store)
            &&& total_allocation(r.0) <= total_allocation(store)
            &&& forall|stream: Seq<u8>|
                agree(store, stream) ==> #[trigger] agree(r.0, stream) && (r.1 matches Some(chunk)
                    ==> chunk.1 == stream.subrange(bytes_read, bytes_read + n))
        }),
    decreases store.len(),
{
    let r = read_in_order(store, bytes_read, max);
    if store.len() == 0 {
        assert(!covered(store).contains(bytes_read));
    } else {
        let top = store.last();
        let below = store.drop_last();
        lemma_drop_last(store);
        lemma_drop_last_covered(store);
        lemma_totals_bounds(below);
        if top.offset > bytes_read {
            assert(!covered(store).contains(bytes_read)) by {
                if covered(store).contains(bytes_read) {
                    let i = choose|i: int| 0 <= i < store.len() && (#[trigger] store[i]).covers(
                        bytes_read,
                    );
                    assert(top.offset <= store[i].offset);
                }
            }
        } else if top.end() <= bytes_read {
            lemma_read_in_order(below, bytes_read, max);
            assert forall|stream: Seq<u8>| agree(store, stream) implies #[trigger] agree(
                r.0,
                stream,
            ) && (r.1 matches Some(chunk) ==> chunk.1 == stream.subrange(
                bytes_read,
                bytes_read + chunk.1.len(),
            )) by {
                assert(agree(below, stream));
            }
        } else {
            let f = top.from(bytes_read);
            lemma_taken(below, f, max);
            assert(store[store.len() - 1].covers(bytes_read));
            assert(f.span().subset_of(top.span()));
            assert forall|stream: Seq<u8>| agree(store, stream) implies #[trigger] agree(
                r.0,
                stream,
            ) && (r.1 matches Some(chunk) ==> chunk.1 == stream.subrange(
                bytes_read,
                bytes_read + chunk.1.len(),
            )) by {
                assert(agree(below, stream));
                assert(top.agrees_with(stream));
                assert(f.data =~= stream.subrange(f.offset, f.end()));
                assert(f.agrees_with(stream));
            }
        }
    }
}

/// A read leaves the fragments of a store apart if they lay apart.
pub proof fn lemma_taken_keeps_apart(below: Seq<Fragment>, f: Fragment, max: int)
    requires
        all_well_formed(below),
        in_read_order(below),
        apart(below),
        f.well_formed(),
        0 <= max,
        forall|i: int| 0 <= i < below.len() ==> f.end() <= (#[trigger] below[i]).offset,
    ensures
        apart(taken(below, f, max).0),
{
    if max < f.len() {
        let rest = f.from(f.offset + max);
        assert forall|at: int| covered(below).contains(at) implies !rest.span().contains(at) by {
            let i = choose|i: int| 0 <= i < below.len() && (#[trigger] below[i]).covers(at);
            assert(f.end() <= below[i].offset);
        }
        lemma_insert_keeps_apart(below, rest);
    }
}

/// A read in stream order leaves the fragments of a store apart if they lay
/// apart.
pub proof fn lemma_read_in_order_keeps_apart(store: Seq<Fragment>, bytes_read: int, max: int)
    requires
        all_well_formed(store),
        in_read_order(store),
        apart(store),
        0 <= bytes_read,
        0 <= max,
    ensures
        apart(read_in_order(store, bytes_read, max).0),
    decreases store.len(),
{
    if store.len() > 0 && store.last().offset <= bytes_read {
        let below = store.drop_last();
        lemma_drop_last(store);
        assert forall|i: int, j: int| 0 <= i < j < below.len() implies (#[trigger] below[j]).end()
            <= (#[trigger] below[i]).offset by {
            assert(store[j].end() <= store[i].offset);
        }
        assert forall|i: int| 0 <= i < below.len() implies store.last().end() <= (
        #[trigger] below[i]).offset by {
            assert(store[store.len() - 1].end() <= store[i].offset);
        }
        if store.last().end() <= bytes_read {
            lemma_read_in_order_keeps_apart(below, bytes_read, max);
        } else {
            lemma_taken_keeps_apart(below, store.last().from(bytes_read), max);
        }
    }
}

/// The bytes of what a read handed out.
pub open spec fn bytes_of(chunk: Option<(int, Seq<u8>)>) -> Seq<u8> {
    match chunk {
        Some(chunk) => chunk.1,
        None => Seq::empty(),
    }
}

/// The stream positions of what a read handed out.
pub open spec fn span_of(chunk: Option<(int, Seq<u8>)>) -> Set<int> {
    match chunk {
        Some(chunk) => interval(chunk.0, chunk.0 + chunk.1.len()),
        None => Set::empty(),
    }
}

/// What an assembler holds.
pub struct Assembly {
    /// In unordered mode, every stream position that was ever accepted;
    /// `None` in ordered mode.
    pub seen: Option<Set<int>>,
    /// The buffered fragments, the next to be read last.
    pub store: Seq<Fragment>,
    /// Number of bytes handed out by reads in stream order.
    pub bytes_read: int,
}

impl Assembly {
    /// What holds of every assembler: its store holds well-formed fragments
    /// in read order whose totals fit the counters, and in unordered mode
    /// every buffered position was seen.
    pub open spec fn well_formed(self) -> bool {
        &&& all_well_formed(self.store)
        &&& in_read_order(self.store)
        &&& total_len(self.store) <= isize::MAX
        &&& total_allocation(self.store) <= usize::MAX
        &&& 0 <= self.bytes_read <= u64::MAX
        &&& self.seen matches Some(seen) ==> covered(self.store).subset_of(seen)
    }

    /// A new assembler: ordered mode, nothing buffered, nothing read.
    pub open spec fn empty() -> Assembly {
        Assembly { seen: None, store: Seq::empty(), bytes_read: 0 }
    }

    /// The positions at which new bytes are not accepted: in unordered mode
    /// those seen before, in ordered mode those before `bytes_read`.
    pub open spec fn known(self) -> Set<int> {
        match self.seen {
            Some(seen) => seen,
            None => interval(0, self.bytes_read),
        }
    }

    /// The fragments that are stored when `whole` arrives: its parts at
    /// positions not known.
    pub open spec fn accepted(self, whole: Fragment) -> Seq<Fragment> {
        unknown_parts(self.known(), whole, whole.offset)
    }

    /// The store with the accepted parts of `whole` put in place, before
    /// any defragmentation.
    pub open spec fn stored(self, whole: Fragment) -> Seq<Fragment> {
        placed_all(self.store, self.accepted(whole))
    }

    /// Whether the counters can take `whole`: the bytes carried stay within
    /// `isize::MAX`, the limit of one allocation, and the allocation sizes
    /// within `usize::MAX`.
    pub open spec fn fits(self, whole: Fragment) -> bool {
        &&& total_len(self.stored(whole)) <= isize::MAX
        &&& total_allocation(self.stored(whole)) <= usize::MAX
    }

    /// Whether the counters have room for all of `whole`: for its bytes once,
    /// and for its allocation size once in ordered mode, where at most one
    /// part of it is stored, and once for each byte in unordered mode. This
    /// can be told from the counters alone, and it is enough for `whole` to
    /// fit.
    pub open spec fn has_room(self, whole: Fragment) -> bool {
        &&& total_len(self.store) + whole.len() <= isize::MAX
        &&& total_allocation(self.store) + (if self.seen is None {
            1
        } else {
            whole.len()
        }) * whole.allocation_size <= usize::MAX
    }

    /// The assembler after `whole` has arrived: its accepted parts are
    /// stored, and a store that is over-allocated then is defragmented.
    pub open spec fn inserted(self, whole: Fragment) -> Assembly {
        Assembly {
            seen: match self.seen {
                Some(seen) => Some(seen.union(interval(whole.offset, whole.end()))),
                None => None,
            },
            store: if over_allocated(self.stored(whole)) {
                defragmented(self.stored(whole))
            } else {
                self.stored(whole)
            },
            bytes_read: self.bytes_read,
        }
    }

    /// The assembler after defragmentation.
    pub open spec fn defragmented(self) -> Assembly {
        Assembly { seen: self.seen, store: defragmented(self.store), bytes_read: self.bytes_read }
    }

    /// The assembler after a read of at most `max` bytes, and what the read
    /// hands out. A read in stream order advances `bytes_read`; an unordered
    /// read takes the next fragment whatever its offset and leaves
    /// `bytes_read` alone.
    pub open spec fn read(self, max: int, ordered: bool) -> (Assembly, Option<(int, Seq<u8>)>) {
        if ordered {
            let r = read_in_order(self.store, self.bytes_read, max);
            let n = match r.1 {
                Some(chunk) => chunk.1.len() as int,
                None => 0,
            };
            (Assembly { seen: self.seen, store: r.0, bytes_read: self.bytes_read + n }, r.1)
        } else if self.store.len() == 0 {
            (self, None)
        } else {
            let t = taken(self.store.drop_last(), self.store.last(), max);
            (Assembly { seen: self.seen, store: t.0, bytes_read: self.bytes_read }, Some(t.1))
        }
    }

    /// The assembler in unordered mode. On entering it, the positions seen
    /// are those read in order and those buffered.
    pub open spec fn unordered(self) -> Assembly {
        Assembly {
            seen: Some(
                match self.seen {
                    Some(seen) => seen,
                    None => interval(0, self.bytes_read).union(covered(self.store)),
                },
            ),
            store: self.store,
            bytes_read: self.bytes_read,
        }
    }

    /// The assembler with nothing buffered.
    pub open spec fn cleared(self) -> Assembly {
        Assembly { seen: self.seen, store: Seq::empty(), bytes_read: self.bytes_read }
    }

    /// The assembler with `bytes_read` set to `new`.
    pub open spec fn with_bytes_read(self, new: int) -> Assembly {
        Assembly { seen: self.seen, store: self.store, bytes_read: new }
    }
}

/// What the arrival of a fragment does. The assembler stays well formed and
/// `bytes_read` stays. The store covers what it covered and the positions
/// of the fragment that were not known, and no others. What was known
/// stays known, and the fragment's positions are known from then on in
/// unordered mode. What is stored weighs as many bytes more as the
/// fragment has positions that were not known, before any
/// defragmentation, which takes place only where that store is
/// over-allocated; a fragment of which everything was known stores
/// nothing. The store is not over-allocated afterwards. If the store and
/// the fragment agreed with a stream, the store still does.
pub proof fn lemma_inserted(a: Assembly, whole: Fragment)
    requires
        a.well_formed(),
        whole.is_valid_input(),
        a.fits(whole),
    ensures
        a.inserted(whole).well_formed(),
        a.inserted(whole).bytes_read == a.bytes_read,
        covered(a.accepted(whole)) == interval(whole.offset, whole.end()).difference(a.known()),
        covered(a.inserted(whole).store) == covered(a.store).union(covered(a.accepted(whole))),
        a.known().subset_of(a.inserted(whole).known()),
        a.seen is Some ==> interval(whole.offset, whole.end()).subset_of(
            a.inserted(whole).known(),
        ),
        a.seen is Some <==> a.inserted(whole).seen is Some,
        !over_allocated(a.inserted(whole).store),
        total_len(a.stored(whole)) == total_len(a.store) + unknown_count(
            a.known(),
            whole.offset,
            whole.end(),
        ),
        total_len(a.inserted(whole).store) <= total_len(a.stored(whole)),
        !over_allocated(a.stored(whole)) ==> a.inserted(whole).store == a.stored(whole),
        over_allocated(a.stored(whole)) ==> total_allocation(a.inserted(whole).store)
            == total_len(a.inserted(whole).store),
        interval(whole.offset, whole.end()).subset_of(a.known()) ==> a.stored(whole) == a.store,
        forall|stream: Seq<u8>|
            agree(a.store, stream) && whole.agrees_with(stream) ==> #[trigger] agree(
                a.inserted(whole).store,
                stream,
            ),
{
    let parts = a.accepted(whole);
    let stored = a.stored(whole);
    let b = a.inserted(whole);
    lemma_unknown_parts(a.known(), whole, whole.offset);
    lemma_unknown_parts_weight(a.known(), whole, whole.offset);
    if interval(whole.offset, whole.end()).subset_of(a.known()) {
        assert forall|at: int| whole.offset <= at < whole.end() implies a.known().contains(at) by {
            assert(interval(whole.offset, whole.end()).contains(at));
        }
        lemma_unknown_skip(a.known(), whole, whole.offset, whole.end());
    }
    lemma_placed_all(a.store, parts);
    assert(all_well_formed(stored));
    assert(in_read_order(stored));
    if over_allocated(stored) {
        lemma_defragmented(stored);
        lemma_totals_bounds(b.store);
    }
    assert forall|stream: Seq<u8>|
        agree(a.store, stream) && whole.agrees_with(stream) implies #[trigger] agree(
        b.store,
        stream,
    ) by {
        assert(agree(parts, stream));
        assert(agree(stored, stream));
    }
    assert(covered(b.store) == covered(stored));
    match a.seen {
        Some(seen) => {
            assert(covered(b.store).subset_of(seen.union(interval(whole.offset, whole.end()))));
        },
        None => {},
    }
}

/// Room in the counters for all of a fragment is room enough for what is
/// stored of it.
pub proof fn lemma_room_suffices(a: Assembly, whole: Fragment)
    requires
        a.well_formed(),
        whole.is_valid_input(),
        a.has_room(whole),
    ensures
        a.fits(whole),
{
    let parts = a.accepted(whole);
    lemma_unknown_parts_weight(a.known(), whole, whole.offset);
    lemma_placed_all(a.store, parts);
    if a.seen is None {
        lemma_unknown_parts_of_prefix(whole, whole.offset, a.bytes_read);
    }
    let most = if a.seen is None {
        1
    } else {
        whole.len()
    };
    assert(parts.len() * whole.allocation_size <= most * whole.allocation_size)
        by (nonlinear_arith)
        requires
            0 <= parts.len() <= most,
            0 <= whole.allocation_size,
    ;
}

} // verus!
