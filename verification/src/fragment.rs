//! Fragments of a stream, and what a sequence of them holds.
//!
//! A [`Fragment`] is the mathematical model of a stored piece of the stream:
//! where it starts, the bytes it carries, and the size of the allocation that
//! those bytes were sliced from. A [`Buffer`] is the value that carries one at
//! run time. The functions on `Seq<Fragment>` say what a whole store covers
//! and how its fragments are ordered.

use crate::payload::contents;
use bytes::Bytes;
use vstd::prelude::*;

verus! {

/// A piece of the stream, as contracts speak of it.
pub struct Fragment {
    /// Position of the first byte in the stream.
    pub offset: int,
    /// The bytes carried.
    pub data: Seq<u8>,
    /// Size of the allocation that `data` is a view into.
    pub allocation_size: int,
}

impl Fragment {
    /// Number of bytes carried.
    pub open spec fn len(self) -> int {
        self.data.len() as int
    }

    /// Position just past the last byte.
    pub open spec fn end(self) -> int {
        self.offset + self.data.len()
    }

    /// Whether the fragment carries the byte at stream position `at`.
    pub open spec fn covers(self, at: int) -> bool {
        self.offset <= at < self.end()
    }

    /// The stream positions that the fragment carries.
    pub open spec fn span(self) -> Set<int> {
        Set::new(|at: int| self.covers(at))
    }

    /// A tight fragment fills its allocation; any other keeps memory alive
    /// that it does not use.
    pub open spec fn is_tight(self) -> bool {
        self.data.len() == self.allocation_size
    }

    /// What every stored fragment satisfies: it is not empty, it fits in its
    /// allocation, and its end is a stream offset.
    pub open spec fn well_formed(self) -> bool {
        &&& 0 <= self.offset
        &&& 0 < self.data.len() <= self.allocation_size <= usize::MAX
        &&& self.end() <= u64::MAX
    }

    /// What may be offered to an assembler: bytes, possibly none, that fit in
    /// their allocation and end at a stream offset.
    pub open spec fn is_valid_input(self) -> bool {
        &&& 0 <= self.offset
        &&& self.data.len() <= self.allocation_size <= usize::MAX
        &&& self.end() <= u64::MAX
    }

    /// Whether the fragment carries exactly the bytes that `stream` has at
    /// its positions.
    pub open spec fn agrees_with(self, stream: Seq<u8>) -> bool {
        &&& 0 <= self.offset
        &&& self.end() <= stream.len()
        &&& self.data == stream.subrange(self.offset, self.end())
    }

    /// The read order: lower offsets first, and of two fragments at one
    /// offset the longer first.
    pub open spec fn reads_before(self, other: Fragment) -> bool {
        self.offset < other.offset || (self.offset == other.offset && self.data.len()
            > other.data.len())
    }

    /// The part of the fragment from stream position `at` on, still a view
    /// into the same allocation.
    pub open spec fn from(self, at: int) -> Fragment
        recommends
            self.offset <= at <= self.end(),
    {
        Fragment {
            offset: at,
            data: self.data.skip(at - self.offset),
            allocation_size: self.allocation_size,
        }
    }

    /// The part of the fragment from stream position `from` up to, not
    /// including, `to`, still a view into the same allocation.
    pub open spec fn part(self, from: int, to: int) -> Fragment
        recommends
            self.offset <= from <= to <= self.end(),
    {
        Fragment {
            offset: from,
            data: self.data.subrange(from - self.offset, to - self.offset),
            allocation_size: self.allocation_size,
        }
    }
}

/// The stream positions carried by at least one fragment of `s`.
pub open spec fn covered(s: Seq<Fragment>) -> Set<int> {
    Set::new(|at: int| exists|i: int| 0 <= i < s.len() && (#[trigger] s[i]).covers(at))
}

/// Whether every fragment of `s` carries the bytes of `stream`.
pub open spec fn agree(s: Seq<Fragment>, stream: Seq<u8>) -> bool {
    forall|i: int| 0 <= i < s.len() ==> (#[trigger] s[i]).agrees_with(stream)
}

/// Whether every fragment of `s` is well formed.
pub open spec fn all_well_formed(s: Seq<Fragment>) -> bool {
    forall|i: int| 0 <= i < s.len() ==> (#[trigger] s[i]).well_formed()
}

/// Whether every fragment of `s` is tight.
pub open spec fn all_tight(s: Seq<Fragment>) -> bool {
    forall|i: int| 0 <= i < s.len() ==> (#[trigger] s[i]).is_tight()
}

/// Bytes carried by the fragments of `s`, counted once per fragment.
pub open spec fn total_len(s: Seq<Fragment>) -> int
    decreases s.len(),
{
    if s.len() == 0 {
        0
    } else {
        total_len(s.drop_last()) + s.last().len()
    }
}

/// Sum of the allocation sizes behind the fragments of `s`.
pub open spec fn total_allocation(s: Seq<Fragment>) -> int
    decreases s.len(),
{
    if s.len() == 0 {
        0
    } else {
        total_allocation(s.drop_last()) + s.last().allocation_size
    }
}

/// A store keeps its fragments in reverse read order: the last one is read
/// next, and no fragment is read before one that stands behind it.
pub open spec fn in_read_order(s: Seq<Fragment>) -> bool {
    forall|i: int, j: int| 0 <= i < j < s.len() ==> !(#[trigger] s[i]).reads_before(#[trigger] s[j])
}

/// Whether the fragments of a store lie apart, in read order: each ends at
/// or before the offset of the one that is read after it, so that no
/// position is carried twice.
pub open spec fn apart(s: Seq<Fragment>) -> bool {
    forall|i: int, j: int| 0 <= i < j < s.len() ==> (#[trigger] s[j]).end() <= (#[trigger] s[i]).offset
}

/// Where `f` goes in `s`: behind the fragments that it is read before, and
/// in front of every other, so that among fragments of one offset and
/// length the one stored first is read first.
pub open spec fn rank(s: Seq<Fragment>, f: Fragment) -> int
    decreases s.len(),
{
    if s.len() == 0 || !f.reads_before(s.first()) {
        0
    } else {
        1 + rank(s.drop_first(), f)
    }
}

/// The store `s` with `f` put in its place.
pub open spec fn placed(s: Seq<Fragment>, f: Fragment) -> Seq<Fragment> {
    s.insert(rank(s, f), f)
}

/// The store `s` with the fragments of `fs` put in their places, first to
/// last.
pub open spec fn placed_all(s: Seq<Fragment>, fs: Seq<Fragment>) -> Seq<Fragment>
    decreases fs.len(),
{
    if fs.len() == 0 {
        s
    } else {
        placed_all(placed(s, fs.first()), fs.drop_first())
    }
}

/// Putting fragments in their places keeps the read order and well-formed
/// fragments, and adds what they cover, carry and weigh to the store's.
pub proof fn lemma_placed_all(s: Seq<Fragment>, fs: Seq<Fragment>)
    ensures
        in_read_order(s) ==> in_read_order(placed_all(s, fs)),
        all_well_formed(placed_all(s, fs)) <==> all_well_formed(s) && all_well_formed(fs),
        all_tight(placed_all(s, fs)) <==> all_tight(s) && all_tight(fs),
        covered(placed_all(s, fs)) == covered(s).union(covered(fs)),
        total_len(placed_all(s, fs)) == total_len(s) + total_len(fs),
        total_allocation(placed_all(s, fs)) == total_allocation(s) + total_allocation(fs),
        forall|stream: Seq<u8>| #[trigger]
            agree(placed_all(s, fs), stream) <==> agree(s, stream) && agree(fs, stream),
    decreases fs.len(),
{
    if fs.len() == 0 {
        assert(covered(fs) =~= Set::<int>::empty());
        assert(covered(s).union(covered(fs)) =~= covered(s));
    } else {
        let f = fs.first();
        let rest = fs.drop_first();
        let t = placed(s, f);
        lemma_rank_bounds(s, f);
        let k = rank(s, f);
        if in_read_order(s) {
            lemma_insert_keeps_order(s, f);
        }
        lemma_insert_well_formed(s, k, f);
        lemma_insert_covered(s, k, f);
        lemma_insert_totals(s, k, f);
        lemma_placed_all(t, rest);
        assert(fs =~= rest.insert(0, f));
        lemma_insert_well_formed(rest, 0, f);
        lemma_insert_covered(rest, 0, f);
        lemma_insert_totals(rest, 0, f);
        assert(covered(t).union(covered(rest)) =~= covered(s).union(covered(fs)));
        assert forall|stream: Seq<u8>| #[trigger]
            agree(placed_all(s, fs), stream) <==> agree(s, stream) && agree(fs, stream) by {
            lemma_insert_agree(s, k, f, stream);
            lemma_insert_agree(rest, 0, f, stream);
        }
    }
}

/// Putting `f` and the fragments of `rest` in place starts with `f`.
pub proof fn lemma_placed_all_first(s: Seq<Fragment>, f: Fragment, rest: Seq<Fragment>)
    ensures
        placed_all(s, seq![f] + rest) == placed_all(placed(s, f), rest),
{
    assert((seq![f] + rest).first() == f);
    assert((seq![f] + rest).drop_first() =~= rest);
}

/// The rank lies within the store, behind fragments that `f` is read
/// before, and in front of one that it is not read before.
pub proof fn lemma_rank_bounds(s: Seq<Fragment>, f: Fragment)
    ensures
        0 <= rank(s, f) <= s.len(),
        forall|i: int| 0 <= i < rank(s, f) ==> f.reads_before(#[trigger] s[i]),
        rank(s, f) < s.len() ==> !f.reads_before(s[rank(s, f)]),
    decreases s.len(),
{
    if s.len() == 0 || !f.reads_before(s.first()) {
    } else {
        let t = s.drop_first();
        lemma_rank_bounds(t, f);
        assert forall|i: int| 0 <= i < rank(s, f) implies f.reads_before(#[trigger] s[i]) by {
            if i > 0 {
                assert(s[i] == t[i - 1]);
            }
        }
        if rank(s, f) < s.len() {
            assert(s[rank(s, f)] == t[rank(t, f)]);
        }
    }
}

/// The rank is the one index that splits `s` into the fragments that `f` is
/// read before and, from the first that it is not read before, the rest.
pub proof fn lemma_rank_unique(s: Seq<Fragment>, f: Fragment, k: int)
    requires
        0 <= k <= s.len(),
        forall|i: int| 0 <= i < k ==> f.reads_before(#[trigger] s[i]),
        k < s.len() ==> !f.reads_before(s[k]),
    ensures
        rank(s, f) == k,
{
    lemma_rank_bounds(s, f);
    let r = rank(s, f);
    if r < k {
        assert(f.reads_before(s[r]));
    } else if k < r {
        assert(f.reads_before(s[k]));
    }
}

/// A fragment put in its place keeps the store in read order.
pub proof fn lemma_insert_keeps_order(s: Seq<Fragment>, f: Fragment)
    requires
        in_read_order(s),
    ensures
        in_read_order(placed(s, f)),
{
    lemma_rank_bounds(s, f);
    let k = rank(s, f);
    let t = placed(s, f);
    assert forall|i: int, j: int| 0 <= i < j < t.len() implies !(#[trigger] t[i]).reads_before(
        #[trigger] t[j],
    ) by {
        if j == k {
            assert(t[i] == s[i]);
        } else if i == k {
            assert(t[j] == s[j - 1]);
            if k < j - 1 {
                assert(!s[k].reads_before(s[j - 1]));
            }
        } else {
            let a = if i < k { i } else { i - 1 };
            let b = if j < k { j } else { j - 1 };
            assert(t[i] == s[a]);
            assert(t[j] == s[b]);
        }
    }
}

/// A fragment that shares no position with a store whose fragments lie
/// apart lies apart from them too, once it is put in its place.
pub proof fn lemma_insert_keeps_apart(s: Seq<Fragment>, f: Fragment)
    requires
        all_well_formed(s),
        in_read_order(s),
        apart(s),
        f.well_formed(),
        covered(s).disjoint(f.span()),
    ensures
        apart(placed(s, f)),
{
    lemma_rank_bounds(s, f);
    let k = rank(s, f);
    let t = placed(s, f);
    assert forall|i: int| 0 <= i < s.len() implies (if i < k {
        f.end() <= (#[trigger] s[i]).offset
    } else {
        s[i].end() <= f.offset
    }) by {
        assert(s[i].well_formed());
        if i < k {
            assert(f.reads_before(s[i]));
            if f.end() > s[i].offset {
                assert(s[i].covers(s[i].offset));
                assert(covered(s).contains(s[i].offset));
                assert(f.span().contains(s[i].offset));
            }
        } else {
            assert(!f.reads_before(s[k]));
            if i > k {
                assert(!s[k].reads_before(s[i]));
            }
            assert(!f.reads_before(s[i]));
            if s[i].end() > f.offset {
                assert(s[i].covers(f.offset));
                assert(covered(s).contains(f.offset));
                assert(f.span().contains(f.offset));
            }
        }
    }
    assert forall|i: int, j: int| 0 <= i < j < t.len() implies (#[trigger] t[j]).end() <= (
    #[trigger] t[i]).offset by {
        let a = if i < k { i } else { i - 1 };
        let b = if j < k { j } else { j - 1 };
        if i == k {
            assert(t[j] == s[b]);
            assert(s[b].end() <= f.offset);
        } else if j == k {
            assert(t[i] == s[a]);
            assert(f.end() <= s[a].offset);
        } else {
            assert(t[i] == s[a] && t[j] == s[b]);
            assert(s[b].end() <= s[a].offset);
        }
    }
}

/// A fragment that starts at or after the end of every fragment of a store
/// shares no position with it.
pub proof fn lemma_behind_is_disjoint(s: Seq<Fragment>, f: Fragment)
    requires
        forall|i: int| 0 <= i < s.len() ==> (#[trigger] s[i]).end() <= f.offset,
    ensures
        covered(s).disjoint(f.span()),
{
    assert forall|at: int| covered(s).contains(at) implies !f.span().contains(at) by {
        let i = choose|i: int| 0 <= i < s.len() && (#[trigger] s[i]).covers(at);
        assert(s[i].end() <= f.offset);
    }
}

/// Fragments that lie apart in stream order and share no position with a
/// store whose fragments lie apart make, put in their places, a store
/// whose fragments lie apart.
pub proof fn lemma_placed_all_keeps_apart(s: Seq<Fragment>, fs: Seq<Fragment>)
    requires
        all_well_formed(s),
        in_read_order(s),
        apart(s),
        all_well_formed(fs),
        forall|i: int, j: int|
            0 <= i < j < fs.len() ==> (#[trigger] fs[i]).end() <= (#[trigger] fs[j]).offset,
        covered(s).disjoint(covered(fs)),
    ensures
        apart(placed_all(s, fs)),
    decreases fs.len(),
{
    if fs.len() > 0 {
        let f = fs.first();
        let rest = fs.drop_first();
        let t = placed(s, f);
        assert(fs[0].well_formed());
        assert forall|at: int| f.span().contains(at) implies !covered(s).contains(at) by {
            assert(fs[0].covers(at));
            assert(covered(fs).contains(at));
        }
        lemma_insert_keeps_apart(s, f);
        lemma_rank_bounds(s, f);
        lemma_insert_keeps_order(s, f);
        lemma_insert_well_formed(s, rank(s, f), f);
        lemma_insert_covered(s, rank(s, f), f);
        assert forall|i: int| 0 <= i < rest.len() implies (#[trigger] rest[i]).well_formed()
            && f.end() <= rest[i].offset by {
            assert(rest[i] == fs[i + 1]);
            assert(fs[0].end() <= fs[i + 1].offset);
        }
        assert forall|i: int, j: int| 0 <= i < j < rest.len() implies (#[trigger] rest[i]).end()
            <= (#[trigger] rest[j]).offset by {
            assert(rest[i] == fs[i + 1] && rest[j] == fs[j + 1]);
        }
        assert forall|at: int| covered(rest).contains(at) implies !covered(t).contains(at) by {
            let i = choose|i: int| 0 <= i < rest.len() && (#[trigger] rest[i]).covers(at);
            assert(fs[i + 1].covers(at));
            assert(covered(fs).contains(at));
            assert(f.end() <= rest[i].offset);
        }
        lemma_placed_all_keeps_apart(t, rest);
    }
}

/// A store with one fragment more covers what that fragment carries more.
pub proof fn lemma_insert_covered(s: Seq<Fragment>, k: int, f: Fragment)
    requires
        0 <= k <= s.len(),
    ensures
        covered(s.insert(k, f)) == covered(s).union(f.span()),
{
    let t = s.insert(k, f);
    assert forall|at: int| covered(t).contains(at) <==> covered(s).union(f.span()).contains(
        at,
    ) by {
        if covered(t).contains(at) {
            let i = choose|i: int| 0 <= i < t.len() && (#[trigger] t[i]).covers(at);
            if i < k {
                assert(s[i].covers(at));
            } else if i > k {
                assert(s[i - 1].covers(at));
            }
        }
        if covered(s).contains(at) {
            let i = choose|i: int| 0 <= i < s.len() && (#[trigger] s[i]).covers(at);
            if i < k {
                assert(t[i].covers(at));
            } else {
                assert(t[i + 1].covers(at));
            }
        }
        if f.span().contains(at) {
            assert(t[k].covers(at));
        }
    }
    assert(covered(t) =~= covered(s).union(f.span()));
}

/// A store covers what its last fragment carries and what the rest covers.
pub proof fn lemma_drop_last_covered(s: Seq<Fragment>)
    requires
        s.len() > 0,
    ensures
        covered(s) == covered(s.drop_last()).union(s.last().span()),
{
    let t = s.drop_last();
    assert(s =~= t.insert(t.len() as int, s.last()));
    lemma_insert_covered(t, t.len() as int, s.last());
}

/// A store with one fragment more agrees with a stream when both the store
/// and the fragment do.
pub proof fn lemma_insert_agree(s: Seq<Fragment>, k: int, f: Fragment, stream: Seq<u8>)
    requires
        0 <= k <= s.len(),
    ensures
        agree(s.insert(k, f), stream) <==> agree(s, stream) && f.agrees_with(stream),
{
    let t = s.insert(k, f);
    if agree(t, stream) {
        assert(t[k].agrees_with(stream));
        assert forall|i: int| 0 <= i < s.len() implies (#[trigger] s[i]).agrees_with(stream) by {
            if i < k {
                assert(t[i].agrees_with(stream));
            } else {
                assert(t[i + 1].agrees_with(stream));
            }
        }
    }
    if agree(s, stream) && f.agrees_with(stream) {
        assert forall|i: int| 0 <= i < t.len() implies (#[trigger] t[i]).agrees_with(stream) by {
            if i < k {
                assert(s[i].agrees_with(stream));
            } else if i > k {
                assert(s[i - 1].agrees_with(stream));
            }
        }
    }
}

/// A store with one fragment more holds well-formed, or tight, fragments
/// when both the store and the fragment are.
pub proof fn lemma_insert_well_formed(s: Seq<Fragment>, k: int, f: Fragment)
    requires
        0 <= k <= s.len(),
    ensures
        all_well_formed(s.insert(k, f)) <==> all_well_formed(s) && f.well_formed(),
        all_tight(s.insert(k, f)) <==> all_tight(s) && f.is_tight(),
{
    let t = s.insert(k, f);
    assert(t[k] == f);
    assert forall|i: int| 0 <= i < s.len() implies #[trigger] s[i] == t[if i < k { i } else { i + 1 }] by {}
    assert forall|i: int| 0 <= i < t.len() && i != k implies #[trigger] t[i] == s[if i < k { i } else { i - 1 }] by {}
    if all_well_formed(t) {
        assert forall|i: int| 0 <= i < s.len() implies (#[trigger] s[i]).well_formed() by {
            assert(t[if i < k { i } else { i + 1 }].well_formed());
        }
    }
    if all_well_formed(s) && f.well_formed() {
        assert forall|i: int| 0 <= i < t.len() implies (#[trigger] t[i]).well_formed() by {
            if i != k {
                assert(s[if i < k { i } else { i - 1 }].well_formed());
            }
        }
    }
    if all_tight(t) {
        assert forall|i: int| 0 <= i < s.len() implies (#[trigger] s[i]).is_tight() by {
            assert(t[if i < k { i } else { i + 1 }].is_tight());
        }
    }
    if all_tight(s) && f.is_tight() {
        assert forall|i: int| 0 <= i < t.len() implies (#[trigger] t[i]).is_tight() by {
            if i != k {
                assert(s[if i < k { i } else { i - 1 }].is_tight());
            }
        }
    }
}

/// A store with one fragment more weighs that fragment more.
pub proof fn lemma_insert_totals(s: Seq<Fragment>, k: int, f: Fragment)
    requires
        0 <= k <= s.len(),
    ensures
        total_len(s.insert(k, f)) == total_len(s) + f.len(),
        total_allocation(s.insert(k, f)) == total_allocation(s) + f.allocation_size,
    decreases s.len() - k,
{
    let t = s.insert(k, f);
    if k == s.len() {
        assert(t.drop_last() =~= s);
        assert(t.last() == f);
    } else {
        assert(t.drop_last() =~= s.drop_last().insert(k, f));
        assert(t.last() == s.last());
        lemma_insert_totals(s.drop_last(), k, f);
    }
}

/// In a store of well-formed fragments every fragment counts towards both
/// totals, and the allocations are at least the bytes carried.
pub proof fn lemma_totals_bounds(s: Seq<Fragment>)
    requires
        all_well_formed(s),
    ensures
        0 <= s.len() <= total_len(s) <= total_allocation(s),
        all_tight(s) ==> total_len(s) == total_allocation(s),
    decreases s.len(),
{
    if s.len() > 0 {
        let t = s.drop_last();
        assert forall|i: int| 0 <= i < t.len() implies (#[trigger] t[i]).well_formed() by {
            assert(s[i].well_formed());
        }
        assert(s.last().well_formed());
        if all_tight(s) {
            assert forall|i: int| 0 <= i < t.len() implies (#[trigger] t[i]).is_tight() by {
                assert(s[i].is_tight());
            }
            assert(s.last().is_tight());
        }
        lemma_totals_bounds(t);
    }
}

/// The first `n` fragments of a store carry no more than the store.
pub proof fn lemma_total_len_take(s: Seq<Fragment>, n: int)
    requires
        all_well_formed(s),
        0 <= n <= s.len(),
    ensures
        0 <= total_len(s.take(n)) <= total_len(s),
    decreases s.len() - n,
{
    if n == s.len() {
        assert(s.take(n) =~= s);
        lemma_totals_bounds(s);
    } else {
        let t = s.take(n + 1);
        assert(t.drop_last() =~= s.take(n));
        assert forall|i: int| 0 <= i < s.take(n).len() implies (#[trigger] s.take(n)[i]).well_formed() by {
            assert(s[i].well_formed());
        }
        lemma_totals_bounds(s.take(n));
        assert(t.last() == s[n]);
        assert(s[n].well_formed());
        lemma_total_len_take(s, n + 1);
    }
}

/// A fragment held at run time: an offset and a shared view of its bytes.
#[derive(Debug)]
pub struct Buffer {
    offset: u64,
    bytes: Bytes,
    size: usize,
    allocation_size: usize,
}

impl View for Buffer {
    type V = Fragment;

    closed spec fn view(&self) -> Fragment {
        Fragment {
            offset: self.offset as int,
            data: contents(self.bytes),
            allocation_size: self.allocation_size as int,
        }
    }
}

impl Buffer {
    /// What holds of every buffer in a store: the cached length is that of
    /// the view, and the fragment is well formed.
    pub closed spec fn well_formed(&self) -> bool {
        &&& self.size == contents(self.bytes).len()
        &&& self@.well_formed()
    }

    /// A well-formed buffer carries a well-formed fragment.
    pub proof fn lemma_well_formed(&self)
        requires
            self.well_formed(),
        ensures
            self@.well_formed(),
    {
    }

    /// A buffer for `bytes` at `offset`, sliced from an allocation of
    /// `allocation_size` bytes.
    pub fn new(offset: u64, bytes: Bytes, allocation_size: usize) -> (b: Buffer)
        requires
            0 < contents(bytes).len() <= allocation_size,
            offset + contents(bytes).len() <= u64::MAX,
        ensures
            b.well_formed(),
            b@ == (Fragment {
                offset: offset as int,
                data: contents(bytes),
                allocation_size: allocation_size as int,
            }),
    {
        let size = crate::payload::len(&bytes);
        Buffer { offset, bytes, size, allocation_size }
    }

    /// A buffer for `bytes` at `offset`, sliced from an allocation of
    /// `allocation_size` bytes, if that is a well-formed fragment: bytes,
    /// at least one, that fit in their allocation and end at a stream
    /// offset.
    pub fn try_new(offset: u64, bytes: Bytes, allocation_size: usize) -> (b: Option<Buffer>)
        ensures
            b is Some <==> 0 < contents(bytes).len() <= allocation_size && offset + contents(
                bytes,
            ).len() <= u64::MAX,
            b matches Some(b) ==> b.well_formed() && b@ == (Fragment {
                offset: offset as int,
                data: contents(bytes),
                allocation_size: allocation_size as int,
            }),
    {
        let size = crate::payload::len(&bytes);
        if size == 0 || size > allocation_size || size as u64 > u64::MAX - offset {
            None
        } else {
            Some(Buffer { offset, bytes, size, allocation_size })
        }
    }

    /// Position of the first byte in the stream.
    pub fn offset(&self) -> (r: u64)
        ensures
            r == self@.offset,
    {
        self.offset
    }

    /// Number of bytes carried.
    pub fn size(&self) -> (r: usize)
        requires
            self.well_formed(),
        ensures
            r == self@.len(),
    {
        self.size
    }

    /// Size of the allocation that the bytes are a view into.
    pub fn allocation_size(&self) -> (r: usize)
        ensures
            r == self@.allocation_size,
    {
        self.allocation_size
    }

    /// The bytes carried.
    pub fn bytes(&self) -> (r: &Bytes)
        ensures
            contents(*r) == self@.data,
    {
        &self.bytes
    }

    /// Gives up the buffer for its parts: offset, bytes, allocation size.
    pub fn into_parts(self) -> (r: (u64, Bytes, usize))
        ensures
            r.0 == self@.offset,
            contents(r.1) == self@.data,
            r.2 == self@.allocation_size,
    {
        (self.offset, self.bytes, self.allocation_size)
    }

    /// Drops the bytes before stream position `at`.
    pub fn advance_to(&mut self, at: u64)
        requires
            old(self).well_formed(),
            old(self)@.offset <= at < old(self)@.end(),
        ensures
            final(self).well_formed(),
            final(self)@ == old(self)@.from(at as int),
    {
        let cnt = (at - self.offset) as usize;
        crate::payload::advance(&mut self.bytes, cnt);
        self.offset = at;
        self.size = self.size - cnt;
    }

    /// Splits off the first `len` bytes and keeps the rest, which stays a
    /// view into the same allocation.
    pub fn split_front(&mut self, len: usize) -> (head: Bytes)
        requires
            old(self).well_formed(),
            len < old(self)@.len(),
        ensures
            final(self).well_formed(),
            final(self)@ == old(self)@.from(old(self)@.offset + len),
            contents(head) == old(self)@.data.take(len as int),
    {
        let head = crate::payload::split_to(&mut self.bytes, len);
        self.offset = self.offset + len as u64;
        self.size = self.size - len;
        head
    }

    /// Whether this buffer is read before `other`: it starts earlier, or at
    /// the same offset and is longer.
    pub fn reads_before(&self, other: &Buffer) -> (r: bool)
        requires
            self.well_formed(),
            other.well_formed(),
        ensures
            r == self@.reads_before(other@),
    {
        self.offset < other.offset || (self.offset == other.offset && self.size > other.size)
    }
}

} // verus!
