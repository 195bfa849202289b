//! What defragmentation makes of a store.
//!
//! The fragments are taken in read order. Tight ones go back as they are.
//! Wasteful ones are copied into a window: a run of bytes that grows while
//! the next wasteful fragment overlaps or abuts it, and that becomes one
//! tight fragment when a gap or a tight fragment ends it.

use crate::fragment::{
    agree, all_tight, all_well_formed, apart, covered, in_read_order, lemma_drop_last_covered,
    lemma_insert_agree, lemma_insert_covered, lemma_insert_keeps_order, lemma_insert_totals,
    lemma_insert_well_formed, lemma_rank_bounds, placed, rank, total_len, Fragment,
};
use vstd::prelude::*;

verus! {

/// Defragmentation under way: the fragments put back so far, and the window
/// that is being filled. A window without bytes is no window.
pub struct Window {
    /// The store that is being built.
    pub out: Seq<Fragment>,
    /// Stream position of the window's first byte.
    pub offset: int,
    /// The bytes copied into the window so far.
    pub scratch: Seq<u8>,
}

impl Window {
    /// Nothing put back, and no window.
    pub open spec fn start() -> Window {
        Window { out: Seq::empty(), offset: 0, scratch: Seq::empty() }
    }

    /// Position just past the window's last byte.
    pub open spec fn end(self) -> int {
        self.offset + self.scratch.len()
    }

    /// The window as the tight fragment that it becomes when it is flushed.
    pub open spec fn pending(self) -> Fragment {
        Fragment {
            offset: self.offset,
            data: self.scratch,
            allocation_size: self.scratch.len() as int,
        }
    }

    /// The store with the window, if there is one, put in as a fragment.
    pub open spec fn flushed(self) -> Seq<Fragment> {
        if self.scratch.len() == 0 {
            self.out
        } else {
            placed(self.out, self.pending())
        }
    }

    /// The state after the fragment `f` is taken in.
    pub open spec fn step(self, f: Fragment) -> Window {
        if f.is_tight() {
            Window { out: placed(self.flushed(), f), offset: self.offset, scratch: Seq::empty() }
        } else if self.scratch.len() > 0 && f.offset <= self.end() {
            let overlap = self.end() - f.offset;
            let fresh = if overlap < f.len() {
                f.data.skip(overlap)
            } else {
                Seq::empty()
            };
            Window { out: self.out, offset: self.offset, scratch: self.scratch + fresh }
        } else {
            Window { out: self.flushed(), offset: f.offset, scratch: f.data }
        }
    }

    /// What holds between steps: the store being built holds tight,
    /// well-formed fragments in read order, and the window ends at a stream
    /// offset.
    pub open spec fn well_formed(self) -> bool {
        &&& all_well_formed(self.out)
        &&& all_tight(self.out)
        &&& in_read_order(self.out)
        &&& 0 <= self.offset
        &&& self.end() <= u64::MAX
        &&& self.scratch.len() <= usize::MAX
    }

    /// The stream positions that the store being built and the window carry.
    pub open spec fn covered(self) -> Set<int> {
        covered(self.out).union(self.pending().span())
    }

    /// Whether the store being built and the window carry the bytes of
    /// `stream`.
    pub open spec fn agrees_with(self, stream: Seq<u8>) -> bool {
        &&& agree(self.out, stream)
        &&& self.scratch.len() > 0 ==> self.pending().agrees_with(stream)
    }

    /// Bytes carried by the store being built and the window.
    pub open spec fn weight(self) -> int {
        total_len(self.out) + self.scratch.len()
    }
}

/// The state after the fragments of `frags` are taken in, the last one
/// first.
pub open spec fn compacted(frags: Seq<Fragment>, w: Window) -> Window
    decreases frags.len(),
{
    if frags.len() == 0 {
        w
    } else {
        compacted(frags.drop_last(), w.step(frags.last()))
    }
}

/// The store that defragmentation makes of `store`.
pub open spec fn defragmented(store: Seq<Fragment>) -> Seq<Fragment> {
    compacted(store, Window::start()).flushed()
}

/// Flushing the window keeps what is carried, and leaves tight,
/// well-formed fragments in read order.
pub proof fn lemma_flushed(w: Window)
    requires
        w.well_formed(),
    ensures
        all_well_formed(w.flushed()),
        all_tight(w.flushed()),
        in_read_order(w.flushed()),
        covered(w.flushed()) == w.covered(),
        total_len(w.flushed()) == w.weight(),
        forall|stream: Seq<u8>| w.agrees_with(stream) ==> #[trigger] agree(w.flushed(), stream),
{
    if w.scratch.len() == 0 {
        assert(w.pending().span() =~= Set::<int>::empty());
        assert(w.covered() =~= covered(w.out));
    } else {
        let p = w.pending();
        lemma_rank_bounds(w.out, p);
        let k = rank(w.out, p);
        lemma_insert_keeps_order(w.out, p);
        lemma_insert_well_formed(w.out, k, p);
        lemma_insert_covered(w.out, k, p);
        lemma_insert_totals(w.out, k, p);
        assert forall|stream: Seq<u8>| w.agrees_with(stream) implies #[trigger] agree(
            w.flushed(),
            stream,
        ) by {
            lemma_insert_agree(w.out, k, p, stream);
        }
    }
}

/// One step keeps the state well formed, adds what the fragment covers,
/// keeps agreement with any stream, and adds no more than the fragment's
/// bytes.
pub proof fn lemma_step(w: Window, f: Fragment)
    requires
        w.well_formed(),
        f.well_formed(),
        w.scratch.len() > 0 ==> w.offset <= f.offset,
        w.weight() + f.len() <= usize::MAX,
    ensures
        w.step(f).well_formed(),
        w.step(f).covered() == w.covered().union(f.span()),
        w.step(f).weight() <= w.weight() + f.len(),
        w.step(f).scratch.len() > 0 ==> w.step(f).offset <= f.offset,
        forall|stream: Seq<u8>|
            w.agrees_with(stream) && f.agrees_with(stream) ==> #[trigger] w.step(f).agrees_with(
                stream,
            ),
{
    let r = w.step(f);
    lemma_flushed(w);
    crate::fragment::lemma_totals_bounds(w.out);
    if f.is_tight() {
        let g = w.flushed();
        lemma_rank_bounds(g, f);
        let k = rank(g, f);
        lemma_insert_keeps_order(g, f);
        lemma_insert_well_formed(g, k, f);
        lemma_insert_covered(g, k, f);
        lemma_insert_totals(g, k, f);
        assert(r.pending().span() =~= Set::<int>::empty());
        assert(r.covered() =~= w.covered().union(f.span()));
        assert forall|stream: Seq<u8>|
            w.agrees_with(stream) && f.agrees_with(stream) implies #[trigger] r.agrees_with(
            stream,
        ) by {
            lemma_insert_agree(g, k, f, stream);
        }
    } else if w.scratch.len() > 0 && f.offset <= w.end() {
        let overlap = w.end() - f.offset;
        assert(r.pending().span() =~= w.pending().span().union(f.span()));
        assert(r.covered() =~= w.covered().union(f.span()));
        assert forall|stream: Seq<u8>|
            w.agrees_with(stream) && f.agrees_with(stream) implies #[trigger] r.agrees_with(
            stream,
        ) by {
            assert(r.scratch =~= stream.subrange(r.offset, r.end()));
        }
    } else {
        if w.scratch.len() == 0 {
            assert(w.pending().span() =~= Set::<int>::empty());
        }
        assert(r.pending().span() =~= f.span());
        assert(r.covered() =~= w.covered().union(f.span()));
        assert forall|stream: Seq<u8>|
            w.agrees_with(stream) && f.agrees_with(stream) implies #[trigger] r.agrees_with(
            stream,
        ) by {
            assert(r.pending().data == f.data);
        }
    }
}

/// Taking a store in keeps the state well formed, adds what the store
/// covers, keeps agreement with any stream, and adds no more than the
/// store's bytes.
pub proof fn lemma_compacted(frags: Seq<Fragment>, w: Window)
    requires
        w.well_formed(),
        all_well_formed(frags),
        in_read_order(frags),
        w.scratch.len() > 0 ==> forall|i: int|
            0 <= i < frags.len() ==> w.offset <= (#[trigger] frags[i]).offset,
        w.weight() + total_len(frags) <= usize::MAX,
    ensures
        compacted(frags, w).well_formed(),
        compacted(frags, w).covered() == w.covered().union(covered(frags)),
        compacted(frags, w).weight() <= w.weight() + total_len(frags),
        forall|stream: Seq<u8>|
            w.agrees_with(stream) && agree(frags, stream) ==> #[trigger] compacted(
                frags,
                w,
            ).agrees_with(stream),
    decreases frags.len(),
{
    if frags.len() == 0 {
        assert(covered(frags) =~= Set::<int>::empty());
        assert(w.covered().union(covered(frags)) =~= w.covered());
    } else {
        let f = frags.last();
        let rest = frags.drop_last();
        let v = w.step(f);
        assert(f.well_formed());
        assert forall|i: int| 0 <= i < rest.len() implies (#[trigger] rest[i]).well_formed() by {
            assert(frags[i].well_formed());
        }
        assert forall|i: int, j: int| 0 <= i < j < rest.len() implies !(#[trigger] rest[i]).reads_before(
            #[trigger] rest[j],
        ) by {
            assert(!frags[i].reads_before(frags[j]));
        }
        crate::fragment::lemma_totals_bounds(rest);
        lemma_step(w, f);
        assert forall|i: int| 0 <= i < rest.len() implies f.offset <= (#[trigger] rest[i]).offset by {
            assert(!frags[i].reads_before(frags[frags.len() - 1]));
        }
        lemma_compacted(rest, v);
        lemma_drop_last_covered(frags);
        assert(compacted(frags, w).covered() =~= w.covered().union(covered(frags)));
        assert forall|stream: Seq<u8>|
            w.agrees_with(stream) && agree(frags, stream) implies #[trigger] compacted(
            frags,
            w,
        ).agrees_with(stream) by {
            assert(f.agrees_with(stream));
            assert forall|i: int| 0 <= i < rest.len() implies (#[trigger] rest[i]).agrees_with(
                stream,
            ) by {
                assert(frags[i].agrees_with(stream));
            }
            assert(v.agrees_with(stream));
        }
    }
}

/// Taking in a store whose fragments lie apart, none of them before the end
/// of the window, drops no byte.
pub proof fn lemma_compacted_apart(frags: Seq<Fragment>, w: Window)
    requires
        w.well_formed(),
        all_well_formed(frags),
        in_read_order(frags),
        apart(frags),
        w.scratch.len() > 0 ==> forall|i: int|
            0 <= i < frags.len() ==> w.end() <= (#[trigger] frags[i]).offset,
        w.weight() + total_len(frags) <= usize::MAX,
    ensures
        compacted(frags, w).weight() == w.weight() + total_len(frags),
    decreases frags.len(),
{
    if frags.len() > 0 {
        let f = frags.last();
        let rest = frags.drop_last();
        let v = w.step(f);
        assert(f.well_formed());
        assert forall|i: int| 0 <= i < rest.len() implies (#[trigger] rest[i]).well_formed() by {
            assert(frags[i].well_formed());
        }
        assert forall|i: int, j: int| 0 <= i < j < rest.len() implies !(#[trigger] rest[i]).reads_before(
            #[trigger] rest[j],
        ) && rest[j].end() <= rest[i].offset by {
            assert(!frags[i].reads_before(frags[j]));
            assert(frags[j].end() <= frags[i].offset);
        }
        assert forall|i: int| 0 <= i < rest.len() implies f.end() <= (#[trigger] rest[i]).offset by {
            assert(frags[frags.len() - 1].end() <= frags[i].offset);
        }
        if w.scratch.len() > 0 {
            assert(w.end() <= frags[frags.len() - 1].offset);
        }
        crate::fragment::lemma_totals_bounds(rest);
        crate::fragment::lemma_totals_bounds(w.out);
        lemma_flushed(w);
        lemma_step(w, f);
        if f.is_tight() {
            let g = w.flushed();
            lemma_rank_bounds(g, f);
            lemma_insert_totals(g, rank(g, f), f);
        } else if w.scratch.len() > 0 && f.offset <= w.end() {
            assert(f.data.skip(0) =~= f.data);
        }
        assert(v.weight() == w.weight() + f.len());
        lemma_compacted_apart(rest, v);
    }
}

/// Taking in a store whose fragments lie apart, none of them before the end
/// of the window or of a fragment put back, leaves fragments that lie
/// apart.
pub proof fn lemma_compacted_keeps_apart(frags: Seq<Fragment>, w: Window)
    requires
        w.well_formed(),
        all_well_formed(frags),
        in_read_order(frags),
        apart(frags),
        apart(w.out),
        w.scratch.len() > 0 ==> forall|k: int|
            0 <= k < w.out.len() ==> (#[trigger] w.out[k]).end() <= w.offset,
        w.scratch.len() > 0 ==> forall|i: int|
            0 <= i < frags.len() ==> w.end() <= (#[trigger] frags[i]).offset,
        forall|k: int, i: int|
            0 <= k < w.out.len() && 0 <= i < frags.len() ==> (#[trigger] w.out[k]).end() <= (
            #[trigger] frags[i]).offset,
        w.weight() + total_len(frags) <= usize::MAX,
    ensures
        apart(compacted(frags, w).flushed()),
    decreases frags.len(),
{
    crate::fragment::lemma_totals_bounds(w.out);
    lemma_flushed(w);
    let g = w.flushed();
    if w.scratch.len() > 0 {
        crate::fragment::lemma_behind_is_disjoint(w.out, w.pending());
        crate::fragment::lemma_insert_keeps_apart(w.out, w.pending());
    }
    assert(apart(g));
    if frags.len() > 0 {
        let f = frags.last();
        let rest = frags.drop_last();
        let v = w.step(f);
        assert(f.well_formed());
        assert forall|i: int| 0 <= i < rest.len() implies (#[trigger] rest[i]).well_formed() by {
            assert(frags[i].well_formed());
        }
        assert forall|i: int, j: int| 0 <= i < j < rest.len() implies !(#[trigger] rest[i]).reads_before(
            #[trigger] rest[j],
        ) && rest[j].end() <= rest[i].offset by {
            assert(!frags[i].reads_before(frags[j]));
            assert(frags[j].end() <= frags[i].offset);
        }
        assert forall|i: int| 0 <= i < rest.len() implies f.end() <= (#[trigger] rest[i]).offset by {
            assert(frags[frags.len() - 1].end() <= frags[i].offset);
        }
        assert forall|k: int| 0 <= k < w.out.len() implies (#[trigger] w.out[k]).end()
            <= f.offset by {
            assert(w.out[k].end() <= frags[frags.len() - 1].offset);
        }
        assert forall|k: int, i: int| 0 <= k < w.out.len() && 0 <= i < rest.len() implies (
        #[trigger] w.out[k]).end() <= (#[trigger] rest[i]).offset by {
            assert(w.out[k].end() <= frags[i].offset);
        }
        if w.scratch.len() > 0 {
            assert(w.end() <= frags[frags.len() - 1].offset);
            assert forall|i: int| 0 <= i < rest.len() implies w.end() <= (#[trigger] rest[i]).offset by {
                assert(w.end() <= frags[i].offset);
            }
        }
        // Every fragment of the flushed store ends at or before `f` and
        // at or before what follows it.
        assert forall|k: int| 0 <= k < g.len() implies (#[trigger] g[k]).end() <= f.offset && (
        forall|i: int| 0 <= i < rest.len() ==> g[k].end() <= (#[trigger] rest[i]).offset) by {
            if w.scratch.len() > 0 {
                lemma_rank_bounds(w.out, w.pending());
                let r = rank(w.out, w.pending());
                if k < r {
                    assert(g[k] == w.out[k]);
                } else if k > r {
                    assert(g[k] == w.out[k - 1]);
                } else {
                    assert(g[k] == w.pending());
                }
            }
        }
        crate::fragment::lemma_totals_bounds(rest);
        lemma_step(w, f);
        if f.is_tight() {
            crate::fragment::lemma_behind_is_disjoint(g, f);
            crate::fragment::lemma_insert_keeps_apart(g, f);
            lemma_rank_bounds(g, f);
            let r = rank(g, f);
            assert forall|k: int, i: int| 0 <= k < v.out.len() && 0 <= i < rest.len() implies (
            #[trigger] v.out[k]).end() <= (#[trigger] rest[i]).offset by {
                if k < r {
                    assert(v.out[k] == g[k]);
                } else if k > r {
                    assert(v.out[k] == g[k - 1]);
                } else {
                    assert(v.out[k] == f);
                }
            }
        } else if w.scratch.len() > 0 && f.offset <= w.end() {
            assert(f.data.skip(0) =~= f.data);
            assert(v.end() == f.end());
        } else {
            assert(v.out == g);
        }
        lemma_compacted_keeps_apart(rest, v);
    }
}

/// Defragmentation of a store whose fragments lie apart leaves fragments
/// that lie apart.
pub proof fn lemma_defragmented_keeps_apart(store: Seq<Fragment>)
    requires
        all_well_formed(store),
        in_read_order(store),
        apart(store),
        total_len(store) <= usize::MAX,
    ensures
        apart(defragmented(store)),
{
    lemma_compacted_keeps_apart(store, Window::start());
}

/// Defragmentation of a store whose fragments lie apart drops no byte.
pub proof fn lemma_defragmented_apart(store: Seq<Fragment>)
    requires
        all_well_formed(store),
        in_read_order(store),
        apart(store),
        total_len(store) <= usize::MAX,
    ensures
        total_len(defragmented(store)) == total_len(store),
{
    let w = Window::start();
    lemma_compacted(store, w);
    lemma_compacted_apart(store, w);
    lemma_flushed(compacted(store, w));
}

/// Defragmentation leaves tight, well-formed fragments in read order that
/// cover what the store covered, carry no more bytes, and agree with every
/// stream that the store agreed with.
pub proof fn lemma_defragmented(store: Seq<Fragment>)
    requires
        all_well_formed(store),
        in_read_order(store),
        total_len(store) <= usize::MAX,
    ensures
        all_well_formed(defragmented(store)),
        all_tight(defragmented(store)),
        in_read_order(defragmented(store)),
        covered(defragmented(store)) == covered(store),
        total_len(defragmented(store)) <= total_len(store),
        forall|stream: Seq<u8>| agree(store, stream) ==> #[trigger] agree(defragmented(store), stream),
{
    let w = Window::start();
    assert(w.pending().span() =~= Set::<int>::empty());
    assert(covered(w.out) =~= Set::<int>::empty());
    lemma_compacted(store, w);
    let r = compacted(store, w);
    lemma_flushed(r);
    assert(w.covered().union(covered(store)) =~= covered(store));
    assert forall|stream: Seq<u8>| agree(store, stream) implies #[trigger] agree(
        defragmented(store),
        stream,
    ) by {
        assert(w.agrees_with(stream));
        assert(r.agrees_with(stream));
    }
}

} // verus!
