//! The fragment store: a priority queue of buffers in read order.

use crate::fragment::{
    all_well_formed, in_read_order, lemma_insert_keeps_order, lemma_rank_unique, placed, Buffer,
    Fragment,
};
use std::collections::VecDeque;
use vstd::prelude::*;

verus! {

/// A queue of buffers from which the fragment with the lowest offset is read
/// first, and of two at one offset the longer.
///
/// The buffers are kept sorted, the next to be read last, so that reading
/// takes from the back and a fragment that arrives in stream order goes to
/// the front.
#[derive(Debug)]
pub struct Store {
    items: VecDeque<Buffer>,
}

impl View for Store {
    type V = Seq<Fragment>;

    closed spec fn view(&self) -> Seq<Fragment> {
        self.items@.map_values(|b: Buffer| b@)
    }
}

impl Store {
    /// The store's invariant: every buffer is well formed, and they stand in
    /// read order.
    pub closed spec fn well_formed(&self) -> bool {
        &&& forall|i: int| 0 <= i < self.items@.len() ==> (#[trigger] self.items@[i]).well_formed()
        &&& in_read_order(self@)
    }

    /// A well-formed store holds well-formed fragments in read order.
    pub proof fn lemma_well_formed(&self)
        requires
            self.well_formed(),
        ensures
            all_well_formed(self@),
            in_read_order(self@),
    {
        assert forall|i: int| 0 <= i < self@.len() implies (#[trigger] self@[i]).well_formed() by {
            self.items@[i].lemma_well_formed();
        }
    }

    /// An empty store.
    pub fn new() -> (s: Store)
        ensures
            s.well_formed(),
            s@ == Seq::<Fragment>::empty(),
    {
        let s = Store { items: VecDeque::new() };
        assert(s@ =~= Seq::<Fragment>::empty());
        s
    }

    /// Number of buffers held.
    pub fn len(&self) -> (n: usize)
        ensures
            n == self@.len(),
    {
        self.items.len()
    }

    /// The buffer at index `i`, counted from the one that is read last.
    pub fn get(&self, i: usize) -> (b: &Buffer)
        requires
            self.well_formed(),
            i < self@.len(),
        ensures
            b.well_formed(),
            b@ == self@[i as int],
    {
        &self.items[i]
    }

    /// The buffer that is read next, if there is one.
    pub fn peek(&self) -> (top: Option<&Buffer>)
        requires
            self.well_formed(),
        ensures
            top is None <==> self@.len() == 0,
            top matches Some(b) ==> b.well_formed() && b@ == self@.last(),
    {
        let n = self.items.len();
        if n == 0 {
            None
        } else {
            Some(&self.items[n - 1])
        }
    }

    /// Takes out the buffer that is read next, if there is one.
    pub fn pop(&mut self) -> (top: Option<Buffer>)
        requires
            old(self).well_formed(),
        ensures
            final(self).well_formed(),
            top is None <==> old(self)@.len() == 0,
            top is None ==> final(self)@ == old(self)@,
            top matches Some(b) ==> b.well_formed() && b@ == old(self)@.last() && final(self)@
                == old(self)@.drop_last(),
    {
        let ghost before = self@;
        let top = self.items.pop_back();
        proof {
            if top is Some {
                assert(self@ =~= before.drop_last());
                assert forall|i: int, j: int| 0 <= i < j < self@.len() implies !(
                #[trigger] self@[i]).reads_before(#[trigger] self@[j]) by {
                    assert(self@[i] == before[i]);
                    assert(self@[j] == before[j]);
                }
            } else {
                assert(self@ =~= before);
            }
        }
        top
    }

    /// Puts `b` in its place in the read order.
    pub fn push(&mut self, b: Buffer)
        requires
            old(self).well_formed(),
            b.well_formed(),
        ensures
            final(self).well_formed(),
            final(self)@ == placed(old(self)@, b@),
    {
        let ghost before = self@;
        let mut lo: usize = 0;
        let mut hi: usize = self.items.len();
        while lo < hi
            invariant
                self.well_formed(),
                b.well_formed(),
                self@ == before,
                0 <= lo <= hi <= before.len(),
                forall|i: int| 0 <= i < lo ==> b@.reads_before(#[trigger] before[i]),
                forall|i: int| hi <= i < before.len() ==> !b@.reads_before(#[trigger] before[i]),
            decreases hi - lo,
        {
            let mid = lo + (hi - lo) / 2;
            assert(before[mid as int] == self.items@[mid as int]@);
            if b.reads_before(&self.items[mid]) {
                assert forall|i: int| 0 <= i < mid + 1 implies b@.reads_before(
                    #[trigger] before[i],
                ) by {
                    if i < mid {
                        assert(!before[i].reads_before(before[mid as int]));
                    }
                }
                lo = mid + 1;
            } else {
                assert forall|i: int| mid <= i < before.len() implies !b@.reads_before(
                    #[trigger] before[i],
                ) by {
                    if mid < i {
                        assert(!before[mid as int].reads_before(before[i]));
                    }
                }
                hi = mid;
            }
        }
        proof {
            lemma_rank_unique(before, b@, lo as int);
        }
        self.items.insert(lo, b);
        proof {
            assert(self@ =~= before.insert(lo as int, b@));
            lemma_insert_keeps_order(before, b@);
            assert forall|i: int| 0 <= i < self.items@.len() implies (
            #[trigger] self.items@[i]).well_formed() by {
                if i < lo {
                    assert(self.items@[i] == old(self).items@[i]);
                } else if i > lo {
                    assert(self.items@[i] == old(self).items@[i - 1]);
                }
            }
        }
    }

    /// Drops every buffer.
    pub fn clear(&mut self)
        ensures
            final(self).well_formed(),
            final(self)@ == Seq::<Fragment>::empty(),
    {
        self.items.clear();
        assert(self@ =~= Seq::<Fragment>::empty());
    }
}

} // verus!
