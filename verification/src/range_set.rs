//! A set of stream offsets, kept as disjoint half-open ranges.

use vstd::prelude::*;

verus! {

/// The offsets from `start` up to, not including, `end`.
pub open spec fn interval(start: int, end: int) -> Set<int> {
    Set::new(|at: int| start <= at < end)
}

/// Whether `at` lies in the half-open range `r`.
pub open spec fn within(r: (u64, u64), at: int) -> bool {
    r.0 <= at < r.1
}

/// The offsets that lie in at least one range of `rs`.
pub open spec fn union_of(rs: Seq<(u64, u64)>) -> Set<int> {
    Set::new(|at: int| exists|i: int| 0 <= i < rs.len() && within(#[trigger] rs[i], at))
}

/// Whether the ranges of `rs` are not empty, ascend, and leave at least one
/// offset out between each and the next. Such a list is the one way to write
/// its union: each range is a maximal run of offsets.
pub open spec fn separated(rs: Seq<(u64, u64)>) -> bool {
    &&& forall|i: int| 0 <= i < rs.len() ==> (#[trigger] rs[i]).0 < rs[i].1
    &&& forall|i: int, j: int| 0 <= i < j < rs.len() ==> (#[trigger] rs[i]).1 < (#[trigger] rs[j]).0
}

/// A set of `u64` offsets.
#[derive(Debug)]
pub struct RangeSet {
    ranges: Vec<(u64, u64)>,
}

impl View for RangeSet {
    type V = Set<int>;

    closed spec fn view(&self) -> Set<int> {
        union_of(self.ranges@)
    }
}

impl RangeSet {
    /// The set's invariant: its ranges are separated.
    pub closed spec fn well_formed(&self) -> bool {
        separated(self.ranges@)
    }

    /// The empty set.
    pub fn new() -> (s: RangeSet)
        ensures
            s.well_formed(),
            s@ == Set::<int>::empty(),
    {
        let s = RangeSet { ranges: Vec::new() };
        assert(s@ =~= Set::<int>::empty());
        s
    }

    /// Adds the offsets from `start` up to, not including, `end`.
    pub fn insert(&mut self, start: u64, end: u64)
        requires
            old(self).well_formed(),
        ensures
            final(self).well_formed(),
            final(self)@ == old(self)@.union(interval(start as int, end as int)),
    {
        let _ = self.replace(start, end);
    }

    /// Adds the offsets from `start` up to, not including, `end`, and
    /// returns those of them that the set held before, as separated ranges.
    pub fn replace(&mut self, start: u64, end: u64) -> (overlaps: Vec<(u64, u64)>)
        requires
            old(self).well_formed(),
        ensures
            final(self).well_formed(),
            final(self)@ == old(self)@.union(interval(start as int, end as int)),
            separated(overlaps@),
            union_of(overlaps@) == old(self)@.intersect(interval(start as int, end as int)),
    {
        let mut overlaps: Vec<(u64, u64)> = Vec::new();
        if start >= end {
            assert(self@.union(interval(start as int, end as int)) =~= self@);
            assert(union_of(overlaps@) =~= self@.intersect(interval(start as int, end as int)));
            return overlaps;
        }
        let ghost before = self.ranges@;
        let n = self.ranges.len();
        let mut out: Vec<(u64, u64)> = Vec::new();
        let mut i: usize = 0;
        // The ranges that end before `start` and do not touch it stay.
        while i < n && self.ranges[i].1 < start
            invariant
                self.ranges@ == before,
                n == before.len(),
                separated(before),
                0 <= i <= n,
                out@ == before.take(i as int),
                forall|k: int| 0 <= k < i ==> (#[trigger] before[k]).1 < start,
            decreases n - i,
        {
            out.push(self.ranges[i]);
            assert(out@ =~= before.take(i + 1));
            i += 1;
        }
        let ghost a = i as int;
        let mut lo = start;
        let mut hi = end;
        // The ranges that meet or touch the new one are merged into it.
        while i < n && self.ranges[i].0 <= end
            invariant
                self.ranges@ == before,
                n == before.len(),
                separated(before),
                start < end,
                0 <= a <= i <= n,
                a < n ==> before[a].1 >= start,
                forall|k: int| a <= k < i ==> (#[trigger] before[k]).0 <= end,
                lo == if a < i && before[a].0 < start { before[a].0 } else { start },
                hi == if a < i && before[i - 1].1 > end { before[i - 1].1 } else { end },
                separated(overlaps@),
                forall|m: int| 0 <= m < overlaps@.len() ==> start <= (#[trigger] overlaps@[m]).0
                    && overlaps@[m].1 <= end,
                forall|m: int| 0 <= m < overlaps@.len() ==> a < i && (#[trigger] overlaps@[m]).1
                    <= before[i - 1].1,
                forall|at: int| #[trigger]
                    union_of(overlaps@).contains(at) <==> start <= at < end && exists|k: int|
                        a <= k < i && within(#[trigger] before[k], at),
            decreases n - i,
        {
            let r = self.ranges[i];
            assert(r == before[i as int]);
            assert(r.0 < r.1);
            assert(r.1 >= start) by {
                if a < i {
                    assert(before[a].1 < before[i as int].0);
                }
            }
            proof {
                if i > a {
                    assert(before[i - 1].1 < before[i as int].0);
                }
            }
            let from = if r.0 > start { r.0 } else { start };
            let to = if r.1 < end { r.1 } else { end };
            let ghost prior = overlaps@;
            if from < to {
                overlaps.push((from, to));
                proof {
                    let now = overlaps@;
                    assert forall|p: int, q: int| 0 <= p < q < now.len() implies (#[trigger] now[p]).1
                        < (#[trigger] now[q]).0 by {
                        if q == prior.len() {
                            assert(now[p] == prior[p]);
                        } else {
                            assert(now[p] == prior[p] && now[q] == prior[q]);
                        }
                    }
                    assert forall|m: int| 0 <= m < now.len() implies (#[trigger] now[m]).0
                        < now[m].1 by {
                        if m < prior.len() {
                            assert(now[m] == prior[m]);
                        }
                    }
                    assert forall|m: int| 0 <= m < now.len() implies start <= (#[trigger] now[m]).0
                        && now[m].1 <= end && now[m].1 <= before[i as int].1 by {
                        if m < prior.len() {
                            assert(now[m] == prior[m]);
                        }
                    }
                }
            }
            proof {
                let now = overlaps@;
                assert forall|at: int| #[trigger]
                    union_of(now).contains(at) <==> start <= at < end && exists|k: int|
                        a <= k < i + 1 && within(#[trigger] before[k], at) by {
                    if union_of(now).contains(at) {
                        let m = choose|m: int| 0 <= m < now.len() && within(#[trigger] now[m], at);
                        if m < prior.len() {
                            assert(now[m] == prior[m]);
                            assert(within(prior[m], at));
                            assert(union_of(prior).contains(at));
                            let k = choose|k: int| a <= k < i && within(#[trigger] before[k], at);
                            assert(within(before[k], at));
                        } else {
                            assert(within(before[i as int], at));
                        }
                    }
                    if start <= at < end && exists|k: int|
                        a <= k < i + 1 && within(#[trigger] before[k], at) {
                        let k = choose|k: int| a <= k < i + 1 && within(#[trigger] before[k], at);
                        if k < i {
                            assert(union_of(prior).contains(at));
                            let m = choose|m: int|
                                0 <= m < prior.len() && within(#[trigger] prior[m], at);
                            assert(now[m] == prior[m]);
                            assert(within(now[m], at));
                        } else {
                            assert(from < to);
                            assert(within(now[now.len() - 1], at));
                        }
                    }
                }
            }
            if r.0 < lo {
                lo = r.0;
            }
            if r.1 > hi {
                hi = r.1;
            }
            i += 1;
        }
        let ghost b = i as int;
        out.push((lo, hi));
        // The ranges that start after `end` and do not touch it stay.
        while i < n
            invariant
                self.ranges@ == before,
                n == before.len(),
                0 <= b <= i <= n,
                out@ == before.take(a).push((lo, hi)) + before.subrange(b, i as int),
            decreases n - i,
        {
            out.push(self.ranges[i]);
            assert(out@ =~= before.take(a).push((lo, hi)) + before.subrange(b, i + 1));
            i += 1;
        }
        self.ranges = out;
        proof {
            let after = self.ranges@;
            assert(after.len() == a + 1 + (n - b));
            assert(after[a] == (lo, hi));
            assert forall|k: int| 0 <= k < a implies #[trigger] after[k] == before[k] by {}
            assert forall|k: int| a < k < after.len() implies #[trigger] after[k] == before[k - a
                - 1 + b] by {}
            assert(b < n ==> before[b].0 > end);
            if a < b {
                assert(before[a].0 <= end);
                if b < n {
                    assert(before[b - 1].1 < before[b].0);
                }
            }
            assert forall|k: int| 0 <= k < after.len() implies (#[trigger] after[k]).0
                < after[k].1 by {
                if k < a {
                    assert(before[k].0 < before[k].1);
                } else if k > a {
                    assert(before[k - a - 1 + b].0 < before[k - a - 1 + b].1);
                }
            }
            assert forall|p: int, q: int| 0 <= p < q < after.len() implies (#[trigger] after[p]).1
                < (#[trigger] after[q]).0 by {
                let pp = if p < a { p } else { p - a - 1 + b };
                let qq = if q < a { q } else { q - a - 1 + b };
                if p < a {
                    assert(before[p].1 < start);
                    if a < b {
                        assert(before[p].1 < before[a].0);
                    }
                }
                if q > a {
                    if b < qq {
                        assert(before[b].1 < before[qq].0);
                    }
                }
                if p != a && q != a {
                    assert(before[pp].1 < before[qq].0);
                }
            }
            assert forall|at: int| #[trigger]
                union_of(after).contains(at) <==> union_of(before).contains(at) || start <= at
                    < end by {
                if union_of(after).contains(at) {
                    let k = choose|k: int| 0 <= k < after.len() && within(#[trigger] after[k], at);
                    if k < a {
                        assert(within(before[k], at));
                    } else if k > a {
                        assert(within(before[k - a - 1 + b], at));
                    } else {
                        if at < start {
                            assert(within(before[a], at));
                        } else if at >= end {
                            assert(within(before[b - 1], at));
                        }
                    }
                }
                if union_of(before).contains(at) {
                    let k = choose|k: int| 0 <= k < before.len() && within(#[trigger] before[k], at);
                    if k < a {
                        assert(within(after[k], at));
                    } else if k >= b {
                        assert(within(after[k - b + a + 1], at));
                    } else {
                        if a < k {
                            assert(before[a].1 < before[k].0);
                        }
                        if k < b - 1 {
                            assert(before[k].1 < before[b - 1].0);
                        }
                        assert(within(after[a], at));
                    }
                }
                if start <= at < end {
                    assert(within(after[a], at));
                }
            }
            assert(self@ =~= old(self)@.union(interval(start as int, end as int)));
            assert forall|at: int| #[trigger]
                union_of(overlaps@).contains(at) <==> union_of(before).contains(at) && start <= at
                    < end by {
                if union_of(before).contains(at) && start <= at < end {
                    let k = choose|k: int| 0 <= k < before.len() && within(#[trigger] before[k], at);
                    if k < a {
                        assert(before[k].1 < start);
                    } else if k >= b {
                        if b < k {
                            assert(before[b].1 < before[k].0);
                        }
                    }
                    assert(a <= k < b && within(before[k], at));
                }
                if union_of(overlaps@).contains(at) {
                    let k = choose|k: int| a <= k < b && within(#[trigger] before[k], at);
                    assert(within(before[k], at));
                }
            }
            assert(union_of(overlaps@) =~= old(self)@.intersect(
                interval(start as int, end as int),
            ));
        }
        overlaps
    }
}

} // verus!
