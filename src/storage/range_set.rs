use vstd::prelude::*;
use vstd::set_lib::{lemma_int_range, lemma_len_subset, lemma_set_disjoint_lens, set_int_range};

use std::ops::Range;

verus! {

/// The boundary list `[lo0, hi0, lo1, hi1, ...]` of a set of half-open ranges, kept in a
/// `range_collections::RangeSet2`.
#[verifier::external_body]
pub struct Boundaries {
    set: range_collections::RangeSet2<usize>,
}

/// The boundaries that a [`Boundaries`] holds, in order.
pub uninterp spec fn range_bounds(s: Boundaries) -> Seq<usize>;

/// Strictly increasing boundaries of bounded ranges.
pub open spec fn canonical_bounds(b: Seq<usize>) -> bool {
    &&& b.len() % 2 == 0
    &&& forall|i: int, j: int| 0 <= i < j < b.len() ==> b[i] < b[j]
}

/// The ranges `[b[2i], b[2i+1])` of a boundary list.
pub open spec fn ranges_of(b: Seq<usize>) -> Seq<Range<usize>> {
    Seq::new((b.len() / 2) as nat, |i: int| Range { start: b[2 * i], end: b[2 * i + 1] })
}

/// Non-empty ranges, strictly increasing, with a gap between neighbours.
pub open spec fn is_canonical(rs: Seq<Range<usize>>) -> bool {
    &&& forall|i: int| 0 <= i < rs.len() ==> (#[trigger] rs[i]).start < rs[i].end
    &&& forall|i: int, j: int| 0 <= i < j < rs.len() ==> (#[trigger] rs[i]).end < (#[trigger] rs[j]).start
}

/// The points that a sequence of ranges covers.
pub open spec fn covered(rs: Seq<Range<usize>>) -> Set<int> {
    Set::new(|x: int| exists|i: int| 0 <= i < rs.len() && (#[trigger] rs[i]).start <= x < rs[i].end)
}

/// The sum of the widths of a sequence of ranges.
pub open spec fn width(rs: Seq<Range<usize>>) -> int
    decreases rs.len(),
{
    if rs.len() == 0 {
        0
    } else {
        width(rs.drop_last()) + (rs.last().end - rs.last().start)
    }
}

/// The points of `[lo, hi)`.
pub open spec fn span(r: Range<usize>) -> Set<int> {
    set_int_range(r.start as int, r.end as int)
}

/// Relies on range_collections::RangeSet::empty: no boundaries.
#[verifier::external_body]
fn bounds_empty() -> (r: Boundaries)
    ensures
        range_bounds(r) == Seq::<usize>::empty(),
{
    Boundaries { set: range_collections::RangeSet2::empty() }
}

/// Relies on range_collections::RangeSet::from(Range): `[lo, hi]`, or nothing when the
/// range is empty.
#[verifier::external_body]
fn bounds_from_range(lo: usize, hi: usize) -> (r: Boundaries)
    ensures
        range_bounds(r) == if lo < hi {
            seq![lo, hi]
        } else {
            Seq::<usize>::empty()
        },
{
    Boundaries { set: range_collections::RangeSet2::from(lo..hi) }
}

/// Relies on range_collections::RangeSetRef::difference: the points of `a` not in `b`,
/// as strictly sorted boundaries.
#[verifier::external_body]
fn bounds_difference(a: &Boundaries, b: &Boundaries) -> (r: Boundaries)
    requires
        canonical_bounds(range_bounds(*a)),
        canonical_bounds(range_bounds(*b)),
    ensures
        canonical_bounds(range_bounds(r)),
        covered(ranges_of(range_bounds(r))) == covered(ranges_of(range_bounds(*a))).difference(
            covered(ranges_of(range_bounds(*b))),
        ),
{
    Boundaries { set: a.set.difference(&b.set) }
}

/// Relies on range_collections::RangeSet::union_with: the points of either, as strictly
/// sorted boundaries.
#[verifier::external_body]
fn bounds_union_with(a: &mut Boundaries, b: &Boundaries)
    requires
        canonical_bounds(range_bounds(*old(a))),
        canonical_bounds(range_bounds(*b)),
    ensures
        canonical_bounds(range_bounds(*final(a))),
        covered(ranges_of(range_bounds(*final(a)))) == covered(ranges_of(range_bounds(*old(a)))).union(
            covered(ranges_of(range_bounds(*b))),
        ),
{
    a.set.union_with(&b.set)
}

/// Relies on range_collections::RangeSetRef::boundaries: the boundary list.
#[verifier::external_body]
fn bounds_to_vec(a: &Boundaries) -> (r: Vec<usize>)
    ensures
        r@ == range_bounds(*a),
{
    a.set.boundaries().to_vec()
}

/// Relies on the `Clone` of range_collections::RangeSet: the same boundaries.
#[verifier::external_body]
fn bounds_clone(a: &Boundaries) -> (r: Boundaries)
    ensures
        range_bounds(r) == range_bounds(*a),
{
    Boundaries { set: a.set.clone() }
}

/// Canonical boundaries give canonical ranges.
pub proof fn lemma_ranges_of_canonical(b: Seq<usize>)
    requires
        canonical_bounds(b),
    ensures
        is_canonical(ranges_of(b)),
        ranges_of(b).len() * 2 == b.len(),
{
    let rs = ranges_of(b);
    assert forall|i: int, j: int| 0 <= i < j < rs.len() implies (#[trigger] rs[i]).end < (#[trigger] rs[j]).start by {
        assert(b[2 * i + 1] < b[2 * j]);
    }
}

/// The points of canonical ranges are as many as their widths add up to.
pub proof fn lemma_covered_len(rs: Seq<Range<usize>>)
    requires
        is_canonical(rs),
    ensures
        covered(rs).finite(),
        covered(rs).len() == width(rs),
        width(rs) >= 0,
    decreases rs.len(),
{
    if rs.len() == 0 {
        assert(covered(rs) =~= Set::<int>::empty());
    } else {
        let init = rs.drop_last();
        let last = rs.last();
        assert(is_canonical(init)) by {
            assert forall|i: int, j: int| 0 <= i < j < init.len() implies (#[trigger] init[i]).end < (#[trigger] init[j]).start by {
                assert(init[i] == rs[i] && init[j] == rs[j]);
            }
            assert forall|i: int| 0 <= i < init.len() implies (#[trigger] init[i]).start < init[i].end by {
                assert(init[i] == rs[i]);
            }
        }
        lemma_covered_len(init);
        lemma_int_range(last.start as int, last.end as int);
        assert(covered(rs) =~= covered(init) + span(last)) by {
            assert forall|x: int| covered(rs).contains(x) implies (covered(init) + span(last)).contains(x) by {
                let i = choose|i: int| 0 <= i < rs.len() && (#[trigger] rs[i]).start <= x < rs[i].end;
                if i < rs.len() - 1 {
                    assert(init[i] == rs[i]);
                }
            }
            assert forall|x: int| (covered(init) + span(last)).contains(x) implies covered(rs).contains(x) by {
                if covered(init).contains(x) {
                    let i = choose|i: int| 0 <= i < init.len() && (#[trigger] init[i]).start <= x < init[i].end;
                    assert(rs[i] == init[i]);
                } else {
                    assert(rs[rs.len() - 1] == last);
                }
            }
        }
        assert(covered(init).disjoint(span(last))) by {
            assert forall|x: int| covered(init).contains(x) implies !span(last).contains(x) by {
                let i = choose|i: int| 0 <= i < init.len() && (#[trigger] init[i]).start <= x < init[i].end;
                assert(rs[i] == init[i]);
                assert(rs[i].end < rs[rs.len() - 1].start);
            }
        }
        lemma_set_disjoint_lens(covered(init), span(last));
    }
}

/// Canonical ranges of `usize` points are at most `usize::MAX` wide.
pub proof fn lemma_width_bound(rs: Seq<Range<usize>>)
    requires
        is_canonical(rs),
    ensures
        0 <= width(rs) <= usize::MAX,
{
    lemma_covered_len(rs);
    lemma_int_range(0, usize::MAX as int);
    assert(covered(rs).subset_of(set_int_range(0, usize::MAX as int)));
    lemma_len_subset(covered(rs), set_int_range(0, usize::MAX as int));
}

/// An ordered set of non-overlapping byte ranges with the total width of its ranges.
pub struct RangeSet {
    ranges: Boundaries,
    len: usize,
}

impl RangeSet {
    /// The ranges, in canonical order.
    pub closed spec fn ranges(&self) -> Seq<Range<usize>> {
        ranges_of(range_bounds(self.ranges))
    }

    /// The well-formedness of a range set: canonical ranges whose widths add up to `len`.
    pub closed spec fn wf(&self) -> bool {
        &&& canonical_bounds(range_bounds(self.ranges))
        &&& self.len == width(ranges_of(range_bounds(self.ranges)))
    }

    /// The points covered by the ranges.
    pub open spec fn points(&self) -> Set<int> {
        covered(self.ranges())
    }

    pub open spec fn spec_len(&self) -> int {
        width(self.ranges())
    }

    /// Facts every well-formed range set satisfies.
    pub proof fn lemma_wf(&self)
        requires
            self.wf(),
        ensures
            is_canonical(self.ranges()),
            self.points().finite(),
            self.points().len() == self.spec_len(),
            0 <= self.spec_len() <= usize::MAX,
    {
        lemma_ranges_of_canonical(range_bounds(self.ranges));
        lemma_covered_len(self.ranges());
        lemma_width_bound(self.ranges());
    }

    /// The empty range set.
    pub fn new() -> (r: RangeSet)
        ensures
            r.wf(),
            r.ranges() == Seq::<Range<usize>>::empty(),
    {
        let r = RangeSet { ranges: bounds_empty(), len: 0 };
        assert(r.ranges() =~= Seq::<Range<usize>>::empty());
        r
    }

    /// Adds the points of `range`, returning the sub-ranges that were not covered before,
    /// in order.
    pub fn insert(&mut self, range: Range<usize>) -> (inc: Vec<Range<usize>>)
        requires
            old(self).wf(),
        ensures
            final(self).wf(),
            final(self).points() == old(self).points().union(span(range)),
            is_canonical(inc@),
            covered(inc@) == span(range).difference(old(self).points()),
            final(self).spec_len() == old(self).spec_len() + width(inc@),
            span(range).subset_of(old(self).points()) ==> inc@.len() == 0 && final(self).spec_len()
                == old(self).spec_len() && final(self).ranges() == old(self).ranges(),
    {
        proof {
            self.lemma_wf();
        }
        let r = bounds_from_range(range.start, range.end);
        proof {
            let rb = range_bounds(r);
            assert(covered(ranges_of(rb)) =~= span(range)) by {
                if range.start < range.end {
                    assert(ranges_of(rb)[0] == range);
                    assert forall|x: int| span(range).contains(x) implies covered(ranges_of(rb)).contains(x) by {
                        assert(ranges_of(rb)[0].start <= x < ranges_of(rb)[0].end);
                    }
                }
            }
        }
        let diff = bounds_difference(&r, &self.ranges);
        let b = bounds_to_vec(&diff);
        let ghost rs = ranges_of(b@);
        proof {
            lemma_ranges_of_canonical(b@);
            lemma_width_bound(rs);
        }
        let mut inc: Vec<Range<usize>> = Vec::new();
        let mut sum: usize = 0;
        let mut i: usize = 0;
        while i + 1 < b.len()
            invariant
                canonical_bounds(b@),
                rs == ranges_of(b@),
                is_canonical(rs),
                rs.len() * 2 == b@.len(),
                i % 2 == 0,
                i <= b@.len(),
                inc@ == rs.take((i / 2) as int),
                sum == width(inc@),
                width(rs) <= usize::MAX,
            decreases b@.len() - i,
        {
            let lo = b[i];
            let hi = b[i + 1];
            proof {
                assert(rs[(i / 2) as int] == Range { start: lo, end: hi });
                assert(rs.take((i / 2) as int + 1).drop_last() =~= rs.take((i / 2) as int));
                lemma_width_prefix(rs, (i / 2) as int + 1);
                lemma_width_take_le(rs, (i / 2) as int + 1);
            }
            inc.push(Range { start: lo, end: hi });
            sum = sum + (hi - lo);
            i = i + 2;
            assert(inc@ =~= rs.take((i / 2) as int));
        }
        assert(inc@ =~= rs);
        proof {
            lemma_covered_len(rs);
            let olds = self.points();
            assert(covered(rs) == span(range).difference(olds));
            assert(olds.disjoint(covered(rs)));
            lemma_set_disjoint_lens(olds, covered(rs));
            assert(olds + covered(rs) =~= olds.union(span(range)));
        }
        if inc.len() == 0 {
            // nothing new is covered: the ranges stay as they are
            proof {
                assert(covered(rs) =~= Set::<int>::empty());
                assert(self.points() =~= self.points().union(span(range))) by {
                    assert forall|x: int| span(range).contains(x) implies self.points().contains(x) by {
                        if !self.points().contains(x) {
                            assert(span(range).difference(self.points()).contains(x));
                        }
                    }
                }
                assert(width(inc@) == 0);
            }
            return inc;
        }
        bounds_union_with(&mut self.ranges, &r);
        proof {
            lemma_ranges_of_canonical(range_bounds(self.ranges));
            lemma_covered_len(ranges_of(range_bounds(self.ranges)));
            lemma_width_bound(ranges_of(range_bounds(self.ranges)));
        }
        self.len = self.len + sum;
        proof {
            if span(range).subset_of(old(self).points()) && inc@.len() > 0 {
                let x = inc@[0].start as int;
                assert(inc@[0].start < inc@[0].end);
                assert(covered(inc@).contains(x));
            }
        }
        inc
    }

    /// The total width of the ranges.
    pub fn len(&self) -> (r: usize)
        requires
            self.wf(),
        ensures
            r == self.spec_len(),
    {
        self.len
    }

    /// `true` iff no point is covered.
    pub fn is_empty(&self) -> (r: bool)
        requires
            self.wf(),
        ensures
            r == (self.spec_len() == 0),
    {
        self.len == 0
    }

    /// The ranges in canonical order.
    pub fn to_ranges(&self) -> (r: Vec<Range<usize>>)
        requires
            self.wf(),
        ensures
            r@ == self.ranges(),
            is_canonical(r@),
    {
        proof {
            self.lemma_wf();
        }
        let b = bounds_to_vec(&self.ranges);
        let ghost rs = ranges_of(b@);
        let mut out: Vec<Range<usize>> = Vec::new();
        let mut i: usize = 0;
        while i + 1 < b.len()
            invariant
                canonical_bounds(b@),
                rs == ranges_of(b@),
                i % 2 == 0,
                i <= b@.len(),
                out@ == rs.take((i / 2) as int),
            decreases b@.len() - i,
        {
            proof {
                assert(rs[(i / 2) as int] == Range { start: b@[i as int], end: b@[i + 1] });
            }
            out.push(Range { start: b[i], end: b[i + 1] });
            i = i + 2;
            assert(out@ =~= rs.take((i / 2) as int));
        }
        assert(out@ =~= rs);
        out
    }

    /// The same ranges.
    pub fn duplicate(&self) -> (r: RangeSet)
        ensures
            r.ranges() == self.ranges(),
            self.wf() ==> r.wf(),
    {
        RangeSet { ranges: bounds_clone(&self.ranges), len: self.len }
    }

    /// Adds every point of `other`.
    pub fn union_with(&mut self, other: &RangeSet)
        requires
            old(self).wf(),
            other.wf(),
        ensures
            final(self).wf(),
            final(self).points() == old(self).points().union(other.points()),
    {
        let rs = other.to_ranges();
        let mut i: usize = 0;
        assert(covered(rs@.take(0)) =~= Set::<int>::empty());
        assert(old(self).points().union(covered(rs@.take(0))) =~= old(self).points());
        while i < rs.len()
            invariant
                i <= rs@.len(),
                self.wf(),
                rs@ == other.ranges(),
                self.points() == old(self).points().union(covered(rs@.take(i as int))),
            decreases rs@.len() - i,
        {
            let rg = Range { start: rs[i].start, end: rs[i].end };
            let _ = self.insert(rg);
            proof {
                lemma_covered_take_push(rs@, i as int);
                assert(self.points() =~= old(self).points().union(covered(rs@.take(i + 1))));
            }
            i = i + 1;
        }
        assert(rs@.take(rs@.len() as int) =~= rs@);
    }

    /// The flat boundary list `[lo0, hi0, lo1, hi1, ...]` of the ranges.
    pub fn to_boundaries(&self) -> (r: Vec<usize>)
        requires
            self.wf(),
        ensures
            canonical_bounds(r@),
            ranges_of(r@) == self.ranges(),
    {
        bounds_to_vec(&self.ranges)
    }

    /// The range set of a flat boundary list; `None` unless the list is strictly
    /// increasing and of even length.
    pub fn from_boundaries(b: &[usize]) -> (r: Option<RangeSet>)
        ensures
            r is Some <==> canonical_bounds(b@),
            r is Some ==> r.unwrap().wf() && r.unwrap().points() == covered(ranges_of(b@)),
    {
        if b.len() % 2 != 0 {
            return None;
        }
        let mut i: usize = 1;
        while i < b.len()
            invariant
                1 <= i,
                b@.len() % 2 == 0,
                forall|x: int, y: int| 0 <= x < y < i && y < b@.len() ==> b@[x] < b@[y],
            decreases b@.len() - i,
        {
            if b[i - 1] >= b[i] {
                return None;
            }
            i = i + 1;
        }
        proof {
            assert(canonical_bounds(b@));
            lemma_ranges_of_canonical(b@);
        }
        let mut s = RangeSet::new();
        let ghost rs = ranges_of(b@);
        let mut j: usize = 0;
        assert(covered(rs.take(0)) =~= Set::<int>::empty());
        assert(s.points() =~= Set::<int>::empty());
        while j + 1 < b.len()
            invariant
                canonical_bounds(b@),
                rs == ranges_of(b@),
                rs.len() * 2 == b@.len(),
                j % 2 == 0,
                j <= b@.len(),
                s.wf(),
                s.points() == covered(rs.take((j / 2) as int)),
            decreases b@.len() - j,
        {
            proof {
                assert(rs[(j / 2) as int] == Range { start: b@[j as int], end: b@[j + 1] });
                lemma_covered_take_push(rs, (j / 2) as int);
            }
            let _ = s.insert(Range { start: b[j], end: b[j + 1] });
            j = j + 2;
            assert((j / 2) as int == (j - 2) / 2 + 1);
        }
        assert(rs.take(rs.len() as int) =~= rs);
        Some(s)
    }

    /// The range set of the points of `ranges`.
    pub fn from_ranges(ranges: &[Range<usize>]) -> (r: RangeSet)
        ensures
            r.wf(),
            r.points() == covered(ranges@),
    {
        let mut s = RangeSet::new();
        let mut i: usize = 0;
        assert(covered(ranges@.take(0)) =~= Set::<int>::empty());
        assert(s.points() =~= Set::<int>::empty());
        while i < ranges.len()
            invariant
                i <= ranges@.len(),
                s.wf(),
                s.points() == covered(ranges@.take(i as int)),
            decreases ranges@.len() - i,
        {
            let rg = Range { start: ranges[i].start, end: ranges[i].end };
            let _ = s.insert(rg);
            proof {
                let t = ranges@.take(i + 1);
                assert(covered(t) =~= covered(ranges@.take(i as int)).union(span(ranges@[i as int]))) by {
                    assert forall|x: int| covered(t).contains(x) implies covered(ranges@.take(i as int)).union(span(ranges@[i as int])).contains(x) by {
                        let j = choose|j: int| 0 <= j < t.len() && (#[trigger] t[j]).start <= x < t[j].end;
                        if j < i {
                            assert(ranges@.take(i as int)[j] == t[j]);
                        }
                    }
                    assert forall|x: int| covered(ranges@.take(i as int)).contains(x) implies covered(t).contains(x) by {
                        let j = choose|j: int| 0 <= j < i && (#[trigger] ranges@.take(i as int)[j]).start <= x < ranges@.take(i as int)[j].end;
                        assert(t[j] == ranges@.take(i as int)[j]);
                    }
                    assert forall|x: int| span(ranges@[i as int]).contains(x) implies covered(t).contains(x) by {
                        assert(t[i as int] == ranges@[i as int]);
                    }
                }
            }
            i = i + 1;
        }
        assert(ranges@.take(ranges@.len() as int) =~= ranges@);
        s
    }
}

impl Clone for RangeSet {
    fn clone(&self) -> (r: RangeSet)
        ensures
            r.ranges() == self.ranges(),
            self.wf() ==> r.wf(),
    {
        self.duplicate()
    }
}

/// The points of every range set of `sets` that is there.
pub open spec fn points_union(sets: Seq<Option<RangeSet>>) -> Set<int>
    decreases sets.len(),
{
    if sets.len() == 0 {
        Set::empty()
    } else {
        points_union(sets.drop_last()).union(
            match sets.last() {
                Some(r) => r.points(),
                None => Set::empty(),
            },
        )
    }
}

/// The union of the modified ranges of a stripe's blocks (the ones that have any): the
/// byte range that a stripe-wide update reads and writes.
pub fn stripe_union_range(sets: &Vec<Option<RangeSet>>) -> (r: RangeSet)
    requires
        forall|i: int| 0 <= i < sets@.len() && (#[trigger] sets@[i]) is Some ==> sets@[i].unwrap().wf(),
    ensures
        r.wf(),
        r.points() == points_union(sets@),
{
    let mut acc = RangeSet::new();
    assert(acc.points() =~= Set::<int>::empty());
    let mut i: usize = 0;
    while i < sets.len()
        invariant
            i <= sets@.len(),
            acc.wf(),
            forall|t: int| 0 <= t < sets@.len() && (#[trigger] sets@[t]) is Some ==> sets@[t].unwrap().wf(),
            acc.points() == points_union(sets@.take(i as int)),
        decreases sets@.len() - i,
    {
        proof {
            assert(sets@.take(i + 1).drop_last() =~= sets@.take(i as int));
            assert(sets@.take(i + 1).last() == sets@[i as int]);
        }
        match &sets[i] {
            Some(rs) => {
                acc.union_with(rs);
            },
            None => {
                assert(acc.points().union(Set::<int>::empty()) =~= acc.points());
            },
        }
        i = i + 1;
    }
    assert(sets@.take(sets@.len() as int) =~= sets@);
    acc
}

/// Serialising a range set and reading it back gives the same points.
pub proof fn lemma_boundaries_round_trip(s: RangeSet, b: Seq<usize>, back: Option<RangeSet>)
    requires
        s.wf(),
        canonical_bounds(b),
        ranges_of(b) == s.ranges(),
        back is Some <==> canonical_bounds(b),
        back is Some ==> back.unwrap().points() == covered(ranges_of(b)),
    ensures
        back is Some,
        back.unwrap().points() == s.points(),
{
}

/// The widths that successive inserts report add up to the final length: `states[0]` is
/// empty and each `states[i + 1]` is `states[i]` after an insert that returned `incs[i]`.
pub proof fn lemma_insert_increments_sum(states: Seq<RangeSet>, incs: Seq<Seq<Range<usize>>>)
    requires
        states.len() == incs.len() + 1,
        states[0].spec_len() == 0,
        forall|i: int|
            0 <= i < incs.len() ==> #[trigger] states[i + 1].spec_len() == states[i].spec_len() + width(
                incs[i],
            ),
    ensures
        states.last().spec_len() == total_width(incs),
    decreases incs.len(),
{
    if incs.len() > 0 {
        let n = incs.len() - 1;
        assert forall|i: int|
            0 <= i < incs.drop_last().len() implies #[trigger] states.drop_last()[i + 1].spec_len()
                == states.drop_last()[i].spec_len() + width(incs.drop_last()[i]) by {
            assert(states[i + 1].spec_len() == states[i].spec_len() + width(incs[i]));
        }
        lemma_insert_increments_sum(states.drop_last(), incs.drop_last());
        assert(states[n + 1].spec_len() == states[n].spec_len() + width(incs[n]));
    }
}

/// The sum of the widths of every sequence of ranges in `incs`.
pub open spec fn total_width(incs: Seq<Seq<Range<usize>>>) -> int
    decreases incs.len(),
{
    if incs.len() == 0 {
        0
    } else {
        total_width(incs.drop_last()) + width(incs.last())
    }
}

/// The points of a prefix one range longer add that range.
proof fn lemma_covered_take_push(rs: Seq<Range<usize>>, i: int)
    requires
        0 <= i < rs.len(),
    ensures
        covered(rs.take(i + 1)) == covered(rs.take(i)).union(span(rs[i])),
{
    let t = rs.take(i + 1);
    assert forall|x: int| covered(t).contains(x) implies covered(rs.take(i)).union(span(rs[i])).contains(x) by {
        let j = choose|j: int| 0 <= j < t.len() && (#[trigger] t[j]).start <= x < t[j].end;
        if j < i {
            assert(rs.take(i)[j] == t[j]);
        }
    }
    assert forall|x: int| covered(rs.take(i)).contains(x) implies covered(t).contains(x) by {
        let j = choose|j: int| 0 <= j < i && (#[trigger] rs.take(i)[j]).start <= x < rs.take(i)[j].end;
        assert(t[j] == rs.take(i)[j]);
    }
    assert forall|x: int| span(rs[i]).contains(x) implies covered(t).contains(x) by {
        assert(t[i] == rs[i]);
    }
    assert(covered(t) =~= covered(rs.take(i)).union(span(rs[i])));
}

/// A prefix of canonical ranges is at most as wide as all of them.
proof fn lemma_width_take_le(rs: Seq<Range<usize>>, n: int)
    requires
        is_canonical(rs),
        0 <= n <= rs.len(),
    ensures
        width(rs.take(n)) <= width(rs),
    decreases rs.len() - n,
{
    if n == rs.len() {
        assert(rs.take(n) =~= rs);
    } else {
        lemma_width_prefix(rs, n + 1);
        assert(rs[n].start < rs[n].end);
        lemma_width_take_le(rs, n + 1);
    }
}

/// The width of a prefix one range longer adds that range.
proof fn lemma_width_prefix(rs: Seq<Range<usize>>, n: int)
    requires
        0 < n <= rs.len(),
    ensures
        width(rs.take(n)) == width(rs.take(n - 1)) + (rs[n - 1].end - rs[n - 1].start),
{
    assert(rs.take(n).drop_last() =~= rs.take(n - 1));
}

} // verus!
