use vstd::prelude::*;

use std::collections::HashMap;
use std::ops::Range;

use super::{
    index_of, is_max_entry, lemma_push_contains, lemma_push_no_dups, lemma_remove_contains,
    lemma_weight_sum_nonneg, lemma_weight_sum_update, lists, queue_entries, queue_get_priority,
    queue_new, queue_peek, queue_push, queue_remove, weight_sum, IdQueue,
};
use crate::storage::range_set::{lemma_covered_len, span, RangeSet};

verus! {

broadcast use vstd::std_specs::hash::group_hash_axioms;

/// The modified bytes of the blocks of one stripe.
pub open spec fn stripe_total(v: Seq<RangeSet>) -> int
    decreases v.len(),
{
    if v.len() == 0 {
        0
    } else {
        stripe_total(v.drop_last()) + v.last().spec_len()
    }
}

/// The number of points of each set, added up.
pub open spec fn points_total(v: Seq<Set<int>>) -> int
    decreases v.len(),
{
    if v.len() == 0 {
        0
    } else {
        points_total(v.drop_last()) + v.last().len()
    }
}

/// Every range set of `v` is well formed.
pub open spec fn all_wf(v: Seq<RangeSet>) -> bool {
    forall|i: int| 0 <= i < v.len() ==> (#[trigger] v[i]).wf()
}

proof fn lemma_stripe_total_update(v: Seq<RangeSet>, i: int, r: RangeSet)
    requires
        0 <= i < v.len(),
        all_wf(v),
        r.wf(),
    ensures
        stripe_total(v.update(i, r)) == stripe_total(v) - v[i].spec_len() + r.spec_len(),
        0 <= v[i].spec_len() <= stripe_total(v),
        all_wf(v.update(i, r)),
    decreases v.len(),
{
    v[i].lemma_wf();
    if i < v.len() - 1 {
        assert(v.update(i, r).drop_last() =~= v.drop_last().update(i, r));
        lemma_stripe_total_update(v.drop_last(), i, r);
        v.last().lemma_wf();
    } else {
        assert(v.update(i, r).drop_last() =~= v.drop_last());
        lemma_stripe_total_nonneg(v.drop_last());
    }
}

proof fn lemma_stripe_total_nonneg(v: Seq<RangeSet>)
    requires
        all_wf(v),
    ensures
        stripe_total(v) >= 0,
    decreases v.len(),
{
    if v.len() > 0 {
        v.last().lemma_wf();
        lemma_stripe_total_nonneg(v.drop_last());
    }
}

proof fn lemma_points_total(v: Seq<RangeSet>)
    requires
        all_wf(v),
    ensures
        points_total(v.map_values(|r: RangeSet| r.points())) == stripe_total(v),
    decreases v.len(),
{
    if v.len() > 0 {
        v.last().lemma_wf();
        assert(v.map_values(|r: RangeSet| r.points()).drop_last() =~= v.drop_last().map_values(
            |r: RangeSet| r.points(),
        ));
        lemma_points_total(v.drop_last());
    }
}

/// `view` after the points of block `b` are dropped; a stripe left without points goes.
pub open spec fn without_block(view: Map<usize, Seq<Set<int>>>, b: usize, m: usize) -> Map<usize, Seq<Set<int>>> {
    let s = b / m;
    let v = view[s].update((b % m) as int, Set::empty());
    if points_total(v) == 0 {
        view.remove(s)
    } else {
        view.insert(s, v)
    }
}

/// `m` empty point sets.
pub open spec fn empty_points(m: nat) -> Seq<Set<int>> {
    Seq::new(m, |i: int| Set::<int>::empty())
}

/// The stripe of block `b` in `view`, or `m` empty point sets.
pub open spec fn stripe_or_empty(view: Map<usize, Seq<Set<int>>>, b: usize, m: usize) -> Seq<Set<int>> {
    if view.contains_key(b / m) {
        view[b / m]
    } else {
        empty_points(m as nat)
    }
}

proof fn lemma_all_zero_total(v: Seq<RangeSet>)
    requires
        forall|t: int| 0 <= t < v.len() ==> (#[trigger] v[t]).spec_len() == 0,
    ensures
        stripe_total(v) == 0,
    decreases v.len(),
{
    if v.len() > 0 {
        assert(v.last().spec_len() == 0);
        assert forall|t: int| 0 <= t < v.drop_last().len() implies (#[trigger] v.drop_last()[t]).spec_len() == 0 by {
            assert(v.drop_last()[t] == v[t]);
        }
        lemma_all_zero_total(v.drop_last());
    }
}

proof fn lemma_points_total_update(v: Seq<Set<int>>, i: int, x: Set<int>)
    requires
        0 <= i < v.len(),
    ensures
        points_total(v.update(i, x)) == points_total(v) - v[i].len() + x.len(),
    decreases v.len(),
{
    if i < v.len() - 1 {
        assert(v.update(i, x).drop_last() =~= v.drop_last().update(i, x));
        lemma_points_total_update(v.drop_last(), i, x);
    } else {
        assert(v.update(i, x).drop_last() =~= v.drop_last());
    }
}

/// `m` empty range sets.
fn empty_stripe(m: usize) -> (r: Vec<RangeSet>)
    ensures
        r@.len() == m,
        all_wf(r@),
        r@.map_values(|x: RangeSet| x.points()) == empty_points(m as nat),
        stripe_total(r@) == 0,
        forall|j: int| 0 <= j < m ==> (#[trigger] r@[j]).spec_len() == 0,
{
    let mut v: Vec<RangeSet> = Vec::new();
    let mut i: usize = 0;
    while i < m
        invariant
            i <= m,
            v@.len() == i,
            all_wf(v@),
            forall|j: int| 0 <= j < i ==> (#[trigger] v@[j]).points() == Set::<int>::empty() && v@[j].spec_len() == 0,
            stripe_total(v@) == 0,
        decreases m - i,
    {
        let e = RangeSet::new();
        proof {
            e.lemma_wf();
            assert(e.points() =~= Set::<int>::empty());
        }
        let ghost prev = v@;
        v.push(e);
        assert(v@.drop_last() =~= prev);
        i = i + 1;
    }
    assert(v@.map_values(|x: RangeSet| x.points()) =~= empty_points(m as nat));
    v
}

/// Stripes of `m` blocks with the modified ranges of each block, up to a total of
/// `max_size` bytes; when the total goes over, the block with the most modified bytes in
/// the stripe with the most modified bytes is evicted.
pub struct MostModifiedStripeEvict {
    stripe_m: usize,
    max_size: usize,
    queue: IdQueue,
    stripes: HashMap<usize, Vec<RangeSet>>,
    cur_size: usize,
    keys: Ghost<Seq<usize>>,
}

impl MostModifiedStripeEvict {
    /// The modified points of each block of each buffered stripe, by stripe id.
    pub closed spec fn view(&self) -> Map<usize, Seq<Set<int>>> {
        self.stripes@.map_values(|v: Vec<RangeSet>| v@.map_values(|r: RangeSet| r.points()))
    }

    pub closed spec fn spec_m(&self) -> usize {
        self.stripe_m
    }

    pub closed spec fn spec_len(&self) -> int {
        self.cur_size as int
    }

    pub closed spec fn spec_capacity(&self) -> int {
        self.max_size as int
    }

    pub closed spec fn wf(&self) -> bool {
        &&& self.stripe_m >= 1
        &&& self.max_size >= 1
        &&& queue_entries(self.queue).dom() == self.stripes@.dom()
        &&& forall|s: usize| #[trigger] self.stripes@.contains_key(s) ==> {
            let v = self.stripes@[s]@;
            &&& v.len() == self.stripe_m
            &&& all_wf(v)
            &&& queue_entries(self.queue)[s] == stripe_total(v)
            &&& stripe_total(v) > 0
            &&& forall|j: int| 0 <= j < self.stripe_m && (#[trigger] v[j]).spec_len() > 0 ==> s * self.stripe_m + j <= usize::MAX
        }
        &&& lists(self.keys@, self.stripes@.dom())
        &&& self.cur_size == weight_sum(self.keys@, queue_entries(self.queue))
    }

    /// Facts about the view of a well-formed container.
    pub proof fn lemma_view(&self)
        requires
            self.wf(),
        ensures
            forall|s: usize| #[trigger] self.view().contains_key(s) ==> self.view()[s].len() == self.spec_m()
                && points_total(self.view()[s]) > 0,
    {
        assert forall|s: usize| #[trigger] self.view().contains_key(s) implies self.view()[s].len()
            == self.spec_m() && points_total(self.view()[s]) > 0 by {
            lemma_points_total(self.stripes@[s]@);
        }
    }

    /// An empty container for stripes of `stripe_m` blocks and up to `max_size` bytes.
    pub fn new(stripe_m: usize, max_size: usize) -> (r: MostModifiedStripeEvict)
        requires
            stripe_m >= 1,
            max_size >= 1,
        ensures
            r.wf(),
            r.view() == Map::<usize, Seq<Set<int>>>::empty(),
            r.spec_m() == stripe_m,
            r.spec_len() == 0,
            r.spec_capacity() == max_size,
    {
        let r = MostModifiedStripeEvict {
            stripe_m,
            max_size,
            queue: queue_new(),
            stripes: HashMap::new(),
            cur_size: 0,
            keys: Ghost(Seq::empty()),
        };
        assert(r.view() =~= Map::<usize, Seq<Set<int>>>::empty());
        r
    }

    pub fn len(&self) -> (r: usize)
        requires
            self.wf(),
        ensures
            r == self.spec_len(),
    {
        self.cur_size
    }

    pub fn is_empty(&self) -> (r: bool)
        requires
            self.wf(),
        ensures
            r == (self.spec_len() == 0),
    {
        self.cur_size == 0
    }

    pub fn capacity(&self) -> (r: usize)
        ensures
            r == self.spec_capacity(),
    {
        self.max_size
    }

    /// `true` iff `block_id` has modified bytes.
    pub fn contains(&self, block_id: usize) -> (r: bool)
        requires
            self.wf(),
        ensures
            r == (self.view().contains_key(block_id / self.spec_m()) && self.view()[block_id / self.spec_m()][(
            block_id % self.spec_m()) as int].len() > 0),
    {
        let s = block_id / self.stripe_m;
        let i = block_id % self.stripe_m;
        match self.stripes.get(&s) {
            Some(v) => {
                proof {
                    v@[i as int].lemma_wf();
                }
                !v[i].is_empty()
            },
            None => false,
        }
    }

    /// The ranges of `block_id` when its stripe is buffered.
    pub fn get(&self, block_id: usize) -> (r: Option<RangeSet>)
        requires
            self.wf(),
        ensures
            r is Some <==> self.view().contains_key(block_id / self.spec_m()),
            r is Some ==> r.unwrap().wf() && r.unwrap().points() == self.view()[block_id
                / self.spec_m()][(block_id % self.spec_m()) as int],
    {
        let s = block_id / self.stripe_m;
        let i = block_id % self.stripe_m;
        match self.stripes.get(&s) {
            Some(v) => Some(v[i].duplicate()),
            None => None,
        }
    }

    /// Takes out the ranges of `block_id` when it has modified bytes; a stripe left
    /// without modified bytes is dropped.
    pub fn pop_with_id(&mut self, block_id: usize) -> (r: Option<RangeSet>)
        requires
            old(self).wf(),
        ensures
            final(self).wf(),
            final(self).spec_m() == old(self).spec_m(),
            final(self).spec_capacity() == old(self).spec_capacity(),
            ({
                let v = old(self).view();
                let m = old(self).spec_m();
                let s = block_id / m;
                let i = (block_id % m) as int;
                &&& r is Some <==> v.contains_key(s) && v[s][i].len() > 0
                &&& r is None ==> final(self).view() == v && final(self).spec_len() == old(self).spec_len()
                &&& r is Some ==> r.unwrap().wf() && r.unwrap().points() == v[s][i] && final(self).view()
                    == without_block(v, block_id, m) && final(self).spec_len() == old(self).spec_len()
                    - v[s][i].len()
            }),
    {
        let m = self.stripe_m;
        let s = block_id / m;
        let i = block_id % m;
        let ghost old_view = self.view();
        let ghost entries = queue_entries(self.queue);
        proof {
            self.lemma_view();
        }
        let total = match queue_get_priority(&self.queue, s) {
            None => { return None; },
            Some(t) => t,
        };
        let taken = match self.stripes.get(&s) {
            None => { return None; },
            Some(v) => {
                proof {
                    v@[i as int].lemma_wf();
                    assert(old_view[s][i as int] == v@[i as int].points());
                }
                if v[i].is_empty() {
                    return None;
                }
                v[i].duplicate()
            },
        };
        let mut v = match self.stripes.remove(&s) {
            None => { return None; },
            Some(v) => v,
        };
        let ghost vo = v@;
        proof {
            taken.lemma_wf();
        }
        let emptied = RangeSet::new();
        proof {
            emptied.lemma_wf();
            lemma_stripe_total_update(vo, i as int, emptied);
            assert(emptied.points() =~= Set::<int>::empty());
        }
        v.set(i, emptied);
        let n = taken.len();
        let new_total = total - n;
        proof {
            lemma_points_total(vo);
            lemma_points_total(v@);
            assert(v@.map_values(|r: RangeSet| r.points()) =~= old_view[s].update(i as int, Set::empty()));
            lemma_weight_sum_update(self.keys@, entries, s, new_total);
            assert(self.keys@.contains(s));
        }
        if new_total == 0 {
            let _ = queue_remove(&mut self.queue, s);
            proof {
                let ok = self.keys@;
                let idx = index_of(ok, s);
                self.keys@ = ok.remove(idx);
                assert forall|k: usize| #[trigger] self.stripes@.dom().contains(k) <==> self.keys@.contains(k) by {
                    lemma_remove_contains(ok, idx, k);
                }
                lemma_remove_contains(ok, idx, s);
                assert(self.view() =~= without_block(old_view, block_id, m));
            }
        } else {
            self.stripes.insert(s, v);
            let _ = queue_push(&mut self.queue, s, new_total);
            proof {
                assert(self.view() =~= without_block(old_view, block_id, m));
                assert forall|k: usize| #[trigger] self.stripes@.dom().contains(k) <==> self.keys@.contains(k) by {
                    assert(old(self).stripes@.dom().contains(k) <==> old(self).keys@.contains(k));
                }
            }
        }
        self.cur_size = self.cur_size - n;
        proof {
            assert(queue_entries(self.queue).dom() =~= self.stripes@.dom());
            assert forall|t: usize| #[trigger] self.stripes@.contains_key(t) implies {
                let w = self.stripes@[t]@;
                &&& w.len() == self.stripe_m
                &&& all_wf(w)
                &&& queue_entries(self.queue)[t] == stripe_total(w)
                &&& stripe_total(w) > 0
                &&& forall|j: int| 0 <= j < self.stripe_m && (#[trigger] w[j]).spec_len() > 0 ==> t * self.stripe_m + j <= usize::MAX
            } by {
                assert(old(self).stripes@.contains_key(t));
                if t == s {
                    assert forall|j: int| 0 <= j < self.stripe_m && (#[trigger] self.stripes@[t]@[j]).spec_len() > 0 implies t * self.stripe_m + j <= usize::MAX by {
                        assert(j != i);
                        assert(self.stripes@[t]@[j] == vo[j]);
                    }
                }
            }
            assert(self.cur_size == weight_sum(self.keys@, queue_entries(self.queue)));
        }
        Some(taken)
    }

    /// Takes out, from the stripe with the most modified bytes, the block with the most
    /// modified bytes (the last such block on a tie).
    pub fn pop_first(&mut self) -> (r: Option<(usize, RangeSet)>)
        requires
            old(self).wf(),
        ensures
            final(self).wf(),
            final(self).spec_m() == old(self).spec_m(),
            final(self).spec_capacity() == old(self).spec_capacity(),
            r is None <==> old(self).view().dom() == Set::<usize>::empty(),
            r is None ==> final(self).view() == old(self).view() && final(self).spec_len() == old(self).spec_len(),
            r is Some ==> {
                let (e, rs) = r.unwrap();
                let v = old(self).view();
                let m = old(self).spec_m();
                let s = e / m;
                let i = (e % m) as int;
                &&& v.contains_key(s)
                &&& forall|t: usize| #[trigger] v.contains_key(t) ==> points_total(v[t]) <= points_total(v[s])
                &&& forall|j: int| 0 <= j < m ==> (#[trigger] v[s][j]).len() <= v[s][i].len()
                &&& v[s][i].len() > 0
                &&& rs.wf()
                &&& rs.points() == v[s][i]
                &&& final(self).view() == without_block(v, e, m)
                &&& final(self).spec_len() == old(self).spec_len() - v[s][i].len()
            },
    {
        let m = self.stripe_m;
        let ghost old_view = self.view();
        let ghost entries = queue_entries(self.queue);
        proof {
            self.lemma_view();
        }
        let (s, total) = match queue_peek(&self.queue) {
            None => {
                assert(old_view.dom() =~= Set::<usize>::empty());
                return None;
            },
            Some(x) => x,
        };
        let v = match self.stripes.get(&s) {
            None => { return None; },
            Some(v) => v,
        };
        let ghost pv = old_view[s];
        proof {
            assert(pv == v@.map_values(|r: RangeSet| r.points()));
            v@[0].lemma_wf();
        }
        let mut best: usize = 0;
        let mut best_len: usize = v[0].len();
        let mut j: usize = 1;
        while j < m
            invariant
                1 <= j <= m,
                m == self.stripe_m,
                v@.len() == m,
                all_wf(v@),
                pv == v@.map_values(|r: RangeSet| r.points()),
                best < j,
                best_len == v@[best as int].spec_len(),
                forall|t: int| 0 <= t < j ==> (#[trigger] v@[t]).spec_len() <= best_len,
            decreases m - j,
        {
            if v[j].len() >= best_len {
                best = j;
                best_len = v[j].len();
            }
            j = j + 1;
        }
        proof {
            assert forall|t: int| 0 <= t < m implies (#[trigger] pv[t]).len() == v@[t].spec_len() by {
                v@[t].lemma_wf();
            }
            lemma_stripe_total_nonneg(v@);
            if best_len == 0 {
                assert forall|t: int| 0 <= t < m implies (#[trigger] v@[t]).spec_len() == 0 by {
                    v@[t].lemma_wf();
                }
                lemma_all_zero_total(v@);
            }
            assert(best_len > 0);
            vstd::arithmetic::div_mod::lemma_fundamental_div_mod_converse(
                (s * m + best) as int,
                m as int,
                s as int,
                best as int,
            );
        }
        let b = s * m + best;
        let rs = match self.pop_with_id(b) {
            None => { return None; },
            Some(rs) => rs,
        };
        proof {
            assert(old_view.contains_key(s));
            assert forall|t: usize| #[trigger] old_view.contains_key(t) implies points_total(old_view[t]) <= points_total(old_view[s]) by {
                assert(entries.contains_key(t));
                lemma_points_total(old(self).stripes@[t]@);
                lemma_points_total(old(self).stripes@[s]@);
            }
        }
        Some((b, rs))
    }

    /// Adds `range` to the ranges of `block_id`. When the total then exceeds the capacity,
    /// one block is taken out as [`Self::pop_first`] picks it, and returned.
    pub fn push(&mut self, block_id: usize, range: Range<usize>) -> (r: Option<(usize, RangeSet)>)
        requires
            old(self).wf(),
            old(self).spec_len() + range.end - range.start <= usize::MAX,
        ensures
            final(self).wf(),
            final(self).spec_m() == old(self).spec_m(),
            final(self).spec_capacity() == old(self).spec_capacity(),
            ({
                let v = old(self).view();
                let m = old(self).spec_m();
                let s = block_id / m;
                let i = (block_id % m) as int;
                let prev = stripe_or_empty(v, block_id, m);
                let grown_stripe = prev.update(i, prev[i].union(span(range)));
                let after = if points_total(grown_stripe) > 0 {
                    v.insert(s, grown_stripe)
                } else {
                    v
                };
                let grown = old(self).spec_len() + grown_stripe[i].len() - prev[i].len();
                let evicts = grown > old(self).spec_capacity() && grown_stripe[i].len() > prev[i].len();
                &&& !evicts ==> r is None && final(self).view() == after && final(self).spec_len() == grown
                &&& evicts ==> r is Some && {
                    let (e, rs) = r.unwrap();
                    let t = e / m;
                    let j = (e % m) as int;
                    &&& after.contains_key(t)
                    &&& forall|u: usize| #[trigger] after.contains_key(u) ==> points_total(after[u]) <= points_total(after[t])
                    &&& forall|x: int| 0 <= x < m ==> (#[trigger] after[t][x]).len() <= after[t][j].len()
                    &&& after[t][j].len() > 0
                    &&& rs.wf()
                    &&& rs.points() == after[t][j]
                    &&& final(self).view() == without_block(after, e, m)
                    &&& final(self).spec_len() == grown - after[t][j].len()
                }
            }),
    {
        let m = self.stripe_m;
        let s = block_id / m;
        let i = block_id % m;
        let ghost old_view = self.view();
        let ghost entries = queue_entries(self.queue);
        proof {
            self.lemma_view();
            vstd::arithmetic::div_mod::lemma_fundamental_div_mod(block_id as int, m as int);
            lemma_weight_sum_update(self.keys@, entries, s, 0);
            lemma_weight_sum_nonneg(self.keys@, entries);
        }
        let ghost prev = stripe_or_empty(old_view, block_id, m);
        let old_total: usize = match queue_get_priority(&self.queue, s) {
            Some(t) => t,
            None => 0,
        };
        let mut v = match self.stripes.remove(&s) {
            Some(v) => v,
            None => empty_stripe(m),
        };
        let ghost vo = v@;
        proof {
            assert(vo.map_values(|r: RangeSet| r.points()) == prev);
            assert(stripe_total(vo) == old_total);
            lemma_points_total(vo);
        }
        let mut rs = v[i].duplicate();
        let old_len = rs.len();
        let added = rs.insert(Range { start: range.start, end: range.end });
        proof {
            rs.lemma_wf();
            lemma_covered_len(added@);
            vstd::set_lib::lemma_int_range(range.start as int, if range.end < range.start { range.start as int } else { range.end as int });
            if range.start <= range.end {
                vstd::set_lib::lemma_len_subset(crate::storage::range_set::covered(added@), span(range));
            } else {
                assert(span(range) =~= Set::<int>::empty());
                vstd::set_lib::lemma_len_subset(crate::storage::range_set::covered(added@), span(range));
            }
        }
        let new_len = rs.len();
        let inc = new_len - old_len;
        proof {
            lemma_stripe_total_update(vo, i as int, rs);
        }
        v.set(i, rs);
        let new_total = old_total + inc;
        let ghost grown_stripe = prev.update(i as int, prev[i as int].union(span(range)));
        proof {
            lemma_points_total(v@);
            assert(v@.map_values(|r: RangeSet| r.points()) =~= grown_stripe);
            vo[i as int].lemma_wf();
            assert(prev[i as int] == vo[i as int].points());
            assert(prev[i as int].len() == old_len);
            assert(grown_stripe[i as int].len() == new_len);
            assert(points_total(grown_stripe) == new_total);
        }
        if new_total == 0 {
            proof {
                assert(!old_view.contains_key(s));
                assert(self.stripes@ =~= old(self).stripes@);
                assert(self.view() =~= old_view);
            }
            return None;
        }
        self.stripes.insert(s, v);
        let _ = queue_push(&mut self.queue, s, new_total);
        proof {
            lemma_weight_sum_update(self.keys@, entries, s, new_total);
            let ok = self.keys@;
            if !ok.contains(s) {
                lemma_push_no_dups(ok, s);
                self.keys@ = ok.push(s);
            }
            assert forall|k: usize| #[trigger] self.stripes@.dom().contains(k) <==> self.keys@.contains(k) by {
                lemma_push_contains(ok, s, k);
            }
            assert(self.view() =~= old_view.insert(s, grown_stripe));
        }
        self.cur_size = self.cur_size + inc;
        proof {
            assert(queue_entries(self.queue).dom() =~= self.stripes@.dom());
            assert forall|t: usize| #[trigger] self.stripes@.contains_key(t) implies {
                let w = self.stripes@[t]@;
                &&& w.len() == self.stripe_m
                &&& all_wf(w)
                &&& queue_entries(self.queue)[t] == stripe_total(w)
                &&& stripe_total(w) > 0
                &&& forall|j: int| 0 <= j < self.stripe_m && (#[trigger] w[j]).spec_len() > 0 ==> t * self.stripe_m + j <= usize::MAX
            } by {
                if t != s {
                    assert(old(self).stripes@.contains_key(t));
                } else {
                    assert forall|j: int| 0 <= j < self.stripe_m && (#[trigger] self.stripes@[t]@[j]).spec_len() > 0 implies t * self.stripe_m + j <= usize::MAX by {
                        if j == i {
                            assert(t * self.stripe_m + j == block_id) by (nonlinear_arith)
                                requires
                                    t == s,
                                    self.stripe_m == m,
                                    j == i,
                                    block_id == m * (block_id / m) + block_id % m,
                                    s == block_id / m,
                                    i == block_id % m,
                            ;
                        }
                        if j != i {
                            assert(self.stripes@[t]@[j] == vo[j]);
                            if !old(self).stripes@.contains_key(s) {
                                assert(vo[j].spec_len() == 0);
                            }
                        }
                    }
                }
            }
        }
        proof {
            let after = if points_total(grown_stripe) > 0 {
                old_view.insert(s, grown_stripe)
            } else {
                old_view
            };
            assert(self.view() == after);
            assert(self.view().dom().contains(s));
            assert(self.view().dom() != Set::<usize>::empty());
            assert(self.cur_size == old(self).cur_size + grown_stripe[i as int].len() - prev[i as int].len());
        }
        if inc > 0 && self.cur_size > self.max_size {
            self.pop_first()
        } else {
            None
        }
    }
}

} // verus!
