use vstd::prelude::*;

use std::collections::HashMap;
use std::ops::Range;

use super::{
    index_of, lemma_push_contains, lemma_push_no_dups, lemma_remove_contains, lemma_weight_sum_frame,
    lemma_weight_sum_update, weight_sum,
};
use super::most_modified_block::points_or_empty;
use crate::storage::range_set::{lemma_covered_len, span, RangeSet};

verus! {

broadcast use vstd::std_specs::hash::group_hash_axioms;

/// Block ids in an unbounded `lru::LruCache`, which orders them by recency.
#[verifier::external_body]
pub struct RecencyCache {
    cache: lru::LruCache<usize, ()>,
}

/// The ids of a recency list, least recently used first.
pub uninterp spec fn recency_order(c: RecencyCache) -> Seq<usize>;

/// `order` with `k` taken out, if it is there.
pub open spec fn without(order: Seq<usize>, k: usize) -> Seq<usize> {
    if order.contains(k) {
        order.remove(index_of(order, k))
    } else {
        order
    }
}

/// Relies on lru::LruCache::unbounded: an empty cache that never evicts by itself.
#[verifier::external_body]
fn recency_new() -> (r: RecencyCache)
    ensures
        recency_order(r) == Seq::<usize>::empty(),
{
    RecencyCache { cache: lru::LruCache::unbounded() }
}

/// Relies on lru::LruCache::put: `k` becomes the most recently used id.
#[verifier::external_body]
fn recency_touch(c: &mut RecencyCache, k: usize)
    requires
        recency_order(*old(c)).no_duplicates(),
    ensures
        recency_order(*final(c)) == without(recency_order(*old(c)), k).push(k),
{
    c.cache.put(k, ());
}

/// Relies on lru::LruCache::peek_lru: the least recently used id, left in place.
#[verifier::external_body]
fn recency_peek_lru(c: &RecencyCache) -> (r: Option<usize>)
    ensures
        recency_order(*c).len() == 0 ==> r is None,
        recency_order(*c).len() > 0 ==> r == Some(recency_order(*c)[0]),
{
    c.cache.peek_lru().map(|(k, _)| *k)
}

/// Relies on lru::LruCache::pop: takes `k` out.
#[verifier::external_body]
fn recency_pop(c: &mut RecencyCache, k: usize)
    requires
        recency_order(*old(c)).no_duplicates(),
    ensures
        recency_order(*final(c)) == without(recency_order(*old(c)), k),
{
    c.cache.pop(&k);
}

/// Blocks with their modified ranges; when the total goes over the capacity, the least
/// recently pushed block is evicted.
pub struct LruEvict {
    lru: RecencyCache,
    ranges: HashMap<usize, RangeSet>,
    len: usize,
    capacity: usize,
}

impl LruEvict {
    /// The modified points of each buffered block.
    pub closed spec fn view(&self) -> Map<usize, Set<int>> {
        self.ranges@.map_values(|r: RangeSet| r.points())
    }

    /// The buffered blocks, least recently pushed first.
    pub closed spec fn order(&self) -> Seq<usize> {
        recency_order(self.lru)
    }

    pub closed spec fn spec_len(&self) -> int {
        self.len as int
    }

    pub closed spec fn spec_capacity(&self) -> int {
        self.capacity as int
    }

    closed spec fn weights(&self) -> Map<usize, usize> {
        self.ranges@.map_values(|r: RangeSet| r.spec_len() as usize)
    }

    pub closed spec fn wf(&self) -> bool {
        &&& forall|id: usize| #[trigger] self.ranges@.contains_key(id) ==> self.ranges@[id].wf()
        &&& recency_order(self.lru).no_duplicates()
        &&& forall|k: usize| #[trigger] self.ranges@.dom().contains(k) <==> recency_order(self.lru).contains(k)
        &&& self.len == weight_sum(recency_order(self.lru), self.weights())
        &&& self.capacity >= 1
    }

    /// An empty container for up to `cap` modified bytes.
    pub fn with_capacity(cap: usize) -> (r: LruEvict)
        requires
            cap >= 1,
        ensures
            r.wf(),
            r.view() == Map::<usize, Set<int>>::empty(),
            r.spec_len() == 0,
            r.spec_capacity() == cap,
    {
        let r = LruEvict { lru: recency_new(), ranges: HashMap::new(), len: 0, capacity: cap };
        assert(r.view() =~= Map::<usize, Set<int>>::empty());
        r
    }

    pub fn contains(&self, block_id: usize) -> (r: bool)
        requires
            self.wf(),
        ensures
            r == self.view().contains_key(block_id),
    {
        self.ranges.contains_key(&block_id)
    }

    pub fn len(&self) -> (r: usize)
        requires
            self.wf(),
        ensures
            r == self.spec_len(),
    {
        self.len
    }

    pub fn capacity(&self) -> (r: usize)
        ensures
            r == self.spec_capacity(),
    {
        self.capacity
    }

    pub fn get(&self, block_id: usize) -> (r: Option<RangeSet>)
        requires
            self.wf(),
        ensures
            r is Some <==> self.view().contains_key(block_id),
            r is Some ==> r.unwrap().wf() && r.unwrap().points() == self.view()[block_id],
    {
        match self.ranges.get(&block_id) {
            Some(rs) => Some(rs.duplicate()),
            None => None,
        }
    }

    /// Takes out the ranges of `block_id`, if any.
    pub fn pop_with_id(&mut self, block_id: usize) -> (r: Option<RangeSet>)
        requires
            old(self).wf(),
        ensures
            final(self).wf(),
            final(self).spec_capacity() == old(self).spec_capacity(),
            r is Some <==> old(self).view().contains_key(block_id),
            r is None ==> final(self).view() == old(self).view() && final(self).spec_len() == old(self).spec_len(),
            r is Some ==> r.unwrap().wf() && r.unwrap().points() == old(self).view()[block_id],
            r is Some ==> final(self).view() == old(self).view().remove(block_id),
            r is Some ==> final(self).order() == without(old(self).order(), block_id),
            r is Some ==> final(self).spec_len() == old(self).spec_len() - old(self).view()[block_id].len(),
    {
        let ghost old_view = self.view();
        let ghost w = self.weights();
        let ghost ok = recency_order(self.lru);
        match self.ranges.remove(&block_id) {
            None => {
                assert(self.ranges@ =~= old(self).ranges@);
                None
            },
            Some(rs) => {
                proof {
                    assert(ok.contains(block_id));
                    rs.lemma_wf();
                    lemma_weight_sum_update(ok, w, block_id, 0);
                }
                recency_pop(&mut self.lru, block_id);
                let n = rs.len();
                self.len = self.len - n;
                proof {
                    let i = index_of(ok, block_id);
                    assert forall|k: usize| #[trigger] self.ranges@.dom().contains(k) <==> recency_order(self.lru).contains(k) by {
                        lemma_remove_contains(ok, i, k);
                    }
                    lemma_remove_contains(ok, i, block_id);
                    assert(self.weights() =~= w.remove(block_id));
                    assert(self.view() =~= old_view.remove(block_id));
                    assert forall|id: usize| #[trigger] self.ranges@.contains_key(id) implies self.ranges@[id].wf() by {
                        assert(old(self).ranges@.contains_key(id));
                    }
                }
                Some(rs)
            },
        }
    }

    /// Adds `range` to the ranges of `block_id`, which becomes the most recently pushed.
    /// When the total then exceeds the capacity, the least recently pushed block is taken
    /// out and returned.
    pub fn push(&mut self, block_id: usize, range: Range<usize>) -> (r: Option<(usize, RangeSet)>)
        requires
            old(self).wf(),
            old(self).spec_len() + range.end - range.start <= usize::MAX,
        ensures
            final(self).wf(),
            final(self).spec_capacity() == old(self).spec_capacity(),
            ({
                let prev = points_or_empty(old(self).view(), block_id);
                let after = old(self).view().insert(block_id, prev.union(span(range)));
                let order = without(old(self).order(), block_id).push(block_id);
                let grown = old(self).spec_len() + after[block_id].len() - prev.len();
                let evicts = grown > old(self).spec_capacity() && after[block_id].len() > prev.len();
                &&& !evicts ==> r is None && final(self).view() == after && final(self).spec_len() == grown
                    && final(self).order() == order
                &&& evicts ==> r is Some && {
                    let (e, rs) = r.unwrap();
                    &&& e == order[0]
                    &&& rs.wf()
                    &&& rs.points() == after[e]
                    &&& final(self).view() == after.remove(e)
                    &&& final(self).spec_len() == grown - after[e].len()
                }
            }),
    {
        let ghost old_view = self.view();
        let ghost w = self.weights();
        let ghost ok = recency_order(self.lru);
        let ghost prev = points_or_empty(old_view, block_id);
        let existing = self.ranges.remove(&block_id);
        let mut rs = match existing {
            Some(rs) => rs,
            None => RangeSet::new(),
        };
        proof {
            rs.lemma_wf();
            if !old_view.contains_key(block_id) {
                assert(rs.points() =~= Set::<int>::empty());
            }
            assert(rs.points() == prev);
        }
        let old_len = rs.len();
        let added = rs.insert(Range { start: range.start, end: range.end });
        proof {
            rs.lemma_wf();
            lemma_covered_len(added@);
            if range.start <= range.end {
                vstd::set_lib::lemma_int_range(range.start as int, range.end as int);
            } else {
                assert(span(range) =~= Set::<int>::empty());
            }
            vstd::set_lib::lemma_len_subset(crate::storage::range_set::covered(added@), span(range));
            assert(w.contains_key(block_id) ==> w[block_id] == old_len);
        }
        let new_len = rs.len();
        let inc = new_len - old_len;
        self.ranges.insert(block_id, rs);
        recency_touch(&mut self.lru, block_id);
        self.len = self.len + inc;
        proof {
            let w2 = self.weights();
            assert(w2 =~= w.insert(block_id, new_len));
            let rest = without(ok, block_id);
            if ok.contains(block_id) {
                let i = index_of(ok, block_id);
                lemma_weight_sum_update(ok, w, block_id, 0);
                lemma_remove_contains(ok, i, block_id);
                assert forall|j: int| 0 <= j < rest.len() implies w.remove(block_id)[#[trigger] rest[j]] == w2[rest[j]] by {
                    assert(rest.contains(rest[j]));
                    lemma_remove_contains(ok, i, rest[j]);
                }
                lemma_weight_sum_frame(rest, w.remove(block_id), w2);
                assert forall|k: usize| rest.contains(k) <==> ok.contains(k) && k != block_id by {
                    lemma_remove_contains(ok, i, k);
                }
            } else {
                assert forall|j: int| 0 <= j < rest.len() implies w[#[trigger] rest[j]] == w2[rest[j]] by {
                    assert(rest.contains(rest[j]));
                }
                lemma_weight_sum_frame(rest, w, w2);
            }
            assert(rest.push(block_id).drop_last() =~= rest);
            lemma_push_no_dups(rest, block_id);
            assert forall|k: usize| #[trigger] self.ranges@.dom().contains(k) <==> recency_order(self.lru).contains(k) by {
                lemma_push_contains(rest, block_id, k);
            }
            assert(self.view() =~= old_view.insert(block_id, prev.union(span(range))));
            assert forall|id: usize| #[trigger] self.ranges@.contains_key(id) implies self.ranges@[id].wf() by {
                if id != block_id {
                    assert(old(self).ranges@.contains_key(id));
                }
            }
            assert(recency_order(self.lru)[0] == rest.push(block_id)[0]);
            assert(self.view().dom().contains(block_id));
        }
        if inc > 0 && self.len > self.capacity {
            self.pop_first()
        } else {
            None
        }
    }

    /// Takes out the least recently pushed block.
    pub fn pop_first(&mut self) -> (r: Option<(usize, RangeSet)>)
        requires
            old(self).wf(),
        ensures
            final(self).wf(),
            final(self).spec_capacity() == old(self).spec_capacity(),
            r is None <==> old(self).view().dom() == Set::<usize>::empty(),
            r is Some ==> {
                let (e, rs) = r.unwrap();
                &&& e == old(self).order()[0]
                &&& rs.wf()
                &&& rs.points() == old(self).view()[e]
                &&& final(self).view() == old(self).view().remove(e)
                &&& final(self).spec_len() == old(self).spec_len() - old(self).view()[e].len()
            },
    {
        let ghost ok = recency_order(self.lru);
        match recency_peek_lru(&self.lru) {
            None => {
                assert forall|k: usize| !self.view().dom().contains(k) by {
                    if self.ranges@.dom().contains(k) {
                        assert(ok.contains(k));
                    }
                }
                assert(self.view().dom() =~= Set::<usize>::empty());
                None
            },
            Some(e) => {
                proof {
                    assert(ok.contains(e));
                }
                match self.pop_with_id(e) {
                    Some(rs) => Some((e, rs)),
                    None => None,
                }
            },
        }
    }
}

} // verus!
