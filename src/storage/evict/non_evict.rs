use vstd::prelude::*;

use std::collections::HashMap;
use std::ops::Range;

use super::{
    lemma_push_contains, lemma_push_no_dups, lemma_remove_contains, lemma_weight_sum_update,
    weight_sum,
};
use crate::storage::range_set::{lemma_covered_len, span, RangeSet};

verus! {

broadcast use vstd::std_specs::hash::group_hash_axioms;

/// Blocks with their modified ranges, without a capacity: nothing is ever evicted, and
/// blocks leave in the order they came.
pub struct NonEvict {
    map: HashMap<usize, RangeSet>,
    order: Vec<usize>,
    cur_len: usize,
}

impl NonEvict {
    /// The modified points of each buffered block.
    pub closed spec fn view(&self) -> Map<usize, Set<int>> {
        self.map@.map_values(|r: RangeSet| r.points())
    }

    pub closed spec fn spec_len(&self) -> int {
        self.cur_len as int
    }

    closed spec fn weights(&self) -> Map<usize, usize> {
        self.map@.map_values(|r: RangeSet| r.spec_len() as usize)
    }

    pub closed spec fn wf(&self) -> bool {
        &&& forall|id: usize| #[trigger] self.map@.contains_key(id) ==> self.map@[id].wf()
        &&& self.order@.no_duplicates()
        &&& forall|k: usize| #[trigger] self.map@.dom().contains(k) <==> self.order@.contains(k)
        &&& self.cur_len == weight_sum(self.order@, self.weights())
    }

    pub fn new() -> (r: NonEvict)
        ensures
            r.wf(),
            r.view() == Map::<usize, Set<int>>::empty(),
            r.spec_len() == 0,
    {
        let r = NonEvict { map: HashMap::new(), order: Vec::new(), cur_len: 0 };
        assert(r.view() =~= Map::<usize, Set<int>>::empty());
        r
    }

    pub fn contains(&self, block_id: usize) -> (r: bool)
        requires
            self.wf(),
        ensures
            r == self.view().contains_key(block_id),
    {
        self.map.contains_key(&block_id)
    }

    pub fn len(&self) -> (r: usize)
        requires
            self.wf(),
        ensures
            r == self.spec_len(),
    {
        self.cur_len
    }

    pub fn is_empty(&self) -> (r: bool)
        requires
            self.wf(),
        ensures
            r == (self.spec_len() == 0),
    {
        self.cur_len == 0
    }

    /// There is no bound.
    pub fn capacity(&self) -> (r: usize)
        ensures
            r == usize::MAX,
    {
        usize::MAX
    }

    pub fn get(&self, block_id: usize) -> (r: Option<RangeSet>)
        requires
            self.wf(),
        ensures
            r is Some <==> self.view().contains_key(block_id),
            r is Some ==> r.unwrap().wf() && r.unwrap().points() == self.view()[block_id],
    {
        match self.map.get(&block_id) {
            Some(rs) => Some(rs.duplicate()),
            None => None,
        }
    }

    /// Adds `range` to the ranges of `block_id`; never evicts.
    pub fn push(&mut self, block_id: usize, range: Range<usize>) -> (r: Option<(usize, RangeSet)>)
        requires
            old(self).wf(),
            old(self).spec_len() + range.end - range.start <= usize::MAX,
        ensures
            final(self).wf(),
            r is None,
            ({
                let prev = if old(self).view().contains_key(block_id) {
                    old(self).view()[block_id]
                } else {
                    Set::empty()
                };
                &&& final(self).view() == old(self).view().insert(block_id, prev.union(span(range)))
                &&& final(self).spec_len() == old(self).spec_len() + prev.union(span(range)).len() - prev.len()
            }),
    {
        let ghost old_view = self.view();
        let ghost w = self.weights();
        let existing = self.map.remove(&block_id);
        let was_present = existing.is_some();
        let mut rs = match existing {
            Some(rs) => rs,
            None => RangeSet::new(),
        };
        proof {
            rs.lemma_wf();
            if !old_view.contains_key(block_id) {
                assert(rs.points() =~= Set::<int>::empty());
            }
        }
        let old_len = rs.len();
        let added = rs.insert(Range { start: range.start, end: range.end });
        proof {
            rs.lemma_wf();
            lemma_covered_len(added@);
            if range.start <= range.end {
                vstd::set_lib::lemma_int_range(range.start as int, range.end as int);
            } else {
                assert(span(range) =~= Set::<int>::empty());
            }
            vstd::set_lib::lemma_len_subset(crate::storage::range_set::covered(added@), span(range));
            assert(w.contains_key(block_id) ==> w[block_id] == old_len);
        }
        let inc = rs.len() - old_len;
        let new_len = rs.len();
        self.map.insert(block_id, rs);
        proof {
            lemma_weight_sum_update(self.order@, w, block_id, new_len);
        }
        if !was_present {
            proof {
                lemma_push_no_dups(self.order@, block_id);
            }
            let ghost ok = self.order@;
            self.order.push(block_id);
            proof {
                assert forall|k: usize| #[trigger] self.map@.dom().contains(k) <==> self.order@.contains(k) by {
                    lemma_push_contains(ok, block_id, k);
                }
            }
        }
        self.cur_len = self.cur_len + inc;
        proof {
            assert(self.weights() =~= w.insert(block_id, new_len));
            assert(self.view() =~= old_view.insert(block_id, rs.points()));
            assert forall|id: usize| #[trigger] self.map@.contains_key(id) implies self.map@[id].wf() by {
                if id != block_id {
                    assert(old(self).map@.contains_key(id));
                }
            }
        }
        None
    }

    /// Takes out the ranges of `block_id`, if any.
    pub fn pop_with_id(&mut self, block_id: usize) -> (r: Option<RangeSet>)
        requires
            old(self).wf(),
        ensures
            final(self).wf(),
            r is Some <==> old(self).view().contains_key(block_id),
            r is None ==> final(self).view() == old(self).view() && final(self).spec_len() == old(self).spec_len(),
            r is Some ==> r.unwrap().wf() && r.unwrap().points() == old(self).view()[block_id],
            r is Some ==> final(self).view() == old(self).view().remove(block_id),
            r is Some ==> final(self).spec_len() == old(self).spec_len() - old(self).view()[block_id].len(),
    {
        let ghost old_view = self.view();
        let ghost w = self.weights();
        match self.map.remove(&block_id) {
            None => {
                assert(self.map@ =~= old(self).map@);
                None
            },
            Some(rs) => {
                let i = match crate::storage::slice_buffer::find_record(&self.order, block_id) {
                    Some(i) => i,
                    None => {
                        proof {
                            assert(old(self).order@.contains(block_id));
                        }
                        return None;
                    },
                };
                proof {
                    rs.lemma_wf();
                    lemma_weight_sum_update(self.order@, w, block_id, 0);
                    assert(self.order@[i as int] == block_id);
                    assert(super::index_of(self.order@, block_id) == i as int) by {
                        let c = super::index_of(self.order@, block_id);
                        assert(self.order@[c] == block_id);
                        if c != i as int {
                            assert(self.order@[c] != self.order@[i as int]);
                        }
                    }
                    assert(w.remove(block_id) =~= self.map@.map_values(|r: RangeSet| r.spec_len() as usize));
                }
                let ghost ok = self.order@;
                self.order.remove(i);
                proof {
                    assert forall|k: usize| #[trigger] self.map@.dom().contains(k) <==> self.order@.contains(k) by {
                        lemma_remove_contains(ok, i as int, k);
                    }
                    lemma_remove_contains(ok, i as int, block_id);
                    assert(self.view() =~= old_view.remove(block_id));
                }
                let n = rs.len();
                self.cur_len = self.cur_len - n;
                proof {
                    assert(n == rs.spec_len());
                    assert(self.weights() =~= w.remove(block_id));
                    assert(w[block_id] == rs.spec_len() as usize);
                    assert(self.order@ == ok.remove(i as int));
                    assert(weight_sum(ok.remove(super::index_of(ok, block_id)), w.remove(block_id)) == weight_sum(ok, w) - w[block_id]);
                    assert(old(self).cur_len == weight_sum(ok, w));
                    assert(self.cur_len == weight_sum(self.order@, self.weights()));
                    assert forall|id: usize| #[trigger] self.map@.contains_key(id) implies self.map@[id].wf() by {
                        assert(old(self).map@.contains_key(id));
                    }
                }
                Some(rs)
            },
        }
    }

    /// Takes out the block that came first.
    pub fn pop_first(&mut self) -> (r: Option<(usize, RangeSet)>)
        requires
            old(self).wf(),
        ensures
            final(self).wf(),
            r is None <==> old(self).view().dom() == Set::<usize>::empty(),
            r is Some ==> {
                let (e, rs) = r.unwrap();
                &&& old(self).view().contains_key(e)
                &&& rs.wf()
                &&& rs.points() == old(self).view()[e]
                &&& final(self).view() == old(self).view().remove(e)
            },
    {
        if self.order.len() == 0 {
            proof {
                assert forall|k: usize| !self.view().dom().contains(k) by {
                    if self.map@.dom().contains(k) {
                        assert(self.order@.contains(k));
                    }
                }
                assert(self.view().dom() =~= Set::<usize>::empty());
            }
            return None;
        }
        let e = self.order[0];
        proof {
            assert(self.order@.contains(e));
        }
        match self.pop_with_id(e) {
            Some(rs) => Some((e, rs)),
            None => None,
        }
    }
}

} // verus!
