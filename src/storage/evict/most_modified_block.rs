use vstd::prelude::*;

use std::collections::HashMap;
use std::ops::Range;

use super::{
    is_max_entry, lemma_push_contains, lemma_push_no_dups, lemma_remove_contains, lemma_weight_sum_nonneg,
    lemma_weight_sum_update, lists, queue_entries,
    queue_get_priority, queue_new, queue_peek, queue_pop, queue_push, queue_remove, weight_sum, IdQueue,
};
use crate::storage::range_set::{lemma_covered_len, span, RangeSet};

verus! {

broadcast use vstd::std_specs::hash::group_hash_axioms;

/// Blocks with their modified ranges, up to a total of `max_size` bytes; when the total
/// goes over, the block with the most modified bytes is evicted.
pub struct MostModifiedBlockEvict {
    queue: IdQueue,
    ranges: HashMap<usize, RangeSet>,
    max_size: usize,
    cur_size: usize,
    keys: Ghost<Seq<usize>>,
}

/// The points of `id` in `m`, or none.
pub open spec fn points_or_empty(m: Map<usize, Set<int>>, id: usize) -> Set<int> {
    if m.contains_key(id) {
        m[id]
    } else {
        Set::empty()
    }
}

impl MostModifiedBlockEvict {
    /// The modified points of each buffered block.
    pub closed spec fn view(&self) -> Map<usize, Set<int>> {
        self.ranges@.map_values(|r: RangeSet| r.points())
    }

    /// The modified bytes over all blocks.
    pub closed spec fn spec_len(&self) -> int {
        self.cur_size as int
    }

    pub closed spec fn spec_capacity(&self) -> int {
        self.max_size as int
    }

    pub closed spec fn wf(&self) -> bool {
        &&& queue_entries(self.queue).dom() == self.ranges@.dom()
        &&& forall|id: usize| #[trigger] self.ranges@.contains_key(id) ==> self.ranges@[id].wf()
            && queue_entries(self.queue)[id] == self.ranges@[id].spec_len()
        &&& lists(self.keys@, self.ranges@.dom())
        &&& self.cur_size == weight_sum(self.keys@, queue_entries(self.queue))
        &&& self.cur_size <= self.max_size
        &&& self.max_size >= 1
    }

    /// The points of every block are as many as its modified bytes.
    proof fn lemma_lens(&self)
        requires
            self.wf(),
        ensures
            forall|id: usize| #[trigger] self.view().contains_key(id) ==> self.view()[id].finite()
                && self.view()[id].len() == queue_entries(self.queue)[id],
    {
        assert forall|id: usize| #[trigger] self.view().contains_key(id) implies self.view()[id].finite()
            && self.view()[id].len() == queue_entries(self.queue)[id] by {
            self.ranges@[id].lemma_wf();
        }
    }

    /// An empty container for up to `max_size` modified bytes.
    pub fn with_max_size(max_size: usize) -> (r: MostModifiedBlockEvict)
        requires
            max_size >= 1,
        ensures
            r.wf(),
            r.view() == Map::<usize, Set<int>>::empty(),
            r.spec_len() == 0,
            r.spec_capacity() == max_size,
    {
        let r = MostModifiedBlockEvict {
            queue: queue_new(),
            ranges: HashMap::new(),
            max_size,
            cur_size: 0,
            keys: Ghost(Seq::empty()),
        };
        assert(r.view() =~= Map::<usize, Set<int>>::empty());
        r
    }

    /// `true` iff `block_id` has buffered ranges.
    pub fn contains(&self, block_id: usize) -> (r: bool)
        requires
            self.wf(),
        ensures
            r == self.view().contains_key(block_id),
    {
        self.ranges.contains_key(&block_id)
    }

    /// The modified bytes over all blocks.
    /// A well-formed container holds at most its capacity.
    pub proof fn lemma_len_bound(&self)
        requires
            self.wf(),
        ensures
            self.spec_len() <= self.spec_capacity(),
    {
    }

    /// The modified bytes over all blocks; never more than the capacity.
    pub fn len(&self) -> (r: usize)
        requires
            self.wf(),
        ensures
            r == self.spec_len(),
            r <= self.spec_capacity(),
    {
        self.cur_size
    }

    pub fn is_empty(&self) -> (r: bool)
        requires
            self.wf(),
        ensures
            r == (self.spec_len() == 0),
    {
        self.cur_size == 0
    }

    pub fn capacity(&self) -> (r: usize)
        ensures
            r == self.spec_capacity(),
    {
        self.max_size
    }

    /// The ranges of `block_id`, if any.
    pub fn get(&self, block_id: usize) -> (r: Option<RangeSet>)
        requires
            self.wf(),
        ensures
            r is Some <==> self.view().contains_key(block_id),
            r is Some ==> r.unwrap().wf() && r.unwrap().points() == self.view()[block_id],
    {
        match self.ranges.get(&block_id) {
            Some(rs) => Some(rs.duplicate()),
            None => None,
        }
    }

    /// Adds `range` to the ranges of `block_id`. When the total then exceeds the capacity,
    /// the block with the most modified bytes is taken out and returned.
    pub fn push(&mut self, block_id: usize, range: Range<usize>) -> (r: Option<(usize, RangeSet)>)
        requires
            old(self).wf(),
        ensures
            final(self).wf(),
            final(self).spec_capacity() == old(self).spec_capacity(),
            final(self).spec_len() <= final(self).spec_capacity(),
            ({
                let prev = points_or_empty(old(self).view(), block_id);
                let after = old(self).view().insert(block_id, prev.union(span(range)));
                let grown = old(self).spec_len() + after[block_id].len() - prev.len();
                &&& grown <= old(self).spec_capacity() ==> r is None && final(self).view() == after
                    && final(self).spec_len() == grown
                &&& grown > old(self).spec_capacity() ==> r is Some && {
                    let (e, rs) = r.unwrap();
                    &&& after.contains_key(e)
                    &&& rs.wf()
                    &&& rs.points() == after[e]
                    &&& forall|j: usize| #[trigger] after.contains_key(j) ==> after[j].len() <= after[e].len()
                    &&& final(self).view() == after.remove(e)
                    &&& final(self).spec_len() == grown - after[e].len()
                }
            }),
    {
        proof {
            self.lemma_lens();
        }
        let ghost old_view = self.view();
        let ghost old_entries = queue_entries(self.queue);
        let ghost prev = points_or_empty(old_view, block_id);
        let existing = self.ranges.remove(&block_id);
        let mut rs = match existing {
            Some(rs) => rs,
            None => RangeSet::new(),
        };
        proof {
            rs.lemma_wf();
            if !old_view.contains_key(block_id) {
                assert(rs.points() =~= Set::<int>::empty());
            }
            assert(rs.points() == prev);
        }
        let old_len = rs.len();
        let added = rs.insert(range);
        proof {
            rs.lemma_wf();
            lemma_covered_len(added@);
        }
        let new_len = rs.len();
        let inc = new_len - old_len;
        self.ranges.insert(block_id, rs);
        let _ = queue_push(&mut self.queue, block_id, new_len);
        let ghost after = old_view.insert(block_id, prev.union(span(range)));
        proof {
            lemma_weight_sum_update(self.keys@, old_entries, block_id, new_len);
            let ok = self.keys@;
            if !self.keys@.contains(block_id) {
                self.keys@ = self.keys@.push(block_id);
                lemma_push_no_dups(ok, block_id);
            }
            assert(self.view() =~= after);
            assert forall|k: usize| #[trigger] self.ranges@.dom().contains(k) <==> self.keys@.contains(k) by {
                lemma_push_contains(ok, block_id, k);
            }
        }
        let ghost grown = old(self).spec_len() + after[block_id].len() - prev.len();
        assert(grown == self.cur_size + inc);
        if inc <= self.max_size - self.cur_size {
            self.cur_size = self.cur_size + inc;
            proof {
                assert(queue_entries(self.queue).dom() =~= self.ranges@.dom());
                assert(lists(self.keys@, self.ranges@.dom()));
                assert(self.cur_size == weight_sum(self.keys@, queue_entries(self.queue)));
                assert forall|id: usize| #[trigger] self.ranges@.contains_key(id) implies self.ranges@[id].wf()
                    && queue_entries(self.queue)[id] == self.ranges@[id].spec_len() by {
                    if id != block_id {
                        assert(old(self).ranges@.contains_key(id));
                    }
                }
            }
            return None;
        }
        let (e, m) = match queue_pop(&mut self.queue) {
            Some(em) => em,
            None => {
                assert(queue_entries(self.queue).contains_key(block_id));
                return None;
            },
        };
        proof {
            assert(queue_entries(old(self).queue).insert(block_id, new_len).contains_key(block_id));
            assert(m >= new_len);
        }
        let evicted = self.ranges.remove(&e);
        let evicted = match evicted {
            Some(x) => x,
            None => {
                return None;
            },
        };
        proof {
            let entries = old_entries.insert(block_id, new_len as usize);
            assert(self.keys@.contains(e));
            lemma_weight_sum_update(self.keys@, entries, e, 0);
            let ok = self.keys@;
            let idx = super::index_of(ok, e);
            self.keys@ = ok.remove(idx);
            assert forall|k: usize| #[trigger] self.ranges@.dom().contains(k) <==> self.keys@.contains(k) by {
                lemma_remove_contains(ok, idx, k);
            }
            lemma_remove_contains(ok, idx, e);
            evicted.lemma_wf();
            assert(self.view() =~= after.remove(e));
            assert forall|j: usize| #[trigger] after.contains_key(j) implies after[j].len() <= after[e].len() by {
                assert(entries.contains_key(j));
                assert(entries[j] <= m);
                if j != block_id {
                    assert(old_view.contains_key(j));
                }
            }
        }
        self.cur_size = self.cur_size - (m - inc);
        proof {
            assert(queue_entries(self.queue).dom() =~= self.ranges@.dom());
            assert(self.cur_size == weight_sum(self.keys@, queue_entries(self.queue)));
            assert forall|id: usize| #[trigger] self.ranges@.contains_key(id) implies self.ranges@[id].wf()
                && queue_entries(self.queue)[id] == self.ranges@[id].spec_len() by {
                if id != block_id {
                    assert(old(self).ranges@.contains_key(id));
                }
            }
        }
        Some((e, evicted))
    }

    /// Takes `block_id` out of the ranges and the key list once the queue has dropped it.
    fn detach(&mut self, block_id: usize, priority: usize) -> (r: Option<RangeSet>)
        requires
            old(self).wf(),
            old(self).ranges@.contains_key(block_id),
            priority == queue_entries(old(self).queue)[block_id],
        ensures
            r is Some,
            r.unwrap().wf(),
            r.unwrap().points() == old(self).view()[block_id],
            r.unwrap().spec_len() == priority,
            final(self).ranges@ == old(self).ranges@.remove(block_id),
            final(self).keys@.no_duplicates(),
            forall|k: usize| #[trigger] final(self).ranges@.dom().contains(k) <==> final(self).keys@.contains(k),
            weight_sum(final(self).keys@, queue_entries(old(self).queue).remove(block_id))
                == old(self).cur_size - priority,
            priority <= old(self).cur_size,
            final(self).queue == old(self).queue,
            final(self).cur_size == old(self).cur_size,
            final(self).max_size == old(self).max_size,
    {
        let ghost entries = queue_entries(self.queue);
        let rs = self.ranges.remove(&block_id);
        proof {
            assert(self.keys@.contains(block_id));
            lemma_weight_sum_update(self.keys@, entries, block_id, 0);
            let ok = self.keys@;
            let idx = super::index_of(ok, block_id);
            self.keys@ = ok.remove(idx);
            assert forall|k: usize| #[trigger] self.ranges@.dom().contains(k) <==> self.keys@.contains(k) by {
                lemma_remove_contains(ok, idx, k);
            }
            lemma_remove_contains(ok, idx, block_id);
        }
        rs
    }

    /// Takes out the block with the most modified bytes.
    pub fn pop_first(&mut self) -> (r: Option<(usize, RangeSet)>)
        requires
            old(self).wf(),
        ensures
            final(self).wf(),
            final(self).spec_capacity() == old(self).spec_capacity(),
            r is None <==> old(self).view().dom() == Set::<usize>::empty(),
            r is None ==> final(self).view() == old(self).view() && final(self).spec_len() == old(self).spec_len(),
            r is Some ==> {
                let (e, rs) = r.unwrap();
                &&& old(self).view().contains_key(e)
                &&& rs.wf()
                &&& rs.points() == old(self).view()[e]
                &&& forall|j: usize| #[trigger] old(self).view().contains_key(j) ==> old(self).view()[j].len()
                    <= old(self).view()[e].len()
                &&& final(self).view() == old(self).view().remove(e)
                &&& final(self).spec_len() == old(self).spec_len() - old(self).view()[e].len()
            },
    {
        let ghost entries = queue_entries(self.queue);
        let ghost old_view = self.view();
        proof {
            self.lemma_lens();
            assert(forall|j: usize| #[trigger] old_view.contains_key(j) ==> old_view[j].len() == entries[j]);
        }
        match queue_peek(&self.queue) {
            None => {
                assert(old_view.dom() =~= Set::<usize>::empty());
                None
            },
            Some((e, m)) => {
                let rs = self.detach(e, m);
                let _ = queue_remove(&mut self.queue, e);
                self.cur_size = self.cur_size - m;
                let rs = match rs {
                    Some(x) => x,
                    None => { return None; },
                };
                proof {
                    assert(queue_entries(self.queue).dom() =~= self.ranges@.dom());
                    assert forall|id: usize| #[trigger] self.ranges@.contains_key(id) implies self.ranges@[id].wf()
                        && queue_entries(self.queue)[id] == self.ranges@[id].spec_len() by {
                        assert(old(self).ranges@.contains_key(id));
                    }
                    assert(self.view() =~= old_view.remove(e));
                    assert(old_view.contains_key(e));
                    assert(old_view[e].len() == entries[e]);
                    assert forall|j: usize| #[trigger] old_view.contains_key(j) implies old_view[j].len() <= old_view[e].len() by {
                        assert(entries.contains_key(j));
                        assert(old_view[j].len() == entries[j]);
                    }
                    assert(old_view.dom() != Set::<usize>::empty()) by {
                        assert(old_view.dom().contains(e));
                    }
                }
                Some((e, rs))
            },
        }
    }

    /// Takes out the ranges of `block_id`, if any.
    pub fn pop_with_id(&mut self, block_id: usize) -> (r: Option<RangeSet>)
        requires
            old(self).wf(),
        ensures
            final(self).wf(),
            final(self).spec_capacity() == old(self).spec_capacity(),
            r is Some <==> old(self).view().contains_key(block_id),
            r is None ==> final(self).view() == old(self).view() && final(self).spec_len() == old(self).spec_len(),
            r is Some ==> {
                &&& r.unwrap().wf()
                &&& r.unwrap().points() == old(self).view()[block_id]
                &&& final(self).view() == old(self).view().remove(block_id)
                &&& final(self).spec_len() == old(self).spec_len() - old(self).view()[block_id].len()
            },
    {
        let ghost old_view = self.view();
        let ghost entries = queue_entries(self.queue);
        proof {
            self.lemma_lens();
            assert(forall|j: usize| #[trigger] old_view.contains_key(j) ==> old_view[j].len() == entries[j]);
        }
        match queue_get_priority(&self.queue, block_id) {
            None => None,
            Some(m) => {
                let rs = self.detach(block_id, m);
                let _ = queue_remove(&mut self.queue, block_id);
                self.cur_size = self.cur_size - m;
                proof {
                    assert(queue_entries(self.queue).dom() =~= self.ranges@.dom());
                    assert forall|id: usize| #[trigger] self.ranges@.contains_key(id) implies self.ranges@[id].wf()
                        && queue_entries(self.queue)[id] == self.ranges@[id].spec_len() by {
                        assert(old(self).ranges@.contains_key(id));
                    }
                    assert(self.view() =~= old_view.remove(block_id));
                    assert(old_view.contains_key(block_id));
                    assert(old_view[block_id].len() == entries[block_id]);
                }
                rs
            },
        }
    }
}

} // verus!
