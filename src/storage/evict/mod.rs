//! Keyed containers of modified byte ranges that decide which block to evict.
pub mod lru_evict;
pub mod most_modified_block;
pub mod most_modified_stripe;
pub mod non_evict;

pub use lru_evict::LruEvict;
pub use most_modified_block::MostModifiedBlockEvict;
pub use most_modified_stripe::MostModifiedStripeEvict;
pub use non_evict::NonEvict;

use vstd::prelude::*;

verus! {

#[verifier::external_type_specification]
#[verifier::external_body]
#[verifier::reject_recursive_types(I)]
#[verifier::reject_recursive_types(P)]
#[verifier::reject_recursive_types(H)]
pub struct ExPriorityQueue<I, P, H>(priority_queue::PriorityQueue<I, P, H>);

/// A max-priority queue of block or stripe ids keyed by their modified bytes.
pub type IdQueue = priority_queue::PriorityQueue<usize, usize>;

/// The ids in a queue, each with its priority.
pub uninterp spec fn queue_entries(q: IdQueue) -> Map<usize, usize>;

/// Relies on priority_queue::PriorityQueue::new: an empty queue.
#[verifier::external_body]
pub(crate) fn queue_new() -> (r: IdQueue)
    ensures
        queue_entries(r).dom() == Set::<usize>::empty(),
{
    priority_queue::PriorityQueue::new()
}

/// Relies on priority_queue::PriorityQueue::push: sets the priority of `item`, returning
/// the priority it replaced.
#[verifier::external_body]
pub(crate) fn queue_push(q: &mut IdQueue, item: usize, priority: usize) -> (r: Option<usize>)
    ensures
        queue_entries(*final(q)) == queue_entries(*old(q)).insert(item, priority),
        r == if queue_entries(*old(q)).contains_key(item) {
            Some(queue_entries(*old(q))[item])
        } else {
            None
        },
{
    q.push(item, priority)
}

/// Relies on priority_queue::PriorityQueue::pop: removes an item of greatest priority.
#[verifier::external_body]
pub(crate) fn queue_pop(q: &mut IdQueue) -> (r: Option<(usize, usize)>)
    ensures
        r is None <==> queue_entries(*old(q)).dom() == Set::<usize>::empty(),
        r is None ==> queue_entries(*final(q)) == queue_entries(*old(q)),
        r is Some ==> is_max_entry(queue_entries(*old(q)), r.unwrap().0, r.unwrap().1),
        r is Some ==> queue_entries(*final(q)) == queue_entries(*old(q)).remove(r.unwrap().0),
{
    q.pop()
}

/// Relies on priority_queue::PriorityQueue::peek: an item of greatest priority.
#[verifier::external_body]
pub(crate) fn queue_peek(q: &IdQueue) -> (r: Option<(usize, usize)>)
    ensures
        r is None <==> queue_entries(*q).dom() == Set::<usize>::empty(),
        r is Some ==> is_max_entry(queue_entries(*q), r.unwrap().0, r.unwrap().1),
{
    q.peek().map(|(i, p)| (*i, *p))
}

/// Relies on priority_queue::PriorityQueue::get_priority: the priority of `item`.
#[verifier::external_body]
pub(crate) fn queue_get_priority(q: &IdQueue, item: usize) -> (r: Option<usize>)
    ensures
        r == if queue_entries(*q).contains_key(item) {
            Some(queue_entries(*q)[item])
        } else {
            None
        },
{
    q.get_priority(&item).copied()
}

/// Relies on priority_queue::PriorityQueue::remove: takes `item` out with its priority.
#[verifier::external_body]
pub(crate) fn queue_remove(q: &mut IdQueue, item: usize) -> (r: Option<(usize, usize)>)
    ensures
        queue_entries(*final(q)) == queue_entries(*old(q)).remove(item),
        r == if queue_entries(*old(q)).contains_key(item) {
            Some((item, queue_entries(*old(q))[item]))
        } else {
            None
        },
{
    q.remove(&item)
}

/// `(item, priority)` is in `m` and no priority in `m` is greater.
pub open spec fn is_max_entry(m: Map<usize, usize>, item: usize, priority: usize) -> bool {
    &&& m.contains_key(item)
    &&& m[item] == priority
    &&& forall|j: usize| #[trigger] m.contains_key(j) ==> m[j] <= priority
}

/// The sum of the weights of `keys`.
pub open spec fn weight_sum(keys: Seq<usize>, w: Map<usize, usize>) -> int
    decreases keys.len(),
{
    if keys.len() == 0 {
        0
    } else {
        weight_sum(keys.drop_last(), w) + w[keys.last()]
    }
}

/// The weights of keys outside `keys` do not matter.
pub proof fn lemma_weight_sum_frame(keys: Seq<usize>, w1: Map<usize, usize>, w2: Map<usize, usize>)
    requires
        forall|i: int| 0 <= i < keys.len() ==> w1[#[trigger] keys[i]] == w2[keys[i]],
    ensures
        weight_sum(keys, w1) == weight_sum(keys, w2),
    decreases keys.len(),
{
    if keys.len() > 0 {
        assert forall|i: int| 0 <= i < keys.drop_last().len() implies w1[#[trigger] keys.drop_last()[i]]
            == w2[keys.drop_last()[i]] by {
            assert(keys.drop_last()[i] == keys[i]);
        }
        lemma_weight_sum_frame(keys.drop_last(), w1, w2);
        assert(w1[keys[keys.len() - 1]] == w2[keys[keys.len() - 1]]);
    }
}

/// Taking one key out of the sum.
pub proof fn lemma_weight_sum_remove(keys: Seq<usize>, w: Map<usize, usize>, i: int)
    requires
        0 <= i < keys.len(),
    ensures
        weight_sum(keys, w) == weight_sum(keys.remove(i), w) + w[keys[i]],
        weight_sum(keys.remove(i), w) >= 0,
    decreases keys.len(),
{
    lemma_weight_sum_nonneg(keys.remove(i), w);
    if i < keys.len() - 1 {
        lemma_weight_sum_remove(keys.drop_last(), w, i);
        assert(keys.remove(i).drop_last() =~= keys.drop_last().remove(i));
        assert(keys.remove(i).last() == keys.last());
    } else {
        assert(keys.remove(i) =~= keys.drop_last());
    }
}

/// Sums of weights are not negative.
pub proof fn lemma_weight_sum_nonneg(keys: Seq<usize>, w: Map<usize, usize>)
    ensures
        weight_sum(keys, w) >= 0,
    decreases keys.len(),
{
    if keys.len() > 0 {
        lemma_weight_sum_nonneg(keys.drop_last(), w);
    }
}

/// The index of `k` in `keys`.
pub open spec fn index_of(keys: Seq<usize>, k: usize) -> int {
    choose|i: int| 0 <= i < keys.len() && keys[i] == k
}

/// `keys` lists each key of `dom` exactly once.
pub open spec fn lists(keys: Seq<usize>, dom: Set<usize>) -> bool {
    &&& keys.no_duplicates()
    &&& forall|k: usize| #[trigger] dom.contains(k) <==> keys.contains(k)
}

/// Changing the weight of one listed key changes the sum by the difference.
pub proof fn lemma_weight_sum_update(keys: Seq<usize>, w: Map<usize, usize>, k: usize, v: usize)
    requires
        keys.no_duplicates(),
    ensures
        keys.contains(k) ==> weight_sum(keys, w.insert(k, v)) == weight_sum(keys, w) - w[k] + v,
        !keys.contains(k) ==> weight_sum(keys, w.insert(k, v)) == weight_sum(keys, w),
        !keys.contains(k) ==> weight_sum(keys.push(k), w.insert(k, v)) == weight_sum(keys, w) + v,
        keys.contains(k) ==> weight_sum(keys.remove(index_of(keys, k)), w.remove(k)) == weight_sum(keys, w) - w[k],
        keys.contains(k) ==> w[k] <= weight_sum(keys, w),
{
    if keys.contains(k) {
        let i = index_of(keys, k);
        let rest = keys.remove(i);
        assert forall|j: int| 0 <= j < rest.len() implies w.insert(k, v)[#[trigger] rest[j]] == w[rest[j]] by {
            if j < i {
                assert(rest[j] == keys[j]);
            } else {
                assert(rest[j] == keys[j + 1]);
            }
        }
        assert forall|j: int| 0 <= j < rest.len() implies w.remove(k)[#[trigger] rest[j]] == w[rest[j]] by {
            if j < i {
                assert(rest[j] == keys[j]);
            } else {
                assert(rest[j] == keys[j + 1]);
            }
        }
        lemma_weight_sum_frame(rest, w.insert(k, v), w);
        lemma_weight_sum_frame(rest, w.remove(k), w);
        lemma_weight_sum_remove(keys, w, i);
        lemma_weight_sum_remove(keys, w.insert(k, v), i);
    } else {
        assert forall|j: int| 0 <= j < keys.len() implies w.insert(k, v)[#[trigger] keys[j]] == w[keys[j]] by {
            assert(keys.contains(keys[j]));
        }
        lemma_weight_sum_frame(keys, w.insert(k, v), w);
        assert(keys.push(k).drop_last() =~= keys);
    }
}

/// Appending `x` adds exactly `x`.
pub proof fn lemma_push_contains(s: Seq<usize>, x: usize, k: usize)
    ensures
        s.push(x).contains(k) <==> s.contains(k) || k == x,
{
    if s.push(x).contains(k) && k != x {
        let i = choose|i: int| 0 <= i < s.push(x).len() && s.push(x)[i] == k;
        assert(s[i] == k);
    }
    if s.contains(k) {
        let i = choose|i: int| 0 <= i < s.len() && s[i] == k;
        assert(s.push(x)[i] == k);
    }
    if k == x {
        assert(s.push(x)[s.len() as int] == k);
    }
}

/// Removing position `i` of a list without duplicates removes exactly `s[i]`.
pub proof fn lemma_remove_contains(s: Seq<usize>, i: int, k: usize)
    requires
        s.no_duplicates(),
        0 <= i < s.len(),
    ensures
        s.remove(i).contains(k) <==> s.contains(k) && k != s[i],
        s.remove(i).no_duplicates(),
{
    let r = s.remove(i);
    if r.contains(k) {
        let j = choose|j: int| 0 <= j < r.len() && r[j] == k;
        if j < i {
            assert(s[j] == k);
        } else {
            assert(s[j + 1] == k);
        }
    }
    if s.contains(k) && k != s[i] {
        let j = choose|j: int| 0 <= j < s.len() && s[j] == k;
        if j < i {
            assert(r[j] == k);
        } else {
            assert(r[j - 1] == k);
        }
    }
    assert forall|a: int, b: int| 0 <= a < r.len() && 0 <= b < r.len() && a != b implies r[a] != r[b] by {
        let sa = if a < i { a } else { a + 1 };
        let sb = if b < i { b } else { b + 1 };
        assert(r[a] == s[sa] && r[b] == s[sb]);
    }
}

/// Appending a key not yet listed keeps the list free of duplicates.
pub proof fn lemma_push_no_dups(s: Seq<usize>, x: usize)
    requires
        s.no_duplicates(),
        !s.contains(x),
    ensures
        s.push(x).no_duplicates(),
{
    let t = s.push(x);
    assert forall|a: int, b: int| 0 <= a < t.len() && 0 <= b < t.len() && a != b implies t[a] != t[b] by {
        if a == s.len() {
            assert(t[b] == s[b]);
            assert(s.contains(s[b]));
        } else if b == s.len() {
            assert(t[a] == s[a]);
            assert(s.contains(s[a]));
        } else {
            assert(t[a] == s[a] && t[b] == s[b]);
        }
    }
}

} // verus!
