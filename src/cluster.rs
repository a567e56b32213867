//! Parameters and routing rules of a cluster run: one coordinator, workers `1..=W`.
use vstd::prelude::*;

use std::ops::Range;

verus! {

/// The parameters of a coordinator.
#[derive(Debug, Clone)]
pub struct CoordinatorBuilder {
    pub redis_url: Option<String>,
    pub block_size: Option<usize>,
    pub slice_size: Option<usize>,
    pub block_num: Option<usize>,
    pub buf_capacity: Option<usize>,
    pub worker_num: Option<usize>,
    pub k_p: Option<(usize, usize)>,
    pub test_load: Option<usize>,
}

impl CoordinatorBuilder {
    /// Nothing set yet.
    pub fn new() -> (r: CoordinatorBuilder)
        ensures
            r.redis_url is None,
            r.block_size is None,
            r.slice_size is None,
            r.block_num is None,
            r.buf_capacity is None,
            r.worker_num is None,
            r.k_p is None,
            r.test_load is None,
    {
        CoordinatorBuilder { redis_url: None, block_size: None, slice_size: None, block_num: None, buf_capacity: None, worker_num: None, k_p: None, test_load: None }
    }

    pub fn redis_url(self, url: String) -> (r: CoordinatorBuilder)
        ensures
            r == (CoordinatorBuilder { redis_url: Some(url), ..self }),
    {
        CoordinatorBuilder { redis_url: Some(url), ..self }
    }

    pub fn block_size(self, size: usize) -> (r: CoordinatorBuilder)
        ensures
            r == (CoordinatorBuilder { block_size: Some(size), ..self }),
    {
        CoordinatorBuilder { block_size: Some(size), ..self }
    }

    pub fn slice_size(self, size: usize) -> (r: CoordinatorBuilder)
        ensures
            r == (CoordinatorBuilder { slice_size: Some(size), ..self }),
    {
        CoordinatorBuilder { slice_size: Some(size), ..self }
    }

    pub fn buf_capacity(self, size: usize) -> (r: CoordinatorBuilder)
        ensures
            r == (CoordinatorBuilder { buf_capacity: Some(size), ..self }),
    {
        CoordinatorBuilder { buf_capacity: Some(size), ..self }
    }

    pub fn block_num(self, num: usize) -> (r: CoordinatorBuilder)
        ensures
            r == (CoordinatorBuilder { block_num: Some(num), ..self }),
    {
        CoordinatorBuilder { block_num: Some(num), ..self }
    }

    pub fn worker_num(self, num: usize) -> (r: CoordinatorBuilder)
        ensures
            r == (CoordinatorBuilder { worker_num: Some(num), ..self }),
    {
        CoordinatorBuilder { worker_num: Some(num), ..self }
    }

    pub fn k_p(self, k: usize, p: usize) -> (r: CoordinatorBuilder)
        ensures
            r == (CoordinatorBuilder { k_p: Some((k, p)), ..self }),
    {
        CoordinatorBuilder { k_p: Some((k, p)), ..self }
    }

    pub fn test_load(self, test_load: usize) -> (r: CoordinatorBuilder)
        ensures
            r == (CoordinatorBuilder { test_load: Some(test_load), ..self }),
    {
        CoordinatorBuilder { test_load: Some(test_load), ..self }
    }

}
/// The worker (numbered from 1) that owns `block_id` among `worker_num` workers.
pub fn owner_worker(block_id: usize, worker_num: usize) -> (r: usize)
    requires
        worker_num >= 1,
    ensures
        r == block_id % worker_num + 1,
        1 <= r <= worker_num,
{
    block_id % worker_num + 1
}

/// The blocks a coordinator touches when block `block_id` leaves its buffer: the other
/// sources of the stripe, whose buffered ranges join the eviction, and the parities,
/// whose bytes in the union of those ranges are read, updated and written back.
pub struct EvictionPlan {
    pub stripe_id: usize,
    pub sibling_sources: Vec<usize>,
    pub parities: Vec<usize>,
}

/// The plan for evicting `block_id` from a stripe of `k` sources and `p` parities.
pub fn eviction_plan(block_id: usize, k: usize, p: usize) -> (r: EvictionPlan)
    requires
        k >= 1,
        p >= 1,
        k + p <= usize::MAX,
        (block_id as int / (k + p) + 1) * (k + p) <= usize::MAX,
    ensures
        r.stripe_id == block_id as int / (k + p),
        r.parities@ == Seq::new(p as nat, |j: int| (r.stripe_id * (k + p) + k + j) as usize),
        forall|t: int| 0 <= t < r.sibling_sources@.len() ==> {
            let b = #[trigger] r.sibling_sources@[t];
            &&& r.stripe_id * (k + p) <= b < r.stripe_id * (k + p) + k
            &&& b != block_id
        },
        forall|j: int| 0 <= j < k && r.stripe_id * (k + p) + j != block_id ==> #[trigger] r.sibling_sources@.contains(
            (r.stripe_id * (k + p) + j) as usize,
        ),
{
    let m = k + p;
    let s = block_id / m;
    proof {
        assert(s * m + m <= usize::MAX) by (nonlinear_arith)
            requires
                (s + 1) * m <= usize::MAX,
        ;
    }
    let base = s * m;
    let mut sibling_sources: Vec<usize> = Vec::new();
    let mut j: usize = 0;
    while j < k
        invariant
            j <= k,
            m == k + p,
            base == s * m,
            base + m <= usize::MAX,
            forall|t: int| 0 <= t < sibling_sources@.len() ==> {
                let b = #[trigger] sibling_sources@[t];
                &&& base <= b < base + j
                &&& b != block_id
            },
            forall|x: int| 0 <= x < j && base + x != block_id ==> #[trigger] sibling_sources@.contains((base + x) as usize),
        decreases k - j,
    {
        if base + j != block_id {
            let ghost prev = sibling_sources@;
            sibling_sources.push(base + j);
            proof {
                assert forall|x: int| 0 <= x < j + 1 && base + x != block_id implies #[trigger] sibling_sources@.contains((base + x) as usize) by {
                    crate::storage::evict::lemma_push_contains(prev, (base + j) as usize, (base + x) as usize);
                }
            }
        }
        j = j + 1;
    }
    let mut parities: Vec<usize> = Vec::new();
    let mut j: usize = 0;
    while j < p
        invariant
            j <= p,
            m == k + p,
            base == s * m,
            base + m <= usize::MAX,
            parities@ == Seq::new(j as nat, |x: int| (base + k + x) as usize),
        decreases p - j,
    {
        parities.push(base + k + j);
        j = j + 1;
        assert(parities@ =~= Seq::new(j as nat, |x: int| (base + k + x) as usize));
    }
    EvictionPlan { stripe_id: s, sibling_sources, parities }
}

/// The bytes of `block` at each of `ranges`, one after the other in range order.
pub open spec fn concat_ranges(block: Seq<u8>, ranges: Seq<Range<usize>>) -> Seq<u8>
    decreases ranges.len(),
{
    if ranges.len() == 0 {
        Seq::empty()
    } else {
        concat_ranges(block, ranges.drop_last()) + block.subrange(
            ranges.last().start as int,
            ranges.last().end as int,
        )
    }
}

/// The sum of the lengths of `ranges`.
pub open spec fn ranges_len(ranges: Seq<Range<usize>>) -> int
    decreases ranges.len(),
{
    if ranges.len() == 0 {
        0
    } else {
        ranges_len(ranges.drop_last()) + (ranges.last().end - ranges.last().start)
    }
}

/// Every range is ordered and inside a block of `len` bytes.
pub open spec fn ranges_within(ranges: Seq<Range<usize>>, len: nat) -> bool {
    forall|i: int| 0 <= i < ranges.len() ==> (#[trigger] ranges[i]).start <= ranges[i].end <= len
}

proof fn lemma_concat_len(block: Seq<u8>, ranges: Seq<Range<usize>>)
    requires
        ranges_within(ranges, block.len()),
    ensures
        concat_ranges(block, ranges).len() == ranges_len(ranges),
    decreases ranges.len(),
{
    if ranges.len() > 0 {
        assert(ranges_within(ranges.drop_last(), block.len())) by {
            assert forall|i: int| 0 <= i < ranges.drop_last().len() implies (#[trigger] ranges.drop_last()[i]).start
                <= ranges.drop_last()[i].end <= block.len() by {
                assert(ranges.drop_last()[i] == ranges[i]);
            }
        }
        lemma_concat_len(block, ranges.drop_last());
    }
}

/// Frames the payload of a range read: the bytes of `block` at each range, in order.
pub fn concat_block_ranges(block: &Vec<u8>, ranges: &Vec<Range<usize>>) -> (r: Vec<u8>)
    requires
        ranges_within(ranges@, block@.len()),
    ensures
        r@ == concat_ranges(block@, ranges@),
{
    let mut out: Vec<u8> = Vec::new();
    let mut i: usize = 0;
    while i < ranges.len()
        invariant
            i <= ranges@.len(),
            ranges_within(ranges@, block@.len()),
            out@ == concat_ranges(block@, ranges@.take(i as int)),
        decreases ranges@.len() - i,
    {
        let lo = ranges[i].start;
        let hi = ranges[i].end;
        let ghost before = out@;
        let mut x = lo;
        while x < hi
            invariant
                lo <= x <= hi <= block@.len(),
                out@ == before + block@.subrange(lo as int, x as int),
            decreases hi - x,
        {
            out.push(block[x]);
            x = x + 1;
            assert(out@ =~= before + block@.subrange(lo as int, x as int));
        }
        proof {
            assert(ranges@.take(i + 1).drop_last() =~= ranges@.take(i as int));
        }
        i = i + 1;
    }
    assert(ranges@.take(ranges@.len() as int) =~= ranges@);
    out
}

/// Splits a range-read payload back into the bytes of each range; `None` unless the
/// payload is exactly as long as the ranges together.
pub fn split_ranges(payload: &Vec<u8>, ranges: &Vec<Range<usize>>) -> (r: Option<Vec<Vec<u8>>>)
    requires
        forall|i: int| 0 <= i < ranges@.len() ==> (#[trigger] ranges@[i]).start <= ranges@[i].end,
    ensures
        r is Some <==> payload@.len() == ranges_len(ranges@),
        r is Some ==> r.unwrap()@.len() == ranges@.len(),
        r is Some ==> forall|i: int| 0 <= i < ranges@.len() ==> (#[trigger] r.unwrap()@[i])@ == payload@.subrange(
            ranges_len(ranges@.take(i)),
            ranges_len(ranges@.take(i + 1)),
        ),
{
    let mut parts: Vec<Vec<u8>> = Vec::new();
    let mut pos: usize = 0;
    let mut i: usize = 0;
    assert(ranges@.take(0) =~= Seq::<Range<usize>>::empty());
    while i < ranges.len()
        invariant
            i <= ranges@.len(),
            forall|t: int| 0 <= t < ranges@.len() ==> (#[trigger] ranges@[t]).start <= ranges@[t].end,
            pos == ranges_len(ranges@.take(i as int)),
            pos <= payload@.len(),
            parts@.len() == i,
            forall|t: int| 0 <= t < i ==> (#[trigger] parts@[t])@ == payload@.subrange(
                ranges_len(ranges@.take(t)),
                ranges_len(ranges@.take(t + 1)),
            ),
        decreases ranges@.len() - i,
    {
        let n = ranges[i].end - ranges[i].start;
        proof {
            assert(ranges@.take(i + 1).drop_last() =~= ranges@.take(i as int));
        }
        if n > payload.len() - pos {
            proof {
                lemma_ranges_len_prefix(ranges@, i as int + 1);
            }
            return None;
        }
        let mut part: Vec<u8> = Vec::new();
        let mut x: usize = 0;
        let pl = payload.len();
        while x < n
            invariant
                x <= n,
                pl == payload@.len(),
                pos + n <= payload@.len(),
                part@ == payload@.subrange(pos as int, pos + x),
            decreases n - x,
        {
            part.push(payload[pos + x]);
            x = x + 1;
            assert(part@ =~= payload@.subrange(pos as int, pos + x));
        }
        parts.push(part);
        pos = pos + n;
        i = i + 1;
    }
    assert(ranges@.take(ranges@.len() as int) =~= ranges@);
    if pos != payload.len() {
        return None;
    }
    Some(parts)
}

/// A longer prefix of ordered ranges is at least as long.
proof fn lemma_ranges_len_prefix(ranges: Seq<Range<usize>>, n: int)
    requires
        0 <= n <= ranges.len(),
        forall|t: int| 0 <= t < ranges.len() ==> (#[trigger] ranges[t]).start <= ranges[t].end,
    ensures
        ranges_len(ranges.take(n)) <= ranges_len(ranges),
    decreases ranges.len() - n,
{
    if n < ranges.len() {
        assert(ranges.take(n + 1).drop_last() =~= ranges.take(n));
        lemma_ranges_len_prefix(ranges, n + 1);
    } else {
        assert(ranges.take(n) =~= ranges);
    }
}

/// The framing round-trips: part `i` of a concatenated range read is the bytes of range
/// `i` of the block, so `split_ranges` undoes `concat_block_ranges`.
pub proof fn lemma_range_framing_round_trip(block: Seq<u8>, ranges: Seq<Range<usize>>, i: int)
    requires
        ranges_within(ranges, block.len()),
        0 <= i < ranges.len(),
    ensures
        concat_ranges(block, ranges).len() == ranges_len(ranges),
        concat_ranges(block, ranges).subrange(ranges_len(ranges.take(i)), ranges_len(ranges.take(i + 1)))
            == block.subrange(ranges[i].start as int, ranges[i].end as int),
    decreases ranges.len(),
{
    lemma_concat_len(block, ranges);
    let init = ranges.drop_last();
    assert(ranges_within(init, block.len())) by {
        assert forall|t: int| 0 <= t < init.len() implies (#[trigger] init[t]).start <= init[t].end <= block.len() by {
            assert(init[t] == ranges[t]);
        }
    }
    lemma_concat_len(block, init);
    assert(ranges.take(i + 1).drop_last() =~= ranges.take(i));
    if i == ranges.len() - 1 {
        assert(ranges.take(i) =~= init);
        assert(ranges.take(i + 1) =~= ranges);
        let whole = concat_ranges(block, ranges);
        assert(whole.subrange(ranges_len(init), ranges_len(ranges)) =~= block.subrange(
            ranges[i].start as int,
            ranges[i].end as int,
        ));
    } else {
        lemma_range_framing_round_trip(block, init, i);
        assert(init.take(i) =~= ranges.take(i));
        assert(init.take(i + 1) =~= ranges.take(i + 1));
        assert forall|t: int| 0 <= t < init.len() implies (#[trigger] init[t]).start <= init[t].end by {
            assert(init[t] == ranges[t]);
        }
        lemma_ranges_len_prefix_within(init, i + 1);
        lemma_ranges_len_prefix_within(init, i);
        let whole = concat_ranges(block, ranges);
        assert(whole == concat_ranges(block, init) + block.subrange(
            ranges.last().start as int,
            ranges.last().end as int,
        ));
        assert(init.take(i + 1).drop_last() =~= init.take(i));
        assert(ranges_len(init.take(i)) <= ranges_len(init.take(i + 1)));
        assert(whole.subrange(ranges_len(ranges.take(i)), ranges_len(ranges.take(i + 1))) =~= concat_ranges(
            block,
            init,
        ).subrange(ranges_len(init.take(i)), ranges_len(init.take(i + 1))));
    }
}

proof fn lemma_ranges_len_prefix_within(ranges: Seq<Range<usize>>, n: int)
    requires
        0 <= n <= ranges.len(),
        forall|t: int| 0 <= t < ranges.len() ==> (#[trigger] ranges[t]).start <= ranges[t].end,
    ensures
        0 <= ranges_len(ranges.take(n)) <= ranges_len(ranges),
    decreases n,
{
    lemma_ranges_len_prefix(ranges, n);
    if n > 0 {
        assert(ranges.take(n).drop_last() =~= ranges.take(n - 1));
        lemma_ranges_len_prefix_within(ranges, n - 1);
    }
}

} // verus!
