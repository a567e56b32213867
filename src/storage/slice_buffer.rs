//! The bookkeeping of the fast buffering tier: each buffered block has a log of
//! segment-sized records in the order segments were first written; an eviction turns
//! the log back into a block-ordered [`PartialBlock`].
use vstd::prelude::*;

use std::collections::HashMap;
use std::ops::Range;

use super::evict::most_modified_block::points_or_empty;
use super::evict::MostModifiedBlockEvict;
use super::range_set::{span, RangeSet};
use vstd::set_lib::set_int_range;
use crate::config::SEG_SIZE;
use crate::error::{SUError, SUResult};

verus! {

broadcast use vstd::std_specs::hash::group_hash_axioms;

/// One segment of an evicted block: its bytes, or the length of a span not buffered.
#[derive(Debug, Clone)]
pub enum SliceOpt {
    Present(Vec<u8>),
    Absent(usize),
}

/// A whole block as the buffer held it, segment by segment.
#[derive(Debug, Clone)]
pub struct PartialBlock {
    pub size: usize,
    pub slices: Vec<SliceOpt>,
}

/// An evicted block.
#[derive(Debug, Clone)]
pub struct BufferEviction {
    pub block_id: usize,
    pub data: PartialBlock,
}

/// The length of a slice entry.
pub open spec fn slice_len(s: SliceOpt) -> int {
    match s {
        SliceOpt::Present(v) => v@.len() as int,
        SliceOpt::Absent(n) => n as int,
    }
}

/// `s` holds the bytes `data`.
pub open spec fn present_with(s: SliceOpt, data: Seq<u8>) -> bool {
    s matches SliceOpt::Present(v) && v@ == data
}

/// The segments of `log` are distinct and lie in a block of `segs` segments.
pub open spec fn log_valid(log: Seq<usize>, segs: nat) -> bool {
    &&& log.no_duplicates()
    &&& forall|i: int| 0 <= i < log.len() ==> (#[trigger] log[i]) < segs
}

/// The bytes of the segments that `log` lists.
pub open spec fn log_points(log: Seq<usize>) -> Set<int> {
    Set::new(
        |x: int|
            exists|i: int| 0 <= i < log.len() && (#[trigger] log[i]) * SEG_SIZE <= x < log[i] * SEG_SIZE + SEG_SIZE,
    )
}

/// The bytes of the segments that are present in `slices`.
pub open spec fn present_points(slices: Seq<SliceOpt>) -> Set<int> {
    Set::new(
        |x: int|
            exists|s: int| 0 <= s < slices.len() && (#[trigger] slices[s]) is Present && s * SEG_SIZE <= x < s * SEG_SIZE + SEG_SIZE,
    )
}

/// `offset` and `len` are whole segments and stay inside a block of `block_size` bytes.
pub open spec fn aligned_in_block(offset: usize, len: usize, block_size: usize) -> bool {
    &&& offset % SEG_SIZE == 0
    &&& len % SEG_SIZE == 0
    &&& offset + len <= block_size
}

/// `true` iff `offset` and `len` are whole segments inside the block; else an
/// `InvalidArg` error.
pub fn check_segment_aligned(offset: usize, len: usize, block_size: usize) -> (r: SUResult<()>)
    ensures
        r is Ok <==> aligned_in_block(offset, len, block_size),
        r is Err ==> r matches Err(SUError::InvalidArg(_)),
{
    if offset % SEG_SIZE != 0 {
        return Err(SUError::invalid_arg("slice offset is not aligned with the segment size"));
    }
    if len % SEG_SIZE != 0 {
        return Err(SUError::invalid_arg("slice length is not aligned with the segment size"));
    }
    if offset > block_size || len > block_size - offset {
        return Err(SUError::invalid_arg("slice is out of the block"));
    }
    Ok(())
}

/// Rebuilds a block of `block_size` bytes in segment order from its log: record `i` of
/// `records` holds segment `log[i]`; segments not in the log are absent.
pub fn assemble_partial_block(block_size: usize, log: &Vec<usize>, records: &Vec<Vec<u8>>) -> (r: PartialBlock)
    requires
        block_size % SEG_SIZE == 0,
        log_valid(log@, (block_size / SEG_SIZE) as nat),
        records@.len() == log@.len(),
        forall|i: int| 0 <= i < records@.len() ==> (#[trigger] records@[i])@.len() == SEG_SIZE,
    ensures
        r.size == block_size,
        r.slices@.len() == block_size / SEG_SIZE,
        forall|s: int| 0 <= s < r.slices@.len() ==> slice_len(#[trigger] r.slices@[s]) == SEG_SIZE,
        forall|i: int| 0 <= i < log@.len() ==> present_with(r.slices@[log@[i] as int], (#[trigger] records@[i])@),
        forall|s: int| 0 <= s < r.slices@.len() && !log@.contains(s as usize) ==> #[trigger] r.slices@[s] == SliceOpt::Absent(SEG_SIZE),
        present_points(r.slices@) == log_points(log@),
{
    let segs = block_size / SEG_SIZE;
    let mut slices: Vec<SliceOpt> = Vec::new();
    let mut s: usize = 0;
    while s < segs
        invariant
            s <= segs,
            slices@.len() == s,
            forall|t: int| 0 <= t < s ==> #[trigger] slices@[t] == SliceOpt::Absent(SEG_SIZE),
        decreases segs - s,
    {
        slices.push(SliceOpt::Absent(SEG_SIZE));
        s = s + 1;
    }
    let ghost all = records@;
    let mut i: usize = 0;
    while i < log.len()
        invariant
            i <= log@.len(),
            log_valid(log@, segs as nat),
            records@.len() == log@.len(),
            all.len() == log@.len(),
            records@ == all,
            forall|t: int| 0 <= t < all.len() ==> (#[trigger] all[t])@.len() == SEG_SIZE,
            slices@.len() == segs,
            forall|t: int| 0 <= t < i ==> present_with(slices@[log@[t] as int], (#[trigger] all[t])@),
            forall|x: int| 0 <= x < segs && !log@.take(i as int).contains(x as usize) ==> #[trigger] slices@[x] == SliceOpt::Absent(SEG_SIZE),
        decreases log@.len() - i,
    {
        let seg = log[i];
        let rec = records[i].clone();
        assert(rec@ == all[i as int]@);
        let ghost prev = slices@;
        slices.set(seg, SliceOpt::Present(rec));
        proof {
            assert forall|t: int| 0 <= t < i + 1 implies present_with(slices@[log@[t] as int], (#[trigger] all[t])@) by {
                if t < i {
                    assert(log@[t] != log@[i as int]);
                }
            }
            assert forall|x: int| 0 <= x < segs && !log@.take(i + 1).contains(x as usize) implies #[trigger] slices@[x] == SliceOpt::Absent(SEG_SIZE) by {
                assert(log@.take(i + 1)[i as int] == seg);
                if log@.take(i as int).contains(x as usize) {
                    let j = choose|j: int| 0 <= j < i && log@.take(i as int)[j] == x as usize;
                    assert(log@.take(i + 1)[j] == x as usize);
                }
            }
        }
        i = i + 1;
    }
    assert(log@.take(log@.len() as int) =~= log@);
    assert forall|x: int| 0 <= x < slices@.len() implies slice_len(#[trigger] slices@[x]) == SEG_SIZE by {
        if log@.contains(x as usize) {
            let j = choose|j: int| 0 <= j < log@.len() && log@[j] == x as usize;
            assert(present_with(slices@[log@[j] as int], all[j]@));
        }
    }
    assert(present_points(slices@) =~= log_points(log@)) by {
        assert forall|x: int| present_points(slices@).contains(x) implies log_points(log@).contains(x) by {
            let s = choose|s: int| 0 <= s < slices@.len() && (#[trigger] slices@[s]) is Present && s * SEG_SIZE <= x < s * SEG_SIZE + SEG_SIZE;
            if !log@.contains(s as usize) {
                assert(slices@[s] == SliceOpt::Absent(SEG_SIZE));
            }
            let j = choose|j: int| 0 <= j < log@.len() && log@[j] == s as usize;
            assert(log@[j] * SEG_SIZE <= x < log@[j] * SEG_SIZE + SEG_SIZE);
        }
        assert forall|x: int| log_points(log@).contains(x) implies present_points(slices@).contains(x) by {
            let j = choose|j: int| 0 <= j < log@.len() && (#[trigger] log@[j]) * SEG_SIZE <= x < log@[j] * SEG_SIZE + SEG_SIZE;
            let s = log@[j] as int;
            assert(present_with(slices@[s], all[j]@));
        }
    }
    PartialBlock { size: block_size, slices }
}

/// `n` entries of one segment each add up to `n` segments.
proof fn lemma_slices_total_segments(slices: Seq<SliceOpt>)
    requires
        forall|s: int| 0 <= s < slices.len() ==> slice_len(#[trigger] slices[s]) == SEG_SIZE,
    ensures
        slices_total(slices) == slices.len() * SEG_SIZE,
    decreases slices.len(),
{
    if slices.len() > 0 {
        assert forall|s: int| 0 <= s < slices.drop_first().len() implies slice_len(#[trigger] slices.drop_first()[s]) == SEG_SIZE by {
            assert(slices.drop_first()[s] == slices[s + 1]);
        }
        lemma_slices_total_segments(slices.drop_first());
        assert(slice_len(slices[0]) == SEG_SIZE);
    }
}

/// Eviction hands back what was pushed: when a block leaves the buffer with the ranges
/// `points` and the log `log` (as `pop`, `pop_one` and `push_slice` return them), and
/// `assemble_partial_block` rebuilds it as `block` from its records, the present segments
/// of `block` hold exactly the bytes of `points`, and its entries add up to the block size.
pub proof fn lemma_eviction_covers_pushes(points: Set<int>, log: Seq<usize>, block: PartialBlock, block_size: usize)
    requires
        log_points(log) == points,
        block.size == block_size,
        block_size % SEG_SIZE == 0,
        block.slices@.len() == block_size / SEG_SIZE,
        forall|s: int| 0 <= s < block.slices@.len() ==> slice_len(#[trigger] block.slices@[s]) == SEG_SIZE,
        present_points(block.slices@) == log_points(log),
    ensures
        present_points(block.slices@) == points,
        slices_total(block.slices@) == block_size,
{
    lemma_slices_total_segments(block.slices@);
    vstd::arithmetic::div_mod::lemma_fundamental_div_mod(block_size as int, SEG_SIZE as int);
}

/// Where the segments of one slice write go, and what the write evicted.
pub struct SlicePlan {
    /// The record index, in the block's log, of each segment of the slice in order;
    /// an index equal to the log's old length or more is an append.
    pub records: Vec<usize>,
    /// The evicted block, its modified ranges, and its log.
    pub evicted: Option<(usize, RangeSet, Vec<usize>)>,
}

/// The index of `seg` in `log`, if present.
pub(crate) fn find_record(log: &Vec<usize>, seg: usize) -> (r: Option<usize>)
    ensures
        r matches Some(i) ==> i < log@.len() && log@[i as int] == seg,
        r is None ==> !log@.contains(seg),
{
    let mut i: usize = 0;
    while i < log.len()
        invariant
            i <= log@.len(),
            forall|t: int| 0 <= t < i ==> log@[t] != seg,
        decreases log@.len() - i,
    {
        if log[i] == seg {
            return Some(i);
        }
        i = i + 1;
    }
    None
}

/// Segment-granular buffering of slice writes, with the most-modified-block policy.
pub struct FixedSizeSliceBuf {
    evict: MostModifiedBlockEvict,
    block_size: usize,
    seg_logs: HashMap<usize, Vec<usize>>,
}

impl FixedSizeSliceBuf {
    pub closed spec fn wf(&self) -> bool {
        &&& self.evict.wf()
        &&& self.block_size % SEG_SIZE == 0
        &&& self.seg_logs@.dom() == self.evict.view().dom()
        &&& forall|id: usize| #[trigger] self.seg_logs@.contains_key(id) ==> log_valid(
            self.seg_logs@[id]@,
            (self.block_size / SEG_SIZE) as nat,
        ) && log_points(self.seg_logs@[id]@) == self.evict.view()[id]
    }

    /// The segment log of each buffered block.
    pub closed spec fn logs(&self) -> Map<usize, Seq<usize>> {
        self.seg_logs@.map_values(|v: Vec<usize>| v@)
    }

    pub closed spec fn spec_block_size(&self) -> usize {
        self.block_size
    }

    /// The modified points of each buffered block.
    pub closed spec fn view(&self) -> Map<usize, Set<int>> {
        self.evict.view()
    }

    /// An empty buffer for blocks of `block_size` bytes, up to `capacity` buffered bytes.
    pub fn connect_to_dev(block_size: usize, capacity: usize) -> (r: FixedSizeSliceBuf)
        requires
            block_size % SEG_SIZE == 0,
            capacity >= 1,
        ensures
            r.wf(),
            r.spec_block_size() == block_size,
            r.view() == Map::<usize, Set<int>>::empty(),
    {
        let r = FixedSizeSliceBuf {
            evict: MostModifiedBlockEvict::with_max_size(capacity),
            block_size,
            seg_logs: HashMap::new(),
        };
        assert(r.seg_logs@.dom() =~= r.evict.view().dom());
        r
    }

    /// The buffered bytes.
    /// The buffered bytes, as the eviction policy counts them.
    pub closed spec fn spec_len(&self) -> int {
        self.evict.spec_len()
    }

    /// The most bytes the policy keeps before it evicts.
    pub closed spec fn spec_capacity(&self) -> int {
        self.evict.spec_capacity()
    }

    /// The buffered bytes; never more than the capacity.
    pub fn len(&self) -> (r: usize)
        requires
            self.wf(),
        ensures
            r == self.spec_len(),
            r <= self.spec_capacity(),
    {
        self.evict.len()
    }

    pub fn is_empty(&self) -> (r: bool)
        requires
            self.wf(),
        ensures
            r == (self.spec_len() == 0),
    {
        self.evict.is_empty()
    }

    /// Buffers a write of `len` bytes at `offset` of `block_id`: plans where each segment
    /// goes in the block's log, and hands back the block that the write evicted.
    pub fn push_slice(&mut self, block_id: usize, offset: usize, len: usize) -> (r: SUResult<SlicePlan>)
        requires
            old(self).wf(),
        ensures
            final(self).wf(),
            final(self).spec_block_size() == old(self).spec_block_size(),
            r is Ok <==> aligned_in_block(offset, len, old(self).spec_block_size()),
            r is Err ==> (r matches Err(SUError::InvalidArg(_))) && *final(self) == *old(self),
            r is Ok ==> r.unwrap().records@.len() == len / SEG_SIZE,
            r is Ok && r.unwrap().evicted is None ==> {
                let log = final(self).logs()[block_id];
                &&& final(self).logs().contains_key(block_id)
                &&& forall|t: int| 0 <= t < len / SEG_SIZE ==> (#[trigger] r.unwrap().records@[t]) < log.len()
                    && log[r.unwrap().records@[t] as int] == offset / SEG_SIZE + t
            },
            final(self).spec_capacity() == old(self).spec_capacity(),
            final(self).spec_len() <= final(self).spec_capacity(),
            r is Ok ==> {
                let prev = points_or_empty(old(self).view(), block_id);
                let after = old(self).view().insert(block_id, prev.union(span(Range { start: offset, end: (offset + len) as usize })));
                let grown = old(self).spec_len() + after[block_id].len() - prev.len();
                &&& grown <= old(self).spec_capacity() ==> r.unwrap().evicted is None && final(self).view() == after
                    && final(self).spec_len() == grown
                &&& grown > old(self).spec_capacity() ==> r.unwrap().evicted is Some && {
                    let (e, rs, log) = r.unwrap().evicted.unwrap();
                    &&& after.contains_key(e)
                    &&& rs.wf()
                    &&& rs.points() == after[e]
                    &&& log_points(log@) == rs.points()
                    &&& log_valid(log@, (old(self).spec_block_size() / SEG_SIZE) as nat)
                    &&& forall|j: usize| #[trigger] after.contains_key(j) ==> after[j].len() <= after[e].len()
                    &&& final(self).view() == after.remove(e)
                    &&& final(self).spec_len() == grown - after[e].len()
                }
            },
    {
        proof {
            self.evict.lemma_len_bound();
        }
        match check_segment_aligned(offset, len, self.block_size) {
            Err(e) => { return Err(e); },
            Ok(()) => {},
        }
        let first = offset / SEG_SIZE;
        let n = len / SEG_SIZE;
        proof {
            assert(first + n <= self.block_size / SEG_SIZE) by (nonlinear_arith)
                requires
                    offset % SEG_SIZE == 0,
                    len % SEG_SIZE == 0,
                    self.block_size % SEG_SIZE == 0,
                    offset + len <= self.block_size,
                    first == offset / SEG_SIZE,
                    n == len / SEG_SIZE,
            ;
        }
        let segs = self.block_size / SEG_SIZE;
        let ghost prev_points = crate::storage::evict::most_modified_block::points_or_empty(self.evict.view(), block_id);
        proof {
            vstd::arithmetic::div_mod::lemma_fundamental_div_mod(offset as int, SEG_SIZE as int);
            vstd::arithmetic::div_mod::lemma_fundamental_div_mod(len as int, SEG_SIZE as int);
        }
        let mut log = match self.seg_logs.remove(&block_id) {
            Some(l) => l,
            None => Vec::new(),
        };
        proof {
            if log@.len() == 0 {
                assert(log_points(log@) =~= Set::<int>::empty());
            }
            if !old(self).evict.view().contains_key(block_id) {
                assert(log@.len() == 0);
            }
            assert(log_points(log@) == prev_points);
        }
        let mut records: Vec<usize> = Vec::new();
        let mut t: usize = 0;
        while t < n
            invariant
                t <= n,
                first + n <= segs,
                first * SEG_SIZE == offset,
                n * SEG_SIZE == len,
                log_points(log@) == prev_points.union(set_int_range(offset as int, offset + t * SEG_SIZE)),
                log_valid(log@, segs as nat),
                records@.len() == t,
                forall|u: int| 0 <= u < t ==> (#[trigger] records@[u]) < log@.len() && log@[records@[u] as int] == first + u,
            decreases n - t,
        {
            let seg = first + t;
            let ghost before = log@;
            let idx = match find_record(&log, seg) {
                Some(i) => {
                    proof {
                        assert(log_points(log@) =~= prev_points.union(set_int_range(offset as int, offset + (t + 1) * SEG_SIZE))) by {
                            assert forall|x: int| offset + t * SEG_SIZE <= x < offset + (t + 1) * SEG_SIZE implies log_points(log@).contains(x) by {
                                assert(log@[i as int] * SEG_SIZE <= x < log@[i as int] * SEG_SIZE + SEG_SIZE);
                            }
                        }
                    }
                    i
                },
                None => {
                    let ghost prev = log@;
                    log.push(seg);
                    proof {
                        assert forall|a: int, b: int| 0 <= a < log@.len() && 0 <= b < log@.len() && a != b implies log@[a] != log@[b] by {
                            if a == prev.len() {
                                assert(log@[b] == prev[b]);
                                assert(prev.contains(prev[b]));
                            } else if b == prev.len() {
                                assert(log@[a] == prev[a]);
                                assert(prev.contains(prev[a]));
                            } else {
                                assert(log@[a] == prev[a] && log@[b] == prev[b]);
                            }
                        }
                    }
                    proof {
                        assert(log_points(log@) =~= prev_points.union(set_int_range(offset as int, offset + (t + 1) * SEG_SIZE))) by {
                            assert forall|x: int| log_points(log@).contains(x) implies prev_points.union(set_int_range(offset as int, offset + (t + 1) * SEG_SIZE)).contains(x) by {
                                let j = choose|j: int| 0 <= j < log@.len() && (#[trigger] log@[j]) * SEG_SIZE <= x < log@[j] * SEG_SIZE + SEG_SIZE;
                                if j < prev.len() {
                                    assert(prev[j] == log@[j]);
                                    assert(log_points(prev).contains(x));
                                }
                            }
                            assert forall|x: int| prev_points.union(set_int_range(offset as int, offset + (t + 1) * SEG_SIZE)).contains(x) implies log_points(log@).contains(x) by {
                                if log_points(prev).contains(x) {
                                    let j = choose|j: int| 0 <= j < prev.len() && (#[trigger] prev[j]) * SEG_SIZE <= x < prev[j] * SEG_SIZE + SEG_SIZE;
                                    assert(log@[j] == prev[j]);
                                } else if offset + t * SEG_SIZE <= x < offset + (t + 1) * SEG_SIZE {
                                    assert(log@[prev.len() as int] == seg);
                                }
                            }
                        }
                    }
                    log.len() - 1
                },
            };
            records.push(idx);
            t = t + 1;
        }
        proof {
            assert(set_int_range(offset as int, offset + n * SEG_SIZE) == span(Range { start: offset, end: (offset + len) as usize }));
        }
        self.seg_logs.insert(block_id, log);
        let evicted = self.evict.push(block_id, Range { start: offset, end: offset + len });
        let evicted = match evicted {
            None => {
                proof {
                    assert(self.seg_logs@.dom() =~= self.evict.view().dom());
                }
                None
            },
            Some((e, rs)) => {
                let log = match self.seg_logs.remove(&e) {
                    Some(l) => l,
                    None => Vec::new(),
                };
                proof {
                    assert(self.seg_logs@.dom() =~= self.evict.view().dom());
                }
                Some((e, rs, log))
            },
        };
        proof {
            assert(self.logs().contains_key(block_id) ==> self.logs()[block_id] == self.seg_logs@[block_id]@);
        }
        Ok(SlicePlan { records, evicted })
    }

    /// Takes out the block with the most modified bytes, with its ranges and its log.
    pub fn pop(&mut self) -> (r: Option<(usize, RangeSet, Vec<usize>)>)
        requires
            old(self).wf(),
        ensures
            final(self).wf(),
            r is None <==> old(self).view().dom() == Set::<usize>::empty(),
            r is Some ==> {
                let (e, rs, log) = r.unwrap();
                &&& old(self).view().contains_key(e)
                &&& rs.wf()
                &&& rs.points() == old(self).view()[e]
                &&& log@ == old(self).logs()[e]
                &&& log_points(log@) == rs.points()
                &&& forall|j: usize| #[trigger] old(self).view().contains_key(j) ==> old(self).view()[j].len()
                    <= old(self).view()[e].len()
                &&& final(self).spec_len() == old(self).spec_len() - old(self).view()[e].len()
                &&& log_valid(log@, (old(self).spec_block_size() / SEG_SIZE) as nat)
                &&& final(self).view() == old(self).view().remove(e)
            },
    {
        match self.evict.pop_first() {
            None => None,
            Some((e, rs)) => {
                let log = match self.seg_logs.remove(&e) {
                    Some(l) => l,
                    None => Vec::new(),
                };
                proof {
                    assert(self.seg_logs@.dom() =~= self.evict.view().dom());
                    assert(old(self).logs()[e] == old(self).seg_logs@[e]@);
                }
                Some((e, rs, log))
            },
        }
    }

    /// Takes out `block_id`, with its ranges and its log, if it is buffered.
    pub fn pop_one(&mut self, block_id: usize) -> (r: Option<(RangeSet, Vec<usize>)>)
        requires
            old(self).wf(),
        ensures
            final(self).wf(),
            r is Some <==> old(self).view().contains_key(block_id),
            r is Some ==> {
                let (rs, log) = r.unwrap();
                &&& rs.wf()
                &&& rs.points() == old(self).view()[block_id]
                &&& log@ == old(self).logs()[block_id]
                &&& log_points(log@) == rs.points()
                &&& final(self).spec_len() == old(self).spec_len() - old(self).view()[block_id].len()
                &&& log_valid(log@, (old(self).spec_block_size() / SEG_SIZE) as nat)
                &&& final(self).view() == old(self).view().remove(block_id)
            },
    {
        match self.evict.pop_with_id(block_id) {
            None => None,
            Some(rs) => {
                let log = match self.seg_logs.remove(&block_id) {
                    Some(l) => l,
                    None => Vec::new(),
                };
                proof {
                    assert(self.seg_logs@.dom() =~= self.evict.view().dom());
                    assert(old(self).logs()[block_id] == old(self).seg_logs@[block_id]@);
                }
                Some((rs, log))
            },
        }
    }
}

/// The total length of a sequence of slice entries.
pub open spec fn slices_total(slices: Seq<SliceOpt>) -> int
    decreases slices.len(),
{
    if slices.len() == 0 {
        0
    } else {
        slice_len(slices[0]) + slices_total(slices.drop_first())
    }
}

/// `base` with the present entries of `slices`, laid out from `pos` on, written over it.
pub open spec fn overlaid(base: Seq<u8>, slices: Seq<SliceOpt>, pos: int) -> Seq<u8>
    decreases slices.len(),
{
    if slices.len() == 0 {
        base
    } else {
        let next = match slices[0] {
            SliceOpt::Present(v) => crate::erasure_code::stripe::splice(base, pos as nat, v@),
            SliceOpt::Absent(_) => base,
        };
        overlaid(next, slices.drop_first(), pos + slice_len(slices[0]))
    }
}

proof fn lemma_slices_total_nonneg(slices: Seq<SliceOpt>)
    ensures
        slices_total(slices) >= 0,
    decreases slices.len(),
{
    if slices.len() > 0 {
        lemma_slices_total_nonneg(slices.drop_first());
    }
}

/// The block after a buffered eviction: the present segments of `data` written over the
/// stored `block`, the rest kept.
pub fn overlay_partial_block(block: &Vec<u8>, data: &PartialBlock) -> (r: Vec<u8>)
    requires
        slices_total(data.slices@) <= block@.len(),
    ensures
        r@ == overlaid(block@, data.slices@, 0),
        r@.len() == block@.len(),
{
    let mut out: Vec<u8> = block.clone();
    assert(out@ =~= block@);
    let mut pos: usize = 0;
    let mut i: usize = 0;
    let ghost n = data.slices@.len();
    assert(data.slices@.skip(0) =~= data.slices@);
    let bl = block.len();
    while i < data.slices.len()
        invariant
            i <= n == data.slices@.len(),
            bl == block@.len(),
            out@.len() == block@.len(),
            pos + slices_total(data.slices@.skip(i as int)) <= block@.len(),
            overlaid(block@, data.slices@, 0) == overlaid(out@, data.slices@.skip(i as int), pos as int),
        decreases n - i,
    {
        let ghost rest = data.slices@.skip(i as int);
        assert(rest.drop_first() =~= data.slices@.skip(i + 1));
        assert(rest[0] == data.slices@[i as int]);
        proof {
            lemma_slices_total_nonneg(rest.drop_first());
            assert(slices_total(rest) == slice_len(rest[0]) + slices_total(rest.drop_first()));
        }
        match &data.slices[i] {
            SliceOpt::Present(v) => {
                assert(slice_len(rest[0]) == v@.len());
                out = crate::erasure_code::stripe::splice_exec(&out, pos, v.as_slice());
                pos = pos + v.len();
            },
            SliceOpt::Absent(len) => {
                assert(slice_len(rest[0]) == *len);
                pos = pos + *len;
            },
        }
        i = i + 1;
    }
    out
}

} // verus!
