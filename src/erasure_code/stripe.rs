use vstd::prelude::*;

use super::block::{blocks_view, zeros, Block};
use crate::error::SUError;

verus! {

/// `k` source blocks followed by `p` parity blocks, all of one size.
#[derive(Debug)]
pub struct Stripe {
    pub stripe: Vec<Block>,
    pub k: u8,
    pub p: u8,
}

/// The contents of the present and absent slots of a stripe.
pub open spec fn opt_blocks_view(s: Seq<Option<Block>>) -> Seq<Option<Seq<u8>>> {
    s.map_values(|b: Option<Block>| match b {
        Some(b) => Some(b@),
        None => None,
    })
}

/// Every block of `blocks` holds `block_size` bytes.
pub open spec fn uniform(blocks: Seq<Seq<u8>>, block_size: nat) -> bool {
    forall|i: int| 0 <= i < blocks.len() ==> (#[trigger] blocks[i]).len() == block_size
}

impl Stripe {
    /// The contents of the blocks, sources first.
    pub open spec fn blocks(&self) -> Seq<Seq<u8>> {
        blocks_view(self.stripe@)
    }

    pub open spec fn spec_block_size(&self) -> nat {
        self.stripe@[0]@.len()
    }

    pub open spec fn wf(&self) -> bool {
        &&& self.k >= 1
        &&& self.p >= 1
        &&& self.stripe@.len() == self.k + self.p
        &&& self.spec_block_size() >= 1
        &&& uniform(self.blocks(), self.spec_block_size())
    }

    /// Number of source blocks.
    pub fn k(&self) -> (r: usize)
        ensures
            r == self.k,
    {
        self.k as usize
    }

    /// Number of parity blocks.
    pub fn p(&self) -> (r: usize)
        ensures
            r == self.p,
    {
        self.p as usize
    }

    /// Number of blocks.
    pub fn m(&self) -> (r: usize)
        ensures
            r == self.k + self.p,
    {
        self.k as usize + self.p as usize
    }

    pub fn block_size(&self) -> (r: usize)
        requires
            self.wf(),
        ensures
            r == self.spec_block_size(),
    {
        self.stripe[0].block_size()
    }

    /// A stripe made of `vec`: `k` sources then `p` parities, all of one non-zero size.
    pub fn from_vec(vec: Vec<Block>, k: usize, p: usize) -> (r: Stripe)
        requires
            1 <= k,
            1 <= p,
            k + p <= 255,
            vec@.len() == k + p,
            vec@[0]@.len() >= 1,
            uniform(blocks_view(vec@), vec@[0]@.len()),
        ensures
            r.wf(),
            r.k == k,
            r.p == p,
            r.blocks() == blocks_view(vec@),
    {
        Stripe { stripe: vec, k: k as u8, p: p as u8 }
    }

    /// A stripe of `k + p` zero-filled blocks.
    pub fn zero(k: usize, p: usize, block_size: usize) -> (r: Stripe)
        requires
            1 <= k,
            1 <= p,
            k + p <= 255,
            1 <= block_size,
        ensures
            r.wf(),
            r.k == k,
            r.p == p,
            r.spec_block_size() == block_size,
            forall|i: int| 0 <= i < k + p ==> (#[trigger] r.blocks()[i]) == zeros(block_size as nat),
    {
        let stripe = Block::zero_n(k + p, block_size);
        let r = Stripe { stripe, k: k as u8, p: p as u8 };
        assert(uniform(r.blocks(), block_size as nat)) by {
            assert forall|i: int| 0 <= i < r.blocks().len() implies (#[trigger] r.blocks()[i]).len()
                == block_size by {
                assert(r.blocks()[i] == r.stripe@[i]@);
            }
        }
        assert(r.blocks()[0] == r.stripe@[0]@);
        r
    }

    /// The block at `idx`.
    pub fn block(&self, idx: usize) -> (r: &Block)
        requires
            idx < self.stripe@.len(),
        ensures
            r@ == self.blocks()[idx as int],
    {
        &self.stripe[idx]
    }

    /// Source block `idx`.
    pub fn source(&self, idx: usize) -> (r: &Block)
        requires
            self.wf(),
            idx < self.k,
        ensures
            r@ == self.blocks()[idx as int],
    {
        &self.stripe[idx]
    }

    /// Parity block `idx`.
    pub fn parity(&self, idx: usize) -> (r: &Block)
        requires
            self.wf(),
            idx < self.p,
        ensures
            r@ == self.blocks()[self.k + idx],
    {
        &self.stripe[self.k as usize + idx]
    }

    /// Copies `data` into source block `idx` at `offset`; nothing else changes.
    pub fn write_source(&mut self, idx: usize, offset: usize, data: &[u8])
        requires
            old(self).wf(),
            idx < old(self).k,
            offset + data@.len() <= old(self).spec_block_size(),
        ensures
            final(self).wf(),
            final(self).k == old(self).k,
            final(self).p == old(self).p,
            final(self).blocks() == old(self).blocks().update(
                idx as int,
                splice(old(self).blocks()[idx as int], offset as nat, data@),
            ),
    {
        assert(self.blocks()[idx as int] == self.stripe@[idx as int]@);
        let bytes = splice_exec(&self.stripe[idx].bytes, offset, data);
        self.stripe.set(idx, Block { bytes });
        assert(self.blocks() =~= old(self).blocks().update(
            idx as int,
            splice(old(self).blocks()[idx as int], offset as nat, data@),
        ));
        assert(self.blocks()[0] == self.stripe@[0]@);
        assert(old(self).blocks()[0] == old(self).stripe@[0]@);
    }
}

/// `base` with `data` written over it from `offset` on.
pub open spec fn splice(base: Seq<u8>, offset: nat, data: Seq<u8>) -> Seq<u8> {
    Seq::new(
        base.len(),
        |b: int|
            if offset <= b < offset + data.len() {
                data[b - offset]
            } else {
                base[b]
            },
    )
}

/// `base` with `data` written over it from `offset` on.
pub fn splice_exec(base: &Vec<u8>, offset: usize, data: &[u8]) -> (r: Vec<u8>)
    requires
        offset + data@.len() <= base@.len(),
    ensures
        r@ == splice(base@, offset as nat, data@),
{
    let mut out: Vec<u8> = Vec::new();
    let mut b: usize = 0;
    while b < base.len()
        invariant
            b <= base@.len(),
            offset + data@.len() <= base@.len(),
            out@.len() == b,
            forall|t: int| 0 <= t < b ==> out@[t] == splice(base@, offset as nat, data@)[t],
        decreases base@.len() - b,
    {
        if offset <= b && b < offset + data.len() {
            out.push(data[b - offset]);
        } else {
            out.push(base[b]);
        }
        b = b + 1;
    }
    assert(out@ =~= splice(base@, offset as nat, data@));
    out
}

/// A stripe whose slots are each present or absent; present blocks share one size.
#[derive(Debug)]
pub struct PartialStripe {
    pub block_size: usize,
    pub stripe: Vec<Option<Block>>,
    pub k: u8,
    pub p: u8,
}

impl PartialStripe {
    /// The slots, sources first.
    pub open spec fn slots(&self) -> Seq<Option<Seq<u8>>> {
        opt_blocks_view(self.stripe@)
    }

    pub open spec fn wf(&self) -> bool {
        &&& self.k >= 1
        &&& self.p >= 1
        &&& self.stripe@.len() == self.k + self.p
        &&& self.block_size >= 1
        &&& forall|i: int|
            0 <= i < self.stripe@.len() && (#[trigger] self.stripe@[i]) is Some ==> self.stripe@[i].unwrap()@.len()
                == self.block_size
    }

    pub fn k(&self) -> (r: usize)
        ensures
            r == self.k,
    {
        self.k as usize
    }

    pub fn p(&self) -> (r: usize)
        ensures
            r == self.p,
    {
        self.p as usize
    }

    pub fn m(&self) -> (r: usize)
        ensures
            r == self.k + self.p,
    {
        self.k as usize + self.p as usize
    }

    pub fn block_size(&self) -> (r: usize)
        ensures
            r == self.block_size,
    {
        self.block_size
    }

    /// `true` iff every slot holds a block.
    pub fn is_all_present(&self) -> (r: bool)
        ensures
            r == forall|i: int| 0 <= i < self.stripe@.len() ==> (#[trigger] self.stripe@[i]) is Some,
    {
        let mut i: usize = 0;
        while i < self.stripe.len()
            invariant
                i <= self.stripe@.len(),
                forall|t: int| 0 <= t < i ==> (#[trigger] self.stripe@[t]) is Some,
            decreases self.stripe@.len() - i,
        {
            if self.stripe[i].is_none() {
                return false;
            }
            i = i + 1;
        }
        true
    }

    /// `true` iff no slot holds a block.
    pub fn is_all_absent(&self) -> (r: bool)
        ensures
            r == forall|i: int| 0 <= i < self.stripe@.len() ==> (#[trigger] self.stripe@[i]) is None,
    {
        let mut i: usize = 0;
        while i < self.stripe.len()
            invariant
                i <= self.stripe@.len(),
                forall|t: int| 0 <= t < i ==> (#[trigger] self.stripe@[t]) is None,
            decreases self.stripe@.len() - i,
        {
            if self.stripe[i].is_some() {
                return false;
            }
            i = i + 1;
        }
        true
    }

    /// Puts `block` into slot `block_idx` and returns what was there.
    pub fn replace_block(&mut self, block_idx: usize, block: Option<Block>) -> (r: Option<Block>)
        requires
            old(self).wf(),
            block_idx < old(self).stripe@.len(),
            block matches Some(b) ==> b@.len() == old(self).block_size,
        ensures
            final(self).wf(),
            r == old(self).stripe@[block_idx as int],
            final(self).stripe@ == old(self).stripe@.update(block_idx as int, block),
            final(self).k == old(self).k,
            final(self).p == old(self).p,
            final(self).block_size == old(self).block_size,
    {
        let prev = self.stripe.remove(block_idx);
        self.stripe.insert(block_idx, block);
        assert(self.stripe@ =~= old(self).stripe@.update(block_idx as int, block));
        prev
    }

    /// A stripe of `k + p` absent slots for blocks of `block_size` bytes.
    pub fn make_absent_from_k_p(k: usize, p: usize, block_size: usize) -> (r: PartialStripe)
        requires
            1 <= k,
            1 <= p,
            k + p <= 255,
            1 <= block_size,
        ensures
            r.wf(),
            r.k == k,
            r.p == p,
            r.block_size == block_size,
            forall|i: int| 0 <= i < k + p ==> (#[trigger] r.stripe@[i]) is None,
    {
        let mut stripe: Vec<Option<Block>> = Vec::new();
        let mut i: usize = 0;
        let m = k + p;
        while i < m
            invariant
                m == k + p,
                i <= k + p,
                stripe@.len() == i,
                forall|t: int| 0 <= t < i ==> (#[trigger] stripe@[t]) is None,
            decreases k + p - i,
        {
            stripe.push(None);
            i = i + 1;
        }
        PartialStripe { block_size, stripe, k: k as u8, p: p as u8 }
    }

    /// The indexes of the present slots, in order.
    pub fn present_block_index(&self) -> (r: Vec<usize>)
        ensures
            r@ == present_indexes(self.stripe@, self.stripe@.len() as int),
    {
        let mut out: Vec<usize> = Vec::new();
        let mut i: usize = 0;
        while i < self.stripe.len()
            invariant
                i <= self.stripe@.len(),
                out@ == present_indexes(self.stripe@, i as int),
            decreases self.stripe@.len() - i,
        {
            if self.stripe[i].is_some() {
                out.push(i);
            }
            i = i + 1;
        }
        out
    }

    /// The indexes of the absent slots, in order.
    pub fn absent_block_index(&self) -> (r: Vec<usize>)
        ensures
            r@ == absent_indexes(self.stripe@, self.stripe@.len() as int),
    {
        let mut out: Vec<usize> = Vec::new();
        let mut i: usize = 0;
        while i < self.stripe.len()
            invariant
                i <= self.stripe@.len(),
                out@ == absent_indexes(self.stripe@, i as int),
            decreases self.stripe@.len() - i,
        {
            if self.stripe[i].is_none() {
                out.push(i);
            }
            i = i + 1;
        }
        out
    }

    /// Moves the blocks of `stripe` into present slots.
    pub fn from_stripe(stripe: Stripe) -> (r: PartialStripe)
        requires
            stripe.wf(),
        ensures
            r.wf(),
            r.k == stripe.k,
            r.p == stripe.p,
            r.block_size == stripe.spec_block_size(),
            r.slots() == stripe.blocks().map_values(|b: Seq<u8>| Some(b)),
    {
        let bs = stripe.block_size();
        let ghost blocks = stripe.blocks();
        let k = stripe.k;
        let p = stripe.p;
        let mut slots: Vec<Option<Block>> = Vec::new();
        let mut src = stripe.stripe;
        let ghost all = src@;
        while src.len() > 0
            invariant
                blocks == blocks_view(all),
                uniform(blocks, bs as nat),
                slots@.len() + src@.len() == all.len(),
                forall|t: int| 0 <= t < slots@.len() ==> (#[trigger] slots@[t]) == Some(all[t]),
                forall|t: int| 0 <= t < src@.len() ==> (#[trigger] src@[t]) == all[t + slots@.len()],
            decreases src@.len(),
        {
            let b = src.remove(0);
            slots.push(Some(b));
        }
        let r = PartialStripe { block_size: bs, stripe: slots, k, p };
        assert(r.slots() =~= blocks.map_values(|b: Seq<u8>| Some(b)));
        assert forall|i: int| 0 <= i < r.stripe@.len() && (#[trigger] r.stripe@[i]) is Some implies r.stripe@[i].unwrap()@.len() == r.block_size by {
            assert(blocks[i] == all[i]@);
        }
        r
    }
}

/// The indexes `< n` of the present slots, in order.
pub open spec fn present_indexes(s: Seq<Option<Block>>, n: int) -> Seq<usize>
    decreases n,
{
    if n <= 0 {
        seq![]
    } else if s[n - 1] is Some {
        present_indexes(s, n - 1).push((n - 1) as usize)
    } else {
        present_indexes(s, n - 1)
    }
}

/// The indexes `< n` of the absent slots, in order.
pub open spec fn absent_indexes(s: Seq<Option<Block>>, n: int) -> Seq<usize>
    decreases n,
{
    if n <= 0 {
        seq![]
    } else if s[n - 1] is None {
        absent_indexes(s, n - 1).push((n - 1) as usize)
    } else {
        absent_indexes(s, n - 1)
    }
}

} // verus!
