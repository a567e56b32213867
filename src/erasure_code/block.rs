use vstd::prelude::*;

verus! {

/// A fixed-size byte buffer, one slot of a stripe.
#[derive(Debug, Clone, PartialEq, Eq)]
pub struct Block {
    pub bytes: Vec<u8>,
}

impl View for Block {
    type V = Seq<u8>;

    open spec fn view(&self) -> Seq<u8> {
        self.bytes@
    }
}

/// The contents of a sequence of blocks.
pub open spec fn blocks_view(s: Seq<Block>) -> Seq<Seq<u8>> {
    s.map_values(|b: Block| b@)
}

/// `n` zero bytes.
pub open spec fn zeros(n: nat) -> Seq<u8> {
    Seq::new(n, |i: int| 0u8)
}

impl Block {
    /// A block of `block_size` zero bytes.
    pub fn zero(block_size: usize) -> (r: Block)
        ensures
            r@ == zeros(block_size as nat),
    {
        let mut bytes: Vec<u8> = Vec::new();
        let mut i: usize = 0;
        while i < block_size
            invariant
                i <= block_size,
                bytes@ == zeros(i as nat),
            decreases block_size - i,
        {
            bytes.push(0);
            i = i + 1;
            assert(bytes@ =~= zeros(i as nat));
        }
        Block { bytes }
    }

    /// `n` blocks of `block_size` zero bytes each.
    pub fn zero_n(n: usize, block_size: usize) -> (r: Vec<Block>)
        ensures
            r@.len() == n,
            forall|i: int| 0 <= i < n ==> (#[trigger] r@[i])@ == zeros(block_size as nat),
    {
        let mut v: Vec<Block> = Vec::new();
        let mut i: usize = 0;
        while i < n
            invariant
                i <= n,
                v@.len() == i,
                forall|t: int| 0 <= t < i ==> (#[trigger] v@[t])@ == zeros(block_size as nat),
            decreases n - i,
        {
            v.push(Block::zero(block_size));
            i = i + 1;
        }
        v
    }

    /// A block holding `bytes`.
    pub fn from_vec(bytes: Vec<u8>) -> (r: Block)
        ensures
            r@ == bytes@,
    {
        Block { bytes }
    }

    pub fn block_size(&self) -> (r: usize)
        ensures
            r == self@.len(),
    {
        self.bytes.len()
    }

    pub fn as_slice(&self) -> (r: &[u8])
        ensures
            r@ == self@,
    {
        self.bytes.as_slice()
    }
}

} // verus!
