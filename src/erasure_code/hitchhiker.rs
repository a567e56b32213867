use vstd::prelude::*;

use super::block::Block;
use super::reed_solomon::{absent_count, decoded_from, encoded_parity, is_encoded, ReedSolomon};
use super::stripe::{PartialStripe, Stripe};
use crate::error::{is_ec_err, SUError, SUResult};
use crate::gf::{lincomb_at, rows_view, rs_matrix};
use super::reed_solomon::lemma_lincomb_prefix;

verus! {

/// The Hitchhiker-XOR code: two Reed-Solomon sub-stripes, with groups of sources of the
/// first XOR-ed into the parities `1..p` of the second.
pub struct HitchhikerXor {
    pub rs: ReedSolomon,
}

/// Sources per XOR group: `ceil(k / (p - 1))`.
pub open spec fn xor_group_size(k: nat, p: nat) -> nat {
    (k / ((p - 1) as nat) + if k % ((p - 1) as nat) == 0 {
        0nat
    } else {
        1nat
    }) as nat
}

/// Byte `x` of the XOR of sources `[lo, hi)` of `blocks`.
pub open spec fn xor_sources(blocks: Seq<Seq<u8>>, lo: int, hi: int, x: int) -> u8
    decreases hi - lo,
{
    if hi <= lo {
        0u8
    } else {
        xor_sources(blocks, lo, hi - 1, x) ^ blocks[hi - 1][x]
    }
}

proof fn lemma_xor_sources_frame(a1: Seq<Seq<u8>>, a2: Seq<Seq<u8>>, lo: int, hi: int, x: int)
    requires
        forall|s: int| lo <= s < hi ==> #[trigger] a1[s] == a2[s],
    ensures
        xor_sources(a1, lo, hi, x) == xor_sources(a2, lo, hi, x),
    decreases hi - lo,
{
    if hi > lo {
        lemma_xor_sources_frame(a1, a2, lo, hi - 1, x);
    }
}

/// Slot `i` is the only absent slot.
pub open spec fn only_absent(slots: Seq<Option<Seq<u8>>>, i: int) -> bool {
    &&& 0 <= i < slots.len()
    &&& slots[i] is None
    &&& forall|s: int| 0 <= s < slots.len() && s != i ==> (#[trigger] slots[s]) is Some
}

/// The blocks of the slots, absent ones unspecified.
pub open spec fn slot_blocks(slots: Seq<Option<Seq<u8>>>) -> Seq<Seq<u8>> {
    slots.map_values(|o: Option<Seq<u8>>| o.unwrap())
}

/// Byte `x` of the XOR of blocks `[lo, hi)` other than `skip`.
pub open spec fn xor_others(blocks: Seq<Seq<u8>>, lo: int, hi: int, skip: int, x: int) -> u8
    decreases hi - lo,
{
    if hi <= lo {
        0u8
    } else {
        xor_others(blocks, lo, hi - 1, skip, x) ^ (if hi - 1 == skip { 0u8 } else { blocks[hi - 1][x] })
    }
}

/// The lost source `i` of the first sub-stripe, rebuilt from the second (`b`, complete):
/// its Hitchhiker parity, minus its Reed-Solomon parity, minus the other sources of the
/// XOR group of `i`.
pub open spec fn repaired_source(k: nat, p: nat, a: Seq<Seq<u8>>, b: Seq<Seq<u8>>, i: int, len: nat) -> Seq<u8> {
    let g = xor_group_size(k, p);
    let grp = i / (g as int);
    Seq::new(
        len,
        |x: int|
            b[k + grp + 1][x] ^ encoded_parity(k, p, b, grp + 1, len)[x] ^ xor_others(
                a,
                grp * g,
                group_end(k, g, grp as nat),
                i,
                x,
            ),
    )
}

proof fn lemma_single_absent_count(slots: Seq<Option<Seq<u8>>>, i: int)
    requires
        only_absent(slots, i),
    ensures
        absent_count(slots) == 1,
{
    lemma_absent_prefix(slots, i, slots.len() as int);
    assert(slots.take(slots.len() as int) =~= slots);
}

proof fn lemma_absent_prefix(slots: Seq<Option<Seq<u8>>>, i: int, n: int)
    requires
        only_absent(slots, i),
        0 <= n <= slots.len(),
    ensures
        slots.take(n).filter(|s: Option<Seq<u8>>| s is None).len() == if n > i { 1int } else { 0int },
    decreases n,
{
    reveal(Seq::filter);
    if n > 0 {
        lemma_absent_prefix(slots, i, n - 1);
        assert(slots.take(n) =~= slots.take(n - 1).push(slots[n - 1]));
        slots.take(n - 1).lemma_filter_push(slots[n - 1], |s: Option<Seq<u8>>| s is None);
    } else {
        assert(slots.take(0) =~= Seq::<Option<Seq<u8>>>::empty());
    }
}

/// The index of the only absent slot, if exactly one slot is absent.
fn single_absent(ps: &PartialStripe) -> (r: Option<usize>)
    ensures
        r matches Some(i) ==> only_absent(ps.slots(), i as int),
        r is None ==> forall|i: int| !only_absent(ps.slots(), i),
{
    let ghost slots = ps.slots();
    let mut count: usize = 0;
    let mut lost: usize = 0;
    let ghost mut other: int = 0;
    let mut s: usize = 0;
    while s < ps.stripe.len()
        invariant
            s <= ps.stripe@.len(),
            slots == ps.slots(),
            slots.len() == ps.stripe@.len(),
            count <= 2,
            count == 0 ==> forall|t: int| 0 <= t < s ==> (#[trigger] slots[t]) is Some,
            count == 1 ==> lost < s && slots[lost as int] is None && forall|t: int| 0 <= t < s && t != lost ==> (#[trigger] slots[t]) is Some,
            count == 2 ==> 0 <= other < s && lost < s && other != lost && slots[other] is None && slots[lost as int] is None,
        decreases ps.stripe@.len() - s,
    {
        if ps.stripe[s].is_none() {
            assert(slots[s as int] is None);
            proof {
                if count >= 1 {
                    other = lost as int;
                }
            }
            lost = s;
            if count < 2 {
                count = count + 1;
            }
        } else {
            assert(slots[s as int] is Some);
        }
        s = s + 1;
    }
    if count == 1 {
        Some(lost)
    } else {
        proof {
            assert forall|i: int| !only_absent(slots, i) by {
                if only_absent(slots, i) {
                    if count == 0 {
                        assert(slots[i] is Some);
                    } else if other != i {
                        assert(slots[other] is Some);
                    } else {
                        assert(slots[lost as int] is Some);
                    }
                }
            }
        }
        None
    }
}

/// The sources of XOR group `grp`: `[grp * g, min((grp + 1) * g, k))`.
pub open spec fn group_end(k: nat, g: nat, grp: nat) -> int {
    if (grp + 1) * g < k {
        ((grp + 1) * g) as int
    } else {
        k as int
    }
}

/// Parity `j` of the second sub-stripe: its Reed-Solomon parity, plus for `j >= 1` the
/// XOR of source group `j - 1` of the first sub-stripe.
pub open spec fn hitchhiker_parity(k: nat, p: nat, a: Seq<Seq<u8>>, b: Seq<Seq<u8>>, j: int, len: nat) -> Seq<u8> {
    let g = xor_group_size(k, p);
    Seq::new(
        len,
        |x: int|
            if j == 0 {
                encoded_parity(k, p, b, j, len)[x]
            } else {
                encoded_parity(k, p, b, j, len)[x] ^ xor_sources(
                    a,
                    ((j - 1) * g) as int,
                    group_end(k, g, (j - 1) as nat),
                    x,
                )
            },
    )
}

impl HitchhikerXor {
    pub open spec fn wf(&self) -> bool {
        &&& self.rs.wf()
        &&& self.rs.p >= 2
    }

    /// A Hitchhiker-XOR code over an RS `(k + p, k)` code; needs `p >= 2`.
    pub fn try_from_k_p(k: usize, p: usize) -> (r: SUResult<HitchhikerXor>)
        requires
            1 <= k,
            1 <= p,
            k + p <= 255,
        ensures
            r is Ok <==> p >= 2,
            r is Ok ==> r.unwrap().wf() && r.unwrap().rs.k == k && r.unwrap().rs.p == p,
            r is Err ==> r matches Err(SUError::ErasureCode(_)),
    {
        if p < 2 {
            return Err(SUError::erasure_code("p should be at least 2 with hitchhiker codes"));
        }
        Ok(HitchhikerXor { rs: ReedSolomon::from_k_p(k, p) })
    }

    pub fn k(&self) -> (r: usize)
        ensures
            r == self.rs.k,
    {
        self.rs.k
    }

    pub fn p(&self) -> (r: usize)
        ensures
            r == self.rs.p,
    {
        self.rs.p
    }
    /// Repairs source `i` lost in both sub-stripes: decodes the second sub-stripe, then
    /// rebuilds the first's source from the second's XOR-carrying parity. Fails with
    /// `ErasureCode` (nothing changed) unless the code matches, the block sizes agree and
    /// exactly one slot, the same source in each, is absent.
    pub fn repair(&self, a: &mut PartialStripe, b: &mut PartialStripe) -> (r: SUResult<()>)
        requires
            self.wf(),
            old(a).wf(),
            old(b).wf(),
        ensures
            ({
                let k = self.rs.k as nat;
                let p = self.rs.p as nat;
                let valid = old(a).k == k && old(a).p == p && old(b).k == k && old(b).p == p
                    && old(a).block_size == old(b).block_size
                    && exists|i: int| 0 <= i < k && only_absent(old(a).slots(), i) && only_absent(old(b).slots(), i);
                &&& r is Ok <==> valid
                &&& r is Err ==> is_ec_err(r) && *final(a) == *old(a) && *final(b) == *old(b)
                &&& r is Ok ==> exists|i: int| {
                    &&& 0 <= i < k
                    &&& only_absent(old(a).slots(), i)
                    &&& final(b).wf()
                    &&& exists|idxs: Seq<usize>, inv: Seq<Seq<u8>>| decoded_from(k, p, old(b).slots(), final(b).slots(), old(b).block_size as nat, idxs, inv)
                    &&& final(a).wf()
                    &&& final(a).slots() == old(a).slots().update(i, Some(repaired_source(
                        k,
                        p,
                        slot_blocks(old(a).slots()),
                        slot_blocks(final(b).slots()),
                        i,
                        old(a).block_size as nat,
                    )))
                }
            }),
    {
        let k = self.rs.k;
        let p = self.rs.p;
        if a.k() != k || a.p() != p || b.k() != k || b.p() != p || a.block_size != b.block_size {
            return Err(SUError::erasure_code("sub-stripes do not match the code"));
        }
        let ia = match single_absent(a) {
            Some(i) => i,
            None => { return Err(SUError::erasure_code("the first sub-stripe must miss exactly one block")); },
        };
        let ib = match single_absent(b) {
            Some(i) => i,
            None => { return Err(SUError::erasure_code("the second sub-stripe must miss exactly one block")); },
        };
        if ia != ib || ia >= k {
            proof {
                assert forall|i: int| !(0 <= i < k && only_absent(old(a).slots(), i) && only_absent(old(b).slots(), i)) by {
                    if 0 <= i < k && only_absent(old(a).slots(), i) && only_absent(old(b).slots(), i) {
                        if i != ia as int {
                            assert(old(a).slots()[i] is Some);
                        } else {
                            assert(old(b).slots()[i] is Some);
                        }
                    }
                }
            }
            return Err(SUError::erasure_code("the lost blocks must be the same source"));
        }
        let i = ia;
        let ghost old_b = b.slots();
        proof {
            lemma_single_absent_count(old_b, i as int);
            assert(old_b[k as int] is Some);
            assert(crate::erasure_code::reed_solomon::only_source_absent(old_b, k as nat, i as int));
        }
        let dr = self.rs.decode(b);
        if dr.is_err() {
            return dr;
        }
        let len = a.block_size;
        let g = group_size(k, p);
        let grp = i / g;
        proof {
            assert(grp * g <= i) by (nonlinear_arith)
                requires
                    grp == i / g,
                    g >= 1,
            ;
            let q: int = (p - 1) as int;
            let kk: int = k as int;
            let gg: int = g as int;
            assert(g == xor_group_size(k as nat, p as nat));
            assert(kk <= gg * q) by (nonlinear_arith)
                requires
                    gg == kk / q + if kk % q == 0 { 0int } else { 1int },
                    q >= 1,
                    kk >= 0,
            {
                assert(kk / q * q + kk % q == kk);
            }
            assert(grp + 1 < p) by (nonlinear_arith)
                requires
                    grp == i / g,
                    g >= 1,
                    i < k,
                    k <= g * (p - 1),
            ;
            assert(grp * g <= 255 * 255) by (nonlinear_arith)
                requires
                    grp < 255,
                    g <= 255,
            ;
        }
        let j = grp + 1;
        let lo = grp * g;
        let hi = if lo + g < k { lo + g } else { k };
        proof {
            assert((grp + 1) * g == lo + g) by (nonlinear_arith)
                requires
                    lo == grp * g,
            ;
        }
        let ghost bb = slot_blocks(b.slots());
        let ghost ab = slot_blocks(a.slots());
        // the sources of the second sub-stripe, now all present
        let mut srcs: Vec<Vec<u8>> = Vec::new();
        let mut s_idx: usize = 0;
        while s_idx < k
            invariant
                s_idx <= k,
                k == self.rs.k,
                b.wf(),
                b.stripe@.len() == k + p,
                b.block_size == len,
                bb == slot_blocks(b.slots()),
                forall|t: int| 0 <= t < k + p ==> (#[trigger] b.stripe@[t]) is Some,
                srcs@.len() == s_idx,
                forall|t: int| 0 <= t < s_idx ==> (#[trigger] srcs@[t])@ == bb[t] && srcs@[t]@.len() == len,
            decreases k - s_idx,
        {
            match &b.stripe[s_idx] {
                Some(blk) => {
                    assert(bb[s_idx as int] == blk@);
                    srcs.push(copy_vec(&blk.bytes));
                },
                None => {
                    srcs.push(Vec::new());
                },
            }
            s_idx = s_idx + 1;
        }
        assert(rows_view(self.rs.encode_mat@).len() == self.rs.encode_mat@.len());
        assert(bb.len() == k + p);
        let coefs = &self.rs.encode_mat[k + j];
        proof {
            assert(rows_view(self.rs.encode_mat@)[k + j] == coefs@);
        }
        let bmod = match &b.stripe[k + j] {
            Some(blk) => copy_vec(&blk.bytes),
            None => Vec::new(),
        };
        assert(bmod@ == bb[k + j]);
        let mut bytes: Vec<u8> = Vec::new();
        let mut x: usize = 0;
        while x < len
            invariant
                x <= len,
                k == self.rs.k,
                p == self.rs.p,
                self.wf(),
                coefs@ == rs_matrix(k as nat, (k + p) as nat)[k + j],
                coefs@.len() == k,
                bb.len() == k + p,
                srcs@.len() == k,
                forall|t: int| 0 <= t < k ==> (#[trigger] srcs@[t])@ == bb[t] && srcs@[t]@.len() == len,
                bmod@ == bb[k + j],
                bmod@.len() == len,
                hi <= k,
                a.wf(),
                a.stripe@.len() == k + p,
                a.block_size == len,
                ab == slot_blocks(a.slots()),
                only_absent(a.slots(), i as int),
                lo == grp * g,
                hi as int == group_end(k as nat, g as nat, grp as nat),
                g == xor_group_size(k as nat, p as nat),
                grp as int == i as int / (g as int),
                j == grp + 1,
                bytes@.len() == x,
                forall|u: int| 0 <= u < x ==> bytes@[u] == repaired_source(k as nat, p as nat, ab, bb, i as int, len as nat)[u],
            decreases len - x,
        {
            proof {
                assert forall|t: int| 0 <= t < k implies x < (#[trigger] srcs@[t])@.len() by {}
                assert(coefs@.len() == k);
            }
            let rsv = lincomb_at(coefs, &srcs, x, k);
            proof {
                assert forall|t: int| 0 <= t < k implies #[trigger] rows_view(srcs@)[t] == bb[t] by {}
                lemma_lincomb_prefix(coefs@, rows_view(srcs@), bb, x as int, k as nat);
            }
            let mut acc: u8 = 0;
            let mut t: usize = lo;
            while t < hi
                invariant
                    lo <= t <= hi || (hi < lo && t == lo),
                    hi <= k,
                    x < len,
                    a.wf(),
                    a.stripe@.len() == k + p,
                    a.block_size == len,
                    ab == slot_blocks(a.slots()),
                    only_absent(a.slots(), i as int),
                    acc == xor_others(ab, lo as int, t as int, i as int, x as int),
                decreases hi - t,
            {
                if t != i {
                    match &a.stripe[t] {
                        Some(blk) => {
                            assert(ab[t as int] == blk@);
                            acc = acc ^ blk.bytes[x];
                        },
                        None => {
                            assert(a.slots()[t as int] is Some);
                        },
                    }
                } else {
                    let ghost q = acc;
                    assert(q ^ 0u8 == q) by (bit_vector);
                }
                t = t + 1;
            }
            bytes.push(bmod[x] ^ rsv ^ acc);
            x = x + 1;
        }
        assert(bytes@ =~= repaired_source(k as nat, p as nat, ab, bb, i as int, len as nat));
        let _ = a.replace_block(i, Some(Block { bytes }));
        Ok(())
    }


}

impl HitchhikerXor {
    /// Encodes both sub-stripes, then XORs each source group of `a` into its parity of `b`.
    pub fn encode_stripe(&self, a: &mut Stripe, b: &mut Stripe) -> (r: SUResult<()>)
        requires
            self.wf(),
            old(a).wf(),
            old(b).wf(),
        ensures
            r is Err <==> old(a).k != self.rs.k || old(a).p != self.rs.p || old(b).k != self.rs.k
                || old(b).p != self.rs.p || old(a).spec_block_size() != old(b).spec_block_size(),
            r is Err ==> is_ec_err(r),
            r is Ok ==> {
                let k = self.rs.k as nat;
                let p = self.rs.p as nat;
                let len = old(a).spec_block_size();
                &&& final(a).wf() && final(b).wf()
                &&& final(a).k == old(a).k && final(a).p == old(a).p
                &&& final(b).k == old(b).k && final(b).p == old(b).p
                &&& forall|s: int| 0 <= s < k ==> #[trigger] final(a).blocks()[s] == old(a).blocks()[s]
                &&& forall|s: int| 0 <= s < k ==> #[trigger] final(b).blocks()[s] == old(b).blocks()[s]
                &&& is_encoded(k, p, final(a).blocks(), len)
                &&& forall|j: int| 0 <= j < p ==> #[trigger] final(b).blocks()[k + j] == hitchhiker_parity(
                    k,
                    p,
                    old(a).blocks(),
                    old(b).blocks(),
                    j,
                    len,
                )
            },
    {
        if a.k() != self.rs.k || a.p() != self.rs.p || b.k() != self.rs.k || b.p() != self.rs.p {
            return Err(SUError::erasure_code("sub-stripes do not match the code"));
        }
        if a.block_size() != b.block_size() {
            return Err(SUError::erasure_code("sub-stripes have different block sizes"));
        }
        let _ = self.rs.encode_stripe(a);
        let _ = self.rs.encode_stripe(b);
        let ghost a_blocks = a.blocks();
        let ghost b_enc = b.blocks();
        let k = self.rs.k;
        let p = self.rs.p;
        let len = a.block_size();
        let g = group_size(k, p);
        let mut j: usize = 1;
        while j < p
            invariant
                1 <= j <= p,
                k == self.rs.k,
                p == self.rs.p,
                self.wf(),
                a.wf(),
                b.wf(),
                a.k == k && a.p == p && b.k == k && b.p == p,
                a.blocks() == a_blocks,
                len == a.spec_block_size(),
                len == b.spec_block_size(),
                g == xor_group_size(k as nat, p as nat),
                1 <= g <= k,
                is_encoded(k as nat, p as nat, b_enc, len as nat),
                b_enc.len() == k + p,
                a_blocks.len() == k + p,
                forall|s: int| 0 <= s < k ==> #[trigger] b.blocks()[s] == b_enc[s],
                forall|t: int| 0 <= t < p ==> #[trigger] b.blocks()[k + t] == if 1 <= t < j {
                    hitchhiker_parity(k as nat, p as nat, a_blocks, b_enc, t, len as nat)
                } else {
                    b_enc[k + t]
                },
            decreases p - j,
        {
            let grp = j - 1;
            assert(k + p <= 255);
            proof {
                assert(grp * g <= 255 * 255) by (nonlinear_arith)
                    requires
                        grp < 255,
                        g <= 255,
                ;
            }
            let lo = grp * g;
            let hi = if lo + g < k { lo + g } else { k };
        proof {
            assert((grp + 1) * g == lo + g) by (nonlinear_arith)
                requires
                    lo == grp * g,
            ;
        }
            proof {
                assert((grp + 1) * g == lo + g) by (nonlinear_arith)
                    requires
                        lo == grp * g,
                ;
                assert(b.blocks()[k + j] == b_enc[k + j]);
                assert(b.blocks()[k + j] == b.stripe@[k + j]@);
                assert forall|s: int| 0 <= s < k implies (#[trigger] a.stripe@[s])@.len() == len by {
                    assert(a.blocks()[s] == a.stripe@[s]@);
                }
            }
            let mut bytes: Vec<u8> = Vec::new();
            let mut x: usize = 0;
            while x < len
                invariant
                    x <= len,
                    j < p,
                    k + p <= 255,
                    k + j < a.stripe@.len(),
                    a.stripe@.len() == k + p,
                    b.stripe@.len() == k + p,
                    hi <= k,
                    b.stripe@[k + j]@.len() == len,
                    forall|s: int| 0 <= s < k ==> (#[trigger] a.stripe@[s])@.len() == len,
                    a.blocks() == a_blocks,
                    bytes@.len() == x,
                    forall|t: int| 0 <= t < x ==> bytes@[t] == b.stripe@[k + j]@[t] ^ xor_sources(a_blocks, lo as int, hi as int, t),
                decreases len - x,
            {
                let mut v: u8 = b.stripe[k + j].bytes[x];
                let mut s_idx: usize = lo;
                let ghost v0 = v;
                assert(xor_sources(a_blocks, lo as int, lo as int, x as int) == 0u8);
                assert(v0 ^ 0u8 == v0) by (bit_vector);
                while s_idx < hi
                    invariant
                        lo <= s_idx <= hi || (hi < lo && s_idx == lo),
                        hi <= k,
                        x < len,
                        forall|s: int| 0 <= s < k ==> (#[trigger] a.stripe@[s])@.len() == len,
                        a.blocks() == a_blocks,
                        a.stripe@.len() == k + p,
                        v == v0 ^ xor_sources(a_blocks, lo as int, s_idx as int, x as int),
                    decreases hi - s_idx,
                {
                    let y = a.stripe[s_idx].bytes[x];
                    proof {
                        assert(a_blocks[s_idx as int] == a.stripe@[s_idx as int]@);
                        let q = xor_sources(a_blocks, lo as int, s_idx as int, x as int);
                        assert((v0 ^ q) ^ y == v0 ^ (q ^ y)) by (bit_vector);
                    }
                    v = v ^ y;
                    s_idx = s_idx + 1;
                }
                proof {
                    if hi < lo {
                        assert(xor_sources(a_blocks, lo as int, hi as int, x as int) == 0u8);
                    }
                }
                bytes.push(v);
                x = x + 1;
            }
            let ghost prev = b.blocks();
            proof {
                assert(bytes@ =~= hitchhiker_parity(k as nat, p as nat, a_blocks, b_enc, j as int, len as nat)) by {
                    assert(b_enc[k + j] == encoded_parity(k as nat, p as nat, b_enc, j as int, len as nat));
                    if !(lo + g < k) {
                        assert(group_end(k as nat, g as nat, grp as nat) == k as int);
                    }
                }
            }
            b.stripe.set(k + j, Block { bytes });
            proof {
                assert(b.blocks() =~= prev.update(k + j, bytes@));
                assert(b.blocks()[0] == b.stripe@[0]@);
                assert forall|t: int| 0 <= t < b.blocks().len() implies (#[trigger] b.blocks()[t]).len() == len by {
                    assert(prev[t].len() == len);
                }
            }
            j = j + 1;
        }
        proof {
            assert(b.blocks()[k + 0] == b_enc[k + 0]);
            assert(b_enc[k + 0] == encoded_parity(k as nat, p as nat, b_enc, 0, len as nat));
            assert forall|t: int| 0 <= t < p implies #[trigger] b.blocks()[k + t] == hitchhiker_parity(
                k as nat, p as nat, old(a).blocks(), old(b).blocks(), t, len as nat) by {
                if t == 0 {
                    assert(hitchhiker_parity(k as nat, p as nat, a_blocks, b_enc, 0, len as nat) =~= encoded_parity(k as nat, p as nat, b_enc, 0, len as nat));
                }
                assert forall|x: int| 0 <= x < len implies #[trigger] encoded_parity(k as nat, p as nat, b_enc, t, len as nat)[x]
                    == encoded_parity(k as nat, p as nat, old(b).blocks(), t, len as nat)[x] by {
                    crate::erasure_code::reed_solomon::lemma_lincomb_prefix(
                        crate::gf::rs_matrix(k as nat, (k + p) as nat)[k + t], b_enc, old(b).blocks(), x, k as nat);
                }
                let g2 = xor_group_size(k as nat, p as nat);
                if t >= 1 {
                    assert forall|x: int| 0 <= x < len implies #[trigger] xor_sources(a_blocks, (t - 1) * g2, group_end(k as nat, g2, (t - 1) as nat), x)
                        == xor_sources(old(a).blocks(), (t - 1) * g2, group_end(k as nat, g2, (t - 1) as nat), x) by {
                        assert((t - 1) * g2 >= 0) by (nonlinear_arith)
                            requires
                                t >= 1,
                        ;
                        lemma_xor_sources_frame(a_blocks, old(a).blocks(), (t - 1) * g2, group_end(k as nat, g2, (t - 1) as nat), x);
                    }
                }
                assert(hitchhiker_parity(k as nat, p as nat, a_blocks, b_enc, t, len as nat) =~= hitchhiker_parity(
                    k as nat, p as nat, old(a).blocks(), old(b).blocks(), t, len as nat));
            }
        }
        Ok(())
    }
}/// A copy of `v`.
fn copy_vec(v: &Vec<u8>) -> (r: Vec<u8>)
    ensures
        r@ == v@,
{
    let r = v.clone();
    assert(r@ =~= v@);
    r
}

/// `ceil(k / (p - 1))`, executable.
fn group_size(k: usize, p: usize) -> (g: usize)
    requires
        1 <= k,
        2 <= p,
        k + p <= 255,
    ensures
        g == xor_group_size(k as nat, p as nat),
        1 <= g <= k,
{
    let groups = p - 1;
    let g = k / groups + if k % groups == 0 { 0 } else { 1 };
    proof {
        assert(1 <= g <= k) by (nonlinear_arith)
            requires
                g == k / groups + if k % groups == 0 { 0int } else { 1int },
                k >= 1,
                groups >= 1,
        {
            assert(k / groups * groups + k % groups == k);
            if k / groups == 0 {
                assert(k % groups == k);
            }
        }
    }
    g
}

/// For a lost source `absent_index` of the first sub-stripe: the index in the second
/// sub-stripe of the parity that carries its XOR group, and the other sources of that group.
pub fn index_the_b_xor_parity(ec: &HitchhikerXor, absent_index: usize) -> (r: (usize, Vec<usize>))
    requires
        ec.wf(),
        absent_index < ec.rs.k,
    ensures
        ({
            let k = ec.rs.k as nat;
            let p = ec.rs.p as nat;
            let g = xor_group_size(k, p);
            let group = absent_index as nat / g;
            &&& r.0 == k + 1 + group
            &&& forall|t: int| 0 <= t < r.1@.len() ==> group * g <= #[trigger] r.1@[t] < k && r.1@[t] < (group + 1) * g
                && r.1@[t] != absent_index
            &&& forall|x: usize| group * g <= x < k && x < (group + 1) * g && x != absent_index ==> #[trigger] r.1@.contains(x)
        }),
{
    let k = ec.rs.k;
    let p = ec.rs.p;
    let g = group_size(k, p);
    let group = absent_index / g;
    proof {
        assert(group * g <= absent_index) by (nonlinear_arith)
            requires
                group == absent_index / g,
                g >= 1,
        ;
        assert(group < k) by (nonlinear_arith)
            requires
                group == absent_index / g,
                g >= 1,
                absent_index < k,
        ;
    }
    let begin = group * g;
    let end_excl = if begin + g < k { begin + g } else { k };
    let mut others: Vec<usize> = Vec::new();
    let mut x = begin;
    while x < end_excl
        invariant
            begin <= x <= end_excl <= k,
            end_excl as int == if begin + g < k { (begin + g) as int } else { k as int },
            forall|t: int| 0 <= t < others@.len() ==> begin <= #[trigger] others@[t] < x && others@[t] != absent_index,
            forall|y: usize| begin <= y < x && y != absent_index ==> #[trigger] others@.contains(y),
        decreases end_excl - x,
    {
        if x != absent_index {
            let ghost prev = others@;
            others.push(x);
            proof {
                assert forall|y: usize| begin <= y < x + 1 && y != absent_index implies #[trigger] others@.contains(y) by {
                    crate::storage::evict::lemma_push_contains(prev, x, y);
                }
            }
        }
        x = x + 1;
    }
    proof {
        assert((group + 1) * g == begin + g) by (nonlinear_arith)
            requires
                begin == group * g,
        ;
    }
    (k + 1 + group, others)
}

} // verus!
