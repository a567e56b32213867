use vstd::prelude::*;

use super::block::{blocks_view, Block};
use super::stripe::{opt_blocks_view, uniform, PartialStripe, Stripe};
use crate::error::{is_ec_err, is_range_err, SUError, SUResult};
use crate::gf::{
    lemma_gf_product_commutative, lemma_gf_product_units, lemma_lincomb_compose, lemma_lincomb_unit,
    gf_gen_rs_matrix, gf_invert_matrix, gf_mul, gf_product, has_shape, lemma_gf_product_linear, is_left_inverse, is_matrix,
    lincomb, lincomb_at, mat_mul_row, mat_mul_row_exec, rows_view, rs_coef, rs_matrix,
};

verus! {

/// Parity block `i` (`0 <= i < p`) of a stripe whose sources are `blocks[0..k]`.
pub open spec fn encoded_parity(k: nat, p: nat, blocks: Seq<Seq<u8>>, i: int, len: nat) -> Seq<u8> {
    Seq::new(len, |j: int| lincomb(rs_matrix(k, k + p)[k + i], blocks, j, k))
}

/// Every parity block of `blocks` is the encoding of its sources.
pub open spec fn is_encoded(k: nat, p: nat, blocks: Seq<Seq<u8>>, len: nat) -> bool {
    forall|i: int| 0 <= i < p ==> #[trigger] blocks[k + i] == encoded_parity(k, p, blocks, i, len)
}

/// Parity bytes after the source bytes `src[offset..offset + upd.len()]` became `upd`,
/// for a parity row whose coefficient for that source is `coef`.
pub open spec fn delta_parity(par: Seq<u8>, src: Seq<u8>, upd: Seq<u8>, offset: nat, coef: u8) -> Seq<u8> {
    Seq::new(
        par.len(),
        |b: int|
            if offset <= b < offset + upd.len() {
                par[b] ^ gf_product(src[b] ^ upd[b - offset], coef)
            } else {
                par[b]
            },
    )
}

/// The slots after a delta update of source `idx` with `upd` at `offset`.
pub open spec fn delta_updated(
    k: nat,
    p: nat,
    slots: Seq<Option<Seq<u8>>>,
    idx: nat,
    offset: nat,
    upd: Seq<u8>,
) -> Seq<Option<Seq<u8>>> {
    Seq::new(
        slots.len(),
        |t: int|
            if t == idx {
                Some(crate::erasure_code::stripe::splice(slots[t].unwrap(), offset, upd))
            } else if k <= t < k + p {
                Some(
                    delta_parity(
                        slots[t].unwrap(),
                        slots[idx as int].unwrap(),
                        upd,
                        offset,
                        rs_coef(k, t as nat, idx),
                    ),
                )
            } else {
                slots[t]
            },
    )
}

/// The rows of `mat` at the indexes `idxs`.
pub open spec fn select_rows(mat: Seq<Seq<u8>>, idxs: Seq<usize>) -> Seq<Seq<u8>> {
    idxs.map_values(|i: usize| mat[i as int])
}

/// The blocks of the slots `idxs`.
pub open spec fn select_blocks(slots: Seq<Option<Seq<u8>>>, idxs: Seq<usize>) -> Seq<Seq<u8>> {
    idxs.map_values(|i: usize| slots[i as int].unwrap())
}

/// The coefficients that rebuild slot `a` from the survivors, given `inv`, the inverse
/// of the survivors' generator rows.
pub open spec fn decode_row(k: nat, p: nat, inv: Seq<Seq<u8>>, a: int) -> Seq<u8> {
    if a < k {
        inv[a]
    } else {
        mat_mul_row(rs_matrix(k, k + p), inv, a, k, k)
    }
}

/// `idxs` names `k` distinct present slots, in increasing order.
pub open spec fn valid_survivors(k: nat, slots: Seq<Option<Seq<u8>>>, idxs: Seq<usize>) -> bool {
    &&& idxs.len() == k
    &&& forall|t: int| 0 <= t < k ==> (#[trigger] idxs[t]) < slots.len() && slots[idxs[t] as int] is Some
    &&& forall|a: int, b: int| 0 <= a < b < k ==> idxs[a] < idxs[b]
}

/// `new` is `old` with every absent slot rebuilt from the survivors `idxs` through `inv`.
pub open spec fn decoded_from(
    k: nat,
    p: nat,
    old: Seq<Option<Seq<u8>>>,
    new: Seq<Option<Seq<u8>>>,
    len: nat,
    idxs: Seq<usize>,
    inv: Seq<Seq<u8>>,
) -> bool {
    &&& valid_survivors(k, old, idxs)
    &&& is_left_inverse(inv, select_rows(rs_matrix(k, k + p), idxs), k)
    &&& new.len() == old.len()
    &&& forall|a: int|
        0 <= a < old.len() ==> #[trigger] new[a] == if old[a] is Some {
            old[a]
        } else {
            Some(Seq::new(len, |b: int| lincomb(decode_row(k, p, inv, a), select_blocks(old, idxs), b, k)))
        }
}

/// Every parity slot is present.
pub open spec fn parity_present(slots: Seq<Option<Seq<u8>>>, k: nat, p: nat) -> bool {
    forall|t: int| k <= t < k + p ==> (#[trigger] slots[t]) is Some
}

/// No source slot is absent.
pub open spec fn sources_present(slots: Seq<Option<Seq<u8>>>, k: nat) -> bool {
    forall|s: int| 0 <= s < k ==> (#[trigger] slots[s]) is Some
}

/// Source `i` is the only absent source slot.
pub open spec fn only_source_absent(slots: Seq<Option<Seq<u8>>>, k: nat, i: int) -> bool {
    &&& 0 <= i < k
    &&& slots[i] is None
    &&& forall|s: int| 0 <= s < k && s != i ==> (#[trigger] slots[s]) is Some
}

/// The erasure patterns for which decoding is proved to succeed: no source is lost, or a
/// single source is lost while the first parity survives.
pub open spec fn decode_guaranteed(slots: Seq<Option<Seq<u8>>>, k: nat) -> bool {
    ||| sources_present(slots, k)
    ||| (exists|i: int| only_source_absent(slots, k, i)) && slots[k as int] is Some
}

/// The survivors when only source `i` is lost: the other sources, then the first parity.
pub open spec fn one_lost_survivors(k: nat, i: int) -> Seq<usize> {
    Seq::new(k, |x: int| (if x == k - 1 { k as int } else if x < i { x } else { x + 1 }) as usize)
}

/// The inverse of those survivors' generator rows: unit rows, and all ones for row `i`.
pub open spec fn one_lost_inverse(k: nat, i: int) -> Seq<Seq<u8>> {
    Seq::new(
        k,
        |t: int|
            Seq::new(
                k,
                |x: int|
                    if t == i || x == (if t < i { t } else { t - 1 }) {
                        1u8
                    } else {
                        0u8
                    },
            ),
    )
}

/// The number of absent slots.
pub open spec fn absent_count(slots: Seq<Option<Seq<u8>>>) -> nat {
    slots.filter(|s: Option<Seq<u8>>| s is None).len()
}

/// Byte `j` of the linear combination of the first `n` blocks of `data` with `coefs`.
fn lincomb_blocks_at(coefs: &Vec<u8>, data: &Vec<Block>, j: usize, n: usize) -> (r: u8)
    requires
        n <= coefs@.len(),
        n <= data@.len(),
        forall|s: int| 0 <= s < n ==> j < (#[trigger] data@[s])@.len(),
    ensures
        r == lincomb(coefs@, blocks_view(data@), j as int, n as nat),
{
    let mut acc: u8 = 0;
    let mut s: usize = 0;
    while s < n
        invariant
            s <= n <= coefs@.len(),
            n <= data@.len(),
            forall|t: int| 0 <= t < n ==> j < (#[trigger] data@[t])@.len(),
            acc == lincomb(coefs@, blocks_view(data@), j as int, s as nat),
        decreases n - s,
    {
        acc = acc ^ gf_mul(data[s].bytes[j], coefs[s]);
        s = s + 1;
    }
    acc
}

/// A copy of `v`.
fn copy_bytes(v: &Vec<u8>) -> (r: Vec<u8>)
    ensures
        r@ == v@,
{
    let mut out: Vec<u8> = Vec::new();
    let mut i: usize = 0;
    while i < v.len()
        invariant
            i <= v@.len(),
            out@ == v@.take(i as int),
        decreases v@.len() - i,
    {
        out.push(v[i]);
        i = i + 1;
        assert(out@ =~= v@.take(i as int));
    }
    assert(v@.take(v@.len() as int) =~= v@);
    out
}

/// A linear combination only reads the first `n` rows.
pub proof fn lemma_lincomb_prefix(c: Seq<u8>, d1: Seq<Seq<u8>>, d2: Seq<Seq<u8>>, j: int, n: nat)
    requires
        n <= d1.len(),
        n <= d2.len(),
        forall|s: int| 0 <= s < n ==> #[trigger] d1[s] == d2[s],
    ensures
        lincomb(c, d1, j, n) == lincomb(c, d2, j, n),
    decreases n,
{
    if n > 0 {
        lemma_lincomb_prefix(c, d1, d2, j, (n - 1) as nat);
    }
}

/// Replacing row `i < n` of `d` by `r` changes byte `j` of a linear combination by the
/// old and the new term.
pub proof fn lemma_lincomb_update(c: Seq<u8>, d: Seq<Seq<u8>>, i: int, r: Seq<u8>, j: int, n: nat)
    requires
        n <= d.len(),
        0 <= i < d.len(),
    ensures
        i < n ==> lincomb(c, d.update(i, r), j, n) == lincomb(c, d, j, n) ^ gf_product(d[i][j], c[i])
            ^ gf_product(r[j], c[i]),
        i >= n ==> lincomb(c, d.update(i, r), j, n) == lincomb(c, d, j, n),
    decreases n,
{
    if n > 0 {
        lemma_lincomb_update(c, d, i, r, j, (n - 1) as nat);
        let x = lincomb(c, d, j, (n - 1) as nat);
        let y = gf_product(d[n - 1][j], c[n - 1]);
        let a = gf_product(d[i][j], c[i]);
        let b = gf_product(r[j], c[i]);
        if i < n - 1 {
            assert((x ^ a ^ b) ^ y == (x ^ y) ^ a ^ b) by (bit_vector);
        } else if i == n - 1 {
            assert(d.update(i, r)[n - 1] == r);
            assert(x ^ b == (x ^ a) ^ a ^ b) by (bit_vector);
        }
    }
}

/// The stripe obtained by writing `upd` into source `idx` at `offset` and encoding again.
pub open spec fn reencoded(k: nat, p: nat, blocks: Seq<Seq<u8>>, len: nat, idx: nat, offset: nat, upd: Seq<u8>) -> Seq<Seq<u8>> {
    let src = blocks.update(idx as int, crate::erasure_code::stripe::splice(blocks[idx as int], offset, upd));
    Seq::new(k + p, |t: int| if t < k { src[t] } else { encoded_parity(k, p, src, t - k, len) })
}

/// Delta update agrees with a full re-encode: on an encoded, fully present stripe,
/// `delta_update` yields byte for byte the stripe that overwriting the source range and
/// then encoding from scratch yields.
pub proof fn lemma_delta_update_is_reencode(
    k: nat,
    p: nat,
    blocks: Seq<Seq<u8>>,
    len: nat,
    idx: nat,
    offset: nat,
    upd: Seq<u8>,
)
    requires
        1 <= k,
        1 <= p,
        blocks.len() == k + p,
        uniform(blocks, len),
        is_encoded(k, p, blocks, len),
        idx < k,
        offset + upd.len() <= len,
    ensures
        delta_updated(k, p, blocks.map_values(|b: Seq<u8>| Some(b)), idx, offset, upd)
            == reencoded(k, p, blocks, len, idx, offset, upd).map_values(|b: Seq<u8>| Some(b)),
{
    let slots = blocks.map_values(|b: Seq<u8>| Some(b));
    let lhs = delta_updated(k, p, slots, idx, offset, upd);
    let re = reencoded(k, p, blocks, len, idx, offset, upd);
    let rhs = re.map_values(|b: Seq<u8>| Some(b));
    let new_src = crate::erasure_code::stripe::splice(blocks[idx as int], offset, upd);
    let src = blocks.update(idx as int, new_src);
    assert forall|t: int| 0 <= t < k + p implies #[trigger] lhs[t] == rhs[t] by {
        if k <= t {
            let row = rs_matrix(k, k + p)[t];
            let c = rs_coef(k, t as nat, idx);
            assert(row[idx as int] == c);
            let par = blocks[t];
            assert(par == blocks[k + (t - k)]);
            assert(par == encoded_parity(k, p, blocks, t - k, len));
            let dp = delta_parity(par, blocks[idx as int], upd, offset, c);
            let ep = encoded_parity(k, p, src, t - k, len);
            assert forall|b: int| 0 <= b < len implies #[trigger] dp[b] == ep[b] by {
                lemma_lincomb_update(row, blocks, idx as int, new_src, b, k);
                let x = lincomb(row, blocks, b, k);
                let old_b = blocks[idx as int][b];
                let g_old = gf_product(old_b, c);
                if offset <= b < offset + upd.len() {
                    let u = upd[b - offset];
                    lemma_gf_product_linear(old_b, u, c);
                    let g_new = gf_product(u, c);
                    assert(x ^ (g_old ^ g_new) == x ^ g_old ^ g_new) by (bit_vector);
                } else {
                    assert(x == x ^ g_old ^ g_old) by (bit_vector);
                }
            }
            assert(dp =~= ep);
        }
    }
    assert(lhs =~= rhs);
}

/// A linear combination only reads the first `n` coefficients.
proof fn lemma_lincomb_coef_ext(c1: Seq<u8>, c2: Seq<u8>, d: Seq<Seq<u8>>, j: int, n: nat)
    requires
        forall|s: int| 0 <= s < n ==> #[trigger] c1[s] == c2[s],
    ensures
        lincomb(c1, d, j, n) == lincomb(c2, d, j, n),
    decreases n,
{
    if n > 0 {
        lemma_lincomb_coef_ext(c1, c2, d, j, (n - 1) as nat);
    }
}

/// Every block of an encoded stripe, source or parity, is its generator row applied to
/// the sources.
proof fn lemma_encoded_rows(k: nat, p: nat, blocks: Seq<Seq<u8>>, len: nat, t: int, b: int)
    requires
        1 <= k,
        blocks.len() == k + p,
        is_encoded(k, p, blocks, len),
        0 <= t < k + p,
        0 <= b < len,
    ensures
        blocks[t][b] == lincomb(rs_matrix(k, k + p)[t], blocks, b, k),
{
    if t < k {
        lemma_lincomb_unit(rs_matrix(k, k + p)[t], blocks, b, k, t);
    } else {
        assert(blocks[k + (t - k)] == encoded_parity(k, p, blocks, t - k, len));
    }
}

/// Decoding undoes erasures: when `blocks` is an encoded stripe, `old` is it with some
/// slots erased, and `new` is what `decode` made of `old` (through survivors `idxs` and
/// the left inverse `inv` of their generator rows), every slot of `new` holds its
/// original block.
pub proof fn lemma_decode_round_trip(
    k: nat,
    p: nat,
    blocks: Seq<Seq<u8>>,
    len: nat,
    old: Seq<Option<Seq<u8>>>,
    new: Seq<Option<Seq<u8>>>,
    idxs: Seq<usize>,
    inv: Seq<Seq<u8>>,
)
    requires
        1 <= k,
        1 <= p,
        blocks.len() == k + p,
        uniform(blocks, len),
        is_encoded(k, p, blocks, len),
        old.len() == k + p,
        forall|t: int| 0 <= t < k + p && (#[trigger] old[t]) is Some ==> old[t] == Some(blocks[t]),
        decoded_from(k, p, old, new, len, idxs, inv),
    ensures
        forall|t: int| 0 <= t < k + p ==> #[trigger] new[t] == Some(blocks[t]),
{
    let m = rs_matrix(k, k + p);
    let bm = select_rows(m, idxs);
    let surv = select_blocks(old, idxs);
    assert forall|t: int| 0 <= t < k + p implies #[trigger] new[t] == Some(blocks[t]) by {
        if old[t] is None {
            let dr = decode_row(k, p, inv, t);
            let rec = Seq::new(len, |b: int| lincomb(dr, surv, b, k));
            assert(new[t] == Some(rec));
            // the coefficients `dr * bm` are the generator row of `t`
            let row = Seq::new(k, |s: int| lincomb(dr, bm, s, k));
            assert forall|s: int| 0 <= s < k implies #[trigger] row[s] == m[t][s] by {
                if t < k {
                    assert(lincomb(inv[t], bm, s, k) == (if t == s { 1u8 } else { 0u8 }));
                } else {
                    let ib = Seq::new(k, |u: int| Seq::new(k, |v: int| lincomb(inv[u], bm, v, k)));
                    lemma_lincomb_compose(m[t], inv, ib, bm, s, k, k);
                    assert(Seq::new(k, |x: int| lincomb(m[t], inv, x, k)) =~= dr);
                    let unit = Seq::new(k, |u: int| if u == s { 1u8 } else { 0u8 });
                    assert forall|u: int| 0 <= u < k implies #[trigger] ib[u][s] == unit[u] by {}
                    lemma_lincomb_unit_column(m[t], ib, s, k, s);
                }
            }
            assert forall|b: int| 0 <= b < len implies #[trigger] rec[b] == blocks[t][b] by {
                assert forall|x: int| 0 <= x < k implies #[trigger] surv[x][b] == lincomb(bm[x], blocks, b, k) by {
                    let i = idxs[x] as int;
                    assert(old[i] == Some(blocks[i]));
                    lemma_encoded_rows(k, p, blocks, len, i, b);
                }
                lemma_lincomb_compose(dr, bm, surv, blocks, b, k, k);
                lemma_lincomb_coef_ext(row, m[t], blocks, b, k);
                lemma_encoded_rows(k, p, blocks, len, t, b);
            }
            assert(rec =~= blocks[t]);
        }
    }
}

/// Combining `data` whose column `s` is a unit vector picks that coefficient.
proof fn lemma_lincomb_unit_column(c: Seq<u8>, data: Seq<Seq<u8>>, j: int, n: nat, i: int)
    requires
        0 <= i < n,
        forall|u: int| 0 <= u < n ==> #[trigger] data[u][j] == if u == i { 1u8 } else { 0u8 },
    ensures
        lincomb(c, data, j, n) == c[i],
    decreases n,
{
    lemma_gf_product_units(c[i]);
    lemma_lincomb_unit_column_prefix(c, data, j, n, i);
}

proof fn lemma_lincomb_unit_column_prefix(c: Seq<u8>, data: Seq<Seq<u8>>, j: int, n: nat, i: int)
    requires
        0 <= i,
        forall|u: int| 0 <= u < n ==> #[trigger] data[u][j] == if u == i { 1u8 } else { 0u8 },
    ensures
        lincomb(c, data, j, n) == if i < n { c[i] } else { 0u8 },
    decreases n,
{
    if n > 0 {
        lemma_lincomb_unit_column_prefix(c, data, j, (n - 1) as nat, i);
        let prev = lincomb(c, data, j, (n - 1) as nat);
        let last = gf_product(data[n - 1][j], c[n - 1]);
        lemma_gf_product_units(c[n - 1]);
        if n - 1 == i {
            assert(last == c[i]);
            assert(0u8 ^ last == last) by (bit_vector);
        } else {
            assert(last == 0);
            assert(prev ^ 0u8 == prev) by (bit_vector);
        }
    }
}

proof fn lemma_source_rows(k: nat, p: nat, x: int, s: int)
    requires
        0 <= x < k,
        0 <= s < k,
    ensures
        rs_matrix(k, k + p)[x][s] == if x == s { 1u8 } else { 0u8 },
{
}

proof fn lemma_first_parity_row(k: nat, p: nat, s: int)
    requires
        1 <= p,
        0 <= s < k,
    ensures
        rs_matrix(k, k + p)[k as int][s] == 1u8,
{
    crate::gf::lemma_gf_pow_one(s as nat);
    assert(crate::gf::gf_pow(2, 0) == 1u8);
}

/// The identity inverts the generator rows of the sources.
proof fn lemma_sources_inverse(k: nat, p: nat)
    requires
        1 <= k,
        k + p <= 255,
    ensures
        is_left_inverse(
            crate::gf::identity_matrix(k),
            select_rows(rs_matrix(k, k + p), Seq::new(k, |x: int| x as usize)),
            k,
        ),
{
    let b = select_rows(rs_matrix(k, k + p), Seq::new(k, |x: int| x as usize));
    let id = crate::gf::identity_matrix(k);
    assert forall|t: int| 0 <= t < k implies (#[trigger] b[t]).len() == k by {}
    assert forall|t: int, s: int| 0 <= t < k && 0 <= s < k implies #[trigger] lincomb(id[t], b, s, k) == (if t == s {
        1u8
    } else {
        0u8
    }) by {
        assert(b[t] == rs_matrix(k, k + p)[t]);
        lemma_lincomb_unit(id[t], b, s, k, t);
        lemma_source_rows(k, p, t, s);
    }
}

/// With source `i` lost, the explicit rows invert the survivors' generator rows.
proof fn lemma_one_lost_inverse(k: nat, p: nat, i: int)
    requires
        1 <= k,
        k + p <= 255,
        1 <= p,
        0 <= i < k,
    ensures
        is_left_inverse(one_lost_inverse(k, i), select_rows(rs_matrix(k, k + p), one_lost_survivors(k, i)), k),
{
    let b = select_rows(rs_matrix(k, k + p), one_lost_survivors(k, i));
    let l = one_lost_inverse(k, i);
    assert forall|t: int| 0 <= t < k implies (#[trigger] b[t]).len() == k by {}
    assert forall|t: int| 0 <= t < k implies (#[trigger] l[t]).len() == k by {}
    assert forall|t: int, s: int| 0 <= t < k && 0 <= s < k implies #[trigger] lincomb(l[t], b, s, k) == (if t == s {
        1u8
    } else {
        0u8
    }) by {
        if t != i {
            let xt = if t < i { t } else { t - 1 };
            assert forall|u: int| 0 <= u < k implies #[trigger] l[t][u] == if u == xt { 1u8 } else { 0u8 } by {}
            assert(b[xt] == rs_matrix(k, k + p)[t]);
            lemma_lincomb_unit(l[t], b, s, k, xt);
            lemma_source_rows(k, p, t, s);
        } else {
            lemma_gf_product_units(1u8);
            crate::gf::lemma_lincomb_xsum(l[t], b, s, k);
            let f = |x: int| gf_product(b[x][s], l[t][x]);
            let h = |x: int| if x == k - 1 { 1u8 } else { 0u8 };
            lemma_first_parity_row(k, p, s);
            assert(b[k - 1] == rs_matrix(k, k + p)[k as int]);
            assert forall|x: int| 0 <= x < k implies #[trigger] f(x) == gf_product(b[x][s], 1u8) by {}
            if s == i {
                assert forall|x: int| 0 <= x < k && x != k - 1 implies #[trigger] f(x) == 0 by {
                    let y = if x < i { x } else { x + 1 };
                    assert(b[x] == rs_matrix(k, k + p)[y]);
                    lemma_source_rows(k, p, y, s);
                    lemma_gf_product_units(0u8);
                }
                crate::gf::lemma_xsum_unit_pub(f, k as int, k - 1, 1u8);
            } else {
                let xs = if s < i { s } else { s - 1 };
                let g = |x: int| if x == xs { 1u8 } else { 0u8 };
                assert forall|x: int| 0 <= x < k implies #[trigger] f(x) == (|y: int| g(y) ^ h(y))(x) by {
                    lemma_gf_product_units(b[x][s]);
                    if x != k - 1 {
                        let y = if x < i { x } else { x + 1 };
                        assert(b[x] == rs_matrix(k, k + p)[y]);
                        lemma_source_rows(k, p, y, s);
                        assert(0u8 ^ 0u8 == 0u8) by (bit_vector);
                        assert(1u8 ^ 0u8 == 1u8) by (bit_vector);
                    } else {
                        assert(b[x] == rs_matrix(k, k + p)[k as int]);
                        assert(0u8 ^ 1u8 == 1u8) by (bit_vector);
                    }
                }
                crate::gf::lemma_xsum_ext(f, |y: int| g(y) ^ h(y), k as int);
                crate::gf::lemma_xsum_add(g, h, k as int);
                assert forall|x: int| 0 <= x < k && x != xs implies #[trigger] g(x) == 0 by {}
                crate::gf::lemma_xsum_unit_pub(g, k as int, xs, 1u8);
                assert forall|x: int| 0 <= x < k && x != k - 1 implies #[trigger] h(x) == 0 by {}
                crate::gf::lemma_xsum_unit_pub(h, k as int, k - 1, 1u8);
                assert(1u8 ^ 1u8 == 0u8) by (bit_vector);
            }
        }
    }
}

/// The slots after delta-updating, in order, each source `updates[u].0` to the whole
/// block `updates[u].1`.
pub open spec fn deltas_applied(
    k: nat,
    p: nat,
    slots: Seq<Option<Seq<u8>>>,
    updates: Seq<(usize, Seq<u8>)>,
) -> Seq<Option<Seq<u8>>>
    decreases updates.len(),
{
    if updates.len() == 0 {
        slots
    } else {
        delta_updated(
            k,
            p,
            deltas_applied(k, p, slots, updates.drop_last()),
            updates.last().0 as nat,
            0,
            updates.last().1,
        )
    }
}

/// The stripe with each source `updates[u].0` overwritten by `updates[u].1` in order, and
/// its parities encoded again.
pub open spec fn sources_rewritten(k: nat, p: nat, blocks: Seq<Seq<u8>>, len: nat, updates: Seq<(usize, Seq<u8>)>) -> Seq<Seq<u8>>
    decreases updates.len(),
{
    if updates.len() == 0 {
        blocks
    } else {
        reencoded(k, p, sources_rewritten(k, p, blocks, len, updates.drop_last()), len, updates.last().0 as nat, 0, updates.last().1)
    }
}

/// Every update names a present source and holds a whole block.
pub open spec fn updates_valid(k: nat, slots: Seq<Option<Seq<u8>>>, len: nat, updates: Seq<(usize, Seq<u8>)>) -> bool {
    forall|u: int|
        0 <= u < updates.len() ==> (#[trigger] updates[u]).0 < k && slots[updates[u].0 as int] is Some
            && updates[u].1.len() == len
}

/// A re-encoded stripe is encoded again, with blocks of the same size.
proof fn lemma_reencoded_encoded(k: nat, p: nat, blocks: Seq<Seq<u8>>, len: nat, idx: nat, upd: Seq<u8>)
    requires
        1 <= k,
        blocks.len() == k + p,
        uniform(blocks, len),
        idx < k,
        upd.len() == len,
    ensures
        is_encoded(k, p, reencoded(k, p, blocks, len, idx, 0, upd), len),
        uniform(reencoded(k, p, blocks, len, idx, 0, upd), len),
        reencoded(k, p, blocks, len, idx, 0, upd).len() == k + p,
{
    let re = reencoded(k, p, blocks, len, idx, 0, upd);
    let src = blocks.update(idx as int, crate::erasure_code::stripe::splice(blocks[idx as int], 0, upd));
    assert forall|i: int| 0 <= i < p implies #[trigger] re[k + i] == encoded_parity(k, p, re, i, len) by {
        assert forall|j: int| 0 <= j < len implies #[trigger] encoded_parity(k, p, src, i, len)[j] == encoded_parity(k, p, re, i, len)[j] by {
            lemma_lincomb_prefix(rs_matrix(k, k + p)[k + i], src, re, j, k);
        }
        assert(encoded_parity(k, p, src, i, len) =~= encoded_parity(k, p, re, i, len));
    }
}

/// Applying whole-block delta updates to an encoded stripe gives the stripe whose sources
/// are overwritten and whose parities are encoded from scratch.
pub proof fn lemma_source_updates_reencode(k: nat, p: nat, blocks: Seq<Seq<u8>>, len: nat, updates: Seq<(usize, Seq<u8>)>)
    requires
        1 <= k,
        1 <= p,
        blocks.len() == k + p,
        uniform(blocks, len),
        is_encoded(k, p, blocks, len),
        forall|u: int| 0 <= u < updates.len() ==> (#[trigger] updates[u]).0 < k && updates[u].1.len() == len,
    ensures
        deltas_applied(k, p, blocks.map_values(|b: Seq<u8>| Some(b)), updates) == sources_rewritten(k, p, blocks, len, updates).map_values(|b: Seq<u8>| Some(b)),
        is_encoded(k, p, sources_rewritten(k, p, blocks, len, updates), len),
        uniform(sources_rewritten(k, p, blocks, len, updates), len),
        sources_rewritten(k, p, blocks, len, updates).len() == k + p,
    decreases updates.len(),
{
    if updates.len() > 0 {
        let init = updates.drop_last();
        assert forall|u: int| 0 <= u < init.len() implies (#[trigger] init[u]).0 < k && init[u].1.len() == len by {
            assert(init[u] == updates[u]);
        }
        lemma_source_updates_reencode(k, p, blocks, len, init);
        let prev = sources_rewritten(k, p, blocks, len, init);
        let last = updates.last();
        assert(last == updates[updates.len() - 1]);
        lemma_delta_update_is_reencode(k, p, prev, len, last.0 as nat, 0, last.1);
        lemma_reencoded_encoded(k, p, prev, len, last.0 as nat, last.1);
    }
}

/// A Reed-Solomon `(k + p, k)` code over GF(2^8).
pub struct ReedSolomon {
    pub k: usize,
    pub p: usize,
    /// The `(k + p) x k` generator matrix, one row per block.
    pub encode_mat: Vec<Vec<u8>>,
}

impl ReedSolomon {
    pub open spec fn wf(&self) -> bool {
        &&& 1 <= self.k
        &&& 1 <= self.p
        &&& self.k + self.p <= 255
        &&& rows_view(self.encode_mat@) == rs_matrix(self.k as nat, (self.k + self.p) as nat)
    }

    /// The `(k + p, k)` code.
    pub fn from_k_p(k: usize, p: usize) -> (r: ReedSolomon)
        requires
            1 <= k,
            1 <= p,
            k + p <= 255,
        ensures
            r.wf(),
            r.k == k,
            r.p == p,
    {
        let encode_mat = gf_gen_rs_matrix(k, k + p);
        ReedSolomon { k, p, encode_mat }
    }

    pub fn k(&self) -> (r: usize)
        ensures
            r == self.k,
    {
        self.k
    }

    pub fn p(&self) -> (r: usize)
        ensures
            r == self.p,
    {
        self.p
    }

    pub fn m(&self) -> (r: usize)
        requires
            self.wf(),
        ensures
            r == self.k + self.p,
    {
        self.k + self.p
    }

    proof fn lemma_mat_shape(&self)
        requires
            self.wf(),
        ensures
            has_shape(self.encode_mat@, (self.k + self.p) as nat, self.k as nat),
            forall|i: int, j: int|
                0 <= i < self.k + self.p && 0 <= j < self.k ==> #[trigger] self.encode_mat@[i]@[j]
                    == rs_coef(self.k as nat, i as nat, j as nat),
    {
        assert(rows_view(self.encode_mat@).len() == self.encode_mat@.len());
        assert forall|i: int| 0 <= i < self.k + self.p implies (#[trigger] self.encode_mat@[i])@.len()
            == self.k by {
            assert(rows_view(self.encode_mat@)[i] == self.encode_mat@[i]@);
        }
        assert forall|i: int, j: int|
            0 <= i < self.k + self.p && 0 <= j < self.k implies #[trigger] self.encode_mat@[i]@[j]
                == rs_coef(self.k as nat, i as nat, j as nat) by {
            assert(rows_view(self.encode_mat@)[i] == self.encode_mat@[i]@);
        }
    }

    /// Overwrites the parity blocks of `stripe` with the encoding of its sources.
    pub fn encode_stripe(&self, stripe: &mut Stripe) -> (r: SUResult<()>)
        requires
            self.wf(),
            old(stripe).wf(),
        ensures
            r is Err <==> (old(stripe).k != self.k || old(stripe).p != self.p),
            r is Err ==> is_ec_err(r),
            r is Err ==> *final(stripe) == *old(stripe),
            r is Ok ==> {
                &&& final(stripe).wf()
                &&& final(stripe).k == old(stripe).k
                &&& final(stripe).p == old(stripe).p
                &&& final(stripe).spec_block_size() == old(stripe).spec_block_size()
                &&& forall|s: int| 0 <= s < self.k ==> #[trigger] final(stripe).blocks()[s] == old(stripe).blocks()[s]
                &&& is_encoded(self.k as nat, self.p as nat, final(stripe).blocks(), old(stripe).spec_block_size())
            },
    {
        if stripe.k() != self.k {
            return Err(SUError::erasure_code("k does not match between erasure code and stripe"));
        }
        if stripe.p() != self.p {
            return Err(SUError::erasure_code("p does not match between erasure code and stripe"));
        }
        let k = self.k;
        let p = self.p;
        let len = stripe.block_size();
        let ghost old_blocks = stripe.blocks();
        proof {
            self.lemma_mat_shape();
        }
        let mut parity: Vec<Block> = Vec::new();
        let mut i: usize = 0;
        while i < p
            invariant
                self.wf(),
                k == self.k,
                p == self.p,
                stripe.wf(),
                stripe.k == k,
                stripe.p == p,
                len == stripe.spec_block_size(),
                old_blocks == stripe.blocks(),
                has_shape(self.encode_mat@, (k + p) as nat, k as nat),
                i <= p,
                parity@.len() == i,
                forall|t: int| 0 <= t < i ==> (#[trigger] parity@[t])@ == encoded_parity(k as nat, p as nat, old_blocks, t, len as nat),
            decreases p - i,
        {
            let coefs = &self.encode_mat[k + i];
            assert(rows_view(self.encode_mat@)[k + i] == coefs@);
            let mut bytes: Vec<u8> = Vec::new();
            let mut j: usize = 0;
            while j < len
                invariant
                    self.wf(),
                    k == self.k,
                    p == self.p,
                    i < p,
                    stripe.wf(),
                    stripe.k == k,
                    stripe.p == p,
                    len == stripe.spec_block_size(),
                    old_blocks == stripe.blocks(),
                    coefs@ == rs_matrix(k as nat, (k + p) as nat)[k + i],
                    coefs@.len() == k,
                    j <= len,
                    bytes@.len() == j,
                    forall|t: int| 0 <= t < j ==> bytes@[t] == lincomb(rs_matrix(k as nat, (k + p) as nat)[k + i], old_blocks, t, k as nat),
                decreases len - j,
            {
                proof {
                    assert forall|s: int| 0 <= s < k implies j < (#[trigger] stripe.stripe@[s])@.len() by {
                        assert(stripe.blocks()[s] == stripe.stripe@[s]@);
                    }
                }
                let v = lincomb_blocks_at(coefs, &stripe.stripe, j, k);
                bytes.push(v);
                j = j + 1;
            }
            assert(bytes@ =~= encoded_parity(k as nat, p as nat, old_blocks, i as int, len as nat));
            parity.push(Block { bytes });
            i = i + 1;
        }
        let mut i: usize = 0;
        while i < p
            invariant
                k == self.k,
                p == self.p,
                1 <= k,
                1 <= p,
                k + p <= 255,
                stripe.k == k,
                stripe.p == p,
                stripe.stripe@.len() == k + p,
                parity@.len() == p,
                old_blocks.len() == k + p,
                i <= p,
                forall|t: int| 0 <= t < p ==> (#[trigger] parity@[t])@ == encoded_parity(k as nat, p as nat, old_blocks, t, len as nat),
                forall|t: int| 0 <= t < k + p ==> #[trigger] stripe.blocks()[t] == if k <= t < k + i {
                    encoded_parity(k as nat, p as nat, old_blocks, t - k, len as nat)
                } else {
                    old_blocks[t]
                },
            decreases p - i,
        {
            let b = Block { bytes: parity[i].bytes.clone() };
            proof {
                assert(b@ =~= parity@[i as int]@);
            }
            let ghost prev = stripe.blocks();
            stripe.stripe.set(k + i, b);
            assert(stripe.blocks() =~= prev.update(k + i, b@));
            i = i + 1;
            assert forall|t: int| 0 <= t < k + p implies #[trigger] stripe.blocks()[t] == if k <= t < k + i {
                encoded_parity(k as nat, p as nat, old_blocks, t - k, len as nat)
            } else {
                old_blocks[t]
            } by {
                assert(stripe.blocks()[t] == stripe.stripe@[t]@);
            }
        }
        proof {
            let nb = stripe.blocks();
            assert(old_blocks[0].len() == len);
            assert(nb[0] == old_blocks[0]);
            assert(nb[0] == stripe.stripe@[0]@);
            assert forall|t: int| 0 <= t < nb.len() implies (#[trigger] nb[t]).len() == len by {
                if k <= t {
                    assert(nb[t] == encoded_parity(k as nat, p as nat, old_blocks, t - k, len as nat));
                }
            }
            assert forall|t: int| 0 <= t < p implies #[trigger] nb[k + t] == encoded_parity(k as nat, p as nat, nb, t, len as nat) by {
                assert forall|j: int| 0 <= j < len implies #[trigger] lincomb(rs_matrix(k as nat, (k + p) as nat)[k + t], old_blocks, j, k as nat)
                    == lincomb(rs_matrix(k as nat, (k + p) as nat)[k + t], nb, j, k as nat) by {
                    lemma_lincomb_prefix(rs_matrix(k as nat, (k + p) as nat)[k + t], old_blocks, nb, j, k as nat);
                }
                assert(nb[k + t] =~= encoded_parity(k as nat, p as nat, nb, t, len as nat));
            }
        }
        Ok(())
    }

    /// Updates bytes `[offset, offset + update.len())` of source `idx` to `update`, and the
    /// same bytes of every parity block by the delta, without reading other sources.
    ///
    /// The checks come in this order: `(k, p)` mismatch (`ErasureCode`), range out of the
    /// block (`Range`), a parity block absent (`ErasureCode`), `idx >= k` (`Range`), the
    /// source block absent (`ErasureCode`). On error nothing changes.
    pub fn delta_update(
        &self,
        update: &[u8],
        idx: usize,
        offset: usize,
        partial_stripe: &mut PartialStripe,
    ) -> (r: SUResult<()>)
        requires
            self.wf(),
            old(partial_stripe).wf(),
        ensures
            ({
                let ps = *old(partial_stripe);
                let mismatch = ps.k != self.k || ps.p != self.p;
                let bad_range = offset >= ps.block_size || offset + update@.len() > ps.block_size;
                let parity_absent = !parity_present(ps.slots(), ps.k as nat, ps.p as nat);
                let bad_idx = idx >= ps.k;
                let source_absent = !bad_idx && ps.slots()[idx as int] is None;
                &&& mismatch ==> is_ec_err(r)
                &&& !mismatch && bad_range ==> is_range_err(r)
                &&& !mismatch && !bad_range && parity_absent ==> is_ec_err(r)
                &&& !mismatch && !bad_range && !parity_absent && bad_idx ==> is_range_err(r)
                &&& !mismatch && !bad_range && !parity_absent && source_absent ==> is_ec_err(r)
                &&& r is Ok <==> !mismatch && !bad_range && !parity_absent && !bad_idx && !source_absent
            }),
            r is Err ==> *final(partial_stripe) == *old(partial_stripe),
            r is Ok ==> {
                &&& final(partial_stripe).wf()
                &&& final(partial_stripe).k == old(partial_stripe).k
                &&& final(partial_stripe).p == old(partial_stripe).p
                &&& final(partial_stripe).block_size == old(partial_stripe).block_size
                &&& final(partial_stripe).slots() == delta_updated(
                    self.k as nat,
                    self.p as nat,
                    old(partial_stripe).slots(),
                    idx as nat,
                    offset as nat,
                    update@,
                )
            },
    {
        if partial_stripe.k() != self.k {
            return Err(SUError::erasure_code("k does not match between erasure code and stripe"));
        }
        if partial_stripe.p() != self.p {
            return Err(SUError::erasure_code("p does not match between erasure code and stripe"));
        }
        let k = self.k;
        let p = self.p;
        let bs = partial_stripe.block_size;
        if offset >= bs || update.len() > bs - offset {
            return Err(SUError::out_of_range("update range is out of the block"));
        }
        let ghost slots = partial_stripe.slots();
        let mut t: usize = k;
        while t < k + p
            invariant
                k == self.k,
                p == self.p,
                self.wf(),
                partial_stripe.k == k,
                partial_stripe.p == p,
                partial_stripe.wf(),
                slots == partial_stripe.slots(),
                *partial_stripe == *old(partial_stripe),
                bs == partial_stripe.block_size,
                offset < bs,
                offset + update@.len() <= bs,
                k <= t <= k + p,
                forall|u: int| k <= u < t ==> (#[trigger] slots[u]) is Some,
            decreases k + p - t,
        {
            if partial_stripe.stripe[t].is_none() {
                assert(slots[t as int] is None);
                assert(!parity_present(slots, k as nat, p as nat));
                return Err(SUError::erasure_code("not all the parity blocks are present"));
            }
            assert(slots[t as int] is Some);
            t = t + 1;
        }
        assert(parity_present(slots, k as nat, p as nat));
        if idx >= k {
            return Err(SUError::out_of_range("source index is out of the source blocks"));
        }
        if partial_stripe.stripe[idx].is_none() {
            assert(slots[idx as int] is None);
            return Err(SUError::erasure_code("the target source block is absent"));
        }
        proof {
            self.lemma_mat_shape();
        }
        let ghost src = slots[idx as int].unwrap();
        let mut new_parity: Vec<Vec<u8>> = Vec::new();
        let mut j: usize = 0;
        while j < p
            invariant
                k == self.k,
                p == self.p,
                self.wf(),
                idx < k,
                partial_stripe.k == k,
                partial_stripe.p == p,
                partial_stripe.block_size == bs,
                partial_stripe.wf(),
                slots == partial_stripe.slots(),
                *partial_stripe == *old(partial_stripe),
                offset < bs,
                parity_present(slots, k as nat, p as nat),
                slots[idx as int] == Some(src),
                has_shape(self.encode_mat@, (k + p) as nat, k as nat),
                forall|a: int, b: int|
                    0 <= a < k + p && 0 <= b < k ==> #[trigger] self.encode_mat@[a]@[b] == rs_coef(k as nat, a as nat, b as nat),
                offset + update@.len() <= bs,
                j <= p,
                new_parity@.len() == j,
                forall|u: int| 0 <= u < j ==> (#[trigger] new_parity@[u])@ == delta_parity(
                    slots[k + u].unwrap(),
                    src,
                    update@,
                    offset as nat,
                    rs_coef(k as nat, (k + u) as nat, idx as nat),
                ),
            decreases p - j,
        {
            let coef = self.encode_mat[k + j][idx];
            assert(slots[k + j] is Some);
            let par = match &partial_stripe.stripe[k + j] {
                Some(b) => b,
                None => { return Err(SUError::erasure_code("not all the parity blocks are present")); },
            };
            let source = match &partial_stripe.stripe[idx] {
                Some(b) => b,
                None => { return Err(SUError::erasure_code("the target source block is absent")); },
            };
            assert(par@ == slots[k + j].unwrap());
            assert(source@ == src);
            let mut bytes: Vec<u8> = Vec::new();
            let mut b: usize = 0;
            while b < bs
                invariant
                    par@.len() == bs,
                    source@.len() == bs,
                    offset + update@.len() <= bs,
                    b <= bs,
                    bytes@.len() == b,
                    forall|u: int| 0 <= u < b ==> bytes@[u] == delta_parity(par@, source@, update@, offset as nat, coef)[u],
                decreases bs - b,
            {
                if offset <= b && b < offset + update.len() {
                    let d = source.bytes[b] ^ update[b - offset];
                    bytes.push(par.bytes[b] ^ gf_mul(d, coef));
                } else {
                    bytes.push(par.bytes[b]);
                }
                b = b + 1;
            }
            assert(bytes@ =~= delta_parity(par@, source@, update@, offset as nat, coef));
            new_parity.push(bytes);
            j = j + 1;
        }
        let new_source = match &partial_stripe.stripe[idx] {
            Some(b) => crate::erasure_code::stripe::splice_exec(&b.bytes, offset, update),
            None => { return Err(SUError::erasure_code("the target source block is absent")); },
        };
        let ghost expected = delta_updated(k as nat, p as nat, slots, idx as nat, offset as nat, update@);
        partial_stripe.stripe.set(idx, Some(Block { bytes: new_source }));
        let mut j: usize = 0;
        while j < p
            invariant
                k == self.k,
                p == self.p,
                1 <= k,
                1 <= p,
                idx < k,
                partial_stripe.k == k,
                partial_stripe.p == p,
                partial_stripe.block_size == bs,
                partial_stripe.stripe@.len() == k + p,
                slots.len() == k + p,
                new_parity@.len() == p,
                expected == delta_updated(k as nat, p as nat, slots, idx as nat, offset as nat, update@),
                forall|u: int| 0 <= u < p ==> (#[trigger] new_parity@[u])@ == delta_parity(
                    slots[k + u].unwrap(),
                    src,
                    update@,
                    offset as nat,
                    rs_coef(k as nat, (k + u) as nat, idx as nat),
                ),
                slots[idx as int] == Some(src),
                j <= p,
                forall|u: int| 0 <= u < k + p ==> #[trigger] partial_stripe.slots()[u] == if u == idx || k <= u < k + j {
                    expected[u]
                } else {
                    slots[u]
                },
            decreases p - j,
        {
            let bytes = new_parity[j].clone();
            proof {
                assert(bytes@ =~= new_parity@[j as int]@);
            }
            let ghost prev = partial_stripe.slots();
            partial_stripe.stripe.set(k + j, Some(Block { bytes }));
            assert(partial_stripe.slots() =~= prev.update(k + j, Some(bytes@)));
            j = j + 1;
        }
        assert(partial_stripe.slots() =~= expected);
        proof {
            assert forall|u: int| 0 <= u < partial_stripe.stripe@.len() && (#[trigger] partial_stripe.stripe@[u]) is Some implies partial_stripe.stripe@[u].unwrap()@.len() == bs by {
                assert(partial_stripe.slots()[u] == Some(partial_stripe.stripe@[u].unwrap()@));
                if u != idx && !(k <= u < k + p) {
                    assert(slots[u] == Some(old(partial_stripe).stripe@[u].unwrap()@));
                }
            }
        }
        Ok(())
    }

    /// Rebuilds every absent block of `partial_stripe` from `k` present ones.
    ///
    /// Fails with `ErasureCode` when `(k, p)` does not match, when more than `p` blocks
    /// are absent, or when the survivors' generator rows cannot be inverted; then
    /// nothing changes.
    pub fn decode(&self, partial_stripe: &mut PartialStripe) -> (r: SUResult<()>)
        requires
            self.wf(),
            old(partial_stripe).wf(),
        ensures
            old(partial_stripe).k != self.k || old(partial_stripe).p != self.p ==> is_ec_err(r),
            absent_count(old(partial_stripe).slots()) > self.p ==> is_ec_err(r),
            old(partial_stripe).k == self.k && old(partial_stripe).p == self.p && absent_count(
                old(partial_stripe).slots(),
            ) <= self.p && decode_guaranteed(old(partial_stripe).slots(), self.k as nat) ==> r is Ok,
            r is Err ==> is_ec_err(r) && *final(partial_stripe) == *old(partial_stripe),
            r is Ok ==> {
                &&& final(partial_stripe).wf()
                &&& final(partial_stripe).k == old(partial_stripe).k
                &&& final(partial_stripe).p == old(partial_stripe).p
                &&& final(partial_stripe).block_size == old(partial_stripe).block_size
                &&& forall|i: int| 0 <= i < final(partial_stripe).stripe@.len() ==> (#[trigger] final(partial_stripe).stripe@[i]) is Some
                &&& exists|idxs: Seq<usize>, inv: Seq<Seq<u8>>|
                    decoded_from(
                        self.k as nat,
                        self.p as nat,
                        old(partial_stripe).slots(),
                        final(partial_stripe).slots(),
                        old(partial_stripe).block_size as nat,
                        idxs,
                        inv,
                    )
            },
    {
        if partial_stripe.k() != self.k {
            return Err(SUError::erasure_code("k does not match between erasure code and stripe"));
        }
        if partial_stripe.p() != self.p {
            return Err(SUError::erasure_code("p does not match between erasure code and stripe"));
        }
        let k = self.k;
        let p = self.p;
        let m = k + p;
        let bs = partial_stripe.block_size;
        let ghost slots = partial_stripe.slots();
        proof {
            self.lemma_mat_shape();
        }
        // count the absent slots and pick the first k present ones
        let mut absent: usize = 0;
        let mut idxs: Vec<usize> = Vec::new();
        let mut survivors: Vec<Vec<u8>> = Vec::new();
        let mut rows: Vec<Vec<u8>> = Vec::new();
        let mut i: usize = 0;
        while i < m
            invariant
                self.wf(),
                k == self.k,
                p == self.p,
                m == k + p,
                partial_stripe.wf(),
                partial_stripe.k == k,
                partial_stripe.p == p,
                bs == partial_stripe.block_size,
                slots == partial_stripe.slots(),
                *partial_stripe == *old(partial_stripe),
                has_shape(self.encode_mat@, m as nat, k as nat),
                i <= m,
                absent == slots.take(i as int).filter(|s: Option<Seq<u8>>| s is None).len(),
                absent <= i,
                idxs@.len() <= k,
                survivors@.len() == idxs@.len(),
                rows@.len() == idxs@.len(),
                forall|t: int| 0 <= t < idxs@.len() ==> (#[trigger] idxs@[t]) < i && slots[idxs@[t] as int] is Some,
                forall|a: int, b: int| 0 <= a < b < idxs@.len() ==> idxs@[a] < idxs@[b],
                forall|t: int| 0 <= t < idxs@.len() ==> (#[trigger] survivors@[t])@ == slots[idxs@[t] as int].unwrap(),
                forall|t: int| 0 <= t < idxs@.len() ==> (#[trigger] rows@[t])@ == rs_matrix(k as nat, m as nat)[idxs@[t] as int],
                idxs@.len() < k ==> idxs@.len() + absent == i,
            decreases m - i,
        {
            proof {
                assert(slots.take(i + 1) =~= slots.take(i as int).push(slots[i as int]));
                slots.take(i as int).lemma_filter_push(slots[i as int], |s: Option<Seq<u8>>| s is None);
                reveal(Seq::filter);
            }
            match &partial_stripe.stripe[i] {
                None => {
                    absent = absent + 1;
                },
                Some(b) => {
                    if idxs.len() < k {
                        idxs.push(i);
                        survivors.push(copy_bytes(&b.bytes));
                        let row = copy_bytes(&self.encode_mat[i]);
                        proof {
                            assert(rows_view(self.encode_mat@)[i as int] == self.encode_mat@[i as int]@);
                        }
                        rows.push(row);
                    }
                },
            }
            i = i + 1;
        }
        assert(slots.take(m as int) =~= slots);
        if absent > p {
            return Err(SUError::erasure_code("too many absent blocks to decode"));
        }
        assert(idxs@.len() == k);
        assert(select_rows(rs_matrix(k as nat, m as nat), idxs@) =~= rows_view(rows@));
        assert(select_blocks(slots, idxs@) =~= rows_view(survivors@));
        let (idxs, survivors, inv) = match self.prepare_decode(partial_stripe, idxs, survivors, rows) {
            Some(t) => t,
            None => {
                return Err(SUError::erasure_code("the decode matrix is singular"));
            },
        };
        proof {
            assert forall|t: int| 0 <= t < k implies bs as nat <= (#[trigger] survivors@[t])@.len() by {}
        }
        // rebuild every absent slot
        let ghost new_slots = Seq::new(
            m as nat,
            |a: int|
                if slots[a] is Some {
                    slots[a]
                } else {
                    Some(Seq::new(bs as nat, |b: int| lincomb(decode_row(k as nat, p as nat, rows_view(inv@), a), rows_view(survivors@), b, k as nat)))
                },
        );
        let mut recovered: Vec<Option<Block>> = Vec::new();
        let mut a: usize = 0;
        while a < m
            invariant
                self.wf(),
                k == self.k,
                p == self.p,
                m == k + p,
                a <= m,
                new_slots.len() == m,
                forall|t: int| 0 <= t < m && (#[trigger] slots[t]) is Some ==> new_slots[t] == slots[t],
                forall|t: int| 0 <= t < m && (#[trigger] slots[t]) is None ==> new_slots[t] == Some(Seq::new(bs as nat, |b: int| lincomb(decode_row(k as nat, p as nat, rows_view(inv@), t), rows_view(survivors@), b, k as nat))),
                partial_stripe.wf(),
                bs == partial_stripe.block_size,
                slots == partial_stripe.slots(),
                slots.len() == m,
                *partial_stripe == *old(partial_stripe),
                has_shape(self.encode_mat@, m as nat, k as nat),
                has_shape(inv@, k as nat, k as nat),
                survivors@.len() == k,
                forall|t: int| 0 <= t < k ==> bs as nat <= (#[trigger] survivors@[t])@.len(),
                recovered@.len() == a,
                forall|t: int| 0 <= t < a ==> (#[trigger] recovered@[t]) is Some && Some(recovered@[t].unwrap()@) == new_slots[t] && recovered@[t].unwrap()@.len() == bs,
            decreases m - a,
        {
            if partial_stripe.stripe[a].is_none() {
                assert(slots[a as int] is None);
                let row: Vec<u8> = if a < k {
                    copy_bytes(&inv[a])
                } else {
                    proof {
                        crate::gf::lemma_shape_matrix(inv@, k as nat, k as nat);
                    }
                    mat_mul_row_exec(&self.encode_mat, &inv, a, k, k)
                };
                proof {
                    if a < k {
                        assert(rows_view(inv@)[a as int] == inv@[a as int]@);
                    }
                    assert(rows_view(self.encode_mat@) == rs_matrix(k as nat, m as nat));
                    assert(row@ == decode_row(k as nat, p as nat, rows_view(inv@), a as int));
                }
                let mut bytes: Vec<u8> = Vec::new();
                let mut b: usize = 0;
                while b < bs
                    invariant
                        b <= bs,
                        row@.len() >= k,
                        survivors@.len() == k,
                        forall|t: int| 0 <= t < k ==> bs as nat <= (#[trigger] survivors@[t])@.len(),
                        bytes@.len() == b,
                        forall|t: int| 0 <= t < b ==> bytes@[t] == lincomb(row@, rows_view(survivors@), t, k as nat),
                    decreases bs - b,
                {
                    let v = lincomb_at(&row, &survivors, b, k);
                    bytes.push(v);
                    b = b + 1;
                }
                proof {
                    assert(bytes@ =~= Seq::new(bs as nat, |b: int| lincomb(decode_row(k as nat, p as nat, rows_view(inv@), a as int), rows_view(survivors@), b, k as nat)));
                }
                recovered.push(Some(Block { bytes }));
            } else {
                match &partial_stripe.stripe[a] {
                    Some(blk) => {
                        assert(slots[a as int] == Some(blk@));
                        assert(blk@.len() == bs);
                        recovered.push(Some(Block { bytes: copy_bytes(&blk.bytes) }));
                    },
                    None => {
                        recovered.push(None);
                    },
                }
                assert(slots[a as int] == Some(partial_stripe.stripe@[a as int].unwrap()@));
            }
            a = a + 1;
        }
        partial_stripe.stripe = recovered;
        proof {
            assert(partial_stripe.slots() =~= new_slots);
            assert(decoded_from(k as nat, p as nat, slots, new_slots, bs as nat, idxs@, rows_view(inv@)));
        }
        Ok(())
    }

    /// Survivors and the inverse of their generator rows, for the erasure patterns whose
    /// inverse is known in closed form.
    fn known_inverse(&self, ps: &PartialStripe) -> (r: Option<(Vec<usize>, Vec<Vec<u8>>)>)
        requires
            self.wf(),
            ps.wf(),
            ps.k == self.k,
            ps.p == self.p,
        ensures
            r is Some ==> {
                let (idxs, inv) = r.unwrap();
                &&& valid_survivors(self.k as nat, ps.slots(), idxs@)
                &&& has_shape(inv@, self.k as nat, self.k as nat)
                &&& is_left_inverse(rows_view(inv@), select_rows(rs_matrix(self.k as nat, (self.k + self.p) as nat), idxs@), self.k as nat)
            },
            decode_guaranteed(ps.slots(), self.k as nat) ==> r is Some,
    {
        let k = self.k;
        let ghost slots = ps.slots();
        let mut count: usize = 0;
        let mut lost: usize = 0;
        let ghost mut other: int = 0;
        let mut s: usize = 0;
        while s < k
            invariant
                s <= k,
                k == self.k,
                ps.stripe@.len() == k + self.p,
                slots == ps.slots(),
                count <= 2,
                count == 0 ==> forall|t: int| 0 <= t < s ==> (#[trigger] slots[t]) is Some,
                count == 1 ==> lost < s && slots[lost as int] is None && forall|t: int| 0 <= t < s && t != lost ==> (#[trigger] slots[t]) is Some,
                count == 2 ==> 0 <= other < s && lost < s && other != lost && slots[other] is None && slots[lost as int] is None,
            decreases k - s,
        {
            if ps.stripe[s].is_none() {
                assert(slots[s as int] is None);
                proof {
                    if count >= 1 {
                        other = lost as int;
                    }
                }
                lost = s;
                if count < 2 {
                    count = count + 1;
                }
            } else {
                assert(slots[s as int] is Some);
            }
            s = s + 1;
        }
        proof {
            if decode_guaranteed(slots, k as nat) && count == 2 {
                if !sources_present(slots, k as nat) {
                    let i = choose|i: int| only_source_absent(slots, k as nat, i);
                    if other != i {
                        assert(slots[other] is Some);
                    } else {
                        assert(slots[lost as int] is Some);
                    }
                } else {
                    assert(slots[lost as int] is Some);
                }
            }
            if decode_guaranteed(slots, k as nat) && count == 1 && !sources_present(slots, k as nat) {
                let i = choose|i: int| only_source_absent(slots, k as nat, i);
                assert(slots[k as int] is Some);
            }
            if count == 1 && sources_present(slots, k as nat) {
                assert(slots[lost as int] is Some);
            }
        }
        if count == 0 {
            let mut idxs: Vec<usize> = Vec::new();
            let mut x: usize = 0;
            while x < k
                invariant
                    x <= k,
                    idxs@ == Seq::new(x as nat, |t: int| t as usize),
                decreases k - x,
            {
                idxs.push(x);
                x = x + 1;
                assert(idxs@ =~= Seq::new(x as nat, |t: int| t as usize));
            }
            let inv = crate::gf::identity(k);
            proof {
                lemma_sources_inverse(k as nat, self.p as nat);
                crate::gf::lemma_matrix_shape(inv@, k as nat, k as nat);
                assert forall|t: int| 0 <= t < k implies (#[trigger] idxs@[t]) < slots.len() && slots[idxs@[t] as int] is Some by {}
            }
            return Some((idxs, inv));
        }
        if count == 1 && ps.stripe[k].is_some() {
            assert(slots[k as int] is Some);
            let ghost want = one_lost_survivors(k as nat, lost as int);
            let mut idxs: Vec<usize> = Vec::new();
            let mut x: usize = 0;
            while x < k
                invariant
                    x <= k,
                    k + self.p <= 255,
                    want == one_lost_survivors(k as nat, lost as int),
                    idxs@ == want.take(x as int),
                decreases k - x,
            {
                idxs.push(if x == k - 1 { k } else if x < lost { x } else { x + 1 });
                x = x + 1;
                assert(idxs@ =~= want.take(x as int));
            }
            assert(want.take(k as int) =~= want);
            let ghost winv = one_lost_inverse(k as nat, lost as int);
            let mut inv: Vec<Vec<u8>> = Vec::new();
            let mut t: usize = 0;
            while t < k
                invariant
                    t <= k,
                    lost < k,
                    winv == one_lost_inverse(k as nat, lost as int),
                    inv@.len() == t,
                    forall|u: int| 0 <= u < t ==> (#[trigger] inv@[u])@ == winv[u],
                decreases k - t,
            {
                let xt: usize = if t < lost { t } else if t > 0 { t - 1 } else { 0 };
                let mut row: Vec<u8> = Vec::new();
                let mut x: usize = 0;
                while x < k
                    invariant
                        x <= k,
                        t < k,
                        lost < k,
                        xt as int == if t < lost { t as int } else if t > 0 { t - 1 } else { 0 },
                        winv == one_lost_inverse(k as nat, lost as int),
                        row@.len() == x,
                        forall|u: int| 0 <= u < x ==> row@[u] == winv[t as int][u],
                    decreases k - x,
                {
                    row.push(if t == lost || x == xt { 1u8 } else { 0u8 });
                    x = x + 1;
                }
                assert(row@ =~= winv[t as int]);
                inv.push(row);
                t = t + 1;
            }
            proof {
                assert(rows_view(inv@) =~= winv);
                lemma_one_lost_inverse(k as nat, self.p as nat, lost as int);
                assert forall|u: int| 0 <= u < k implies (#[trigger] inv@[u])@.len() == k by {}
                assert forall|u: int| 0 <= u < k implies (#[trigger] idxs@[u]) < slots.len() && slots[idxs@[u] as int] is Some by {
                    if u != k - 1 {
                        let y = if u < lost { u } else { u + 1 };
                        assert(idxs@[u] as int == y);
                    }
                }
            }
            return Some((idxs, inv));
        }
        None
    }

    /// The survivors, their blocks and the inverse of their generator rows: in closed form
    /// where it is known, else by inverting the rows of the first `k` present slots.
    fn prepare_decode(
        &self,
        ps: &PartialStripe,
        idxs: Vec<usize>,
        survivors: Vec<Vec<u8>>,
        rows: Vec<Vec<u8>>,
    ) -> (r: Option<(Vec<usize>, Vec<Vec<u8>>, Vec<Vec<u8>>)>)
        requires
            self.wf(),
            ps.wf(),
            ps.k == self.k,
            ps.p == self.p,
            valid_survivors(self.k as nat, ps.slots(), idxs@),
            rows_view(survivors@) == select_blocks(ps.slots(), idxs@),
            rows_view(rows@) == select_rows(rs_matrix(self.k as nat, (self.k + self.p) as nat), idxs@),
        ensures
            r is Some ==> {
                let (i, s, inv) = r.unwrap();
                &&& valid_survivors(self.k as nat, ps.slots(), i@)
                &&& rows_view(s@) == select_blocks(ps.slots(), i@)
                &&& s@.len() == self.k
                &&& forall|t: int| 0 <= t < self.k ==> (#[trigger] s@[t])@.len() == ps.block_size
                &&& has_shape(inv@, self.k as nat, self.k as nat)
                &&& is_left_inverse(rows_view(inv@), select_rows(rs_matrix(self.k as nat, (self.k + self.p) as nat), i@), self.k as nat)
            },
            decode_guaranteed(ps.slots(), self.k as nat) ==> r is Some,
    {
        let k = self.k;
        let ghost slots = ps.slots();
        let (idxs, survivors, inv) = match self.known_inverse(ps) {
            Some((ki, kinv)) => {
                let mut surv: Vec<Vec<u8>> = Vec::new();
                let mut x: usize = 0;
                while x < k
                    invariant
                        x <= k,
                        k == self.k,
                        ps.wf(),
                        slots == ps.slots(),
                        valid_survivors(k as nat, slots, ki@),
                        surv@.len() == x,
                        forall|t: int| 0 <= t < x ==> (#[trigger] surv@[t])@ == slots[ki@[t] as int].unwrap(),
                    decreases k - x,
                {
                    let i = ki[x];
                    assert(slots[i as int] is Some);
                    match &ps.stripe[i] {
                        Some(b) => {
                            surv.push(copy_bytes(&b.bytes));
                        },
                        None => {
                            surv.push(Vec::new());
                        },
                    }
                    x = x + 1;
                }
                assert(rows_view(surv@) =~= select_blocks(slots, ki@));
                (ki, surv, kinv)
            },
            None => {
                proof {
                    assert(rows_view(rows@).len() == rows@.len());
                    assert forall|t: int| 0 <= t < k implies (#[trigger] rows_view(rows@)[t]).len() == k by {
                        assert(idxs@[t] < k + self.p);
                        assert(rows_view(rows@)[t] == rs_matrix(k as nat, (k + self.p) as nat)[idxs@[t] as int]);
                    }
                }
                match gf_invert_matrix(&rows, k) {
                    Some(inv) => {
                        proof {
                            crate::gf::lemma_matrix_shape(inv@, k as nat, k as nat);
                        }
                        (idxs, survivors, inv)
                    },
                    None => {
                        return None;
                    },
                }
            },
        };
        proof {
            assert(survivors@.len() == k) by {
                assert(rows_view(survivors@).len() == survivors@.len());
            }
            assert forall|t: int| 0 <= t < k implies (#[trigger] survivors@[t])@.len() == ps.block_size by {
                assert(rows_view(survivors@)[t] == survivors@[t]@);
                assert(slots[idxs@[t] as int] is Some);
                assert(slots[idxs@[t] as int] == Some(ps.stripe@[idxs@[t] as int].unwrap()@));
            }
        }
        Some((idxs, survivors, inv))
    }

    /// Brings the parities of `partial_stripe` up to date with new contents of some of its
    /// sources: each `(idx, bytes)` of `updates`, in order, delta-updates source `idx` to
    /// the whole block `bytes`. Fails with `ErasureCode` (nothing changed) unless the code
    /// matches, every parity is present and every update names a present source and holds
    /// a whole block.
    pub fn apply_source_updates(&self, partial_stripe: &mut PartialStripe, updates: &Vec<(usize, Vec<u8>)>) -> (r: SUResult<()>)
        requires
            self.wf(),
            old(partial_stripe).wf(),
        ensures
            ({
                let ps = *old(partial_stripe);
                let ups = updates@.map_values(|u: (usize, Vec<u8>)| (u.0, u.1@));
                let valid = ps.k == self.k && ps.p == self.p && parity_present(ps.slots(), self.k as nat, self.p as nat)
                    && updates_valid(self.k as nat, ps.slots(), ps.block_size as nat, ups);
                &&& r is Ok <==> valid
                &&& r is Err ==> is_ec_err(r) && *final(partial_stripe) == ps
                &&& r is Ok ==> final(partial_stripe).wf() && final(partial_stripe).block_size == ps.block_size
                    && final(partial_stripe).slots() == deltas_applied(self.k as nat, self.p as nat, ps.slots(), ups)
            }),
    {
        let ghost ups = updates@.map_values(|u: (usize, Vec<u8>)| (u.0, u.1@));
        let ghost slots0 = partial_stripe.slots();
        if partial_stripe.k() != self.k || partial_stripe.p() != self.p {
            return Err(SUError::erasure_code("the stripe does not match the code"));
        }
        let k = self.k;
        let p = self.p;
        let bs = partial_stripe.block_size;
        let mut t: usize = k;
        while t < k + p
            invariant
                k == self.k,
                p == self.p,
                self.wf(),
                partial_stripe.wf(),
                partial_stripe.k == k && partial_stripe.p == p,
                slots0 == partial_stripe.slots(),
                *partial_stripe == *old(partial_stripe),
                k <= t <= k + p,
                forall|u: int| k <= u < t ==> (#[trigger] slots0[u]) is Some,
            decreases k + p - t,
        {
            if partial_stripe.stripe[t].is_none() {
                assert(slots0[t as int] is None);
                return Err(SUError::erasure_code("not all the parity blocks are present"));
            }
            assert(slots0[t as int] is Some);
            t = t + 1;
        }
        assert(parity_present(slots0, k as nat, p as nat));
        let mut u: usize = 0;
        while u < updates.len()
            invariant
                k == self.k,
                p == self.p,
                partial_stripe.k == k && partial_stripe.p == p,
                parity_present(slots0, k as nat, p as nat),
                partial_stripe.wf(),
                slots0 == partial_stripe.slots(),
                *partial_stripe == *old(partial_stripe),
                bs == partial_stripe.block_size,
                ups == updates@.map_values(|u: (usize, Vec<u8>)| (u.0, u.1@)),
                u <= updates@.len(),
                forall|v: int| 0 <= v < u ==> (#[trigger] ups[v]).0 < k && slots0[ups[v].0 as int] is Some && ups[v].1.len() == bs,
            decreases updates@.len() - u,
        {
            let idx = updates[u].0;
            assert(ups[u as int] == (idx, updates@[u as int].1@));
            if idx >= k {
                assert(!updates_valid(k as nat, slots0, bs as nat, ups));
                return Err(SUError::erasure_code("an update names a block that is no source"));
            }
            if partial_stripe.stripe[idx].is_none() {
                assert(slots0[idx as int] is None);
                assert(!updates_valid(k as nat, slots0, bs as nat, ups));
                return Err(SUError::erasure_code("an update names an absent source"));
            }
            if updates[u].1.len() != bs {
                assert(!updates_valid(k as nat, slots0, bs as nat, ups));
                return Err(SUError::erasure_code("an update is not a whole block"));
            }
            assert(slots0[idx as int] is Some);
            u = u + 1;
        }
        assert(updates_valid(k as nat, slots0, bs as nat, ups));
        assert(ups.take(0) =~= Seq::<(usize, Seq<u8>)>::empty());
        let mut u: usize = 0;
        while u < updates.len()
            invariant
                k == self.k,
                p == self.p,
                self.wf(),
                partial_stripe.wf(),
                partial_stripe.k == k && partial_stripe.p == p,
                bs == partial_stripe.block_size,
                bs >= 1,
                ups == updates@.map_values(|u: (usize, Vec<u8>)| (u.0, u.1@)),
                updates_valid(k as nat, slots0, bs as nat, ups),
                parity_present(slots0, k as nat, p as nat),
                u <= updates@.len(),
                partial_stripe.slots() == deltas_applied(k as nat, p as nat, slots0, ups.take(u as int)),
                partial_stripe.slots().len() == k + p,
                forall|t: int| 0 <= t < k + p && (#[trigger] slots0[t]) is Some ==> partial_stripe.slots()[t] is Some,
            decreases updates@.len() - u,
        {
            let ghost before = partial_stripe.slots();
            assert(ups[u as int].0 == updates@[u as int].0);
            let r = self.delta_update(&updates[u].1, updates[u].0, 0, partial_stripe);
            proof {
                assert(before[ups[u as int].0 as int] is Some);
                assert(parity_present(before, k as nat, p as nat)) by {
                    assert forall|t: int| k <= t < k + p implies (#[trigger] before[t]) is Some by {
                        assert(slots0[t] is Some);
                    }
                }
            }
            if r.is_err() {
                return r;
            }
            proof {
                assert(ups.take(u + 1).drop_last() =~= ups.take(u as int));
                assert(ups.take(u + 1).last() == ups[u as int]);
                assert(updates@[u as int].1@ == ups[u as int].1);
            }
            u = u + 1;
        }
        assert(ups.take(ups.len() as int) =~= ups);
        Ok(())
    }
}

} // verus!
