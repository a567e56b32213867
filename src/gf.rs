//! Arithmetic over GF(2^8) with the reduction polynomial x^8 + x^4 + x^3 + x^2 + 1
//! (0x11d), the field used by Reed-Solomon codes of the ISA-L family.
use vstd::prelude::*;

verus! {

/// Multiplication by x, reduced modulo the field polynomial.
pub open spec fn gf_xtime(a: u8) -> u8 {
    if a & 0x80u8 == 0 {
        (a << 1u8) as u8
    } else {
        ((a << 1u8) ^ 0x1du8) as u8
    }
}

/// The term that bit `i` of `b` contributes to `a * b`.
pub open spec fn gf_term(a: u8, b: u8, bit: u8) -> u8 {
    if b & bit == 0 {
        0u8
    } else {
        a
    }
}

/// The product of two field elements: shift-and-add over the bits of `b`.
pub open spec fn gf_product(a: u8, b: u8) -> u8 {
    let a1 = gf_xtime(a);
    let a2 = gf_xtime(a1);
    let a3 = gf_xtime(a2);
    let a4 = gf_xtime(a3);
    let a5 = gf_xtime(a4);
    let a6 = gf_xtime(a5);
    let a7 = gf_xtime(a6);
    gf_term(a, b, 1u8) ^ gf_term(a1, b, 2u8) ^ gf_term(a2, b, 4u8) ^ gf_term(a3, b, 8u8)
        ^ gf_term(a4, b, 16u8) ^ gf_term(a5, b, 32u8) ^ gf_term(a6, b, 64u8) ^ gf_term(
        a7,
        b,
        128u8,
    )
}

/// Multiplication distributes over addition (XOR) in the first factor.
pub proof fn lemma_gf_product_linear(a: u8, b: u8, c: u8)
    ensures
        gf_product(a ^ b, c) == gf_product(a, c) ^ gf_product(b, c),
{
    let ab = a ^ b;
    lemma_xtime_linear_chain(a, b);
    let (a1, a2, a3, a4, a5, a6, a7) = xtime_chain(a);
    let (b1, b2, b3, b4, b5, b6, b7) = xtime_chain(b);
    let t0 = gf_term(a, c, 1u8);
    let t1 = gf_term(a1, c, 2u8);
    let t2 = gf_term(a2, c, 4u8);
    let t3 = gf_term(a3, c, 8u8);
    let t4 = gf_term(a4, c, 16u8);
    let t5 = gf_term(a5, c, 32u8);
    let t6 = gf_term(a6, c, 64u8);
    let t7 = gf_term(a7, c, 128u8);
    let u0 = gf_term(b, c, 1u8);
    let u1 = gf_term(b1, c, 2u8);
    let u2 = gf_term(b2, c, 4u8);
    let u3 = gf_term(b3, c, 8u8);
    let u4 = gf_term(b4, c, 16u8);
    let u5 = gf_term(b5, c, 32u8);
    let u6 = gf_term(b6, c, 64u8);
    let u7 = gf_term(b7, c, 128u8);
    lemma_term_linear(a, b, c, 1u8);
    lemma_term_linear(a1, b1, c, 2u8);
    lemma_term_linear(a2, b2, c, 4u8);
    lemma_term_linear(a3, b3, c, 8u8);
    lemma_term_linear(a4, b4, c, 16u8);
    lemma_term_linear(a5, b5, c, 32u8);
    lemma_term_linear(a6, b6, c, 64u8);
    lemma_term_linear(a7, b7, c, 128u8);
    assert((t0 ^ u0) ^ (t1 ^ u1) ^ (t2 ^ u2) ^ (t3 ^ u3) ^ (t4 ^ u4) ^ (t5 ^ u5) ^ (t6 ^ u6) ^ (t7
        ^ u7) == (t0 ^ t1 ^ t2 ^ t3 ^ t4 ^ t5 ^ t6 ^ t7) ^ (u0 ^ u1 ^ u2 ^ u3 ^ u4 ^ u5 ^ u6 ^ u7))
        by (bit_vector);
}

/// The seven successive multiples of `a` by x.
pub open spec fn xtime_chain(a: u8) -> (u8, u8, u8, u8, u8, u8, u8) {
    let a1 = gf_xtime(a);
    let a2 = gf_xtime(a1);
    let a3 = gf_xtime(a2);
    let a4 = gf_xtime(a3);
    let a5 = gf_xtime(a4);
    let a6 = gf_xtime(a5);
    let a7 = gf_xtime(a6);
    (a1, a2, a3, a4, a5, a6, a7)
}

proof fn lemma_xtime_linear(a: u8, b: u8)
    ensures
        gf_xtime(a ^ b) == gf_xtime(a) ^ gf_xtime(b),
{
    assert(gf_xtime(a ^ b) == gf_xtime(a) ^ gf_xtime(b)) by (bit_vector);
}

proof fn lemma_xtime_linear_chain(a: u8, b: u8)
    ensures
        ({
            let (a1, a2, a3, a4, a5, a6, a7) = xtime_chain(a);
            let (b1, b2, b3, b4, b5, b6, b7) = xtime_chain(b);
            xtime_chain(a ^ b) == (a1 ^ b1, a2 ^ b2, a3 ^ b3, a4 ^ b4, a5 ^ b5, a6 ^ b6, a7 ^ b7)
        }),
{
    let (a1, a2, a3, a4, a5, a6, _a7) = xtime_chain(a);
    let (b1, b2, b3, b4, b5, b6, _b7) = xtime_chain(b);
    lemma_xtime_linear(a, b);
    lemma_xtime_linear(a1, b1);
    lemma_xtime_linear(a2, b2);
    lemma_xtime_linear(a3, b3);
    lemma_xtime_linear(a4, b4);
    lemma_xtime_linear(a5, b5);
    lemma_xtime_linear(a6, b6);
}

proof fn lemma_term_linear(a: u8, b: u8, c: u8, bit: u8)
    ensures
        gf_term(a ^ b, c, bit) == gf_term(a, c, bit) ^ gf_term(b, c, bit),
{
    assert(gf_term(a ^ b, c, bit) == gf_term(a, c, bit) ^ gf_term(b, c, bit)) by (bit_vector);
}

/// Multiplication commutes.
#[verifier::rlimit(100)]
pub proof fn lemma_gf_product_commutative(a: u8, b: u8)
    ensures
        gf_product(a, b) == gf_product(b, a),
{
    assert(gf_product(a, b) == gf_product(b, a)) by (bit_vector);
}

/// Multiplying the second factor by x multiplies the product by x.
#[verifier::rlimit(100)]
proof fn lemma_gf_xtime_second(a: u8, b: u8)
    ensures
        gf_product(a, gf_xtime(b)) == gf_xtime(gf_product(a, b)),
{
    assert(gf_product(a, gf_xtime(b)) == gf_xtime(gf_product(a, b))) by (bit_vector);
}

/// Multiplication distributes over addition (XOR) in the second factor.
pub proof fn lemma_gf_product_linear_second(a: u8, b: u8, c: u8)
    ensures
        gf_product(a, b ^ c) == gf_product(a, b) ^ gf_product(a, c),
{
    lemma_gf_product_commutative(a, b ^ c);
    lemma_gf_product_commutative(a, b);
    lemma_gf_product_commutative(a, c);
    lemma_gf_product_linear(b, c, a);
}

/// Zero annihilates and one is neutral.
pub proof fn lemma_gf_product_units(a: u8)
    ensures
        gf_product(a, 0) == 0,
        gf_product(0, a) == 0,
        gf_product(1, a) == a,
        gf_product(a, 1) == a,
{
    assert(gf_product(a, 0) == 0) by (bit_vector);
    assert(gf_product(0, a) == 0) by (bit_vector);
    assert(gf_product(a, 1) == a) by (bit_vector);
    lemma_gf_product_commutative(1, a);
}

proof fn lemma_gf_term_inside(a: u8, z: u8, c: u8, bit: u8)
    ensures
        gf_product(a, gf_term(z, c, bit)) == gf_term(gf_product(a, z), c, bit),
{
    lemma_gf_product_units(a);
}

proof fn lemma_gf_xtime_pow(a: u8, b: u8)
    ensures
        ({
            let (b1, b2, b3, b4, b5, b6, b7) = xtime_chain(b);
            let (p1, p2, p3, p4, p5, p6, p7) = xtime_chain(gf_product(a, b));
            &&& gf_product(a, b1) == p1
            &&& gf_product(a, b2) == p2
            &&& gf_product(a, b3) == p3
            &&& gf_product(a, b4) == p4
            &&& gf_product(a, b5) == p5
            &&& gf_product(a, b6) == p6
            &&& gf_product(a, b7) == p7
        }),
{
    let (b1, b2, b3, b4, b5, b6, _b7) = xtime_chain(b);
    lemma_gf_xtime_second(a, b);
    lemma_gf_xtime_second(a, b1);
    lemma_gf_xtime_second(a, b2);
    lemma_gf_xtime_second(a, b3);
    lemma_gf_xtime_second(a, b4);
    lemma_gf_xtime_second(a, b5);
    lemma_gf_xtime_second(a, b6);
}

/// Multiplication is associative.
pub proof fn lemma_gf_product_associative(a: u8, b: u8, c: u8)
    ensures
        gf_product(gf_product(a, b), c) == gf_product(a, gf_product(b, c)),
{
    let (b1, b2, b3, b4, b5, b6, b7) = xtime_chain(b);
    let t0 = gf_term(b, c, 1u8);
    let t1 = gf_term(b1, c, 2u8);
    let t2 = gf_term(b2, c, 4u8);
    let t3 = gf_term(b3, c, 8u8);
    let t4 = gf_term(b4, c, 16u8);
    let t5 = gf_term(b5, c, 32u8);
    let t6 = gf_term(b6, c, 64u8);
    let t7 = gf_term(b7, c, 128u8);
    // a * (t0 ^ ... ^ t7) == (a * t0) ^ ... ^ (a * t7)
    lemma_gf_product_linear_second(a, t0 ^ t1 ^ t2 ^ t3 ^ t4 ^ t5 ^ t6, t7);
    lemma_gf_product_linear_second(a, t0 ^ t1 ^ t2 ^ t3 ^ t4 ^ t5, t6);
    lemma_gf_product_linear_second(a, t0 ^ t1 ^ t2 ^ t3 ^ t4, t5);
    lemma_gf_product_linear_second(a, t0 ^ t1 ^ t2 ^ t3, t4);
    lemma_gf_product_linear_second(a, t0 ^ t1 ^ t2, t3);
    lemma_gf_product_linear_second(a, t0 ^ t1, t2);
    lemma_gf_product_linear_second(a, t0, t1);
    lemma_gf_term_inside(a, b, c, 1u8);
    lemma_gf_term_inside(a, b1, c, 2u8);
    lemma_gf_term_inside(a, b2, c, 4u8);
    lemma_gf_term_inside(a, b3, c, 8u8);
    lemma_gf_term_inside(a, b4, c, 16u8);
    lemma_gf_term_inside(a, b5, c, 32u8);
    lemma_gf_term_inside(a, b6, c, 64u8);
    lemma_gf_term_inside(a, b7, c, 128u8);
    lemma_gf_xtime_pow(a, b);
}

/// `f(0) ^ f(1) ^ ... ^ f(n - 1)`.
pub open spec fn xsum(f: spec_fn(int) -> u8, n: int) -> u8
    decreases n,
{
    if n <= 0 {
        0u8
    } else {
        xsum(f, n - 1) ^ f(n - 1)
    }
}

/// Sums of functions that agree below `n` agree.
pub proof fn lemma_xsum_ext(f: spec_fn(int) -> u8, g: spec_fn(int) -> u8, n: int)
    requires
        forall|i: int| 0 <= i < n ==> #[trigger] f(i) == g(i),
    ensures
        xsum(f, n) == xsum(g, n),
    decreases n,
{
    if n > 0 {
        lemma_xsum_ext(f, g, n - 1);
    }
}

/// A linear combination is a sum of products.
pub proof fn lemma_lincomb_xsum(c: Seq<u8>, d: Seq<Seq<u8>>, j: int, n: nat)
    ensures
        lincomb(c, d, j, n) == xsum(|s: int| gf_product(d[s][j], c[s]), n as int),
    decreases n,
{
    if n > 0 {
        lemma_lincomb_xsum(c, d, j, (n - 1) as nat);
    }
}

/// The sum of pointwise sums is the sum of the sums.
pub proof fn lemma_xsum_add(f: spec_fn(int) -> u8, g: spec_fn(int) -> u8, n: int)
    ensures
        xsum(|i: int| f(i) ^ g(i), n) == xsum(f, n) ^ xsum(g, n),
    decreases n,
{
    if n > 0 {
        lemma_xsum_add(f, g, n - 1);
        let a = xsum(f, n - 1);
        let b = xsum(g, n - 1);
        let x = f(n - 1);
        let y = g(n - 1);
        assert((a ^ b) ^ (x ^ y) == (a ^ x) ^ (b ^ y)) by (bit_vector);
    } else {
        assert(0u8 ^ 0u8 == 0u8) by (bit_vector);
    }
}

/// A product with a sum in the first factor is the sum of the products.
pub proof fn lemma_xsum_scale_first(f: spec_fn(int) -> u8, c: u8, n: int)
    ensures
        gf_product(xsum(f, n), c) == xsum(|i: int| gf_product(f(i), c), n),
    decreases n,
{
    if n > 0 {
        lemma_xsum_scale_first(f, c, n - 1);
        lemma_gf_product_linear(xsum(f, n - 1), f(n - 1), c);
    } else {
        lemma_gf_product_units(c);
    }
}

/// A product with a sum in the second factor is the sum of the products.
pub proof fn lemma_xsum_scale_second(c: u8, f: spec_fn(int) -> u8, n: int)
    ensures
        gf_product(c, xsum(f, n)) == xsum(|i: int| gf_product(c, f(i)), n),
    decreases n,
{
    if n > 0 {
        lemma_xsum_scale_second(c, f, n - 1);
        lemma_gf_product_linear_second(c, xsum(f, n - 1), f(n - 1));
    } else {
        lemma_gf_product_units(c);
    }
}

/// The order of a double sum does not matter.
pub proof fn lemma_xsum_exchange(f: spec_fn(int, int) -> u8, nx: int, ns: int)
    ensures
        xsum(|x: int| xsum(|s: int| f(x, s), ns), nx) == xsum(|s: int| xsum(|x: int| f(x, s), nx), ns),
    decreases nx,
{
    if nx > 0 {
        lemma_xsum_exchange(f, nx - 1, ns);
        let g = |s: int| xsum(|x: int| f(x, s), nx - 1);
        let h = |s: int| f(nx - 1, s);
        lemma_xsum_add(g, h, ns);
        let lhs = |s: int| xsum(|x: int| f(x, s), nx);
        assert forall|s: int| 0 <= s < ns implies #[trigger] lhs(s) == (|i: int| g(i) ^ h(i))(s) by {}
        lemma_xsum_ext(lhs, |i: int| g(i) ^ h(i), ns);
    } else {
        let z = |s: int| xsum(|x: int| f(x, s), nx);
        assert forall|s: int| 0 <= s < ns implies #[trigger] z(s) == (|s: int| 0u8)(s) by {}
        lemma_xsum_ext(z, |s: int| 0u8, ns);
        lemma_xsum_zero(ns);
    }
}

/// A sum of zeros is zero.
pub proof fn lemma_xsum_zero(n: int)
    ensures
        xsum(|s: int| 0u8, n) == 0,
    decreases n,
{
    if n > 0 {
        lemma_xsum_zero(n - 1);
        assert(0u8 ^ 0u8 == 0u8) by (bit_vector);
    }
}

/// Recombining linear combinations: when byte `j` of each row `x < nx` of `surv` is the
/// combination of `src` with the coefficients `bm[x]`, combining `surv` with `d` is
/// combining `src` with the product row `d * bm`.
pub proof fn lemma_lincomb_compose(
    d: Seq<u8>,
    bm: Seq<Seq<u8>>,
    surv: Seq<Seq<u8>>,
    src: Seq<Seq<u8>>,
    j: int,
    nx: nat,
    ns: nat,
)
    requires
        forall|x: int| 0 <= x < nx ==> #[trigger] surv[x][j] == lincomb(bm[x], src, j, ns),
    ensures
        lincomb(d, surv, j, nx) == lincomb(Seq::new(ns, |s: int| lincomb(d, bm, s, nx)), src, j, ns),
{
    let row = Seq::new(ns, |s: int| lincomb(d, bm, s, nx));
    let f = |x: int, s: int| gf_product(src[s][j], gf_product(bm[x][s], d[x]));
    lemma_lincomb_xsum(d, surv, j, nx);
    let l0 = |x: int| gf_product(surv[x][j], d[x]);
    let l1 = |x: int| xsum(|s: int| f(x, s), ns as int);
    assert forall|x: int| 0 <= x < nx implies #[trigger] l0(x) == l1(x) by {
        lemma_lincomb_xsum(bm[x], src, j, ns);
        let inner = |s: int| gf_product(src[s][j], bm[x][s]);
        lemma_xsum_scale_first(inner, d[x], ns as int);
        let scaled = |s: int| gf_product(inner(s), d[x]);
        assert forall|s: int| 0 <= s < ns implies #[trigger] scaled(s) == f(x, s) by {
            lemma_gf_product_associative(src[s][j], bm[x][s], d[x]);
        }
        lemma_xsum_ext(scaled, |s: int| f(x, s), ns as int);
    }
    lemma_xsum_ext(l0, l1, nx as int);
    lemma_xsum_exchange(f, nx as int, ns as int);
    let r0 = |s: int| xsum(|x: int| f(x, s), nx as int);
    let r1 = |s: int| gf_product(src[s][j], row[s]);
    assert forall|s: int| 0 <= s < ns implies #[trigger] r0(s) == r1(s) by {
        lemma_lincomb_xsum(d, bm, s, nx);
        let inner = |x: int| gf_product(bm[x][s], d[x]);
        lemma_xsum_scale_second(src[s][j], inner, nx as int);
        let scaled = |x: int| gf_product(src[s][j], inner(x));
        assert forall|x: int| 0 <= x < nx implies #[trigger] scaled(x) == f(x, s) by {}
        lemma_xsum_ext(scaled, |x: int| f(x, s), nx as int);
    }
    lemma_xsum_ext(r0, r1, ns as int);
    lemma_lincomb_xsum(row, src, j, ns);
}

/// Combining with a unit row picks one row.
pub proof fn lemma_lincomb_unit(c: Seq<u8>, d: Seq<Seq<u8>>, j: int, n: nat, i: int)
    requires
        0 <= i < n,
        c.len() >= n,
        forall|s: int| 0 <= s < n ==> #[trigger] c[s] == if s == i { 1u8 } else { 0u8 },
    ensures
        lincomb(c, d, j, n) == d[i][j],
{
    lemma_lincomb_xsum(c, d, j, n);
    let f = |s: int| gf_product(d[s][j], c[s]);
    assert forall|s: int| 0 <= s < n && s != i implies #[trigger] f(s) == 0 by {
        lemma_gf_product_units(d[s][j]);
    }
    lemma_xsum_unit(f, n as int, i, d[i][j]);
}

/// A sum with one non-zero term `f(i) == v` is `v`.
pub proof fn lemma_xsum_unit_pub(f: spec_fn(int) -> u8, n: int, i: int, v: u8)
    requires
        0 <= i < n,
        forall|s: int| 0 <= s < n && s != i ==> #[trigger] f(s) == 0,
        f(i) == v,
    ensures
        xsum(f, n) == v,
{
    lemma_gf_product_units(v);
    lemma_xsum_unit(f, n, i, v);
}

proof fn lemma_xsum_unit(f: spec_fn(int) -> u8, n: int, i: int, v: u8)
    requires
        0 <= i < n,
        forall|s: int| 0 <= s < n && s != i ==> #[trigger] f(s) == 0,
        f(i) == gf_product(v, 1),
    ensures
        xsum(f, n) == v,
    decreases n,
{
    lemma_gf_product_units(v);
    if n - 1 == i {
        lemma_xsum_zero_below(f, n - 1);
        assert(0u8 ^ v == v) by (bit_vector);
    } else {
        lemma_xsum_unit(f, n - 1, i, v);
        assert(v ^ 0u8 == v) by (bit_vector);
    }
}

proof fn lemma_xsum_zero_below(f: spec_fn(int) -> u8, n: int)
    requires
        forall|s: int| 0 <= s < n ==> #[trigger] f(s) == 0,
    ensures
        xsum(f, n) == 0,
    decreases n,
{
    if n > 0 {
        lemma_xsum_zero_below(f, n - 1);
        assert(0u8 ^ 0u8 == 0u8) by (bit_vector);
    }
}

/// Every power of one is one.
pub proof fn lemma_gf_pow_one(e: nat)
    ensures
        gf_pow(1, e) == 1,
    decreases e,
{
    if e > 0 {
        lemma_gf_pow_one((e - 1) as nat);
        lemma_gf_product_units(1);
    }
}

/// Multiplication by x, executable.
fn xtime(a: u8) -> (r: u8)
    ensures
        r == gf_xtime(a),
{
    if a & 0x80 == 0 {
        a << 1
    } else {
        (a << 1) ^ 0x1d
    }
}

/// The contribution of one bit of `b`, executable.
fn term(a: u8, b: u8, bit: u8) -> (r: u8)
    ensures
        r == gf_term(a, b, bit),
{
    if b & bit == 0 {
        0
    } else {
        a
    }
}

/// Multiplies two field elements.
pub fn gf_mul(a: u8, b: u8) -> (r: u8)
    ensures
        r == gf_product(a, b),
{
    let a1 = xtime(a);
    let a2 = xtime(a1);
    let a3 = xtime(a2);
    let a4 = xtime(a3);
    let a5 = xtime(a4);
    let a6 = xtime(a5);
    let a7 = xtime(a6);
    term(a, b, 1) ^ term(a1, b, 2) ^ term(a2, b, 4) ^ term(a3, b, 8) ^ term(a4, b, 16) ^ term(
        a5,
        b,
        32,
    ) ^ term(a6, b, 64) ^ term(a7, b, 128)
}

/// `a` raised to the power `e`.
pub open spec fn gf_pow(a: u8, e: nat) -> u8
    decreases e,
{
    if e == 0 {
        1u8
    } else {
        gf_product(gf_pow(a, (e - 1) as nat), a)
    }
}

/// The multiplicative inverse of a non-zero element, `a^254`; zero maps to zero.
pub fn gf_inv(a: u8) -> (r: u8)
    ensures
        r == gf_pow(a, 254),
{
    let mut r: u8 = 1;
    let mut e: u32 = 0;
    while e < 254
        invariant
            e <= 254,
            r == gf_pow(a, e as nat),
        decreases 254 - e,
    {
        r = gf_mul(r, a);
        e = e + 1;
    }
    r
}

/// `XOR_{s < n} data[s][j] * coefs[s]`: byte `j` of the linear combination of the
/// first `n` rows of `data` with the coefficients `coefs`.
pub open spec fn lincomb(coefs: Seq<u8>, data: Seq<Seq<u8>>, j: int, n: nat) -> u8
    decreases n,
{
    if n == 0 {
        0u8
    } else {
        lincomb(coefs, data, j, (n - 1) as nat) ^ gf_product(
            data[n - 1][j],
            coefs[n - 1],
        )
    }
}

/// The rows of a byte matrix as sequences.
pub open spec fn rows_view(m: Seq<Vec<u8>>) -> Seq<Seq<u8>> {
    m.map_values(|r: Vec<u8>| r@)
}

/// `m` has `rows` rows of `cols` bytes each.
pub open spec fn is_matrix(m: Seq<Seq<u8>>, rows: nat, cols: nat) -> bool {
    &&& m.len() == rows
    &&& forall|i: int| 0 <= i < rows ==> (#[trigger] m[i]).len() == cols
}

/// Row `i` of the product `a * b` of an `? x n` and an `n x c` matrix.
pub open spec fn mat_mul_row(a: Seq<Seq<u8>>, b: Seq<Seq<u8>>, i: int, n: nat, c: nat) -> Seq<u8> {
    Seq::new(c, |j: int| lincomb(a[i], b, j, n))
}

/// `inv * m` is the `n x n` identity.
pub open spec fn is_left_inverse(inv: Seq<Seq<u8>>, m: Seq<Seq<u8>>, n: nat) -> bool {
    &&& is_matrix(inv, n, n)
    &&& is_matrix(m, n, n)
    &&& forall|i: int, j: int|
        0 <= i < n && 0 <= j < n ==> #[trigger] lincomb(inv[i], m, j, n) == (if i == j {
            1u8
        } else {
            0u8
        })
}

/// Entry `(i, j)` of the `m x k` generator matrix: the identity on top, and below it
/// the Vandermonde rows `g^j` with `g = 2^(i - k)`.
pub open spec fn rs_coef(k: nat, i: nat, j: nat) -> u8 {
    if i < k {
        if i == j {
            1u8
        } else {
            0u8
        }
    } else {
        gf_pow(gf_pow(2, (i - k) as nat), j)
    }
}

/// The `m x k` generator matrix as rows.
pub open spec fn rs_matrix(k: nat, m: nat) -> Seq<Seq<u8>> {
    Seq::new(m, |i: int| Seq::new(k, |j: int| rs_coef(k, i as nat, j as nat)))
}

/// Builds the `m x k` Reed-Solomon generator matrix, one row per block of a stripe.
pub fn gf_gen_rs_matrix(k: usize, m: usize) -> (r: Vec<Vec<u8>>)
    requires
        k <= m,
    ensures
        rows_view(r@) == rs_matrix(k as nat, m as nat),
{
    let mut rows: Vec<Vec<u8>> = Vec::new();
    let mut i: usize = 0;
    while i < k
        invariant
            i <= k <= m,
            rows@.len() == i,
            forall|t: int| 0 <= t < i ==> (#[trigger] rows@[t])@ == rs_matrix(k as nat, m as nat)[t],
        decreases k - i,
    {
        let mut row: Vec<u8> = Vec::new();
        let mut j: usize = 0;
        while j < k
            invariant
                j <= k,
                i < k,
                row@.len() == j,
                forall|t: int| 0 <= t < j ==> row@[t] == rs_coef(k as nat, i as nat, t as nat),
            decreases k - j,
        {
            row.push(if i == j { 1u8 } else { 0u8 });
            j = j + 1;
        }
        assert(row@ =~= rs_matrix(k as nat, m as nat)[i as int]);
        rows.push(row);
        i = i + 1;
    }
    let mut g: u8 = 1;
    while i < m
        invariant
            k <= i <= m,
            rows@.len() == i,
            g == gf_pow(2, (i - k) as nat),
            forall|t: int| 0 <= t < i ==> (#[trigger] rows@[t])@ == rs_matrix(k as nat, m as nat)[t],
        decreases m - i,
    {
        let mut row: Vec<u8> = Vec::new();
        let mut c: u8 = 1;
        let mut j: usize = 0;
        while j < k
            invariant
                j <= k <= i < m,
                row@.len() == j,
                g == gf_pow(2, (i - k) as nat),
                c == gf_pow(g, j as nat),
                forall|t: int| 0 <= t < j ==> row@[t] == rs_coef(k as nat, i as nat, t as nat),
            decreases k - j,
        {
            row.push(c);
            c = gf_mul(c, g);
            j = j + 1;
        }
        assert(row@ =~= rs_matrix(k as nat, m as nat)[i as int]);
        rows.push(row);
        g = gf_mul(g, 2);
        i = i + 1;
    }
    assert(rows_view(rows@) =~= rs_matrix(k as nat, m as nat));
    rows
}

/// Byte `j` of the linear combination of the first `n` rows of `data` with `coefs`.
pub fn lincomb_at(coefs: &Vec<u8>, data: &Vec<Vec<u8>>, j: usize, n: usize) -> (r: u8)
    requires
        n <= coefs@.len(),
        n <= data@.len(),
        forall|s: int| 0 <= s < n ==> j < (#[trigger] data@[s])@.len(),
    ensures
        r == lincomb(coefs@, rows_view(data@), j as int, n as nat),
{
    let mut acc: u8 = 0;
    let mut s: usize = 0;
    while s < n
        invariant
            s <= n <= coefs@.len(),
            n <= data@.len(),
            forall|t: int| 0 <= t < n ==> j < (#[trigger] data@[t])@.len(),
            acc == lincomb(coefs@, rows_view(data@), j as int, s as nat),
        decreases n - s,
    {
        acc = acc ^ gf_mul(data[s][j], coefs[s]);
        s = s + 1;
    }
    acc
}

/// Row `i` of `a * b`, where `b` has `n` rows of `c` bytes.
pub fn mat_mul_row_exec(a: &Vec<Vec<u8>>, b: &Vec<Vec<u8>>, i: usize, n: usize, c: usize) -> (r: Vec<u8>)
    requires
        i < a@.len(),
        n <= a@[i as int]@.len(),
        is_matrix(rows_view(b@), n as nat, c as nat),
    ensures
        r@ == mat_mul_row(rows_view(a@), rows_view(b@), i as int, n as nat, c as nat),
{
    let mut row: Vec<u8> = Vec::new();
    let mut j: usize = 0;
    while j < c
        invariant
            j <= c,
            i < a@.len(),
            n <= a@[i as int]@.len(),
            is_matrix(rows_view(b@), n as nat, c as nat),
            row@.len() == j,
            forall|t: int|
                0 <= t < j ==> row@[t] == lincomb(rows_view(a@)[i as int], rows_view(b@), t, n as nat),
        decreases c - j,
    {
        proof {
            assert forall|s: int| 0 <= s < n implies j < (#[trigger] b@[s])@.len() by {
                assert(rows_view(b@)[s] == b@[s]@);
            }
            assert(rows_view(a@)[i as int] == a@[i as int]@);
        }
        let v = lincomb_at(&a[i], b, j, n);
        row.push(v);
        j = j + 1;
    }
    assert(row@ =~= mat_mul_row(rows_view(a@), rows_view(b@), i as int, n as nat, c as nat));
    row
}

/// `true` iff `inv * m` is the `n x n` identity.
pub fn check_left_inverse(inv: &Vec<Vec<u8>>, m: &Vec<Vec<u8>>, n: usize) -> (r: bool)
    requires
        is_matrix(rows_view(inv@), n as nat, n as nat),
        is_matrix(rows_view(m@), n as nat, n as nat),
    ensures
        r == is_left_inverse(rows_view(inv@), rows_view(m@), n as nat),
{
    let mut i: usize = 0;
    while i < n
        invariant
            i <= n,
            is_matrix(rows_view(inv@), n as nat, n as nat),
            is_matrix(rows_view(m@), n as nat, n as nat),
            forall|a: int, b: int|
                0 <= a < i && 0 <= b < n ==> #[trigger] lincomb(rows_view(inv@)[a], rows_view(m@), b, n as nat)
                    == (if a == b { 1u8 } else { 0u8 }),
        decreases n - i,
    {
        let row = mat_mul_row_exec(inv, m, i, n, n);
        let mut j: usize = 0;
        while j < n
            invariant
                i < n,
                j <= n,
                row@ == mat_mul_row(rows_view(inv@), rows_view(m@), i as int, n as nat, n as nat),
                forall|b: int|
                    0 <= b < j ==> #[trigger] lincomb(rows_view(inv@)[i as int], rows_view(m@), b, n as nat)
                        == (if i == b { 1u8 } else { 0u8 }),
            decreases n - j,
        {
            let want: u8 = if i == j { 1 } else { 0 };
            if row[j] != want {
                assert(!is_left_inverse(rows_view(inv@), rows_view(m@), n as nat)) by {
                    assert(lincomb(rows_view(inv@)[i as int], rows_view(m@), j as int, n as nat) != (
                    if i == j { 1u8 } else { 0u8 }));
                }
                return false;
            }
            j = j + 1;
        }
        i = i + 1;
    }
    true
}

/// The `n x n` identity.
pub open spec fn identity_matrix(n: nat) -> Seq<Seq<u8>> {
    Seq::new(n, |i: int| Seq::new(n, |j: int| if i == j { 1u8 } else { 0u8 }))
}

/// A fresh `n x n` identity matrix.
pub fn identity(n: usize) -> (r: Vec<Vec<u8>>)
    ensures
        is_matrix(rows_view(r@), n as nat, n as nat),
        rows_view(r@) == identity_matrix(n as nat),
{
    let mut rows: Vec<Vec<u8>> = Vec::new();
    let mut i: usize = 0;
    while i < n
        invariant
            i <= n,
            rows@.len() == i,
            forall|t: int| 0 <= t < i ==> (#[trigger] rows@[t])@ == identity_matrix(n as nat)[t],
        decreases n - i,
    {
        let mut row: Vec<u8> = Vec::new();
        let mut j: usize = 0;
        while j < n
            invariant
                j <= n,
                i < n,
                row@.len() == j,
                forall|t: int| 0 <= t < j ==> row@[t] == identity_matrix(n as nat)[i as int][t],
            decreases n - j,
        {
            row.push(if i == j { 1u8 } else { 0u8 });
            j = j + 1;
        }
        assert(row@ =~= identity_matrix(n as nat)[i as int]);
        rows.push(row);
        i = i + 1;
    }
    assert(rows_view(rows@) =~= identity_matrix(n as nat));
    rows
}

/// `dst[t] ^= f * src[t]` for every `t < n`.
fn row_add_scaled(dst: &Vec<u8>, src: &Vec<u8>, f: u8, n: usize) -> (r: Vec<u8>)
    requires
        dst@.len() == n,
        src@.len() == n,
    ensures
        r@.len() == n,
{
    let mut out: Vec<u8> = Vec::new();
    let mut t: usize = 0;
    while t < n
        invariant
            t <= n,
            dst@.len() == n,
            src@.len() == n,
            out@.len() == t,
        decreases n - t,
    {
        out.push(dst[t] ^ gf_mul(f, src[t]));
        t = t + 1;
    }
    out
}

/// `f * row`.
fn row_scale(row: &Vec<u8>, f: u8) -> (r: Vec<u8>)
    ensures
        r@.len() == row@.len(),
{
    let mut out: Vec<u8> = Vec::new();
    let mut t: usize = 0;
    while t < row.len()
        invariant
            t <= row@.len(),
            out@.len() == t,
        decreases row@.len() - t,
    {
        out.push(gf_mul(f, row[t]));
        t = t + 1;
    }
    out
}

/// `m` has `rows` rows of `cols` bytes each, stated on the vectors themselves.
pub open spec fn has_shape(m: Seq<Vec<u8>>, rows: nat, cols: nat) -> bool {
    &&& m.len() == rows
    &&& forall|i: int| 0 <= i < rows ==> (#[trigger] m[i])@.len() == cols
}

pub proof fn lemma_shape_matrix(m: Seq<Vec<u8>>, rows: nat, cols: nat)
    requires
        has_shape(m, rows, cols),
    ensures
        is_matrix(rows_view(m), rows, cols),
{
    assert forall|i: int| 0 <= i < rows implies (#[trigger] rows_view(m)[i]).len() == cols by {
        assert(rows_view(m)[i] == m[i]@);
    }
}

pub proof fn lemma_matrix_shape(m: Seq<Vec<u8>>, rows: nat, cols: nat)
    requires
        is_matrix(rows_view(m), rows, cols),
    ensures
        has_shape(m, rows, cols),
{
    assert forall|i: int| 0 <= i < rows implies (#[trigger] m[i])@.len() == cols by {
        assert(rows_view(m)[i] == m[i]@);
    }
}

/// Inverts an `n x n` matrix by Gauss-Jordan elimination.
///
/// Returns `Some(inv)` with `inv * mat` the identity, or `None` when no pivot can be
/// found (the matrix is singular).
pub fn gf_invert_matrix(mat: &Vec<Vec<u8>>, n: usize) -> (r: Option<Vec<Vec<u8>>>)
    requires
        is_matrix(rows_view(mat@), n as nat, n as nat),
    ensures
        r matches Some(inv) ==> is_left_inverse(rows_view(inv@), rows_view(mat@), n as nat),
{
    let mut a: Vec<Vec<u8>> = Vec::new();
    let mut t: usize = 0;
    proof {
        lemma_matrix_shape(mat@, n as nat, n as nat);
    }
    while t < n
        invariant
            t <= n,
            has_shape(mat@, n as nat, n as nat),
            has_shape(a@, t as nat, n as nat),
        decreases n - t,
    {
        let row = row_scale(&mat[t], 1);
        a.push(row);
        t = t + 1;
    }
    let mut out = identity(n);
    proof {
        lemma_matrix_shape(out@, n as nat, n as nat);
    }
    let mut i: usize = 0;
    while i < n
        invariant
            i <= n,
            has_shape(a@, n as nat, n as nat),
            has_shape(out@, n as nat, n as nat),
        decreases n - i,
    {
        if a[i][i] == 0 {
            let mut j: usize = i + 1;
            while j < n && a[j][i] == 0
                invariant
                    i < j <= n,
                    has_shape(a@, n as nat, n as nat),
                decreases n - j,
            {
                j = j + 1;
            }
            if j == n {
                return None;
            }
            let ai = a[i].clone();
            let aj = a[j].clone();
            a.set(i, aj);
            a.set(j, ai);
            let oi = out[i].clone();
            let oj = out[j].clone();
            out.set(i, oj);
            out.set(j, oi);
        }
        let f = gf_inv(a[i][i]);
        let ai = row_scale(&a[i], f);
        let oi = row_scale(&out[i], f);
        a.set(i, ai);
        out.set(i, oi);
        let mut j: usize = 0;
        while j < n
            invariant
                i < n,
                j <= n,
                has_shape(a@, n as nat, n as nat),
                has_shape(out@, n as nat, n as nat),
            decreases n - j,
        {
            if j != i {
                let f = a[j][i];
                let aj = row_add_scaled(&a[j], &a[i], f, n);
                let oj = row_add_scaled(&out[j], &out[i], f, n);
                a.set(j, aj);
                out.set(j, oj);
            }
            j = j + 1;
        }
        i = i + 1;
    }
    proof {
        lemma_shape_matrix(out@, n as nat, n as nat);
    }
    if check_left_inverse(&out, mat, n) {
        Some(out)
    } else {
        None
    }
}

} // verus!
