//! Fixed-width 256-bit and 512-bit unsigned values, held as little-endian
//! 64-bit limbs, with their arithmetic delegated to `primitive_types`.
use vstd::prelude::*;

verus! {

pub open spec fn limb_base() -> nat {
    0x1_0000_0000_0000_0000nat
}

/// A 256-bit unsigned integer, least significant limb first.
#[derive(Clone, Copy, Debug, PartialEq, Eq, Structural)]
pub struct U256 {
    pub w0: u64,
    pub w1: u64,
    pub w2: u64,
    pub w3: u64,
}

/// A 512-bit unsigned integer, least significant limb first; used for
/// double-width products.
#[derive(Clone, Copy, Debug)]
pub struct U512 {
    pub lo: U256,
    pub hi: U256,
}

impl View for U256 {
    type V = nat;

    open spec fn view(&self) -> nat {
        self.w0 as nat + limb_base() * (self.w1 as nat + limb_base() * (self.w2 as nat
            + limb_base() * self.w3 as nat))
    }
}

impl View for U512 {
    type V = nat;

    open spec fn view(&self) -> nat {
        self.lo@ + pow2_256() * self.hi@
    }
}

pub open spec fn pow2_256() -> nat {
    limb_base() * limb_base() * limb_base() * limb_base()
}

pub open spec fn pow2_128() -> nat {
    limb_base() * limb_base()
}

proof fn lemma_view_bounds(x: U256)
    ensures
        x@ < pow2_256(),
        x.w1 == 0 && x.w2 == 0 && x.w3 == 0 ==> x@ == x.w0,
        x.w2 == 0 && x.w3 == 0 ==> x@ == x.w0 + limb_base() * x.w1,
        x@ < limb_base() ==> x.w1 == 0 && x.w2 == 0 && x.w3 == 0,
        x@ < pow2_128() ==> x.w2 == 0 && x.w3 == 0,
{
    let b = limb_base() as int;
    let (a0, a1, a2, a3) = (x.w0 as int, x.w1 as int, x.w2 as int, x.w3 as int);
    assert(0 <= a0 < b && 0 <= a1 < b && 0 <= a2 < b && 0 <= a3 < b);
    assert(a2 + b * a3 < b * b) by (nonlinear_arith)
        requires 0 <= a2 < b, 0 <= a3 < b;
    assert(a1 + b * (a2 + b * a3) < b * b * b) by (nonlinear_arith)
        requires 0 <= a1 < b, 0 <= a2 + b * a3 < b * b;
    assert(a0 + b * (a1 + b * (a2 + b * a3)) < b * b * b * b) by (nonlinear_arith)
        requires 0 <= a0 < b, 0 <= a1 + b * (a2 + b * a3) < b * b * b;
    assert(a1 + b * (a2 + b * a3) >= b * (a2 + b * a3)) by (nonlinear_arith)
        requires 0 <= a1, 0 <= a2, 0 <= a3, b > 0;
    assert((a1 != 0 || a2 != 0 || a3 != 0) ==> b * (a1 + b * (a2 + b * a3)) >= b)
        by (nonlinear_arith)
        requires 0 <= a1, 0 <= a2, 0 <= a3, b > 0;
    assert((a2 != 0 || a3 != 0) ==> b * (a1 + b * (a2 + b * a3)) >= b * b)
        by (nonlinear_arith)
        requires 0 <= a1, 0 <= a2, 0 <= a3, b > 0;
}

impl U256 {
    /// The value `x`.
    pub fn from_u64(x: u64) -> (r: U256)
        ensures
            r@ == x,
    {
        let r = U256 { w0: x, w1: 0, w2: 0, w3: 0 };
        proof { lemma_view_bounds(r); }
        r
    }

    /// The value `x`.
    pub fn from_u128(x: u128) -> (r: U256)
        ensures
            r@ == x,
    {
        let lo = (x % 0x1_0000_0000_0000_0000u128) as u64;
        let hi = (x / 0x1_0000_0000_0000_0000u128) as u64;
        let r = U256 { w0: lo, w1: hi, w2: 0, w3: 0 };
        proof { lemma_view_bounds(r); }
        r
    }

    /// The value as a `u64`; it must fit.
    pub fn as_u64(&self) -> (r: u64)
        requires
            self@ < limb_base(),
        ensures
            r == self@,
    {
        proof { lemma_view_bounds(*self); }
        self.w0
    }

    /// The value as a `u128`; it must fit.
    pub fn as_u128(&self) -> (r: u128)
        requires
            self@ < pow2_128(),
        ensures
            r == self@,
    {
        proof { lemma_view_bounds(*self); }
        self.w0 as u128 + (self.w1 as u128) * 0x1_0000_0000_0000_0000u128
    }
}

/// Relies on `primitive_types::U256::div_mod`: quotient and remainder.
#[verifier::external_body]
pub(crate) fn div_mod(a: U256, m: U256) -> (r: (U256, U256))
    requires
        m@ > 0,
    ensures
        r.0@ == a@ / m@,
        r.1@ == a@ % m@,
{
    let x = primitive_types::U256([a.w0, a.w1, a.w2, a.w3]);
    let y = primitive_types::U256([m.w0, m.w1, m.w2, m.w3]);
    let (d, r) = x.div_mod(y);
    (
        U256 { w0: d.0[0], w1: d.0[1], w2: d.0[2], w3: d.0[3] },
        U256 { w0: r.0[0], w1: r.0[1], w2: r.0[2], w3: r.0[3] },
    )
}

/// Relies on `Rem` of `primitive_types::U256`: the remainder.
#[verifier::external_body]
pub(crate) fn rem(a: U256, m: U256) -> (r: U256)
    requires
        m@ > 0,
    ensures
        r@ == a@ % m@,
{
    let x = primitive_types::U256([a.w0, a.w1, a.w2, a.w3]);
    let y = primitive_types::U256([m.w0, m.w1, m.w2, m.w3]);
    let r = x % y;
    U256 { w0: r.0[0], w1: r.0[1], w2: r.0[2], w3: r.0[3] }
}

/// Relies on `Sub` of `primitive_types::U256`, which panics on underflow.
#[verifier::external_body]
pub(crate) fn wide_sub(a: U256, b: U256) -> (r: U256)
    requires
        a@ >= b@,
    ensures
        r@ == a@ - b@,
{
    let x = primitive_types::U256([a.w0, a.w1, a.w2, a.w3]);
    let y = primitive_types::U256([b.w0, b.w1, b.w2, b.w3]);
    let r = x - y;
    U256 { w0: r.0[0], w1: r.0[1], w2: r.0[2], w3: r.0[3] }
}

/// Relies on `PartialOrd` of `primitive_types::U256`: numeric order.
#[verifier::external_body]
pub(crate) fn ge(a: U256, b: U256) -> (r: bool)
    ensures
        r == (a@ >= b@),
{
    let x = primitive_types::U256([a.w0, a.w1, a.w2, a.w3]);
    let y = primitive_types::U256([b.w0, b.w1, b.w2, b.w3]);
    x >= y
}

/// Relies on `primitive_types::U256::full_mul`: the exact 512-bit product.
#[verifier::external_body]
pub(crate) fn full_mul(a: U256, b: U256) -> (r: U512)
    ensures
        r@ == a@ * b@,
{
    let x = primitive_types::U256([a.w0, a.w1, a.w2, a.w3]);
    let y = primitive_types::U256([b.w0, b.w1, b.w2, b.w3]);
    let w = x.full_mul(y).0;
    U512 {
        lo: U256 { w0: w[0], w1: w[1], w2: w[2], w3: w[3] },
        hi: U256 { w0: w[4], w1: w[5], w2: w[6], w3: w[7] },
    }
}

/// Relies on `Add` of `primitive_types::U512`, which panics on overflow.
#[verifier::external_body]
pub(crate) fn add_wide(a: U512, b: U256) -> (r: U512)
    requires
        a@ + b@ < pow2_256() * pow2_256(),
    ensures
        r@ == a@ + b@,
{
    let (l, h) = (a.lo, a.hi);
    let x = primitive_types::U512([l.w0, l.w1, l.w2, l.w3, h.w0, h.w1, h.w2, h.w3]);
    let y = primitive_types::U512::from(primitive_types::U256([b.w0, b.w1, b.w2, b.w3]));
    let w = (x + y).0;
    U512 {
        lo: U256 { w0: w[0], w1: w[1], w2: w[2], w3: w[3] },
        hi: U256 { w0: w[4], w1: w[5], w2: w[6], w3: w[7] },
    }
}

/// Relies on `Rem` of `primitive_types::U512`: the remainder, which is below
/// the 256-bit modulus.
#[verifier::external_body]
pub(crate) fn rem_wide(a: U512, m: U256) -> (r: U256)
    requires
        m@ > 0,
    ensures
        r@ == a@ % m@,
{
    let (l, h) = (a.lo, a.hi);
    let x = primitive_types::U512([l.w0, l.w1, l.w2, l.w3, h.w0, h.w1, h.w2, h.w3]);
    let y = primitive_types::U512::from(primitive_types::U256([m.w0, m.w1, m.w2, m.w3]));
    let w = (x % y).0;
    U256 { w0: w[0], w1: w[1], w2: w[2], w3: w[3] }
}

/// `(a * b + c) % m`, computed with a double-width intermediate.
pub fn mul_add_mod(a: U256, b: U256, c: U256, m: U256) -> (r: U256)
    requires
        m@ > 0,
    ensures
        r@ == (a@ * b@ + c@) % m@,
        r@ < m@,
{
    let p = full_mul(a, b);
    proof {
        lemma_view_bounds(a);
        lemma_view_bounds(b);
        lemma_view_bounds(c);
        let (x, y, z, t) = (a@ as int, b@ as int, c@ as int, pow2_256() as int);
        assert(x * y + z < t * t) by (nonlinear_arith)
            requires 0 <= x < t, 0 <= y < t, 0 <= z < t;
    }
    let s = add_wide(p, c);
    rem_wide(s, m)
}

/// `(a - b) mod q` for residues `a` and `b`.
pub fn sub_mod(a: U256, b: U256, q: U256) -> (r: U256)
    requires
        a@ < q@,
        b@ < q@,
    ensures
        r@ == (a@ - b@) % (q@ as int),
        r@ < q@,
{
    if ge(a, b) {
        let r = wide_sub(a, b);
        proof { vstd::arithmetic::div_mod::lemma_small_mod(r@, q@); }
        r
    } else {
        let d = wide_sub(b, a);
        let r = wide_sub(q, d);
        proof { vstd::arithmetic::div_mod::lemma_mod_add_multiples_vanish(a@ - b@, q@ as int); vstd::arithmetic::div_mod::lemma_small_mod(r@, q@); }
        r
    }
}

} // verus!
