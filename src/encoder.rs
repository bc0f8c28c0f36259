//! Base-`b` encoding of vectors of residues mod `p` into the coefficients of
//! a ring element, and the decoding back.
use vstd::prelude::*;
use vstd::arithmetic::div_mod::*;
use crate::wide::{U256, limb_base, div_mod, rem, mul_add_mod, sub_mod};

verus! {

/// `b` to the power `e`.
pub open spec fn power(b: nat, e: nat) -> nat
    decreases e,
{
    if e == 0 {
        1
    } else {
        b * power(b, (e - 1) as nat)
    }
}

proof fn lemma_power_positive(b: nat, e: nat)
    requires
        b > 0,
    ensures
        power(b, e) > 0,
    decreases e,
{
    if e > 0 {
        lemma_power_positive(b, (e - 1) as nat);
        assert(b * power(b, (e - 1) as nat) > 0) by (nonlinear_arith)
            requires b > 0, power(b, (e - 1) as nat) > 0;
    }
}

/// A ring element in coefficient form: `n` coefficients, each meant to lie
/// in `[0, q)`. Moving it to and from evaluation (NTT) form is the ring
/// engine's work and happens outside this crate.
#[derive(Clone, Debug)]
pub struct Poly {
    pub coeffs: Vec<u64>,
}

/// Why an encode or decode call was refused.
#[derive(Clone, Copy, Debug, PartialEq, Eq, Structural)]
pub enum EncodeError {
    /// An input or output buffer does not have the length the call needs.
    InvalidLength,
}

/// Maps vectors of at most `m` residues mod `p` to ring elements of degree
/// `n = kap * m`: slot `i` holds the base-`b` digits of its residue at the
/// coefficients `i, i + m, ..., i + (kap - 1) * m`.
pub struct Encoder {
    pub n: usize,
    pub m: usize,
    pub kap: usize,
    pub b: u64,
    pub p: U256,
    pub q: u64,
}

impl Encoder {
    /// The parameters fit together: `n = kap * m`, a base of at least 2, a
    /// positive plaintext and ring modulus, and a top digit that fits a
    /// 64-bit coefficient.
    pub open spec fn wf(&self) -> bool {
        &&& self.m >= 1
        &&& self.kap >= 1
        &&& self.n == self.kap * self.m
        &&& self.b >= 2
        &&& self.p@ > 0
        &&& self.p@ <= power(self.b as nat, (self.kap - 1) as nat) * limb_base()
        &&& self.q > 0
    }

    /// Digit `j` of `a`: the `j`-th base-`b` digit below the top one, and the
    /// uncapped rest at the top position.
    pub open spec fn digit(&self, a: nat, j: int) -> nat {
        if j < self.kap - 1 {
            (a / power(self.b as nat, j as nat)) % (self.b as nat)
        } else {
            a / power(self.b as nat, j as nat)
        }
    }

    /// Coefficient `k` of the encoding of `v`.
    pub open spec fn coeff_spec(&self, v: Seq<U256>, k: int) -> nat {
        let i = k % (self.m as int);
        if i < v.len() {
            self.digit(v[i]@ % self.p@, k / (self.m as int))
        } else {
            0
        }
    }

    /// The `n` coefficients of the encoding of `v`.
    pub open spec fn encode_spec(&self, v: Seq<U256>) -> Seq<u64> {
        Seq::new(self.n as nat, |k: int| self.coeff_spec(v, k) as u64)
    }

    /// An encoder for the given parameters.
    pub fn new(n: usize, m: usize, kap: usize, b: u64, p: U256, q: u64) -> (r: Encoder)
        requires
            (Encoder { n, m, kap, b, p, q }).wf(),
        ensures
            r == (Encoder { n, m, kap, b, p, q }),
            r.wf(),
    {
        Encoder { n, m, kap, b, p, q }
    }

    /// The coefficients that encode `v[start .. start + len]`.
    fn encode_range(&self, v: &[U256], start: usize, len: usize) -> (r: Vec<u64>)
        requires
            self.wf(),
            start + len <= v@.len(),
            start + len <= usize::MAX,
            len <= self.m,
        ensures
            r@ == self.encode_spec(v@.subrange(start as int, start + len)),
    {
        let ghost w = v@.subrange(start as int, start + len);
        let ghost mi = self.m as int;
        let ghost bn = self.b as nat;
        let mut coeffs: Vec<u64> = Vec::new();
        let mut k: usize = 0;
        while k < self.n
            invariant
                k <= self.n,
                coeffs@.len() == k,
                forall|t: int| 0 <= t < k ==> coeffs@[t] == 0,
            decreases self.n - k,
        {
            coeffs.push(0);
            k = k + 1;
        }
        let bw = U256::from_u64(self.b);
        let mut i: usize = 0;
        while i < len
            invariant
                self.wf(),
                start + len <= v@.len(),
                start + len <= usize::MAX,
                len <= self.m,
                w == v@.subrange(start as int, start + len),
                mi == self.m,
                bn == self.b,
                bw@ == self.b,
                i <= len,
                coeffs@.len() == self.n,
                forall|t: int|
                    0 <= t < self.n ==> coeffs@[t] == if t % mi < i {
                        self.coeff_spec(w, t) as u64
                    } else {
                        0u64
                    },
            decreases len - i,
        {
            let ghost a = v@[start + i]@ % self.p@;
            let mut amod = rem(v[start + i], self.p);
            let mut j: usize = 0;
            proof {
                assert(power(bn, 0) == 1);
                assert(amod@ / 1 == amod@);
                lemma_power_positive(bn, (self.kap - 1) as nat);
                assert(self.kap * self.m >= (self.kap - 1) * self.m + self.m) by (nonlinear_arith)
                    requires self.kap >= 1;
            }
            while j < self.kap - 1
                invariant
                    self.wf(),
                    mi == self.m,
                    bn == self.b,
                    bw@ == self.b,
                    i < len <= self.m,
                    start + len <= v@.len(),
                    w == v@.subrange(start as int, start + len),
                    w.len() == len,
                    w[i as int]@ % self.p@ == a,
                    j <= self.kap - 1,
                    amod@ == a / power(bn, j as nat),
                    coeffs@.len() == self.n,
                    forall|t: int|
                        0 <= t < self.n ==> coeffs@[t] == if t % mi < i || (t % mi == i && t / mi
                            < j) {
                            self.coeff_spec(w, t) as u64
                        } else {
                            0u64
                        },
                decreases self.kap - 1 - j,
            {
                let (d, r) = div_mod(amod, bw);
                proof {
                    lemma_power_positive(bn, j as nat);
                    lemma_div_denominator(a as int, power(bn, j as nat) as int, bn as int);
                    assert(power(bn, (j + 1) as nat) == bn * power(bn, j as nat));
                    assert(power(bn, j as nat) * bn == bn * power(bn, j as nat)) by (nonlinear_arith);
                    lemma_mod_pos_bound(amod@ as int, bn as int);
                    assert(i + j * mi < self.n) by (nonlinear_arith)
                        requires i < mi, j < self.kap - 1, self.n == self.kap * mi;
                }
                let pos = i + j * self.m;
                assert(pos as int == i + j * mi);
                let ghost prev = coeffs@;
                coeffs.set(pos, r.as_u64());
                proof {
                    lemma_fundamental_div_mod_converse(pos as int, mi, j as int, i as int);
                    assert forall|t: int| 0 <= t < self.n implies coeffs@[t] == if t % mi < i || (t
                        % mi == i && t / mi < j + 1) {
                        self.coeff_spec(w, t) as u64
                    } else {
                        0u64
                    } by {
                        if t != pos {
                            assert(coeffs@[t] == prev[t]);
                            if t % mi == i && t / mi == j {
                                lemma_fundamental_div_mod(t, mi);
                                assert(mi * j == j * mi) by (nonlinear_arith);
                                assert(t == pos);
                            }
                        } else {
                            assert(t % mi == i && t / mi == j);
                            assert(self.digit(a, j as int) == r@);
                        }
                    }
                }
                amod = d;
                j = j + 1;
            }
            proof {
                lemma_power_positive(bn, (self.kap - 1) as nat);
                lemma_multiply_divide_lt(a as int, power(bn, (self.kap - 1) as nat) as int,
                    limb_base() as int);
                assert(i + (self.kap - 1) * mi < self.n) by (nonlinear_arith)
                    requires i < mi, self.kap >= 1, self.n == self.kap * mi;
            }
            let pos = i + self.m * (self.kap - 1);
            assert(pos == i + (self.kap - 1) * mi) by (nonlinear_arith)
                requires pos == i + mi * (self.kap - 1);
            let ghost prev = coeffs@;
            coeffs.set(pos, amod.as_u64());
            proof {
                lemma_fundamental_div_mod_converse(pos as int, mi, (self.kap - 1) as int, i as int);
                assert forall|t: int| 0 <= t < self.n implies coeffs@[t] == if t % mi < i + 1 {
                    self.coeff_spec(w, t) as u64
                } else {
                    0u64
                } by {
                    if t != pos {
                        assert(coeffs@[t] == prev[t]);
                        lemma_fundamental_div_mod(t, mi);
                        if t % mi == i {
                            assert(t / mi < self.kap) by (nonlinear_arith)
                                requires t < self.n, self.n == self.kap * mi, t == mi * (t / mi) + t % mi, t % mi >= 0, mi > 0;
                        }
                    }
                }
            }
            i = i + 1;
        }
        proof {
            assert forall|t: int| 0 <= t < self.n implies coeffs@[t] == self.encode_spec(w)[t] by {
                if t % mi >= i {
                    lemma_mod_pos_bound(t, mi);
                }
            }
        }
        assert(coeffs@ =~= self.encode_spec(w));
        coeffs
    }

    /// Writes the encoding of `v` into `pout`; `v` may hold at most `m`
    /// values, and slots past its end are zero.
    pub fn encode_assign(&self, v: &[U256], pout: &mut Poly) -> (r: Result<(), EncodeError>)
        requires
            self.wf(),
        ensures
            r is Ok <==> v@.len() <= self.m,
            r is Ok ==> final(pout).coeffs@ == self.encode_spec(v@),
            r is Err ==> final(pout).coeffs@ == old(pout).coeffs@,
    {
        if v.len() > self.m {
            return Err(EncodeError::InvalidLength);
        }
        let coeffs = self.encode_range(v, 0, v.len());
        assert(v@.subrange(0, v@.len() as int) =~= v@);
        pout.coeffs = coeffs;
        Ok(())
    }

    /// The encoding of `v`, which may hold at most `m` values.
    pub fn encode(&self, v: &[U256]) -> (r: Result<Poly, EncodeError>)
        requires
            self.wf(),
        ensures
            r is Ok <==> v@.len() <= self.m,
            r is Ok ==> r->Ok_0.coeffs@ == self.encode_spec(v@),
    {
        let mut pout = Poly { coeffs: Vec::new() };
        match self.encode_assign(v, &mut pout) {
            Ok(()) => Ok(pout),
            Err(e) => Err(e),
        }
    }

    /// Encodes `v` slot block by slot block: block `c` is
    /// `v[c * m .. (c + 1) * m]` and goes to `pout[c]`. `v` must hold
    /// exactly `m` values per element of `pout`.
    pub fn encode_chunk_assign(&self, v: &[U256], pout: &mut Vec<Poly>) -> (r: Result<
        (),
        EncodeError,
    >)
        requires
            self.wf(),
        ensures
            r is Ok <==> v@.len() == old(pout)@.len() * self.m,
            final(pout)@.len() == old(pout)@.len(),
            r is Ok ==> forall|c: int|
                0 <= c < old(pout)@.len() ==> #[trigger] final(pout)@[c].coeffs@ == self.encode_spec(
                    v@.subrange(c * self.m, (c + 1) * self.m),
                ),
            r is Err ==> final(pout)@ == old(pout)@,
    {
        let count = pout.len();
        let vlen = v.len();
        match count.checked_mul(self.m) {
            None => {
                assert(vlen != count * self.m);
                return Err(EncodeError::InvalidLength);
            },
            Some(total) => {
                if v.len() != total {
                    return Err(EncodeError::InvalidLength);
                }
            },
        }
        let ghost mi = self.m as int;
        let mut c: usize = 0;
        while c < count
            invariant
                self.wf(),
                mi == self.m,
                count == pout@.len(),
                v@.len() == count * mi,
                count * mi <= usize::MAX,
                c <= count,
                forall|t: int|
                    0 <= t < c ==> #[trigger] pout@[t].coeffs@ == self.encode_spec(
                        v@.subrange(t * mi, (t + 1) * mi),
                    ),
            decreases count - c,
        {
            proof {
                assert((c + 1) * mi <= count * mi) by (nonlinear_arith)
                    requires c < count, mi >= 1;
                assert((c + 1) * mi == c * mi + mi) by (nonlinear_arith);
            }
            let start = c * self.m;
            let coeffs = self.encode_range(v, start, self.m);
            pout.set(c, Poly { coeffs });
            c = c + 1;
        }
        Ok(())
    }

    /// Coefficient `c` read in the balanced range `(-q/2, q/2]`.
    pub open spec fn balanced(&self, c: u64) -> int {
        if 2 * c > self.q {
            c - self.q
        } else {
            c as int
        }
    }

    /// The mixed-radix value of slot `i` from digit `k` up:
    /// `sum over j in k .. kap of balanced(cs[i + j * m]) * b^(j - k)`.
    pub open spec fn slot_value(&self, cs: Seq<u64>, i: int, k: int) -> int
        decreases self.kap - k,
    {
        if k >= self.kap || k < 0 {
            0
        } else {
            self.balanced(cs[i + k * self.m]) + self.b * self.slot_value(cs, i, k + 1)
        }
    }

    /// Slot `i` of the decoding of the coefficients `cs`.
    pub open spec fn decode_spec(&self, cs: Seq<u64>, i: int) -> nat {
        (self.slot_value(cs, i, 0) % (self.p@ as int)) as nat
    }

    /// The coefficients form a ring element: `n` of them, each below `q`.
    pub open spec fn valid_coeffs(&self, cs: Seq<u64>) -> bool {
        cs.len() == self.n && forall|k: int| 0 <= k < cs.len() ==> cs[k] < self.q
    }

    /// `balanced(c) mod p`.
    fn balanced_residue(&self, c: u64) -> (r: U256)
        requires
            self.wf(),
            c < self.q,
        ensures
            r@ == self.balanced(c) % (self.p@ as int),
            r@ < self.p@,
    {
        if (c as u128) * 2 > self.q as u128 {
            let d = rem(U256::from_u64(self.q - c), self.p);
            let zero = U256::from_u64(0);
            proof {
                lemma_mod_pos_bound((self.q - c) as int, self.p@ as int);
                lemma_sub_mod_noop(0, (self.q - c) as int, self.p@ as int);
                lemma_small_mod(0, self.p@);
            }
            sub_mod(zero, d, self.p)
        } else {
            let r = rem(U256::from_u64(c), self.p);
            proof { lemma_mod_pos_bound(c as int, self.p@ as int); }
            r
        }
    }

    /// Slot `i` of the decoding of `cs`, reduced at every step of the
    /// recombination.
    fn decode_slot(&self, cs: &Vec<u64>, i: usize) -> (r: U256)
        requires
            self.wf(),
            self.valid_coeffs(cs@),
            i < self.m,
        ensures
            r@ == self.decode_spec(cs@, i as int),
    {
        let ghost pi = self.p@ as int;
        let ghost mi = self.m as int;
        let bw = U256::from_u64(self.b);
        let mut acc = U256::from_u64(0);
        proof { lemma_small_mod(0, self.p@); }
        let mut j: usize = self.kap;
        while j > 0
            invariant
                self.wf(),
                self.valid_coeffs(cs@),
                pi == self.p@,
                mi == self.m,
                bw@ == self.b,
                i < self.m,
                j <= self.kap,
                acc@ == self.slot_value(cs@, i as int, j as int) % pi,
                acc@ < pi,
            decreases j,
        {
            j = j - 1;
            proof {
                assert(i + j * mi < self.n) by (nonlinear_arith)
                    requires i < mi, j < self.kap, self.n == self.kap * mi;
            }
            let c = cs[i + j * self.m];
            let cm = self.balanced_residue(c);
            let ghost s = self.slot_value(cs@, i as int, j + 1);
            let ghost bal = self.balanced(c);
            let ghost prev = acc@ as int;
            acc = mul_add_mod(acc, bw, cm, self.p);
            proof {
                let bi = self.b as int;
                assert(self.slot_value(cs@, i as int, j as int) == bal + bi * s);
                lemma_mul_mod_noop_left(s, bi, pi);
                lemma_add_mod_noop(prev * bi, cm@ as int, pi);
                lemma_add_mod_noop(s * bi, bal, pi);
                lemma_mod_twice(bal, pi);
                assert(bi * s == s * bi) by (nonlinear_arith);
                assert(prev * bi == bi * prev) by (nonlinear_arith);
            }
        }
        acc
    }

    /// Writes the `m` decoded slots of `p` into `vout`.
    pub fn decode_assign(&self, p: &Poly, vout: &mut Vec<U256>)
        requires
            self.wf(),
            self.valid_coeffs(p.coeffs@),
            old(vout)@.len() == self.m,
        ensures
            final(vout)@.len() == self.m,
            forall|i: int| 0 <= i < self.m ==> #[trigger] final(vout)@[i]@ == self.decode_spec(p.coeffs@, i),
    {
        let mut i: usize = 0;
        while i < self.m
            invariant
                self.wf(),
                self.valid_coeffs(p.coeffs@),
                vout@.len() == self.m,
                i <= self.m,
                forall|t: int| 0 <= t < i ==> #[trigger] vout@[t]@ == self.decode_spec(p.coeffs@, t),
            decreases self.m - i,
        {
            let r = self.decode_slot(&p.coeffs, i);
            vout.set(i, r);
            i = i + 1;
        }
    }

    /// The `m` decoded slots of `p`.
    pub fn decode(&self, p: &Poly) -> (r: Vec<U256>)
        requires
            self.wf(),
            self.valid_coeffs(p.coeffs@),
        ensures
            r@.len() == self.m,
            forall|i: int| 0 <= i < self.m ==> #[trigger] r@[i]@ == self.decode_spec(p.coeffs@, i),
    {
        let mut vout = crate::matrix::zeros(self.m);
        self.decode_assign(p, &mut vout);
        vout
    }

    /// Decodes each element of `p` into its block of `m` slots of `vout`:
    /// `p[c]` goes to `vout[c * m .. (c + 1) * m]`. `vout` must hold exactly
    /// `m` slots per element of `p`.
    pub fn decode_chunk_assign(&self, p: &[Poly], vout: &mut Vec<U256>) -> (r: Result<
        (),
        EncodeError,
    >)
        requires
            self.wf(),
            forall|c: int| 0 <= c < p@.len() ==> self.valid_coeffs(#[trigger] p@[c].coeffs@),
        ensures
            r is Ok <==> old(vout)@.len() == p@.len() * self.m,
            final(vout)@.len() == old(vout)@.len(),
            r is Ok ==> forall|c: int, i: int|
                0 <= c < p@.len() && 0 <= i < self.m ==> #[trigger] final(vout)@[c * self.m + i]@
                    == self.decode_spec(p@[c].coeffs@, i),
            r is Err ==> final(vout)@ == old(vout)@,
    {
        let count = p.len();
        let vlen = vout.len();
        match count.checked_mul(self.m) {
            None => {
                assert(vlen != count * self.m);
                return Err(EncodeError::InvalidLength);
            },
            Some(total) => {
                if vout.len() != total {
                    return Err(EncodeError::InvalidLength);
                }
            },
        }
        let ghost mi = self.m as int;
        let mut c: usize = 0;
        while c < count
            invariant
                self.wf(),
                mi == self.m,
                count == p@.len(),
                forall|t: int| 0 <= t < p@.len() ==> self.valid_coeffs(#[trigger] p@[t].coeffs@),
                vout@.len() == count * mi,
                count * mi <= usize::MAX,
                c <= count,
                forall|t: int, i: int|
                    0 <= t < c && 0 <= i < mi ==> #[trigger] vout@[t * mi + i]@ == self.decode_spec(
                        p@[t].coeffs@,
                        i,
                    ),
            decreases count - c,
        {
            proof {
                assert((c + 1) * mi <= count * mi) by (nonlinear_arith)
                    requires c < count, mi >= 1;
                assert((c + 1) * mi == c * mi + mi) by (nonlinear_arith);
            }
            let start = c * self.m;
            let mut i: usize = 0;
            while i < self.m
                invariant
                    self.wf(),
                    mi == self.m,
                    count == p@.len(),
                    c < count,
                    start == c * mi,
                    start + mi <= count * mi,
                    count * mi <= usize::MAX,
                    self.valid_coeffs(p@[c as int].coeffs@),
                    vout@.len() == count * mi,
                    i <= self.m,
                    forall|t: int, k: int|
                        0 <= t < c && 0 <= k < mi ==> #[trigger] vout@[t * mi + k]@
                            == self.decode_spec(p@[t].coeffs@, k),
                    forall|k: int|
                        0 <= k < i ==> #[trigger] vout@[start + k]@ == self.decode_spec(
                            p@[c as int].coeffs@,
                            k,
                        ),
                decreases self.m - i,
            {
                let r = self.decode_slot(&p[c].coeffs, i);
                let ghost prev = vout@;
                vout.set(start + i, r);
                proof {
                    assert forall|t: int, k: int| 0 <= t < c && 0 <= k < mi implies #[trigger] vout@[t
                        * mi + k]@ == self.decode_spec(p@[t].coeffs@, k) by {
                        assert(t * mi + k < c * mi) by (nonlinear_arith)
                            requires t < c, k < mi, 0 <= k;
                        assert(vout@[t * mi + k] == prev[t * mi + k]);
                    }
                }
                i = i + 1;
            }
            proof {
                assert forall|t: int, k: int| 0 <= t < c + 1 && 0 <= k < mi implies #[trigger] vout@[t
                    * mi + k]@ == self.decode_spec(p@[t].coeffs@, k) by {
                    if t == c {
                        assert(vout@[start + k]@ == self.decode_spec(p@[c as int].coeffs@, k));
                    }
                }
            }
            c = c + 1;
        }
        Ok(())
    }

    /// Every coefficient that encoding can produce reads as itself in the
    /// balanced range: the low digits (below `b`) and the largest top digit
    /// are at most `q / 2`.
    pub open spec fn digits_balanced(&self) -> bool {
        &&& self.kap > 1 ==> 2 * (self.b - 1) <= self.q
        &&& 2 * (((self.p@ - 1) as nat) / power(self.b as nat, (self.kap - 1) as nat)) <= self.q
    }
}

/// A digit of a residue below `p` is at most `q / 2` on balanced parameters.
proof fn lemma_digit_bound(e: Encoder, a: nat, j: int)
    requires
        e.wf(),
        e.digits_balanced(),
        a < e.p@,
        0 <= j < e.kap,
    ensures
        2 * e.digit(a, j) <= e.q,
{
    let bn = e.b as nat;
    lemma_power_positive(bn, j as nat);
    if j < e.kap - 1 {
        lemma_mod_pos_bound((a / power(bn, j as nat)) as int, bn as int);
    } else {
        lemma_div_is_ordered(a as int, (e.p@ - 1) as int, power(bn, j as nat) as int);
    }
}

/// Reading the digits of `a` back from digit `k` up gives `a / b^k`.
proof fn lemma_slot_digits(e: Encoder, v: Seq<U256>, i: int, k: int)
    requires
        e.wf(),
        e.digits_balanced(),
        v.len() == e.m,
        0 <= i < e.m,
        v[i]@ < e.p@,
        0 <= k < e.kap,
    ensures
        e.slot_value(e.encode_spec(v), i, k) == v[i]@ / power(e.b as nat, k as nat),
    decreases e.kap - k,
{
    let a = v[i]@;
    let bn = e.b as nat;
    let mi = e.m as int;
    let cs = e.encode_spec(v);
    let t = i + k * mi;
    assert(t < e.n) by (nonlinear_arith)
        requires t == i + k * mi, i < mi, k < e.kap, e.n == e.kap * mi, 0 <= i, 0 <= k;
    lemma_fundamental_div_mod_converse(t, mi, k, i);
    lemma_small_mod(a, e.p@);
    lemma_digit_bound(e, a, k);
    assert(cs[t] == e.digit(a, k));
    lemma_power_positive(bn, k as nat);
    if k == e.kap - 1 {
        assert(e.slot_value(cs, i, k + 1) == 0);
    } else {
        lemma_slot_digits(e, v, i, k + 1);
        let x = a / power(bn, k as nat);
        lemma_div_denominator(a as int, power(bn, k as nat) as int, bn as int);
        assert(power(bn, (k + 1) as nat) == bn * power(bn, k as nat));
        assert(power(bn, k as nat) * bn == bn * power(bn, k as nat)) by (nonlinear_arith);
        lemma_fundamental_div_mod(x as int, bn as int);
    }
}

/// Decoding the encoding of `m` residues below `p` gives them back, on
/// parameters whose digits read as themselves in the balanced range.
pub proof fn lemma_round_trip(e: Encoder, v: Seq<U256>)
    requires
        e.wf(),
        e.digits_balanced(),
        v.len() == e.m,
        forall|i: int| 0 <= i < v.len() ==> v[i]@ < e.p@,
    ensures
        e.valid_coeffs(e.encode_spec(v)),
        forall|i: int| 0 <= i < e.m ==> e.decode_spec(e.encode_spec(v), i) == v[i]@,
{
    let cs = e.encode_spec(v);
    let mi = e.m as int;
    assert forall|t: int| 0 <= t < cs.len() implies cs[t] < e.q by {
        lemma_fundamental_div_mod(t, mi);
        lemma_mod_pos_bound(t, mi);
        assert(t / mi < e.kap) by (nonlinear_arith)
            requires t < e.n, e.n == e.kap * mi, t == mi * (t / mi) + t % mi, t % mi >= 0, mi > 0;
        lemma_div_pos_is_pos(t, mi);
        let i = t % mi;
        lemma_small_mod(v[i]@, e.p@);
        lemma_digit_bound(e, v[i]@, t / mi);
    }
    assert forall|i: int| 0 <= i < e.m implies e.decode_spec(cs, i) == v[i]@ by {
        lemma_slot_digits(e, v, i, 0);
        assert(power(e.b as nat, 0) == 1);
        assert(v[i]@ / 1 == v[i]@);
        lemma_small_mod(v[i]@, e.p@);
    }
}

} // verus!
