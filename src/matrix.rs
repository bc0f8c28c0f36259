//! Square sparse matrices in compressed-row (CSR) form over residues mod `q`.
use vstd::prelude::*;
use vstd::arithmetic::div_mod::*;
use crate::wide::{U256, ge, mul_add_mod, sub_mod};

verus! {

/// An `n x n` matrix mod `q`: row `i` holds the entries
/// `row_ptr[i] .. row_ptr[i + 1]` of `col_idx` and `values`.
pub struct SparseMatrix {
    pub n: usize,
    pub q: U256,
    pub row_ptr: Vec<usize>,
    pub col_idx: Vec<usize>,
    pub values: Vec<U256>,
}

/// A vector of `n` zeros.
pub fn zeros(n: usize) -> (r: Vec<U256>)
    ensures
        r@.len() == n,
        forall|i: int| 0 <= i < n ==> r@[i]@ == 0,
{
    let mut r: Vec<U256> = Vec::new();
    let mut k: usize = 0;
    while k < n
        invariant
            k <= n,
            r@.len() == k,
            forall|i: int| 0 <= i < k ==> r@[i]@ == 0,
        decreases n - k,
    {
        r.push(U256::from_u64(0));
        k = k + 1;
    }
    r
}

impl SparseMatrix {
    /// The CSR arrays are consistent: `row_ptr` has `n + 1` non-decreasing
    /// entries from `0` to the number of stored entries, every column index is
    /// below `n`, and the modulus is positive.
    pub open spec fn wf(&self) -> bool {
        &&& self.row_ptr@.len() == self.n + 1
        &&& self.row_ptr@[0] == 0
        &&& forall|i: int, j: int|
            #![trigger self.row_ptr@[i], self.row_ptr@[j]]
            0 <= i <= j <= self.n ==> self.row_ptr@[i] <= self.row_ptr@[j]
        &&& self.row_ptr@[self.n as int] == self.col_idx@.len()
        &&& self.values@.len() == self.col_idx@.len()
        &&& forall|e: int| 0 <= e < self.col_idx@.len() ==> self.col_idx@[e] < self.n
        &&& self.q@ > 0
    }

    /// `sum of values[e] * v[i]` over stored entries `e` in `start .. end`
    /// whose column is `c`.
    pub open spec fn col_dot(&self, v: Seq<U256>, c: int, i: int, start: int, end: int) -> int
        decreases end - start,
    {
        if end <= start {
            0
        } else {
            self.col_dot(v, c, i, start, end - 1) + if self.col_idx@[end - 1] == c {
                self.values@[end - 1]@ * v[i]@
            } else {
                0
            }
        }
    }

    /// Entry `c` of the exact product `M^T * v`, counting rows below `rows` only.
    pub open spec fn col_sum(&self, v: Seq<U256>, c: int, rows: int) -> int
        decreases rows,
    {
        if rows <= 0 {
            0
        } else {
            self.col_sum(v, c, rows - 1) + self.col_dot(
                v,
                c,
                rows - 1,
                self.rp(rows - 1),
                self.rp(rows),
            )
        }
    }

    /// Entry `c` of the exact (unreduced) product `M^T * v`.
    pub open spec fn transpose_sum(&self, v: Seq<U256>, c: int) -> int {
        self.col_sum(v, c, self.n as int)
    }

    /// `(M^T * v)[c] mod q`.
    pub open spec fn transpose_mul_vec_spec(&self, v: Seq<U256>, c: int) -> int {
        self.transpose_sum(v, c) % (self.q@ as int)
    }

    /// Value of the last stored entry of row `i` in column `c` among the
    /// entries `start .. end`, or 0 where there is none.
    pub open spec fn last_entry(&self, c: int, start: int, end: int) -> nat
        decreases end - start,
    {
        if end <= start {
            0
        } else if self.col_idx@[end - 1] == c {
            self.values@[end - 1]@
        } else {
            self.last_entry(c, start, end - 1)
        }
    }

    /// Entry `(i, c)` of the dense form: a later entry of a row overwrites an
    /// earlier one in the same column.
    pub open spec fn dense_spec(&self, i: int, c: int) -> nat {
        self.last_entry(c, self.rp(i), self.rp(i + 1))
    }

    /// Row start of row `i`.
    pub open spec fn rp(&self, i: int) -> int {
        self.row_ptr@[i] as int
    }

    /// `sum of values[e] * v[col_idx[e]]` over stored entries `e` in `start .. end`.
    pub open spec fn entry_dot(&self, v: Seq<U256>, start: int, end: int) -> int
        decreases end - start,
    {
        if end <= start {
            0
        } else {
            self.entry_dot(v, start, end - 1) + self.values@[end - 1]@ * v[self.col_idx@[end
                - 1] as int]@
        }
    }

    /// Entry `i` of the exact (unreduced) product `M * v`.
    pub open spec fn row_sum(&self, v: Seq<U256>, i: int) -> int {
        self.entry_dot(v, self.rp(i), self.rp(i + 1))
    }

    /// `(M * v)[i] mod q`.
    pub open spec fn mul_vec_spec(&self, v: Seq<U256>, i: int) -> int {
        self.row_sum(v, i) % (self.q@ as int)
    }

    /// `(a + M[i] * v) mod q` for a residue `a`.
    fn row_product(&self, v: &[U256], i: usize, a: U256) -> (r: U256)
        requires
            self.wf(),
            v@.len() == self.n,
            i < self.n,
            a@ < self.q@,
        ensures
            r@ == (a@ + self.row_sum(v@, i as int)) % (self.q@ as int),
            r@ < self.q@,
    {
        let start = self.row_ptr[i];
        let end = self.row_ptr[i + 1];
        assert(self.row_ptr@[i as int] <= self.row_ptr@[i + 1]);
        assert(self.row_ptr@[i + 1] <= self.row_ptr@[self.n as int]);
        let mut acc = a;
        proof { lemma_small_mod(a@, self.q@); }
        let mut j = start;
        while j < end
            invariant
                self.wf(),
                v@.len() == self.n,
                start <= j <= end <= self.col_idx@.len(),
                start == self.rp(i as int),
                a@ < self.q@,
                acc@ == (a@ + self.entry_dot(v@, start as int, j as int)) % (self.q@ as int),
            decreases end - j,
        {
            let x = v[self.col_idx[j]];
            let prev = acc;
            acc = mul_add_mod(self.values[j], x, acc, self.q);
            proof {
                let t = self.values@[j as int]@ * x@;
                lemma_add_mod_noop_right(t as int, a@ + self.entry_dot(v@, start as int, j as int),
                    self.q@ as int);
            }
            j = j + 1;
        }
        acc
    }

    /// Whether the CSR arrays are consistent (see `wf`); every multiply
    /// needs them so.
    pub fn is_well_formed(&self) -> (r: bool)
        ensures
            r == self.wf(),
    {
        let n = self.n;
        let len = self.row_ptr.len();
        if n == usize::MAX || len != n + 1 {
            return false;
        }
        if self.row_ptr[0] != 0 || self.row_ptr[n] != self.col_idx.len()
            || self.values.len() != self.col_idx.len() || !ge(self.q, U256::from_u64(1)) {
            return false;
        }
        let mut i: usize = 0;
        while i < n
            invariant
                i <= n,
                n == self.n,
                self.row_ptr@.len() == n + 1,
                forall|a: int, b: int|
                    #![trigger self.row_ptr@[a], self.row_ptr@[b]]
                    0 <= a <= b <= i ==> self.row_ptr@[a] <= self.row_ptr@[b],
            decreases n - i,
        {
            if self.row_ptr[i] > self.row_ptr[i + 1] {
                return false;
            }
            assert forall|a: int, b: int|
                #![trigger self.row_ptr@[a], self.row_ptr@[b]]
                0 <= a <= b <= i + 1 implies self.row_ptr@[a] <= self.row_ptr@[b] by {
                if b == i + 1 && a <= i {
                    assert(self.row_ptr@[a] <= self.row_ptr@[i as int]);
                }
            }
            i = i + 1;
        }
        let mut e: usize = 0;
        while e < self.col_idx.len()
            invariant
                e <= self.col_idx@.len(),
                n == self.n,
                forall|t: int| 0 <= t < e ==> self.col_idx@[t] < n,
            decreases self.col_idx@.len() - e,
        {
            if self.col_idx[e] >= n {
                return false;
            }
            e = e + 1;
        }
        true
    }

    /// The empty `n x n` matrix mod `q`.
    pub fn new(n: usize, q: U256) -> (r: SparseMatrix)
        requires
            n < usize::MAX,
            q@ > 0,
        ensures
            r.wf(),
            r.n == n,
            r.q == q,
            r.col_idx@.len() == 0,
            forall|i: int| 0 <= i <= n ==> r.row_ptr@[i] == 0,
    {
        let mut row_ptr: Vec<usize> = Vec::new();
        let mut k: usize = 0;
        while k <= n
            invariant
                k <= n + 1,
                n < usize::MAX,
                row_ptr@.len() == k,
                forall|t: int| 0 <= t < k ==> row_ptr@[t] == 0,
            decreases n + 1 - k,
        {
            row_ptr.push(0);
            k = k + 1;
        }
        SparseMatrix { n, q, row_ptr, col_idx: Vec::new(), values: Vec::new() }
    }

    /// The `n x n` identity matrix mod `q`: entry `i` sits in row `i`,
    /// column `i`, with value 1.
    pub fn new_identity(n: usize, q: U256) -> (r: SparseMatrix)
        requires
            n < usize::MAX,
            q@ > 0,
        ensures
            r.wf(),
            r.n == n,
            r.q == q,
            r.col_idx@.len() == n,
            forall|i: int| 0 <= i <= n ==> r.row_ptr@[i] == i,
            forall|i: int| 0 <= i < n ==> r.col_idx@[i] == i && r.values@[i]@ == 1,
    {
        let mut row_ptr: Vec<usize> = Vec::new();
        let mut col_idx: Vec<usize> = Vec::new();
        let mut values: Vec<U256> = Vec::new();
        let mut i: usize = 0;
        while i < n
            invariant
                i <= n,
                n < usize::MAX,
                row_ptr@.len() == i,
                col_idx@.len() == i,
                values@.len() == i,
                forall|t: int| 0 <= t < i ==> row_ptr@[t] == t && col_idx@[t] == t,
                forall|t: int| 0 <= t < i ==> values@[t]@ == 1,
            decreases n - i,
        {
            row_ptr.push(i);
            col_idx.push(i);
            values.push(U256::from_u64(1));
            i = i + 1;
        }
        row_ptr.push(n);
        SparseMatrix { n, q, row_ptr, col_idx, values }
    }

    /// Writes `M * v mod q` into `vout`.
    pub fn mul_vec_assign(&self, v: &[U256], vout: &mut Vec<U256>)
        requires
            self.wf(),
            v@.len() == self.n,
            old(vout)@.len() == self.n,
        ensures
            final(vout)@.len() == self.n,
            forall|i: int| 0 <= i < self.n ==> final(vout)@[i]@ == self.mul_vec_spec(v@, i),
    {
        let mut i: usize = 0;
        while i < self.n
            invariant
                self.wf(),
                v@.len() == self.n,
                i <= self.n,
                vout@.len() == self.n,
                forall|t: int| 0 <= t < i ==> vout@[t]@ == self.mul_vec_spec(v@, t),
            decreases self.n - i,
        {
            let zero = U256::from_u64(0);
            let r = self.row_product(v, i, zero);
            vout.set(i, r);
            i = i + 1;
        }
    }

    /// Returns `M * v mod q`.
    pub fn mul_vec(&self, v: &[U256]) -> (r: Vec<U256>)
        requires
            self.wf(),
            v@.len() == self.n,
        ensures
            r@.len() == self.n,
            forall|i: int| 0 <= i < self.n ==> r@[i]@ == self.mul_vec_spec(v@, i),
    {
        let mut vout = zeros(self.n);
        self.mul_vec_assign(v, &mut vout);
        vout
    }

    /// Adds `M * v` to `vout`, mod `q`.
    pub fn mul_vec_add_assign(&self, v: &[U256], vout: &mut Vec<U256>)
        requires
            self.wf(),
            v@.len() == self.n,
            old(vout)@.len() == self.n,
            forall|i: int| 0 <= i < self.n ==> old(vout)@[i]@ < self.q@,
        ensures
            final(vout)@.len() == self.n,
            forall|i: int|
                0 <= i < self.n ==> final(vout)@[i]@ == (old(vout)@[i]@ + self.row_sum(v@, i)) % (
                self.q@ as int),
    {
        let mut i: usize = 0;
        while i < self.n
            invariant
                self.wf(),
                v@.len() == self.n,
                i <= self.n,
                vout@.len() == self.n,
                forall|t: int| i <= t < self.n ==> vout@[t] == old(vout)@[t],
                forall|t: int| 0 <= t < self.n ==> old(vout)@[t]@ < self.q@,
                forall|t: int|
                    0 <= t < i ==> vout@[t]@ == (old(vout)@[t]@ + self.row_sum(v@, t)) % (
                    self.q@ as int),
            decreases self.n - i,
        {
            let r = self.row_product(v, i, vout[i]);
            vout.set(i, r);
            i = i + 1;
        }
    }

    /// Subtracts `M * v` from `vout`, mod `q`.
    pub fn mul_vec_sub_assign(&self, v: &[U256], vout: &mut Vec<U256>)
        requires
            self.wf(),
            v@.len() == self.n,
            old(vout)@.len() == self.n,
            forall|i: int| 0 <= i < self.n ==> old(vout)@[i]@ < self.q@,
        ensures
            final(vout)@.len() == self.n,
            forall|i: int|
                0 <= i < self.n ==> final(vout)@[i]@ == (old(vout)@[i]@ - self.row_sum(v@, i)) % (
                self.q@ as int),
    {
        let mut i: usize = 0;
        while i < self.n
            invariant
                self.wf(),
                v@.len() == self.n,
                i <= self.n,
                vout@.len() == self.n,
                forall|t: int| i <= t < self.n ==> vout@[t] == old(vout)@[t],
                forall|t: int| 0 <= t < self.n ==> old(vout)@[t]@ < self.q@,
                forall|t: int|
                    0 <= t < i ==> vout@[t]@ == (old(vout)@[t]@ - self.row_sum(v@, t)) % (
                    self.q@ as int),
            decreases self.n - i,
        {
            let zero = U256::from_u64(0);
            let tmp = self.row_product(v, i, zero);
            let r = sub_mod(vout[i], tmp, self.q);
            proof {
                let (a, s, m) = (vout@[i as int]@ as int, self.row_sum(v@, i as int), self.q@ as int);
                lemma_small_mod(a as nat, m as nat);
                lemma_sub_mod_noop(a, s, m);
            }
            vout.set(i, r);
            i = i + 1;
        }
    }

    /// Adds `M^T * v` to `vout`, mod `q`.
    pub fn transpose_mul_vec_add_assign(&self, v: &[U256], vout: &mut Vec<U256>)
        requires
            self.wf(),
            v@.len() == self.n,
            old(vout)@.len() == self.n,
            forall|c: int| 0 <= c < self.n ==> old(vout)@[c]@ < self.q@,
        ensures
            final(vout)@.len() == self.n,
            forall|c: int|
                0 <= c < self.n ==> final(vout)@[c]@ == (old(vout)@[c]@ + self.transpose_sum(v@, c))
                    % (self.q@ as int),
    {
        let ghost q = self.q@ as int;
        assert forall|c: int| 0 <= c < self.n implies old(vout)@[c]@ == (old(vout)@[c]@
            + self.col_sum(v@, c, 0) + self.col_dot(v@, c, 0, self.rp(0), self.rp(0))) % q by {
            lemma_small_mod(old(vout)@[c]@, q as nat);
        }
        let mut i: usize = 0;
        while i < self.n
            invariant
                self.wf(),
                q == self.q@,
                v@.len() == self.n,
                i <= self.n,
                vout@.len() == self.n,
                forall|c: int|
                    0 <= c < self.n ==> vout@[c]@ == (old(vout)@[c]@ + self.col_sum(v@, c, i as int))
                        % q,
            decreases self.n - i,
        {
            let start = self.row_ptr[i];
            let end = self.row_ptr[i + 1];
            assert(self.row_ptr@[i as int] <= self.row_ptr@[i + 1]);
            assert(self.row_ptr@[i + 1] <= self.row_ptr@[self.n as int]);
            let x = v[i];
            let mut j = start;
            while j < end
                invariant
                    self.wf(),
                    q == self.q@,
                    v@.len() == self.n,
                    i < self.n,
                    x == v@[i as int],
                    start <= j <= end <= self.col_idx@.len(),
                    start == self.rp(i as int),
                    end == self.rp(i + 1),
                    vout@.len() == self.n,
                    forall|c: int|
                        0 <= c < self.n ==> vout@[c]@ == (old(vout)@[c]@ + self.col_sum(
                            v@,
                            c,
                            i as int,
                        ) + self.col_dot(v@, c, i as int, start as int, j as int)) % q,
                decreases end - j,
            {
                let c = self.col_idx[j];
                let r = mul_add_mod(self.values[j], x, vout[c], self.q);
                proof {
                    let t = self.values@[j as int]@ * x@;
                    let base = old(vout)@[c as int]@ + self.col_sum(v@, c as int, i as int)
                        + self.col_dot(v@, c as int, i as int, start as int, j as int);
                    lemma_add_mod_noop_right(t as int, base, q);
                }
                vout.set(c, r);
                j = j + 1;
            }
            i = i + 1;
        }
    }

    /// Subtracts `M^T * v` from `vout`, mod `q`.
    pub fn transpose_mul_vec_sub_assign(&self, v: &[U256], vout: &mut Vec<U256>)
        requires
            self.wf(),
            v@.len() == self.n,
            old(vout)@.len() == self.n,
            forall|c: int| 0 <= c < self.n ==> old(vout)@[c]@ < self.q@,
        ensures
            final(vout)@.len() == self.n,
            forall|c: int|
                0 <= c < self.n ==> final(vout)@[c]@ == (old(vout)@[c]@ - self.transpose_sum(v@, c))
                    % (self.q@ as int),
    {
        let ghost q = self.q@ as int;
        assert forall|c: int| 0 <= c < self.n implies old(vout)@[c]@ == (old(vout)@[c]@
            - self.col_sum(v@, c, 0) - self.col_dot(v@, c, 0, self.rp(0), self.rp(0))) % q by {
            lemma_small_mod(old(vout)@[c]@, q as nat);
        }
        let mut i: usize = 0;
        while i < self.n
            invariant
                self.wf(),
                q == self.q@,
                v@.len() == self.n,
                i <= self.n,
                vout@.len() == self.n,
                forall|c: int|
                    0 <= c < self.n ==> vout@[c]@ == (old(vout)@[c]@ - self.col_sum(v@, c, i as int))
                        % q,
            decreases self.n - i,
        {
            let start = self.row_ptr[i];
            let end = self.row_ptr[i + 1];
            assert(self.row_ptr@[i as int] <= self.row_ptr@[i + 1]);
            assert(self.row_ptr@[i + 1] <= self.row_ptr@[self.n as int]);
            let x = v[i];
            let mut j = start;
            while j < end
                invariant
                    self.wf(),
                    q == self.q@,
                    v@.len() == self.n,
                    i < self.n,
                    x == v@[i as int],
                    start <= j <= end <= self.col_idx@.len(),
                    start == self.rp(i as int),
                    end == self.rp(i + 1),
                    vout@.len() == self.n,
                    forall|c: int|
                        0 <= c < self.n ==> vout@[c]@ == (old(vout)@[c]@ - self.col_sum(
                            v@,
                            c,
                            i as int,
                        ) - self.col_dot(v@, c, i as int, start as int, j as int)) % q,
                decreases end - j,
            {
                let c = self.col_idx[j];
                let zero = U256::from_u64(0);
                let tmp = mul_add_mod(self.values[j], x, zero, self.q);
                let cur = vout[c];
                proof { lemma_mod_pos_bound(0, q); }
                let r = sub_mod(cur, tmp, self.q);
                proof {
                    let t = self.values@[j as int]@ * x@;
                    let base = old(vout)@[c as int]@ - self.col_sum(v@, c as int, i as int)
                        - self.col_dot(v@, c as int, i as int, start as int, j as int);
                    lemma_sub_mod_noop(base, t as int, q);
                }
                vout.set(c, r);
                j = j + 1;
            }
            i = i + 1;
        }
    }

    /// Writes `M^T * v mod q` into `vout`.
    pub fn transpose_mul_vec_assign(&self, v: &[U256], vout: &mut Vec<U256>)
        requires
            self.wf(),
            v@.len() == self.n,
            old(vout)@.len() == self.n,
        ensures
            final(vout)@.len() == self.n,
            forall|c: int|
                0 <= c < self.n ==> final(vout)@[c]@ == self.transpose_mul_vec_spec(v@, c),
    {
        let mut k: usize = 0;
        while k < self.n
            invariant
                self.wf(),
                k <= self.n,
                vout@.len() == self.n,
                forall|t: int| 0 <= t < k ==> vout@[t]@ == 0,
            decreases self.n - k,
        {
            vout.set(k, U256::from_u64(0));
            k = k + 1;
        }
        self.transpose_mul_vec_add_assign(v, vout);
    }

    /// Returns `M^T * v mod q`.
    pub fn transpose_mul_vec(&self, v: &[U256]) -> (r: Vec<U256>)
        requires
            self.wf(),
            v@.len() == self.n,
        ensures
            r@.len() == self.n,
            forall|c: int| 0 <= c < self.n ==> r@[c]@ == self.transpose_mul_vec_spec(v@, c),
    {
        let mut vout = zeros(self.n);
        self.transpose_mul_vec_assign(v, &mut vout);
        vout
    }

    /// The dense `n x n` form of the matrix, row by row.
    pub fn to_dense(&self) -> (r: Vec<Vec<U256>>)
        requires
            self.wf(),
        ensures
            r@.len() == self.n,
            forall|i: int| 0 <= i < self.n ==> r@[i]@.len() == self.n,
            forall|i: int, c: int|
                0 <= i < self.n && 0 <= c < self.n ==> r@[i]@[c]@ == self.dense_spec(i, c),
    {
        let mut m: Vec<Vec<U256>> = Vec::new();
        let mut i: usize = 0;
        while i < self.n
            invariant
                self.wf(),
                i <= self.n,
                m@.len() == i,
                forall|t: int| 0 <= t < i ==> m@[t]@.len() == self.n,
                forall|t: int, c: int|
                    0 <= t < i && 0 <= c < self.n ==> m@[t]@[c]@ == self.dense_spec(t, c),
            decreases self.n - i,
        {
            let start = self.row_ptr[i];
            let end = self.row_ptr[i + 1];
            assert(self.row_ptr@[i as int] <= self.row_ptr@[i + 1]);
            assert(self.row_ptr@[i + 1] <= self.row_ptr@[self.n as int]);
            let mut row = zeros(self.n);
            let mut j = start;
            while j < end
                invariant
                    self.wf(),
                    i < self.n,
                    start <= j <= end <= self.col_idx@.len(),
                    start == self.rp(i as int),
                    end == self.rp(i + 1),
                    row@.len() == self.n,
                    forall|c: int|
                        0 <= c < self.n ==> row@[c]@ == self.last_entry(c, start as int, j as int),
                decreases end - j,
            {
                let ghost prev = row@;
                row.set(self.col_idx[j], self.values[j]);
                assert forall|c: int| 0 <= c < self.n implies row@[c]@ == self.last_entry(
                    c,
                    start as int,
                    j + 1,
                ) by {
                    assert(self.last_entry(c, start as int, j + 1) == if self.col_idx@[j as int]
                        == c {
                        self.values@[j as int]@
                    } else {
                        self.last_entry(c, start as int, j as int)
                    });
                    if c != self.col_idx@[j as int] {
                        assert(row@[c] == prev[c]);
                    }
                }
                j = j + 1;
            }
            m.push(row);
            i = i + 1;
        }
        m
    }
}

impl SparseMatrix {
    /// The matrix is the identity in the shape `new_identity` builds: one
    /// entry per row, on the diagonal, with value 1.
    pub open spec fn is_identity(&self) -> bool {
        &&& self.wf()
        &&& forall|i: int| 0 <= i <= self.n ==> self.row_ptr@[i] == i
        &&& forall|i: int| 0 <= i < self.n ==> self.col_idx@[i] == i && self.values@[i]@ == 1
    }
}

proof fn lemma_identity_col_sum(mat: SparseMatrix, v: Seq<U256>, c: int, rows: int)
    requires
        mat.is_identity(),
        v.len() == mat.n,
        0 <= c < mat.n,
        0 <= rows <= mat.n,
    ensures
        mat.col_sum(v, c, rows) == if c < rows { v[c]@ as int } else { 0 },
    decreases rows,
{
    if rows > 0 {
        lemma_identity_col_sum(mat, v, c, rows - 1);
        let i = rows - 1;
        assert(mat.col_dot(v, c, i, i, i) == 0);
        assert(mat.col_dot(v, c, i, i, i + 1) == if i == c { v[i]@ as int } else { 0 });
    }
}

/// The identity matrix maps every vector to itself mod `q`, forwards and
/// transposed.
pub proof fn lemma_identity(mat: SparseMatrix, v: Seq<U256>)
    requires
        mat.is_identity(),
        v.len() == mat.n,
    ensures
        forall|i: int| 0 <= i < mat.n ==> mat.mul_vec_spec(v, i) == v[i]@ % mat.q@,
        forall|i: int|
            0 <= i < mat.n ==> mat.transpose_mul_vec_spec(v, i) == v[i]@ % mat.q@,
{
    assert forall|i: int| 0 <= i < mat.n implies mat.mul_vec_spec(v, i) == v[i]@ % mat.q@ by {
        assert(mat.entry_dot(v, i, i) == 0);
        assert(mat.row_sum(v, i) == v[i]@);
    }
    assert forall|i: int| 0 <= i < mat.n implies mat.transpose_mul_vec_spec(v, i) == v[i]@ % mat.q@ by {
        lemma_identity_col_sum(mat, v, i, mat.n as int);
    }
}

proof fn lemma_entry_dot_additive(
    mat: SparseMatrix,
    v1: Seq<U256>,
    v2: Seq<U256>,
    w: Seq<U256>,
    start: int,
    end: int,
)
    requires
        mat.wf(),
        v1.len() == mat.n,
        v2.len() == mat.n,
        w.len() == mat.n,
        forall|k: int| 0 <= k < mat.n ==> w[k]@ == v1[k]@ + v2[k]@,
        0 <= start,
        end <= mat.col_idx@.len(),
    ensures
        mat.entry_dot(w, start, end) == mat.entry_dot(v1, start, end) + mat.entry_dot(
            v2,
            start,
            end,
        ),
    decreases end - start,
{
    if end > start {
        lemma_entry_dot_additive(mat, v1, v2, w, start, end - 1);
        let c = mat.col_idx@[end - 1] as int;
        let x = mat.values@[end - 1]@ as int;
        assert(x * (v1[c]@ + v2[c]@) == x * v1[c]@ + x * v2[c]@) by (nonlinear_arith);
    }
}

/// The product is linear mod `q`: for `w = v1 + v2` entry by entry,
/// `M * v1 + M * v2 == M * w` mod `q`.
pub proof fn lemma_linearity(mat: SparseMatrix, v1: Seq<U256>, v2: Seq<U256>, w: Seq<U256>)
    requires
        mat.wf(),
        v1.len() == mat.n,
        v2.len() == mat.n,
        w.len() == mat.n,
        forall|k: int| 0 <= k < mat.n ==> w[k]@ == v1[k]@ + v2[k]@,
    ensures
        forall|i: int|
            0 <= i < mat.n ==> (mat.mul_vec_spec(v1, i) + mat.mul_vec_spec(v2, i)) % (
            mat.q@ as int) == mat.mul_vec_spec(w, i),
{
    assert forall|i: int| 0 <= i < mat.n implies (mat.mul_vec_spec(v1, i) + mat.mul_vec_spec(
        v2,
        i,
    )) % (mat.q@ as int) == mat.mul_vec_spec(w, i) by {
        assert(mat.row_ptr@[i] <= mat.row_ptr@[i + 1]);
        assert(mat.row_ptr@[i + 1] <= mat.row_ptr@[mat.n as int]);
        lemma_entry_dot_additive(mat, v1, v2, w, mat.rp(i), mat.rp(i + 1));
        lemma_add_mod_noop(mat.row_sum(v1, i), mat.row_sum(v2, i), mat.q@ as int);
    }
}

/// Adding `M * v` (or `M^T * v`) to a vector of residues and then
/// subtracting it gives the vector back.
pub proof fn lemma_add_sub_inverse(mat: SparseMatrix, v: Seq<U256>, vout: Seq<U256>)
    requires
        mat.wf(),
        v.len() == mat.n,
        vout.len() == mat.n,
        forall|i: int| 0 <= i < mat.n ==> vout[i]@ < mat.q@,
    ensures
        forall|i: int|
            0 <= i < mat.n ==> ((vout[i]@ + mat.row_sum(v, i)) % (mat.q@ as int) - mat.row_sum(
                v,
                i,
            )) % (mat.q@ as int) == vout[i]@,
        forall|i: int|
            0 <= i < mat.n ==> ((vout[i]@ + mat.transpose_sum(v, i)) % (mat.q@ as int)
                - mat.transpose_sum(v, i)) % (mat.q@ as int) == vout[i]@,
{
    let q = mat.q@ as int;
    assert forall|i: int| 0 <= i < mat.n implies ((vout[i]@ + mat.row_sum(v, i)) % q
        - mat.row_sum(v, i)) % q == vout[i]@ by {
        lemma_add_sub_cancel(vout[i]@ as int, mat.row_sum(v, i), q);
    }
    assert forall|i: int| 0 <= i < mat.n implies ((vout[i]@ + mat.transpose_sum(v, i)) % q
        - mat.transpose_sum(v, i)) % q == vout[i]@ by {
        lemma_add_sub_cancel(vout[i]@ as int, mat.transpose_sum(v, i), q);
    }
}

proof fn lemma_add_sub_cancel(a: int, s: int, q: int)
    requires
        0 <= a < q,
    ensures
        ((a + s) % q - s) % q == a,
{
    lemma_sub_mod_noop(a + s, s, q);
    lemma_sub_mod_noop_right((a + s) % q, s, q);
    lemma_small_mod(a as nat, q as nat);
}

/// `f(0) + f(1) + ... + f(k - 1)`.
pub open spec fn sum_to(f: spec_fn(int) -> int, k: int) -> int
    decreases k,
{
    if k <= 0 {
        0
    } else {
        sum_to(f, k - 1) + f(k - 1)
    }
}

proof fn lemma_sum_add(f: spec_fn(int) -> int, g: spec_fn(int) -> int, h: spec_fn(int) -> int, k: int)
    requires
        forall|c: int| 0 <= c < k ==> #[trigger] h(c) == f(c) + g(c),
    ensures
        sum_to(h, k) == sum_to(f, k) + sum_to(g, k),
    decreases k,
{
    if k > 0 {
        lemma_sum_add(f, g, h, k - 1);
    }
}

proof fn lemma_sum_mod(f: spec_fn(int) -> int, g: spec_fn(int) -> int, q: int, k: int)
    requires
        q > 0,
        forall|c: int| 0 <= c < k ==> #[trigger] f(c) % q == g(c) % q,
    ensures
        sum_to(f, k) % q == sum_to(g, k) % q,
    decreases k,
{
    if k > 0 {
        lemma_sum_mod(f, g, q, k - 1);
        lemma_add_mod_noop(sum_to(f, k - 1), f(k - 1), q);
        lemma_add_mod_noop(sum_to(g, k - 1), g(k - 1), q);
    }
}

/// The sum over `c < k` of `v[c] * x` where `c` is `col` and 0 elsewhere.
proof fn lemma_sum_single(f: spec_fn(int) -> int, col: int, y: int, k: int)
    requires
        forall|c: int| 0 <= c < k ==> #[trigger] f(c) == if c == col { y } else { 0 },
    ensures
        sum_to(f, k) == if 0 <= col < k { y } else { 0 },
    decreases k,
{
    if k > 0 {
        lemma_sum_single(f, col, y, k - 1);
    }
}

impl SparseMatrix {
    /// `sum over i < n of (M * v)[i] * u[i]`, each product entry reduced mod `q`.
    pub open spec fn dot_forward(&self, v: Seq<U256>, u: Seq<U256>) -> int {
        sum_to(|i: int| self.mul_vec_spec(v, i) * u[i]@, self.n as int)
    }

    /// `sum over c < n of v[c] * (M^T * u)[c]`, each product entry reduced mod `q`.
    pub open spec fn dot_transposed(&self, v: Seq<U256>, u: Seq<U256>) -> int {
        sum_to(|c: int| v[c]@ * self.transpose_mul_vec_spec(u, c), self.n as int)
    }
}

/// Within row `r`, summing the column contributions against `v` gives the
/// row's product with `v`, scaled by `u[r]`.
proof fn lemma_row_columns(mat: SparseMatrix, v: Seq<U256>, u: Seq<U256>, r: int, end: int)
    requires
        mat.wf(),
        v.len() == mat.n,
        u.len() == mat.n,
        0 <= r < mat.n,
        mat.rp(r) <= end <= mat.rp(r + 1),
    ensures
        sum_to(|c: int| v[c]@ * mat.col_dot(u, c, r, mat.rp(r), end), mat.n as int)
            == mat.entry_dot(v, mat.rp(r), end) * u[r]@,
    decreases end - mat.rp(r),
{
    let s = mat.rp(r);
    let n = mat.n as int;
    assert(mat.row_ptr@[r + 1] <= mat.row_ptr@[n]);
    if end == s {
        lemma_sum_single(|c: int| v[c]@ * mat.col_dot(u, c, r, mat.rp(r), end), -1, 0, n);
        assert(mat.entry_dot(v, mat.rp(r), end) == 0);
    } else {
        lemma_row_columns(mat, v, u, r, end - 1);
        let e = end - 1;
        let col = mat.col_idx@[e] as int;
        let x: int = (mat.values@[e]@ * u[r]@) as int;
        let f = |c: int| v[c]@ * mat.col_dot(u, c, r, mat.rp(r), end - 1);
        let g = |c: int| if c == col { v[c]@ * x } else { 0int };
        let h = |c: int| v[c]@ * mat.col_dot(u, c, r, mat.rp(r), end);
        assert forall|c: int| 0 <= c < n implies #[trigger] h(c) == f(c) + g(c) by {
            let d = mat.col_dot(u, c, r, s, e);
            if c == col {
                assert(v[c]@ * (d + x) == v[c]@ * d + v[c]@ * x) by (nonlinear_arith);
            }
        }
        lemma_sum_add(f, g, h, n);
        lemma_sum_single(g, col, v[col]@ * x, n);
        let ed = mat.entry_dot(v, mat.rp(r), end - 1);
        let y = mat.values@[e]@ * v[col]@;
        assert((ed + y) * u[r]@ == ed * u[r]@ + v[col]@ * x) by (nonlinear_arith)
            requires y == mat.values@[e]@ * v[col]@, x == mat.values@[e]@ * u[r]@;
        assert(mat.entry_dot(v, mat.rp(r), end) == ed + y);
        assert(sum_to(h, n) == mat.entry_dot(v, mat.rp(r), end) * u[r]@);
    }
}

/// The exact form: `sum_i (M v)_i u_i == sum_c v_c (M^T u)_c` over rows below `rows`.
proof fn lemma_duality_exact(mat: SparseMatrix, v: Seq<U256>, u: Seq<U256>, rows: int)
    requires
        mat.wf(),
        v.len() == mat.n,
        u.len() == mat.n,
        0 <= rows <= mat.n,
    ensures
        sum_to(|i: int| mat.row_sum(v, i) * u[i]@, rows) == sum_to(
            |c: int| v[c]@ * mat.col_sum(u, c, rows),
            mat.n as int,
        ),
    decreases rows,
{
    let n = mat.n as int;
    if rows == 0 {
        lemma_sum_single(|c: int| v[c]@ * mat.col_sum(u, c, 0), -1, 0, n);
    } else {
        let r = rows - 1;
        lemma_duality_exact(mat, v, u, rows - 1);
        assert(mat.row_ptr@[r] <= mat.row_ptr@[r + 1]);
        lemma_row_columns(mat, v, u, rows - 1, mat.rp(rows - 1 + 1));
        let f = |c: int| v[c]@ * mat.col_sum(u, c, rows - 1);
        let g = |c: int| v[c]@ * mat.col_dot(u, c, rows - 1, mat.rp(rows - 1), mat.rp(rows - 1 + 1));
        let h = |c: int| v[c]@ * mat.col_sum(u, c, rows);
        assert forall|c: int| 0 <= c < n implies #[trigger] h(c) == f(c) + g(c) by {
            let a = mat.col_sum(u, c, r);
            let b = mat.col_dot(u, c, r, mat.rp(r), mat.rp(r + 1));
            assert(v[c]@ * (a + b) == v[c]@ * a + v[c]@ * b) by (nonlinear_arith);
        }
        lemma_sum_add(f, g, h, n);
    }
}

/// `<M v, u> == <v, M^T u>` mod `q`, with both products reduced mod `q`.
pub proof fn lemma_transpose_duality(mat: SparseMatrix, v: Seq<U256>, u: Seq<U256>)
    requires
        mat.wf(),
        v.len() == mat.n,
        u.len() == mat.n,
    ensures
        mat.dot_forward(v, u) % (mat.q@ as int) == mat.dot_transposed(v, u) % (mat.q@ as int),
{
    let q = mat.q@ as int;
    let n = mat.n as int;
    lemma_duality_exact(mat, v, u, n);
    let f1 = |i: int| mat.mul_vec_spec(v, i) * u[i]@;
    let g1 = |i: int| mat.row_sum(v, i) * u[i]@;
    assert forall|i: int| 0 <= i < n implies #[trigger] f1(i) % q == g1(i) % q by {
        lemma_mul_mod_noop_left(mat.row_sum(v, i), u[i]@ as int, q);
    }
    lemma_sum_mod(f1, g1, q, n);
    let f2 = |c: int| v[c]@ * mat.transpose_mul_vec_spec(u, c);
    let g2 = |c: int| v[c]@ * mat.col_sum(u, c, n);
    assert forall|c: int| 0 <= c < n implies #[trigger] f2(c) % q == g2(c) % q by {
        lemma_mul_mod_noop_right(v[c]@ as int, mat.col_sum(u, c, n), q);
    }
    lemma_sum_mod(f2, g2, q, n);
}

} // verus!
