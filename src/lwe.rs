//! Single-party LWE encryption of one bit.

use crate::random::{rand_value, shuffle};
use crate::ring::{add_mod, floor_mod, fmod, in_signal_band, lemma_fmod_periodic, signal_band, sub_mod};
use vstd::arithmetic::power2::{lemma_pow2_strictly_increases, lemma_pow2_unfold, pow2};
use vstd::math::abs;
use vstd::prelude::*;

verus! {

/// `(A, b)`: `m` rows of `n` entries, and one entry per row.
pub type PublicKey = (Vec<Vec<u64>>, Vec<u64>);

/// One small integer per key coordinate.
pub type SecretKey = Vec<i64>;

/// `(a, b)`: a vector of `n` entries and a scalar.
pub type Ciphertext = (Vec<u64>, u64);

/// A single bit, `0` or `1`.
pub type Plaintext = usize;

/// Why an encryption was refused.
#[derive(Clone, Copy, Debug, PartialEq, Eq)]
pub enum LweError {
    /// The plaintext is neither `0` nor `1`.
    InvalidPlaintext,
}

/// Scheme parameters: dimension `n`, sample count `m = n³`, modulus `q = 2ⁿ`.
#[derive(Clone, Copy, Debug, PartialEq, Eq)]
pub struct Lwe {
    pub n: usize,
    pub m: usize,
    pub q: u64,
}

/// The largest modulus for which products of residues and key entries stay
/// within `i128`.
pub open spec fn modulus_fits(q: int) -> bool {
    0 < q <= 0x4000_0000_0000_0000
}

/// `Σ_{i < k} a_i · s_i` over the integers.
pub open spec fn dot(a: Seq<u64>, s: Seq<i64>, k: nat) -> int
    decreases k,
{
    if k == 0 {
        0
    } else {
        dot(a, s, (k - 1) as nat) + a[k - 1] * s[k - 1]
    }
}

/// `Σ_{t < k} A[rows_t][j]`.
pub open spec fn column_sum(a: Seq<Vec<u64>>, rows: Seq<usize>, j: int, k: nat) -> int
    decreases k,
{
    if k == 0 {
        0
    } else {
        column_sum(a, rows, j, (k - 1) as nat) + a[rows[k - 1] as int]@[j]
    }
}

/// `Σ_{t < k} b[rows_t]`.
pub open spec fn entry_sum(b: Seq<u64>, rows: Seq<usize>, k: nat) -> int
    decreases k,
{
    if k == 0 {
        0
    } else {
        entry_sum(b, rows, (k - 1) as nat) + b[rows[k - 1] as int]
    }
}

/// `A` has `m` rows of `n` entries below `q`, and `b` has `m` entries below `q`.
pub open spec fn public_key_wf(pk: PublicKey, m: nat, n: nat, q: int) -> bool {
    &&& pk.0@.len() == m
    &&& pk.1@.len() == m
    &&& forall|i: int| 0 <= i < m ==> (#[trigger] pk.0@[i])@.len() == n
    &&& forall|i: int, j: int| 0 <= i < m && 0 <= j < n ==> (#[trigger] pk.0@[i]@[j]) < q
    &&& forall|i: int| 0 <= i < m ==> (#[trigger] pk.1@[i]) < q
}

/// `sk` has `n` entries, each a residue in `[0, q)`.
pub open spec fn secret_key_wf(sk: Seq<i64>, n: nat, q: int) -> bool {
    &&& sk.len() == n
    &&& forall|i: int| 0 <= i < n ==> 0 <= #[trigger] sk[i] < q
}

/// The ciphertext of `bit` formed from the rows `rows` of `pk`.
pub open spec fn encryption(pk: PublicKey, bit: int, rows: Seq<usize>, n: nat, q: int) -> (Seq<u64>, int) {
    (
        Seq::new(n, |j: int| fmod(column_sum(pk.0@, rows, j, rows.len()), q) as u64),
        fmod(bit * (q / 2) + entry_sum(pk.1@, rows, rows.len()), q),
    )
}

/// The bit that a noisy value `v` stands for.
pub open spec fn decode(v: int, q: int) -> usize {
    if signal_band(v, q) {
        1
    } else {
        0
    }
}

/// The bit recovered from `c` under `sk`.
pub open spec fn decryption(sk: Seq<i64>, c: (Seq<u64>, u64), q: int) -> usize {
    decode(fmod(c.1 - dot(c.0, sk, c.0.len()), q), q)
}

/// Row `i` of `b = A·s + e (mod q)`.
pub open spec fn public_row(a: Seq<Vec<u64>>, s: Seq<i64>, e: Seq<i64>, q: int, i: int) -> int {
    fmod(dot(a[i]@, s, s.len()) + e[i], q)
}

/// `Σ a_i · s_i (mod q)`.
pub fn dot_mod(a: &Vec<u64>, s: &Vec<i64>, q: u64) -> (r: u64)
    requires
        modulus_fits(q as int),
        a.len() == s.len(),
        forall|i: int| 0 <= i < a.len() ==> a@[i] < q,
    ensures
        r as int == fmod(dot(a@, s@, a.len() as nat), q as int),
        r < q,
{
    let mut acc: u64 = 0;
    let mut k: usize = 0;
    proof {
        lemma_fmod_periodic(0, 0, q as int);
    }
    while k < a.len()
        invariant
            modulus_fits(q as int),
            a.len() == s.len(),
            forall|i: int| 0 <= i < a.len() ==> a@[i] < q,
            k <= a.len(),
            acc < q,
            acc as int == fmod(dot(a@, s@, k as nat), q as int),
        decreases a.len() - k,
    {
        let x = a[k];
        let y = s[k];
        proof {
            assert(-0x4000_0000_0000_0000 * 0x8000_0000_0000_0000 <= (x as int) * (y as int)
                <= 0x4000_0000_0000_0000 * 0x8000_0000_0000_0000) by (nonlinear_arith)
                requires
                    0 <= x < 0x4000_0000_0000_0000,
                    -0x8000_0000_0000_0000 <= y < 0x8000_0000_0000_0000,
            ;
        }
        let t: i128 = (acc as i128) + (x as i128) * (y as i128);
        let ghost prev = dot(a@, s@, k as nat);
        acc = floor_mod(t, q);
        proof {
            vstd::arithmetic::div_mod::lemma_fundamental_div_mod(prev, q as int);
            lemma_fmod_periodic(prev + x * y, -(prev / q as int), q as int);
            assert(t == prev + x * y + (-(prev / q as int)) * q) by (nonlinear_arith)
                requires
                    t == fmod(prev, q as int) + x * y,
                    prev == q * (prev / q as int) + fmod(prev, q as int),
            ;
        }
        k = k + 1;
    }
    acc
}

/// `b = A·s + e (mod q)`, one entry per row of `A`.
pub fn gen_b(a: &Vec<Vec<u64>>, s: &Vec<i64>, q: u64, e: &Vec<i64>) -> (r: Vec<u64>)
    requires
        modulus_fits(q as int),
        e.len() == a.len(),
        forall|i: int| 0 <= i < a.len() ==> (#[trigger] a@[i])@.len() == s.len(),
        forall|i: int, j: int| 0 <= i < a.len() && 0 <= j < s.len() ==> (#[trigger] a@[i]@[j]) < q,
    ensures
        r.len() == a.len(),
        forall|i: int| 0 <= i < a.len() ==> (#[trigger] r@[i]) as int == public_row(a@, s@, e@, q as int, i),
        forall|i: int| 0 <= i < a.len() ==> (#[trigger] r@[i]) < q,
{
    let mut b: Vec<u64> = Vec::new();
    let mut i: usize = 0;
    while i < a.len()
        invariant
            modulus_fits(q as int),
            e.len() == a.len(),
            forall|i: int| 0 <= i < a.len() ==> (#[trigger] a@[i])@.len() == s.len(),
            forall|i: int, j: int| 0 <= i < a.len() && 0 <= j < s.len() ==> (#[trigger] a@[i]@[j]) < q,
            i <= a.len(),
            b.len() == i,
            forall|k: int| 0 <= k < i ==> (#[trigger] b@[k]) as int == public_row(a@, s@, e@, q as int, k),
            forall|k: int| 0 <= k < i ==> (#[trigger] b@[k]) < q,
        decreases a.len() - i,
    {
        let row = &a[i];
        let d = dot_mod(row, s, q);
        let ghost full = dot(a@[i as int]@, s@, s.len() as nat);
        let v = floor_mod((d as i128) + (e[i] as i128), q);
        proof {
            vstd::arithmetic::div_mod::lemma_fundamental_div_mod(full, q as int);
            lemma_fmod_periodic(full + e@[i as int], -(full / q as int), q as int);
            assert(d + e@[i as int] == full + e@[i as int] + (-(full / q as int)) * q) by (nonlinear_arith)
                requires
                    d == fmod(full, q as int),
                    full == q * (full / q as int) + fmod(full, q as int),
            ;
        }
        b.push(v);
        i = i + 1;
    }
    b
}

/// `b - a·s (mod q)` for ciphertext `(a, b)`.
pub fn residual(sk: &SecretKey, c: &Ciphertext, q: u64) -> (r: u64)
    requires
        modulus_fits(q as int),
        c.0.len() == sk.len(),
        forall|i: int| 0 <= i < c.0.len() ==> c.0@[i] < q,
    ensures
        r as int == fmod(c.1 - dot(c.0@, sk@, c.0.len() as nat), q as int),
        r < q,
{
    let d = dot_mod(&c.0, sk, q);
    let v = sub_mod(c.1, d, q);
    proof {
        let full = dot(c.0@, sk@, c.0.len() as nat);
        vstd::arithmetic::div_mod::lemma_fundamental_div_mod(full, q as int);
        lemma_fmod_periodic(c.1 - full, full / q as int, q as int);
        assert(c.1 - d == c.1 - full + (full / q as int) * q) by (nonlinear_arith)
            requires
                d == fmod(full, q as int),
                full == q * (full / q as int) + fmod(full, q as int),
        ;
    }
    v
}

impl Lwe {
    /// The parameters are consistent: `m = n³`, `q = 2ⁿ`, and `n` small
    /// enough for `q` to fit the arithmetic.
    pub open spec fn wf(self) -> bool {
        &&& 1 <= self.n <= 62
        &&& self.m == self.n * self.n * self.n
        &&& self.q == pow2(self.n as nat)
    }

    /// The parameters for dimension `n`.
    pub open spec fn spec_new(n: usize) -> Lwe {
        Lwe { n, m: (n * n * n) as usize, q: pow2(n as nat) as u64 }
    }

    pub fn new(n: usize) -> (r: Lwe)
        requires
            1 <= n <= 62,
        ensures
            r == Lwe::spec_new(n),
            r.wf(),
    {
        let mut q: u64 = 1;
        let mut i: usize = 0;
        proof {
            vstd::arithmetic::power2::lemma2_to64();
        }
        while i < n
            invariant
                i <= n <= 62,
                q == pow2(i as nat),
            decreases n - i,
        {
            proof {
                lemma_pow2_unfold((i + 1) as nat);
                if i + 1 < 62 {
                    lemma_pow2_strictly_increases((i + 1) as nat, 62);
                }
                vstd::arithmetic::power2::lemma2_to64_rest();
            }
            q = q * 2;
            i = i + 1;
        }
        assert(n * n <= 62 * 62 && n * n * n <= 62 * 62 * 62) by (nonlinear_arith)
            requires
                n <= 62,
        ;
        let m = n * n * n;
        Lwe { n, m, q }
    }
}

/// `q ≤ 2⁶²`, so that products stay within `i128`.
pub proof fn lemma_wf_modulus(l: Lwe)
    requires
        l.wf(),
    ensures
        modulus_fits(l.q as int),
        l.q >= 2,
{
    vstd::arithmetic::power2::lemma2_to64_rest();
    vstd::arithmetic::power2::lemma2_to64();
    if l.n < 62 {
        lemma_pow2_strictly_increases(l.n as nat, 62);
    }
    if l.n > 1 {
        lemma_pow2_strictly_increases(1, l.n as nat);
    }
}

/// Draws `count` values of at most `bits` bits each, reduced mod `q`.
pub(crate) fn new_rand_big_int_vec(count: usize, bits: usize, q: u64) -> (r: Vec<i64>)
    requires
        bits <= 126,
        modulus_fits(q as int),
    ensures
        secret_key_wf(r@, count as nat, q as int),
{
    let mut v: Vec<i64> = Vec::new();
    let mut k: usize = 0;
    while k < count
        invariant
            bits <= 126,
            modulus_fits(q as int),
            k <= count,
            secret_key_wf(v@, k as nat, q as int),
        decreases count - k,
    {
        let x = floor_mod(rand_value(bits), q);
        v.push(x as i64);
        k = k + 1;
    }
    v
}

/// `m` rows of `n` residues drawn at random.
pub(crate) fn rand_matrix(m: usize, n: usize, q: u64) -> (r: Vec<Vec<u64>>)
    requires
        1 <= n <= 62,
        q > 0,
    ensures
        r@.len() == m,
        forall|i: int| 0 <= i < m ==> (#[trigger] r@[i])@.len() == n,
        forall|i: int, j: int| 0 <= i < m && 0 <= j < n ==> (#[trigger] r@[i]@[j]) < q,
{
    let mut a: Vec<Vec<u64>> = Vec::new();
    let mut i: usize = 0;
    while i < m
        invariant
            1 <= n <= 62,
            q > 0,
            i <= m,
            a@.len() == i,
            forall|k: int| 0 <= k < i ==> (#[trigger] a@[k])@.len() == n,
            forall|k: int, j: int| 0 <= k < i && 0 <= j < n ==> (#[trigger] a@[k]@[j]) < q,
        decreases m - i,
    {
        let mut row: Vec<u64> = Vec::new();
        let mut j: usize = 0;
        while j < n
            invariant
                1 <= n <= 62,
                q > 0,
                j <= n,
                row@.len() == j,
                forall|k: int| 0 <= k < j ==> (#[trigger] row@[k]) < q,
            decreases n - j,
        {
            let x = rand_value(n);
            row.push(floor_mod(x, q));
            j = j + 1;
        }
        a.push(row);
        i = i + 1;
    }
    a
}

impl Lwe {
    /// A fresh random matrix `A` and `b = A·s + e (mod q)`.
    pub fn gen_pk(s: &Vec<i64>, m: usize, n: usize, q: u64, e: &Vec<i64>) -> (r: PublicKey)
        requires
            1 <= n <= 62,
            modulus_fits(q as int),
            s.len() == n,
            e.len() == m,
        ensures
            public_key_wf(r, m as nat, n as nat, q as int),
            forall|i: int| 0 <= i < m ==> (#[trigger] r.1@[i]) as int == public_row(r.0@, s@, e@, q as int, i),
    {
        let a = rand_matrix(m, n, q);
        let b = gen_b(&a, s, q, e);
        (a, b)
    }

    /// A fresh key pair: `s` of `n` values of at most `n` bits, and the public
    /// key built from it with the noise `e`, one sample per row.
    pub fn keygen(&self, e: &Vec<i64>) -> (r: (PublicKey, SecretKey))
        requires
            self.wf(),
            e.len() == self.m,
        ensures
            secret_key_wf(r.1@, self.n as nat, self.q as int),
            public_key_wf(r.0, self.m as nat, self.n as nat, self.q as int),
            forall|i: int| 0 <= i < self.m ==> (#[trigger] r.0.1@[i]) as int == public_row(r.0.0@, r.1@, e@, self.q as int, i),
    {
        proof {
            lemma_wf_modulus(*self);
        }
        let sk = new_rand_big_int_vec(self.n, self.n, self.q);
        let pk = Lwe::gen_pk(&sk, self.m, self.n, self.q, e);
        (pk, sk)
    }

    /// Encrypts `bit` by summing the rows `rows` of the public key.
    pub fn encrypt_rows(&self, pk: &PublicKey, bit: usize, rows: &Vec<usize>) -> (r: Ciphertext)
        requires
            self.wf(),
            bit <= 1,
            public_key_wf(*pk, self.m as nat, self.n as nat, self.q as int),
            forall|t: int| 0 <= t < rows.len() ==> (#[trigger] rows@[t]) < self.m,
        ensures
            (r.0@, r.1 as int) == encryption(*pk, bit as int, rows@, self.n as nat, self.q as int),
    {
        proof {
            lemma_wf_modulus(*self);
        }
        let q = self.q;
        let n = self.n;
        let ghost am = pk.0@;
        let mut a: Vec<u64> = Vec::new();
        let mut j: usize = 0;
        while j < n
            invariant
                j <= n,
                a@.len() == j,
                forall|k: int| 0 <= k < j ==> (#[trigger] a@[k]) == 0,
            decreases n - j,
        {
            a.push(0);
            j = j + 1;
        }
        let half = q / 2;
        let mut b: u64 = if bit == 1 {
            half
        } else {
            0
        };
        proof {
            lemma_fmod_periodic(bit * (q / 2), 0, q as int);
            vstd::arithmetic::div_mod::lemma_small_mod((bit * (q / 2)) as nat, q as nat);
            assert forall|k: int| 0 <= k < n implies (#[trigger] a@[k]) as int == fmod(column_sum(am, rows@, k, 0), q as int) by {
                vstd::arithmetic::div_mod::lemma_small_mod(0, q as nat);
            }
        }
        let mut t: usize = 0;
        while t < rows.len()
            invariant
                self.wf(),
                modulus_fits(q as int),
                q == self.q,
                n == self.n,
                am == pk.0@,
                public_key_wf(*pk, self.m as nat, self.n as nat, self.q as int),
                forall|t: int| 0 <= t < rows.len() ==> (#[trigger] rows@[t]) < self.m,
                t <= rows.len(),
                a@.len() == n,
                forall|k: int| 0 <= k < n ==> (#[trigger] a@[k]) as int == fmod(column_sum(am, rows@, k, t as nat), q as int),
                b as int == fmod(bit * (q / 2) + entry_sum(pk.1@, rows@, t as nat), q as int),
            decreases rows.len() - t,
        {
            let row = rows[t];
            let src = &pk.0[row];
            let mut j: usize = 0;
            while j < n
                invariant
                    modulus_fits(q as int),
                    n == self.n,
                    am == pk.0@,
                    t < rows.len(),
                    row == rows@[t as int],
                    row < self.m,
                    src@ == am[row as int]@,
                    src@.len() == n,
                    j <= n,
                    a@.len() == n,
                    forall|k: int| 0 <= k < j ==> (#[trigger] a@[k]) as int == fmod(column_sum(am, rows@, k, (t + 1) as nat), q as int),
                    forall|k: int| j <= k < n ==> (#[trigger] a@[k]) as int == fmod(column_sum(am, rows@, k, t as nat), q as int),
                decreases n - j,
            {
                let old_v = a[j];
                let v = add_mod(old_v, src[j], q);
                proof {
                    let prev = column_sum(am, rows@, j as int, t as nat);
                    vstd::arithmetic::div_mod::lemma_fundamental_div_mod(prev, q as int);
                    lemma_fmod_periodic(prev + src@[j as int], -(prev / q as int), q as int);
                    assert(old_v + src@[j as int] == prev + src@[j as int] + (-(prev / q as int)) * q) by (nonlinear_arith)
                        requires
                            old_v == fmod(prev, q as int),
                            prev == q * (prev / q as int) + fmod(prev, q as int),
                    ;
                }
                a.set(j, v);
                j = j + 1;
            }
            let bi = pk.1[row];
            let ghost prevb = bit * (q / 2) + entry_sum(pk.1@, rows@, t as nat);
            let old_b = b;
            b = add_mod(b, bi, q);
            proof {
                vstd::arithmetic::div_mod::lemma_fundamental_div_mod(prevb, q as int);
                lemma_fmod_periodic(prevb + bi, -(prevb / q as int), q as int);
                assert(old_b + bi == prevb + bi + (-(prevb / q as int)) * q) by (nonlinear_arith)
                    requires
                        old_b == fmod(prevb, q as int),
                        prevb == q * (prevb / q as int) + fmod(prevb, q as int),
                ;
            }
            t = t + 1;
        }
        proof {
            let e = encryption(*pk, bit as int, rows@, self.n as nat, self.q as int);
            assert forall|k: int| 0 <= k < n implies (#[trigger] a@[k]) == e.0[k] by {
                lemma_fmod_periodic(column_sum(am, rows@, k, rows.len() as nat), 0, q as int);
            }
            assert(a@ =~= e.0);
        }
        (a, b)
    }

    /// Encrypts `bit` under `pk` with a uniformly random half of its rows.
    /// A plaintext other than `0` or `1` is refused before anything is drawn.
    pub fn encrypt(&self, pk: &PublicKey, bit: &Plaintext) -> (r: Result<Ciphertext, LweError>)
        requires
            self.wf(),
            public_key_wf(*pk, self.m as nat, self.n as nat, self.q as int),
        ensures
            *bit > 1 <==> r is Err,
            r matches Err(e) ==> e == LweError::InvalidPlaintext,
            r matches Ok(c) ==> exists|rows: Seq<usize>|
                rows.len() == self.m / 2 && rows.no_duplicates() && (forall|t: int| 0 <= t < rows.len() ==> (#[trigger] rows[t]) < self.m)
                    && (c.0@, c.1 as int) == encryption(*pk, *bit as int, rows, self.n as nat, self.q as int),
    {
        if *bit > 1 {
            return Err(LweError::InvalidPlaintext);
        }
        let mut order: Vec<usize> = Vec::new();
        let mut i: usize = 0;
        while i < self.m
            invariant
                i <= self.m,
                order@.len() == i,
                forall|k: int| 0 <= k < i ==> (#[trigger] order@[k]) == k,
            decreases self.m - i,
        {
            order.push(i);
            i = i + 1;
        }
        let ghost before = order@;
        shuffle(&mut order);
        proof {
            assert(before.no_duplicates());
            before.lemma_multiset_has_no_duplicates();
            order@.lemma_multiset_has_no_duplicates_conv();
            assert forall|k: int| 0 <= k < order@.len() implies (#[trigger] order@[k]) < self.m by {
                vstd::seq_lib::to_multiset_contains(order@, order@[k]);
                vstd::seq_lib::to_multiset_contains(before, order@[k]);
                assert(order@.contains(order@[k]));
            }
            assert(order@.len() == before.len()) by {
                order@.to_multiset_ensures();
                before.to_multiset_ensures();
            }
        }
        let half = self.m / 2;
        let mut rows: Vec<usize> = Vec::new();
        let mut t: usize = 0;
        while t < half
            invariant
                half == self.m / 2,
                order@.len() == self.m,
                forall|k: int| 0 <= k < order@.len() ==> (#[trigger] order@[k]) < self.m,
                order@.no_duplicates(),
                t <= half,
                rows@ == order@.subrange(0, t as int),
            decreases half - t,
        {
            rows.push(order[t]);
            t = t + 1;
            assert(rows@ =~= order@.subrange(0, t as int));
        }
        proof {
            assert(rows@.no_duplicates());
            assert(forall|k: int| 0 <= k < rows@.len() ==> (#[trigger] rows@[k]) < self.m);
        }
        Ok(self.encrypt_rows(pk, *bit, &rows))
    }

    /// Recovers the bit of `c`: `1` when `b - a·s (mod q)` lies in the signal
    /// band, else `0`.
    pub fn decrypt(&self, sk: &SecretKey, c: &Ciphertext) -> (r: Plaintext)
        requires
            self.wf(),
            c.0.len() == sk.len(),
            forall|i: int| 0 <= i < c.0.len() ==> c.0@[i] < self.q,
        ensures
            r == decryption(sk@, (c.0@, c.1), self.q as int),
    {
        proof {
            lemma_wf_modulus(*self);
        }
        let q = self.q;
        let v = residual(sk, c, q);
        if in_signal_band(v, q) {
            1
        } else {
            0
        }
    }
}

} // verus!
