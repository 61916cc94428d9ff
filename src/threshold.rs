//! The threshold variant: a committee of parties that jointly generates a
//! public key and jointly decrypts, each holding only shares of the secret key.

use crate::lagrange::{
    basis_den, basis_num, distinct_indices, interpolate, interpolation, sum_den, sum_num, trunc_div, Share,
};
use crate::lwe::{
    decode, modulus_fits, new_rand_big_int_vec, public_key_wf, public_row, rand_matrix, residual,
    secret_key_wf, Ciphertext, Lwe, LweError, Plaintext, PublicKey, SecretKey, dot, encryption,
    lemma_wf_modulus,
};
use crate::mask::rand_from_cipher_and_key;
use crate::ring::{floor_mod, fmod};
use vstd::arithmetic::power2::pow2;
use vstd::math::abs;
use vstd::prelude::*;

verus! {

/// `Σ e_i` over the integers.
pub open spec fn seq_sum(e: Seq<i128>) -> int
    decreases e.len(),
{
    if e.len() == 0 {
        0
    } else {
        seq_sum(e.drop_last()) + e.last()
    }
}

/// The averaged noise that a party uses for each row: the truncated mean of
/// the row's samples, reduced mod `q`.
pub open spec fn averaged_noise(e: Seq<Vec<i128>>, q: int) -> Seq<i64> {
    Seq::new(e.len(), |i: int| fmod(trunc_div(seq_sum(e[i]@), e[i]@.len() as int), q) as i64)
}

/// The shares `(p + 1, partials[p][i])` of row `i`, one per party.
pub open spec fn row_shares(partials: Seq<Vec<u64>>, i: int) -> Seq<Share> {
    Seq::new(partials.len(), |p: int| Share((p + 1) as usize, partials[p]@[i] as i128))
}

/// Every running sum of every noise row fits in `i128`.
pub open spec fn sums_fit(e: Seq<Vec<i128>>) -> bool {
    forall|i: int, k: int|
        0 <= i < e.len() && 0 <= k <= e[i]@.len() ==> crate::lagrange::small(#[trigger] seq_sum(e[i]@.subrange(0, k)))
}

/// One member of the committee.
pub struct Party {
    number: usize,
    committee: usize,
    sk: Option<SecretKey>,
    crypto: Lwe,
    keys: Vec<i128>,
}

impl Party {
    pub closed spec fn spec_number(&self) -> usize {
        self.number
    }

    pub closed spec fn spec_crypto(&self) -> Lwe {
        self.crypto
    }

    /// The size of the committee this party belongs to.
    pub closed spec fn spec_committee(&self) -> usize {
        self.committee
    }

    /// The party's key shares, where key generation has given them.
    pub closed spec fn secret(&self) -> Option<Seq<i64>> {
        match self.sk {
            Some(v) => Some(v@),
            None => None,
        }
    }

    /// How many private blinding values the party holds.
    pub closed spec fn key_count(&self) -> nat {
        self.keys@.len()
    }

    /// The party's private blinding values.
    pub closed spec fn blinding_keys(&self) -> Seq<i128> {
        self.keys@
    }

    /// Key generation has completed for this party.
    pub open spec fn ready(&self) -> bool {
        &&& self.spec_crypto().wf()
        &&& self.secret() is Some
        &&& secret_key_wf(self.secret().unwrap(), self.spec_crypto().n as nat, self.spec_crypto().q as int)
        &&& self.key_count() == 1
    }

    fn new(number: usize, committee: usize, crypto: Lwe) -> (r: Party)
        ensures
            r.spec_number() == number,
            r.spec_committee() == committee,
            r.spec_crypto() == crypto,
            r.secret() is None,
            r.key_count() == 0,
    {
        Party { number, committee, sk: None, keys: Vec::new(), crypto }
    }

    /// A random value of at most `n` bits.
    pub fn rand_value(&self, n: usize) -> (r: i128)
        requires
            n <= 126,
        ensures
            abs(r as int) < pow2(n as nat),
    {
        crate::random::rand_value(n)
    }

    /// This party's partial public values: `A·s_i + ē (mod q)` row by row,
    /// where `ē` is the truncated mean of the noise shares it received for
    /// each row. `None` where a sum leaves `i128`.
    pub fn gen_b(&self, a: &Vec<Vec<u64>>, e: &Vec<Vec<i128>>) -> (r: Option<Vec<u64>>)
        requires
            self.ready(),
            a.len() == e.len(),
            forall|i: int| 0 <= i < e.len() ==> (#[trigger] e@[i])@.len() > 0,
            forall|i: int| 0 <= i < a.len() ==> (#[trigger] a@[i])@.len() == self.spec_crypto().n,
            forall|i: int, j: int|
                0 <= i < a.len() && 0 <= j < self.spec_crypto().n ==> (#[trigger] a@[i]@[j]) < self.spec_crypto().q,
        ensures
            r matches Some(b) ==> b@.len() == a.len() && (forall|i: int|
                0 <= i < a.len() ==> (#[trigger] b@[i]) as int == public_row(
                    a@,
                    self.secret().unwrap(),
                    averaged_noise(e@, self.spec_crypto().q as int),
                    self.spec_crypto().q as int,
                    i,
                )) && (forall|i: int| 0 <= i < a.len() ==> (#[trigger] b@[i]) < self.spec_crypto().q),
            sums_fit(e@) ==> r is Some,
    {
        let q = self.crypto.q;
        proof {
            lemma_wf_modulus(self.crypto);
        }
        let mut avg: Vec<i64> = Vec::new();
        let mut i: usize = 0;
        while i < e.len()
            invariant
                modulus_fits(q as int),
                q == self.crypto.q,
                i <= e.len(),
                forall|i: int| 0 <= i < e.len() ==> (#[trigger] e@[i])@.len() > 0,
                self.ready(),
                avg@.len() == i,
                forall|k: int| 0 <= k < i ==> (#[trigger] avg@[k]) == averaged_noise(e@, q as int)[k],
            decreases e.len() - i,
        {
            let row = &e[i];
            let mut total: i128 = 0;
            let mut k: usize = 0;
            while k < row.len()
                invariant
                    i < e.len(),
                    row@ == e@[i as int]@,
                    k <= row.len(),
                    total == seq_sum(row@.subrange(0, k as int)),
                decreases row.len() - k,
            {
                proof {
                    assert(row@.subrange(0, k + 1).drop_last() =~= row@.subrange(0, k as int));
                    if sums_fit(e@) {
                        assert(crate::lagrange::small(seq_sum(e@[i as int]@.subrange(0, k + 1))));
                    }
                }
                match total.checked_add(row[k]) {
                    Some(v) => {
                        total = v;
                    },
                    None => {
                        return None;
                    },
                }
                k = k + 1;
            }
            proof {
                assert(row@.subrange(0, row@.len() as int) =~= row@);
            }
            let len = row.len() as i128;
            proof {
                let t = total as int;
                let l = len as int;
                assert(l >= 1);
                assert(0 <= (t * -1) / l <= t * -1 || t >= 0) by (nonlinear_arith)
                    requires
                        l >= 1,
                ;
                assert(0 <= t / l <= t || t < 0) by (nonlinear_arith)
                    requires
                        l >= 1,
                ;
            }
            let mean = match total.checked_div(len) {
                Some(v) => v,
                None => {
                    return None;
                },
            };
            let v = floor_mod(mean, q);
            avg.push(v as i64);
            i = i + 1;
        }
        proof {
            assert(avg@ =~= averaged_noise(e@, q as int));
        }
        let sk = match &self.sk {
            Some(s) => s,
            None => {
                return None;
            },
        };
        Some(crate::lwe::gen_b(a, sk, q, &avg))
    }

    /// The blinding value for `c`, derived from the party's private key.
    fn gen_x(&self, c: &Ciphertext) -> (r: u64)
        requires
            self.ready(),
        ensures
            r * r < self.spec_crypto().q,
    {
        proof {
            lemma_wf_modulus(self.crypto);
        }
        rand_from_cipher_and_key(c, self.keys[0], self.crypto.n, self.crypto.q)
    }

    /// The party's blinded partial decryption `(number, x + (b - a·s_i mod q))`.
    fn decrypt1(&self, c: &Ciphertext) -> (r: Share)
        requires
            self.ready(),
            c.0.len() == self.spec_crypto().n,
            forall|i: int| 0 <= i < c.0.len() ==> c.0@[i] < self.spec_crypto().q,
        ensures
            r.0 == self.spec_number(),
            ({
                let e = fmod(c.1 - dot(c.0@, self.secret().unwrap(), c.0.len() as nat), self.spec_crypto().q as int);
                e <= r.1 && (r.1 - e) * (r.1 - e) < self.spec_crypto().q
            }),
    {
        proof {
            lemma_wf_modulus(self.crypto);
        }
        let sk = match &self.sk {
            Some(s) => s,
            None => {
                return Share(self.number, 0);
            },
        };
        let e = residual(sk, c, self.crypto.q);
        let x = self.gen_x(c);
        Share(self.number, (x as i128) + (e as i128))
    }

    /// Combines the committee's partial decryptions: the bit decoded from
    /// their interpolation at `0`. `None` where the interpolation leaves `i128`.
    fn decrypt2(&self, shares: &Vec<Share>) -> (r: Option<Plaintext>)
        requires
            self.spec_crypto().wf(),
            distinct_indices(shares@),
            shares@.len() == self.spec_committee(),
        ensures
            r matches Some(b) ==> b == decode(fmod(interpolation(shares@, 0), self.spec_crypto().q as int), self.spec_crypto().q as int),
            crate::lagrange::fits(shares@, 0) ==> r is Some,
    {
        let q = self.crypto.q;
        proof {
            lemma_wf_modulus(self.crypto);
        }
        let l = interpolate(shares);
        let v = match l.eval(0) {
            Some(v) => v,
            None => {
                return None;
            },
        };
        let m = floor_mod(v, q);
        if crate::ring::in_signal_band(m, q) {
            Some(1)
        } else {
            Some(0)
        }
    }
}

/// Re-shares the noise sample `e`: the polynomial through `(0, e)` and
/// `(k + 1, h_k)`, evaluated at every party number `1..=u`.
fn reshare_error(e: i64, h: &Vec<i128>, u: usize) -> (r: Option<Vec<i128>>)
    ensures
        r matches Some(v) ==> v@.len() == u && forall|p: int|
            0 <= p < u ==> (#[trigger] v@[p]) as int == interpolation(error_shares(e, h@), p + 1),
        (forall|p: int| 0 <= p < u ==> crate::lagrange::fits(error_shares(e, h@), #[trigger] (p + 1))) ==> r is Some,
{
    let mut shares: Vec<Share> = Vec::new();
    shares.push(Share(0, e as i128));
    let mut k: usize = 0;
    while k < h.len()
        invariant
            k <= h.len(),
            shares@ == error_shares(e, h@.subrange(0, k as int)),
        decreases h.len() - k,
    {
        shares.push(Share(k + 1, h[k]));
        k = k + 1;
        assert(shares@ =~= error_shares(e, h@.subrange(0, k as int)));
    }
    assert(h@.subrange(0, h@.len() as int) =~= h@);
    let ghost es = error_shares(e, h@);
    assert(forall|t: int| 0 <= t < es.len() ==> (#[trigger] es[t]).0 == t);
    let l = interpolate(&shares);
    let mut out: Vec<i128> = Vec::new();
    let mut p: usize = 0;
    while p < u
        invariant
            p <= u,
            l@ == es,
            es == error_shares(e, h@),
            distinct_indices(l@),
            out@.len() == p,
            forall|t: int| 0 <= t < p ==> (#[trigger] out@[t]) as int == interpolation(es, t + 1),
        decreases u - p,
    {
        match l.eval(p + 1) {
            Some(v) => out.push(v),
            None => {
                return None;
            },
        }
        p = p + 1;
    }
    Some(out)
}

/// Combines the parties' partial public values row by row: each row's shares
/// `(p + 1, partials[p][i])` are interpolated at `0` and reduced mod `q`.
pub fn combine_rows(partials: &Vec<Vec<u64>>, m: usize, q: u64) -> (r: Option<Vec<u64>>)
    requires
        q > 0,
        forall|p: int| 0 <= p < partials.len() ==> (#[trigger] partials@[p])@.len() == m,
    ensures
        r matches Some(b) ==> b@.len() == m && (forall|i: int|
            0 <= i < m ==> (#[trigger] b@[i]) as int == fmod(interpolation(row_shares(partials@, i), 0), q as int))
            && (forall|i: int| 0 <= i < m ==> (#[trigger] b@[i]) < q),
        (forall|i: int| 0 <= i < m ==> crate::lagrange::fits(#[trigger] row_shares(partials@, i), 0)) ==> r is Some,
{
    let mut b: Vec<u64> = Vec::new();
    let mut i: usize = 0;
    while i < m
        invariant
            q > 0,
            forall|p: int| 0 <= p < partials.len() ==> (#[trigger] partials@[p])@.len() == m,
            i <= m,
            b@.len() == i,
            forall|k: int| 0 <= k < i ==> (#[trigger] b@[k]) as int == fmod(interpolation(row_shares(partials@, k), 0), q as int),
            forall|k: int| 0 <= k < i ==> (#[trigger] b@[k]) < q,
        decreases m - i,
    {
        let mut bs: Vec<Share> = Vec::new();
        let mut p: usize = 0;
        while p < partials.len()
            invariant
                i < m,
                forall|p: int| 0 <= p < partials.len() ==> (#[trigger] partials@[p])@.len() == m,
                p <= partials.len(),
                bs@.len() == p,
                forall|t: int| 0 <= t < p ==> (#[trigger] bs@[t]) == row_shares(partials@, i as int)[t],
            decreases partials.len() - p,
        {
            bs.push(Share(p + 1, partials[p][i] as i128));
            p = p + 1;
        }
        proof {
            assert(bs@ =~= row_shares(partials@, i as int));
        }
        let l = interpolate(&bs);
        let v = match l.eval(0) {
            Some(v) => v,
            None => {
                return None;
            },
        };
        b.push(floor_mod(v, q));
        i = i + 1;
    }
    Some(b)
}

/// The parties are numbered `1..=u` in order and share the parameters `crypto`.
pub open spec fn numbered(parties: Seq<Party>, crypto: Lwe) -> bool {
    &&& forall|i: int| 0 <= i < parties.len() ==> (#[trigger] parties[i]).spec_number() == i + 1
    &&& forall|i: int| 0 <= i < parties.len() ==> (#[trigger] parties[i]).spec_committee() == parties.len()
    &&& forall|i: int| 0 <= i < parties.len() ==> (#[trigger] parties[i]).spec_crypto() == crypto
}

/// The shares `(0, e)` and `(k + 1, h_k)`: a polynomial through the noise
/// sample `e`.
pub open spec fn error_shares(e: i64, h: Seq<i128>) -> Seq<Share> {
    seq![Share(0, e as i128)] + Seq::new(h.len(), |k: int| Share((k + 1) as usize, h[k]))
}

/// What party `p + 1` receives for row `i`: every party's re-shared noise
/// sample for that row, evaluated at `p + 1`.
pub open spec fn received_noise(noise: Seq<Vec<i64>>, helpers: Seq<Vec<Vec<i128>>>, p: int, i: int) -> Seq<i128> {
    Seq::new(noise.len(), |j: int| interpolation(error_shares(noise[j]@[i], helpers[j]@[i]@), p + 1) as i128)
}

/// Party `p + 1`'s noise for each of the `m` rows: the truncated mean of
/// what it received, reduced mod `q`.
pub open spec fn party_noise(noise: Seq<Vec<i64>>, helpers: Seq<Vec<Vec<i128>>>, p: int, m: nat, q: int) -> Seq<i64> {
    Seq::new(m, |i: int| fmod(trunc_div(seq_sum(received_noise(noise, helpers, p, i)), noise.len() as int), q) as i64)
}

/// Row `i` of the parties' partial public values `A·s_p + ē_p (mod q)`,
/// as the shares `(p + 1, value)`.
pub open spec fn expected_row_shares(
    a: Seq<Vec<u64>>,
    parties: Seq<Party>,
    noise: Seq<Vec<i64>>,
    helpers: Seq<Vec<Vec<i128>>>,
    q: int,
    i: int,
) -> Seq<Share> {
    Seq::new(
        parties.len(),
        |p: int|
            Share(
                (p + 1) as usize,
                public_row(a, parties[p].secret().unwrap(), party_noise(noise, helpers, p, a.len(), q), q, i) as i128,
            ),
    )
}

/// Every interpolation and running sum of the joint key generation fits in
/// `i128`.
pub open spec fn public_key_fits(
    a: Seq<Vec<u64>>,
    parties: Seq<Party>,
    noise: Seq<Vec<i64>>,
    helpers: Seq<Vec<Vec<i128>>>,
    q: int,
) -> bool {
    &&& forall|j: int, i: int, p: int|
        0 <= j < noise.len() && 0 <= i < a.len() && 0 <= p < noise.len() ==> crate::lagrange::fits(
            #[trigger] error_shares(noise[j]@[i], helpers[j]@[i]@),
            #[trigger] (p + 1),
        )
    &&& forall|p: int, i: int, k: int|
        0 <= p < noise.len() && 0 <= i < a.len() && 0 <= k <= noise.len() ==> crate::lagrange::small(
            #[trigger] seq_sum(received_noise(noise, helpers, p, i).subrange(0, k)),
        )
    &&& forall|i: int| 0 <= i < a.len() ==> crate::lagrange::fits(#[trigger] expected_row_shares(a, parties, noise, helpers, q, i), 0)
}

/// The values that key generation draws, with the shapes and ranges they are
/// drawn in: `a` has `m` rows of `n` residues below `q`; the parties are
/// keyed and numbered `1..=u`, each with one blinding key of at most `n`
/// bits; `h[j][i]` holds `u / 4` values of at most `n` bits.
pub open spec fn drawn_ok(a: Seq<Vec<u64>>, keyed: Seq<Party>, h: Seq<Vec<Vec<i128>>>, crypto: Lwe) -> bool {
    let n = crypto.n as nat;
    let m = crypto.m as nat;
    let u = keyed.len();
    &&& a.len() == m
    &&& forall|i: int| 0 <= i < m ==> (#[trigger] a[i])@.len() == n
    &&& forall|i: int, k: int| 0 <= i < m && 0 <= k < n ==> (#[trigger] a[i]@[k]) < crypto.q
    &&& committee_ready(keyed, crypto)
    &&& forall|p: int| 0 <= p < u ==> abs((#[trigger] keyed[p]).blinding_keys()[0] as int) < pow2(n)
    &&& h.len() == u
    &&& forall|j: int| 0 <= j < u ==> (#[trigger] h[j])@.len() == m
    &&& forall|j: int, i: int| 0 <= j < u && 0 <= i < m ==> (#[trigger] h[j]@[i])@.len() == u / 4
    &&& forall|j: int, i: int, k: int|
        0 <= j < u && 0 <= i < m && 0 <= k < u / 4 ==> abs((#[trigger] h[j]@[i]@[k]) as int) < pow2(n)
}

/// The outcome of key generation from the drawn values `a`, `keyed`, `h`:
/// on success `A` is `a`, the parties are `keyed` and `b` is derived from
/// them and `noise`; success is owed whenever every value formed fits.
pub open spec fn keygen_outcome(
    r: Option<PublicKey>,
    after: Seq<Party>,
    noise: Seq<Vec<i64>>,
    a: Seq<Vec<u64>>,
    keyed: Seq<Party>,
    h: Seq<Vec<Vec<i128>>>,
    crypto: Lwe,
) -> bool {
    &&& drawn_ok(a, keyed, h, crypto)
    &&& r matches Some(pk) ==> pk.0@ == a && after == keyed && key_from(pk, keyed, noise, h, crypto.q as int)
    &&& public_key_fits(a, keyed, noise, h, crypto.q as int) ==> r is Some
}

/// A single share `(0, e)` interpolates to `e` everywhere, within `i128`.
proof fn lemma_single_share(e: i64, x: int)
    ensures
        crate::lagrange::fits(error_shares(e, Seq::empty()), x),
        interpolation(error_shares(e, Seq::empty()), x) == e,
{
    let s = error_shares(e, Seq::empty());
    assert(s =~= seq![Share(0, e as i128)]);
    assert(basis_num(s, 0, x, 0) == 1);
    assert(basis_num(s, 0, x, 1) == 1);
    assert(basis_den(s, 0, 0) == 1);
    assert(basis_den(s, 0, 1) == 1);
    assert(sum_den(s, 0) == 1);
    assert(sum_den(s, 1) == 1);
    assert(sum_num(s, x, 0) == 0);
    assert(sum_num(s, x, 1) == e);
    assert(abs(e as int) / 1 == abs(e as int));
    assert(crate::lagrange::basis_fits(s, 0, x));
    assert(crate::lagrange::step_fits(s, x, 0));
}

proof fn lemma_seq_sum_bound(s: Seq<i128>, b: int)
    requires
        b >= 0,
        forall|k: int| 0 <= k < s.len() ==> abs(#[trigger] s[k] as int) <= b,
    ensures
        abs(seq_sum(s)) <= s.len() * b,
    decreases s.len(),
{
    if s.len() > 0 {
        lemma_seq_sum_bound(s.drop_last(), b);
        assert(abs(s.last() as int) <= b);
        assert((s.len() - 1) * b + b == s.len() * b) by (nonlinear_arith);
    }
}

/// Shares `(1, y_1), ..., (u, y_u)` with `u <= 3` and residues `y_p` below
/// `2⁶³` interpolate at `0` within `i128`.
proof fn lemma_small_row_fits(s: Seq<Share>)
    requires
        1 <= s.len() <= 3,
        forall|p: int| 0 <= p < s.len() ==> (#[trigger] s[p]).0 == p + 1,
        forall|p: int| 0 <= p < s.len() ==> 0 <= (#[trigger] s[p]).1 < 0x8000_0000_0000_0000,
    ensures
        crate::lagrange::fits(s, 0),
{
    reveal_with_fuel(basis_num, 4);
    reveal_with_fuel(basis_den, 4);
    reveal_with_fuel(sum_num, 4);
    reveal_with_fuel(sum_den, 4);
    let n = s.len();
    assert(s[0].0 == 1);
    if n >= 2 {
        assert(s[1].0 == 2);
    }
    if n >= 3 {
        assert(s[2].0 == 3);
    }
    let y0 = s[0].1 as int;
    let y1 = if n >= 2 { s[1].1 as int } else { 0 };
    let y2 = if n >= 3 { s[2].1 as int } else { 0 };
    assert forall|j: int| 0 <= j < n implies #[trigger] crate::lagrange::step_fits(s, 0, j) by {
        if n == 1 {
            assert(basis_num(s, 0, 0, 0) == 1);
            assert(basis_den(s, 0, 0) == 1);
            assert(basis_num(s, 0, 0, 1) == 1);
            assert(basis_den(s, 0, 1) == 1);
            assert(sum_den(s, 0) == 1);
            assert(sum_num(s, 0, 0) == 0);
            assert(sum_den(s, 1) == 1);
            assert(sum_num(s, 0, 1) == (1) * y0);
        }
        if n == 2 {
            assert(basis_num(s, 0, 0, 0) == 1);
            assert(basis_den(s, 0, 0) == 1);
            assert(basis_num(s, 0, 0, 1) == 1);
            assert(basis_den(s, 0, 1) == 1);
            assert(basis_num(s, 0, 0, 2) == -2);
            assert(basis_den(s, 0, 2) == -1);
            assert(basis_num(s, 1, 0, 0) == 1);
            assert(basis_den(s, 1, 0) == 1);
            assert(basis_num(s, 1, 0, 1) == -1);
            assert(basis_den(s, 1, 1) == 1);
            assert(basis_num(s, 1, 0, 2) == -1);
            assert(basis_den(s, 1, 2) == 1);
            assert(sum_den(s, 0) == 1);
            assert(sum_num(s, 0, 0) == 0);
            assert(sum_den(s, 1) == -1);
            assert(sum_num(s, 0, 1) == (-2) * y0 + (0) * y1);
            assert(sum_den(s, 2) == -1);
            assert(sum_num(s, 0, 2) == (-2) * y0 + (1) * y1);
        }
        if n == 3 {
            assert(basis_num(s, 0, 0, 0) == 1);
            assert(basis_den(s, 0, 0) == 1);
            assert(basis_num(s, 0, 0, 1) == 1);
            assert(basis_den(s, 0, 1) == 1);
            assert(basis_num(s, 0, 0, 2) == -2);
            assert(basis_den(s, 0, 2) == -1);
            assert(basis_num(s, 0, 0, 3) == 6);
            assert(basis_den(s, 0, 3) == 2);
            assert(basis_num(s, 1, 0, 0) == 1);
            assert(basis_den(s, 1, 0) == 1);
            assert(basis_num(s, 1, 0, 1) == -1);
            assert(basis_den(s, 1, 1) == 1);
            assert(basis_num(s, 1, 0, 2) == -1);
            assert(basis_den(s, 1, 2) == 1);
            assert(basis_num(s, 1, 0, 3) == 3);
            assert(basis_den(s, 1, 3) == -1);
            assert(basis_num(s, 2, 0, 0) == 1);
            assert(basis_den(s, 2, 0) == 1);
            assert(basis_num(s, 2, 0, 1) == -1);
            assert(basis_den(s, 2, 1) == 2);
            assert(basis_num(s, 2, 0, 2) == 2);
            assert(basis_den(s, 2, 2) == 2);
            assert(basis_num(s, 2, 0, 3) == 2);
            assert(basis_den(s, 2, 3) == 2);
            assert(sum_den(s, 0) == 1);
            assert(sum_num(s, 0, 0) == 0);
            assert(sum_den(s, 1) == 2);
            assert(sum_num(s, 0, 1) == (6) * y0 + (0) * y1 + (0) * y2);
            assert(sum_den(s, 2) == -2);
            assert(sum_num(s, 0, 2) == (-6) * y0 + (6) * y1 + (0) * y2);
            assert(sum_den(s, 3) == -4);
            assert(sum_num(s, 0, 3) == (-12) * y0 + (12) * y1 + (-4) * y2);
        }
        assert(crate::lagrange::basis_fits(s, j, 0));
    }
}

/// With at most three parties no coefficients are drawn for re-sharing, and
/// every value that key generation forms fits in `i128`.
pub proof fn lemma_small_committee_fits(a: Seq<Vec<u64>>, keyed: Seq<Party>, noise: Seq<Vec<i64>>, h: Seq<Vec<Vec<i128>>>, crypto: Lwe)
    requires
        drawn_ok(a, keyed, h, crypto),
        crypto.wf(),
        keyed.len() <= 3,
        noise.len() == keyed.len(),
        forall|j: int| 0 <= j < noise.len() ==> (#[trigger] noise[j])@.len() == a.len(),
    ensures
        public_key_fits(a, keyed, noise, h, crypto.q as int),
{
    let u = keyed.len();
    let q = crypto.q as int;
    lemma_wf_modulus(crypto);
    assert forall|j: int, i: int, p: int|
        0 <= j < noise.len() && 0 <= i < a.len() && 0 <= p < noise.len() implies crate::lagrange::fits(
        #[trigger] error_shares(noise[j]@[i], h[j]@[i]@),
        #[trigger] (p + 1),
    ) by {
        assert(h[j]@[i]@ =~= Seq::<i128>::empty());
        lemma_single_share(noise[j]@[i], p + 1);
    }
    assert forall|p: int, i: int, k: int|
        0 <= p < noise.len() && 0 <= i < a.len() && 0 <= k <= noise.len() implies crate::lagrange::small(
        #[trigger] seq_sum(received_noise(noise, h, p, i).subrange(0, k)),
    ) by {
        let rn = received_noise(noise, h, p, i).subrange(0, k);
        assert forall|t: int| 0 <= t < rn.len() implies abs(#[trigger] rn[t] as int) <= 0x8000_0000_0000_0000 by {
            assert(h[t]@[i]@ =~= Seq::<i128>::empty());
            lemma_single_share(noise[t]@[i], p + 1);
        }
        lemma_seq_sum_bound(rn, 0x8000_0000_0000_0000);
        assert(rn.len() * 0x8000_0000_0000_0000 <= 3 * 0x8000_0000_0000_0000) by (nonlinear_arith)
            requires
                rn.len() <= 3,
        ;
    }
    assert forall|i: int| 0 <= i < a.len() implies crate::lagrange::fits(
        #[trigger] expected_row_shares(a, keyed, noise, h, q, i),
        0,
    ) by {
        let rs = expected_row_shares(a, keyed, noise, h, q, i);
        assert forall|p: int| 0 <= p < rs.len() implies 0 <= (#[trigger] rs[p]).1 < 0x4000_0000_0000_0000 by {
            crate::ring::lemma_fmod_periodic(
                dot(a[i]@, keyed[p].secret().unwrap(), keyed[p].secret().unwrap().len()) + party_noise(noise, h, p, a.len(), q)[i],
                0,
                q,
            );
        }
        lemma_small_row_fits(rs);
    }
}

/// `Σ_p w_p x_p` with the integer Lagrange weights at `0` of the indices
/// `1..=u`, for `u <= 3`: `(1)`, `(2, -1)` and `(3, -3, 1)`.
pub open spec fn weighted(u: nat, x0: int, x1: int, x2: int) -> int {
    if u == 1 {
        x0
    } else if u == 2 {
        2 * x0 - x1
    } else {
        3 * x0 - 3 * x1 + x2
    }
}

/// The key shares of party `p + 1`.
pub open spec fn key_share(parties: Seq<Party>, p: int) -> Seq<i64> {
    parties[p].secret().unwrap()
}

/// The secret key the shares of a committee of at most three stand for:
/// their interpolation at `0`, coordinate by coordinate.
pub open spec fn joint_key(parties: Seq<Party>, n: nat) -> Seq<int> {
    Seq::new(
        n,
        |j: int|
            weighted(
                parties.len(),
                key_share(parties, 0)[j] as int,
                key_share(parties, 1)[j] as int,
                key_share(parties, 2)[j] as int,
            ),
    )
}

/// `Σ_{j < k} a_j · s_j` over the integers.
pub open spec fn dot_int(a: Seq<u64>, s: Seq<int>, k: nat) -> int
    decreases k,
{
    if k == 0 {
        0
    } else {
        dot_int(a, s, (k - 1) as nat) + a[k - 1] * s[k - 1]
    }
}

/// The truncated mean of the committee's noise samples for row `i`.
pub open spec fn common_noise(noise: Seq<Vec<i64>>, i: int) -> int {
    trunc_div(seq_sum(Seq::new(noise.len(), |j: int| noise[j]@[i] as i128)), noise.len() as int)
}

proof fn lemma_trunc_div_exact(k: int, c: int)
    requires
        c != 0,
    ensures
        trunc_div(k * c, c) == k,
{
    assert(abs(k * c) == abs(k) * abs(c)) by (nonlinear_arith);
    vstd::arithmetic::div_mod::lemma_div_by_multiple(abs(k) as int, abs(c) as int);
    assert((abs(k) as int * abs(c) as int) / (abs(c) as int) == abs(k));
    if k == 0 {
        assert(k * c == 0);
    } else if k > 0 {
        assert((k * c >= 0) == (c >= 0)) by (nonlinear_arith)
            requires
                k > 0,
                c != 0,
        ;
    } else {
        assert((k * c >= 0) != (c >= 0)) by (nonlinear_arith)
            requires
                k < 0,
                c != 0,
        ;
    }
}

/// For indices `1..=u`, `u <= 3`, the interpolation at `0` is the weighted sum.
proof fn lemma_small_row_value(s: Seq<Share>)
    requires
        1 <= s.len() <= 3,
        forall|p: int| 0 <= p < s.len() ==> (#[trigger] s[p]).0 == p + 1,
    ensures
        interpolation(s, 0) == weighted(
            s.len(),
            s[0].1 as int,
            if s.len() >= 2 { s[1].1 as int } else { 0 },
            if s.len() >= 3 { s[2].1 as int } else { 0 },
        ),
{
    reveal_with_fuel(basis_num, 4);
    reveal_with_fuel(basis_den, 4);
    reveal_with_fuel(sum_num, 4);
    reveal_with_fuel(sum_den, 4);
    let n = s.len();
    let y0 = s[0].1 as int;
    assert(s[0].0 == 1);
    if n == 1 {
        assert(sum_den(s, 1) == 1);
        assert(sum_num(s, 0, 1) == y0 * 1);
        lemma_trunc_div_exact(y0, 1);
    } else if n == 2 {
        let y1 = s[1].1 as int;
        assert(s[1].0 == 2);
        assert(basis_num(s, 0, 0, 0) == 1);
        assert(basis_den(s, 0, 0) == 1);
        assert(basis_num(s, 0, 0, 1) == 1);
        assert(basis_den(s, 0, 1) == 1);
        assert(basis_num(s, 0, 0, 2) == -2);
        assert(basis_den(s, 0, 2) == -1);
        assert(basis_num(s, 1, 0, 0) == 1);
        assert(basis_den(s, 1, 0) == 1);
        assert(basis_num(s, 1, 0, 1) == -1);
        assert(basis_den(s, 1, 1) == 1);
        assert(basis_num(s, 1, 0, 2) == -1);
        assert(basis_den(s, 1, 2) == 1);
        assert(sum_den(s, 0) == 1);
        assert(sum_num(s, 0, 0) == 0);
        assert(sum_den(s, 1) == -1);
        assert(sum_num(s, 0, 1) == (-2) * y0 + (0) * y1);
        assert(sum_den(s, 2) == -1);
        assert(sum_num(s, 0, 2) == (-2) * y0 + (1) * y1);
        assert(sum_den(s, 2) == -1);
        assert(sum_num(s, 0, 2) == (2 * y0 - y1) * -1);
        lemma_trunc_div_exact(2 * y0 - y1, -1);
    } else {
        let y1 = s[1].1 as int;
        let y2 = s[2].1 as int;
        assert(s[1].0 == 2);
        assert(s[2].0 == 3);
        assert(basis_num(s, 0, 0, 0) == 1);
        assert(basis_den(s, 0, 0) == 1);
        assert(basis_num(s, 0, 0, 1) == 1);
        assert(basis_den(s, 0, 1) == 1);
        assert(basis_num(s, 0, 0, 2) == -2);
        assert(basis_den(s, 0, 2) == -1);
        assert(basis_num(s, 0, 0, 3) == 6);
        assert(basis_den(s, 0, 3) == 2);
        assert(basis_num(s, 1, 0, 0) == 1);
        assert(basis_den(s, 1, 0) == 1);
        assert(basis_num(s, 1, 0, 1) == -1);
        assert(basis_den(s, 1, 1) == 1);
        assert(basis_num(s, 1, 0, 2) == -1);
        assert(basis_den(s, 1, 2) == 1);
        assert(basis_num(s, 1, 0, 3) == 3);
        assert(basis_den(s, 1, 3) == -1);
        assert(basis_num(s, 2, 0, 0) == 1);
        assert(basis_den(s, 2, 0) == 1);
        assert(basis_num(s, 2, 0, 1) == -1);
        assert(basis_den(s, 2, 1) == 2);
        assert(basis_num(s, 2, 0, 2) == 2);
        assert(basis_den(s, 2, 2) == 2);
        assert(basis_num(s, 2, 0, 3) == 2);
        assert(basis_den(s, 2, 3) == 2);
        assert(sum_den(s, 0) == 1);
        assert(sum_num(s, 0, 0) == 0);
        assert(sum_den(s, 1) == 2);
        assert(sum_num(s, 0, 1) == (6) * y0 + (0) * y1 + (0) * y2);
        assert(sum_den(s, 2) == -2);
        assert(sum_num(s, 0, 2) == (-6) * y0 + (6) * y1 + (0) * y2);
        assert(sum_den(s, 3) == -4);
        assert(sum_num(s, 0, 3) == (-12) * y0 + (12) * y1 + (-4) * y2);
        assert(sum_den(s, 3) == -4);
        assert(sum_num(s, 0, 3) == (3 * y0 - 3 * y1 + y2) * -4);
        lemma_trunc_div_exact(3 * y0 - 3 * y1 + y2, -4);
    }
}

proof fn lemma_weighted_dot(a: Seq<u64>, parties: Seq<Party>, n: nat, k: nat)
    requires
        1 <= parties.len() <= 3,
        k <= n,
    ensures
        dot_int(a, joint_key(parties, n), k) == weighted(
            parties.len(),
            dot(a, key_share(parties, 0), k),
            dot(a, key_share(parties, 1), k),
            dot(a, key_share(parties, 2), k),
        ),
    decreases k,
{
    if k > 0 {
        lemma_weighted_dot(a, parties, n, (k - 1) as nat);
        let j = k - 1;
        let x = a[j] as int;
        let s0 = key_share(parties, 0)[j] as int;
        let s1 = key_share(parties, 1)[j] as int;
        let s2 = key_share(parties, 2)[j] as int;
        assert(joint_key(parties, n)[j] == weighted(parties.len(), s0, s1, s2));
        assert(x * (2 * s0 - s1) == 2 * (x * s0) - x * s1) by (nonlinear_arith);
        assert(x * (3 * s0 - 3 * s1 + s2) == 3 * (x * s0) - 3 * (x * s1) + x * s2) by (nonlinear_arith);
    }
}

proof fn lemma_weighted_cong(u: nat, x0: int, x1: int, x2: int, q: int)
    requires
        1 <= u <= 3,
        q > 0,
    ensures
        fmod(weighted(u, fmod(x0, q), fmod(x1, q), fmod(x2, q)), q) == fmod(weighted(u, x0, x1, x2), q),
{
    let k0 = x0 / q;
    let k1 = x1 / q;
    let k2 = x2 / q;
    vstd::arithmetic::div_mod::lemma_fundamental_div_mod(x0, q);
    vstd::arithmetic::div_mod::lemma_fundamental_div_mod(x1, q);
    vstd::arithmetic::div_mod::lemma_fundamental_div_mod(x2, q);
    let w = weighted(u, x0, x1, x2);
    let kk = if u == 1 { -k0 } else if u == 2 { -2 * k0 + k1 } else { -3 * k0 + 3 * k1 - k2 };
    assert(weighted(u, fmod(x0, q), fmod(x1, q), fmod(x2, q)) == w + kk * q) by (nonlinear_arith)
        requires
            x0 == q * k0 + fmod(x0, q),
            x1 == q * k1 + fmod(x1, q),
            x2 == q * k2 + fmod(x2, q),
            w == weighted(u, x0, x1, x2),
            kk == (if u == 1 { -k0 } else if u == 2 { -2 * k0 + k1 } else { -3 * k0 + 3 * k1 - k2 }),
            1 <= u <= 3,
    ;
    crate::ring::lemma_fmod_periodic(w, kk, q);
}

/// With a committee of at most three parties, key generation gives the
/// public key of the joint secret key: every `b_i` is
/// `A_i · s + ē_i (mod q)`, where `s` is the interpolation at `0` of the
/// parties' key shares and `ē_i` the truncated mean of the committee's noise
/// samples for row `i`. With zero noise, `b = A·s (mod q)`.
pub proof fn lemma_small_committee_key(
    pk: PublicKey,
    keyed: Seq<Party>,
    noise: Seq<Vec<i64>>,
    h: Seq<Vec<Vec<i128>>>,
    crypto: Lwe,
)
    requires
        drawn_ok(pk.0@, keyed, h, crypto),
        crypto.wf(),
        keyed.len() <= 3,
        noise.len() == keyed.len(),
        forall|j: int| 0 <= j < noise.len() ==> (#[trigger] noise[j])@.len() == crypto.m,
        key_from(pk, keyed, noise, h, crypto.q as int),
        pk.1@.len() == crypto.m,
    ensures
        forall|i: int| 0 <= i < crypto.m ==> (#[trigger] pk.1@[i]) as int == fmod(
            dot_int(pk.0@[i]@, joint_key(keyed, crypto.n as nat), crypto.n as nat) + common_noise(noise, i),
            crypto.q as int,
        ),
{
    let a = pk.0@;
    let q = crypto.q as int;
    let n = crypto.n as nat;
    let m = crypto.m as nat;
    let u = keyed.len();
    lemma_wf_modulus(crypto);
    assert forall|i: int| 0 <= i < m implies (#[trigger] pk.1@[i]) as int == fmod(
        dot_int(a[i]@, joint_key(keyed, n), n) + common_noise(noise, i),
        q,
    ) by {
        let rs = expected_row_shares(a, keyed, noise, h, q, i);
        let e = common_noise(noise, i);
        // every party received the raw samples, so all use the same noise
        assert forall|p: int| 0 <= p < u implies #[trigger] party_noise(noise, h, p, m, q)[i] == fmod(e, q) by {
            assert forall|j: int| 0 <= j < u implies #[trigger] received_noise(noise, h, p, i)[j] == noise[j]@[i] as i128 by {
                assert(h[j]@[i]@ =~= Seq::<i128>::empty());
                lemma_single_share(noise[j]@[i], p + 1);
            }
            assert(received_noise(noise, h, p, i) =~= Seq::new(noise.len(), |j: int| noise[j]@[i] as i128));
            crate::ring::lemma_fmod_periodic(e, 0, q);
        }
        let x0 = dot(a[i]@, key_share(keyed, 0), n) + fmod(e, q);
        let x1 = dot(a[i]@, key_share(keyed, 1), n) + fmod(e, q);
        let x2 = dot(a[i]@, key_share(keyed, 2), n) + fmod(e, q);
        assert(keyed[0].ready());
        assert(rs[0].1 as int == fmod(x0, q)) by {
            crate::ring::lemma_fmod_periodic(x0, 0, q);
        }
        if u >= 2 {
            assert(keyed[1].ready());
            assert(rs[1].1 as int == fmod(x1, q)) by {
                crate::ring::lemma_fmod_periodic(x1, 0, q);
            }
        }
        if u >= 3 {
            assert(keyed[2].ready());
            assert(rs[2].1 as int == fmod(x2, q)) by {
                crate::ring::lemma_fmod_periodic(x2, 0, q);
            }
        }
        assert(forall|p: int| 0 <= p < rs.len() ==> (#[trigger] rs[p]).0 == p + 1);
        lemma_small_row_value(rs);
        lemma_weighted_cong(u, x0, x1, x2, q);
        lemma_weighted_dot(a[i]@, keyed, n, n);
        let d = dot_int(a[i]@, joint_key(keyed, n), n);
        assert(weighted(u, x0, x1, x2) == d + fmod(e, q));
        vstd::arithmetic::div_mod::lemma_fundamental_div_mod(e, q);
        crate::ring::lemma_fmod_periodic(d + e, -(e / q), q);
        assert(d + fmod(e, q) == d + e + (-(e / q)) * q) by (nonlinear_arith)
            requires
                e == q * (e / q) + fmod(e, q),
        ;
        crate::ring::lemma_fmod_periodic(weighted(u, fmod(x0, q), fmod(x1, q), fmod(x2, q)), 0, q);
    }
}

/// `b` is, row by row, the interpolation at `0` of the parties' partial
/// public values for the noise `noise` re-shared with `helpers`.
pub open spec fn key_from(pk: PublicKey, parties: Seq<Party>, noise: Seq<Vec<i64>>, helpers: Seq<Vec<Vec<i128>>>, q: int) -> bool {
    forall|i: int|
        0 <= i < pk.1@.len() ==> (#[trigger] pk.1@[i]) as int == fmod(
            interpolation(expected_row_shares(pk.0@, parties, noise, helpers, q, i), 0),
            q,
        )
}

/// `share` is `party`'s partial decryption of `c`: its number, and its
/// residual `b - a·s_p (mod q)` plus a blinding value below `√q`.
pub open spec fn partial_decryption(share: Share, c: (Seq<u64>, u64), party: Party, q: int) -> bool {
    let e = fmod(c.1 - dot(c.0, party.secret().unwrap(), c.0.len() as nat), q);
    &&& share.0 == party.spec_number()
    &&& e <= share.1
    &&& (share.1 - e) * (share.1 - e) < q
}

/// One partial decryption of `c` from each party, in order.
pub open spec fn decryption_shares(sh: Seq<Share>, c: (Seq<u64>, u64), parties: Seq<Party>, q: int) -> bool {
    &&& sh.len() == parties.len()
    &&& forall|i: int| 0 <= i < sh.len() ==> (#[trigger] sh[i]).0 == i + 1
    &&& forall|i: int| 0 <= i < sh.len() ==> #[trigger] partial_decryption(sh[i], c, parties[i], q)
}

/// Every party reports the bit decoded from the interpolation at `0` of
/// `sh`, and a result is given whenever that interpolation fits in `i128`.
pub open spec fn decided_by(r: Option<Vec<(usize, Plaintext)>>, sh: Seq<Share>, q: int) -> bool {
    &&& r matches Some(v) ==> v@.len() == sh.len() && forall|i: int|
        0 <= i < v@.len() ==> (#[trigger] v@[i]).0 == i + 1 && v@[i].1 == decode(fmod(interpolation(sh, 0), q), q)
    &&& crate::lagrange::fits(sh, 0) ==> r is Some
}

/// The public key's `b` from the committee's drawn values: each party's
/// noise re-shared with `helpers`, each party's partial public values from
/// its key shares and `a`, and their row-wise interpolation at `0`.
pub fn public_key_from(
    parties: &Vec<Party>,
    a: &Vec<Vec<u64>>,
    noise: &Vec<Vec<i64>>,
    helpers: &Vec<Vec<Vec<i128>>>,
    q: u64,
) -> (r: Option<Vec<u64>>)
    requires
        parties@.len() >= 1,
        noise@.len() == parties@.len(),
        helpers@.len() == parties@.len(),
        forall|j: int| 0 <= j < noise@.len() ==> (#[trigger] noise@[j])@.len() == a@.len(),
        forall|j: int| 0 <= j < helpers@.len() ==> (#[trigger] helpers@[j])@.len() == a@.len(),
        forall|p: int| 0 <= p < parties@.len() ==> (#[trigger] parties@[p]).ready(),
        forall|p: int| 0 <= p < parties@.len() ==> (#[trigger] parties@[p]).spec_crypto().q == q,
        forall|p: int| 0 <= p < parties@.len() ==> (#[trigger] parties@[p]).spec_crypto().n == parties@[0].spec_crypto().n,
        forall|i: int| 0 <= i < a@.len() ==> (#[trigger] a@[i])@.len() == parties@[0].spec_crypto().n,
        forall|i: int, k: int| 0 <= i < a@.len() && 0 <= k < parties@[0].spec_crypto().n ==> (#[trigger] a@[i]@[k]) < q,
    ensures
        r matches Some(b) ==> b@.len() == a@.len() && key_from((*a, b), parties@, noise@, helpers@, q as int)
            && forall|i: int| 0 <= i < a@.len() ==> (#[trigger] b@[i]) < q,
        public_key_fits(a@, parties@, noise@, helpers@, q as int) ==> r is Some,
{
    let u = parties.len();
    let m = a.len();
    let ghost n = parties@[0].spec_crypto().n;
    let ghost fit = public_key_fits(a@, parties@, noise@, helpers@, q as int);
    proof {
        assert(parties@[0].ready());
        lemma_wf_modulus(parties@[0].spec_crypto());
    }
    // evals[j][row][p] is party j + 1's noise for `row`, as sent to party p + 1.
    let mut evals: Vec<Vec<Vec<i128>>> = Vec::new();
    let mut j: usize = 0;
    while j < u
        invariant
            u == noise.len(),
            u == helpers.len(),
            m == a@.len(),
            fit == public_key_fits(a@, parties@, noise@, helpers@, q as int),
            forall|j: int| 0 <= j < noise@.len() ==> (#[trigger] noise@[j])@.len() == m,
            forall|j: int| 0 <= j < helpers@.len() ==> (#[trigger] helpers@[j])@.len() == m,
            j <= u,
            evals@.len() == j,
            forall|x: int| 0 <= x < j ==> (#[trigger] evals@[x])@.len() == m,
            forall|x: int, y: int| 0 <= x < j && 0 <= y < m ==> (#[trigger] evals@[x]@[y])@.len() == u,
            forall|x: int, y: int, p: int|
                0 <= x < j && 0 <= y < m && 0 <= p < u ==> (#[trigger] evals@[x]@[y]@[p]) as int == interpolation(
                    error_shares(noise@[x]@[y], helpers@[x]@[y]@),
                    p + 1,
                ),
        decreases u - j,
    {
        let mut rows: Vec<Vec<i128>> = Vec::new();
        let mut row: usize = 0;
        while row < m
            invariant
                u == noise.len(),
                u == helpers.len(),
                m == a@.len(),
                j < u,
                fit == public_key_fits(a@, parties@, noise@, helpers@, q as int),
                noise@[j as int]@.len() == m,
                helpers@[j as int]@.len() == m,
                row <= m,
                rows@.len() == row,
                forall|y: int| 0 <= y < row ==> (#[trigger] rows@[y])@.len() == u,
                forall|y: int, p: int|
                    0 <= y < row && 0 <= p < u ==> (#[trigger] rows@[y]@[p]) as int == interpolation(
                        error_shares(noise@[j as int]@[y], helpers@[j as int]@[y]@),
                        p + 1,
                    ),
            decreases m - row,
        {
            let shared = match reshare_error(noise[j][row], &helpers[j][row], u) {
                Some(v) => v,
                None => {
                    proof {
                        let es = error_shares(noise@[j as int]@[row as int], helpers@[j as int]@[row as int]@);
                        let p = choose|p: int| 0 <= p < u && !crate::lagrange::fits(es, #[trigger] (p + 1));
                        assert(!crate::lagrange::fits(es, p + 1));
                    }
                    return None;
                },
            };
            rows.push(shared);
            row = row + 1;
        }
        evals.push(rows);
        j = j + 1;
    }

    let mut partials: Vec<Vec<u64>> = Vec::new();
    let mut p: usize = 0;
    while p < u
        invariant
            u == noise.len(),
            u == helpers.len(),
            u == parties@.len(),
            m == a@.len(),
            fit == public_key_fits(a@, parties@, noise@, helpers@, q as int),
            forall|p: int| 0 <= p < parties@.len() ==> (#[trigger] parties@[p]).ready(),
            forall|p: int| 0 <= p < parties@.len() ==> (#[trigger] parties@[p]).spec_crypto().q == q,
            forall|p: int| 0 <= p < parties@.len() ==> (#[trigger] parties@[p]).spec_crypto().n == n,
            forall|i: int| 0 <= i < m ==> (#[trigger] a@[i])@.len() == n,
            forall|i: int, k: int| 0 <= i < m && 0 <= k < n ==> (#[trigger] a@[i]@[k]) < q,
            evals@.len() == u,
            forall|x: int| 0 <= x < u ==> (#[trigger] evals@[x])@.len() == m,
            forall|x: int, y: int| 0 <= x < u && 0 <= y < m ==> (#[trigger] evals@[x]@[y])@.len() == u,
            forall|x: int, y: int, p: int|
                0 <= x < u && 0 <= y < m && 0 <= p < u ==> (#[trigger] evals@[x]@[y]@[p]) as int == interpolation(
                    error_shares(noise@[x]@[y], helpers@[x]@[y]@),
                    p + 1,
                ),
            p <= u,
            partials@.len() == p,
            forall|x: int| 0 <= x < p ==> (#[trigger] partials@[x])@.len() == m,
            forall|x: int, i: int| 0 <= x < p && 0 <= i < m ==> (#[trigger] partials@[x]@[i]) as int == public_row(
                a@,
                parties@[x].secret().unwrap(),
                party_noise(noise@, helpers@, x, m as nat, q as int),
                q as int,
                i,
            ),
            forall|x: int, i: int| 0 <= x < p && 0 <= i < m ==> (#[trigger] partials@[x]@[i]) < q,
        decreases u - p,
    {
        let mut es: Vec<Vec<i128>> = Vec::new();
        let mut row: usize = 0;
        while row < m
            invariant
                u >= 1,
                p < u,
                u == noise.len(),
                evals@.len() == u,
                forall|x: int| 0 <= x < u ==> (#[trigger] evals@[x])@.len() == m,
                forall|x: int, y: int| 0 <= x < u && 0 <= y < m ==> (#[trigger] evals@[x]@[y])@.len() == u,
                forall|x: int, y: int, p: int|
                    0 <= x < u && 0 <= y < m && 0 <= p < u ==> (#[trigger] evals@[x]@[y]@[p]) as int == interpolation(
                        error_shares(noise@[x]@[y], helpers@[x]@[y]@),
                        p + 1,
                    ),
                row <= m,
                es@.len() == row,
                forall|y: int| 0 <= y < row ==> (#[trigger] es@[y])@ == received_noise(noise@, helpers@, p as int, y),
            decreases m - row,
        {
            let mut col: Vec<i128> = Vec::new();
            let mut j: usize = 0;
            while j < u
                invariant
                    p < u,
                    row < m,
                    u == noise.len(),
                    evals@.len() == u,
                    forall|x: int| 0 <= x < u ==> (#[trigger] evals@[x])@.len() == m,
                    forall|x: int, y: int| 0 <= x < u && 0 <= y < m ==> (#[trigger] evals@[x]@[y])@.len() == u,
                    forall|x: int, y: int, p: int|
                        0 <= x < u && 0 <= y < m && 0 <= p < u ==> (#[trigger] evals@[x]@[y]@[p]) as int == interpolation(
                            error_shares(noise@[x]@[y], helpers@[x]@[y]@),
                            p + 1,
                        ),
                    j <= u,
                    col@.len() == j,
                    forall|x: int| 0 <= x < j ==> (#[trigger] col@[x]) == received_noise(noise@, helpers@, p as int, row as int)[x],
                decreases u - j,
            {
                col.push(evals[j][row][p]);
                j = j + 1;
            }
            assert(col@ =~= received_noise(noise@, helpers@, p as int, row as int));
            es.push(col);
            row = row + 1;
        }
        proof {
            assert(averaged_noise(es@, q as int) =~= party_noise(noise@, helpers@, p as int, m as nat, q as int));
        }
        let b = match parties[p].gen_b(a, &es) {
            Some(b) => b,
            None => {
                proof {
                    let ee = es@;
                    let (i, k) = choose|i: int, k: int|
                        0 <= i < ee.len() && 0 <= k <= ee[i]@.len() && !crate::lagrange::small(#[trigger] seq_sum(ee[i]@.subrange(0, k)));
                    assert(!crate::lagrange::small(seq_sum(received_noise(noise@, helpers@, p as int, i).subrange(0, k))));
                }
                return None;
            },
        };
        partials.push(b);
        p = p + 1;
    }
    proof {
        assert forall|i: int| 0 <= i < m implies #[trigger] row_shares(partials@, i) =~= expected_row_shares(
            a@,
            parties@,
            noise@,
            helpers@,
            q as int,
            i,
        ) by {
            assert(forall|x: int| 0 <= x < u ==> #[trigger] row_shares(partials@, i)[x] == expected_row_shares(a@, parties@, noise@, helpers@, q as int, i)[x]);
        }
    }
    let b = match combine_rows(&partials, m, q) {
        Some(b) => b,
        None => {
            proof {
                let i = choose|i: int| 0 <= i < m && !crate::lagrange::fits(#[trigger] row_shares(partials@, i), 0);
                assert(row_shares(partials@, i) =~= expected_row_shares(a@, parties@, noise@, helpers@, q as int, i));
            }
            return None;
        },
    };
    proof {
        assert forall|i: int| 0 <= i < b@.len() implies (#[trigger] b@[i]) as int == fmod(
            interpolation(expected_row_shares(a@, parties@, noise@, helpers@, q as int, i), 0),
            q as int,
        ) by {
            assert(row_shares(partials@, i) =~= expected_row_shares(a@, parties@, noise@, helpers@, q as int, i));
        }
    }
    Some(b)
}

/// The public key of a committee, where there is one.
pub open spec fn dealer_pk(r: Option<Dealer>) -> Option<PublicKey> {
    match r {
        Some(d) => Some(d.spec_pk()),
        None => None,
    }
}

/// The parties of a committee, where there is one.
pub open spec fn dealer_parties(r: Option<Dealer>) -> Seq<Party> {
    match r {
        Some(d) => d.spec_parties(),
        None => Seq::empty(),
    }
}

/// Runs the committee: the parties, the joint public key and the parameters.
pub struct Dealer {
    parties: Vec<Party>,
    pk: PublicKey,
    crypto: Lwe,
}

/// The parties are numbered `1..=u` in order, share the parameters `crypto`
/// and have completed key generation.
pub open spec fn committee_ready(parties: Seq<Party>, crypto: Lwe) -> bool {
    &&& parties.len() >= 1
    &&& forall|i: int| 0 <= i < parties.len() ==> (#[trigger] parties[i]).spec_number() == i + 1
    &&& forall|i: int| 0 <= i < parties.len() ==> (#[trigger] parties[i]).spec_committee() == parties.len()
    &&& forall|i: int| 0 <= i < parties.len() ==> (#[trigger] parties[i]).spec_crypto() == crypto
    &&& forall|i: int| 0 <= i < parties.len() ==> (#[trigger] parties[i]).ready()
}

impl Dealer {
    pub closed spec fn spec_parties(&self) -> Seq<Party> {
        self.parties@
    }

    pub closed spec fn spec_crypto(&self) -> Lwe {
        self.crypto
    }

    pub closed spec fn spec_pk(&self) -> PublicKey {
        self.pk
    }

    /// The committee is keyed and the public key is well formed.
    pub open spec fn wf(&self) -> bool {
        &&& self.spec_crypto().wf()
        &&& committee_ready(self.spec_parties(), self.spec_crypto())
        &&& public_key_wf(
            self.spec_pk(),
            self.spec_crypto().m as nat,
            self.spec_crypto().n as nat,
            self.spec_crypto().q as int,
        )
    }

    /// Sets up a committee of `committee` parties for dimension `n` and runs
    /// distributed key generation, with `noise[j]` the samples of party `j + 1`.
    /// `None` only where, for the values drawn, some interpolation or sum of
    /// the key generation leaves `i128`.
    pub fn new(committee: usize, n: usize, noise: &Vec<Vec<i64>>) -> (r: Option<Dealer>)
        requires
            1 <= n <= 62,
            committee >= 1,
            noise.len() == committee,
            forall|j: int| 0 <= j < committee ==> (#[trigger] noise@[j])@.len() == n * n * n,
        ensures
            r matches Some(d) ==> d.wf() && d.spec_parties().len() == committee && d.spec_crypto() == Lwe::spec_new(n),
            exists|a: Seq<Vec<u64>>, keyed: Seq<Party>, h: Seq<Vec<Vec<i128>>>|
                #[trigger] keygen_outcome(
                    dealer_pk(r),
                    dealer_parties(r),
                    noise@,
                    a,
                    keyed,
                    h,
                    Lwe::spec_new(n),
                ),
            committee <= 3 ==> r is Some,
            r matches Some(d) ==> (committee <= 3 ==> forall|i: int| 0 <= i < n * n * n ==> (#[trigger] d.spec_pk().1@[i]) as int == fmod(
                dot_int(d.spec_pk().0@[i]@, joint_key(d.spec_parties(), n as nat), n as nat) + common_noise(noise@, i),
                pow2(n as nat) as int,
            )),
    {
        let crypto = Lwe::new(n);
        let mut parties: Vec<Party> = Vec::new();
        let mut i: usize = 0;
        while i < committee
            invariant
                i <= committee,
                parties@.len() == i,
                forall|k: int| 0 <= k < i ==> (#[trigger] parties@[k]).spec_number() == k + 1,
                forall|k: int| 0 <= k < i ==> (#[trigger] parties@[k]).spec_crypto() == crypto,
                forall|k: int| 0 <= k < i ==> (#[trigger] parties@[k]).spec_committee() == committee,
            decreases committee - i,
        {
            parties.push(Party::new(i + 1, committee, crypto));
            i = i + 1;
        }
        let res = Dealer::keygen(n, crypto.m, crypto.q, &mut parties, noise);
        let ghost (ga, gk, gh) = choose|a: Seq<Vec<u64>>, keyed: Seq<Party>, h: Seq<Vec<Vec<i128>>>|
            #[trigger] keygen_outcome(res, parties@, noise@, a, keyed, h, crypto);
        let pk = match res {
            Some(pk) => pk,
            None => {
                proof {
                    assert(keygen_outcome(dealer_pk(None), dealer_parties(None), noise@, ga, gk, gh, crypto));
                }
                return None;
            },
        };
        let d = Dealer { parties, pk, crypto };
        proof {
            assert(keygen_outcome(dealer_pk(Some(d)), dealer_parties(Some(d)), noise@, ga, gk, gh, crypto));
        }
        Some(d)
    }

    /// Distributed key generation. Every party draws its shares of the `n`
    /// key coordinates (residues mod `q`) and one private blinding key; the
    /// coefficients that re-share each noise sample and a common matrix `A`
    /// are drawn; `public_key_from` then derives `b` from these and from
    /// `noise`. `None` only where, for the values drawn, some interpolation
    /// or sum leaves `i128`.
    pub fn keygen(n: usize, m: usize, q: u64, parties: &mut Vec<Party>, noise: &Vec<Vec<i64>>) -> (r: Option<PublicKey>)
        requires
            old(parties)@.len() >= 1,
            noise.len() == old(parties)@.len(),
            forall|j: int| 0 <= j < noise.len() ==> (#[trigger] noise@[j])@.len() == m,
            numbered(old(parties)@, Lwe { n, m, q }),
            (Lwe { n, m, q }).wf(),
        ensures
            final(parties)@.len() == old(parties)@.len(),
            numbered(final(parties)@, Lwe { n, m, q }),
            r matches Some(pk) ==> committee_ready(final(parties)@, Lwe { n, m, q }) && public_key_wf(pk, m as nat, n as nat, q as int),
            exists|a: Seq<Vec<u64>>, keyed: Seq<Party>, h: Seq<Vec<Vec<i128>>>|
                #[trigger] keygen_outcome(r, final(parties)@, noise@, a, keyed, h, Lwe { n, m, q }),
            old(parties)@.len() <= 3 ==> r is Some,
            r matches Some(pk) ==> (old(parties)@.len() <= 3 ==> forall|i: int| 0 <= i < m ==> (#[trigger] pk.1@[i]) as int == fmod(
                dot_int(pk.0@[i]@, joint_key(final(parties)@, n as nat), n as nat) + common_noise(noise@, i),
                q as int,
            )),
    {
        let ghost crypto = Lwe { n, m, q };
        proof {
            lemma_wf_modulus(crypto);
        }
        let u = parties.len();
        let mut keyed: Vec<Party> = Vec::new();
        let mut i: usize = 0;
        while i < u
            invariant
                crypto == (Lwe { n, m, q }),
                crypto.wf(),
                u == parties@.len(),
                modulus_fits(q as int),
                numbered(parties@, crypto),
                i <= u,
                keyed@.len() == i,
                forall|k: int| 0 <= k < i ==> (#[trigger] keyed@[k]).spec_number() == k + 1,
                forall|k: int| 0 <= k < i ==> (#[trigger] keyed@[k]).spec_committee() == u,
                forall|k: int| 0 <= k < i ==> (#[trigger] keyed@[k]).spec_crypto() == crypto,
                forall|k: int| 0 <= k < i ==> (#[trigger] keyed@[k]).ready(),
                forall|k: int| 0 <= k < i ==> abs((#[trigger] keyed@[k]).blinding_keys()[0] as int) < pow2(n as nat),
            decreases u - i,
        {
            let sk = new_rand_big_int_vec(n, n, q);
            let key = parties[i].rand_value(n);
            let mut keys: Vec<i128> = Vec::new();
            keys.push(key);
            keyed.push(Party { number: parties[i].number, committee: parties[i].committee, sk: Some(sk), crypto: parties[i].crypto, keys });
            i = i + 1;
        }

        // Every party's noise is re-shared on a polynomial whose other
        // coefficients are fixed by `u / 4` random values per row.
        let hcount = u / 4;
        let mut helpers: Vec<Vec<Vec<i128>>> = Vec::new();
        let mut j: usize = 0;
        while j < u
            invariant
                n <= 62,
                hcount == u / 4,
                j <= u,
                helpers@.len() == j,
                forall|x: int| 0 <= x < j ==> (#[trigger] helpers@[x])@.len() == m,
                forall|x: int, y: int| 0 <= x < j && 0 <= y < m ==> (#[trigger] helpers@[x]@[y])@.len() == hcount,
                forall|x: int, y: int, k: int|
                    0 <= x < j && 0 <= y < m && 0 <= k < hcount ==> abs((#[trigger] helpers@[x]@[y]@[k]) as int) < pow2(n as nat),
            decreases u - j,
        {
            let mut rows: Vec<Vec<i128>> = Vec::new();
            let mut row: usize = 0;
            while row < m
                invariant
                    n <= 62,
                    row <= m,
                    rows@.len() == row,
                    forall|y: int| 0 <= y < row ==> (#[trigger] rows@[y])@.len() == hcount,
                    forall|y: int, k: int|
                        0 <= y < row && 0 <= k < hcount ==> abs((#[trigger] rows@[y]@[k]) as int) < pow2(n as nat),
                decreases m - row,
            {
                let mut h: Vec<i128> = Vec::new();
                let mut k: usize = 0;
                while k < hcount
                    invariant
                        n <= 62,
                        k <= hcount,
                        h@.len() == k,
                        forall|t: int| 0 <= t < k ==> abs((#[trigger] h@[t]) as int) < pow2(n as nat),
                    decreases hcount - k,
                {
                    h.push(crate::random::rand_value(n));
                    k = k + 1;
                }
                rows.push(h);
                row = row + 1;
            }
            helpers.push(rows);
            j = j + 1;
        }

        let a = rand_matrix(m, n, q);
        let b = match public_key_from(&keyed, &a, noise, &helpers, q) {
            Some(b) => b,
            None => {
                proof {
                    assert(!public_key_fits(a@, keyed@, noise@, helpers@, q as int));
                    assert(drawn_ok(a@, keyed@, helpers@, crypto));
                    assert(keygen_outcome(None, parties@, noise@, a@, keyed@, helpers@, crypto));
                    if u <= 3 {
                        lemma_small_committee_fits(a@, keyed@, noise@, helpers@, crypto);
                    }
                }
                return None;
            },
        };
        *parties = keyed;
        let pk = (a, b);
        proof {
            assert(key_from(pk, parties@, noise@, helpers@, q as int));
            assert(drawn_ok(a@, keyed@, helpers@, crypto));
            assert(keygen_outcome(Some(pk), parties@, noise@, a@, keyed@, helpers@, crypto));
            if u <= 3 {
                lemma_small_committee_key(pk, parties@, noise@, helpers@, crypto);
            }
        }
        Some(pk)
    }

    /// Encrypts `bit` under the committee's public key.
    pub fn encrypt(&self, bit: &Plaintext) -> (r: Result<Ciphertext, LweError>)
        requires
            self.wf(),
        ensures
            *bit > 1 <==> r is Err,
            r matches Err(e) ==> e == LweError::InvalidPlaintext,
            r matches Ok(c) ==> exists|rows: Seq<usize>|
                rows.len() == self.spec_crypto().m / 2 && rows.no_duplicates() && (forall|t: int|
                    0 <= t < rows.len() ==> (#[trigger] rows[t]) < self.spec_crypto().m) && (c.0@, c.1 as int)
                    == encryption(self.spec_pk(), *bit as int, rows, self.spec_crypto().n as nat, self.spec_crypto().q as int),
    {
        self.crypto.encrypt(&self.pk, bit)
    }

    /// Joint decryption: every party publishes its blinded partial
    /// decryption, then every party combines the full set. Returns
    /// `(party number, bit)` for each party; all bits are the one decoded
    /// from the interpolation at `0` of the same shares. `None` where that
    /// interpolation leaves `i128`.
    pub fn decrypt(&self, c: &Ciphertext) -> (r: Option<Vec<(usize, Plaintext)>>)
        requires
            self.wf(),
            c.0.len() == self.spec_crypto().n,
            forall|i: int| 0 <= i < c.0.len() ==> c.0@[i] < self.spec_crypto().q,
        ensures
            exists|sh: Seq<Share>|
                #[trigger] decryption_shares(sh, (c.0@, c.1), self.spec_parties(), self.spec_crypto().q as int)
                    && decided_by(r, sh, self.spec_crypto().q as int),
            self.spec_parties().len() <= 3 ==> r is Some,
    {
        let u = self.parties.len();
        let mut shares: Vec<Share> = Vec::new();
        let mut i: usize = 0;
        while i < u
            invariant
                self.wf(),
                u == self.parties@.len(),
                c.0.len() == self.crypto.n,
                forall|i: int| 0 <= i < c.0.len() ==> c.0@[i] < self.crypto.q,
                i <= u,
                shares@.len() == i,
                forall|k: int| 0 <= k < i ==> (#[trigger] shares@[k]).0 == k + 1,
                forall|k: int| 0 <= k < i ==> #[trigger] partial_decryption(shares@[k], (c.0@, c.1), self.parties@[k], self.crypto.q as int),
            decreases u - i,
        {
            let s = self.parties[i].decrypt1(c);
            shares.push(s);
            i = i + 1;
        }
        proof {
            if u <= 3 {
                lemma_wf_modulus(self.crypto);
                assert forall|p: int| 0 <= p < u implies 0 <= (#[trigger] shares@[p]).1 < 0x8000_0000_0000_0000 by {
                    assert(partial_decryption(shares@[p], (c.0@, c.1), self.parties@[p], self.crypto.q as int));
                    let e = fmod(
                        c.1 - dot(c.0@, self.parties@[p].secret().unwrap(), c.0@.len() as nat),
                        self.crypto.q as int,
                    );
                    crate::ring::lemma_fmod_periodic(
                        c.1 - dot(c.0@, self.parties@[p].secret().unwrap(), c.0@.len() as nat),
                        0,
                        self.crypto.q as int,
                    );
                    let x = shares@[p].1 - e;
                    assert(x <= x * x || x == 0) by (nonlinear_arith)
                        requires
                            x >= 0,
                    ;
                }
                lemma_small_row_fits(shares@);
            }
        }
        let mut res: Vec<(usize, Plaintext)> = Vec::new();
        let mut i: usize = 0;
        while i < u
            invariant
                self.wf(),
                u == self.parties@.len(),
                shares@.len() == u,
                forall|k: int| 0 <= k < u ==> (#[trigger] shares@[k]).0 == k + 1,
                decryption_shares(shares@, (c.0@, c.1), self.parties@, self.crypto.q as int),
                u <= 3 ==> crate::lagrange::fits(shares@, 0),
                i <= u,
                res@.len() == i,
                forall|k: int| 0 <= k < i ==> (#[trigger] res@[k]).0 == k + 1 && res@[k].1 == decode(
                    fmod(interpolation(shares@, 0), self.crypto.q as int),
                    self.crypto.q as int,
                ),
            decreases u - i,
        {
            let party = &self.parties[i];
            proof {
                assert(distinct_indices(shares@));
            }
            let bit = match party.decrypt2(&shares) {
                Some(b) => b,
                None => {
                    proof {
                        assert(decided_by(None, shares@, self.crypto.q as int));
                    }
                    return None;
                },
            };
            res.push((party.number, bit));
            i = i + 1;
        }
        proof {
            assert(decided_by(Some(res), shares@, self.crypto.q as int));
        }
        Some(res)
    }
}

} // verus!
