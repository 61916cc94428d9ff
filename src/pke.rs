//! A public-key encryption scheme, as seen by its users.

use crate::lwe::{Ciphertext, Lwe, Plaintext, PublicKey, SecretKey};
use vstd::prelude::*;

verus! {

/// Key generation, encryption and decryption of a public-key scheme. Each
/// operation returns `None` on inputs that do not fit the scheme's
/// parameters.
pub trait Pke {
    type PublicKey;
    type SecretKey;
    type Ciphertext;
    type Plaintext;
    type Noise;

    fn keygen(&self, noise: &Self::Noise) -> Option<(Self::PublicKey, Self::SecretKey)>;

    fn encrypt(&self, pk: &Self::PublicKey, m: &Self::Plaintext) -> Option<Self::Ciphertext>;

    fn decrypt(&self, sk: &Self::SecretKey, c: &Self::Ciphertext) -> Option<Self::Plaintext>;
}

impl Lwe {
    /// Whether these are the parameters for their dimension.
    pub fn is_consistent(&self) -> (r: bool)
        ensures
            r == self.wf(),
    {
        if self.n < 1 || self.n > 62 {
            return false;
        }
        let l = Lwe::new(self.n);
        l.m == self.m && l.q == self.q
    }

    /// Whether `pk` has `m` rows of `n` residues and `m` residues.
    pub fn accepts_public_key(&self, pk: &PublicKey) -> (r: bool)
        ensures
            r == crate::lwe::public_key_wf(*pk, self.m as nat, self.n as nat, self.q as int),
    {
        if pk.0.len() != self.m || pk.1.len() != self.m {
            return false;
        }
        let mut i: usize = 0;
        while i < self.m
            invariant
                pk.0@.len() == self.m,
                pk.1@.len() == self.m,
                i <= self.m,
                forall|k: int| 0 <= k < i ==> (#[trigger] pk.0@[k])@.len() == self.n,
                forall|k: int, j: int| 0 <= k < i && 0 <= j < self.n ==> (#[trigger] pk.0@[k]@[j]) < self.q,
                forall|k: int| 0 <= k < i ==> (#[trigger] pk.1@[k]) < self.q,
            decreases self.m - i,
        {
            let row = &pk.0[i];
            if row.len() != self.n || pk.1[i] >= self.q {
                return false;
            }
            let mut j: usize = 0;
            while j < self.n
                invariant
                    i < self.m,
                    pk.0@.len() == self.m,
                    row@ == pk.0@[i as int]@,
                    row@.len() == self.n,
                    j <= self.n,
                    forall|t: int| 0 <= t < j ==> (#[trigger] row@[t]) < self.q,
                decreases self.n - j,
            {
                if row[j] >= self.q {
                    proof {
                        assert(pk.0@[i as int]@[j as int] >= self.q);
                    }
                    return false;
                }
                j = j + 1;
            }
            i = i + 1;
        }
        true
    }
}

impl Pke for Lwe {
    type PublicKey = PublicKey;
    type SecretKey = SecretKey;
    type Ciphertext = Ciphertext;
    type Plaintext = Plaintext;
    type Noise = Vec<i64>;

    fn keygen(&self, noise: &Vec<i64>) -> Option<(PublicKey, SecretKey)> {
        if !self.is_consistent() || noise.len() != self.m {
            return None;
        }
        Some(Lwe::keygen(self, noise))
    }

    fn encrypt(&self, pk: &PublicKey, m: &Plaintext) -> Option<Ciphertext> {
        if !self.is_consistent() || !self.accepts_public_key(pk) {
            return None;
        }
        match Lwe::encrypt(self, pk, m) {
            Ok(c) => Some(c),
            Err(_) => None,
        }
    }

    fn decrypt(&self, sk: &SecretKey, c: &Ciphertext) -> Option<Plaintext> {
        if !self.is_consistent() || c.0.len() != sk.len() {
            return None;
        }
        let mut i: usize = 0;
        while i < c.0.len()
            invariant
                i <= c.0.len(),
                forall|k: int| 0 <= k < i ==> c.0@[k] < self.q,
            decreases c.0.len() - i,
        {
            if c.0[i] >= self.q {
                return None;
            }
            i = i + 1;
        }
        Some(Lwe::decrypt(self, sk, c))
    }
}

} // verus!
