//! Correctness of single-party decryption.

use crate::lwe::{modulus_fits, column_sum, decryption, dot, encryption, entry_sum, public_row, PublicKey};
use crate::ring::{fmod, lemma_fmod_periodic};
use vstd::arithmetic::div_mod::{lemma_add_mod_noop, lemma_mod_bound, lemma_mul_mod_noop_general, lemma_small_mod, lemma_sub_mod_noop};
use vstd::prelude::*;

verus! {

/// `Σ_{u < t} dot(A[rows_u], s)` over the first `k` coordinates.
pub open spec fn rows_dot(a: Seq<Vec<u64>>, rows: Seq<usize>, s: Seq<i64>, t: nat, k: nat) -> int
    decreases t,
{
    if t == 0 {
        0
    } else {
        rows_dot(a, rows, s, (t - 1) as nat, k) + dot(a[rows[t - 1] as int]@, s, k)
    }
}

/// `Σ_{j < k} (Σ_{u < t} A[rows_u][j]) · s_j`.
pub open spec fn column_dot(a: Seq<Vec<u64>>, rows: Seq<usize>, s: Seq<i64>, t: nat, k: nat) -> int
    decreases k,
{
    if k == 0 {
        0
    } else {
        column_dot(a, rows, s, t, (k - 1) as nat) + column_sum(a, rows, k - 1, t) * s[k - 1]
    }
}

/// `Σ_{u < t} e[rows_u]`: the noise carried by the chosen rows.
pub open spec fn noise_sum(e: Seq<i64>, rows: Seq<usize>, t: nat) -> int
    decreases t,
{
    if t == 0 {
        0
    } else {
        noise_sum(e, rows, (t - 1) as nat) + e[rows[t - 1] as int]
    }
}

proof fn lemma_cong_add(x: int, y: int, u: int, v: int, q: int)
    requires
        q > 0,
        fmod(x, q) == fmod(y, q),
        fmod(u, q) == fmod(v, q),
    ensures
        fmod(x + u, q) == fmod(y + v, q),
{
    lemma_add_mod_noop(x, u, q);
    lemma_add_mod_noop(y, v, q);
}

proof fn lemma_cong_sub(x: int, y: int, u: int, v: int, q: int)
    requires
        q > 0,
        fmod(x, q) == fmod(y, q),
        fmod(u, q) == fmod(v, q),
    ensures
        fmod(x - u, q) == fmod(y - v, q),
{
    lemma_sub_mod_noop(x, u, q);
    lemma_sub_mod_noop(y, v, q);
}

proof fn lemma_fmod_idem(x: int, q: int)
    requires
        q > 0,
    ensures
        fmod(fmod(x, q), q) == fmod(x, q),
{
    lemma_mod_bound(x, q);
    lemma_small_mod((x % q) as nat, q as nat);
}

/// One more coordinate adds one column term to the rows' dot products.
proof fn lemma_rows_dot_step(a: Seq<Vec<u64>>, rows: Seq<usize>, s: Seq<i64>, t: nat, k: nat)
    ensures
        rows_dot(a, rows, s, t, k + 1) == rows_dot(a, rows, s, t, k) + column_sum(a, rows, k as int, t) * s[k as int],
    decreases t,
{
    if t > 0 {
        lemma_rows_dot_step(a, rows, s, (t - 1) as nat, k);
        let c = column_sum(a, rows, k as int, (t - 1) as nat);
        let x = a[rows[t - 1] as int]@[k as int] as int;
        let sk = s[k as int] as int;
        assert((c + x) * sk == c * sk + x * sk) by (nonlinear_arith);
    }
}

/// Summing rows then taking the dot product equals summing the dot products.
proof fn lemma_exchange(a: Seq<Vec<u64>>, rows: Seq<usize>, s: Seq<i64>, t: nat, k: nat)
    ensures
        column_dot(a, rows, s, t, k) == rows_dot(a, rows, s, t, k),
    decreases k,
{
    if k == 0 {
        lemma_rows_dot_zero(a, rows, s, t);
    } else {
        lemma_exchange(a, rows, s, t, (k - 1) as nat);
        lemma_rows_dot_step(a, rows, s, t, (k - 1) as nat);
    }
}

proof fn lemma_rows_dot_zero(a: Seq<Vec<u64>>, rows: Seq<usize>, s: Seq<i64>, t: nat)
    ensures
        rows_dot(a, rows, s, t, 0) == 0,
    decreases t,
{
    if t > 0 {
        lemma_rows_dot_zero(a, rows, s, (t - 1) as nat);
    }
}

/// Reducing each summed column mod `q` first does not change the dot product mod `q`.
proof fn lemma_reduced_columns(c: Seq<u64>, a: Seq<Vec<u64>>, rows: Seq<usize>, s: Seq<i64>, q: int, k: nat)
    requires
        q > 0,
        k <= c.len(),
        k <= s.len(),
        forall|j: int| 0 <= j < c.len() ==> (#[trigger] c[j]) as int == fmod(column_sum(a, rows, j, rows.len()), q),
    ensures
        fmod(dot(c, s, k), q) == fmod(column_dot(a, rows, s, rows.len(), k), q),
    decreases k,
{
    if k > 0 {
        let j = k - 1;
        lemma_reduced_columns(c, a, rows, s, q, (k - 1) as nat);
        let col = column_sum(a, rows, j, rows.len());
        lemma_mul_mod_noop_general(col, s[j] as int, q);
        lemma_cong_add(
            dot(c, s, (k - 1) as nat),
            column_dot(a, rows, s, rows.len(), (k - 1) as nat),
            c[j] * s[j],
            col * s[j],
            q,
        );
    }
}

/// The chosen entries of `b` are, mod `q`, the rows' dot products plus their noise.
proof fn lemma_entries(pk: PublicKey, s: Seq<i64>, e: Seq<i64>, rows: Seq<usize>, q: int, t: nat)
    requires
        q > 0,
        t <= rows.len(),
        forall|u: int| 0 <= u < rows.len() ==> (#[trigger] rows[u]) < pk.1@.len(),
        forall|i: int| 0 <= i < pk.1@.len() ==> (#[trigger] pk.1@[i]) as int == public_row(pk.0@, s, e, q, i),
    ensures
        fmod(entry_sum(pk.1@, rows, t), q) == fmod(rows_dot(pk.0@, rows, s, t, s.len()) + noise_sum(e, rows, t), q),
    decreases t,
{
    if t > 0 {
        lemma_entries(pk, s, e, rows, q, (t - 1) as nat);
        let r = rows[t - 1] as int;
        assert(0 <= r < pk.1@.len());
        let x = dot(pk.0@[r]@, s, s.len()) + e[r];
        lemma_fmod_idem(x, q);
        lemma_cong_add(
            entry_sum(pk.1@, rows, (t - 1) as nat),
            rows_dot(pk.0@, rows, s, (t - 1) as nat, s.len()) + noise_sum(e, rows, (t - 1) as nat),
            pk.1@[r] as int,
            x,
            q,
        );
    }
}

/// Decryption inverts encryption: for a key pair with `b = A·s + e (mod q)`,
/// a bit encrypted with any choice of rows decrypts to that bit whenever the
/// noise carried by those rows is zero or smaller than `q/4` in magnitude.
pub proof fn lemma_round_trip(pk: PublicKey, s: Seq<i64>, e: Seq<i64>, rows: Seq<usize>, bit: int, q: int)
    requires
        modulus_fits(q),
        q % 2 == 0,
        bit == 0 || bit == 1,
        forall|u: int| 0 <= u < rows.len() ==> (#[trigger] rows[u]) < pk.1@.len(),
        forall|i: int| 0 <= i < pk.1@.len() ==> (#[trigger] pk.1@[i]) as int == public_row(pk.0@, s, e, q, i),
        noise_sum(e, rows, rows.len()) == 0 || -(q / 4) < noise_sum(e, rows, rows.len()) < q / 4,
    ensures
        ({
            let c = encryption(pk, bit, rows, s.len(), q);
            decryption(s, (c.0, c.1 as u64), q) == bit
        }),
{
    let c = encryption(pk, bit, rows, s.len(), q);
    let cb = c.1;
    let big_e = noise_sum(e, rows, rows.len());
    let rd = rows_dot(pk.0@, rows, s, rows.len(), s.len());
    let es = entry_sum(pk.1@, rows, rows.len());
    lemma_mod_bound(bit * (q / 2) + es, q);
    assert(cb as u64 as int == cb);
    assert forall|j: int| 0 <= j < c.0.len() implies (#[trigger] c.0[j]) as int == fmod(
        column_sum(pk.0@, rows, j, rows.len()),
        q,
    ) by {
        lemma_mod_bound(column_sum(pk.0@, rows, j, rows.len()), q);
        assert(c.0[j] == fmod(column_sum(pk.0@, rows, j, rows.len()), q) as u64);
    }
    lemma_reduced_columns(c.0, pk.0@, rows, s, q, s.len());
    lemma_exchange(pk.0@, rows, s, rows.len(), s.len());
    lemma_entries(pk, s, e, rows, q, rows.len());
    // c.1 ≡ bit·q/2 + Σ b ≡ bit·q/2 + rd + E
    lemma_fmod_idem(bit * (q / 2) + es, q);
    lemma_fmod_periodic(bit * (q / 2), 0, q);
    lemma_fmod_idem(bit * (q / 2), q);
    lemma_cong_add(bit * (q / 2), bit * (q / 2), es, rd + big_e, q);
    lemma_cong_sub(cb, bit * (q / 2) + rd + big_e, dot(c.0, s, s.len()), rd, q);
    assert(bit * (q / 2) + rd + big_e - rd == bit * (q / 2) + big_e);
    let v = bit * (q / 2) + big_e;
    if bit == 0 {
        if big_e >= 0 {
            lemma_small_mod(big_e as nat, q as nat);
        } else {
            lemma_fmod_periodic(big_e, 1, q);
            lemma_small_mod((big_e + q) as nat, q as nat);
        }
    } else {
        lemma_small_mod(v as nat, q as nat);
    }
}

} // verus!
