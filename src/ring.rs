//! Arithmetic on integers modulo `q`, with every result kept in `[0, q)`.

use vstd::arithmetic::div_mod::{
    lemma_fundamental_div_mod, lemma_fundamental_div_mod_converse, lemma_mod_bound,
};
use vstd::prelude::*;

verus! {

/// Floor modulo: the representative of `x` in `[0, q)`, whatever the sign of `x`.
pub open spec fn fmod(x: int, q: int) -> int {
    x % q
}

/// The decision rule for a noisy bit: `x` lies in the open interval
/// `(q/4, q - q/4)`.
pub open spec fn signal_band(x: int, q: int) -> bool {
    q / 4 < x && x < q - q / 4
}

/// Returns `x` reduced into `[0, q)`, rounding the quotient towards negative infinity.
pub fn floor_mod(x: i128, q: u64) -> (r: u64)
    requires
        q > 0,
    ensures
        r as int == fmod(x as int, q as int),
        r < q,
{
    let qq = q as u128;
    if x >= 0 {
        let r = ((x as u128) % qq) as u64;
        proof {
            lemma_mod_bound(x as int, q as int);
        }
        r
    } else {
        let t: i128 = -(x + 1);
        let y: u128 = (t as u128) + 1;
        let m: u128 = y % qq;
        proof {
            let k = y as int / q as int;
            lemma_fundamental_div_mod(y as int, q as int);
            lemma_mod_bound(y as int, q as int);
            assert(x as int == -(y as int));
            if m == 0 {
                assert(x as int == (-k) * q as int + 0) by (nonlinear_arith)
                    requires
                        y as int == q as int * k + m as int,
                        m == 0,
                        x as int == -(y as int),
                ;
                lemma_fundamental_div_mod_converse(x as int, q as int, -k, 0);
            } else {
                assert(x as int == (-k - 1) * q as int + (q as int - m as int)) by (nonlinear_arith)
                    requires
                        y as int == q as int * k + m as int,
                        x as int == -(y as int),
                ;
                lemma_fundamental_div_mod_converse(x as int, q as int, -k - 1, q as int - m as int);
            }
        }
        if m == 0 {
            0
        } else {
            (qq - m) as u64
        }
    }
}

/// `(a + b) mod q` for representatives `a`, `b` in `[0, q)`.
pub fn add_mod(a: u64, b: u64, q: u64) -> (r: u64)
    requires
        q > 0,
    ensures
        r as int == fmod(a + b, q as int),
        r < q,
{
    proof {
        lemma_mod_bound(a + b, q as int);
    }
    (((a as u128) + (b as u128)) % (q as u128)) as u64
}

/// `(a - b) mod q`, normalised into `[0, q)`.
pub fn sub_mod(a: u64, b: u64, q: u64) -> (r: u64)
    requires
        q > 0,
    ensures
        r as int == fmod(a - b, q as int),
        r < q,
{
    floor_mod((a as i128) - (b as i128), q)
}

/// `(a * b) mod q`.
pub fn mul_mod(a: u64, b: u64, q: u64) -> (r: u64)
    requires
        q > 0,
    ensures
        r as int == fmod(a * b, q as int),
        r < q,
{
    proof {
        assert((a as int) * (b as int) <= 0xffff_ffff_ffff_ffffu64 as int * 0xffff_ffff_ffff_ffffu64 as int)
            by (nonlinear_arith)
            requires
                a <= 0xffff_ffff_ffff_ffffu64,
                b <= 0xffff_ffff_ffff_ffffu64,
        ;
    }
    let p: u128 = (a as u128) * (b as u128);
    proof {
        lemma_mod_bound(a * b, q as int);
    }
    (p % (q as u128)) as u64
}

/// Whether `x` lies strictly between `q/4` and `q - q/4`.
pub fn in_signal_band(x: u64, q: u64) -> (r: bool)
    ensures
        r == signal_band(x as int, q as int),
{
    let lower = q / 4;
    let upper = q - lower;
    lower < x && x < upper
}

/// `floor_mod` is unchanged by adding any multiple of `q` to its argument,
/// and always lands in `[0, q)`.
pub proof fn lemma_fmod_periodic(x: int, k: int, q: int)
    requires
        q > 0,
    ensures
        0 <= fmod(x, q) < q,
        fmod(x + k * q, q) == fmod(x, q),
{
    lemma_mod_bound(x, q);
    lemma_fundamental_div_mod(x, q);
    let d = x / q;
    let r = x % q;
    assert(x + k * q == (d + k) * q + r) by (nonlinear_arith)
        requires
            x == q * d + r,
    ;
    lemma_fundamental_div_mod_converse(x + k * q, q, d + k, r);
}

} // verus!
