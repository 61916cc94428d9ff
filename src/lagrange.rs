//! Shamir shares and exact Lagrange interpolation over the rationals.

use vstd::arithmetic::div_mod::lemma_fundamental_div_mod_converse;
use vstd::math::abs;
use vstd::prelude::*;

verus! {

/// One evaluation point `(index, value)` of a polynomial.
#[derive(Clone, Copy, Debug, PartialEq, Eq)]
pub struct Share(pub usize, pub i128);

/// No two shares carry the same index.
pub open spec fn distinct_indices(s: Seq<Share>) -> bool {
    forall|i: int, k: int| 0 <= i < s.len() && 0 <= k < s.len() && i != k ==> s[i].0 != s[k].0
}

/// `Π_{m < k, m != j} (x - x_m)`: the numerator of the `j`-th basis polynomial.
pub open spec fn basis_num(s: Seq<Share>, j: int, x: int, k: nat) -> int
    decreases k,
{
    if k == 0 {
        1
    } else if k - 1 == j {
        basis_num(s, j, x, (k - 1) as nat)
    } else {
        basis_num(s, j, x, (k - 1) as nat) * (x - s[k - 1].0)
    }
}

/// `Π_{m < k, m != j} (x_j - x_m)`: the denominator of the `j`-th basis polynomial.
pub open spec fn basis_den(s: Seq<Share>, j: int, k: nat) -> int
    decreases k,
{
    if k == 0 {
        1
    } else if k - 1 == j {
        basis_den(s, j, (k - 1) as nat)
    } else {
        basis_den(s, j, (k - 1) as nat) * (s[j].0 - s[k - 1].0)
    }
}

/// Denominator of `Σ_{j < k} y_j · L_j(x)` written over the product of the
/// basis denominators.
pub open spec fn sum_den(s: Seq<Share>, k: nat) -> int
    decreases k,
{
    if k == 0 {
        1
    } else {
        sum_den(s, (k - 1) as nat) * basis_den(s, k - 1, s.len())
    }
}

/// Numerator matching `sum_den`.
pub open spec fn sum_num(s: Seq<Share>, x: int, k: nat) -> int
    decreases k,
{
    if k == 0 {
        0
    } else {
        sum_num(s, x, (k - 1) as nat) * basis_den(s, k - 1, s.len()) + s[k - 1].1 * basis_num(
            s,
            k - 1,
            x,
            s.len(),
        ) * sum_den(s, (k - 1) as nat)
    }
}

/// Integer division rounding towards zero.
pub open spec fn trunc_div(a: int, b: int) -> int {
    if (a >= 0) == (b >= 0) {
        (abs(a) / abs(b)) as int
    } else {
        -((abs(a) / abs(b)) as int)
    }
}

/// The interpolating polynomial through `s`, evaluated exactly at `x` and
/// then rounded towards zero.
pub open spec fn interpolation(s: Seq<Share>, x: int) -> int {
    trunc_div(sum_num(s, x, s.len()), sum_den(s, s.len()))
}

/// `|v|` fits a signed 128-bit integer.
pub open spec fn small(v: int) -> bool {
    -0x7fff_ffff_ffff_ffff_ffff_ffff_ffff_ffff <= v <= 0x7fff_ffff_ffff_ffff_ffff_ffff_ffff_ffff
}

/// Every partial product of the `j`-th basis numerator and denominator fits.
pub open spec fn basis_fits(s: Seq<Share>, j: int, x: int) -> bool {
    forall|k: nat| k <= s.len() ==> small(#[trigger] basis_num(s, j, x, k)) && small(basis_den(s, j, k))
}

/// The values formed when the `k`-th term is added, before any common
/// factor is cancelled, all fit.
pub open spec fn step_fits(s: Seq<Share>, x: int, k: int) -> bool {
    let nk = basis_num(s, k, x, s.len());
    let dk = basis_den(s, k, s.len());
    let y = s[k].1 as int;
    &&& basis_fits(s, k, x)
    &&& small(y * nk)
    &&& small(sum_num(s, x, k as nat) * dk)
    &&& small(y * nk * sum_den(s, k as nat))
    &&& small(sum_num(s, x, (k + 1) as nat))
    &&& small(sum_den(s, (k + 1) as nat))
}

/// Exact evaluation at `x` stays within `i128` throughout.
pub open spec fn fits(s: Seq<Share>, x: int) -> bool {
    forall|k: int| 0 <= k < s.len() ==> #[trigger] step_fits(s, x, k)
}

proof fn lemma_basis_den_nonzero(s: Seq<Share>, j: int, k: nat)
    requires
        distinct_indices(s),
        0 <= j < s.len(),
        k <= s.len(),
    ensures
        basis_den(s, j, k) != 0,
    decreases k,
{
    if k > 0 {
        lemma_basis_den_nonzero(s, j, (k - 1) as nat);
        if k - 1 != j {
            let a = basis_den(s, j, (k - 1) as nat);
            let b = s[j].0 - s[k - 1].0;
            assert(a * b != 0) by (nonlinear_arith)
                requires
                    a != 0,
                    b != 0,
            ;
        }
    }
}

/// From `p / d == pp / qq` with `0 < d <= |qq|`: `|p| <= |pp|`.
proof fn lemma_abs_bound(p: int, d: int, pp: int, qq: int)
    requires
        0 < d <= abs(qq),
        p * qq == d * pp,
    ensures
        abs(p) <= abs(pp),
{
    assert(abs(p) * abs(qq) == d * abs(pp)) by (nonlinear_arith)
        requires
            p * qq == d * pp,
            d > 0,
    ;
    assert(abs(p) <= abs(pp)) by (nonlinear_arith)
        requires
            abs(p) * abs(qq) == d * abs(pp),
            0 < d <= abs(qq),
    ;
}

/// Equal fractions round to the same integer.
proof fn lemma_trunc_div_cross(p: int, d: int, pp: int, qq: int)
    requires
        d != 0,
        qq != 0,
        p * qq == d * pp,
    ensures
        trunc_div(p, d) == trunc_div(pp, qq),
{
    let a: int = abs(p) as int;
    let b: int = abs(d) as int;
    let aa: int = abs(pp) as int;
    let bb: int = abs(qq) as int;
    assert(a * bb == b * aa) by (nonlinear_arith)
        requires
            p * qq == d * pp,
            a == abs(p),
            b == abs(d),
            aa == abs(pp),
            bb == abs(qq),
    ;
    let k: int = aa / bb;
    vstd::arithmetic::div_mod::lemma_fundamental_div_mod(aa, bb);
    vstd::arithmetic::div_mod::lemma_mod_bound(aa, bb);
    let r: int = aa % bb;
    assert(k * b <= a < (k + 1) * b) by (nonlinear_arith)
        requires
            a * bb == b * aa,
            aa == bb * k + r,
            0 <= r < bb,
            b > 0,
            bb > 0,
            a >= 0,
    ;
    assert((k + 1) * b == k * b + b) by (nonlinear_arith);
    lemma_fundamental_div_mod_converse(a, b, k, a - k * b);
    assert((p == 0) == (pp == 0)) by (nonlinear_arith)
        requires
            p * qq == d * pp,
            d != 0,
            qq != 0,
    ;
    if p != 0 {
        assert(((p > 0) == (d > 0)) == ((pp > 0) == (qq > 0))) by (nonlinear_arith)
            requires
                p * qq == d * pp,
                d != 0,
                qq != 0,
                p != 0,
                pp != 0,
        ;
    }
}

/// `s` with the shares at positions `i` and `i + 1` exchanged.
pub open spec fn swap_adjacent(s: Seq<Share>, i: int) -> Seq<Share> {
    s.update(i, s[i + 1]).update(i + 1, s[i])
}

/// Where position `j` of `s` lands in `swap_adjacent(s, i)`.
pub open spec fn swapped_position(j: int, i: int) -> int {
    if j == i {
        i + 1
    } else if j == i + 1 {
        i
    } else {
        j
    }
}

proof fn lemma_basis_swap(s: Seq<Share>, i: int, j: int, x: int, k: nat)
    requires
        0 <= i,
        i + 1 < s.len(),
        0 <= j < s.len(),
        k <= s.len(),
        k <= i || k >= i + 2,
    ensures
        basis_num(swap_adjacent(s, i), swapped_position(j, i), x, k) == basis_num(s, j, x, k),
        basis_den(swap_adjacent(s, i), swapped_position(j, i), k) == basis_den(s, j, k),
    decreases k,
{
    let s2 = swap_adjacent(s, i);
    let j2 = swapped_position(j, i);
    assert(s2[j2] == s[j]);
    if k == 0 {
    } else if k <= i {
        lemma_basis_swap(s, i, j, x, (k - 1) as nat);
        assert(s2[k - 1] == s[k - 1]);
    } else if k == i + 2 {
        lemma_basis_swap(s, i, j, x, i as nat);
        let n0 = basis_num(s, j, x, i as nat);
        let d0 = basis_den(s, j, i as nat);
        let fa = x - s[i].0;
        let fb = x - s[i + 1].0;
        let ga = s[j].0 - s[i].0;
        let gb = s[j].0 - s[i + 1].0;
        assert(s2[i] == s[i + 1] && s2[i + 1] == s[i]);
        let n21 = basis_num(s2, j2, x, (i + 1) as nat);
        let n22 = basis_num(s2, j2, x, (i + 2) as nat);
        let n11 = basis_num(s, j, x, (i + 1) as nat);
        let n12 = basis_num(s, j, x, (i + 2) as nat);
        let d21 = basis_den(s2, j2, (i + 1) as nat);
        let d22 = basis_den(s2, j2, (i + 2) as nat);
        let d11 = basis_den(s, j, (i + 1) as nat);
        let d12 = basis_den(s, j, (i + 2) as nat);
        assert(n21 == (if i == j2 { n0 } else { n0 * fb }));
        assert(n22 == (if i + 1 == j2 { n21 } else { n21 * fa }));
        assert(n11 == (if i == j { n0 } else { n0 * fa }));
        assert(n12 == (if i + 1 == j { n11 } else { n11 * fb }));
        assert(d21 == (if i == j2 { d0 } else { d0 * gb }));
        assert(d22 == (if i + 1 == j2 { d21 } else { d21 * ga }));
        assert(d11 == (if i == j { d0 } else { d0 * ga }));
        assert(d12 == (if i + 1 == j { d11 } else { d11 * gb }));
        if j != i && j != i + 1 {
            vstd::arithmetic::mul::lemma_mul_is_associative(n0, fa, fb);
            vstd::arithmetic::mul::lemma_mul_is_associative(n0, fb, fa);
            vstd::arithmetic::mul::lemma_mul_is_commutative(fa, fb);
            vstd::arithmetic::mul::lemma_mul_is_associative(d0, ga, gb);
            vstd::arithmetic::mul::lemma_mul_is_associative(d0, gb, ga);
            vstd::arithmetic::mul::lemma_mul_is_commutative(ga, gb);
        }
    } else {
        lemma_basis_swap(s, i, j, x, (k - 1) as nat);
        assert(s2[k - 1] == s[k - 1]);
    }
}

proof fn lemma_sum_swap(s: Seq<Share>, i: int, x: int, k: nat)
    requires
        0 <= i,
        i + 1 < s.len(),
        k <= s.len(),
        k <= i || k >= i + 2,
    ensures
        sum_num(swap_adjacent(s, i), x, k) == sum_num(s, x, k),
        sum_den(swap_adjacent(s, i), k) == sum_den(s, k),
    decreases k,
{
    let s2 = swap_adjacent(s, i);
    let n = s.len();
    if k == 0 {
    } else if k <= i {
        lemma_sum_swap(s, i, x, (k - 1) as nat);
        lemma_basis_swap(s, i, k - 1, x, n);
        assert(s2[k - 1] == s[k - 1]);
    } else if k == i + 2 {
        lemma_sum_swap(s, i, x, i as nat);
        lemma_basis_swap(s, i, i, x, n);
        lemma_basis_swap(s, i, i + 1, x, n);
        let p = sum_num(s, x, i as nat);
        let q = sum_den(s, i as nat);
        let na = basis_num(s, i, x, n);
        let da = basis_den(s, i, n);
        let nb = basis_num(s, i + 1, x, n);
        let db = basis_den(s, i + 1, n);
        let ya = s[i].1 as int;
        let yb = s[i + 1].1 as int;
        assert(s2[i] == s[i + 1] && s2[i + 1] == s[i]);
        assert(swapped_position(i + 1, i) == i && swapped_position(i, i) == i + 1);
        assert(sum_den(s2, (i + 1) as nat) == q * db);
        assert(sum_den(s2, (i + 2) as nat) == q * db * da);
        assert(sum_num(s2, x, (i + 1) as nat) == p * db + yb * nb * q);
        assert(sum_num(s2, x, (i + 2) as nat) == (p * db + yb * nb * q) * da + ya * na * (q * db));
        assert(sum_den(s, (i + 1) as nat) == q * da);
        assert(sum_num(s, x, (i + 1) as nat) == p * da + ya * na * q);
        assert(sum_den(s, (i + 2) as nat) == q * da * db);
        assert(sum_num(s, x, (i + 2) as nat) == (p * da + ya * na * q) * db + yb * nb * (q * da));
        assert((p * db + yb * nb * q) * da == p * db * da + yb * nb * q * da) by (nonlinear_arith);
        assert((p * da + ya * na * q) * db == p * da * db + ya * na * q * db) by (nonlinear_arith);
        assert(p * db * da == p * da * db) by (nonlinear_arith);
        assert(ya * na * (q * db) == ya * na * q * db) by (nonlinear_arith);
        assert(yb * nb * (q * da) == yb * nb * q * da) by (nonlinear_arith);
        assert(q * db * da == q * da * db) by (nonlinear_arith);
    } else {
        lemma_sum_swap(s, i, x, (k - 1) as nat);
        lemma_basis_swap(s, i, k - 1, x, n);
        assert(s2[k - 1] == s[k - 1]);
    }
}

/// `a` and `b` hold shares at the same indices, in the same order.
pub open spec fn same_indices(a: Seq<Share>, b: Seq<Share>) -> bool {
    a.len() == b.len() && forall|i: int| 0 <= i < a.len() ==> (#[trigger] a[i]).0 == b[i].0
}

proof fn lemma_basis_same_indices(a: Seq<Share>, b: Seq<Share>, j: int, x: int, k: nat)
    requires
        same_indices(a, b),
        0 <= j < a.len(),
        k <= a.len(),
    ensures
        basis_num(a, j, x, k) == basis_num(b, j, x, k),
        basis_den(a, j, k) == basis_den(b, j, k),
    decreases k,
{
    if k > 0 {
        lemma_basis_same_indices(a, b, j, x, (k - 1) as nat);
        assert(a[k - 1].0 == b[k - 1].0);
        assert(a[j].0 == b[j].0);
    }
}

proof fn lemma_linear_prefix(a: Seq<Share>, b: Seq<Share>, c: Seq<Share>, s: int, t: int, x: int, k: nat)
    requires
        same_indices(a, b),
        same_indices(a, c),
        k <= a.len(),
        forall|i: int| 0 <= i < a.len() ==> (#[trigger] c[i]).1 == s * a[i].1 + t * b[i].1,
    ensures
        sum_num(c, x, k) == s * sum_num(a, x, k) + t * sum_num(b, x, k),
        sum_den(c, k) == sum_den(a, k),
        sum_den(b, k) == sum_den(a, k),
    decreases k,
{
    if k > 0 {
        let j = k - 1;
        lemma_linear_prefix(a, b, c, s, t, x, (k - 1) as nat);
        lemma_basis_same_indices(a, b, j, x, a.len());
        lemma_basis_same_indices(a, c, j, x, a.len());
        let nj = basis_num(a, j, x, a.len());
        let dj = basis_den(a, j, a.len());
        let q = sum_den(a, (k - 1) as nat);
        let pa = sum_num(a, x, (k - 1) as nat);
        let pb = sum_num(b, x, (k - 1) as nat);
        let ya = a[j].1 as int;
        let yb = b[j].1 as int;
        assert(c[j].1 == s * ya + t * yb);
        let w = nj * q;
        let yc = s * ya + t * yb;
        assert(ya * nj * q == ya * w && yb * nj * q == yb * w && yc * nj * q == yc * w) by (nonlinear_arith)
            requires
                w == nj * q,
        ;
        vstd::arithmetic::mul::lemma_mul_is_distributive_add_other_way(dj, s * pa, t * pb);
        vstd::arithmetic::mul::lemma_mul_is_distributive_add_other_way(w, s * ya, t * yb);
        vstd::arithmetic::mul::lemma_mul_is_distributive_add(s, pa * dj, ya * w);
        vstd::arithmetic::mul::lemma_mul_is_distributive_add(t, pb * dj, yb * w);
        vstd::arithmetic::mul::lemma_mul_is_associative(s, pa, dj);
        vstd::arithmetic::mul::lemma_mul_is_associative(t, pb, dj);
        vstd::arithmetic::mul::lemma_mul_is_associative(s, ya, w);
        vstd::arithmetic::mul::lemma_mul_is_associative(t, yb, w);
    }
}

/// Over one set of indices the exact interpolated value is linear in the
/// share values: with `c_i = s·a_i + t·b_i`, the numerators combine the same
/// way over a common denominator, so
/// `interpolation(c, x) = trunc((s·P_a + t·P_b) / Q)`.
pub proof fn lemma_interpolation_linear(a: Seq<Share>, b: Seq<Share>, c: Seq<Share>, s: int, t: int, x: int)
    requires
        same_indices(a, b),
        same_indices(a, c),
        forall|i: int| 0 <= i < a.len() ==> (#[trigger] c[i]).1 == s * a[i].1 + t * b[i].1,
    ensures
        sum_den(c, c.len()) == sum_den(a, a.len()),
        sum_den(b, b.len()) == sum_den(a, a.len()),
        sum_num(c, x, c.len()) == s * sum_num(a, x, a.len()) + t * sum_num(b, x, b.len()),
        interpolation(c, x) == trunc_div(
            s * sum_num(a, x, a.len()) + t * sum_num(b, x, b.len()),
            sum_den(a, a.len()),
        ),
{
    lemma_linear_prefix(a, b, c, s, t, x, a.len());
}

/// `w` with the share at `k` moved to position `m - 1`; the shares between
/// move down by one.
spec fn moved(w: Seq<Share>, k: int, m: int) -> Seq<Share> {
    w.subrange(0, k) + w.subrange(k + 1, m) + seq![w[k]] + w.subrange(m, w.len() as int)
}

proof fn lemma_move(w: Seq<Share>, k: int, m: int, x: int)
    requires
        0 <= k < m <= w.len(),
    ensures
        sum_num(moved(w, k, m), x, w.len()) == sum_num(w, x, w.len()),
        sum_den(moved(w, k, m), w.len()) == sum_den(w, w.len()),
    decreases m - k,
{
    if k == m - 1 {
        assert(moved(w, k, m) =~= w);
    } else {
        let w2 = swap_adjacent(w, k);
        lemma_sum_swap(w, k, x, w.len());
        lemma_move(w2, k + 1, m, x);
        assert(moved(w2, k + 1, m) =~= moved(w, k, m));
    }
}

proof fn lemma_reorder(t: Seq<Share>, t2: Seq<Share>, u: Seq<Share>, x: int)
    requires
        t.to_multiset() == t2.to_multiset(),
    ensures
        sum_num(t + u, x, (t + u).len()) == sum_num(t2 + u, x, (t2 + u).len()),
        sum_den(t + u, (t + u).len()) == sum_den(t2 + u, (t2 + u).len()),
    decreases t.len(),
{
    t.to_multiset_ensures();
    t2.to_multiset_ensures();
    if t.len() == 0 {
        assert(t =~= t2);
    } else {
        let b = t2.last();
        let r2 = t2.drop_last();
        assert(r2.push(b) =~= t2);
        r2.to_multiset_ensures();
        assert(t2.to_multiset().count(b) > 0);
        assert(t.contains(b));
        let k = choose|k: int| 0 <= k < t.len() && t[k] == b;
        let r = t.remove(k);
        assert(r.to_multiset() =~= r2.to_multiset());
        let v = seq![b] + u;
        lemma_reorder(r, r2, v, x);
        let w = t + u;
        lemma_move(w, k, t.len() as int, x);
        assert(moved(w, k, t.len() as int) =~= r + v);
        assert(t2 + u =~= r2 + v);
    }
}

/// Reordering the shares does not change the interpolated value at any point.
pub proof fn lemma_interpolation_reorder(s: Seq<Share>, s2: Seq<Share>, x: int)
    requires
        s.to_multiset() == s2.to_multiset(),
    ensures
        interpolation(s2, x) == interpolation(s, x),
{
    let e = Seq::<Share>::empty();
    lemma_reorder(s, s2, e, x);
    assert(s + e =~= s);
    assert(s2 + e =~= s2);
}

/// Relies on num's `Integer::gcd` for `u128` (Stein's algorithm): the
/// greatest common divisor, which divides both arguments and is zero only
/// when both are.
#[verifier::external_body]
fn gcd(a: u128, b: u128) -> (r: u128)
    ensures
        r > 0 ==> a % r == 0 && b % r == 0,
        (a > 0 || b > 0) ==> r > 0,
{
    num::Integer::gcd(&a, &b)
}

/// `|v|` as an unsigned value.
fn magnitude(v: i128) -> (r: u128)
    ensures
        r as int == abs(v as int),
{
    if v >= 0 {
        v as u128
    } else {
        ((-(v + 1)) as u128) + 1
    }
}

/// Divides the fraction `p / d` by a common factor where one is found.
fn reduce(p: i128, d: i128) -> (r: (i128, i128))
    requires
        d > 0,
    ensures
        0 < r.1 <= d,
        r.0 * d == p * r.1,
{
    if p == i128::MIN {
        return (p, d);
    }
    let a = magnitude(p);
    let g = gcd(a, d as u128);
    let a2 = a / g;
    let d2 = (d as u128) / g;
    proof {
        vstd::arithmetic::div_mod::lemma_fundamental_div_mod(a as int, g as int);
        vstd::arithmetic::div_mod::lemma_fundamental_div_mod(d as int, g as int);
        assert(a2 <= a) by (nonlinear_arith)
            requires
                a == g * a2,
                g > 0,
        ;
        assert(d2 <= d && d2 > 0) by (nonlinear_arith)
            requires
                d == g * d2,
                g > 0,
                d > 0,
        ;
    }
    let p2: i128 = if p < 0 {
        -(a2 as i128)
    } else {
        a2 as i128
    };
    proof {
        assert(p2 * d == p * d2) by (nonlinear_arith)
            requires
                a == g * a2,
                d == g * d2,
                a == abs(p as int),
                p2 == (if p < 0 { -a2 } else { a2 as int }),
        ;
    }
    (p2, d2 as i128)
}

/// Numerator and denominator of the `j`-th basis polynomial at `x`, or
/// `None` where they overflow.
fn basis(shares: &Vec<Share>, j: usize, x: usize) -> (r: Option<(i128, i128)>)
    requires
        j < shares.len(),
    ensures
        r matches Some(v) ==> v.0 == basis_num(shares@, j as int, x as int, shares.len() as nat)
            && v.1 == basis_den(shares@, j as int, shares.len() as nat),
        basis_fits(shares@, j as int, x as int) ==> r is Some,
{
    let xj = shares[j].0 as i128;
    let mut num: i128 = 1;
    let mut den: i128 = 1;
    let mut k: usize = 0;
    while k < shares.len()
        invariant
            k <= shares.len(),
            j < shares.len(),
            xj == shares@[j as int].0,
            num == basis_num(shares@, j as int, x as int, k as nat),
            den == basis_den(shares@, j as int, k as nat),
        decreases shares.len() - k,
    {
        if k != j {
            let xm = shares[k].0 as i128;
            proof {
                if basis_fits(shares@, j as int, x as int) {
                    assert(small(basis_num(shares@, j as int, x as int, (k + 1) as nat)));
                    assert(small(basis_den(shares@, j as int, (k + 1) as nat)));
                }
            }
            match num.checked_mul((x as i128) - xm) {
                Some(v) => {
                    num = v;
                },
                None => {
                    return None;
                },
            }
            match den.checked_mul(xj - xm) {
                Some(v) => {
                    den = v;
                },
                None => {
                    return None;
                },
            }
        }
        k = k + 1;
    }
    Some((num, den))
}

proof fn lemma_cross_step(np: int, nd: int, pp: int, qq: int, r0: int, r1: int)
    requires
        nd > 0,
        np * qq == nd * pp,
        r0 * nd == np * r1,
    ensures
        r0 * qq == r1 * pp,
{
    assert((r0 * qq - r1 * pp) * nd == 0) by (nonlinear_arith)
        requires
            np * qq == nd * pp,
            r0 * nd == np * r1,
    ;
    assert(r0 * qq - r1 * pp == 0) by (nonlinear_arith)
        requires
            (r0 * qq - r1 * pp) * nd == 0,
            nd > 0,
    ;
}

proof fn lemma_add_term(p: int, d: int, pp: int, qq: int, u: int, td0: int, tn: int, td: int)
    requires
        p * qq == d * pp,
        td0 != 0,
        (td0 > 0 && tn == u && td == td0) || (td0 < 0 && tn == -u && td == -td0),
    ensures
        (p * td + tn * d) * (qq * td0) == (d * td) * (pp * td0 + u * qq),
{
    let w = td0 * td0;
    assert((p * td0 + u * d) * (qq * td0) == (p * qq) * w + u * d * qq * td0) by (nonlinear_arith)
        requires
            w == td0 * td0,
    ;
    let l = d * td0;
    vstd::arithmetic::mul::lemma_mul_is_distributive_add(l, pp * td0, u * qq);
    assert(l * (pp * td0) == (d * pp) * w) by (nonlinear_arith)
        requires
            w == td0 * td0,
            l == d * td0,
    ;
    assert(l * (u * qq) == u * d * qq * td0) by (nonlinear_arith)
        requires
            l == d * td0,
    ;
    if td0 < 0 {
        assert(p * td + tn * d == -(p * td0 + u * d)) by (nonlinear_arith)
            requires
                tn == -u,
                td == -td0,
        ;
        assert(d * td == -(d * td0)) by (nonlinear_arith)
            requires
                td == -td0,
        ;
        assert((-(p * td0 + u * d)) * (qq * td0) == (-(d * td0)) * (pp * td0 + u * qq)) by (nonlinear_arith)
            requires
                (p * td0 + u * d) * (qq * td0) == (d * td0) * (pp * td0 + u * qq),
        ;
    }
}

/// A share set captured by value, ready to be evaluated at any point.
pub struct Interpolant {
    shares: Vec<Share>,
}

impl View for Interpolant {
    type V = Seq<Share>;

    closed spec fn view(&self) -> Seq<Share> {
        self.shares@
    }
}

/// Captures a copy of `shares` for later evaluation.
pub fn interpolate(shares: &Vec<Share>) -> (r: Interpolant)
    requires
        distinct_indices(shares@),
    ensures
        r@ == shares@,
{
    Interpolant { shares: shares.clone() }
}

impl Interpolant {
    /// The interpolating polynomial at `x`, computed over exact fractions and
    /// rounded towards zero at the end. Common factors are cancelled as the
    /// terms are added; the result is `None` only where an intermediate value
    /// leaves `i128`, which cannot happen when the uncancelled values all fit.
    pub fn eval(&self, x: usize) -> (r: Option<i128>)
        requires
            distinct_indices(self@),
        ensures
            r matches Some(v) ==> v == interpolation(self@, x as int),
            fits(self@, x as int) ==> r is Some,
    {
        let shares = &self.shares;
        let ghost s = shares@;
        let ghost xi = x as int;
        let mut p: i128 = 0;
        let mut d: i128 = 1;
        let mut k: usize = 0;
        while k < shares.len()
            invariant
                s == shares@,
                s == self@,
                xi == x as int,
                distinct_indices(s),
                k <= s.len(),
                d > 0,
                sum_den(s, k as nat) != 0,
                p * sum_den(s, k as nat) == d * sum_num(s, xi, k as nat),
                d <= abs(sum_den(s, k as nat)),
                abs(p as int) <= abs(sum_num(s, xi, k as nat)),
                fits(s, xi) && k > 0 ==> small(sum_num(s, xi, k as nat)),
            decreases s.len() - k,
        {
            proof {
                if fits(s, xi) {
                    assert(step_fits(s, xi, k as int));
                }
                lemma_basis_den_nonzero(s, k as int, s.len());
            }
            let ghost qq = sum_den(s, k as nat);
            let ghost pp = sum_num(s, xi, k as nat);
            let ghost nk = basis_num(s, k as int, xi, s.len());
            let ghost dk = basis_den(s, k as int, s.len());
            let (tn0, td0) = match basis(shares, k, x) {
                Some(v) => v,
                None => {
                    return None;
                },
            };
            if td0 == 0 {
                return None;
            }
            let y = shares[k].1;
            let t = match y.checked_mul(tn0) {
                Some(v) => v,
                None => {
                    return None;
                },
            };
            let (tn, td) = if td0 > 0 {
                (t, td0)
            } else {
                if t == i128::MIN || td0 == i128::MIN {
                    return None;
                }
                (-t, -td0)
            };
            proof {
                lemma_add_term(p as int, d as int, pp, qq, y * tn0, td0 as int, tn as int, td as int);
                assert(sum_den(s, (k + 1) as nat) == qq * td0);
                assert(sum_num(s, xi, (k + 1) as nat) == pp * td0 + y * tn0 * qq);
                assert(td as int == abs(dk));
                assert(abs(tn as int) == abs(y * nk));
                assert(abs(p * td) <= abs(pp * dk)) by (nonlinear_arith)
                    requires
                        abs(p as int) <= abs(pp),
                        td as int == abs(dk),
                ;
                assert(abs(tn * d) <= abs(y * nk * qq)) by (nonlinear_arith)
                    requires
                        abs(tn as int) == abs(y * nk),
                        0 < d <= abs(qq),
                ;
                assert(0 < d * td <= abs(qq * td0)) by (nonlinear_arith)
                    requires
                        0 < d <= abs(qq),
                        td as int == abs(td0 as int),
                        td > 0,
                ;
                assert(qq * td0 != 0) by (nonlinear_arith)
                    requires
                        qq != 0,
                        td0 != 0,
                ;
                lemma_abs_bound(
                    p * td + tn * d,
                    d * td,
                    sum_num(s, xi, (k + 1) as nat),
                    sum_den(s, (k + 1) as nat),
                );
            }
            let np = match p.checked_mul(td) {
                Some(a) => match tn.checked_mul(d) {
                    Some(b) => match a.checked_add(b) {
                        Some(c) => c,
                        None => {
                            return None;
                        },
                    },
                    None => {
                        return None;
                    },
                },
                None => {
                    return None;
                },
            };
            let nd = match d.checked_mul(td) {
                Some(v) => v,
                None => {
                    return None;
                },
            };
            let r = reduce(np, nd);
            proof {
                lemma_cross_step(
                    np as int,
                    nd as int,
                    sum_num(s, xi, (k + 1) as nat),
                    sum_den(s, (k + 1) as nat),
                    r.0 as int,
                    r.1 as int,
                );
                lemma_abs_bound(r.0 as int, r.1 as int, sum_num(s, xi, (k + 1) as nat), sum_den(s, (k + 1) as nat));
            }
            p = r.0;
            d = r.1;
            k = k + 1;
        }
        let a = magnitude(p);
        let mag = a / (d as u128);
        proof {
            assert(mag <= a) by (nonlinear_arith)
                requires
                    mag == a / (d as u128),
                    d > 0,
            ;
            if fits(s, xi) && s.len() == 0 {
                assert(p == 0);
            }
        }
        if mag > i128::MAX as u128 {
            return None;
        }
        let v: i128 = if p >= 0 {
            mag as i128
        } else {
            -(mag as i128)
        };
        proof {
            lemma_trunc_div_cross(p as int, d as int, sum_num(s, xi, s.len()), sum_den(s, s.len()));
        }
        Some(v)
    }
}

} // verus!
