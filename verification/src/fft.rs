//! Fast Fourier transforms of radix two and three.
use crate::butterfly::{
    combined, lemma_combined_pair, lemma_combined_triple, lemma_level_first, lemma_level_last,
    lemma_level_next, lemma_partly_first, lemma_partly_last, lemma_partly_row, lemma_partly_step,
    lemma_position_of, level, partly_combined,
};
use crate::digits::{
    is_power, lemma_exponent_order, lemma_pow_step, lemma_reversed_bound, lemma_reversed_involution,
    log_of, reverse_digits, reversed,
};
use crate::field::{
    lemma_root2, lemma_root3, lemma_vals, root2, root3, vals, PrimeField, ThreeAdicField,
};
use crate::modular::{
    inverse, is_prime, lemma_add_congr, lemma_congr_iff, lemma_inverse, lemma_inverse_unique,
    lemma_mod_mod, lemma_mul_congr, lemma_no_zero_divisors, lemma_pow_congr, lemma_sub_congr,
};
use crate::polynomial::scale;
use crate::transform::{dft, idft, lemma_inverse_root, lemma_root_nonzero, primitive_root};
use vstd::arithmetic::div_mod::{lemma_fundamental_div_mod_converse, lemma_small_mod};
use vstd::arithmetic::power::{
    lemma_pow0, lemma_pow_adds, lemma_pow_increases, lemma_pow_multiplies, lemma_pow_positive, pow,
};
use vstd::arithmetic::power2::{lemma2_to64_rest, lemma_pow2, lemma_pow2_strictly_increases};
use vstd::bits::lemma_u64_shl_is_mul;
use vstd::prelude::*;

verus! {

/// Moves each element to the index whose digits are the reverse of its own index.
fn reverse_order<F: Copy>(data: &mut Vec<F>, radix: usize, log: u32)
    requires
        radix >= 2,
        old(data)@.len() == pow(radix as int, log as nat),
    ensures
        final(data)@.len() == old(data)@.len(),
        forall|pos: int|
            0 <= pos < final(data)@.len() ==> #[trigger] final(data)@[pos] == old(data)@[reversed(
                radix as int,
                log as nat,
                pos,
            )],
{
    let n: usize = data.len();
    let ghost c = data@;
    let ghost r = radix as int;
    let ghost l = log as nat;
    let mut i: usize = 0;
    proof {
        assert forall|pos: int| 0 <= pos < n implies 0 <= #[trigger] reversed(r, l, pos) by {
            lemma_reversed_bound(r, l, pos);
        }
    }
    while i < n
        invariant
            i <= n,
            n == c.len(),
            data@.len() == n,
            r == radix as int,
            l == log as nat,
            radix >= 2,
            n == pow(r, l),
            forall|pos: int|
                0 <= pos < n ==> #[trigger] data@[pos] == if pos < i || reversed(r, l, pos) < i {
                    c[reversed(r, l, pos)]
                } else {
                    c[pos]
                },
        decreases n - i,
    {
        let j: usize = reverse_digits(radix, log, i);
        proof {
            lemma_reversed_bound(r, l, i as int);
            lemma_reversed_involution(r, l, i as int);
        }
        let ghost before = data@;
        if i < j {
            let x = data[i];
            let y = data[j];
            data.set(i, y);
            data.set(j, x);
        }
        proof {
            assert forall|pos: int| 0 <= pos < n implies #[trigger] data@[pos] == if pos < i + 1
                || reversed(r, l, pos) < i + 1 {
                c[reversed(r, l, pos)]
            } else {
                c[pos]
            } by {
                lemma_reversed_bound(r, l, pos);
                lemma_reversed_involution(r, l, pos);
                assert(before[pos] == if pos < i || reversed(r, l, pos) < i {
                    c[reversed(r, l, pos)]
                } else {
                    c[pos]
                });
                assert(before[i as int] == if i < i || reversed(r, l, i as int) < i {
                    c[reversed(r, l, i as int)]
                } else {
                    c[i as int]
                });
                assert(before[j as int] == if j < i || reversed(r, l, j as int) < i {
                    c[reversed(r, l, j as int)]
                } else {
                    c[j as int]
                });
            }
        }
        i = i + 1;
    }
    proof {
        assert forall|pos: int| 0 <= pos < n implies #[trigger] data@[pos] == c[reversed(
            r,
            l,
            pos,
        )] by {
            lemma_reversed_bound(r, l, pos);
        }
    }
}

/// Half the order of a primitive root of unity makes minus one of it.
pub proof fn lemma_half_turn(w: int, h: int, p: int)
    requires
        is_prime(p),
        h > 0,
        primitive_root(w, 2 * h, p),
    ensures
        pow(w, h as nat) % p == (-1) % p,
{
    let z = pow(w, h as nat);
    lemma_pow_adds(w, h as nat, h as nat);
    assert(h as nat + h as nat == (2 * h) as nat);
    lemma_small_mod(1, p as nat);
    lemma_congr_iff(z * z, 1, p);
    assert(z * z - 1 == (z - 1) * (z + 1)) by (nonlinear_arith);
    lemma_no_zero_divisors(z - 1, z + 1, p);
    lemma_congr_iff(z, 1, p);
    lemma_congr_iff(z, -1, p);
    assert(z % p != 1);
}

/// Combines neighbouring blocks of `m` elements in pairs.
fn combine_pairs<F: PrimeField>(data: &mut Vec<F>, omega: F, m: usize, q: usize)
    requires
        m > 0,
        q > 0,
        old(data)@.len() == q * (m * 2),
        pow(omega.val(), (q * m) as nat) % F::modulus() == (-1) % F::modulus(),
    ensures
        final(data)@.len() == old(data)@.len(),
        forall|pos: int|
            0 <= pos < final(data)@.len() ==> #[trigger] vals(final(data)@)[pos] == combined(
                vals(old(data)@),
                2,
                m as int,
                q as int,
                omega.val(),
                pos,
            ) % F::modulus(),
{
    let ghost p = F::modulus();
    let ghost v = vals(data@);
    let ghost w = omega.val();
    let n: usize = data.len();
    proof {
        F::lemma_modulus();
        lemma_vals(data@);
        lemma_partly_first(v, 2, m as int, q as int, w, p);
        lemma_pow0(w);
        assert(m * 2 <= n) by (nonlinear_arith)
            requires
                n == q * (m * 2),
                q > 0,
        ;
    }
    let step: usize = m * 2;
    let wm = omega.power(q as u64);
    let mut x = F::one();
    let mut k: usize = 0;
    proof {
        assert(q * 0 == 0);
        lemma_small_mod(1, p as nat);
    }
    while k < m
        invariant
            k <= m,
            m > 0,
            q > 0,
            step == m * 2,
            n == q * (m * 2),
            data@.len() == n,
            v.len() == n,
            p == F::modulus(),
            p > 1,
            w == omega.val(),
            wm.val() == pow(w, q as nat) % p,
            x.val() == pow(w, (q * k) as nat) % p,
            pow(w, (q * m) as nat) % p == (-1) % p,
            partly_combined(v, vals(data@), 2, m as int, q as int, w, p, k as int, 0),
        decreases m - k,
    {
        let mut b: usize = 0;
        while b < q
            invariant
                b <= q,
                k < m,
                m > 0,
                step == m * 2,
                n == q * (m * 2),
                data@.len() == n,
                v.len() == n,
                p == F::modulus(),
                p > 1,
                w == omega.val(),
                x.val() == pow(w, (q * k) as nat) % p,
                pow(w, (q * m) as nat) % p == (-1) % p,
                partly_combined(v, vals(data@), 2, m as int, q as int, w, p, k as int, b as int),
            decreases q - b,
        {
            proof {
                assert(b * step + step <= n) by (nonlinear_arith)
                    requires
                        b <= q - 1,
                        n == q * step,
                        step >= 0,
                ;
                lemma_position_of(b as int, 0, k as int, 2, m as int);
                lemma_position_of(b as int, 1, k as int, 2, m as int);
                assert(0 * m == 0);
                assert(1 * m == m);
            }
            let j: usize = b * step + k;
            let ghost before = data@;
            let y = x.times(data[j + m]);
            let u = data[j];
            data.set(j, u.plus(y));
            data.set(j + m, u.minus(y));
            proof {
                let now = vals(before);
                let next = vals(data@);
                assert(now[j as int] == v[j as int]);
                assert(now[j + m] == v[j + m]);
                let xv = x.val();
                let c = v[j + m];
                lemma_mod_mod(pow(w, (q * k) as nat), p);
                lemma_combined_pair(v, m as int, q as int, w, p, b as int, k as int, xv);
                lemma_mod_mod(xv * c, p);
                lemma_add_congr(v[j as int], v[j as int], (xv * c) % p, xv * c, p);
                lemma_sub_congr(v[j as int], v[j as int], (xv * c) % p, xv * c, p);
                assert forall|e: int|
                    0 <= e < 2 && b * (m * 2) + e * m + k < next.len() implies #[trigger] next[b
                    * (m * 2) + e * m + k] == combined(
                    v,
                    2,
                    m as int,
                    q as int,
                    w,
                    b * (m * 2) + e * m + k,
                ) % p by {
                    assert(e == 0 || e == 1);
                }
                assert forall|pos: int|
                    0 <= pos < next.len() && !(pos % (m as int) == k && pos / (m * 2)
                        == b) implies #[trigger] next[pos] == now[pos] by {
                    assert(pos != j);
                    assert(pos != j + m);
                }
                lemma_partly_step(
                    v,
                    now,
                    next,
                    2,
                    m as int,
                    q as int,
                    w,
                    p,
                    k as int,
                    b as int,
                );
            }
            b = b + 1;
        }
        proof {
            lemma_partly_row(v, vals(data@), 2, m as int, q as int, w, p, k as int);
            let a = (q * k) as nat;
            lemma_pow_adds(w, a, q as nat);
            assert(q * k + q == q * (k + 1)) by (nonlinear_arith);
            lemma_mod_mod(pow(w, a), p);
            lemma_mod_mod(pow(w, q as nat), p);
            lemma_mul_congr(x.val(), pow(w, a), wm.val(), pow(w, q as nat), p);
        }
        x = x.times(wm);
        k = k + 1;
    }
    proof {
        lemma_partly_last(v, vals(data@), 2, m as int, q as int, w, p);
    }
}

/// Transforms the data in place: a polynomial's coefficients become its values at the powers of
/// `omega`.
pub fn fft2<F: PrimeField>(data: &mut Vec<F>, omega: F)
    requires
        is_power(2, old(data)@.len() as int),
        primitive_root(omega.val(), old(data)@.len() as int, F::modulus()),
    ensures
        vals(final(data)@) == dft(vals(old(data)@), omega.val(), F::modulus()),
        final(data)@.len() == old(data)@.len(),
{
    let n: usize = data.len();
    let log_n: u32 = log_of(2, n);
    let ghost c = vals(data@);
    let ghost p = F::modulus();
    let ghost w = omega.val();
    let ghost l = log_n as nat;
    proof {
        lemma_vals(data@);
        F::lemma_modulus();
    }
    reverse_order(data, 2, log_n);
    proof {
        assert forall|pos: int| 0 <= pos < n implies #[trigger] vals(data@)[pos] == c[reversed(
            2,
            l,
            pos,
        )] by {
            lemma_reversed_bound(2, l, pos);
        }
        lemma_level_first(vals(data@), c, 2, l, w, p);
        lemma_pow0(2);
    }
    let mut m: usize = 1;
    let mut s: u32 = 0;
    while s < log_n
        invariant
            s <= log_n,
            l == log_n as nat,
            n == pow(2, l),
            c.len() == n,
            data@.len() == n,
            p == F::modulus(),
            is_prime(p),
            w == omega.val(),
            m == pow(2, s as nat),
            primitive_root(w, n as int, p),
            level(vals(data@), c, 2, l, s as nat, w, p),
        decreases log_n - s,
    {
        proof {
            let e = (l - s - 1) as nat;
            lemma_pow_positive(2, s as nat);
            lemma_pow_positive(2, e);
            lemma_pow_step(2, s as nat);
            lemma_pow_adds(2, (s + 1) as nat, e);
            assert((s + 1) as nat + e == l);
            let q = pow(2, e);
            assert(n == q * (m * 2)) by (nonlinear_arith)
                requires
                    n == (2 * m) * q,
            ;
            assert(n == 2 * (q * m)) by (nonlinear_arith)
                requires
                    n == (2 * m) * q,
            ;
            assert(q * m > 0) by (nonlinear_arith)
                requires
                    q > 0,
                    m > 0,
            ;
            assert(m * 2 <= n) by (nonlinear_arith)
                requires
                    n == q * (m * 2),
                    q > 0,
            ;
            assert(q * (m * 2) == (m * 2) * q) by (nonlinear_arith);
            lemma_fundamental_div_mod_converse(n as int, m * 2, q, 0);
            lemma_half_turn(w, q * m, p);
        }
        let step: usize = m * 2;
        let q: usize = n / step;
        let ghost before = vals(data@);
        combine_pairs(data, omega, m, q);
        proof {
            lemma_level_next(before, vals(data@), c, 2, l, s as nat, w, p);
        }
        m = step;
        s = s + 1;
    }
    proof {
        lemma_level_last(vals(data@), c, 2, l, w, p);
    }
}

/// Transforms the data back: a polynomial's values at the powers of `omega` become its
/// coefficients.
pub fn ifft2<F: PrimeField>(data: &mut Vec<F>, omega: F)
    requires
        is_power(2, old(data)@.len() as int),
        old(data)@.len() < F::modulus(),
        primitive_root(omega.val(), old(data)@.len() as int, F::modulus()),
    ensures
        vals(final(data)@) == idft(vals(old(data)@), omega.val(), F::modulus()),
        final(data)@.len() == old(data)@.len(),
{
    let n: usize = data.len();
    let inv = inverse_root(omega, n);
    fft2(data, inv);
    scale(data, inverse_length::<F>(n));
}

/// Returns the inverse of a root of unity.
fn inverse_root<F: PrimeField>(omega: F, n: usize) -> (r: F)
    requires
        primitive_root(omega.val(), n as int, F::modulus()),
    ensures
        r.val() == inverse(omega.val(), F::modulus()),
        primitive_root(r.val(), n as int, F::modulus()),
{
    let ghost p = F::modulus();
    let ghost w = omega.val();
    proof {
        F::lemma_modulus();
        omega.lemma_val();
        lemma_root_nonzero(w, n as int, p);
        lemma_small_mod(0, p as nat);
    }
    let r = omega.invert().unwrap();
    proof {
        lemma_inverse(w, p);
        lemma_inverse_unique(w, r.val(), inverse(w, p), p);
        lemma_small_mod(r.val() as nat, p as nat);
        lemma_small_mod(inverse(w, p) as nat, p as nat);
        lemma_inverse_root(w, r.val(), n as int, p);
    }
    r
}

/// Returns the inverse of a length.
fn inverse_length<F: PrimeField>(n: usize) -> (r: F)
    requires
        0 < n < F::modulus(),
    ensures
        r.val() == inverse(n as int, F::modulus()),
{
    let ghost p = F::modulus();
    proof {
        F::lemma_modulus();
        lemma_small_mod(n as nat, p as nat);
    }
    let r = F::from_u64(n as u64).invert().unwrap();
    proof {
        lemma_inverse(n as int, p);
        lemma_inverse_unique(n as int, r.val(), inverse(n as int, p), p);
        lemma_small_mod(r.val() as nat, p as nat);
        lemma_small_mod(inverse(n as int, p) as nat, p as nat);
    }
    r
}

/// A third of the order of a primitive root of unity makes a third root of unity of it.
pub proof fn lemma_third_turn(w: int, h: int, p: int)
    requires
        h > 0,
        primitive_root(w, 3 * h, p),
    ensures
        pow(pow(w, h as nat), 3) % p == 1,
{
    lemma_pow_multiplies(w, h as nat, 3);
    assert((h as nat) * 3 == (3 * h) as nat);
}

/// Combines neighbouring blocks of `m` elements in groups of three.
fn combine_triples<F: PrimeField>(
    data: &mut Vec<F>,
    omega: F,
    omega3: F,
    m: usize,
    q: usize,
)
    requires
        m > 0,
        q > 0,
        old(data)@.len() == q * (m * 3),
        pow(omega.val(), (q * m) as nat) % F::modulus() == omega3.val(),
        pow(omega3.val(), 3) % F::modulus() == 1,
    ensures
        final(data)@.len() == old(data)@.len(),
        forall|pos: int|
            0 <= pos < final(data)@.len() ==> #[trigger] vals(final(data)@)[pos] == combined(
                vals(old(data)@),
                3,
                m as int,
                q as int,
                omega.val(),
                pos,
            ) % F::modulus(),
{
    let ghost p = F::modulus();
    let ghost v = vals(data@);
    let ghost w = omega.val();
    let ghost z = omega3.val();
    let n: usize = data.len();
    proof {
        F::lemma_modulus();
        omega3.lemma_val();
        lemma_vals(data@);
        lemma_partly_first(v, 3, m as int, q as int, w, p);
        lemma_pow0(w);
        assert(m * 3 <= n) by (nonlinear_arith)
            requires
                n == q * (m * 3),
                q > 0,
        ;
        assert(q * 0 == 0);
        lemma_small_mod(1, p as nat);
        lemma_small_mod(z as nat, p as nat);
    }
    let omega3_sq = omega3.times(omega3);
    let step: usize = m * 3;
    let wm = omega.power(q as u64);
    let mut x = F::one();
    let mut x2 = F::one();
    let mut k: usize = 0;
    while k < m
        invariant
            k <= m,
            m > 0,
            q > 0,
            step == m * 3,
            n == q * (m * 3),
            data@.len() == n,
            v.len() == n,
            p == F::modulus(),
            p > 1,
            w == omega.val(),
            z == omega3.val(),
            omega3_sq.val() == (z * z) % p,
            wm.val() == pow(w, q as nat) % p,
            x.val() == pow(w, (q * k) as nat) % p,
            x2.val() == (x.val() * x.val()) % p,
            pow(w, (q * m) as nat) % p == z % p,
            pow(z, 3) % p == 1,
            partly_combined(v, vals(data@), 3, m as int, q as int, w, p, k as int, 0),
        decreases m - k,
    {
        let mut b: usize = 0;
        while b < q
            invariant
                b <= q,
                k < m,
                m > 0,
                step == m * 3,
                n == q * (m * 3),
                data@.len() == n,
                v.len() == n,
                p == F::modulus(),
                p > 1,
                w == omega.val(),
                z == omega3.val(),
                omega3_sq.val() == (z * z) % p,
                x.val() == pow(w, (q * k) as nat) % p,
                x2.val() == (x.val() * x.val()) % p,
                pow(w, (q * m) as nat) % p == z % p,
                pow(z, 3) % p == 1,
                partly_combined(v, vals(data@), 3, m as int, q as int, w, p, k as int, b as int),
            decreases q - b,
        {
            proof {
                assert(b * step + step <= n) by (nonlinear_arith)
                    requires
                        b <= q - 1,
                        n == q * step,
                        step >= 0,
                ;
                lemma_position_of(b as int, 0, k as int, 3, m as int);
                lemma_position_of(b as int, 1, k as int, 3, m as int);
                lemma_position_of(b as int, 2, k as int, 3, m as int);
                assert(0 * m == 0);
                assert(1 * m == m);
            }
            let j: usize = b * step + k;
            let ghost before = data@;
            let t0 = data[j];
            let t1 = x.times(data[j + m]);
            let t2 = x2.times(data[j + 2 * m]);
            let y0 = t0.plus(t1).plus(t2);
            let y1 = t0.plus(omega3.times(t1)).plus(omega3_sq.times(t2));
            let y2 = t0.plus(omega3_sq.times(t1)).plus(omega3.times(t2));
            data.set(j, y0);
            data.set(j + m, y1);
            data.set(j + 2 * m, y2);
            proof {
                let now = vals(before);
                let next = vals(data@);
                assert(now[j as int] == v[j as int]);
                assert(now[j + m] == v[j + m]);
                assert(now[j + 2 * m] == v[j + 2 * m]);
                let xv = x.val();
                lemma_mod_mod(pow(w, (q * k) as nat), p);
                lemma_combined_triple(v, m as int, q as int, w, p, b as int, k as int, xv, z);
                let a = v[j as int];
                let c = xv * v[j + m];
                let d = (xv * xv) * v[j + 2 * m];
                lemma_mod_mod(c, p);
                lemma_mod_mod(xv * xv, p);
                lemma_mod_mod(z * z, p);
                lemma_mul_congr(x2.val(), xv * xv, v[j + 2 * m], v[j + 2 * m], p);
                lemma_mod_mod(d, p);
                lemma_three_terms(a, 1, t1.val(), c, 1, t2.val(), d, p);
                lemma_three_terms(a, z, t1.val(), c, omega3_sq.val(), t2.val(), d, p);
                lemma_three_terms(a, omega3_sq.val(), t1.val(), c, z, t2.val(), d, p);
                lemma_mul_congr(omega3_sq.val(), z * z, d, d, p);
                lemma_add_congr(a + z * c, a + z * c, omega3_sq.val() * d, (z * z) * d, p);
                lemma_mul_congr(omega3_sq.val(), z * z, c, c, p);
                lemma_add_congr(
                    a + z * d,
                    a + z * d,
                    omega3_sq.val() * c,
                    (z * z) * c,
                    p,
                );
                t1.lemma_val();
                t2.lemma_val();
                lemma_small_mod(t1.val() as nat, p as nat);
                lemma_small_mod(t2.val() as nat, p as nat);
                assert forall|e: int|
                    0 <= e < 3 && b * (m * 3) + e * m + k < next.len() implies #[trigger] next[b
                    * (m * 3) + e * m + k] == combined(
                    v,
                    3,
                    m as int,
                    q as int,
                    w,
                    b * (m * 3) + e * m + k,
                ) % p by {
                    assert(e == 0 || e == 1 || e == 2);
                }
                assert forall|pos: int|
                    0 <= pos < next.len() && !(pos % (m as int) == k && pos / (m * 3)
                        == b) implies #[trigger] next[pos] == now[pos] by {
                    assert(pos != j);
                    assert(pos != j + m);
                    assert(pos != j + 2 * m);
                }
                lemma_partly_step(
                    v,
                    now,
                    next,
                    3,
                    m as int,
                    q as int,
                    w,
                    p,
                    k as int,
                    b as int,
                );
            }
            b = b + 1;
        }
        proof {
            lemma_partly_row(v, vals(data@), 3, m as int, q as int, w, p, k as int);
            let a = (q * k) as nat;
            lemma_pow_adds(w, a, q as nat);
            assert(q * k + q == q * (k + 1)) by (nonlinear_arith);
            lemma_mod_mod(pow(w, a), p);
            lemma_mod_mod(pow(w, q as nat), p);
            lemma_mul_congr(x.val(), pow(w, a), wm.val(), pow(w, q as nat), p);
        }
        x = x.times(wm);
        x2 = x.times(x);
        k = k + 1;
    }
    proof {
        lemma_partly_last(v, vals(data@), 3, m as int, q as int, w, p);
    }
}

/// A sum of three terms that is reduced after each operation.
proof fn lemma_three_terms(
    a: int,
    f: int,
    t1: int,
    c: int,
    g: int,
    t2: int,
    d: int,
    p: int,
)
    requires
        p > 0,
        t1 % p == c % p,
        t2 % p == d % p,
    ensures
        ((a + (f * t1) % p) % p + (g * t2) % p) % p == (a + f * c + g * d) % p,
        ((a + t1) % p + t2) % p == (a + c + d) % p,
{
    lemma_mod_mod(f * t1, p);
    lemma_mod_mod(g * t2, p);
    lemma_mul_congr(f, f, t1, c, p);
    lemma_mul_congr(g, g, t2, d, p);
    lemma_add_congr(a, a, (f * t1) % p, f * c, p);
    lemma_mod_mod(a + (f * t1) % p, p);
    lemma_add_congr((a + (f * t1) % p) % p, a + f * c, (g * t2) % p, g * d, p);
    lemma_add_congr(a, a, t1, c, p);
    lemma_mod_mod(a + t1, p);
    lemma_add_congr((a + t1) % p, a + c, t2, d, p);
}

/// Transforms the data in place: a polynomial's coefficients become its values at the powers of
/// `omega`.
pub fn fft3<F: PrimeField>(data: &mut Vec<F>, omega: F)
    requires
        is_power(3, old(data)@.len() as int),
        primitive_root(omega.val(), old(data)@.len() as int, F::modulus()),
    ensures
        vals(final(data)@) == dft(vals(old(data)@), omega.val(), F::modulus()),
        final(data)@.len() == old(data)@.len(),
{
    let n: usize = data.len();
    let log_n: u32 = log_of(3, n);
    let ghost c = vals(data@);
    let ghost p = F::modulus();
    let ghost w = omega.val();
    let ghost l = log_n as nat;
    proof {
        lemma_vals(data@);
        F::lemma_modulus();
    }
    reverse_order(data, 3, log_n);
    proof {
        assert forall|pos: int| 0 <= pos < n implies #[trigger] vals(data@)[pos] == c[reversed(
            3,
            l,
            pos,
        )] by {
            lemma_reversed_bound(3, l, pos);
        }
        lemma_level_first(vals(data@), c, 3, l, w, p);
        lemma_pow0(3);
    }
    let third: usize = n / 3;
    let omega3 = omega.power(third as u64);
    let mut m: usize = 1;
    let mut s: u32 = 0;
    while s < log_n
        invariant
            s <= log_n,
            l == log_n as nat,
            n == pow(3, l),
            third == n / 3,
            c.len() == n,
            data@.len() == n,
            p == F::modulus(),
            is_prime(p),
            w == omega.val(),
            omega3.val() == pow(w, third as nat) % p,
            m == pow(3, s as nat),
            primitive_root(w, n as int, p),
            level(vals(data@), c, 3, l, s as nat, w, p),
        decreases log_n - s,
    {
        proof {
            let e = (l - s - 1) as nat;
            lemma_pow_positive(3, s as nat);
            lemma_pow_positive(3, e);
            lemma_pow_step(3, s as nat);
            lemma_pow_adds(3, (s + 1) as nat, e);
            assert((s + 1) as nat + e == l);
            let q = pow(3, e);
            assert(n == q * (m * 3)) by (nonlinear_arith)
                requires
                    n == (3 * m) * q,
            ;
            assert(n == 3 * (q * m)) by (nonlinear_arith)
                requires
                    n == (3 * m) * q,
            ;
            assert(q * m > 0) by (nonlinear_arith)
                requires
                    q > 0,
                    m > 0,
            ;
            assert(m * 3 <= n) by (nonlinear_arith)
                requires
                    n == q * (m * 3),
                    q > 0,
            ;
            assert(q * (m * 3) == (m * 3) * q) by (nonlinear_arith);
            lemma_fundamental_div_mod_converse(n as int, m * 3, q, 0);
            assert(third == q * m);
            lemma_third_turn(w, q * m, p);
            let z = pow(w, third as nat);
            lemma_mod_mod(z, p);
            lemma_pow_congr(z, omega3.val(), 3, p);
        }
        let step: usize = m * 3;
        let q: usize = n / step;
        let ghost before = vals(data@);
        combine_triples(data, omega, omega3, m, q);
        proof {
            lemma_level_next(before, vals(data@), c, 3, l, s as nat, w, p);
        }
        m = step;
        s = s + 1;
    }
    proof {
        lemma_level_last(vals(data@), c, 3, l, w, p);
    }
}

/// Transforms the data back: a polynomial's values at the powers of `omega` become its
/// coefficients.
pub fn ifft3<F: PrimeField>(data: &mut Vec<F>, omega: F)
    requires
        is_power(3, old(data)@.len() as int),
        old(data)@.len() < F::modulus(),
        primitive_root(omega.val(), old(data)@.len() as int, F::modulus()),
    ensures
        vals(final(data)@) == idft(vals(old(data)@), omega.val(), F::modulus()),
        final(data)@.len() == old(data)@.len(),
{
    let n: usize = data.len();
    let inv = inverse_root(omega, n);
    fft3(data, inv);
    scale(data, inverse_length::<F>(n));
}

/// Returns the given power of two.
pub fn power_of_two(e: u32) -> (r: u64)
    requires
        e < 64,
    ensures
        r == pow(2, e as nat),
{
    proof {
        lemma_pow2(e as nat);
        lemma_pow2_strictly_increases(e as nat, 64);
        lemma2_to64_rest();
        lemma_u64_shl_is_mul(1, e as u64);
        assert(1u64 << e == 1u64 << (e as u64)) by (bit_vector)
            requires
                e < 64,
        ;
    }
    1u64 << e
}

/// Returns the `n`-th root of unity of the two-adic subgroup.
pub fn two_adic_root_of_unity<F: PrimeField>(n: usize) -> (r: F)
    requires
        is_power(2, n as int),
        n <= pow(2, F::two_adicity()),
    ensures
        r.val() == root2::<F>(n as int),
        primitive_root(r.val(), n as int, F::modulus()),
        n < F::modulus(),
{
    let k: u32 = log_of(2, n);
    proof {
        F::lemma_two_adic();
        lemma_exponent_order(2, k as nat, F::two_adicity());
        lemma_root2::<F>(k as nat);
    }
    F::root_of_unity().power(power_of_two(F::s() - k))
}

/// Returns the given power of three.
fn power_of_three(e: u32) -> (r: u64)
    requires
        pow(3, e as nat) <= u64::MAX,
    ensures
        r == pow(3, e as nat),
{
    let mut r: u64 = 1;
    let mut i: u32 = 0;
    proof {
        lemma_pow0(3);
    }
    while i < e
        invariant
            i <= e,
            r == pow(3, i as nat),
            pow(3, e as nat) <= u64::MAX,
        decreases e - i,
    {
        proof {
            lemma_pow_step(3, i as nat);
            lemma_pow_increases(3, (i + 1) as nat, e as nat);
        }
        r = r * 3;
        i = i + 1;
    }
    r
}

/// Returns the `n`-th root of unity of the three-adic subgroup.
pub fn three_adic_root_of_unity<F: ThreeAdicField>(n: usize) -> (r: F)
    requires
        is_power(3, n as int),
        n <= pow(3, F::three_adicity()),
    ensures
        r.val() == root3::<F>(n as int),
        primitive_root(r.val(), n as int, F::modulus()),
        n < F::modulus(),
{
    let k: u32 = log_of(3, n);
    proof {
        F::lemma_three_adic();
        lemma_exponent_order(3, k as nat, F::three_adicity());
        lemma_root3::<F>(k as nat);
    }
    let e: u32 = F::t() - k;
    proof {
        lemma_pow_increases(3, e as nat, F::three_adicity());
    }
    F::three_adic_root_of_unity().power(power_of_three(e))
}

} // verus!
