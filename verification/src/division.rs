//! Division by `x^n - 1`, the polynomial that vanishes on the `n`-th roots of unity.
use crate::algebra::{
    coef, degree_bound, eval, lemma_degree_bound, lemma_eval_add, lemma_eval_congr, lemma_trim,
    max_len, poly_add, poly_mul, reduced, same_poly, trim,
};
use crate::domains::all_zero;
use crate::error::Error;
use crate::field::{lemma_vals, vals, PrimeField};
use crate::modular::{
    is_prime, lemma_add_congr, lemma_congr_iff, lemma_mod_mod, lemma_mul_congr,
    lemma_no_zero_divisors, lemma_pow_congr, lemma_sub_congr,
};
use crate::operation_laws::law_quotient;
use crate::polynomial::{degree_bound_of, resize, Polynomial};
use crate::products::{
    lemma_eval_poly_mul, lemma_mul_coef_extend, lemma_poly_mul_coef, lemma_poly_mul_commutes,
};
use crate::roots::lemma_too_many_roots;
use crate::sums::{lemma_sum_ext, lemma_sum_pair, lemma_sum_scale, lemma_sum_split, lemma_sum_zero};
use crate::transform::{
    lemma_pow_nonzero, lemma_root_nonzero, lemma_root_powers_distinct, primitive_root,
};
use vstd::arithmetic::div_mod::lemma_small_mod;
use vstd::arithmetic::power::{lemma1_pow, lemma_pow0, lemma_pow_adds, lemma_pow_multiplies, pow};
use vstd::prelude::*;

verus! {

/// The polynomial `x^n - 1`.
pub open spec fn vanishing(n: nat) -> Seq<int> {
    Seq::new(
        n + 1,
        |i: int|
            (if i == n {
                1int
            } else {
                0
            }) - (if i == 0 {
                1int
            } else {
                0
            }),
    )
}

/// The sum of the coefficients at `i`, `i - n`, `i - 2 * n` and so on.
pub open spec fn folded(c: Seq<int>, n: nat, i: int) -> int
    decreases i + n,
    when n > 0
{
    if i < 0 {
        0
    } else {
        coef(c, i) + folded(c, n, i - n)
    }
}

/// How many coefficients the quotient by `x^n - 1` can have.
pub open spec fn quotient_len(c: Seq<int>, n: nat) -> nat {
    if c.len() >= n {
        (c.len() - n) as nat
    } else {
        0
    }
}

/// The coefficients of a multiple of `x^n - 1`.
pub proof fn lemma_vanishing_coef(q: Seq<int>, n: nat, p: int, k: int)
    requires
        p > 0,
        k >= 0,
    ensures
        coef(poly_mul(q, vanishing(n), p), k) == (coef(q, k - n) - coef(q, k)) % p,
{
    let z = vanishing(n);
    lemma_poly_mul_commutes(q, z, p);
    lemma_poly_mul_coef(z, q, p, k);
    let len = (n + k + 1) as nat;
    lemma_mul_coef_extend(z, q, k, len);
    let f = |i: int| coef(z, i) * coef(q, k - i);
    let a = coef(q, k - n);
    let b = coef(q, k);
    assert forall|i: int| 0 <= i < len implies #[trigger] f(i) == (if i == n {
        a
    } else {
        0
    }) + (if i == 0 {
        -b
    } else {
        0
    }) by {
        let t = coef(q, k - i);
        assert(1 * t == t);
        assert((-1) * t == -t);
        assert(0 * t == 0);
    }
    lemma_sum_pair(len, n as int, 0, a, -b, f);
}

/// The values of `x^n - 1`.
pub proof fn lemma_eval_vanishing(n: nat, x: int)
    ensures
        eval(vanishing(n), x) == pow(x, n) - 1,
{
    let z = vanishing(n);
    let f = |i: int| z[i] * pow(x, i as nat);
    lemma_pow0(x);
    assert forall|i: int| 0 <= i < n + 1 implies #[trigger] f(i) == (if i == n {
        pow(x, n)
    } else {
        0
    }) + (if i == 0 {
        -1int
    } else {
        0
    }) by {
        let t = pow(x, i as nat);
        assert(1 * t == t);
        assert((-1) * t == -t);
        assert(0 * t == 0);
    }
    lemma_sum_pair(n + 1, n as int, 0, pow(x, n), -1, f);
}

/// If the sums past the end of the quotient are divisible, the negated sums make the quotient.
pub proof fn lemma_quotient_fits(c: Seq<int>, q: Seq<int>, n: nat, p: int)
    requires
        p > 0,
        n > 0,
        reduced(c, p),
        forall|i: int| 0 <= i ==> #[trigger] coef(q, i) % p == (if i < quotient_len(c, n) {
            -folded(c, n, i)
        } else {
            0
        }) % p,
        forall|i: int|
            quotient_len(c, n) <= i < quotient_len(c, n) + n ==> #[trigger] folded(c, n, i) % p
                == 0,
    ensures
        same_poly(poly_mul(q, vanishing(n), p), c),
{
    let d = quotient_len(c, n) as int;
    let m = poly_mul(q, vanishing(n), p);
    assert forall|k: int| #[trigger] coef(m, k) == coef(c, k) by {
        if k >= 0 {
            lemma_vanishing_coef(q, n, p, k);
            lemma_small_mod(0, p as nat);
            let a = coef(q, k - n);
            let b = coef(q, k);
            let fa = folded(c, n, k - n);
            let fk = folded(c, n, k);
            assert(fk == coef(c, k) + fa);
            if k - n >= 0 {
                assert(a % p == (if k - n < d {
                    -fa
                } else {
                    0
                }) % p);
            }
            assert(b % p == (if k < d {
                -fk
            } else {
                0
            }) % p);
            if k < d {
                lemma_sub_congr(a, -fa, b, -fk, p);
                assert(-fa - (-fk) == coef(c, k));
            } else if k < d + n {
                assert(fk % p == 0);
                lemma_sub_congr(a, -fa, b, 0, p);
                lemma_add_congr(-fa, -fa, fk, 0, p);
                assert(-fa + fk == coef(c, k));
            } else {
                lemma_sub_congr(a, 0, b, 0, p);
                assert(coef(c, k) == 0);
            }
            if k < c.len() {
                lemma_small_mod(coef(c, k) as nat, p as nat);
            }
        }
    }
}

/// The coefficients past the end of any quotient are divisible.
proof fn lemma_quotient_ends(c: Seq<int>, q: Seq<int>, n: nat, p: int, i: int)
    requires
        p > 0,
        n > 0,
        same_poly(poly_mul(q, vanishing(n), p), c),
        i >= quotient_len(c, n),
    ensures
        coef(q, i) % p == 0,
    decreases q.len() + n - i,
{
    lemma_small_mod(0, p as nat);
    if i < q.len() {
        lemma_quotient_ends(c, q, n, p, i + n);
        lemma_vanishing_coef(q, n, p, i + n);
        assert(coef(poly_mul(q, vanishing(n), p), i + n) == coef(c, i + n));
        assert(coef(c, i + n) == 0);
        lemma_congr_iff(coef(q, i), coef(q, i + n), p);
    }
}

/// The coefficients of any quotient are the negated sums.
proof fn lemma_quotient_is(c: Seq<int>, q: Seq<int>, n: nat, p: int, i: int)
    requires
        p > 0,
        n > 0,
        same_poly(poly_mul(q, vanishing(n), p), c),
        i >= 0,
    ensures
        coef(q, i) % p == (-folded(c, n, i)) % p,
    decreases i,
{
    lemma_vanishing_coef(q, n, p, i);
    assert(coef(poly_mul(q, vanishing(n), p), i) == coef(c, i));
    let a = coef(q, i - n);
    let b = coef(q, i);
    let f = folded(c, n, i - n);
    if i - n >= 0 {
        lemma_quotient_is(c, q, n, p, i - n);
    } else {
        assert(f == 0);
        assert(a == 0);
    }
    lemma_mod_mod(a - b, p);
    lemma_sub_congr(a, -f, a - b, coef(c, i), p);
}

/// There is at most one quotient by `x^n - 1`, up to trailing zeros.
pub proof fn lemma_quotient_unique(c: Seq<int>, a: Seq<int>, b: Seq<int>, n: nat, p: int)
    requires
        p > 0,
        n > 0,
        reduced(a, p),
        reduced(b, p),
        same_poly(poly_mul(a, vanishing(n), p), c),
        same_poly(poly_mul(b, vanishing(n), p), c),
    ensures
        same_poly(a, b),
{
    assert forall|i: int| #[trigger] coef(a, i) == coef(b, i) by {
        if i >= 0 {
            lemma_quotient_is(c, a, n, p, i);
            lemma_quotient_is(c, b, n, p, i);
            lemma_small_mod(coef(a, i) as nat, p as nat);
            lemma_small_mod(coef(b, i) as nat, p as nat);
        }
    }
}

/// The part of the polynomial that a division by `x^n - 1` leaves, before it is checked.
spec fn leftover(c: Seq<int>, n: nat) -> Seq<int> {
    let d = quotient_len(c, n);
    Seq::new(
        d + n,
        |k: int|
            if k < d {
                0
            } else {
                folded(c, n, k)
            },
    )
}

/// The polynomial is a multiple of `x^n - 1` plus the leftover.
proof fn lemma_leftover(c: Seq<int>, q: Seq<int>, n: nat, p: int, k: int)
    requires
        p > 0,
        n > 0,
        q.len() == quotient_len(c, n),
        forall|i: int| 0 <= i < q.len() ==> #[trigger] q[i] == (-folded(c, n, i)) % p,
        k >= 0,
    ensures
        coef(c, k) % p == coef(
            poly_add(poly_mul(q, vanishing(n), p), leftover(c, n), p),
            k,
        ) % p,
{
    let d = q.len() as int;
    let m = poly_mul(q, vanishing(n), p);
    let s = leftover(c, n);
    lemma_vanishing_coef(q, n, p, k);
    lemma_small_mod(0, p as nat);
    let a = coef(q, k - n);
    let b = coef(q, k);
    let fa = folded(c, n, k - n);
    let fk = folded(c, n, k);
    assert(fk == coef(c, k) + fa);
    if 0 <= k - n < d {
        assert(a == (-fa) % p);
        lemma_mod_mod(-fa, p);
    }
    if k < d {
        assert(b == (-fk) % p);
        lemma_mod_mod(-fk, p);
        lemma_sub_congr(a, -fa, b, -fk, p);
        lemma_mod_mod(a - b, p);
        lemma_add_congr((a - b) % p, coef(c, k), 0, 0, p);
    } else if k < d + n {
        lemma_sub_congr(a, -fa, b, 0, p);
        lemma_mod_mod(a - b, p);
        lemma_add_congr((a - b) % p, -fa, fk, fk, p);
    } else {
        lemma_sub_congr(a, 0, b, 0, p);
    }
    let x = coef(m, k) + coef(s, k);
    lemma_mod_mod(x, p);
    if k >= max_len(m, s) {
        assert(x == 0);
    }
}

/// The value of the leftover, whose lowest coefficients are zero.
proof fn lemma_eval_leftover(c: Seq<int>, n: nat, x: int)
    ensures
        eval(leftover(c, n), x) == pow(x, quotient_len(c, n)) * eval(
            leftover(c, n).skip(quotient_len(c, n) as int),
            x,
        ),
{
    let d = quotient_len(c, n);
    let s = leftover(c, n);
    let t = s.skip(d as int);
    let f = |i: int| s[i] * pow(x, i as nat);
    let g = |i: int| t[i] * pow(x, i as nat);
    let y = pow(x, d);
    let h = |i: int| y * g(i);
    let u = |i: int| f(d + i);
    lemma_sum_split(d, n, f);
    assert forall|i: int| 0 <= i < d implies #[trigger] f(i) == 0 by {
        assert(0 * pow(x, i as nat) == 0);
    }
    lemma_sum_zero(d, f);
    assert forall|i: int| 0 <= i < n implies #[trigger] u(i) == h(i) by {
        lemma_pow_adds(x, d, i as nat);
        let a = t[i];
        let b = pow(x, i as nat);
        assert(a * (y * b) == y * (a * b)) by (nonlinear_arith);
    }
    lemma_sum_ext(n, u, h);
    lemma_sum_scale(n, y, g);
}

/// A polynomial that is zero at every `n`-th root of unity is a multiple of `x^n - 1`.
pub proof fn lemma_vanishing_divides(c: Seq<int>, n: nat, w: int, p: int) -> (q: Seq<int>)
    requires
        is_prime(p),
        reduced(c, p),
        primitive_root(w, n as int, p),
        forall|i: int| 0 <= i < n ==> eval(c, #[trigger] pow(w, i as nat)) % p == 0,
    ensures
        same_poly(poly_mul(q, vanishing(n), p), c),
{
    let d = quotient_len(c, n);
    let q = Seq::new(d, |i: int| (-folded(c, n, i)) % p);
    let m = poly_mul(q, vanishing(n), p);
    let s = leftover(c, n);
    let t = s.skip(d as int);
    let sum_of = poly_add(m, s, p);
    let points = Seq::new(n, |i: int| pow(w, i as nat) % p);
    assert forall|i: int| 0 <= i < n implies 0 <= #[trigger] points[i] < p by {
        lemma_mod_mod(pow(w, i as nat), p);
    }
    assert forall|i: int, j: int|
        0 <= i < n && 0 <= j < n && i != j implies points[i] != points[j] by {
        if i < j {
            lemma_root_powers_distinct(w, n as int, i as nat, j as nat, p);
        } else {
            lemma_root_powers_distinct(w, n as int, j as nat, i as nat, p);
        }
    }
    assert forall|k: int| 0 <= k implies #[trigger] coef(c, k) % p == coef(sum_of, k) % p by {
        lemma_leftover(c, q, n, p, k);
    }
    assert forall|i: int| 0 <= i < n implies eval(t, #[trigger] points[i]) % p == 0 by {
        let x = pow(w, i as nat);
        lemma_eval_congr(c, sum_of, x, x, p);
        lemma_eval_add(m, s, x, p);
        lemma_eval_poly_mul(q, vanishing(n), x, p);
        lemma_eval_vanishing(n, x);
        lemma_small_mod(0, p as nat);
        lemma_small_mod(1, p as nat);
        // x is an n-th root of unity
        lemma_pow_multiplies(w, i as nat, n);
        lemma_pow_multiplies(w, n, i as nat);
        assert((i as nat) * n == n * (i as nat)) by (nonlinear_arith);
        lemma_pow_congr(pow(w, n), 1, i as nat, p);
        lemma1_pow(i as nat);
        lemma_congr_iff(pow(x, n), 1, p);
        lemma_mul_congr(eval(q, x), eval(q, x), eval(vanishing(n), x), 0, p);
        assert(eval(q, x) * 0 == 0);
        lemma_add_congr(eval(m, x), 0, eval(s, x), eval(s, x), p);
        lemma_eval_leftover(c, n, x);
        lemma_no_zero_divisors(pow(x, d), eval(t, x), p);
        lemma_root_nonzero(w, n as int, p);
        lemma_pow_nonzero(w, i as nat, p);
        lemma_pow_nonzero(x, d, p);
        lemma_mod_mod(x, p);
        lemma_eval_congr(t, t, points[i], x, p);
    }
    lemma_too_many_roots(t, points, p);
    assert forall|i: int| d <= i < d + n implies #[trigger] folded(c, n, i) % p == 0 by {
        assert(t[i - d] % p == 0);
    }
    assert forall|i: int| 0 <= i implies #[trigger] coef(q, i) % p == (if i < d {
        -folded(c, n, i)
    } else {
        0
    }) % p by {
        if i < d {
            lemma_mod_mod(-folded(c, n, i), p);
        }
    }
    lemma_quotient_fits(c, q, n, p);
    q
}

impl<F: PrimeField> Polynomial<F> {
    /// Divides the polynomial by `x^n - 1`, which must leave no remainder.
    ///
    /// The quotient has no trailing zeros, unless it is zero.
    pub fn divide_by_zero(&self, n: usize) -> (r: Result<Self, Error>)
        ensures
            match r {
                Ok(q) => {
                    &&& same_poly(poly_mul(q@, vanishing(n as nat), F::modulus()), self@)
                    &&& forall|k: int|
                        k >= 0 ==> #[trigger] coef(self@, k) == (coef(q@, k - n) - coef(q@, k))
                            % F::modulus()
                    &&& q@.len() == if degree_bound(q@) > 0 {
                        degree_bound(q@)
                    } else {
                        quotient_len(self@, n as nat)
                    }
                    &&& n == 0 ==> all_zero(q@)
                },
                Err(e) => {
                    &&& forall|q: Seq<int>|
                        !same_poly(#[trigger] poly_mul(q, vanishing(n as nat), F::modulus()), self@)
                    &&& e == Error::NonZeroRemainder
                },
            },
    {
        let ghost c = self@;
        let ghost p = F::modulus();
        let zero = F::zero();
        let mut data = self.clone().take();
        proof {
            F::lemma_modulus();
            lemma_vals(data@);
            assert(data@.len() == vals(data@).len());
        }
        if n == 0 {
            let r = Self::divide_by_null(self);
            proof {
                if let Ok(q) = &r {
                    law_quotient(q@, c, 0, p);
                }
            }
            return r;
        }
        if data.len() < n {
            resize(&mut data, n);
        }
        let len: usize = data.len();
        let degree: usize = len - n;
        let mut quotient: Vec<F> = Vec::new();
        proof {
            assert forall|j: int| 0 <= j < len implies #[trigger] vals(data@)[j] == (if j < n {
                folded(c, n as nat, j)
            } else {
                coef(c, j)
            }) % p by {
                assert(vals(data@)[j] == coef(c, j));
                assert(folded(c, n as nat, j - n) == 0 || j >= n);
                lemma_small_mod(vals(data@)[j] as nat, p as nat);
            }
        }
        let mut i: usize = 0;
        while i < degree
            invariant
                n > 0,
                i <= degree,
                len == degree + n,
                data@.len() == len,
                quotient@.len() == i,
                p == F::modulus(),
                p > 1,
                forall|j: int|
                    i <= j < len ==> #[trigger] vals(data@)[j] == (if j < i + n {
                        folded(c, n as nat, j)
                    } else {
                        coef(c, j)
                    }) % p,
                forall|j: int|
                    0 <= j < i ==> #[trigger] vals(quotient@)[j] == (-folded(c, n as nat, j)) % p,
            decreases degree - i,
        {
            let ghost before = vals(data@);
            let ghost earlier = vals(quotient@);
            let x = data[i].negate();
            let y = data[i + n].minus(x);
            quotient.push(x);
            data.set(i + n, y);
            proof {
                let f = folded(c, n as nat, i as int);
                let t = coef(c, i + n);
                assert(before[i as int] == f % p);
                assert(before[i + n] == t % p);
                lemma_mod_mod(f, p);
                lemma_mod_mod(t, p);
                lemma_sub_congr(0, 0, f % p, f, p);
                lemma_mod_mod(-f, p);
                lemma_sub_congr(t % p, t, x.val(), -f, p);
                assert(folded(c, n as nat, i + n) == t + f);
                assert forall|j: int| i + 1 <= j < len implies #[trigger] vals(data@)[j] == (if j
                    < i + 1 + n {
                    folded(c, n as nat, j)
                } else {
                    coef(c, j)
                }) % p by {
                    if j != i + n {
                        assert(vals(data@)[j] == before[j]);
                    }
                }
                assert forall|j: int| 0 <= j < i + 1 implies #[trigger] vals(quotient@)[j] == (
                -folded(c, n as nat, j)) % p by {
                    if j < i {
                        assert(vals(quotient@)[j] == earlier[j]);
                    }
                }
            }
            i = i + 1;
        }
        assert(quotient_len(c, n as nat) == degree);
        let mut k: usize = degree;
        while k < len
            invariant
                n > 0,
                degree <= k <= len,
                len == degree + n,
                data@.len() == len,
                p == F::modulus(),
                p > 1,
                zero.val() == 0,
                quotient_len(c, n as nat) == degree,
                c == self@,
                forall|j: int|
                    degree <= j < len ==> #[trigger] vals(data@)[j] == folded(c, n as nat, j) % p,
                forall|j: int| degree <= j < k ==> #[trigger] folded(c, n as nat, j) % p == 0,
            decreases len - k,
        {
            assert(vals(data@)[k as int] == folded(c, n as nat, k as int) % p);
            if !data[k].is_equal(zero) {
                proof {
                    assert forall|q: Seq<int>|
                        !same_poly(#[trigger] poly_mul(q, vanishing(n as nat), p), c) by {
                        if same_poly(poly_mul(q, vanishing(n as nat), p), c) {
                            let f = folded(c, n as nat, k as int);
                            lemma_quotient_ends(c, q, n as nat, p, k as int);
                            lemma_quotient_is(c, q, n as nat, p, k as int);
                            lemma_small_mod(0, p as nat);
                            lemma_sub_congr(0, 0, -f, 0, p);
                        }
                    }
                }
                return Err(Error::NonZeroRemainder);
            }
            k = k + 1;
        }
        let ghost full = vals(quotient@);
        let d: usize = degree_bound_of(quotient.as_slice());
        if d > 0 {
            quotient.truncate(d);
        }
        let q = Polynomial::with_coefficients(quotient);
        proof {
            lemma_degree_bound(full);
            if d > 0 {
                assert(q@ =~= trim(full));
                lemma_trim(full);
            } else {
                assert(q@ =~= full);
            }
            assert forall|j: int| 0 <= j implies #[trigger] coef(q@, j) % p == (if j < degree {
                -folded(c, n as nat, j)
            } else {
                0
            }) % p by {
                assert(coef(q@, j) == coef(full, j));
                lemma_small_mod(0, p as nat);
                if j < degree {
                    lemma_mod_mod(-folded(c, n as nat, j), p);
                }
            }
            lemma_quotient_fits(c, q@, n as nat, p);
        }
        proof {
            law_quotient(q@, c, n as nat, p);
        }
        Ok(q)
    }

    /// Divides the polynomial by `x^0 - 1`, which is null: only the zero polynomial is a multiple.
    fn divide_by_null(&self) -> (r: Result<Self, Error>)
        ensures
            match r {
                Ok(q) => {
                    &&& same_poly(poly_mul(q@, vanishing(0), F::modulus()), self@)
                    &&& q@.len() == self@.len()
                    &&& all_zero(q@)
                    &&& degree_bound(q@) == 0
                },
                Err(e) => {
                    &&& forall|q: Seq<int>|
                        !same_poly(#[trigger] poly_mul(q, vanishing(0), F::modulus()), self@)
                    &&& e == Error::NonZeroRemainder
                },
            },
    {
        let ghost c = self@;
        let ghost p = F::modulus();
        proof {
            F::lemma_modulus();
            lemma_degree_bound(c);
            lemma_small_mod(0, p as nat);
            assert forall|q: Seq<int>, k: int| k >= 0 implies #[trigger] coef(
                poly_mul(q, vanishing(0), p),
                k,
            ) == 0 by {
                lemma_vanishing_coef(q, 0, p, k);
            }
        }
        let d: usize = self.degree_bound();
        if d > 0 {
            assert forall|q: Seq<int>| !same_poly(#[trigger] poly_mul(q, vanishing(0), p), c) by {
                if same_poly(poly_mul(q, vanishing(0), p), c) {
                    assert(coef(poly_mul(q, vanishing(0), p), d - 1) == coef(c, d - 1));
                }
            }
            return Err(Error::NonZeroRemainder);
        }
        let q = self.clone();
        proof {
            let m = poly_mul(q@, vanishing(0), p);
            assert forall|k: int| #[trigger] coef(m, k) == coef(c, k) by {
                if k >= 0 {
                    assert(coef(c, k) == 0);
                }
            }
            assert forall|k: int| 0 <= k < q@.len() implies #[trigger] q@[k] == 0 by {
                assert(coef(c, k) == 0);
            }
        }
        Ok(q)
    }
}

} // verus!
