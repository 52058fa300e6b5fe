//! Polynomials from their roots, and from points on their graph.
use crate::algebra::{
    coef, eval, lemma_eval_add, lemma_eval_scale, poly_add, poly_mul, poly_scale, reduced,
};
use crate::error::Error;
use crate::field::{lemma_vals, vals, PrimeField};
use crate::modular::{is_prime, lemma_add_congr, lemma_mod_mod, lemma_mul_congr, lemma_sub_congr};
use crate::polynomial::{resize, Polynomial};
use crate::roots::{
    differences_product, lemma_differences_nonzero, lemma_differences_zero,
    lemma_eval_roots_product, lemma_linear_coef, lemma_quotient_of_product, lemma_roots_product,
    lemma_roots_product_remove, linear_factor, roots_product,
};
use std::ops::AddAssign;
use vstd::arithmetic::div_mod::lemma_small_mod;
use vstd::prelude::*;

verus! {

/// The X coordinates of the points.
pub open spec fn abscissas<F: PrimeField>(points: Seq<(F, F)>) -> Seq<int> {
    Seq::new(points.len(), |i: int| points[i].0.val())
}

/// Whether the polynomial passes through the points.
pub open spec fn passes_through<F: PrimeField>(c: Seq<int>, points: Seq<(F, F)>) -> bool {
    forall|i: int|
        0 <= i < points.len() ==> eval(c, (#[trigger] points[i]).0.val()) % F::modulus()
            == points[i].1.val()
}

/// Whether two of the elements are equal.
fn has_duplicates<F: PrimeField>(elements: &[F]) -> (r: bool)
    ensures
        r == !vals(elements@).no_duplicates(),
{
    let ghost v = vals(elements@);
    let mut i: usize = 0;
    while i < elements.len()
        invariant
            i <= elements@.len(),
            v == vals(elements@),
            forall|a: int, b: int| 0 <= a < b < i ==> #[trigger] v[a] != #[trigger] v[b],
        decreases elements@.len() - i,
    {
        let mut j: usize = 0;
        while j < i
            invariant
                j <= i,
                i < elements@.len(),
                v == vals(elements@),
                forall|a: int| 0 <= a < j ==> #[trigger] v[a] != v[i as int],
            decreases i - j,
        {
            if elements[j].is_equal(elements[i]) {
                assert(v[j as int] == v[i as int]);
                return true;
            }
            j = j + 1;
        }
        i = i + 1;
    }
    false
}

impl<F: PrimeField> Polynomial<F> {
    /// Constructs the polynomial that has the given roots, multiplied by a blinding factor.
    ///
    /// A blinding factor of one gives the monic polynomial, one of zero makes the polynomial zero.
    pub fn from_roots(roots: &[F], blinding_factor: F) -> (r: Result<Self, Error>)
        requires
            roots@.len() < usize::MAX,
        ensures
            match r {
                Ok(q) => {
                    &&& vals(roots@).no_duplicates()
                    &&& q@ == roots_product(
                        vals(roots@),
                        blinding_factor.val(),
                        F::modulus(),
                    )
                },
                Err(e) => {
                    &&& !vals(roots@).no_duplicates()
                    &&& e == Error::DuplicateRoots
                },
            },
    {
        if has_duplicates(roots) {
            return Err(Error::DuplicateRoots);
        }
        let ghost v = vals(roots@);
        let ghost p = F::modulus();
        let ghost b = blinding_factor.val();
        let n: usize = roots.len() + 1;
        // the coefficients, the highest one first
        let mut data: Vec<F> = Vec::new();
        resize(&mut data, n);
        let ghost zeros = vals(data@);
        data.set(0, blinding_factor);
        let mut i: usize = 0;
        proof {
            F::lemma_modulus();
            blinding_factor.lemma_val();
            let c = roots_product(v.take(0), b, p);
            assert forall|k: int| 0 <= k < n implies #[trigger] data@[k].val() == coef(
                c,
                0 - k,
            ) by {
                if k > 0 {
                    assert(zeros[k] == 0);
                }
            }
        }
        while i < roots.len()
            invariant
                i <= roots@.len(),
                n == roots@.len() + 1,
                v == vals(roots@),
                p == F::modulus(),
                p > 1,
                0 <= b < p,
                data@.len() == n,
                forall|k: int|
                    0 <= k < n ==> #[trigger] data@[k].val() == coef(
                        roots_product(v.take(i as int), b, p),
                        i - k,
                    ),
            decreases roots@.len() - i,
        {
            let ghost c = roots_product(v.take(i as int), b, p);
            let ghost d = roots_product(v.take(i + 1), b, p);
            let root = roots[i];
            let ghost r = v[i as int];
            proof {
                assert(v.take(i + 1).drop_last() =~= v.take(i as int));
                assert(v.take(i + 1).last() == r);
                assert(d == poly_mul_linear(c, r, p));
                lemma_roots_product(v.take(i as int), b, p);
                lemma_roots_product(v.take(i + 1), b, p);
            }
            let mut j: usize = i + 1;
            proof {
                assert forall|k: int| 0 <= k < n && k > j implies #[trigger] data@[k].val() == coef(
                    d,
                    i + 1 - k,
                ) by {}
            }
            while j > 0
                invariant
                    j <= i + 1,
                    i < roots@.len(),
                    n == roots@.len() + 1,
                    p == F::modulus(),
                    p > 1,
                    r == root.val(),
                    data@.len() == n,
                    c.len() == i + 1,
                    d == poly_mul_linear(c, r, p),
                    forall|k: int|
                        0 <= k < n ==> #[trigger] data@[k].val() == if k > j {
                            coef(d, i + 1 - k)
                        } else {
                            coef(c, i - k)
                        },
                decreases j,
            {
                let x = data[j];
                let y = data[j - 1].times(root);
                let z = x.minus(y);
                let ghost before = data@;
                data.set(j, z);
                proof {
                    lemma_linear_coef(c, r, p, i + 1 - j);
                    assert(before[j as int].val() == coef(c, i - j));
                    assert(before[j - 1].val() == coef(c, i - (j - 1)));
                    let u = coef(c, i - (j - 1));
                    assert(u * r == r * u) by (nonlinear_arith);
                    lemma_mod_mod(u * r, p);
                    lemma_sub_congr(coef(c, i - j), coef(c, i - j), (u * r) % p, u * r, p);
                    assert forall|k: int| 0 <= k < n implies #[trigger] data@[k].val() == if k > j
                        - 1 {
                        coef(d, i + 1 - k)
                    } else {
                        coef(c, i - k)
                    } by {
                        assert(before[k].val() == if k > j {
                            coef(d, i + 1 - k)
                        } else {
                            coef(c, i - k)
                        });
                    }
                }
                j = j - 1;
            }
            proof {
                // the leading coefficient stays
                assert(c.last() == b);
                assert(d.last() == b);
                assert forall|k: int| 0 <= k < n implies #[trigger] data@[k].val() == coef(
                    d,
                    i + 1 - k,
                ) by {
                    assert(data@[k].val() == if k > 0 {
                        coef(d, i + 1 - k)
                    } else {
                        coef(c, i - k)
                    });
                }
            }
            i = i + 1;
        }
        proof {
            assert(v.take(i as int) =~= v);
            lemma_roots_product(v, b, p);
        }
        let mut coefficients: Vec<F> = Vec::new();
        let mut k: usize = 0;
        while k < n
            invariant
                k <= n,
                n == v.len() + 1,
                data@.len() == n,
                coefficients@.len() == k,
                forall|l: int|
                    0 <= l < n ==> #[trigger] data@[l].val() == coef(
                        roots_product(v, b, p),
                        n - 1 - l,
                    ),
                forall|l: int|
                    0 <= l < k ==> #[trigger] coefficients@[l].val() == coef(
                        roots_product(v, b, p),
                        l,
                    ),
            decreases n - k,
        {
            let x = data[n - 1 - k];
            assert(x.val() == coef(roots_product(v, b, p), n - 1 - (n - 1 - k)));
            coefficients.push(x);
            k = k + 1;
        }
        let q = Polynomial::with_coefficients(coefficients);
        assert(q@ =~= roots_product(v, b, p));
        Ok(q)
    }

    /// Constructs the polynomial of least degree that passes through the given points.
    ///
    /// The points are (x, y) pairs.
    pub fn interpolate(points: &[(F, F)]) -> (r: Result<Self, Error>)
        requires
            points@.len() < usize::MAX,
        ensures
            match r {
                Ok(q) => {
                    &&& abscissas(points@).no_duplicates()
                    &&& q@.len() == points@.len()
                    &&& passes_through(q@, points@)
                    &&& forall|i: int|
                        0 <= i < points@.len() ==> eval(q@, (#[trigger] points@[i]).0.val())
                            % F::modulus() == points@[i].1.val()
                    &&& forall|i: int, j: int|
                        0 <= i < j < points@.len() ==> (#[trigger] points@[i]).0.val() != (
                        #[trigger] points@[j]).0.val()
                },
                Err(e) => {
                    &&& !abscissas(points@).no_duplicates()
                    &&& exists|i: int, j: int|
                        0 <= i < j < points@.len() && (#[trigger] points@[i]).0.val() == (
                        #[trigger] points@[j]).0.val()
                    &&& e == Error::DuplicateCoordinates
                },
            },
    {
        let k: usize = points.len();
        let ghost v = abscissas(points@);
        let ghost p = F::modulus();
        let mut x: Vec<F> = Vec::new();
        let mut i: usize = 0;
        while i < k
            invariant
                i <= k,
                k == points@.len(),
                x@.len() == i,
                forall|j: int| 0 <= j < i ==> #[trigger] x@[j] == points@[j].0,
            decreases k - i,
        {
            x.push(points[i].0);
            i = i + 1;
        }
        proof {
            assert(vals(x@) =~= v);
            lemma_vals(x@);
            F::lemma_modulus();
        }
        let l = match Self::from_roots(x.as_slice(), F::one()) {
            Ok(l) => l,
            Err(_) => {
                return Err(Error::DuplicateCoordinates);
            },
        };
        let mut result: Self = Polynomial::default();
        let mut i: usize = 0;
        proof {
            assert forall|m: int| 0 <= m < k implies eval(result@, #[trigger] v[m]) % p == 0 by {
                lemma_small_mod(0, p as nat);
            }
        }
        while i < k
            invariant
                i <= k,
                k == points@.len(),
                v == abscissas(points@),
                v == vals(x@),
                v.no_duplicates(),
                p == F::modulus(),
                is_prime(p),
                reduced(v, p),
                l@ == roots_product(v, 1, p),
                result@.len() == if i == 0 {
                    0
                } else {
                    k as nat
                },
                reduced(result@, p),
                forall|m: int|
                    0 <= m < k ==> eval(result@, #[trigger] v[m]) % p == if m < i {
                        points@[m].1.val()
                    } else {
                        0
                    },
            decreases k - i,
        {
            let weight = Self::weight(x.as_slice(), i);
            proof {
                lemma_weight_nonzero(v, i as int, p);
            }
            let w = match weight.invert() {
                Some(w) => w,
                None => {
                    return Err(Error::DuplicateCoordinates);
                },
            };
            let (basis, _remainder) = l.horner(x[i]);
            let y = points[i].1;
            let ghost before = result@;
            let ghost q = basis@;
            let ghost t = poly_scale(poly_scale(q, w.val(), p), y.val(), p);
            AddAssign::add_assign(&mut result, basis * w * y);
            proof {
                assert(result@ == poly_add(before, t, p));
                lemma_roots_product_remove(v, 1, p, i as int);
                let others = v.remove(i as int);
                lemma_small_mod(1, p as nat);
                lemma_roots_product(others, 1, p);
                lemma_quotient_of_product(roots_product(others, 1, p), v[i as int], p);
                assert(q == roots_product(others, 1, p));
                assert(result@.len() == k);
                assert forall|j: int| 0 <= j < result@.len() implies 0 <= #[trigger] result@[j]
                    < p by {
                    lemma_mod_mod(coef(before, j) + coef(t, j), p);
                }
                y.lemma_val();
                assert forall|m: int| 0 <= m < k implies eval(result@, #[trigger] v[m]) % p == if m
                    < i + 1 {
                    points@[m].1.val()
                } else {
                    0
                } by {
                    assert(eval(before, v[m]) % p == if m < i {
                        points@[m].1.val()
                    } else {
                        0
                    });
                    lemma_basis(v, i as int, m, w.val(), y.val(), p);
                    lemma_eval_add(before, t, v[m], p);
                    lemma_small_mod(0, p as nat);
                    points@[m].1.lemma_val();
                    lemma_small_mod(points@[m].1.val() as nat, p as nat);
                    lemma_add_congr(
                        eval(before, v[m]),
                        if m < i {
                            points@[m].1.val()
                        } else {
                            0
                        },
                        eval(t, v[m]),
                        if m == i {
                            y.val()
                        } else {
                            0
                        },
                        p,
                    );
                }
            }
            i = i + 1;
        }
        proof {
            assert forall|m: int| 0 <= m < points@.len() implies eval(
                result@,
                (#[trigger] points@[m]).0.val(),
            ) % p == points@[m].1.val() by {
                assert(v[m] == points@[m].0.val());
            }
            assert forall|i: int, j: int| 0 <= i < j < points@.len() implies (
            #[trigger] points@[i]).0.val() != (#[trigger] points@[j]).0.val() by {
                assert(v[i] != v[j]);
            }
        }
        Ok(result)
    }

    /// Returns the product of the differences of the `i`-th element and each of the others.
    fn weight(x: &[F], i: usize) -> (r: F)
        requires
            i < x@.len(),
        ensures
            r.val() == differences_product(vals(x@).remove(i as int), 1, x@[i as int].val())
                % F::modulus(),
    {
        let ghost v = vals(x@);
        let ghost z = v[i as int];
        let ghost p = F::modulus();
        let mut r = F::one();
        let mut j: usize = 0;
        proof {
            F::lemma_modulus();
            lemma_small_mod(1, p as nat);
        }
        while j < x.len()
            invariant
                i < x@.len(),
                j <= x@.len(),
                v == vals(x@),
                z == v[i as int],
                p == F::modulus(),
                p > 1,
                r.val() == differences_product(others(v, i as int, j as int), 1, z) % p,
            decreases x@.len() - j,
        {
            if i != j {
                let d = x[i].minus(x[j]);
                proof {
                    let o = others(v, i as int, j as int);
                    let o2 = others(v, i as int, j + 1);
                    assert(o2.drop_last() =~= o);
                    assert(o2.last() == v[j as int]);
                    let e = differences_product(o, 1, z);
                    lemma_mod_mod(e, p);
                    lemma_mod_mod(z - v[j as int], p);
                    lemma_mul_congr(r.val(), e, d.val(), z - v[j as int], p);
                }
                r = r.times(d);
            } else {
                assert(others(v, i as int, j + 1) =~= others(v, i as int, j as int));
            }
            j = j + 1;
        }
        assert(others(v, i as int, j as int) =~= v.remove(i as int));
        r
    }
}

/// The product with a linear factor.
spec fn poly_mul_linear(c: Seq<int>, r: int, p: int) -> Seq<int> {
    poly_mul(c, linear_factor(r), p)
}

/// The first `j` elements, without the `i`-th.
spec fn others(v: Seq<int>, i: int, j: int) -> Seq<int> {
    if j <= i {
        v.take(j)
    } else {
        v.take(j).remove(i)
    }
}

/// Distinct elements have differences that are not zero.
proof fn lemma_weight_nonzero(v: Seq<int>, i: int, p: int)
    requires
        is_prime(p),
        reduced(v, p),
        v.no_duplicates(),
        0 <= i < v.len(),
    ensures
        differences_product(v.remove(i), 1, v[i]) % p != 0,
{
    let o = v.remove(i);
    assert forall|j: int| 0 <= j < o.len() implies #[trigger] o[j] != v[i] && 0 <= o[j] < p by {
        if j < i {
            assert(o[j] == v[j]);
        } else {
            assert(o[j] == v[j + 1]);
        }
    }
    lemma_small_mod(1, p as nat);
    lemma_differences_nonzero(o, 1, v[i], p);
}

/// The values of a scaled basis polynomial: `y` at its own point, zero at the others.
proof fn lemma_basis(v: Seq<int>, i: int, m: int, w: int, y: int, p: int)
    requires
        is_prime(p),
        reduced(v, p),
        v.no_duplicates(),
        0 <= i < v.len(),
        0 <= m < v.len(),
        (differences_product(v.remove(i), 1, v[i]) % p * w) % p == 1,
    ensures
        eval(
            poly_scale(poly_scale(roots_product(v.remove(i), 1, p), w, p), y, p),
            v[m],
        ) % p == (if m == i {
            y
        } else {
            0
        }) % p,
{
    let o = v.remove(i);
    let c = roots_product(o, 1, p);
    let x = v[m];
    let d = differences_product(o, 1, x);
    lemma_eval_roots_product(o, 1, x, p);
    lemma_eval_scale(c, w, x, p);
    lemma_eval_scale(poly_scale(c, w, p), y, x, p);
    let e = eval(c, x);
    lemma_mul_congr(eval(poly_scale(c, w, p), x), e * w, y, y, p);
    lemma_mod_mod(d, p);
    if m == i {
        lemma_mul_congr(e, d % p, w, w, p);
        lemma_small_mod(1, p as nat);
        lemma_mul_congr(e * w, 1, y, y, p);
    } else {
        let j = if m < i {
            m
        } else {
            m - 1
        };
        assert(o[j] == x);
        lemma_differences_zero(o, 1, x, j);
        lemma_small_mod(0, p as nat);
        lemma_mul_congr(e, 0, w, w, p);
        assert(0 * w == 0);
        lemma_mul_congr(e * w, 0, y, y, p);
        assert(0 * y == 0);
    }
}

} // verus!
