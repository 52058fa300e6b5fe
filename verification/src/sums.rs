//! Finite sums of integers.
use crate::modular::lemma_add_congr;
use vstd::prelude::*;

verus! {

/// `f(0) + f(1) + ... + f(n - 1)`.
pub open spec fn sum(n: nat, f: spec_fn(int) -> int) -> int
    decreases n,
{
    if n == 0 {
        0
    } else {
        sum((n - 1) as nat, f) + f(n - 1)
    }
}

/// Sums of equal terms are equal.
pub proof fn lemma_sum_ext(n: nat, f: spec_fn(int) -> int, g: spec_fn(int) -> int)
    requires
        forall|i: int| 0 <= i < n ==> #[trigger] f(i) == g(i),
    ensures
        sum(n, f) == sum(n, g),
    decreases n,
{
    if n > 0 {
        lemma_sum_ext((n - 1) as nat, f, g);
        assert(f(n - 1) == g(n - 1));
    }
}

/// Sums of congruent terms are congruent.
pub proof fn lemma_sum_congr(n: nat, f: spec_fn(int) -> int, g: spec_fn(int) -> int, m: int)
    requires
        m > 0,
        forall|i: int| 0 <= i < n ==> #[trigger] f(i) % m == g(i) % m,
    ensures
        sum(n, f) % m == sum(n, g) % m,
    decreases n,
{
    if n > 0 {
        let k = (n - 1) as nat;
        lemma_sum_congr(k, f, g, m);
        assert(f(n - 1) % m == g(n - 1) % m);
        lemma_add_congr(sum(k, f), sum(k, g), f(n - 1), g(n - 1), m);
    }
}

/// A sum of zeros is zero.
pub proof fn lemma_sum_zero(n: nat, f: spec_fn(int) -> int)
    requires
        forall|i: int| 0 <= i < n ==> #[trigger] f(i) == 0,
    ensures
        sum(n, f) == 0,
    decreases n,
{
    if n > 0 {
        lemma_sum_zero((n - 1) as nat, f);
        assert(f(n - 1) == 0);
    }
}

/// Two sums of the same length add up term by term.
pub proof fn lemma_sum_add(n: nat, f: spec_fn(int) -> int, g: spec_fn(int) -> int)
    ensures
        sum(n, |i: int| f(i) + g(i)) == sum(n, f) + sum(n, g),
    decreases n,
{
    if n > 0 {
        lemma_sum_add((n - 1) as nat, f, g);
    }
}

/// A common factor can be taken out of a sum.
pub proof fn lemma_sum_scale(n: nat, k: int, f: spec_fn(int) -> int)
    ensures
        sum(n, |i: int| k * f(i)) == k * sum(n, f),
    decreases n,
{
    if n > 0 {
        lemma_sum_scale((n - 1) as nat, k, f);
        let s = sum((n - 1) as nat, f);
        let t = f(n - 1);
        assert(k * s + k * t == k * (s + t)) by (nonlinear_arith);
    } else {
        assert(k * 0 == 0);
    }
}

/// A sum of `a + b` terms is the sum of the first `a` and the last `b` of them.
pub proof fn lemma_sum_split(a: nat, b: nat, f: spec_fn(int) -> int)
    ensures
        sum(a + b, f) == sum(a, f) + sum(b, |i: int| f(a + i)),
    decreases b,
{
    if b > 0 {
        lemma_sum_split(a, (b - 1) as nat, f);
        assert((a + b - 1) as nat == a + (b - 1) as nat);
    }
}

/// The first term of a sum can be taken out.
pub proof fn lemma_sum_first(n: nat, f: spec_fn(int) -> int)
    ensures
        sum(n + 1, f) == f(0) + sum(n, |i: int| f(i + 1)),
{
    lemma_sum_split(1, n, f);
    lemma_sum_ext(n, |i: int| f(1 + i), |i: int| f(i + 1));
    assert(sum(1, f) == sum(0, f) + f(0)) by {
        reveal_with_fuel(sum, 2);
    }
}

/// A sum of which only one term differs from zero is that term.
pub proof fn lemma_sum_single(n: nat, k: int, f: spec_fn(int) -> int)
    requires
        0 <= k < n,
        forall|i: int| 0 <= i < n && i != k ==> #[trigger] f(i) == 0,
    ensures
        sum(n, f) == f(k),
    decreases n,
{
    if k == n - 1 {
        lemma_sum_zero((n - 1) as nat, f);
    } else {
        assert(f(n - 1) == 0);
        lemma_sum_single((n - 1) as nat, k, f);
    }
}

/// A sum can be taken in reverse order.
pub proof fn lemma_sum_reverse(n: nat, f: spec_fn(int) -> int)
    ensures
        sum(n, |i: int| f(n - 1 - i)) == sum(n, f),
    decreases n,
{
    if n > 0 {
        let k = (n - 1) as nat;
        let g = |i: int| f(n - 1 - i);
        lemma_sum_first(k, g);
        lemma_sum_reverse(k, f);
        lemma_sum_ext(k, |i: int| g(i + 1), |i: int| f(k - 1 - i));
    }
}

/// The order of two nested sums can be exchanged.
pub proof fn lemma_sum_swap(n: nat, m: nat, f: spec_fn(int, int) -> int)
    ensures
        sum(n, |i: int| sum(m, |j: int| f(i, j))) == sum(m, |j: int| sum(n, |i: int| f(i, j))),
    decreases n,
{
    let rows = |i: int| sum(m, |j: int| f(i, j));
    if n == 0 {
        lemma_sum_zero(m, |j: int| sum(0, |i: int| f(i, j)));
        assert(sum(0, rows) == 0);
    } else {
        let k = (n - 1) as nat;
        lemma_sum_swap(k, m, f);
        let head = |j: int| sum(k, |i: int| f(i, j));
        let last = |j: int| f(n - 1, j);
        lemma_sum_add(m, head, last);
        lemma_sum_ext(m, |j: int| sum(n, |i: int| f(i, j)), |j: int| head(j) + last(j));
        assert(sum(n, rows) == sum(k, rows) + rows(n - 1));
        lemma_sum_ext(m, |j: int| f(n - 1, j), last);
    }
}

/// A sum of `r * m` terms, taken by the remainder of the index modulo `r`.
pub proof fn lemma_sum_by_remainder(r: nat, m: nat, f: spec_fn(int) -> int)
    ensures
        sum(r * m, f) == sum(r, |d: int| sum(m, |t: int| f(d + r * t))),
    decreases m,
{
    if m == 0 {
        assert(r * m == 0) by (nonlinear_arith)
            requires
                m == 0,
        ;
        lemma_sum_zero(r, |d: int| sum(0, |t: int| f(d + r * t)));
    } else {
        let k = (m - 1) as nat;
        assert(r * m == r * k + r) by (nonlinear_arith)
            requires
                m == k + 1,
        ;
        lemma_sum_split(r * k, r, f);
        lemma_sum_by_remainder(r, k, f);
        let head = |d: int| sum(k, |t: int| f(d + r * t));
        let last = |d: int| f(r * k + d);
        lemma_sum_add(r, head, last);
        lemma_sum_ext(r, |d: int| sum(m, |t: int| f(d + r * t)), |d: int| head(d) + last(d));
    }
}

/// A sum of two terms, wherever they stand among zeros.
pub proof fn lemma_sum_pair(
    n: nat,
    i: int,
    j: int,
    x: int,
    y: int,
    f: spec_fn(int) -> int,
)
    requires
        0 <= i < n,
        0 <= j < n,
        forall|k: int|
            0 <= k < n ==> #[trigger] f(k) == (if k == i {
                x
            } else {
                0
            }) + (if k == j {
                y
            } else {
                0
            }),
    ensures
        sum(n, f) == x + y,
{
    let g = |k: int|
        if k == i {
            x
        } else {
            0
        };
    let h = |k: int|
        if k == j {
            y
        } else {
            0
        };
    lemma_sum_single(n, i, g);
    lemma_sum_single(n, j, h);
    lemma_sum_add(n, g, h);
    lemma_sum_ext(n, f, |k: int| g(k) + h(k));
}

} // verus!
