//! The decimation of a transform: how the transforms of strided subsequences combine into the
//! transform of the whole sequence.
use crate::algebra::{eval, lemma_eval_congr, lemma_eval_constant, lemma_eval_first, reduced};
use crate::digits::{lemma_pow_step, lemma_reversed_bound, lemma_reversed_step, reversed};
use crate::modular::{lemma_add_congr, lemma_mod_mod, lemma_mul_congr, lemma_pow_congr};
use crate::sums::{lemma_sum_by_remainder, lemma_sum_congr, lemma_sum_ext, lemma_sum_scale, sum};
use crate::transform::dft;
use vstd::arithmetic::div_mod::{
    lemma_div_pos_is_pos, lemma_fundamental_div_mod, lemma_fundamental_div_mod_converse,
    lemma_mod_bound, lemma_small_mod,
};
use vstd::arithmetic::power::{
    lemma1_pow, lemma_pow0, lemma_pow1, lemma_pow_adds, lemma_pow_multiplies, lemma_pow_positive,
    pow,
};
use vstd::prelude::*;

verus! {

/// Every `stride`-th element, from the given offset on.
pub open spec fn strided(c: Seq<int>, offset: int, stride: int, count: nat) -> Seq<int> {
    Seq::new(count, |t: int| c[offset + stride * t])
}

/// Whether each block of `radix^s` elements of `v` is the transform of the subsequence of `c`
/// that belongs to the block, where `c` has `radix^log` elements.
pub open spec fn level(
    v: Seq<int>,
    c: Seq<int>,
    radix: int,
    log: nat,
    s: nat,
    w: int,
    p: int,
) -> bool {
    let m = pow(radix, s);
    let q = pow(radix, (log - s) as nat);
    &&& v.len() == c.len()
    &&& forall|pos: int|
        0 <= pos < v.len() ==> #[trigger] v[pos] == eval(
            strided(c, reversed(radix, (log - s) as nat, pos / m), q, m as nat),
            pow(w, (q * (pos % m)) as nat),
        ) % p
}

/// What the element at `pos` becomes when `radix` blocks of `m` elements are made into one. The
/// root of unity of the new block is `w^q`.
pub open spec fn combined(v: Seq<int>, radix: int, m: int, q: int, w: int, pos: int) -> int {
    let step = m * radix;
    eval(
        Seq::new(radix as nat, |d: int| v[(pos / step) * step + d * m + pos % m]),
        pow(w, (q * (pos % step)) as nat),
    )
}

/// A polynomial, put together from those of its coefficients whose index has the same remainder.
proof fn lemma_eval_split(c: Seq<int>, radix: nat, m: nat, x: int)
    requires
        radix > 0,
        c.len() == radix * m,
    ensures
        eval(c, x) == sum(
            radix,
            |d: int| eval(strided(c, d, radix as int, m), pow(x, radix)) * pow(x, d as nat),
        ),
{
    let f = |i: int| c[i] * pow(x, i as nat);
    let y = pow(x, radix);
    let rows = |d: int| sum(m, |t: int| f(d + radix * t));
    let goal = |d: int| eval(strided(c, d, radix as int, m), y) * pow(x, d as nat);
    lemma_sum_by_remainder(radix, m, f);
    assert forall|d: int| 0 <= d < radix implies #[trigger] rows(d) == goal(d) by {
        let s = strided(c, d, radix as int, m);
        let z = pow(x, d as nat);
        let g = |t: int| s[t] * pow(y, t as nat);
        let h = |t: int| z * g(t);
        let row = |t: int| f(d + radix * t);
        assert forall|t: int| 0 <= t < m implies #[trigger] h(t) == row(t) by {
            lemma_pow_multiplies(x, radix, t as nat);
            let rt = radix * (t as nat);
            lemma_pow_adds(x, d as nat, rt);
            assert(d as nat + rt == d + radix * t);
            let a = c[d + radix * t];
            let b = pow(y, t as nat);
            assert(z * (a * b) == a * (z * b)) by (nonlinear_arith);
        }
        lemma_sum_ext(m, h, row);
        lemma_sum_scale(m, z, g);
        assert(z * eval(s, y) == eval(s, y) * z) by (nonlinear_arith);
    }
    lemma_sum_ext(radix, rows, goal);
}

/// Where an element stands: its block, its place among the blocks to combine, and its place there.
pub proof fn lemma_position(pos: int, radix: int, m: int)
    requires
        pos >= 0,
        radix > 0,
        m > 0,
    ensures
        m * radix > 0,
        0 <= pos / (m * radix),
        0 <= pos % m < m,
        0 <= (pos % (m * radix)) / m < radix,
        pos % (m * radix) == ((pos % (m * radix)) / m) * m + pos % m,
        pos == (pos / (m * radix)) * (m * radix) + ((pos % (m * radix)) / m) * m + pos % m,
{
    let step = m * radix;
    assert(step > 0) by (nonlinear_arith)
        requires
            step == m * radix,
            m > 0,
            radix > 0,
    ;
    let b = pos / step;
    let rest = pos % step;
    let e = rest / m;
    let i = rest % m;
    lemma_fundamental_div_mod(pos, step);
    lemma_mod_bound(pos, step);
    lemma_div_pos_is_pos(pos, step);
    lemma_fundamental_div_mod(rest, m);
    lemma_mod_bound(rest, m);
    lemma_div_pos_is_pos(rest, m);
    assert(step * b == b * step) by (nonlinear_arith);
    assert(m * e == e * m) by (nonlinear_arith);
    assert(e < radix) by (nonlinear_arith)
        requires
            m * e <= rest,
            rest < m * radix,
            m > 0,
    ;
    assert(pos == m * (b * radix + e) + i) by (nonlinear_arith)
        requires
            pos == step * b + rest,
            step == m * radix,
            rest == m * e + i,
    ;
    lemma_fundamental_div_mod_converse(pos, m, b * radix + e, i);
}

/// The position that is given by a block, a place among the blocks to combine and a place there.
pub proof fn lemma_position_of(b: int, e: int, i: int, radix: int, m: int)
    requires
        b >= 0,
        0 <= e < radix,
        0 <= i < m,
    ensures
        0 <= e * m + i < m * radix,
        (b * (m * radix) + e * m + i) / (m * radix) == b,
        (b * (m * radix) + e * m + i) % (m * radix) == e * m + i,
        (b * (m * radix) + e * m + i) % m == i,
        (b * (m * radix) + e * m + i) / m == b * radix + e,
{
    let step = m * radix;
    let pos = b * step + e * m + i;
    assert(0 <= e * m + i < step) by (nonlinear_arith)
        requires
            step == m * radix,
            0 <= e <= radix - 1,
            0 <= i <= m - 1,
    ;
    assert(b * step == step * b) by (nonlinear_arith);
    lemma_fundamental_div_mod_converse(pos, step, b, e * m + i);
    assert(pos == m * (b * radix + e) + i) by (nonlinear_arith)
        requires
            pos == b * (m * radix) + e * m + i,
    ;
    lemma_fundamental_div_mod_converse(pos, m, b * radix + e, i);
}

/// Before the first step every element is a block of its own, in the order of reversed indices.
pub proof fn lemma_level_first(v: Seq<int>, c: Seq<int>, radix: int, log: nat, w: int, p: int)
    requires
        radix >= 2,
        p > 0,
        c.len() == pow(radix, log),
        v.len() == c.len(),
        reduced(c, p),
        forall|pos: int| 0 <= pos < v.len() ==> #[trigger] v[pos] == c[reversed(radix, log, pos)],
    ensures
        level(v, c, radix, log, 0, w, p),
{
    lemma_pow0(radix);
    lemma_pow0(w);
    let q = pow(radix, log);
    assert forall|pos: int| 0 <= pos < v.len() implies #[trigger] v[pos] == eval(
        strided(c, reversed(radix, log, pos / 1), q, 1),
        pow(w, (q * (pos % 1)) as nat),
    ) % p by {
        let r = reversed(radix, log, pos);
        lemma_reversed_bound(radix, log, pos);
        lemma_fundamental_div_mod_converse(pos, 1, pos, 0);
        let s = strided(c, r, q, 1);
        assert(q * 0 == 0);
        assert(s[0] == c[r + q * 0]);
        lemma_eval_constant(s, 1);
        lemma_small_mod(c[r] as nat, p as nat);
    }
}

/// After the last step there is one block, which is the transform of the whole sequence.
pub proof fn lemma_level_last(v: Seq<int>, c: Seq<int>, radix: int, log: nat, w: int, p: int)
    requires
        radix >= 2,
        p > 0,
        c.len() == pow(radix, log),
        level(v, c, radix, log, log, w, p),
    ensures
        v == dft(c, w, p),
{
    lemma_pow0(radix);
    let n = c.len() as int;
    let d = dft(c, w, p);
    assert forall|pos: int| 0 <= pos < n implies v[pos] == d[pos] by {
        lemma_fundamental_div_mod_converse(pos, n, 0, pos);
        assert(1 * pos == pos);
        assert(strided(c, 0, 1, n as nat) =~= c);
    }
    assert(v =~= d);
}

/// Combining the blocks of one level gives the next level.
pub proof fn lemma_level_next(
    v: Seq<int>,
    u: Seq<int>,
    c: Seq<int>,
    radix: int,
    log: nat,
    s: nat,
    w: int,
    p: int,
)
    requires
        radix >= 2,
        p > 1,
        c.len() == pow(radix, log),
        pow(w, c.len()) % p == 1,
        s < log,
        level(v, c, radix, log, s, w, p),
        u.len() == v.len(),
        forall|pos: int|
            0 <= pos < u.len() ==> #[trigger] u[pos] == combined(
                v,
                radix,
                pow(radix, s),
                pow(radix, (log - s - 1) as nat),
                w,
                pos,
            ) % p,
    ensures
        level(u, c, radix, log, s + 1, w, p),
{
    let m = pow(radix, s);
    let l = (log - s - 1) as nat;
    let q1 = pow(radix, l);
    let step = m * radix;
    lemma_pow_positive(radix, s);
    lemma_pow_positive(radix, l);
    lemma_pow_step(radix, s);
    lemma_pow_step(radix, l);
    assert(l + 1 == (log - s) as nat);
    assert(step == radix * m) by (nonlinear_arith)
        requires
            step == m * radix,
    ;
    lemma_pow_adds(radix, s + 1, l);
    assert(s + 1 + l == log);
    assert forall|pos: int| 0 <= pos < u.len() implies #[trigger] u[pos] == eval(
        strided(c, reversed(radix, l, pos / step), q1, step as nat),
        pow(w, (q1 * (pos % step)) as nat),
    ) % p by {
        lemma_combined(v, c, radix, log, s, w, p, pos);
    }
}

/// The combined element is a value of the polynomial whose parts the blocks hold.
proof fn lemma_combined(
    v: Seq<int>,
    c: Seq<int>,
    radix: int,
    log: nat,
    s: nat,
    w: int,
    p: int,
    pos: int,
)
    requires
        radix >= 2,
        p > 1,
        c.len() == pow(radix, log),
        pow(w, c.len()) % p == 1,
        s < log,
        level(v, c, radix, log, s, w, p),
        0 <= pos < v.len(),
    ensures
        combined(v, radix, pow(radix, s), pow(radix, (log - s - 1) as nat), w, pos) % p == eval(
            strided(
                c,
                reversed(radix, (log - s - 1) as nat, pos / (pow(radix, s) * radix)),
                pow(radix, (log - s - 1) as nat),
                (pow(radix, s) * radix) as nat,
            ),
            pow(
                w,
                (pow(radix, (log - s - 1) as nat) * (pos % (pow(radix, s) * radix))) as nat,
            ),
        ) % p,
{
    let m = pow(radix, s);
    let q = pow(radix, (log - s) as nat);
    let l = (log - s - 1) as nat;
    let q1 = pow(radix, l);
    let step = m * radix;
    let n = c.len() as int;
    lemma_pow_positive(radix, s);
    lemma_pow_positive(radix, l);
    lemma_pow_step(radix, l);
    assert(l + 1 == (log - s) as nat);
    lemma_pow_adds(radix, s, (log - s) as nat);
    assert(s + (log - s) as nat == log);
    assert(n == m * q);
    assert(q == radix * q1);
    lemma_position(pos, radix, m);
    let b = pos / step;
    let e = (pos % step) / m;
    let i = pos % m;
    let x = pow(w, (q1 * (pos % step)) as nat);
    let whole = strided(c, reversed(radix, l, b), q1, step as nat);
    let parts = Seq::new(radix as nat, |d: int| v[b * step + d * m + i]);
    assert(0 <= q1 * (pos % step)) by (nonlinear_arith)
        requires
            q1 > 0,
            pos % step >= 0,
    ;
    assert((radix as nat) * (m as nat) == step as nat) by (nonlinear_arith)
        requires
            step == m * radix,
            m > 0,
            radix > 0,
    ;
    lemma_eval_split(whole, radix as nat, m as nat, x);
    let y = pow(x, radix as nat);
    let f = |d: int| parts[d] * pow(x, d as nat);
    let g = |d: int| eval(strided(whole, d, radix, m as nat), y) * pow(x, d as nat);
    // y is congruent to w^(q * i)
    let z = pow(w, (q * i) as nat);
    assert(y % p == z % p) by {
        let a = q1 * (pos % step);
        lemma_pow_multiplies(w, a as nat, radix as nat);
        assert(a * radix == n * e + q * i) by (nonlinear_arith)
            requires
                a == q1 * (pos % step),
                pos % step == e * m + i,
                n == m * q,
                q == radix * q1,
        ;
        assert(0 <= n * e) by (nonlinear_arith)
            requires
                n >= 0,
                e >= 0,
        ;
        assert(0 <= q * i) by (nonlinear_arith)
            requires
                q == radix * q1,
                radix > 0,
                q1 > 0,
                i >= 0,
        ;
        assert((a as nat) * (radix as nat) == (n * e) as nat + (q * i) as nat);
        lemma_pow_adds(w, (n * e) as nat, (q * i) as nat);
        lemma_pow_multiplies(w, n as nat, e as nat);
        assert((n as nat) * (e as nat) == (n * e) as nat);
        lemma_small_mod(1, p as nat);
        lemma_pow_congr(pow(w, n as nat), 1, e as nat, p);
        lemma1_pow(e as nat);
        lemma_mul_congr(pow(w, (n * e) as nat), 1, z, z, p);
    }
    assert forall|d: int| 0 <= d < radix implies #[trigger] f(d) % p == g(d) % p by {
        let at = b * step + d * m + i;
        lemma_position_of(b, d, i, radix, m);
        lemma_reversed_step(radix, l, b, d);
        let off = reversed(radix, l, b) + d * q1;
        let part = strided(whole, d, radix, m as nat);
        let block = strided(c, off, q, m as nat);
        assert(part =~= block) by {
            assert forall|t: int| 0 <= t < m implies part[t] == block[t] by {
                assert(0 <= d + radix * t < step) by (nonlinear_arith)
                    requires
                        step == m * radix,
                        0 <= d <= radix - 1,
                        0 <= t <= m - 1,
                ;
                assert(q1 * (d + radix * t) == d * q1 + q * t) by (nonlinear_arith)
                    requires
                        q == radix * q1,
                ;
            }
        }
        assert(0 <= at < v.len()) by {
            assert(at >= 0) by (nonlinear_arith)
                requires
                    at == b * step + d * m + i,
                    b >= 0,
                    step > 0,
                    d >= 0,
                    m > 0,
                    i >= 0,
            ;
            // the block ends within the sequence
            assert(n == step * q1) by (nonlinear_arith)
                requires
                    n == m * q,
                    q == radix * q1,
                    step == m * radix,
            ;
            assert(b < q1) by (nonlinear_arith)
                requires
                    b * step <= pos,
                    pos < n,
                    n == step * q1,
                    step > 0,
            ;
            assert(at < n) by (nonlinear_arith)
                requires
                    at == b * step + (d * m + i),
                    d * m + i < step,
                    b <= q1 - 1,
                    n == step * q1,
                    step > 0,
            ;
        }
        assert(v[at] == eval(block, z) % p);
        lemma_mod_mod(eval(block, z), p);
        lemma_eval_congr(block, block, y, z, p);
        lemma_mul_congr(parts[d], eval(part, y), pow(x, d as nat), pow(x, d as nat), p);
    }
    lemma_sum_congr(radix as nat, f, g, p);
}

/// Whether of the elements of `v` those before place `k` in each block, and those at place `k` of
/// the first `b` combined blocks, are combined in `u`, and the others unchanged.
pub open spec fn partly_combined(
    v: Seq<int>,
    u: Seq<int>,
    radix: int,
    m: int,
    q: int,
    w: int,
    p: int,
    k: int,
    b: int,
) -> bool {
    &&& u.len() == v.len()
    &&& forall|pos: int|
        0 <= pos < u.len() ==> #[trigger] u[pos] == if pos % m < k || (pos % m == k && pos / (m
            * radix) < b) {
            combined(v, radix, m, q, w, pos) % p
        } else {
            v[pos]
        }
}

/// Nothing is combined at first.
pub proof fn lemma_partly_first(v: Seq<int>, radix: int, m: int, q: int, w: int, p: int)
    requires
        radix > 0,
        m > 0,
    ensures
        partly_combined(v, v, radix, m, q, w, p, 0, 0),
{
    assert forall|pos: int| 0 <= pos < v.len() implies #[trigger] v[pos] == if pos % m < 0 || (pos
        % m == 0 && pos / (m * radix) < 0) {
        combined(v, radix, m, q, w, pos) % p
    } else {
        v[pos]
    } by {
        lemma_position(pos, radix, m);
    }
}

/// When place `k` is combined in every block, place `k + 1` is next.
pub proof fn lemma_partly_row(
    v: Seq<int>,
    u: Seq<int>,
    radix: int,
    m: int,
    q: int,
    w: int,
    p: int,
    k: int,
)
    requires
        radix > 0,
        m > 0,
        q > 0,
        v.len() == q * (m * radix),
        partly_combined(v, u, radix, m, q, w, p, k, q),
    ensures
        partly_combined(v, u, radix, m, q, w, p, k + 1, 0),
{
    assert forall|pos: int| 0 <= pos < u.len() implies #[trigger] u[pos] == if pos % m < k + 1 || (
    pos % m == k + 1 && pos / (m * radix) < 0) {
        combined(v, radix, m, q, w, pos) % p
    } else {
        v[pos]
    } by {
        lemma_position(pos, radix, m);
        let b = pos / (m * radix);
        let step = m * radix;
        assert(b < q) by (nonlinear_arith)
            requires
                b * step <= pos,
                pos < q * step,
                step > 0,
        ;
    }
}

/// When every place is combined, the step is done.
pub proof fn lemma_partly_last(
    v: Seq<int>,
    u: Seq<int>,
    radix: int,
    m: int,
    q: int,
    w: int,
    p: int,
)
    requires
        radix > 0,
        m > 0,
        partly_combined(v, u, radix, m, q, w, p, m, 0),
    ensures
        forall|pos: int|
            0 <= pos < u.len() ==> #[trigger] u[pos] == combined(v, radix, m, q, w, pos) % p,
{
    assert forall|pos: int| 0 <= pos < u.len() implies #[trigger] u[pos] == combined(
        v,
        radix,
        m,
        q,
        w,
        pos,
    ) % p by {
        lemma_position(pos, radix, m);
    }
}

/// Combining the elements at place `k` of block `b`.
pub proof fn lemma_partly_step(
    v: Seq<int>,
    u: Seq<int>,
    t: Seq<int>,
    radix: int,
    m: int,
    q: int,
    w: int,
    p: int,
    k: int,
    b: int,
)
    requires
        radix > 0,
        b >= 0,
        0 <= k < m,
        partly_combined(v, u, radix, m, q, w, p, k, b),
        t.len() == u.len(),
        forall|e: int|
            0 <= e < radix && b * (m * radix) + e * m + k < t.len() ==> #[trigger] t[b * (m * radix)
                + e * m + k] == combined(v, radix, m, q, w, b * (m * radix) + e * m + k) % p,
        forall|pos: int|
            0 <= pos < t.len() && !(pos % m == k && pos / (m * radix) == b) ==> #[trigger] t[pos]
                == u[pos],
    ensures
        partly_combined(v, t, radix, m, q, w, p, k, b + 1),
{
    assert forall|pos: int| 0 <= pos < t.len() implies #[trigger] t[pos] == if pos % m < k || (pos
        % m == k && pos / (m * radix) < b + 1) {
        combined(v, radix, m, q, w, pos) % p
    } else {
        v[pos]
    } by {
        lemma_position(pos, radix, m);
        if pos % m == k && pos / (m * radix) == b {
            let e = (pos % (m * radix)) / m;
            assert(pos == b * (m * radix) + e * m + k);
            assert(t[b * (m * radix) + e * m + k] == combined(v, radix, m, q, w, pos) % p);
        } else {
            assert(t[pos] == u[pos]);
        }
    }
}

/// The elements of the sequence that are combined into the one at the given place.
proof fn lemma_combined_parts(
    v: Seq<int>,
    radix: int,
    m: int,
    q: int,
    w: int,
    b: int,
    e: int,
    k: int,
)
    requires
        b >= 0,
        q > 0,
        0 <= e < radix,
        0 <= k < m,
    ensures
        combined(v, radix, m, q, w, b * (m * radix) + e * m + k) == eval(
            Seq::new(radix as nat, |d: int| v[b * (m * radix) + d * m + k]),
            pow(w, (q * (e * m + k)) as nat),
        ),
        pow(w, (q * (e * m + k)) as nat) == pow(pow(w, (q * m) as nat), e as nat) * pow(
            w,
            (q * k) as nat,
        ),
{
    lemma_position_of(b, e, k, radix, m);
    let parts = Seq::new(radix as nat, |d: int| v[b * (m * radix) + d * m + k]);
    let pos = b * (m * radix) + e * m + k;
    let step = m * radix;
    let other = Seq::new(radix as nat, |d: int| v[(pos / step) * step + d * m + pos % m]);
    assert(parts =~= other);
    assert(0 <= q * m) by (nonlinear_arith)
        requires
            q > 0,
            m > 0,
    ;
    assert(0 <= q * k) by (nonlinear_arith)
        requires
            q > 0,
            k >= 0,
    ;
    let a = (q * m) as nat;
    lemma_pow_multiplies(w, a, e as nat);
    assert(a * (e as nat) + q * k == q * (e * m + k)) by (nonlinear_arith)
        requires
            a == q * m,
            e >= 0,
    ;
    assert(0 <= a * (e as nat));
    lemma_pow_adds(w, a * (e as nat), (q * k) as nat);
}

/// The value of a polynomial of two coefficients.
pub proof fn lemma_eval_pair(c: Seq<int>, x: int)
    requires
        c.len() == 2,
    ensures
        eval(c, x) == c[0] + c[1] * x,
{
    lemma_eval_first(c, x);
    lemma_eval_constant(c.skip(1), x);
    let a = c[1];
    assert(x * a == a * x) by (nonlinear_arith);
}

/// The value of a polynomial of three coefficients.
pub proof fn lemma_eval_triple(c: Seq<int>, x: int)
    requires
        c.len() == 3,
    ensures
        eval(c, x) == c[0] + c[1] * x + c[2] * (x * x),
{
    lemma_eval_first(c, x);
    lemma_eval_pair(c.skip(1), x);
    let a = c[1];
    let b = c[2];
    assert(x * (a + b * x) == a * x + b * (x * x)) by (nonlinear_arith);
}

/// Two blocks are combined by a sum and a difference.
pub proof fn lemma_combined_pair(
    v: Seq<int>,
    m: int,
    q: int,
    w: int,
    p: int,
    b: int,
    k: int,
    x: int,
)
    requires
        p > 0,
        b >= 0,
        q > 0,
        0 <= k < m,
        x % p == pow(w, (q * k) as nat) % p,
        pow(w, (q * m) as nat) % p == (-1) % p,
    ensures
        ({
            let j = b * (m * 2) + k;
            &&& combined(v, 2, m, q, w, j) % p == (v[j] + x * v[j + m]) % p
            &&& combined(v, 2, m, q, w, j + m) % p == (v[j] - x * v[j + m]) % p
        }),
{
    let j = b * (m * 2) + k;
    let parts = Seq::new(2, |d: int| v[b * (m * 2) + d * m + k]);
    assert(0 * m == 0);
    assert(1 * m == m);
    assert(parts[0] == v[j]);
    assert(parts[1] == v[j + m]);
    let z = pow(w, (q * m) as nat);
    let y = pow(w, (q * k) as nat);
    let a = v[j];
    let c = v[j + m];
    lemma_combined_parts(v, 2, m, q, w, b, 0, k);
    lemma_combined_parts(v, 2, m, q, w, b, 1, k);
    lemma_pow0(z);
    lemma_pow1(z);
    lemma_eval_pair(parts, 1 * y);
    lemma_eval_pair(parts, z * y);
    lemma_mul_congr(c, c, y, x, p);
    assert(c * x == x * c) by (nonlinear_arith);
    lemma_add_congr(a, a, c * y, x * c, p);
    lemma_mul_congr(z, -1, y, x, p);
    lemma_mul_congr(c, c, z * y, -1 * x, p);
    assert(c * (-1 * x) == -(x * c)) by (nonlinear_arith);
    lemma_add_congr(a, a, c * (z * y), -(x * c), p);
}

/// Three blocks are combined with the powers of a third root of unity.
pub proof fn lemma_combined_triple(
    v: Seq<int>,
    m: int,
    q: int,
    w: int,
    p: int,
    b: int,
    k: int,
    x: int,
    z: int,
)
    requires
        p > 1,
        b >= 0,
        q > 0,
        0 <= k < m,
        x % p == pow(w, (q * k) as nat) % p,
        pow(w, (q * m) as nat) % p == z % p,
        pow(z, 3) % p == 1,
    ensures
        ({
            let j = b * (m * 3) + k;
            let t1 = x * v[j + m];
            let t2 = (x * x) * v[j + 2 * m];
            &&& combined(v, 3, m, q, w, j) % p == (v[j] + t1 + t2) % p
            &&& combined(v, 3, m, q, w, j + m) % p == (v[j] + z * t1 + (z * z) * t2) % p
            &&& combined(v, 3, m, q, w, j + 2 * m) % p == (v[j] + (z * z) * t1 + z * t2) % p
        }),
{
    let j = b * (m * 3) + k;
    let parts = Seq::new(3, |d: int| v[b * (m * 3) + d * m + k]);
    assert(0 * m == 0);
    assert(1 * m == m);
    assert(parts[0] == v[j]);
    assert(parts[1] == v[j + m]);
    assert(parts[2] == v[j + 2 * m]);
    let z1 = pow(w, (q * m) as nat);
    let y = pow(w, (q * k) as nat);
    let a = v[j];
    let c = v[j + m];
    let d = v[j + 2 * m];
    let t1 = x * c;
    let t2 = (x * x) * d;
    lemma_combined_parts(v, 3, m, q, w, b, 0, k);
    lemma_combined_parts(v, 3, m, q, w, b, 1, k);
    lemma_combined_parts(v, 3, m, q, w, b, 2, k);
    lemma_pow0(z1);
    lemma_pow1(z1);
    lemma_pow_square(z1);
    lemma_eval_triple_congr(parts, 1 * y, x, p);
    assert(c * x == t1) by (nonlinear_arith)
        requires
            t1 == x * c,
    ;
    assert(d * (x * x) == t2) by (nonlinear_arith)
        requires
            t2 == (x * x) * d,
    ;
    lemma_mul_congr(z1, z, y, x, p);
    lemma_eval_triple_congr(parts, z1 * y, z * x, p);
    assert(c * (z * x) == z * t1) by (nonlinear_arith)
        requires
            t1 == x * c,
    ;
    assert(d * ((z * x) * (z * x)) == (z * z) * t2) by (nonlinear_arith)
        requires
            t2 == (x * x) * d,
    ;
    lemma_mul_congr(z1, z, z1, z, p);
    lemma_mul_congr(z1 * z1, z * z, y, x, p);
    lemma_eval_triple_congr(parts, (z1 * z1) * y, (z * z) * x, p);
    assert(c * ((z * z) * x) == (z * z) * t1) by (nonlinear_arith)
        requires
            t1 == x * c,
    ;
    // z^4 is congruent to z
    lemma_pow_adds(z, 1, 2);
    lemma_pow1(z);
    lemma_pow_square(z);
    assert(d * (((z * z) * x) * ((z * z) * x)) == (z * (z * z)) * (z * t2)) by (nonlinear_arith)
        requires
            t2 == (x * x) * d,
    ;
    lemma_small_mod(1, p as nat);
    lemma_mul_congr(z * (z * z), 1, z * t2, z * t2, p);
    lemma_add_congr(
        a + (z * z) * t1,
        a + (z * z) * t1,
        (z * (z * z)) * (z * t2),
        1 * (z * t2),
        p,
    );
}

/// A second power is a product.
proof fn lemma_pow_square(x: int)
    ensures
        pow(x, 2) == x * x,
{
    lemma_pow_adds(x, 1, 1);
    lemma_pow1(x);
}

/// The value of a polynomial of three coefficients at a congruent point.
proof fn lemma_eval_triple_congr(c: Seq<int>, x: int, y: int, p: int)
    requires
        p > 0,
        c.len() == 3,
        x % p == y % p,
    ensures
        eval(c, x) % p == (c[0] + c[1] * y + c[2] * (y * y)) % p,
{
    lemma_eval_congr(c, c, x, y, p);
    lemma_eval_triple(c, y);
}

} // verus!
