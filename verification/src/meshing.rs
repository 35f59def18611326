//! Integer helpers used to carve a task group into rectangular blocks.
//!
//! These functions decide how many blocks a calculation is split into along
//! each array dimension, which in turn fixes the keys of the task group and
//! the work-assignment function used by the distributed executors.

use vstd::prelude::*;
use vstd::arithmetic::div_mod::{lemma_fundamental_div_mod, lemma_mod_multiples_basic};

verus! {

/// A prime: an integer of at least 2 with no divisor strictly between 1 and
/// itself.
pub open spec fn is_prime(p: int) -> bool {
    2 <= p && forall|d: int| 2 <= d < p ==> #[trigger] (p % d) != 0
}

/// The product of all entries of a sequence; 1 for the empty sequence.
pub open spec fn seq_product(s: Seq<usize>) -> int
    decreases s.len(),
{
    if s.len() == 0 {
        1
    } else {
        s[0] * seq_product(s.drop_first())
    }
}

/// The entries of `s` never decrease from left to right.
pub open spec fn non_decreasing(s: Seq<usize>) -> bool {
    forall|i: int, j: int| 0 <= i <= j < s.len() ==> s[i] <= s[j]
}

/// `f` is the (unique) sorted sequence of primes whose product is `n`.
pub open spec fn is_prime_factorization(n: int, f: Seq<usize>) -> bool {
    &&& seq_product(f) == n
    &&& forall|i: int| 0 <= i < f.len() ==> is_prime(#[trigger] f[i] as int)
    &&& non_decreasing(f)
}

proof fn lemma_seq_product_push(s: Seq<usize>, v: usize)
    ensures
        seq_product(s.push(v)) == seq_product(s) * v,
    decreases s.len(),
{
    if s.len() == 0 {
        assert(s.push(v).drop_first() =~= Seq::<usize>::empty());
        assert(s.push(v)[0] == v);
        assert(seq_product(s.push(v)) == v * seq_product(Seq::<usize>::empty()));
    } else {
        assert(s.push(v).drop_first() =~= s.drop_first().push(v));
        lemma_seq_product_push(s.drop_first(), v);
        assert(s.push(v)[0] == s[0]);
        assert(seq_product(s.push(v)) == s[0] * (seq_product(s.drop_first()) * v));
        assert(s[0] * (seq_product(s.drop_first()) * v) == (s[0] * seq_product(s.drop_first()))
            * v) by (nonlinear_arith);
    }
}

/// Divisibility is transitive: if `m` divides `n` and `c` divides `m`,
/// then `c` divides `n`.
proof fn lemma_divides_transitive(c: int, m: int, n: int)
    requires
        1 <= c,
        1 <= m,
        0 <= n,
        n % m == 0,
        m % c == 0,
    ensures
        n % c == 0,
{
    lemma_fundamental_div_mod(n, m);
    lemma_fundamental_div_mod(m, c);
    let k = n / m;
    let j = m / c;
    assert(n == (j * k) * c) by (nonlinear_arith)
        requires n == m * k, m == c * j,
    ;
    lemma_mod_multiples_basic(j * k, c);
}

/// A number above 2 with no divisor up to its integer square root is prime.
proof fn lemma_no_divisor_up_to_sqrt_prime(n: int, s: int)
    requires
        3 <= n,
        1 <= s,
        s * s <= n,
        n < (s + 1) * (s + 1),
        forall|d: int| 2 <= d <= s ==> #[trigger] (n % d) != 0,
    ensures
        is_prime(n),
{
    assert forall|c: int| 2 <= c < n implies #[trigger] (n % c) != 0 by {
        if n % c == 0 {
            lemma_fundamental_div_mod(n, c);
            let e = n / c;
            assert(n == c * e);
            assert(1 <= e) by (nonlinear_arith)
                requires n == c * e, 2 <= c, 3 <= n,
            ;
            assert(e < n) by (nonlinear_arith)
                requires n == c * e, 2 <= c, 1 <= e,
            ;
            // One of the two cofactors lies at or below the square root.
            if c <= s {
                assert(n % c != 0);
            } else {
                assert(e <= s) by (nonlinear_arith)
                    requires n == c * e, s + 1 <= c, 1 <= e, 1 <= s, n < (s + 1) * (s + 1),
                ;
                if e == 1 {
                    assert(n == c) by (nonlinear_arith)
                        requires n == c * e, e == 1,
                    ;
                } else {
                    assert(n % e == 0) by {
                        lemma_mod_multiples_basic(c, e);
                        assert(c * e == n);
                    }
                }
            }
        }
    }
}

/// Computes the integer square root, `floor(sqrt(n))`, of an unsigned
/// integer `n`, by Newton's method.
pub fn integer_square_root(n: usize) -> (r: usize)
    ensures
        r * r <= n,
        n < (r + 1) * (r + 1),
{
    let mut x0: usize = n / 2;

    if x0 == 0 {
        proof {
            assert(n < 2);
            assert(n < (n + 1) * (n + 1)) by (nonlinear_arith)
                requires n < 2,
            ;
        }
        n
    } else {
        assert((x0 + 1) * (x0 + 1) > n) by (nonlinear_arith)
            requires
                x0 == n / 2,
                n >= 2,
        ;
        let mut x1: usize = newton_step(n, x0);

        while x1 < x0
            invariant
                2 <= n,
                1 <= x0,
                x0 <= n / 2,
                n < (x0 + 1) * (x0 + 1),
                x1 == newton_spec(n as int, x0 as int),
                x1 < x0 ==> 1 <= x1 && x1 <= n / 2 && n < (x1 + 1) * (x1 + 1),
            decreases x0,
        {
            x0 = x1;
            x1 = newton_step(n, x0);
        }
        proof {
            lemma_newton_above(n as int, x0 as int);
            assert(x0 * x0 <= n);
        }
        x0
    }
}

/// One Newton iteration for the square root of `n` at the point `x`.
spec fn newton_spec(n: int, x: int) -> int {
    (x + n / x) / 2
}

/// Runs one Newton iteration, proving the average does not overflow and
/// that each new iterate still lies above the integer square root.
fn newton_step(n: usize, x: usize) -> (r: usize)
    requires
        2 <= n,
        1 <= x,
        x <= n / 2,
        n < (x + 1) * (x + 1),
    ensures
        r == newton_spec(n as int, x as int),
        r < x ==> 1 <= r && r <= n / 2 && n < (r + 1) * (r + 1),
{
    proof {
        if x >= 2 {
            assert(n / x <= n / 2) by (nonlinear_arith)
                requires 2 <= x, 0 <= n,
            ;
            assert(x + n / x <= n);
        } else {
            assert(x == 1);
            assert(n <= 3) by (nonlinear_arith)
                requires x == 1, n < (x + 1) * (x + 1),
            ;
            assert(x + n / x <= 4) by (nonlinear_arith)
                requires x == 1, n <= 3,
            ;
        }
        assert(x + n / x <= n || x + n / x <= 4);
    }
    let r: usize = (x + n / x) / 2;
    proof {
        lemma_newton_preserves(n as int, x as int);
    }
    r
}

/// After one Newton step from any point `x >= 1`, the new iterate is still
/// at least the integer square root of `n`: `(r + 1) * (r + 1) > n`.
proof fn lemma_newton_preserves(n: int, x: int)
    requires
        1 <= x,
        0 <= n,
    ensures
        (newton_spec(n, x) + 1) * (newton_spec(n, x) + 1) > n,
        x >= 2 ==> newton_spec(n, x) >= 1,
{
    let q = n / x;
    let y = (x + q) / 2;
    assert(x * q <= n < x * q + x) by (nonlinear_arith)
        requires 1 <= x, 0 <= n, q == n / x,
    ;
    assert(2 * y + 1 >= x + q);
    assert((x + q + 1) * (x + q + 1) >= 4 * (x * q + x)) by (nonlinear_arith)
        requires 1 <= x, 0 <= q,
    ;
    assert((2 * (y + 1)) * (2 * (y + 1)) >= (x + q + 1) * (x + q + 1)) by (nonlinear_arith)
        requires 2 * y + 1 >= x + q, 1 <= x, 0 <= q,
    ;
    assert((2 * (y + 1)) * (2 * (y + 1)) == 4 * ((y + 1) * (y + 1))) by (nonlinear_arith);
    assert(4 * ((y + 1) * (y + 1)) > 4 * n);
}

/// When a Newton step fails to decrease, the current point is already at or
/// below the integer square root: `x * x <= n`.
proof fn lemma_newton_above(n: int, x: int)
    requires
        1 <= x,
        0 <= n,
        newton_spec(n, x) >= x,
    ensures
        x * x <= n,
{
    let q = n / x;
    assert((x + q) / 2 >= x);
    assert(q >= x);
    assert(x * q <= n) by (nonlinear_arith)
        requires 1 <= x, 0 <= n, q == n / x,
    ;
    assert(x * x <= x * q) by (nonlinear_arith)
        requires 1 <= x, q >= x,
    ;
}

/// When one factor `f` is split off the remaining value `n`, the running
/// product of factors times the remaining value is unchanged.
proof fn lemma_factor_step(p: int, f: int, m: int, n: int, n0: int)
    requires
        p * n == n0,
        n == f * m,
    ensures
        (p * f) * m == n0,
{
    assert((p * f) * m == p * (f * m)) by (nonlinear_arith);
}

/// Finds the prime factors of `n`, in non-decreasing order, by trial
/// division up to the integer square root.
pub fn prime_factors(n: usize) -> (r: Vec<usize>)
    requires
        1 <= n,
    ensures
        is_prime_factorization(n as int, r@),
{
    let ghost n0 = n as int;
    let mut n = n;
    let mut result: Vec<usize> = Vec::new();

    while n % 2 == 0
        invariant
            1 <= n,
            seq_product(result@) * n == n0,
            forall|t: int| 0 <= t < result@.len() ==> result@[t] == 2,
        decreases n,
    {
        let ghost pr = result@;
        let ghost n_old = n as int;
        result.push(2);
        n = n / 2;
        proof {
            lemma_seq_product_push(pr, 2);
            lemma_fundamental_div_mod(n_old, 2);
            assert(n_old == 2 * (n as int));
            lemma_factor_step(seq_product(pr), 2, n as int, n_old, n0);
        }
    }

    let mut i: usize = 3;
    loop
        invariant
            1 <= n,
            n % 2 != 0,
            3 <= i,
            i % 2 == 1,
            seq_product(result@) * n == n0,
            forall|d: int| 2 <= d < i ==> #[trigger] ((n as int) % d) != 0,
            forall|t: int| 0 <= t < result@.len() ==> is_prime(#[trigger] result@[t] as int),
            non_decreasing(result@),
            forall|t: int| 0 <= t < result@.len() ==> #[trigger] result@[t] < i,
        ensures
            seq_product(result@) * n == n0,
            forall|t: int| 0 <= t < result@.len() ==> is_prime(#[trigger] result@[t] as int),
            non_decreasing(result@),
            n == 1 || (is_prime(n as int) && forall|t: int|
                0 <= t < result@.len() ==> #[trigger] result@[t] <= n),
        decreases n, n + 2 - i,
    {
        let s = integer_square_root(n);
        let ghost n_before = n as int;
        if i > s {
            proof {
                if n != 1 {
                    assert(n >= 3);
                    assert(1 <= s) by (nonlinear_arith)
                        requires 3 <= n, 0 <= s, n < (s + 1) * (s + 1),
                    ;
                    assert forall|d: int| 2 <= d <= s implies #[trigger] ((n as int) % d)
                        != 0 by {}
                    lemma_no_divisor_up_to_sqrt_prime(n as int, s as int);
                    // Every recorded factor is below `i`, and `n` itself can
                    // have no divisor below `i`, so `n` is at least `i`.
                    assert(n >= i) by {
                        if n < i {
                            assert((n as int) % (n as int) == 0);
                        }
                    }
                }
            }
            break;
        }
        while n % i == 0
            invariant
                1 <= n,
                n <= n_before,
                3 <= i,
                i % 2 == 1,
                seq_product(result@) * n == n0,
                forall|d: int| 2 <= d < i ==> #[trigger] ((n as int) % d) != 0,
                forall|t: int| 0 <= t < result@.len() ==> is_prime(#[trigger] result@[t] as int),
                non_decreasing(result@),
                forall|t: int| 0 <= t < result@.len() ==> #[trigger] result@[t] <= i,
            decreases n,
        {
            let ghost pr = result@;
            let ghost n_old = n as int;
            proof {
                // `i` has no divisor of its own below `i`, since such a
                // divisor would also divide `n`; hence `i` is prime.
                assert forall|c: int| 2 <= c < i implies #[trigger] ((i as int) % c) != 0 by {
                    if (i as int) % c == 0 {
                        lemma_divides_transitive(c, i as int, n as int);
                    }
                }
            }
            result.push(i);
            n = n / i;
            proof {
                lemma_seq_product_push(pr, i);
                lemma_fundamental_div_mod(n_old, i as int);
                assert(n_old == (i as int) * (n as int));
                lemma_factor_step(seq_product(pr), i as int, n as int, n_old, n0);
                assert(1 <= n) by (nonlinear_arith)
                    requires n_old == (i as int) * (n as int), 1 <= n_old, 3 <= i,
                ;
                assert((n as int) < n_old) by (nonlinear_arith)
                    requires n_old == (i as int) * (n as int), 1 <= n, 3 <= i,
                ;
                // A divisor of the quotient divides the original number.
                assert forall|d: int| 2 <= d < i implies #[trigger] ((n as int) % d) != 0 by {
                    if (n as int) % d == 0 {
                        assert(n_old % (n as int) == 0) by {
                            lemma_mod_multiples_basic(i as int, n as int);
                        }
                        lemma_divides_transitive(d, n as int, n_old);
                    }
                }
                // The quotient stays odd.
                assert((n as int) % 2 != 0) by {
                    if (n as int) % 2 == 0 {
                        assert(n_old % (n as int) == 0) by {
                            lemma_mod_multiples_basic(i as int, n as int);
                        }
                        lemma_divides_transitive(2, n as int, n_old);
                    }
                }
            }
        }
        proof {
            // `i + 1` is even and cannot divide the odd `n`; with the loop
            // exit condition this extends the no-divisor range by two.
            assert((n as int) % (i + 1) != 0) by {
                if (n as int) % (i + 1) == 0 {
                    assert((i + 1) % 2 == 0);
                    lemma_divides_transitive(2, i as int + 1, n as int);
                }
            }
            // The loop index stays far below the word size: it never passes
            // the square root of the value being factored.
            assert(s + 2 <= s * s) by (nonlinear_arith)
                requires 3 <= s,
            ;
            assert(s * s <= n_before);
            assert(s <= n_before) by (nonlinear_arith)
                requires 1 <= s, s * s <= n_before,
            ;
        }
        i = i + 2;
    }

    if n > 2 {
        let ghost pr = result@;
        result.push(n);
        proof {
            lemma_seq_product_push(pr, n);
            assert((seq_product(pr) * (n as int)) * 1 == n0) by (nonlinear_arith)
                requires seq_product(pr) * (n as int) == n0,
            ;
        }
    }
    result
}

/// Product of the entries `f[j]`, `f[j + step]`, `f[j + 2*step]`, ... that
/// fall inside `f`; 1 when `j` is out of range or `step` is not positive.
pub open spec fn stride_product(f: Seq<usize>, j: int, step: int) -> int
    decreases f.len() + step - j,
{
    if step < 1 || j < 0 || j >= f.len() {
        1
    } else {
        f[j] * stride_product(f, j + step, step)
    }
}

/// Product of `stride_product(f, d, step)` for `d` in `[k, m)`.
pub open spec fn stride_range_product(f: Seq<usize>, k: int, m: int, step: int) -> int
    decreases m - k,
{
    if m <= k {
        1
    } else {
        stride_product(f, k, step) * stride_range_product(f, k + 1, m, step)
    }
}

/// Dropping the first entry of `f` shifts every stride product one step left.
proof fn lemma_stride_shift(f: Seq<usize>, j: int, step: int)
    requires
        1 <= j,
        1 <= step,
        1 <= f.len(),
    ensures
        stride_product(f, j, step) == stride_product(f.drop_first(), j - 1, step),
    decreases f.len() + step - j,
{
    let g = f.drop_first();
    if j >= f.len() {
    } else {
        assert(f[j] == g[j - 1]);
        lemma_stride_shift(f, j + step, step);
    }
}

/// Splitting off the last dimension of a range of stride products.
proof fn lemma_stride_range_split_last(f: Seq<usize>, k: int, m: int, step: int)
    requires
        k < m,
    ensures
        stride_range_product(f, k, m, step) == stride_range_product(f, k, m - 1, step)
            * stride_product(f, m - 1, step),
    decreases m - k,
{
    if k == m - 1 {
        assert(stride_range_product(f, k + 1, m, step) == 1);
        assert(stride_range_product(f, k, m - 1, step) == 1);
        assert(stride_range_product(f, k, m, step) == stride_product(f, k, step)
            * stride_range_product(f, k + 1, m, step));
    } else {
        lemma_stride_range_split_last(f, k + 1, m, step);
        assert(stride_range_product(f, k, m - 1, step) == stride_product(f, k, step)
            * stride_range_product(f, k + 1, m - 1, step));
        assert(stride_product(f, k, step) * (stride_range_product(f, k + 1, m - 1, step)
            * stride_product(f, m - 1, step)) == (stride_product(f, k, step)
            * stride_range_product(f, k + 1, m - 1, step)) * stride_product(f, m - 1, step))
            by (nonlinear_arith);
    }
}

/// A range of stride products of `f` from position 1 equals the same range
/// of its tail shifted left by one.
proof fn lemma_stride_range_shift(f: Seq<usize>, k: int, m: int, step: int)
    requires
        1 <= k,
        1 <= step,
        1 <= f.len(),
    ensures
        stride_range_product(f, k, m, step) == stride_range_product(
            f.drop_first(), k - 1, m - 1, step),
    decreases m - k,
{
    if m <= k {
    } else {
        lemma_stride_shift(f, k, step);
        lemma_stride_range_shift(f, k + 1, m, step);
    }
}

/// The stride products over all residues `0 .. step` jointly cover every
/// entry of `f` exactly once, so their product is the product of `f`.
proof fn lemma_strides_cover(f: Seq<usize>, step: int)
    requires
        1 <= step,
    ensures
        stride_range_product(f, 0, step, step) == seq_product(f),
    decreases f.len(),
{
    if f.len() == 0 {
        lemma_stride_range_trivial(f, 0, step, step);
    } else {
        let g = f.drop_first();
        lemma_strides_cover(g, step);
        // The residue-0 stride picks up f[0] and then continues at `step`,
        // which lands on the tail's residue `step - 1`.
        assert(stride_product(f, 0, step) == f[0] * stride_product(f, step, step));
        if step >= f.len() {
            assert(stride_product(f, step, step) == 1);
            assert(stride_product(g, step - 1, step) == 1) by {
                assert(step - 1 >= g.len());
            }
        } else {
            lemma_stride_shift(f, step, step);
        }
        lemma_stride_range_shift(f, 1, step, step);
        if step == 1 {
            assert(stride_range_product(g, 1, 1, 1) == 1);
            assert(stride_range_product(g, 0, 1, 1) == stride_product(g, 0, 1)
                * stride_range_product(g, 1, 1, 1));
            assert(stride_product(g, 0, 1) == seq_product(g));
            assert(stride_range_product(f, 1, 1, 1) == 1);
            assert(stride_range_product(f, 0, 1, 1) == stride_product(f, 0, 1)
                * stride_range_product(f, 1, 1, 1));
            assert(stride_product(f, 0, 1) == f[0] * stride_product(g, 0, 1));
        } else {
            lemma_stride_range_split_last(g, 0, step, step);
        }
        // Reassociate: (f[0] * s_last) * rest == f[0] * (rest * s_last).
        assert((f[0] * stride_product(g, step - 1, step)) * stride_range_product(g, 0, step - 1,
            step) == f[0] * (stride_range_product(g, 0, step - 1, step) * stride_product(g, step
            - 1, step))) by (nonlinear_arith);
    }
}

/// A range of stride products over an empty sequence is 1.
proof fn lemma_stride_range_trivial(f: Seq<usize>, k: int, m: int, step: int)
    requires
        f.len() == 0,
    ensures
        stride_range_product(f, k, m, step) == 1,
    decreases m - k,
{
    if m <= k {
    } else {
        lemma_stride_range_trivial(f, k + 1, m, step);
    }
}

/// Every stride product over entries that are at least 1 is at least 1.
proof fn lemma_stride_product_pos(f: Seq<usize>, j: int, step: int)
    requires
        forall|t: int| 0 <= t < f.len() ==> 1 <= #[trigger] f[t],
    ensures
        1 <= stride_product(f, j, step),
    decreases f.len() + step - j,
{
    if step < 1 || j < 0 || j >= f.len() {
    } else {
        lemma_stride_product_pos(f, j + step, step);
        assert(1 <= f[j] * stride_product(f, j + step, step)) by (nonlinear_arith)
            requires 1 <= f[j], 1 <= stride_product(f, j + step, step),
        ;
    }
}

/// Every range of stride products over entries at least 1 is at least 1.
proof fn lemma_stride_range_pos(f: Seq<usize>, k: int, m: int, step: int)
    requires
        forall|t: int| 0 <= t < f.len() ==> 1 <= #[trigger] f[t],
    ensures
        1 <= stride_range_product(f, k, m, step),
    decreases m - k,
{
    if m <= k {
    } else {
        lemma_stride_product_pos(f, k, step);
        lemma_stride_range_pos(f, k + 1, m, step);
        assert(1 <= stride_product(f, k, step) * stride_range_product(f, k + 1, m, step))
            by (nonlinear_arith)
            requires
                1 <= stride_product(f, k, step),
                1 <= stride_range_product(f, k + 1, m, step),
        ;
    }
}

/// One stride product never exceeds the product over all residues.
proof fn lemma_stride_product_le_range(f: Seq<usize>, k: int, d: int, m: int, step: int)
    requires
        forall|t: int| 0 <= t < f.len() ==> 1 <= #[trigger] f[t],
        k <= d < m,
    ensures
        stride_product(f, d, step) <= stride_range_product(f, k, m, step),
    decreases d - k,
{
    if k == d {
        lemma_stride_product_pos(f, d, step);
        lemma_stride_range_pos(f, d + 1, m, step);
        assert(stride_product(f, d, step) <= stride_product(f, d, step)
            * stride_range_product(f, d + 1, m, step)) by (nonlinear_arith)
            requires
                1 <= stride_product(f, d, step),
                1 <= stride_range_product(f, d + 1, m, step),
        ;
    } else {
        lemma_stride_product_le_range(f, k + 1, d, m, step);
        lemma_stride_product_pos(f, k, step);
        lemma_stride_range_pos(f, k + 1, m, step);
        assert(stride_range_product(f, k + 1, m, step) <= stride_product(f, k, step)
            * stride_range_product(f, k + 1, m, step)) by (nonlinear_arith)
            requires
                1 <= stride_product(f, k, step),
                1 <= stride_range_product(f, k + 1, m, step),
        ;
    }
}

/// A vector whose entries are the per-residue stride products of `f` has
/// the corresponding range product as its own product.
proof fn lemma_product_of_strides(s: Seq<usize>, f: Seq<usize>, k: int, m: int, step: int)
    requires
        s.len() == m - k,
        forall|t: int| 0 <= t < s.len() ==> #[trigger] s[t] == stride_product(f, k + t, step),
    ensures
        seq_product(s) == stride_range_product(f, k, m, step),
    decreases s.len(),
{
    if s.len() == 0 {
    } else {
        assert(s[0] == stride_product(f, k, step));
        lemma_product_of_strides(s.drop_first(), f, k + 1, m, step);
    }
}

/// Factors a target number of blocks (`count`) into `num_dims` rectangular
/// dimensions whose product is `count`. The prime factors of `count` are
/// dealt out cyclically, so dimension `d` receives the factors at positions
/// `d`, `d + num_dims`, `d + 2*num_dims`, and so on.
pub fn block_dims(count: usize, num_dims: usize) -> (r: Vec<usize>)
    requires
        1 <= count,
        1 <= num_dims,
    ensures
        r@.len() == num_dims,
        seq_product(r@) == count,
        exists|f: Seq<usize>|
            #[trigger] is_prime_factorization(count as int, f) && (forall|d: int|
                0 <= d < num_dims ==> r@[d] == stride_product(f, d, num_dims as int)),
{
    let factors = prime_factors(count);
    let ghost f = factors@;
    let ghost nd = num_dims as int;
    proof {
        assert forall|t: int| 0 <= t < f.len() implies 1 <= #[trigger] f[t] by {
            assert(is_prime(f[t] as int));
        }
        lemma_strides_cover(f, nd);
    }
    let mut r: Vec<usize> = Vec::new();
    let mut d: usize = 0;
    while d < num_dims
        invariant
            d <= num_dims,
            nd == num_dims as int,
            f == factors@,
            1 <= count,
            is_prime_factorization(count as int, f),
            forall|t: int| 0 <= t < f.len() ==> 1 <= #[trigger] f[t],
            stride_range_product(f, 0, nd, nd) == count,
            r@.len() == d,
            forall|e: int| 0 <= e < d as int ==> #[trigger] r@[e] == stride_product(f, e, nd),
        decreases num_dims - d,
    {
        let mut acc: usize = 1;
        let mut j: usize = d;
        loop
            invariant_except_break
                d < num_dims,
                d <= j,
                nd == num_dims as int,
                f == factors@,
                1 <= count,
                forall|t: int| 0 <= t < f.len() ==> 1 <= #[trigger] f[t],
                stride_range_product(f, 0, nd, nd) == count,
                1 <= acc,
                acc * stride_product(f, j as int, nd) == stride_product(f, d as int, nd),
            ensures
                acc == stride_product(f, d as int, nd),
            decreases f.len() + nd - j,
        {
            if j >= factors.len() {
                proof {
                    assert(stride_product(f, j as int, nd) == 1);
                }
                break;
            }
            proof {
                lemma_stride_product_pos(f, j as int + nd, nd);
                lemma_stride_product_le_range(f, 0, d as int, nd, nd);
                assert(stride_product(f, j as int, nd) == f[j as int] * stride_product(
                    f, j as int + nd, nd));
                assert(acc * f[j as int] <= count) by (nonlinear_arith)
                    requires
                        acc * (f[j as int] * stride_product(f, j as int + nd, nd))
                            == stride_product(f, d as int, nd),
                        1 <= stride_product(f, j as int + nd, nd),
                        stride_product(f, d as int, nd) <= count,
                        1 <= acc,
                        1 <= f[j as int],
                ;
                assert(acc * (f[j as int] * stride_product(f, j as int + nd, nd)) == (acc
                    * f[j as int]) * stride_product(f, j as int + nd, nd)) by (nonlinear_arith);
                assert(1 <= acc * f[j as int]) by (nonlinear_arith)
                    requires 1 <= acc, 1 <= f[j as int],
                ;
            }
            acc = acc * factors[j];
            if factors.len() - j <= num_dims {
                proof {
                    assert(j as int + nd >= f.len());
                    assert(stride_product(f, j as int + nd, nd) == 1);
                }
                break;
            }
            j = j + num_dims;
        }
        r.push(acc);
        d = d + 1;
    }
    proof {
        lemma_product_of_strides(r@, f, 0, nd, nd);
    }
    r
}

} // verus!
