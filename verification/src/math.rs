//! Small combinatorial helpers used to size the work queue: the number of
//! unordered file pairs drives the progress display.

use vstd::prelude::*;

verus! {

/// Product of the integers in the half-open range `[stop, end)`; the empty
/// range has product 1.
pub open spec fn prod_range(stop: nat, end: nat) -> nat
    decreases end,
{
    if end <= stop {
        1
    } else {
        prod_range(stop, (end - 1) as nat) * ((end - 1) as nat)
    }
}

/// Product of the integers in `[stop, n]`.
pub open spec fn spec_factorial(n: nat, stop: nat) -> nat {
    prod_range(stop, (n + 1) as nat)
}

/// `n` choose `k`, written through the same partial factorials that the
/// executable code multiplies out: `n! / (n-k)!` over `k!`.
pub open spec fn spec_combinations(n: nat, k: nat) -> nat {
    if n < k {
        0
    } else {
        spec_factorial(n, (n - k + 1) as nat) / spec_factorial(k, 2)
    }
}

proof fn lemma_prod_range_monotonic(stop: nat, e1: nat, e2: nat)
    requires
        stop >= 1,
        e1 <= e2,
    ensures
        prod_range(stop, e1) <= prod_range(stop, e2),
        prod_range(stop, e1) >= 1,
    decreases e2,
{
    if e1 == e2 {
        lemma_prod_range_positive(stop, e1);
    } else {
        lemma_prod_range_monotonic(stop, e1, (e2 - 1) as nat);
        if e2 <= stop {
        } else {
            lemma_prod_range_positive(stop, (e2 - 1) as nat);
            assert(prod_range(stop, (e2 - 1) as nat) * 1 <= prod_range(stop, (e2 - 1) as nat) * (
            e2 - 1)) by (nonlinear_arith)
                requires
                    e2 >= stop + 1 >= 2,
                    prod_range(stop, (e2 - 1) as nat) >= 1,
            ;
        }
    }
}

proof fn lemma_prod_range_positive(stop: nat, end: nat)
    requires
        stop >= 1,
    ensures
        prod_range(stop, end) >= 1,
    decreases end,
{
    if end > stop {
        lemma_prod_range_positive(stop, (end - 1) as nat);
        assert(prod_range(stop, (end - 1) as nat) * 1 <= prod_range(stop, (end - 1) as nat) * (end
            - 1)) by (nonlinear_arith)
            requires
                end >= stop + 1 >= 2,
                prod_range(stop, (end - 1) as nat) >= 1,
        ;
    }
}

proof fn lemma_prod_range_zero_stop(end: nat)
    requires
        end >= 1,
    ensures
        prod_range(0, end) == 0,
    decreases end,
{
    if end == 1 {
        assert(prod_range(0, 1) == prod_range(0, 0) * 0);
    } else {
        lemma_prod_range_zero_stop((end - 1) as nat);
        assert(prod_range(0, end) == prod_range(0, (end - 1) as nat) * ((end - 1) as nat));
    }
}

/// Calculate factorial from [stop, n].
/// Equivalent to n! / (stop - 1)!
pub fn factorial(n: usize, stop: usize) -> (x: usize)
    requires
        spec_factorial(n as nat, stop as nat) <= usize::MAX,
    ensures
        x == spec_factorial(n as nat, stop as nat),
{
    let mut x: usize = 1;
    let mut f: usize = stop;

    while f < n
        invariant
            stop <= f,
            f <= n || f == stop,
            x == prod_range(stop as nat, f as nat),
            prod_range(stop as nat, (n + 1) as nat) <= usize::MAX,
        decreases n - f,
    {
        proof {
            lemma_factorial_partial_bound(n as nat, stop as nat, f as nat);
        }
        x = x * f;
        f = f + 1;
    }
    if stop <= n {
        proof {
            assert(prod_range(stop as nat, (n + 1) as nat) == prod_range(
                stop as nat,
                n as nat,
            ) * n);
        }
        x = x * n;
    }
    x
}

proof fn lemma_factorial_partial_bound(n: nat, stop: nat, f: nat)
    requires
        stop <= f < n,
        prod_range(stop, (n + 1) as nat) <= usize::MAX,
    ensures
        prod_range(stop, (f + 1) as nat) == prod_range(stop, f) * f,
        prod_range(stop, f) * f <= usize::MAX,
{
    assert(prod_range(stop, (f + 1) as nat) == prod_range(stop, f) * f);
    if stop == 0 {
        if f == 0 {
            assert(prod_range(0, 1) == prod_range(0, 0) * 0);
        } else {
            lemma_prod_range_zero_stop(f);
            assert(prod_range(stop, f) * f == 0);
        }
    } else {
        lemma_prod_range_monotonic(stop, (f + 1) as nat, (n + 1) as nat);
    }
}

/// Calculate nCk
pub fn combinations(n: usize, k: usize) -> (c: usize)
    requires
        k <= n ==> n - k + 1 <= usize::MAX,
        k <= n ==> spec_factorial(n as nat, (n - k + 1) as nat) <= usize::MAX,
        spec_factorial(k as nat, 2) <= usize::MAX,
    ensures
        c == spec_combinations(n as nat, k as nat),
{
    if n < k {
        0
    } else {
        proof {
            lemma_prod_range_positive(2, (k + 1) as nat);
        }
        factorial(n, n - k + 1) / factorial(k, 2)
    }
}

} // verus!
