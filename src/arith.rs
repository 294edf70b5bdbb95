use vstd::prelude::*;

verus! {

pub fn add(a: i32, b: i32) -> (r: i32)
    requires
        i32::MIN <= a + b <= i32::MAX,
    ensures
        r == a + b,
{
    a + b
}

pub fn multiply(a: i32, b: i32) -> (r: i32)
    requires
        i32::MIN <= a * b <= i32::MAX,
    ensures
        r == a * b,
{
    a * b
}

/// The sum plus the product of `x` and `y`.
pub fn compute(x: i32, y: i32) -> (r: i32)
    requires
        i32::MIN <= x + y <= i32::MAX,
        i32::MIN <= x * y <= i32::MAX,
        i32::MIN <= (x + y) + x * y <= i32::MAX,
    ensures
        r == (x + y) + x * y,
{
    let sum = crate::arith::add(x, y);
    let product = multiply(x, y);
    sum + product
}

/// `1 + 2 + ... + n`: a triangular number.
pub open spec fn triangle(n: int) -> int
    decreases n,
{
    if n <= 0 {
        0
    } else {
        n + triangle(n - 1)
    }
}

proof fn lemma_triangle_mono(a: int, b: int)
    requires
        a <= b,
    ensures
        triangle(a) <= triangle(b),
    decreases b - a,
{
    if a < b {
        lemma_triangle_mono(a, b - 1);
    }
}

/// The sum of `1..=n`; zero when `n` is below one.
pub fn loop_sum(n: i32) -> (r: i32)
    requires
        triangle(n as int) <= i32::MAX,
    ensures
        r == triangle(n as int),
{
    let mut total: i32 = 0;
    let mut i: i32 = 1;
    while i <= n
        invariant
            1 <= i,
            i <= n + 1 || n < 1,
            n < 1 ==> i == 1,
            triangle(n as int) <= i32::MAX,
            total == triangle(i - 1),
        decreases n - i,
    {
        proof { lemma_triangle_mono(i as int, n as int); }
        total = crate::arith::add(total, i);
        if i == n {
            return total;
        }
        i = i + 1;
    }
    assert(n < 1 ==> triangle(n as int) == 0 && triangle(i - 1) == 0);
    total
}

/// `n!`; one for `n` below two.
pub open spec fn fact(n: int) -> int
    decreases n,
{
    if n <= 1 {
        1
    } else {
        n * fact(n - 1)
    }
}

pub fn factorial(n: i32) -> (r: i32)
    requires
        n <= 12,
    ensures
        r == fact(n as int),
    decreases n,
{
    if n <= 1 {
        return 1;
    }
    let rest = factorial(n - 1);
    proof {
        reveal_with_fuel(fact, 13);
        assert(fact(11) == 39916800);
        assert(n * fact(n - 1) <= 12 * 39916800) by (nonlinear_arith)
            requires
                2 <= n <= 12,
                1 <= fact(n - 1) <= 39916800,
        {
        }
        assert(fact(n - 1) <= 39916800) by {
            lemma_fact_bound(n - 1);
        }
    }
    n * rest
}

proof fn lemma_fact_bound(k: int)
    requires
        k <= 11,
    ensures
        1 <= fact(k) <= 39916800,
        k >= 0 ==> fact(k) <= fact(11),
    decreases 11 - k,
{
    reveal_with_fuel(fact, 13);
    if k < 11 {
        lemma_fact_bound(k + 1);
        if k >= 1 {
            assert(fact(k + 1) == (k + 1) * fact(k));
            assert(fact(k) <= fact(k + 1)) by (nonlinear_arith)
                requires
                    fact(k + 1) == (k + 1) * fact(k),
                    fact(k) >= 1,
                    k >= 1,
            {
            }
        }
    }
}

/// Add `delta` to the value behind `val`.
pub fn modify(val: &mut i32, delta: i32)
    requires
        i32::MIN <= *old(val) + delta <= i32::MAX,
    ensures
        *final(val) == *old(val) + delta,
{
    *val = *val + delta;
}

/// `(a + b) * (b + c)`.
pub fn process(a: i32, b: i32, c: i32) -> (r: i32)
    requires
        i32::MIN <= a + b <= i32::MAX,
        i32::MIN <= b + c <= i32::MAX,
        i32::MIN <= (a + b) * (b + c) <= i32::MAX,
    ensures
        r == (a + b) * (b + c),
{
    let local1 = a + b;
    let local2 = b + c;
    local1 * local2
}

} // verus!
