//! Small integer series: running sums and Fibonacci numbers.

use vstd::prelude::*;

verus! {

/// `1 + (1 + 2 + ... + (num - 1))`.
pub open spec fn sum_from_one(num: nat) -> nat
    decreases num,
{
    if num <= 1 {
        1
    } else {
        sum_from_one((num - 1) as nat) + (num - 1) as nat
    }
}

/// The Fibonacci numbers, from `fib(0) == 0`.
pub open spec fn fib(n: nat) -> nat
    decreases n,
{
    if n == 0 {
        0
    } else if n <= 2 {
        1
    } else {
        fib((n - 1) as nat) + fib((n - 2) as nat)
    }
}

proof fn lemma_sum_monotone(a: nat, b: nat)
    requires
        a <= b,
    ensures
        sum_from_one(a) <= sum_from_one(b),
    decreases b,
{
    if a < b {
        lemma_sum_monotone(a, (b - 1) as nat);
    }
}

proof fn lemma_fib_monotone(a: nat, b: nat)
    requires
        a <= b,
    ensures
        fib(a) <= fib(b),
    decreases b,
{
    if a < b {
        lemma_fib_monotone(a, (b - 1) as nat);
    }
}

/// `1` plus the sum of `1..num`, by folding over the range.
pub fn factorial_iter(num: usize) -> (r: usize)
    requires
        sum_from_one(num as nat) <= usize::MAX,
    ensures
        r == sum_from_one(num as nat),
{
    let mut acc: usize = 1;
    let mut x: usize = 1;
    while x < num
        invariant
            1 <= x <= num || (num <= 1 && x == 1),
            acc == sum_from_one(x as nat),
            sum_from_one(num as nat) <= usize::MAX,
        decreases num - x,
    {
        proof {
            lemma_sum_monotone((x + 1) as nat, num as nat);
        }
        acc = acc + x;
        x = x + 1;
    }
    acc
}

/// `1` plus the sum of `2..num`, by a loop.
pub fn factorial_loop(num: usize) -> (r: usize)
    requires
        sum_from_one(num as nat) <= usize::MAX,
    ensures
        r == if num <= 1 { 1 } else { (sum_from_one(num as nat) - 1) as nat },
{
    proof {
        reveal_with_fuel(sum_from_one, 3);
    }
    let mut sum: usize = 1;
    let mut x: usize = 2;
    if num <= 2 {
        return 1;
    }
    while x < num
        invariant
            2 <= x <= num,
            sum + 1 == sum_from_one(x as nat),
            sum_from_one(num as nat) <= usize::MAX,
        decreases num - x,
    {
        proof {
            lemma_sum_monotone((x + 1) as nat, num as nat);
        }
        sum = sum + x;
        x = x + 1;
    }
    sum
}

/// The `n`-th Fibonacci number, by the recurrence.
pub fn fibbonaci(n: usize) -> (r: usize)
    requires
        fib(n as nat) <= usize::MAX,
    ensures
        r == fib(n as nat),
    decreases n,
{
    match n {
        0 => 0,
        1 => 1,
        2 => 1,
        _ => {
            proof {
                lemma_fib_monotone((n - 1) as nat, n as nat);
                lemma_fib_monotone((n - 2) as nat, n as nat);
            }
            fibbonaci(n - 1) + fibbonaci(n - 2)
        },
    }
}

} // verus!
