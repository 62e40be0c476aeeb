//! Integer helpers: squaring, factorial, primality, sign classification and
//! the maximum of a fixed-size array.

use vstd::prelude::*;

verus! {

/// Mathematical factorial.
pub open spec fn fact(n: nat) -> nat
    decreases n,
{
    if n == 0 {
        1
    } else {
        n * fact((n - 1) as nat)
    }
}

/// A number is prime when it is at least 2 and no smaller number from 2 up
/// divides it.
pub open spec fn is_prime_spec(n: nat) -> bool {
    2 <= n && forall|d: nat| 2 <= d < n ==> #[trigger] (n % d) != 0
}

/// Squares a number.
pub fn square(n: u32) -> (r: u32)
    requires
        n <= 65535,
    ensures
        r == n * n,
{
    proof {
        assert(n * n <= 0xffff_ffff) by (nonlinear_arith)
            requires
                n <= 65535,
        ;
    }
    n * n
}

/// Factorial grows monotonically.
proof fn lemma_fact_monotonic(n: nat)
    requires
        1 <= n,
    ensures
        fact((n - 1) as nat) <= fact(n),
{
    assert(fact(n) == n * fact((n - 1) as nat));
    assert(n * fact((n - 1) as nat) >= 1 * fact((n - 1) as nat)) by (nonlinear_arith)
        requires
            n >= 1,
    ;
}

/// Computes n! recursively.
pub fn factorial(n: u32) -> (r: u32)
    requires
        fact(n as nat) <= u32::MAX,
    ensures
        r == fact(n as nat),
    decreases n,
{
    if n == 0 {
        1
    } else {
        proof {
            lemma_fact_monotonic(n as nat);
        }
        let rec = factorial(n - 1);
        n * rec
    }
}

/// When no number in [2, d) divides n and d * d exceeds n, no number in
/// [2, n) divides n at all: a divisor and its cofactor cannot both reach d.
proof fn lemma_no_factor_below_root(n: nat, d: nat)
    requires
        2 <= n,
        2 <= d,
        d * d > n,
        forall|k: nat| 2 <= k < d ==> #[trigger] (n % k) != 0,
    ensures
        is_prime_spec(n),
{
    assert forall|k: nat| 2 <= k < n implies #[trigger] (n % k) != 0 by {
        if n % k == 0 {
            let q = n / k;
            vstd::arithmetic::div_mod::lemma_fundamental_div_mod(n as int, k as int);
            assert(n == k * q);
            assert(k >= d);
            assert(q >= 2) by (nonlinear_arith)
                requires
                    n == k * q,
                    2 <= k < n,
            ;
            assert(q < d) by (nonlinear_arith)
                requires
                    n == k * q,
                    d * d > n,
                    k >= d,
                    q >= 2,
            ;
            vstd::arithmetic::div_mod::lemma_mod_multiples_basic(k as int, q as int);
            assert(n % q == 0);
        }
    }
}

/// Tests primality by trial division up to the square root.
pub fn is_prime(number: u64) -> (r: bool)
    ensures
        r == is_prime_spec(number as nat),
{
    if number <= 1 {
        return false;
    }
    let mut divisor: u64 = 2;
    while divisor <= number / divisor
        invariant
            2 <= number,
            2 <= divisor <= number,
            forall|k: nat| 2 <= k < divisor ==> #[trigger] ((number as nat) % k) != 0,
        decreases number - divisor,
    {
        proof {
            let n = number as int;
            let d = divisor as int;
            vstd::arithmetic::div_mod::lemma_fundamental_div_mod(n, d);
            assert(d < n) by (nonlinear_arith)
                requires
                    n == d * (n / d) + n % d,
                    n % d >= 0,
                    n / d >= d,
                    d >= 2,
            ;
        }
        if number % divisor == 0 {
            proof {
                assert((number as nat) % (divisor as nat) == 0);
            }
            return false;
        }
        divisor = divisor + 1;
    }
    proof {
        let n = number as int;
        let d = divisor as int;
        vstd::arithmetic::div_mod::lemma_fundamental_div_mod(n, d);
        assert(0 <= n % d < d);
        assert(d * d > n) by (nonlinear_arith)
            requires
                n == d * (n / d) + n % d,
                0 <= n % d < d,
                n / d < d,
                d >= 2,
        ;
        lemma_no_factor_below_root(number as nat, divisor as nat);
    }
    true
}

/// Classifies a signed number as positive, negative or zero.
pub fn sign_checker(number: i32) -> (r: &'static str)
    ensures
        number > 0 ==> r@ == "positive"@,
        number < 0 ==> r@ == "negative"@,
        number == 0 ==> r@ == "zero"@,
{
    if number > 0 {
        "positive"
    } else if number < 0 {
        "negative"
    } else {
        "zero"
    }
}

/// Returns the largest number of a five-element array.
pub fn find_biggest_number(some_array: [u32; 5]) -> (r: u32)
    ensures
        some_array@.contains(r),
        forall|i: int| 0 <= i < 5 ==> some_array@[i] <= r,
{
    let mut biggest = some_array[0];
    let mut idx: usize = 0;
    while idx < 5
        invariant
            0 <= idx <= 5,
            some_array@.contains(biggest),
            forall|i: int| 0 <= i < idx ==> some_array@[i] <= biggest,
        decreases 5 - idx,
    {
        let num = some_array[idx];
        if num > biggest {
            biggest = num;
        }
        idx = idx + 1;
    }
    biggest
}

} // verus!
