use vstd::prelude::*;

verus! {

/// Whether `a + b` can be computed in an `i32` without overflow.
pub open spec fn sum_fits(a: i32, b: i32) -> bool {
    i32::MIN <= a + b <= i32::MAX
}

/// The sum of two numbers.
pub fn result_of_sum(a: i32, b: i32) -> (r: i32)
    requires
        sum_fits(a, b),
    ensures
        r == a + b,
{
    a + b
}

/// Polls ten times; the sum is only looked at on the last poll, and is
/// returned whatever its sign.
pub fn func1(a: i32, b: i32) -> (r: i32)
    requires
        sum_fits(a, b),
    ensures
        r == a + b,
{
    let mut res: i32 = 0;
    let mut i: i32 = 0;
    while i < 10
        invariant
            0 <= i <= 10,
            sum_fits(a, b),
            i <= 9 ==> res == 0,
            i == 10 ==> res == a + b,
        decreases 10 - i,
    {
        if i > 8 {
            res = result_of_sum(a, b);
        }
        if res > 0 {
            return res;
        }
        i = i + 1;
    }
    res
}

/// Calls `func1` up to ten times and returns its first positive result;
/// when none is positive the result is zero.
pub fn func2(a: i32, b: i32) -> (r: i32)
    requires
        sum_fits(a, b),
    ensures
        r == if a + b > 0 { a + b } else { 0 },
{
    let res: i32 = 0;
    let mut n: i32 = 0;
    while n < 10
        invariant
            0 <= n <= 10,
            sum_fits(a, b),
            n > 0 ==> a + b <= 0,
        decreases 10 - n,
    {
        let res = func1(a, b);
        if res > 0 {
            return res;
        }
        n = n + 1;
    }
    res
}

} // verus!
