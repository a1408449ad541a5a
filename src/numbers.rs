//! Small arithmetic helpers: the smallest of a list, divisibility and leap years.

use vstd::prelude::*;

verus! {

/// The number closest to zero in the list, that is its smallest; 0 for an empty list.
pub fn closest_to_zero(numbers: Vec<u32>) -> (r: u32)
    ensures
        numbers@.len() == 0 ==> r == 0,
        numbers@.len() > 0 ==> numbers@.contains(r) && forall|i: int| 0 <= i < numbers@.len() ==> r <= #[trigger] numbers@[i],
{
    if numbers.len() == 0 {
        return 0;
    }
    let mut min: u32 = numbers[0];
    let mut k: usize = 1;
    let ghost at: int = 0;
    while k < numbers.len()
        invariant
            1 <= k <= numbers@.len(),
            0 <= at < numbers@.len(),
            numbers@[at] == min,
            forall|i: int| 0 <= i < k ==> min <= #[trigger] numbers@[i],
        decreases numbers@.len() - k,
    {
        if numbers[k] < min {
            min = numbers[k];
            proof {
                at = k as int;
            }
        }
        k = k + 1;
    }
    assert(numbers@[at] == min);
    min
}

pub fn is_div(value: u32, divisor: u32) -> (r: bool)
    requires
        divisor != 0,
    ensures
        r == (value % divisor == 0),
{
    value % divisor == 0
}

/// A year divisible by 400, or by 4 and not by 100.
pub fn is_leap_year(year: u32) -> (r: bool)
    ensures
        r == (year % 400 == 0 || (year % 4 == 0 && year % 100 != 0)),
{
    let d4 = is_div(year, 4);
    let d100 = is_div(year, 100);
    let d400 = is_div(year, 400);
    if d400 {
        return true;
    }
    if !d100 && d4 {
        return true;
    }
    false
}

} // verus!
