//! The computation that the sample programs perform.

use vstd::prelude::*;

verus! {

/// Doubles a value.
pub fn double(x: u32) -> (r: u32)
    requires
        2 * x <= u32::MAX,
    ensures
        r == 2 * x,
{
    x + x
}

/// Adds two numbers, doubles the sum, and adds the first number again.
pub fn compute() -> (r: u32)
    ensures
        r == 94,
{
    let a: u32 = 10;
    let b: u32 = 32;
    let sum: u32 = a + b;
    let doubled: u32 = double(sum);
    let final_result: u32 = doubled + a;
    final_result
}

} // verus!
