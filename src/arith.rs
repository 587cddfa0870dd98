use vstd::prelude::*;

verus! {

/// Adds two to its argument.
pub fn add_two(a: i32) -> (r: i32)
    requires
        a <= i32::MAX - 2,
    ensures
        r == a + 2,
{
    a + 2
}

/// Squares `value`.
pub fn square(value: usize) -> (r: usize)
    requires
        value * value <= usize::MAX,
    ensures
        r == value * value,
{
    value * value
}

} // verus!
