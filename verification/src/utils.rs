//! Picking the leading numbers out of a line of input that has been split
//! into integers.

use vstd::prelude::*;

verus! {

/// The first number of the line.
pub fn read_one_number(numbers: &Vec<i64>) -> (first: i64)
    requires
        numbers@.len() >= 1,
    ensures
        first == numbers@[0],
{
    numbers[0]
}

/// The first two numbers of the line.
pub fn read_two_numbers(numbers: &Vec<i64>) -> (pair: (i64, i64))
    requires
        numbers@.len() >= 2,
    ensures
        pair == (numbers@[0], numbers@[1]),
{
    (numbers[0], numbers[1])
}

/// The first three numbers of the line.
pub fn read_three_numbers(numbers: &Vec<i64>) -> (triple: (i64, i64, i64))
    requires
        numbers@.len() >= 3,
    ensures
        triple == (numbers@[0], numbers@[1], numbers@[2]),
{
    (numbers[0], numbers[1], numbers[2])
}

} // verus!
