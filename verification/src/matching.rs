//! Pattern matching over enumerations and options.

use vstd::prelude::*;

verus! {

/// United States coinage.
pub enum Coin {
    Penny,
    Nickel,
    Dime,
    Quarter,
}

/// The face value of a coin, in cents.
pub open spec fn coin_value(coin: Coin) -> u8 {
    match coin {
        Coin::Penny => 1,
        Coin::Nickel => 5,
        Coin::Dime => 10,
        Coin::Quarter => 25,
    }
}

/// Converts a coin to its value in cents.
pub fn value_in_cents(coin: Coin) -> (r: u8)
    ensures
        r == coin_value(coin),
{
    match coin {
        Coin::Penny => 1,
        Coin::Nickel => 5,
        Coin::Dime => 10,
        Coin::Quarter => 25,
    }
}

/// The contained value, or zero when there is none.
pub fn get_value_or_zero(x: Option<i32>) -> (r: i32)
    ensures
        r == match x {
            Option::None => 0,
            Option::Some(i) => i,
        },
{
    match x {
        Option::None => 0,
        Option::Some(i) => i,
    }
}

/// One less than the contained value, when there is one.
pub fn subtract_one(x: Option<i32>) -> (r: Option<i32>)
    requires
        x matches Option::Some(i) ==> i > i32::MIN,
    ensures
        r == match x {
            Option::None => Option::<i32>::None,
            Option::Some(i) => Option::Some((i - 1) as i32),
        },
{
    match x {
        Option::None => Option::None,
        Option::Some(i) => Option::Some(i - 1),
    }
}

} // verus!
