//! Elementary arithmetic and string helpers.

use vstd::prelude::*;
use vstd::string::StringExecFns;

verus! {

/// Sum of two machine integers; the caller keeps the sum in range.
pub fn add(a: i32, b: i32) -> (r: i32)
    requires
        i32::MIN <= a + b <= i32::MAX,
    ensures
        r == a + b,
{
    a + b
}

/// The larger of two integers.
pub fn max(a: i32, b: i32) -> (r: i32)
    ensures
        r == if a > b { a } else { b },
{
    if a > b {
        a
    } else {
        b
    }
}

/// Whether an integer is even.
pub fn is_even(n: i32) -> (r: bool)
    ensures
        r <==> (n as int) % 2 == 0,
{
    n % 2 == 0
}

/// Prefixes a name with a greeting.
pub fn say_hello(name: &str) -> (r: String)
    ensures
        r@ == "Hello "@ + name@,
{
    let s = String::from_str("Hello ");
    s.concat(name)
}

/// Joins the two components of a pair of strings.
pub fn concat_strings(tuple: (&str, &str)) -> (r: String)
    ensures
        r@ == tuple.0@ + tuple.1@,
{
    let (s1, s2) = tuple;
    let s = String::from_str(s1);
    s.concat(s2)
}

} // verus!
