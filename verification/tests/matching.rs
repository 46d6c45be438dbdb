use tsp_workshop::matching::get_value_or_zero;
use tsp_workshop::matching::subtract_one;
use tsp_workshop::matching::value_in_cents;
use tsp_workshop::matching::Coin;

#[test]
fn test_value_in_cents() {
    assert_eq!(value_in_cents(Coin::Penny), 1);
    assert_eq!(value_in_cents(Coin::Nickel), 5);
    assert_eq!(value_in_cents(Coin::Dime), 10);
    assert_eq!(value_in_cents(Coin::Quarter), 25);
}

#[test]
fn test_get_value_or_zero() {
    assert_eq!(get_value_or_zero(Some(3)), 3);
    assert_eq!(get_value_or_zero(Some(0)), 0);
    assert_eq!(get_value_or_zero(None), 0);
}

#[test]
fn test_subtract_one() {
    assert_eq!(subtract_one(Some(3)), Some(2));
    assert_eq!(subtract_one(Some(-1)), Some(-2));
    assert_eq!(subtract_one(None), None);
}
