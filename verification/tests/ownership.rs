use tsp_workshop::ownership::borrow_after_move;
use tsp_workshop::ownership::mutability;
use tsp_workshop::ownership::mutable_reference;
use tsp_workshop::ownership::ownership_functions;
use tsp_workshop::ownership::u64_to_string;

#[test]
fn test_mutability() {
    assert_eq!(mutability(), "this is a mutable string");
}

#[test]
fn test_borrow_after_move() {
    assert_eq!(borrow_after_move(), "text = hello, text2 = hello");
}

#[test]
fn test_ownership_functions() {
    assert_eq!(ownership_functions(), "this prefix is of length 11");
}

#[test]
fn test_mutable_reference() {
    assert_eq!(mutable_reference(), "this is a mutable string");
}

#[test]
fn decimal_rendering_exact() {
    assert_eq!(u64_to_string(0), "0");
    assert_eq!(u64_to_string(7), "7");
    assert_eq!(u64_to_string(11), "11");
    assert_eq!(u64_to_string(1026241), "1026241");
    assert_eq!(u64_to_string(u64::MAX), "18446744073709551615");
}
