use protohackers::prime::{answer_request, is_prime, Response};

#[test]
fn test_is_prime() {
    assert_eq!(is_prime(0), false);
    assert_eq!(is_prime(1), false);
    assert_eq!(is_prime(2), true);
    assert_eq!(is_prime(3), true);
    assert_eq!(is_prime(4), false);
    assert_eq!(is_prime(5), true);
    assert_eq!(is_prime(98995349), true);
    assert_eq!(is_prime(89035527), false);
}

#[test]
fn is_prime_on_squares_and_large_values() {
    assert!(!is_prime(49));
    assert!(!is_prime(65521 * 65521));
    assert!(is_prime(65521));
    assert!(is_prime(4294967291));
    assert!(!is_prime(u32::MAX));
}

#[test]
fn response_new_names_the_method() {
    let r = Response::new(true);
    assert_eq!(r.method, "isPrime");
    assert!(r.prime);
}

#[test]
fn answer_request_for_is_prime() {
    let method = String::from("isPrime");
    let r = answer_request(&method, Some(7)).unwrap();
    assert_eq!(r.method, "isPrime");
    assert!(r.prime);
    let r = answer_request(&method, Some(8)).unwrap();
    assert!(!r.prime);
    // A number that is not whole is never a prime.
    let r = answer_request(&method, None).unwrap();
    assert!(!r.prime);
}

#[test]
fn answer_request_refuses_other_methods() {
    assert!(answer_request(&String::from("isprime"), Some(7)).is_none());
    assert!(answer_request(&String::from(""), Some(7)).is_none());
}
