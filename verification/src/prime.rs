//! The primality answerer: requests name a method and a number, and a
//! well-formed `isPrime` request is answered with whether the number is a
//! prime.

use vstd::prelude::*;

verus! {

/// `n` is a prime number.
pub open spec fn spec_is_prime(n: int) -> bool {
    n >= 2 && forall|d: int| 2 <= d < n ==> #[trigger] (n % d) != 0
}

/// Below `i * i > n`, a number with no divisor in `[2, i)` has none at all.
proof fn lemma_no_large_divisor(n: int, i: int, d: int)
    requires
        2 <= i,
        n < i * i,
        i <= d < n,
        n % d == 0,
    ensures
        exists|e: int| 2 <= e < i && #[trigger] (n % e) == 0,
{
    let e = n / d;
    assert(n == d * e) by (nonlinear_arith)
        requires
            n % d == 0,
            d > 0,
            e == n / d,
    ;
    assert(2 <= e < i && n % e == 0) by (nonlinear_arith)
        requires
            n == d * e,
            i <= d < n,
            n < i * i,
            2 <= i,
    ;
}

/// Returns whether `n` is a prime number.
pub fn is_prime(n: u32) -> (r: bool)
    ensures
        r == spec_is_prime(n as int),
{
    if n < 2 {
        return false;
    }
    let mut i: u32 = 2;
    while i <= n / i
        invariant
            2 <= i <= n,
            forall|d: int| 2 <= d < i ==> #[trigger] ((n as int) % d) != 0,
        decreases n - i,
    {
        if n % i == 0 {
            assert(i < n) by (nonlinear_arith)
                requires
                    2 <= i,
                    i <= n / i,
            ;
            assert((n as int) % (i as int) == 0);
            return false;
        }
        assert(i + 1 <= n) by (nonlinear_arith)
            requires
                2 <= i,
                i <= n / i,
        ;
        i = i + 1;
    }
    assert((n as int) < (i as int) * (i as int)) by (nonlinear_arith)
        requires
            i > n / i,
            i >= 2,
    ;
    assert forall|d: int| 2 <= d < n implies #[trigger] ((n as int) % d) != 0 by {
        if d >= i && (n as int) % d == 0 {
            lemma_no_large_divisor(n as int, i as int, d);
        }
    }
    true
}

/// The answer to a well-formed request.
#[derive(Clone, Debug)]
pub struct Response {
    pub method: String,
    pub prime: bool,
}

impl Response {
    /// An `isPrime` answer.
    pub fn new(prime: bool) -> (r: Response)
        ensures
            r.method@ == "isPrime"@,
            r.prime == prime,
    {
        Response { method: String::from_str("isPrime"), prime }
    }
}

/// Answers a request with the given method whose number, when it is a whole
/// number, is `integral`: a request whose method is `isPrime` is answered
/// with whether that number is a prime (never so for a number that is not
/// whole); any other method is malformed and gets no answer.
pub fn answer_request(method: &String, integral: Option<u32>) -> (r: Option<Response>)
    ensures
        method@ == "isPrime"@ ==> (r matches Some(resp) && resp.method@ == "isPrime"@
            && resp.prime == match integral {
            Some(n) => spec_is_prime(n as int),
            None => false,
        }),
        method@ != "isPrime"@ ==> r is None,
{
    let expected = String::from_str("isPrime");
    if *method == expected {
        let prime = match integral {
            Some(n) => is_prime(n),
            None => false,
        };
        Some(Response::new(prime))
    } else {
        None
    }
}

} // verus!
