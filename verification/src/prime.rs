//! Trial-division primality testing and the search for the next prime,
//! used to size the bucket array.
use vstd::prelude::*;
use vstd::arithmetic::div_mod::{
    lemma_fundamental_div_mod, lemma_mod_multiples_basic,
};
use vstd::arithmetic::mul::{
    lemma_mul_inequality, lemma_mul_is_commutative, lemma_mul_is_associative,
    lemma_mul_strict_inequality, lemma_mul_is_distributive_sub,
};

verus! {

/// A number is prime when it is at least 2 and no smaller number of at
/// least 2 divides it.
pub open spec fn spec_is_prime(n: int) -> bool {
    2 <= n && forall|d: int| 2 <= d < n ==> #[trigger] (n % d) != 0
}

/// An odd number has no even divisor.
proof fn lemma_odd_has_no_even_divisor(n: int, d: int)
    requires
        n % 2 == 1,
        d % 2 == 0,
        2 <= d,
        0 <= n,
    ensures
        n % d != 0,
{
    if n % d == 0 {
        let k = n / d;
        lemma_fundamental_div_mod(n, d);
        assert(n == d * k);
        let h = d / 2;
        lemma_fundamental_div_mod(d, 2);
        assert(d == 2 * h);
        assert(n == (h * k) * 2) by {
            lemma_mul_is_associative(2, h, k);
            lemma_mul_is_commutative(2, h * k);
        };
        assert(n % 2 == 0) by {
            lemma_mod_multiples_basic(h * k, 2);
        };
        assert(false);
    }
}

/// Every proper divisor yields one whose square does not exceed the number.
proof fn lemma_divisor_below_sqrt(n: int, d: int)
    requires
        2 <= d < n,
        n % d == 0,
    ensures
        exists|q: int| 2 <= q && q * q <= n && #[trigger] (n % q) == 0,
{
    let k = n / d;
    lemma_fundamental_div_mod(n, d);
    assert(n == d * k);
    if d * d <= n {
        assert(2 <= d && d * d <= n && n % d == 0);
    } else {
        assert(k >= 0) by {
            if k < 0 {
                assert(d * k <= d * (-1)) by {
                    lemma_mul_inequality(k, -1, d);
                    lemma_mul_is_commutative(k, d);
                    lemma_mul_is_commutative(-1, d);
                };
            }
        };
        assert(k != 0) by {
            if k == 0 {
                assert(n == d * 0);
            }
        };
        assert(k != 1) by {
            if k == 1 {
                assert(n == d * 1);
            }
        };
        assert(k < d) by {
            if d <= k {
                assert(d * d <= d * k) by {
                    lemma_mul_inequality(d, k, d);
                    lemma_mul_is_commutative(d, k);
                };
            }
        };
        assert(k * k < k * d) by {
            lemma_mul_strict_inequality(k, d, k);
        };
        assert(k * d == n) by {
            lemma_mul_is_commutative(d, k);
        };
        assert(n % k == 0) by {
            lemma_mod_multiples_basic(d, k);
            lemma_mul_is_commutative(d, k);
        };
        assert(2 <= k && k * k <= n && n % k == 0);
    }
}

/// Tests whether `number` is prime, by rejecting even numbers and then
/// trying every odd divisor whose square does not exceed `number`.
pub fn is_prime(number: usize) -> (r: bool)
    requires
        3 <= number,
    ensures
        r == spec_is_prime(number as int),
{
    if number % 2 == 0 {
        assert(!spec_is_prime(number as int)) by {
            assert((number as int) % 2 == 0);
        };
        return false;
    }
    let mut i: usize = 3;
    while i <= number / i
        invariant
            3 <= number,
            number % 2 == 1,
            3 <= i,
            i % 2 == 1,
            forall|d: int| 2 <= d < i ==> #[trigger] ((number as int) % d) != 0,
        decreases number - i,
    {
        assert(i * i <= number) by {
            lemma_fundamental_div_mod(number as int, i as int);
            assert(i * i <= i * (number / i) as int) by {
                lemma_mul_inequality(i as int, (number / i) as int, i as int);
                lemma_mul_is_commutative(i as int, (number / i) as int);
            };
            assert(i * ((number / i) as int) <= number) by {
                lemma_mul_is_commutative(i as int, (number / i) as int);
            };
        };
        if number % i == 0 {
            assert(!spec_is_prime(number as int)) by {
                assert(i < number) by {
                    assert(3 * i <= i * i) by {
                        lemma_mul_inequality(3, i as int, i as int);
                        lemma_mul_is_commutative(3, i as int);
                    };
                };
                assert((number as int) % (i as int) == 0);
            };
            return false;
        }
        assert(3 * i <= i * i) by {
            lemma_mul_inequality(3, i as int, i as int);
            lemma_mul_is_commutative(3, i as int);
        };
        proof {
            assert forall|d: int| 2 <= d < i + 2 implies #[trigger] ((number as int) % d) != 0 by {
                if d == i {
                    assert((number as int) % d != 0);
                } else if d == i + 1 {
                    lemma_odd_has_no_even_divisor(number as int, d);
                }
            };
        }
        i += 2;
    }
    assert(spec_is_prime(number as int)) by {
        assert((number / i) as int <= i - 1);
        assert(number < i * i) by {
            lemma_fundamental_div_mod(number as int, i as int);
            assert(i * ((number / i) as int) <= i * (i - 1)) by {
                lemma_mul_inequality((number / i) as int, i - 1, i as int);
                lemma_mul_is_commutative(i as int, (number / i) as int);
                lemma_mul_is_commutative(i as int, i - 1);
            };
            assert(i * (i - 1) == i * i - i) by {
                lemma_mul_is_distributive_sub(i as int, i as int, 1);
                assert(i * 1 == i as int);
            };
        };
        assert forall|d: int| 2 <= d < number implies #[trigger] ((number as int) % d) != 0 by {
            if (number as int) % d == 0 {
                lemma_divisor_below_sqrt(number as int, d);
                let q = choose|q: int|
                    2 <= q && q * q <= number && #[trigger] ((number as int) % q) == 0;
                assert(q < i) by {
                    if i <= q {
                        assert(i * i <= q * q) by {
                            lemma_mul_inequality(i as int, q, i as int);
                            lemma_mul_inequality(i as int, q, q);
                            lemma_mul_is_commutative(i as int, q);
                        };
                    }
                };
                assert((number as int) % q != 0);
            }
        };
    };
    true
}

/// Largest bucket count the table ever reaches: a prime, so that growth
/// stopping at it keeps the bucket-count invariant, and proved prime below
/// so that the search for the next prime is known to terminate.
pub const MAX_BUCKET_COUNT: usize = 65537;

/// Holds when no number of the same parity as `hi` in `lo..=hi` divides `n`,
/// stepping down by 2 from `hi`.
spec fn no_divisor_between(n: int, lo: int, hi: int) -> bool
    decreases (if hi < lo { 0int } else { hi - lo + 1 }),
{
    if hi < lo {
        true
    } else {
        n % hi != 0 && no_divisor_between(n, lo, hi - 2)
    }
}

proof fn lemma_no_divisor_between_sound(n: int, lo: int, hi: int, j: int)
    requires
        no_divisor_between(n, lo, hi),
        lo <= j <= hi,
        (hi - j) % 2 == 0,
    ensures
        n % j != 0,
    decreases (if hi < lo { 0int } else { hi - lo + 1 }),
{
    if j < hi {
        lemma_no_divisor_between_sound(n, lo, hi - 2, j);
    }
}

// Trial division for the cap is evaluated by unfolding `no_divisor_between`;
// the solver unfolds a recursive definition only a bounded number of times
// per query, so the odd divisors up to 255 are checked in chunks.
proof fn lemma_cap_chunk_0()
    ensures
        no_divisor_between(65537, 3, 25),
{
    assert(no_divisor_between(65537, 3, 25)) by {
        reveal_with_fuel(no_divisor_between, 14);
    };
}

proof fn lemma_cap_chunk_1()
    ensures
        no_divisor_between(65537, 27, 49),
{
    assert(no_divisor_between(65537, 27, 49)) by {
        reveal_with_fuel(no_divisor_between, 14);
    };
}

proof fn lemma_cap_chunk_2()
    ensures
        no_divisor_between(65537, 51, 73),
{
    assert(no_divisor_between(65537, 51, 73)) by {
        reveal_with_fuel(no_divisor_between, 14);
    };
}

proof fn lemma_cap_chunk_3()
    ensures
        no_divisor_between(65537, 75, 97),
{
    assert(no_divisor_between(65537, 75, 97)) by {
        reveal_with_fuel(no_divisor_between, 14);
    };
}

proof fn lemma_cap_chunk_4()
    ensures
        no_divisor_between(65537, 99, 121),
{
    assert(no_divisor_between(65537, 99, 121)) by {
        reveal_with_fuel(no_divisor_between, 14);
    };
}

proof fn lemma_cap_chunk_5()
    ensures
        no_divisor_between(65537, 123, 145),
{
    assert(no_divisor_between(65537, 123, 145)) by {
        reveal_with_fuel(no_divisor_between, 14);
    };
}

proof fn lemma_cap_chunk_6()
    ensures
        no_divisor_between(65537, 147, 169),
{
    assert(no_divisor_between(65537, 147, 169)) by {
        reveal_with_fuel(no_divisor_between, 14);
    };
}

proof fn lemma_cap_chunk_7()
    ensures
        no_divisor_between(65537, 171, 193),
{
    assert(no_divisor_between(65537, 171, 193)) by {
        reveal_with_fuel(no_divisor_between, 14);
    };
}

proof fn lemma_cap_chunk_8()
    ensures
        no_divisor_between(65537, 195, 217),
{
    assert(no_divisor_between(65537, 195, 217)) by {
        reveal_with_fuel(no_divisor_between, 14);
    };
}

proof fn lemma_cap_chunk_9()
    ensures
        no_divisor_between(65537, 219, 241),
{
    assert(no_divisor_between(65537, 219, 241)) by {
        reveal_with_fuel(no_divisor_between, 14);
    };
}

proof fn lemma_cap_chunk_10()
    ensures
        no_divisor_between(65537, 243, 255),
{
    assert(no_divisor_between(65537, 243, 255)) by {
        reveal_with_fuel(no_divisor_between, 14);
    };
}

/// The chosen cap on the bucket count is prime.
#[verifier::rlimit(100)]
pub proof fn lemma_max_bucket_count_prime()
    ensures
        spec_is_prime(MAX_BUCKET_COUNT as int),
{
    lemma_cap_chunk_0();
    lemma_cap_chunk_1();
    lemma_cap_chunk_2();
    lemma_cap_chunk_3();
    lemma_cap_chunk_4();
    lemma_cap_chunk_5();
    lemma_cap_chunk_6();
    lemma_cap_chunk_7();
    lemma_cap_chunk_8();
    lemma_cap_chunk_9();
    lemma_cap_chunk_10();
    assert forall|d: int| 2 <= d < 65537 implies #[trigger] (65537int % d) != 0 by {
        if 65537int % d == 0 {
            lemma_divisor_below_sqrt(65537, d);
            let q = choose|q: int| 2 <= q && q * q <= 65537 && #[trigger] (65537int % q) == 0;
            assert(q <= 256) by {
                if q >= 257 {
                    assert(257 * 257 <= q * q) by {
                        lemma_mul_inequality(257, q, 257);
                        lemma_mul_inequality(257, q, q);
                        lemma_mul_is_commutative(257, q);
                    };
                }
            };
            if q % 2 == 0 {
                assert(65537int % 2 == 1);
                lemma_odd_has_no_even_divisor(65537, q);
            } else {
                if q <= 25 {
                    lemma_no_divisor_between_sound(65537, 3, 25, q);
                } else if q <= 49 {
                    lemma_no_divisor_between_sound(65537, 27, 49, q);
                } else if q <= 73 {
                    lemma_no_divisor_between_sound(65537, 51, 73, q);
                } else if q <= 97 {
                    lemma_no_divisor_between_sound(65537, 75, 97, q);
                } else if q <= 121 {
                    lemma_no_divisor_between_sound(65537, 99, 121, q);
                } else if q <= 145 {
                    lemma_no_divisor_between_sound(65537, 123, 145, q);
                } else if q <= 169 {
                    lemma_no_divisor_between_sound(65537, 147, 169, q);
                } else if q <= 193 {
                    lemma_no_divisor_between_sound(65537, 171, 193, q);
                } else if q <= 217 {
                    lemma_no_divisor_between_sound(65537, 195, 217, q);
                } else if q <= 241 {
                    lemma_no_divisor_between_sound(65537, 219, 241, q);
                } else {
                    lemma_no_divisor_between_sound(65537, 243, 255, q);
                }
            }
            assert(false);
        }
    };
}

/// Starting at an odd `prime` candidate, advances by 2 until a prime is
/// found. A prime no smaller than the candidate must exist within the
/// machine's range for the search to be known to terminate.
pub fn find_next_prime(prime: usize) -> (r: usize)
    requires
        3 <= prime,
        prime % 2 == 1,
        exists|p: int|
            prime <= p <= usize::MAX && p % 2 == 1 && #[trigger] spec_is_prime(p),
    ensures
        prime <= r,
        spec_is_prime(r as int),
        forall|m: int| prime <= m < r ==> !spec_is_prime(m),
{
    let ghost p: int = choose|p: int|
        prime <= p <= usize::MAX && p % 2 == 1 && #[trigger] spec_is_prime(p);
    let mut candidate: usize = prime;
    loop
        invariant
            3 <= prime <= candidate <= p <= usize::MAX,
            candidate % 2 == 1,
            p % 2 == 1,
            spec_is_prime(p),
            forall|m: int| prime <= m < candidate ==> !spec_is_prime(m),
        decreases p - candidate,
    {
        if is_prime(candidate) {
            return candidate;
        }
        proof {
            assert(candidate < p);
            assert(candidate + 2 <= p);
            assert forall|m: int| prime <= m < candidate + 2 implies !spec_is_prime(m) by {
                if m == candidate {
                    assert(!spec_is_prime(candidate as int));
                } else if m == candidate + 1 {
                    assert(m % 2 == 0);
                    assert(m % 2 == 0 && 2 < m);
                    assert((m % 2) != 0 || !spec_is_prime(m));
                }
            };
        }
        candidate += 2;
    }
}

} // verus!

