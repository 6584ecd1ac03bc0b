//! Counting the primes below a bound, by trial division and by two variants
//! of the sieve of Eratosthenes.

use vstd::prelude::*;

verus! {

/// A prime: at least two, and divisible by no smaller number above one.
pub open spec fn is_prime(n: int) -> bool {
    n >= 2 && forall|d: int| 2 <= d < n ==> #[trigger] (n % d) != 0
}

/// How many primes are strictly below `n`.
pub open spec fn count_primes_below(n: int) -> nat
    decreases n,
{
    if n <= 2 {
        0
    } else {
        count_primes_below(n - 1) + (if is_prime(n - 1) {
            1nat
        } else {
            0nat
        })
    }
}

/// Divisibility carries over from a divisor to its own divisors: if `e`
/// divides `d` and `d` divides `i`, then `e` divides `i`.
proof fn lemma_divides_transitive(e: int, d: int, i: int)
    requires
        2 <= e,
        2 <= d,
        d % e == 0,
        2 <= i,
        i % d == 0,
    ensures
        i % e == 0,
{
    let m = i / d;
    let q = d / e;
    vstd::arithmetic::div_mod::lemma_fundamental_div_mod(i, d);
    vstd::arithmetic::div_mod::lemma_fundamental_div_mod(d, e);
    assert(i == (e * q) * m);
    assert((e * q) * m == (q * m) * e) by (nonlinear_arith);
    vstd::arithmetic::div_mod::lemma_mod_multiples_basic(q * m, e);
}

/// Every number that is at least two and not prime has a prime divisor
/// smaller than itself whose square does not exceed it.
proof fn lemma_composite_has_small_prime_divisor(i: int)
    requires
        i >= 2,
        !is_prime(i),
    ensures
        exists|p: int| is_prime(p) && 2 <= p < i && i % p == 0 && p * p <= i,
    decreases i,
{
    lemma_smallest_divisor(i, 2);
    let d = choose|d: int|
        2 <= d < i && #[trigger] (i % d) == 0 && forall|e: int| 2 <= e < d ==> #[trigger] (i % e)
            != 0;
    // The smallest divisor is prime: a proper divisor of it would divide `i`
    // and be smaller still.
    assert(is_prime(d)) by {
        if !is_prime(d) {
            let e = choose|e: int| 2 <= e < d && #[trigger] (d % e) == 0;
            lemma_divides_transitive(e, d, i);
        }
    }
    // Its square does not exceed `i`: the complementary divisor is at least
    // as large, else it would be a smaller divisor.
    let m = i / d;
    vstd::arithmetic::div_mod::lemma_fundamental_div_mod(i, d);
    assert(i == d * m);
    assert(2 <= m) by {
        assert(d < i);
        if m <= 0 {
            assert(d * m <= 0) by (nonlinear_arith)
                requires
                    d >= 2,
                    m <= 0,
            ;
        }
        if m == 1 {
            assert(d * 1 == d);
        }
    }
    assert(i % m == 0) by {
        assert(i == m * d);
        vstd::arithmetic::div_mod::lemma_mod_multiples_basic(d, m);
    }
    assert(m < i) by {
        assert(d * m >= 2 * m) by (nonlinear_arith)
            requires
                d >= 2,
                m >= 0,
        ;
    }
    assert(d <= m);
    assert(d * d <= d * m) by (nonlinear_arith)
        requires
            d >= 1,
            d <= m,
    ;
}

/// Between `from` and `i` there is, if any divisor of `i` lies there, a
/// smallest one: a divisor all of whose smaller candidates are non-divisors.
proof fn lemma_smallest_divisor(i: int, from: int)
    requires
        2 <= from <= i,
        exists|d: int| from <= d < i && #[trigger] (i % d) == 0,
        forall|e: int| 2 <= e < from ==> #[trigger] (i % e) != 0,
    ensures
        exists|d: int|
            2 <= d < i && #[trigger] (i % d) == 0 && (forall|e: int|
                2 <= e < d ==> #[trigger] (i % e) != 0),
    decreases i - from,
{
    if i % from == 0 {
        assert(2 <= from < i && i % from == 0 && (forall|e: int|
            2 <= e < from ==> #[trigger] (i % e) != 0));
    } else {
        let d0 = choose|d: int| from <= d < i && #[trigger] (i % d) == 0;
        assert(from + 1 <= d0);
        lemma_smallest_divisor(i, from + 1);
    }
}

/// No prime below `p` divides `j`, except `j` itself.
pub open spec fn no_small_prime_factor(j: int, p: int) -> bool {
    forall|q: int| 2 <= q < p && is_prime(q) && #[trigger] (j % q) == 0 ==> j == q
}

/// The state of one sieve cell after every prime below `p` has had its
/// multiples struck out.
pub open spec fn sieve_cell(j: int, p: int) -> bool {
    j >= 2 && no_small_prime_factor(j, p)
}

/// A cell that survives the whole sieve holds a prime, and a struck-out cell
/// does not.
proof fn lemma_sieve_cell_decides(j: int, p: int, n: int)
    requires
        0 <= j < n,
        2 <= p,
        p * p > n || p >= n,
    ensures
        sieve_cell(j, p) == is_prime(j),
{
    if j >= 2 {
        if is_prime(j) {
            assert forall|q: int| 2 <= q < p && is_prime(q) && #[trigger] (j % q) == 0 implies j
                == q by {
                if q < j {
                    assert(j % q != 0);
                }
                if q > j {
                    vstd::arithmetic::div_mod::lemma_small_mod(j as nat, q as nat);
                }
            }
        } else {
            lemma_composite_has_small_prime_divisor(j);
            let q = choose|q: int|
                is_prime(q) && 2 <= q < j && j % q == 0 && q * q <= j;
            assert(q < p) by {
                if q >= p {
                    assert(q * q >= p * p) by (nonlinear_arith)
                        requires
                            q >= p >= 2,
                    ;
                }
            }
            assert(!sieve_cell(j, p));
        }
    }
}

/// A multiple `j` of the prime `p`, other than `p` itself and below its
/// square, already carries a prime factor below `p`.
proof fn lemma_small_multiple_struck(j: int, p: int)
    requires
        is_prime(p),
        j % p == 0,
        2 <= j,
        j != p,
        j < p * p,
    ensures
        !no_small_prime_factor(j, p),
{
    let m = j / p;
    vstd::arithmetic::div_mod::lemma_fundamental_div_mod(j, p);
    assert(j == p * m);
    assert(m >= 1) by {
        if m <= 0 {
            assert(p * m <= 0) by (nonlinear_arith)
                requires
                    p >= 2,
                    m <= 0,
            ;
        }
    }
    assert(m >= 2) by {
        if m == 1 {
            assert(p * 1 == p);
        }
    }
    assert(m < p) by {
        if m >= p {
            assert(p * m >= p * p) by (nonlinear_arith)
                requires
                    p >= 2,
                    m >= p,
            ;
        }
    }
    assert(j % m == 0) by {
        assert(j == m * p);
        vstd::arithmetic::div_mod::lemma_mod_multiples_basic(p, m);
    }
    if is_prime(m) {
        assert(j != m) by {
            if j == m {
                assert(p * m >= 2 * m) by (nonlinear_arith)
                    requires
                        p >= 2,
                        m >= 0,
                ;
            }
        }
        assert(2 <= m < p && is_prime(m) && j % m == 0 && j != m);
    } else {
        lemma_composite_has_small_prime_divisor(m);
        let q = choose|q: int|
            is_prime(q) && 2 <= q < m && m % q == 0 && q * q <= m;
        lemma_divides_transitive(q, m, j);
        assert(j != q) by {
            if j == q {
                assert(p * m >= 2 * m) by (nonlinear_arith)
                    requires
                        p >= 2,
                        m >= 2,
                ;
            }
        }
        assert(2 <= q < p && is_prime(q) && j % q == 0 && j != q);
    }
}

/// Counts the values marked true, which must be exactly the primes, giving
/// the number of primes below `n`.
fn count_marked(values: &Vec<bool>) -> (r: usize)
    requires
        forall|j: int| 0 <= j < values@.len() ==> values@[j] == is_prime(j),
    ensures
        r == count_primes_below(values@.len() as int),
{
    let n = values.len();
    let mut count: usize = 0;
    let mut j: usize = 0;
    proof {
        if n >= 2 {
            vstd::arithmetic::div_mod::lemma_small_mod(0nat, 2nat);
        }
    }
    while j < n
        invariant
            j <= n,
            n == values@.len(),
            count <= j,
            forall|q: int| 0 <= q < n ==> values@[q] == is_prime(q),
            count == count_primes_below(j as int),
        decreases n - j,
    {
        if values[j] {
            count = count + 1;
        }
        proof {
            if j as int + 1 <= 2 {
                assert(!values@[j as int]) by {
                    assert(!is_prime(j as int));
                }
            }
        }
        j = j + 1;
    }
    count
}

/// Counts the primes below `n` by trial division: a candidate is kept when
/// no previously kept prime divides it.
pub fn trial_division(n: usize) -> (r: usize)
    ensures
        r == count_primes_below(n as int),
{
    let mut primes: Vec<usize> = Vec::new();
    let mut i: usize = 2;
    if n < 2 {
        return 0;
    }
    while i < n
        invariant
            2 <= i <= n,
            primes@.len() == count_primes_below(i as int),
            forall|j: int| 0 <= j < primes@.len() ==> 2 <= #[trigger] primes@[j] < i,
            forall|j: int| 0 <= j < primes@.len() ==> is_prime(#[trigger] primes@[j] as int),
            forall|p: int|
                2 <= p < i && is_prime(p) ==> exists|j: int|
                    0 <= j < primes@.len() && #[trigger] primes@[j] == p,
        decreases n - i,
    {
        let mut divisible = false;
        let mut j: usize = 0;
        let m = primes.len();
        while j < m && !divisible
            invariant
                j <= m,
                m == primes@.len(),
                2 <= i,
                forall|q: int| 0 <= q < primes@.len() ==> 2 <= #[trigger] primes@[q] < i,
                forall|q: int| 0 <= q < primes@.len() ==> is_prime(#[trigger] primes@[q] as int),
                divisible ==> exists|q: int|
                    0 <= q < primes@.len() && i as int % (#[trigger] primes@[q] as int) == 0,
                !divisible ==> forall|q: int|
                    0 <= q < j ==> i as int % (#[trigger] primes@[q] as int) != 0,
            decreases m - j + (if divisible {
                0int
            } else {
                1int
            }),
        {
            if i % primes[j] == 0 {
                divisible = true;
            } else {
                j = j + 1;
            }
        }
        proof {
            if divisible {
                // A stored prime divides the candidate, so it is composite.
                let q = choose|q: int|
                    0 <= q < primes@.len() && i as int % (#[trigger] primes@[q] as int) == 0;
                assert(!is_prime(i as int));
            } else {
                // No stored prime divides it; since every prime below the
                // candidate is stored, the candidate is prime.
                assert(is_prime(i as int)) by {
                    if !is_prime(i as int) {
                        lemma_composite_has_small_prime_divisor(i as int);
                        let p = choose|p: int|
                            is_prime(p) && 2 <= p < i as int && i as int % p == 0 && p * p
                                <= i as int;
                        let q = choose|q: int|
                            0 <= q < primes@.len() && #[trigger] primes@[q] == p;
                        assert(i as int % (primes@[q] as int) == 0);
                    }
                }
            }
        }
        let ghost pre = primes@;
        if !divisible {
            primes.push(i);
        }
        proof {
            assert forall|p: int| 2 <= p < i as int + 1 && is_prime(p) implies exists|j2: int|
                0 <= j2 < primes@.len() && #[trigger] primes@[j2] == p by {
                if p < i as int {
                    let j2 = choose|j2: int| 0 <= j2 < pre.len() && #[trigger] pre[j2] == p;
                    assert(primes@[j2] == p);
                } else {
                    assert(primes@[pre.len() as int] == i);
                }
            }
        }
        i = i + 1;
    }
    primes.len()
}

/// Counts the primes below `n` with a sieve over every number: each prime's
/// multiples, from its square on, are struck out, and the survivors are the
/// primes.
pub fn sieve_of_eratosthenes_naive(n: usize) -> (r: usize)
    ensures
        r == count_primes_below(n as int),
{
    if n <= 2 {
        return 0;
    }

    let mut values: Vec<bool> = Vec::new();
    while values.len() < n
        invariant
            values@.len() <= n,
            forall|j: int| 0 <= j < values@.len() ==> values@[j],
        decreases n - values@.len(),
    {
        values.push(true);
    }
    values.set(0, false);
    values.set(1, false);

    let mut p: usize = 2;
    let mut done = false;
    proof {
        assert forall|j: int| 0 <= j < n implies values@[j] == sieve_cell(j, 2) by {
            if j >= 2 {
                assert(no_small_prime_factor(j, 2));
            }
        }
    }
    while p < n && !done
        invariant
            2 <= p <= n,
            2 < n,
            values@.len() == n,
            done ==> p * p > n,
            forall|j: int| 0 <= j < n ==> (#[trigger] values@[j]) == sieve_cell(j, p as int),
        decreases n - p + (if done {
            0int
        } else {
            1int
        }),
    {
        if values[p] {
            // An unstruck cell at `p` means no smaller prime divides `p`,
            // so `p` is prime.
            proof {
                assert(values@[p as int]);
                assert(sieve_cell(p as int, p as int));
                assert(is_prime(p as int)) by {
                    if !is_prime(p as int) {
                        lemma_composite_has_small_prime_divisor(p as int);
                        let q = choose|q: int|
                            is_prime(q) && 2 <= q < p as int && p as int % q == 0 && q * q
                                <= p as int;
                        assert((p as int) % q == 0);
                    }
                }
            }
            if p > n / p {
                // Every composite below `n` has a prime factor whose square
                // is below `n`, hence below `p`: the sieve is finished.
                proof {
                    vstd::arithmetic::div_mod::lemma_fundamental_div_mod(n as int, p as int);
                    assert(p as int * p as int > n) by (nonlinear_arith)
                        requires
                            p as int >= (n as int) / (p as int) + 1,
                            n as int == (p as int) * ((n as int) / (p as int)) + (n as int) % (
                            p as int),
                            0 <= (n as int) % (p as int) < p as int,
                            p >= 2,
                    ;
                }
                done = true;
            } else {
                // p * p <= n: strike every multiple of `p` from its square.
                proof {
                    vstd::arithmetic::div_mod::lemma_fundamental_div_mod(n as int, p as int);
                    assert(p as int * p as int <= n) by (nonlinear_arith)
                        requires
                            p as int <= (n as int) / (p as int),
                            n as int == (p as int) * ((n as int) / (p as int)) + (n as int) % (
                            p as int),
                            0 <= (n as int) % (p as int),
                            p >= 2,
                    ;
                }
                let mut i = p * p;
                proof {
                    vstd::arithmetic::div_mod::lemma_mod_multiples_basic(p as int, p as int);
                    assert((p as int) * (p as int) % (p as int) == 0);
                }
                while i < n
                    invariant
                        2 <= p < n,
                        values@.len() == n,
                        p * p <= i <= n,
                        (i as int) % (p as int) == 0 || i == n,
                        is_prime(p as int),
                        forall|j: int|
                            0 <= j < n ==> (#[trigger] values@[j]) == (sieve_cell(j, p as int)
                                && !(j % (p as int) == 0 && p * p <= j < i)),
                    decreases n - i,
                {
                    let ghost ii = i as int;
                    let ghost pre = values@;
                    values.set(i, false);
                    if n - i <= p {
                        proof {
                            assert forall|j: int| 0 <= j < n implies values@[j] == (sieve_cell(
                                j,
                                p as int,
                            ) && !(j % (p as int) == 0 && p * p <= j < n)) by {
                                if j != ii {
                                    assert(values@[j] == pre[j]);
                                    assert(pre[j] == (sieve_cell(j, p as int) && !(j % (
                                    p as int) == 0 && p * p <= j < ii)));
                                    if j % (p as int) == 0 && ii < j < n {
                                        lemma_next_multiple(ii, j, p as int);
                                    }
                                }
                            }
                        }
                        i = n;
                    } else {
                        proof {
                            vstd::arithmetic::div_mod::lemma_fundamental_div_mod(ii, p as int);
                            let a = ii / (p as int);
                            assert((ii + p) == (p as int) * (a + 1)) by (nonlinear_arith)
                                requires
                                    ii == (p as int) * a,
                            ;
                            vstd::arithmetic::div_mod::lemma_mod_multiples_basic(
                                a + 1,
                                p as int,
                            );
                            assert((ii + p) % (p as int) == 0) by {
                                assert((a + 1) * (p as int) == (p as int) * (a + 1))
                                    by (nonlinear_arith);
                            }
                            assert forall|j: int| 0 <= j < n implies values@[j] == (sieve_cell(
                                j,
                                p as int,
                            ) && !(j % (p as int) == 0 && p * p <= j < ii + p)) by {
                                if j == ii {
                                    assert(!values@[j]);
                                    assert(j % (p as int) == 0 && p * p <= j < ii + p);
                                } else {
                                    assert(values@[j] == pre[j]);
                                    assert(pre[j] == (sieve_cell(j, p as int) && !(j % (
                                    p as int) == 0 && p * p <= j < ii)));
                                    if j % (p as int) == 0 && ii < j < ii + p {
                                        lemma_next_multiple(ii, j, p as int);
                                    }
                                }
                            }
                        }
                        i = i + p;
                    }
                }
                // One prime processed: fold its absence of multiples into the
                // cell predicate for the next bound.
                proof {
                    assert forall|j: int| 0 <= j < n implies (sieve_cell(j, p as int) && !(j % (
                    p as int) == 0 && p * p <= j < n)) == sieve_cell(j, p as int + 1) by {
                        lemma_sieve_fold(j, p as int, n as int);
                    }
                }
                p = p + 1;
            }
        } else {
            // A struck cell cannot hold a prime, so no multiples need
            // striking before moving on.
            proof {
                assert(!values@[p as int]);
                assert(!is_prime(p as int)) by {
                    if is_prime(p as int) {
                        assert(sieve_cell(p as int, p as int)) by {
                            assert forall|q: int|
                                2 <= q < p as int && is_prime(q) && #[trigger] ((p as int) % q)
                                    == 0 implies p as int == q by {
                                assert((p as int) % q != 0);
                            }
                        }
                    }
                }
                assert forall|j: int| 0 <= j < n implies values@[j] == sieve_cell(
                    j,
                    p as int + 1,
                ) by {
                    lemma_sieve_skip(j, p as int);
                }
            }
            p = p + 1;
        }
    }
    proof {
        assert forall|j: int| 0 <= j < n implies values@[j] == is_prime(j) by {
            if done {
                lemma_sieve_cell_decides(j, p as int, n as int);
            } else {
                lemma_sieve_cell_decides(j, n as int, n as int);
            }
        }
    }
    count_marked(&values)
}

/// The odd number the sieve cell at `k` stands for.
pub open spec fn odd_at(k: int) -> int {
    3 + 2 * k
}

/// An even number of four or more is composite.
proof fn lemma_even_not_prime(j: int)
    requires
        j >= 4,
        j % 2 == 0,
    ensures
        !is_prime(j),
{
    assert(2 <= 2 < j && j % 2 == 0);
}

/// Cells stand for odd numbers.
proof fn lemma_odd_at_odd(k: int)
    requires
        k >= 0,
    ensures
        odd_at(k) % 2 == 1,
{
    vstd::arithmetic::div_mod::lemma_mod_multiples_vanish(k + 1, 1, 2);
}

/// Two odd multiples of an odd number are at least twice it apart.
proof fn lemma_next_odd_multiple(ii: int, j: int, p: int)
    requires
        p >= 3,
        p % 2 == 1,
        ii >= 0,
        j >= 0,
        ii % p == 0,
        j % p == 0,
        ii % 2 == 1,
        j % 2 == 1,
        j > ii,
    ensures
        j >= ii + 2 * p,
{
    lemma_next_multiple(ii, j, p);
    vstd::arithmetic::div_mod::lemma_fundamental_div_mod(j, p);
    vstd::arithmetic::div_mod::lemma_fundamental_div_mod(ii, p);
    let a = j / p;
    let b = ii / p;
    if j < ii + 2 * p {
        assert(a == b + 1) by (nonlinear_arith)
            requires
                j == p * a,
                ii == p * b,
                ii + p <= j < ii + 2 * p,
                p >= 3,
        ;
        // Then j - ii == p, an odd difference of two odd numbers.
        assert(j - ii == p) by (nonlinear_arith)
            requires
                j == p * a,
                ii == p * b,
                a == b + 1,
        ;
        vstd::arithmetic::div_mod::lemma_fundamental_div_mod(j, 2);
        vstd::arithmetic::div_mod::lemma_fundamental_div_mod(ii, 2);
        vstd::arithmetic::div_mod::lemma_fundamental_div_mod(p, 2);
        assert(false) by (nonlinear_arith)
            requires
                j == 2 * (j / 2) + 1,
                ii == 2 * (ii / 2) + 1,
                p == 2 * (p / 2) + 1,
                j - ii == p,
        ;
    }
}

/// Counts the primes below `n` with a sieve over the odd numbers only: the
/// cell at `k` stands for `3 + 2k`, odd multiples of each odd prime are
/// struck from its square on, and the survivors, together with the prime
/// two, are the primes.
pub fn sieve_of_eratosthenes_odds(n: usize) -> (r: usize)
    ensures
        r == count_primes_below(n as int),
{
    if n <= 2 {
        return 0;
    }

    let len = (n - 2) / 2;
    let mut values: Vec<bool> = Vec::new();
    while values.len() < len
        invariant
            values@.len() <= len,
            forall|k: int| 0 <= k < values@.len() ==> values@[k],
        decreases len - values@.len(),
    {
        values.push(true);
    }
    proof {
        vstd::arithmetic::div_mod::lemma_fundamental_div_mod(n as int - 2, 2);
        assert(2 * (len as int) == n - 2 || 2 * (len as int) == n - 3);
        assert forall|k: int| 0 <= k < len implies values@[k] == sieve_cell(odd_at(k), 3) by {
            lemma_odd_at_odd(k);
            assert(no_small_prime_factor(odd_at(k), 3)) by {
                assert forall|q: int|
                    2 <= q < 3 && is_prime(q) && #[trigger] (odd_at(k) % q) == 0 implies odd_at(k)
                        == q by {
                    assert(odd_at(k) % 2 == 1);
                }
            }
        }
    }

    let mut index: usize = 0;
    let mut done = false;
    while index < len && !done
        invariant
            index <= len,
            2 < n,
            len == ((n - 2) as int) / 2,
            2 * (len as int) == n - 2 || 2 * (len as int) == n - 3,
            values@.len() == len,
            done ==> odd_at(index as int) * odd_at(index as int) > n,
            forall|k: int| 0 <= k < len ==> values@[k] == sieve_cell(odd_at(k), odd_at(index as int)),
        decreases len - index + (if done {
            0int
        } else {
            1int
        }),
    {
        let p = 3 + 2 * index;
        proof {
            assert(p == odd_at(index as int));
            lemma_odd_at_odd(index as int);
        }
        if values[index] {
            // An unstruck cell means no smaller prime divides `p`: prime.
            proof {
                assert(values@[index as int]);
                assert(sieve_cell(p as int, p as int));
                assert(is_prime(p as int)) by {
                    if !is_prime(p as int) {
                        lemma_composite_has_small_prime_divisor(p as int);
                        let q = choose|q: int|
                            is_prime(q) && 2 <= q < p as int && p as int % q == 0 && q * q
                                <= p as int;
                        assert((p as int) % q == 0);
                    }
                }
            }
            if p > n / p {
                proof {
                    vstd::arithmetic::div_mod::lemma_fundamental_div_mod(n as int, p as int);
                    assert(p as int * p as int > n) by (nonlinear_arith)
                        requires
                            p as int >= (n as int) / (p as int) + 1,
                            n as int == (p as int) * ((n as int) / (p as int)) + (n as int) % (
                            p as int),
                            0 <= (n as int) % (p as int) < p as int,
                            p >= 2,
                    ;
                }
                done = true;
            } else {
                proof {
                    vstd::arithmetic::div_mod::lemma_fundamental_div_mod(n as int, p as int);
                    assert(p as int * p as int <= n) by (nonlinear_arith)
                        requires
                            p as int <= (n as int) / (p as int),
                            n as int == (p as int) * ((n as int) / (p as int)) + (n as int) % (
                            p as int),
                            0 <= (n as int) % (p as int),
                            p >= 2,
                    ;
                }
                let mut i = p * p;
                proof {
                    assert(9 <= (p as int) * (p as int)) by (nonlinear_arith)
                        requires
                            p as int >= 3,
                    ;
                    assert(2 * (p as int) <= (p as int) * (p as int)) by (nonlinear_arith)
                        requires
                            p as int >= 2,
                    ;
                    vstd::arithmetic::div_mod::lemma_mod_multiples_basic(p as int, p as int);
                    assert((p as int) * (p as int) % (p as int) == 0);
                    assert((p as int) * (p as int) % 2 == 1) by {
                        vstd::arithmetic::div_mod::lemma_fundamental_div_mod(p as int, 2);
                        let h = (p as int) / 2;
                        assert((p as int) * (p as int) == 2 * (2 * h * h + 2 * h) + 1)
                            by (nonlinear_arith)
                            requires
                                p as int == 2 * h + 1,
                        ;
                        vstd::arithmetic::div_mod::lemma_mod_multiples_vanish(
                            2 * h * h + 2 * h,
                            1,
                            2,
                        );
                    }
                }
                while i < n
                    invariant
                        3 <= p < n,
                        2 < n,
                        p % 2 == 1,
                        len == ((n - 2) as int) / 2,
                        2 * (len as int) == n - 2 || 2 * (len as int) == n - 3,
                        values@.len() == len,
                        p * p <= i <= n,
                        9 <= i,
                        2 * p <= n,
                        ((i as int) % (p as int) == 0 && (i as int) % 2 == 1) || i == n,
                        is_prime(p as int),
                        forall|k: int|
                            0 <= k < len ==> values@[k] == (sieve_cell(odd_at(k), p as int) && !(
                            odd_at(k) % (p as int) == 0 && p * p <= odd_at(k) < i)),
                    decreases n - i,
                {
                    let ghost ii = i as int;
                    let ghost pre = values@;
                    let slot = (i - 3) / 2;
                    proof {
                        vstd::arithmetic::div_mod::lemma_fundamental_div_mod(ii - 3, 2);
                        assert((ii - 3) % 2 == 0) by {
                            vstd::arithmetic::div_mod::lemma_mod_multiples_vanish(
                                (ii - 3) / 2,
                                0,
                                2,
                            ) ;
                            vstd::arithmetic::div_mod::lemma_fundamental_div_mod(ii, 2);
                            assert(ii - 3 == 2 * ((ii / 2) - 1)) by (nonlinear_arith)
                                requires
                                    ii == 2 * (ii / 2) + 1,
                            ;
                            vstd::arithmetic::div_mod::lemma_mod_multiples_basic(
                                (ii / 2) - 1,
                                2,
                            );
                        }
                        assert(2 * (slot as int) == ii - 3);
                        assert(odd_at(slot as int) == ii);
                        assert((slot as int) < len);
                    }
                    values.set(slot, false);
                    if n - i <= 2 * p {
                        proof {
                            assert forall|k: int| 0 <= k < len implies values@[k] == (sieve_cell(
                                odd_at(k),
                                p as int,
                            ) && !(odd_at(k) % (p as int) == 0 && p * p <= odd_at(k) < n)) by {
                                if k == slot as int {
                                    assert(!values@[k]);
                                    assert(odd_at(k) % (p as int) == 0 && p * p <= odd_at(k) < n);
                                } else {
                                    assert(values@[k] == pre[k]);
                                    if odd_at(k) % (p as int) == 0 && ii < odd_at(k) < n {
                                        lemma_odd_at_odd(k);
                                        lemma_next_odd_multiple(ii, odd_at(k), p as int);
                                    }
                                }
                            }
                        }
                        i = n;
                    } else {
                        proof {
                            vstd::arithmetic::div_mod::lemma_fundamental_div_mod(ii, p as int);
                            let a = ii / (p as int);
                            assert((ii + 2 * p) == (p as int) * (a + 2)) by (nonlinear_arith)
                                requires
                                    ii == (p as int) * a,
                            ;
                            vstd::arithmetic::div_mod::lemma_mod_multiples_basic(
                                a + 2,
                                p as int,
                            );
                            assert((ii + 2 * p) % (p as int) == 0) by {
                                assert((a + 2) * (p as int) == (p as int) * (a + 2))
                                    by (nonlinear_arith);
                            }
                            assert((ii + 2 * p) % 2 == 1) by {
                                vstd::arithmetic::div_mod::lemma_fundamental_div_mod(ii, 2);
                                assert(ii + 2 * p == 2 * ((ii / 2) + p) + 1) by (nonlinear_arith)
                                    requires
                                        ii == 2 * (ii / 2) + 1,
                                ;
                                vstd::arithmetic::div_mod::lemma_mod_multiples_vanish(
                                    (ii / 2) + (p as int),
                                    1,
                                    2,
                                );
                            }
                            assert forall|k: int| 0 <= k < len implies values@[k] == (sieve_cell(
                                odd_at(k),
                                p as int,
                            ) && !(odd_at(k) % (p as int) == 0 && p * p <= odd_at(k) < ii + 2 * p))
                                by {
                                if k == slot as int {
                                    assert(!values@[k]);
                                    assert(odd_at(k) % (p as int) == 0 && p * p <= odd_at(k) < ii
                                        + 2 * p);
                                } else {
                                    assert(values@[k] == pre[k]);
                                    if odd_at(k) % (p as int) == 0 && ii < odd_at(k) < ii + 2 * p {
                                        lemma_odd_at_odd(k);
                                        lemma_next_odd_multiple(ii, odd_at(k), p as int);
                                    }
                                }
                            }
                        }
                        i = i + 2 * p;
                    }
                }
                // Fold the finished prime into the cell predicate, and move
                // the bound past the even number that follows it.
                proof {
                    assert forall|k: int| 0 <= k < len implies values@[k] == sieve_cell(
                        odd_at(k),
                        odd_at(index as int + 1),
                    ) by {
                        lemma_sieve_fold(odd_at(k), p as int, n as int);
                        lemma_even_not_prime(p as int + 1);
                        lemma_sieve_skip(odd_at(k), p as int + 1);
                        assert(odd_at(index as int + 1) == p as int + 2);
                    }
                }
                index = index + 1;
            }
        } else {
            // A struck cell cannot hold a prime; the even number after it is
            // not one either.
            proof {
                assert(!values@[index as int]);
                assert(!is_prime(p as int)) by {
                    if is_prime(p as int) {
                        assert(sieve_cell(p as int, p as int)) by {
                            assert forall|q: int|
                                2 <= q < p as int && is_prime(q) && #[trigger] ((p as int) % q)
                                    == 0 implies p as int == q by {
                                assert((p as int) % q != 0);
                            }
                        }
                    }
                }
                assert forall|k: int| 0 <= k < len implies values@[k] == sieve_cell(
                    odd_at(k),
                    odd_at(index as int + 1),
                ) by {
                    lemma_sieve_skip(odd_at(k), p as int);
                    lemma_even_not_prime(p as int + 1);
                    lemma_sieve_skip(odd_at(k), p as int + 1);
                    assert(odd_at(index as int + 1) == p as int + 2);
                }
            }
            index = index + 1;
        }
    }
    proof {
        let bound = if done {
            odd_at(index as int)
        } else {
            odd_at(len as int)
        };
        assert forall|k: int| 0 <= k < len implies values@[k] == is_prime(odd_at(k)) by {
            if done {
                lemma_sieve_cell_decides(odd_at(k), odd_at(index as int), n as int);
            } else {
                assert(odd_at(len as int) >= n);
                lemma_sieve_cell_decides(odd_at(k), odd_at(len as int), n as int);
            }
        }
    }

    // Count the surviving cells; the prime two is not a cell and counts
    // extra.
    let mut count: usize = 0;
    let mut k: usize = 0;
    proof {
        assert(count_primes_below(3) == 1) by {
            assert(is_prime(2)) by {
                assert(forall|d: int| 2 <= d < 2 ==> #[trigger] (2int % d) != 0);
            }
            assert(count_primes_below(2) == 0);
        }
    }
    while k < len
        invariant
            k <= len,
            2 < n,
            values@.len() == len,
            count <= k,
            forall|q: int| 0 <= q < len ==> values@[q] == is_prime(odd_at(q)),
            count + 1 == count_primes_below(odd_at(k as int)),
        decreases len - k,
    {
        proof {
            lemma_odd_at_odd(k as int);
            assert((odd_at(k as int) + 1) % 2 == 0) by {
                vstd::arithmetic::div_mod::lemma_mod_multiples_basic(k as int + 2, 2);
                assert(odd_at(k as int) + 1 == (k as int + 2) * 2) by (nonlinear_arith);
            }
            assert(!is_prime(odd_at(k as int) + 1)) by {
                lemma_even_not_prime(odd_at(k as int) + 1);
            }
            assert(count_primes_below(odd_at(k as int) + 1) == count_primes_below(
                odd_at(k as int),
            ) + (if is_prime(odd_at(k as int)) {
                1nat
            } else {
                0nat
            }));
            assert(count_primes_below(odd_at(k as int) + 2) == count_primes_below(
                odd_at(k as int) + 1,
            ) + (if is_prime(odd_at(k as int) + 1) {
                1nat
            } else {
                0nat
            }));
            assert(odd_at(k as int + 1) == odd_at(k as int) + 2);
        }
        if values[k] {
            count = count + 1;
        }
        k = k + 1;
    }
    proof {
        assert(odd_at(len as int) == n || odd_at(len as int) == n + 1);
        if odd_at(len as int) == n + 1 {
            assert(2 * (len as int) == n - 2);
            assert((n as int) % 2 == 0) by {
                vstd::arithmetic::div_mod::lemma_mod_multiples_vanish((len as int) + 1, 0, 2);
                assert(n as int == 2 * ((len as int) + 1)) by (nonlinear_arith)
                    requires
                        2 * (len as int) == n - 2,
                ;
                vstd::arithmetic::div_mod::lemma_mod_multiples_basic((len as int) + 1, 2);
            }
            assert(!is_prime(n as int)) by {
                lemma_even_not_prime(n as int);
            }
            assert(count_primes_below(n as int + 1) == count_primes_below(n as int) + (
            if is_prime(n as int) {
                1nat
            } else {
                0nat
            }));
        }
    }
    count + 1
}

/// Two multiples of `p` are at least `p` apart.
proof fn lemma_next_multiple(ii: int, j: int, p: int)
    requires
        p >= 2,
        ii >= 0,
        j >= 0,
        ii % p == 0,
        j % p == 0,
        j > ii,
    ensures
        j >= ii + p,
{
    vstd::arithmetic::div_mod::lemma_fundamental_div_mod(j, p);
    vstd::arithmetic::div_mod::lemma_fundamental_div_mod(ii, p);
    let a = j / p;
    let b = ii / p;
    assert(a >= b + 1) by (nonlinear_arith)
        requires
            j == p * a,
            ii == p * b,
            j > ii,
            p >= 2,
    ;
    assert(p * a >= p * b + p) by (nonlinear_arith)
        requires
            a >= b + 1,
            p >= 2,
    ;
}

/// Once the multiples of the prime `p` are struck, the cells describe the
/// sieve bound `p + 1`.
proof fn lemma_sieve_fold(j: int, p: int, n: int)
    requires
        is_prime(p),
        0 <= j < n,
        p * p <= n,
    ensures
        (sieve_cell(j, p) && !(j % p == 0 && p * p <= j < n)) == sieve_cell(j, p + 1),
{
    if j >= 2 {
        if sieve_cell(j, p + 1) {
            assert(sieve_cell(j, p));
            if j % p == 0 && p * p <= j {
                assert(j == p);
                assert(p * p <= p ==> p <= 1) by (nonlinear_arith)
                    requires
                        p >= 2,
                ;
            }
        }
        if sieve_cell(j, p) && !(j % p == 0 && p * p <= j < n) {
            assert forall|q: int| 2 <= q < p + 1 && is_prime(q) && #[trigger] (j % q) == 0
                implies j == q by {
                if q == p {
                    if j != p {
                        assert(j < p * p);
                        lemma_small_multiple_struck(j, p);
                    }
                }
            }
        }
    }
}

/// A sieve bound moves past a composite without changing any cell.
proof fn lemma_sieve_skip(j: int, p: int)
    requires
        2 <= p,
        !is_prime(p),
    ensures
        sieve_cell(j, p) == sieve_cell(j, p + 1),
{
    if sieve_cell(j, p) {
        assert forall|q: int| 2 <= q < p + 1 && is_prime(q) && #[trigger] (j % q) == 0 implies j
            == q by {
        }
    }
}

} // verus!
