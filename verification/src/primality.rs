//! What it means to be prime, and the arithmetic that trial division rests on.

use vstd::arithmetic::div_mod::{lemma_fundamental_div_mod, lemma_mod_multiples_basic};
use vstd::prelude::*;

verus! {

/// `d` divides `n` without remainder.
pub open spec fn divides(d: nat, n: nat) -> bool {
    d != 0 && n % d == 0
}

/// `n` is prime: at least 2, and divisible by no number strictly between 1
/// and itself.
pub open spec fn is_prime_number(n: nat) -> bool {
    n >= 2 && forall|d: nat| 2 <= d < n ==> !#[trigger] divides(d, n)
}

/// `root` is the integer square root of `n`: the largest number whose square
/// does not exceed `n`.
pub open spec fn is_integer_sqrt(root: nat, n: nat) -> bool {
    root * root <= n < (root + 1) * (root + 1)
}

/// A divisor of a divisor is a divisor.
pub proof fn lemma_divides_transitive(a: nat, b: nat, c: nat)
    requires
        divides(a, b),
        divides(b, c),
    ensures
        divides(a, c),
{
    let k = (b / a) as int;
    let m = (c / b) as int;
    lemma_fundamental_div_mod(b as int, a as int);
    lemma_fundamental_div_mod(c as int, b as int);
    assert(c == (m * k) * a) by (nonlinear_arith)
        requires
            b == a * k,
            c == b * m,
    ;
    lemma_mod_multiples_basic(m * k, a as int);
}

/// Every divisor `d >= 2` of `n` has a prime divisor of `n` at or below it.
pub proof fn lemma_prime_divisor_below(n: nat, d: nat) -> (p: nat)
    requires
        d >= 2,
        divides(d, n),
    ensures
        is_prime_number(p),
        p <= d,
        divides(p, n),
    decreases d,
{
    if is_prime_number(d) {
        d
    } else {
        let e = choose|e: nat| 2 <= e < d && divides(e, d);
        lemma_divides_transitive(e, d, n);
        lemma_prime_divisor_below(n, e)
    }
}

/// A number from 2 on that is not prime has a prime divisor whose square
/// does not exceed it.
pub proof fn lemma_composite_has_small_prime_divisor(n: nat) -> (p: nat)
    requires
        n >= 2,
        !is_prime_number(n),
    ensures
        is_prime_number(p),
        p * p <= n,
        divides(p, n),
{
    let d = choose|d: nat| 2 <= d < n && divides(d, n);
    let e = n / d;
    lemma_fundamental_div_mod(n as int, d as int);
    assert(n == d * e);
    assert(e >= 2 && n == e * d) by (nonlinear_arith)
        requires
            n == d * e,
            2 <= d < n,
    ;
    lemma_mod_multiples_basic(d as int, e as int);
    assert(divides(e, n));
    let m = if d <= e { d } else { e };
    assert(m * m <= n) by (nonlinear_arith)
        requires
            n == d * e,
            m == d || m == e,
            m <= d,
            m <= e,
    ;
    let p = lemma_prime_divisor_below(n, m);
    assert(p * p <= m * m) by (nonlinear_arith)
        requires
            p <= m,
    ;
    p
}

/// Trial division by primes is enough: a number from 2 on that no prime with
/// a square at or below it divides is prime.
pub proof fn lemma_prime_by_trial_division(n: nat)
    requires
        n >= 2,
        forall|p: nat| #[trigger] is_prime_number(p) && p * p <= n ==> !divides(p, n),
    ensures
        is_prime_number(n),
{
    if !is_prime_number(n) {
        let p = lemma_composite_has_small_prime_divisor(n);
        assert(is_prime_number(p) && p * p <= n);
    }
}

/// `list` holds exactly the primes up to `limit`, in ascending order.
pub open spec fn is_prime_list(list: Seq<u64>, limit: nat) -> bool {
    &&& forall|i: int, j: int| 0 <= i < j < list.len() ==> list[i] < list[j]
    &&& forall|i: int|
        0 <= i < list.len() ==> is_prime_number(#[trigger] list[i] as nat) && list[i] <= limit
    &&& forall|p: nat| #[trigger]
        is_prime_number(p) && p <= limit ==> exists|i: int| 0 <= i < list.len() && list[i] == p
}

/// The entries of `list` up to index `i` all have a square at or below `n`:
/// a scan from the front that stops at the first entry above the square root
/// of `n` reaches index `i`.
pub open spec fn scan_reaches(list: Seq<u64>, n: nat, i: int) -> bool {
    forall|j: int| 0 <= j <= i ==> #[trigger] list[j] * list[j] <= n
}

/// None of the entries that the scan reaches divides `n`.
pub open spec fn survives_scan(n: nat, list: Seq<u64>) -> bool {
    forall|i: int|
        0 <= i < list.len() && #[trigger] scan_reaches(list, n, i) ==> !divides(list[i] as nat, n)
}

/// The verdict of trial division of `n` against `list`: 2 passes; below 2 and
/// even numbers fail; an odd number passes if it survives the scan.
pub open spec fn trial_division(n: nat, list: Seq<u64>) -> bool {
    n == 2 || (n > 2 && n % 2 == 1 && survives_scan(n, list))
}

/// The largest number that trial division against the primes up to `limit`
/// decides rightly: one less than the square of the number after `limit`, with
/// 2 in place of a smaller `limit`, since only odd numbers reach the scan.
pub open spec fn horizon(limit: nat) -> nat {
    if limit < 2 {
        8
    } else {
        limit * limit + 2 * limit
    }
}

/// The list that holds 2 alone is the list of the primes up to 2.
pub proof fn lemma_prime_list_seed()
    ensures
        is_prime_list(seq![2u64], 2),
{
    let list = seq![2u64];
    assert(is_prime_number(2));
    assert forall|p: nat| #[trigger] is_prime_number(p) && p <= 2 implies exists|i: int|
        0 <= i < list.len() && list[i] == p by {
        assert(list[0] == 2);
    }
}

/// An even number above 2 is not prime.
pub proof fn lemma_even_not_prime(n: nat)
    requires
        n > 2,
        n % 2 == 0,
    ensures
        !is_prime_number(n),
{
    assert(divides(2, n));
}

/// The list of the primes up to `limit` is also the list of the primes up to
/// an even number that follows `limit` directly.
pub proof fn lemma_prime_list_skips_even(list: Seq<u64>, limit: nat)
    requires
        is_prime_list(list, limit),
        limit >= 2,
        (limit + 1) % 2 == 0,
    ensures
        is_prime_list(list, limit + 1),
{
    lemma_even_not_prime(limit + 1);
}

/// From the list of the primes up to `limit`, the list of the primes up to an
/// odd `n` that lies one or two past `limit`: `n` is appended if it is prime.
pub proof fn lemma_prime_list_extends(list: Seq<u64>, limit: nat, n: u64)
    requires
        is_prime_list(list, limit),
        limit >= 2,
        n % 2 == 1,
        limit < n <= limit + 2,
    ensures
        is_prime_list(
            if is_prime_number(n as nat) {
                list.push(n)
            } else {
                list
            },
            n as nat,
        ),
{
    let grown = if is_prime_number(n as nat) {
        list.push(n)
    } else {
        list
    };
    if n == limit + 2 {
        lemma_even_not_prime(limit + 1);
    }
    assert forall|p: nat| #[trigger] is_prime_number(p) && p <= n implies exists|i: int|
        0 <= i < grown.len() && grown[i] == p by {
        if p <= limit {
            let i = choose|i: int| 0 <= i < list.len() && list[i] == p;
            assert(grown[i] == p);
        } else {
            assert(p == n);
            assert(grown[list.len() as int] == p);
        }
    }
}

/// Two lists of the primes up to one limit are the same list.
pub proof fn lemma_prime_list_unique(a: Seq<u64>, b: Seq<u64>, limit: nat)
    requires
        is_prime_list(a, limit),
        is_prime_list(b, limit),
    ensures
        a == b,
{
    lemma_prime_list_prefix(a, b, limit, a.len() as int);
    lemma_prime_list_prefix(b, a, limit, b.len() as int);
    assert(a =~= b);
}

/// Two lists of the primes up to one limit agree on their first `k` entries.
proof fn lemma_prime_list_prefix(a: Seq<u64>, b: Seq<u64>, limit: nat, k: int)
    requires
        is_prime_list(a, limit),
        is_prime_list(b, limit),
        0 <= k <= a.len(),
    ensures
        k <= b.len(),
        forall|i: int| 0 <= i < k ==> a[i] == b[i],
    decreases k,
{
    if k > 0 {
        lemma_prime_list_prefix(a, b, limit, k - 1);
        let p = a[k - 1];
        assert(is_prime_number(p as nat) && p <= limit);
        let at = choose|at: int| 0 <= at < b.len() && b[at] == p as nat;
        if at < k - 1 {
            assert(a[at] == b[at]);
            assert(a[at] < a[k - 1]);
        } else if at > k - 1 {
            let q = b[k - 1];
            assert(is_prime_number(q as nat) && q <= limit);
            let back = choose|back: int| 0 <= back < a.len() && a[back] == q as nat;
            assert(q < p);
            if back < k - 1 {
                assert(b[back] == a[back]);
                assert(b[back] < b[k - 1]);
            } else if back > k - 1 {
                assert(a[k - 1] < a[back]);
            }
        }
    }
}

/// Against the primes up to `limit`, trial division decides primality
/// rightly for every number up to the horizon of `limit`.
pub proof fn lemma_trial_division_decides(n: nat, list: Seq<u64>, limit: nat)
    requires
        is_prime_list(list, limit),
        n <= horizon(limit),
    ensures
        trial_division(n, list) == is_prime_number(n),
{
    if n > 2 && n % 2 == 0 {
        assert(divides(2, n));
    } else if n > 2 {
        if survives_scan(n, list) {
            assert forall|p: nat| #[trigger] is_prime_number(p) && p * p <= n implies !divides(
                p,
                n,
            ) by {
                if p > 2 {
                    assert(p <= limit) by (nonlinear_arith)
                        requires
                            p * p <= n,
                            n <= horizon(limit),
                            p > 2,
                            horizon(limit) == (if limit < 2 {
                                8
                            } else {
                                limit * limit + 2 * limit
                            }),
                    ;
                    let i = choose|i: int| 0 <= i < list.len() && list[i] == p;
                    assert forall|j: int| 0 <= j <= i implies #[trigger] list[j] * list[j]
                        <= n by {
                        assert(list[j] * list[j] <= p * p) by (nonlinear_arith)
                            requires
                                list[j] <= p,
                        ;
                    }
                    assert(scan_reaches(list, n, i));
                }
            }
            lemma_prime_by_trial_division(n);
        }
        if is_prime_number(n) {
            assert forall|i: int| 0 <= i < list.len() && #[trigger] scan_reaches(
                list,
                n,
                i,
            ) implies !divides(list[i] as nat, n) by {
                let p = list[i] as nat;
                assert(is_prime_number(list[i] as nat));
                assert(list[i] * list[i] <= n);
                assert(p < n) by (nonlinear_arith)
                    requires
                        p * p <= n,
                        p >= 2,
                ;
            }
        }
    }
}

/// With `root` the integer square root of `n`, a number is at most `root`
/// exactly if its square is at most `n`.
pub proof fn lemma_below_sqrt(p: nat, root: nat, n: nat)
    requires
        is_integer_sqrt(root, n),
    ensures
        p <= root <==> p * p <= n,
{
    if p <= root {
        assert(p * p <= root * root) by (nonlinear_arith)
            requires
                p <= root,
        ;
    } else {
        assert(p * p >= (root + 1) * (root + 1)) by (nonlinear_arith)
            requires
                p >= root + 1,
        ;
    }
}

/// The integer square root of `n`.
pub fn integer_sqrt(n: u64) -> (root: u64)
    ensures
        is_integer_sqrt(root as nat, n as nat),
{
    let mut low: u64 = 0;
    let mut high: u64 = 4294967296;
    while high - low > 1
        invariant
            low < high <= 4294967296,
            low * low <= n < high * high,
        decreases high - low,
    {
        let middle: u64 = low + (high - low) / 2;
        assert(middle * middle <= 4294967295 * 4294967295) by (nonlinear_arith)
            requires
                middle <= 4294967295,
        ;
        if middle * middle <= n {
            low = middle;
        } else {
            high = middle;
        }
    }
    low
}

} // verus!
