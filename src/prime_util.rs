//! Primality testing and prime enumeration.
use vstd::prelude::*;

verus! {

/// `d` divides `n` (for `d > 0`).
pub open spec fn divides(d: nat, n: nat) -> bool {
    d > 0 && n % d == 0
}

/// The mathematical notion: `n >= 2` and no integer in `[2, n)` divides it.
pub open spec fn is_prime_number(n: nat) -> bool {
    n >= 2 && forall|d: nat| 2 <= d < n ==> !#[trigger] divides(d, n)
}

/// What `is_prime` reports: 0 and 1 are accepted together with the true primes.
pub open spec fn prime_test(n: nat) -> bool {
    n <= 1 || is_prime_number(n)
}

proof fn lemma_div_pair(n: nat, d: nat)
    requires
        2 <= d < n,
        n % d == 0,
    ensures
        2 <= n / d < n,
        (n / d) * d == n,
        n % (n / d) == 0,
{
    let e = n / d;
    vstd::arithmetic::div_mod::lemma_fundamental_div_mod(n as int, d as int);
    assert(e >= 2) by (nonlinear_arith) requires n == d * e, d < n, d >= 2 {}
    assert(e < n) by (nonlinear_arith) requires n == d * e, d >= 2, e >= 2 {}
    assert(n % e == 0) by (nonlinear_arith) requires n == d * e, e > 0 {
        vstd::arithmetic::div_mod::lemma_mod_multiples_basic(d as int, e as int);
    }
}

/// A composite `n` has a divisor `d` with `2 <= d` and `d * d <= n`.
proof fn lemma_small_divisor(n: nat, d: nat) -> (s: nat)
    requires
        2 <= d < n,
        n % d == 0,
    ensures
        2 <= s,
        s * s <= n,
        n % s == 0,
{
    lemma_div_pair(n, d);
    let e = n / d;
    if d <= e {
        assert(d * d <= n) by (nonlinear_arith) requires d <= e, e * d == n, d >= 0 {}
        d
    } else {
        assert(e * e <= n) by (nonlinear_arith) requires e < d, e * d == n, e >= 0 {}
        e
    }
}

/// The primes below `b`, in ascending order.
pub open spec fn primes_below(b: nat) -> Seq<u64>
    decreases b,
{
    if b == 0 {
        Seq::empty()
    } else {
        let rest = primes_below((b - 1) as nat);
        if is_prime_number((b - 1) as nat) {
            rest.push((b - 1) as u64)
        } else {
            rest
        }
    }
}

/// Strictly ascending.
pub open spec fn ascending(s: Seq<u64>) -> bool {
    forall|j: int, k: int| 0 <= j < k < s.len() ==> s[j] < s[k]
}

/// `primes_below(b)` is ascending, holds only primes below `b`, and holds each of them.
pub proof fn lemma_primes_below(b: nat)
    requires
        b <= u64::MAX as nat + 1,
    ensures
        ascending(primes_below(b)),
        forall|k: int| 0 <= k < primes_below(b).len() ==> is_prime_number(#[trigger] primes_below(b)[k] as nat)
            && primes_below(b)[k] < b,
        forall|x: u64| (x as nat) < b && is_prime_number(x as nat) ==> #[trigger] primes_below(b).contains(x),
    decreases b,
{
    if b > 0 {
        let c = (b - 1) as nat;
        lemma_primes_below(c);
        let s = primes_below(c);
        if is_prime_number(c) {
            let t = s.push(c as u64);
            assert(t[s.len() as int] == c as u64);
            assert forall|x: u64| (x as nat) < b && is_prime_number(x as nat) implies #[trigger] t.contains(x) by {
                if (x as nat) < c {
                    assert(s.contains(x));
                    let k = choose|k: int| 0 <= k < s.len() && s[k] == x;
                    assert(t[k] == x);
                } else {
                    assert(t[s.len() as int] == x);
                }
            }
        } else {
            assert forall|x: u64| (x as nat) < b && is_prime_number(x as nat) implies #[trigger] s.contains(x) by {
                assert(x as nat != c);
            }
        }
    }
}

/// For `a <= b`, `primes_below(a)` is a prefix of `primes_below(b)`.
pub proof fn lemma_primes_below_prefix(a: nat, b: nat)
    requires
        a <= b,
    ensures
        primes_below(a).len() <= primes_below(b).len(),
        primes_below(b).subrange(0, primes_below(a).len() as int) == primes_below(a),
    decreases b - a,
{
    if a < b {
        lemma_primes_below_prefix(a, (b - 1) as nat);
        let s = primes_below((b - 1) as nat);
        let n = primes_below(a).len() as int;
        if is_prime_number((b - 1) as nat) {
            assert(s.push((b - 1) as u64).subrange(0, n) =~= s.subrange(0, n));
        }
    } else {
        assert(primes_below(b).subrange(0, primes_below(a).len() as int) =~= primes_below(a));
    }
}

/// Every `n >= 2` has a prime divisor no larger than itself.
proof fn lemma_prime_factor(n: nat) -> (q: nat)
    requires
        n >= 2,
    ensures
        is_prime_number(q),
        q <= n,
        divides(q, n),
    decreases n,
{
    if is_prime_number(n) {
        vstd::arithmetic::div_mod::lemma_mod_self_0(n as int);
        n
    } else {
        let d = choose|d: nat| 2 <= d < n && #[trigger] divides(d, n);
        let q = lemma_prime_factor(d);
        lemma_divides_trans(q, d, n);
        q
    }
}

/// The odd value that slot `k` of the sieve stands for.
spec fn slot_value(k: int) -> nat {
    (2 * k + 3) as nat
}

/// Every value reached when striking out multiples of `p` from `p * p` on is composite.
proof fn lemma_struck_is_composite(p: nat, start: nat, k: nat)
    requires
        p >= 3,
        2 * start + 3 == p * p,
        start <= k,
        (k - start) % (p as int) == 0,
    ensures
        divides(p, slot_value(k as int)),
        !is_prime_number(slot_value(k as int)),
{
    let t = ((k - start) as int) / (p as int);
    vstd::arithmetic::div_mod::lemma_fundamental_div_mod((k - start) as int, p as int);
    assert(t >= 0) by (nonlinear_arith) requires t == ((k - start) as int) / (p as int), k >= start, p > 0 {}
    assert(k - start == p * t);
    let v = slot_value(k as int);
    assert(v == p * (p + 2 * t)) by (nonlinear_arith) requires v == 2 * k + 3, 2 * start + 3 == p * p, k - start == p * t {}
    vstd::arithmetic::div_mod::lemma_mod_multiples_basic(p + 2 * t, p as int);
    assert((p + 2 * t) * p == v) by (nonlinear_arith) requires v == p * (p + 2 * t) {}
    assert(p < v) by (nonlinear_arith) requires v == p * (p + 2 * t), p >= 3, t >= 0 {}
    assert(divides(p, v));
}

/// Every odd multiple of `p` that is at least `p * p` is reached when striking out
/// from `p * p` on in steps of `p` slots.
proof fn lemma_multiple_is_struck(p: nat, start: nat, k: nat)
    requires
        p >= 3,
        p % 2 == 1,
        2 * start + 3 == p * p,
        p * p <= slot_value(k as int),
        slot_value(k as int) % p == 0,
    ensures
        start <= k,
        (k - start) % (p as int) == 0,
{
    let v = slot_value(k as int);
    let m = v / p;
    vstd::arithmetic::div_mod::lemma_fundamental_div_mod(v as int, p as int);
    assert(v == p * m);
    assert(m % 2 == 1) by (nonlinear_arith) requires v == p * m, v % 2 == 1, p % 2 == 1, m >= 0 {
        if m % 2 == 0 {
            let q = m / 2;
            assert(v == 2 * (p * q));
        }
    }
    assert(m >= p) by (nonlinear_arith) requires v == p * m, p * p <= v, p > 0 {}
    let r = (m - p) / 2;
    assert(m - p == 2 * r);
    assert(k - start == p * r) by (nonlinear_arith) requires v == p * m, m - p == 2 * r, v == 2 * k + 3, 2 * start + 3 == p * p {}
    vstd::arithmetic::div_mod::lemma_mod_multiples_basic(r as int, p as int);
    assert(r * p == k - start) by (nonlinear_arith) requires k - start == p * r {}
}

/// Two multiples of `p` less than `p` apart are equal.
proof fn lemma_multiples_apart(a: int, b: int, p: int)
    requires
        p > 0,
        0 <= a <= b < a + p,
        a % p == 0,
        b % p == 0,
    ensures
        a == b,
{
    vstd::arithmetic::div_mod::lemma_fundamental_div_mod(a, p);
    vstd::arithmetic::div_mod::lemma_fundamental_div_mod(b, p);
    let qa = a / p;
    let qb = b / p;
    assert(qa == qb) by (nonlinear_arith) requires a == p * qa, b == p * qb, a <= b < a + p, p > 0 {}
}

/// Divisibility is transitive: if `k` divides `d` and `d` divides `n`, then `k` divides `n`.
proof fn lemma_divides_trans(k: nat, d: nat, n: nat)
    requires
        k > 0,
        d > 0,
        d % k == 0,
        n % d == 0,
    ensures
        n % k == 0,
{
    let a = d / k;
    let b = n / d;
    vstd::arithmetic::div_mod::lemma_fundamental_div_mod(d as int, k as int);
    vstd::arithmetic::div_mod::lemma_fundamental_div_mod(n as int, d as int);
    assert(n == k * (a * b)) by (nonlinear_arith) requires d == k * a, n == d * b {}
    vstd::arithmetic::div_mod::lemma_mod_multiples_basic((a * b) as int, k as int);
    assert((a * b) * k == n) by (nonlinear_arith) requires n == k * (a * b) {}
}

/// Determines whether `num` is prime by trial division with 6k±1 steps.
/// 0 and 1 are reported as prime, as are 2 and 3.
pub fn is_prime(num: u64) -> (r: bool)
    ensures
        r == prime_test(num as nat),
{
    if num <= 3 {
        return true;
    }
    if num % 2 == 0 || num % 3 == 0 {
        proof {
            let d: nat = if num % 2 == 0 { 2 } else { 3 };
            assert(divides(d, num as nat));
        }
        return false;
    }
    proof {
        assert forall|d: nat| 2 <= d < 5 implies !#[trigger] divides(d, num as nat) by {
            if d == 4 && divides(d, num as nat) {
                lemma_divides_trans(2, 4, num as nat);
            }
        }
    }
    let mut i: u64 = 5;
    while i <= num / i
        invariant
            num > 3,
            num % 2 != 0,
            num % 3 != 0,
            5 <= i,
            i % 6 == 5,
            forall|d: nat| 2 <= d < i ==> !#[trigger] divides(d, num as nat),
        decreases num - i,
    {
        assert(i * i <= num) by (nonlinear_arith) requires i <= num / i, i > 0 {}
        assert(i + 6 <= num) by (nonlinear_arith) requires i * i <= num, i >= 5 {}
        if num % i == 0 || num % (i + 2) == 0 {
            proof {
                let d: nat = if num % i == 0 { i as nat } else { (i + 2) as nat };
                assert(i + 2 < num) by (nonlinear_arith) requires i * i <= num, i >= 5 {}
                assert(divides(d, num as nat));
            }
            return false;
        }
        assert forall|d: nat| 2 <= d < i + 6 implies !#[trigger] divides(d, num as nat) by {
            if i <= d && divides(d, num as nat) {
                if d % 2 == 0 {
                    lemma_divides_trans(2, d, num as nat);
                } else {
                    assert(d % 3 == 0);
                    lemma_divides_trans(3, d, num as nat);
                }
            }
        }
        i = i + 6;
    }
    proof {
        assert(num < i * i) by (nonlinear_arith) requires !(i <= num / i), i > 0 {}
        assert forall|d: nat| 2 <= d < num implies !#[trigger] divides(d, num as nat) by {
            if divides(d, num as nat) {
                let s = lemma_small_divisor(num as nat, d);
                assert(s < i) by (nonlinear_arith) requires s * s <= num, num < i * i, s >= 0, i >= 0 {}
                assert(divides(s, num as nat));
            }
        }
    }
    true
}

/// Lists the primes strictly below `look_until` with an odd-only Sieve of Eratosthenes,
/// or `None` when `look_until < 2`.
pub fn list_of_primes(look_until: u64) -> (r: Option<Vec<u64>>)
    requires
        look_until <= usize::MAX,
    ensures
        look_until < 2 ==> r.is_none(),
        look_until >= 2 ==> (r matches Some(v) && v@ == primes_below(look_until as nat)),
{
    if look_until < 2 {
        return None;
    }
    if look_until == 2 {
        proof {
            assert(primes_below(2) == Seq::<u64>::empty()) by {
                reveal_with_fuel(primes_below, 3);
            }
        }
        return Some(Vec::new());
    }
    let end: usize = look_until as usize;
    // slot k stands for the odd value 2k + 3; these cover the odd values in [3, end)
    let len: usize = (end - 2) / 2;
    let mut sieve: Vec<bool> = Vec::with_capacity(len);
    let mut k: usize = 0;
    while k < len
        invariant
            k <= len,
            sieve@.len() == k,
            forall|j: int| 0 <= j < k ==> sieve@[j],
        decreases len - k,
    {
        sieve.push(true);
        k = k + 1;
    }
    let mut primes: Vec<u64> = Vec::new();
    primes.push(2);
    proof {
        assert(!is_prime_number(0));
        assert(!is_prime_number(1));
        assert(is_prime_number(2));
        assert(primes_below(3) == seq![2u64]) by {
            reveal_with_fuel(primes_below, 4);
        }
        assert(primes@ == seq![2u64]);
    }
    let mut i: usize = 0;
    while i < len
        invariant
            end == look_until,
            3 <= end,
            len == (end - 2) / 2,
            sieve@.len() == len,
            i <= len,
            primes@ == primes_below(slot_value(i as int)),
            forall|k: int| 0 <= k < len && !sieve@[k] ==> !is_prime_number(#[trigger] slot_value(k)),
            forall|k: int, d: nat|
                0 <= k < len && 3 <= d < slot_value(i as int) && d * d <= slot_value(k)
                    && #[trigger] divides(d, slot_value(k)) ==> !sieve@[k],
        decreases len - i,
    {
        let p: usize = i + i + 3;
        assert(p == slot_value(i as int));
        if sieve[i] {
            proof {
                assert forall|d: nat| 2 <= d < p implies !#[trigger] divides(d, p as nat) by {
                    if divides(d, p as nat) {
                        let s = lemma_small_divisor(p as nat, d);
                        assert(s < p) by (nonlinear_arith) requires s * s <= p, s >= 2 {}
                        assert(divides(s, slot_value(i as int)));
                    }
                }
                assert(divides(2, (p + 1) as nat));
                assert(primes_below((p + 2) as nat) == primes_below((p + 1) as nat));
                assert(primes_below((p + 1) as nat) == primes_below(p as nat).push(p as u64));
            }
            primes.push(p as u64);
            let lim: usize = (end - 1) / p;
            proof {
                vstd::arithmetic::div_mod::lemma_fundamental_div_mod((end - 1) as int, p as int);
            }
            let ghost rem: int = (end - 1) as int % (p as int);
            assert(end - 1 == p * lim + rem && 0 <= rem < p);
            if p <= lim {
                assert(p * p <= end - 1) by (nonlinear_arith) requires p <= lim, end - 1 == p * lim + rem, rem >= 0, p > 0 {}
                assert(3 * p <= end - 1) by (nonlinear_arith) requires p * p <= end - 1, p >= 3 {}
                let ghost q: int = 2 * i * i + 6 * i + 3;
                assert(p * p == 2 * q + 3) by (nonlinear_arith) requires p == 2 * i + 3, q == 2 * i * i + 6 * i + 3 {}
                let start: usize = (p * p - 3) / 2;
                assert(start == q);
                let mut j: usize = start;
                proof {
                    vstd::arithmetic::div_mod::lemma_small_mod(0, p as nat);
                }
                let ghost before = sieve@;
                while j < len
                    invariant
                        sieve@.len() == len,
                        before.len() == len,
                        len == (end - 2) / 2,
                        p == slot_value(i as int),
                        p >= 3,
                        p * p == 2 * start + 3,
                        3 * p <= end - 1,
                        start <= j,
                        (j - start) % (p as int) == 0,
                        forall|k: int| 0 <= k < len && before[k] ==> #[trigger] sieve@[k] || (start <= k < j && (k - start) % (p as int) == 0),
                        forall|k: int| 0 <= k < len && !before[k] ==> !#[trigger] sieve@[k],
                        forall|k: int| 0 <= k < len && start <= k < j && (k - start) % (p as int) == 0 ==> !#[trigger] sieve@[k],
                    decreases len + p - j,
                {
                    sieve.set(j, false);
                    proof {
                        vstd::arithmetic::div_mod::lemma_mod_add_multiples_vanish((j - start) as int, p as int);
                        assert forall|k: int| 0 <= k < len && start <= k < j + p && (k - start) % (p as int) == 0
                            implies !#[trigger] sieve@[k] by {
                            if k > j {
                                lemma_multiples_apart(j - start, k - start, p as int);
                            }
                        }
                        assert forall|k: int| 0 <= k < len && before[k] implies #[trigger] sieve@[k]
                            || (start <= k < j + p && (k - start) % (p as int) == 0) by {
                            if k == j {
                            }
                        }
                    }
                    j = j + p;
                }
                proof {
                    assert forall|k: int| 0 <= k < len && !sieve@[k] implies !is_prime_number(#[trigger] slot_value(k)) by {
                        if before[k] {
                            lemma_struck_is_composite(p as nat, start as nat, k as nat);
                        }
                    }
                    assert forall|k: int, d: nat|
                        0 <= k < len && 3 <= d < slot_value(i + 1) && d * d <= slot_value(k)
                            && #[trigger] divides(d, slot_value(k)) implies !sieve@[k] by {
                        if d == p {
                            lemma_multiple_is_struck(p as nat, start as nat, k as nat);
                        } else if d == p + 1 {
                            lemma_divides_trans(2, d, slot_value(k));
                        } else {
                            assert(!before[k]);
                        }
                    }
                }
            } else {
                proof {
                    assert forall|k: int, d: nat|
                        0 <= k < len && 3 <= d < slot_value(i + 1) && d * d <= slot_value(k)
                            && #[trigger] divides(d, slot_value(k)) implies !sieve@[k] by {
                        if d == p {
                            assert(end - 1 < p * p) by (nonlinear_arith) requires lim < p, end - 1 == p * lim + rem, rem < p, p > 0 {}
                        } else if d == p + 1 {
                            lemma_divides_trans(2, d, slot_value(k));
                        }
                    }
                }
            }
        } else {
            proof {
                assert(!is_prime_number(slot_value(i as int)));
                let e = choose|e: nat| 2 <= e < p && #[trigger] divides(e, p as nat);
                assert(e != 2);
                assert forall|k: int, d: nat|
                    0 <= k < len && 3 <= d < slot_value(i + 1) && d * d <= slot_value(k)
                        && #[trigger] divides(d, slot_value(k)) implies !sieve@[k] by {
                    if d == p {
                        lemma_divides_trans(e, p as nat, slot_value(k));
                        assert(e * e <= slot_value(k)) by (nonlinear_arith) requires e < d, d * d <= slot_value(k), e >= 0 {}
                        assert(divides(e, slot_value(k)));
                    } else if d == p + 1 {
                        lemma_divides_trans(2, d, slot_value(k));
                    }
                }
                assert(divides(2, (p + 1) as nat));
                assert(primes_below((p + 2) as nat) == primes_below((p + 1) as nat));
                assert(primes_below((p + 1) as nat) == primes_below(p as nat));
            }
        }
        i = i + 1;
    }
    proof {
        assert(primes_below(slot_value(len as int)) == primes_below(end as nat)) by {
            if slot_value(len as int) != end as nat {
                assert(slot_value(len as int) == end + 1);
                assert(!is_prime_number(end as nat)) by {
                    assert(divides(2, end as nat));
                }
            }
        }
    }
    Some(primes)
}

/// The sieve agrees with the primality test: for every bound `b >= 2`, `primes_below(b)`
/// (what `list_of_primes(b)` returns) is strictly ascending and holds exactly the integers in
/// `[2, b)` that `is_prime` accepts.
pub proof fn lemma_sieve_matches_tester(b: u64)
    requires
        b >= 2,
    ensures
        ascending(primes_below(b as nat)),
        forall|x: u64| #[trigger] primes_below(b as nat).contains(x) <==> (2 <= x < b && prime_test(x as nat)),
{
    lemma_primes_below(b as nat);
    assert forall|x: u64| #[trigger] primes_below(b as nat).contains(x) implies (2 <= x < b && prime_test(x as nat)) by {
        let k = choose|k: int| 0 <= k < primes_below(b as nat).len() && primes_below(b as nat)[k] == x;
        assert(is_prime_number(primes_below(b as nat)[k] as nat));
    }
}

/// The first `n` primes, as `find_number_of_primes(n)` returns them, are strictly ascending,
/// each prime, and equal the first `n` elements of `primes_below(b)` (what
/// `list_of_primes(b)` returns) for every bound `b` below which at least `n` primes lie.
pub proof fn lemma_first_primes_agree_with_sieve(v: Seq<u64>, n: nat, b: u64)
    requires
        n >= 1,
        v.len() == n,
        v == primes_below(v.last() as nat + 1),
        primes_below(b as nat).len() >= n,
    ensures
        ascending(v),
        forall|k: int| 0 <= k < n ==> is_prime_number(#[trigger] v[k] as nat),
        primes_below(b as nat).take(n as int) == v,
{
    let l = v.last() as nat + 1;
    lemma_primes_below(l);
    if l <= b as nat {
        lemma_primes_below_prefix(l, b as nat);
    } else {
        lemma_primes_below_prefix(b as nat, l);
        assert(primes_below(b as nat) == v);
    }
    assert(primes_below(b as nat).take(n as int) =~= v);
}

/// Two runs of `find_number_of_primes` with the same count give the same list: a list of
/// `n` elements that is all the primes up to its last element is unique.
pub proof fn lemma_first_primes_unique(v: Seq<u64>, w: Seq<u64>, n: nat)
    requires
        n >= 1,
        v.len() == n,
        w.len() == n,
        v == primes_below(v.last() as nat + 1),
        w == primes_below(w.last() as nat + 1),
    ensures
        v == w,
{
    let a = v.last() as nat + 1;
    let b = w.last() as nat + 1;
    if a <= b {
        lemma_primes_below_prefix(a, b);
    } else {
        lemma_primes_below_prefix(b, a);
    }
}

/// Whether some element of `primes` divides `num`.
fn has_divisor_among(num: u64, primes: &Vec<u64>) -> (r: bool)
    requires
        forall|k: int| 0 <= k < primes@.len() ==> #[trigger] primes@[k] > 0,
    ensures
        r == exists|k: int| 0 <= k < primes@.len() && num % #[trigger] primes@[k] == 0,
{
    let mut k: usize = 0;
    while k < primes.len()
        invariant
            k <= primes@.len(),
            forall|k: int| 0 <= k < primes@.len() ==> #[trigger] primes@[k] > 0,
            forall|j: int| 0 <= j < k ==> num % #[trigger] primes@[j] != 0,
        decreases primes@.len() - k,
    {
        if num % primes[k] == 0 {
            return true;
        }
        k = k + 1;
    }
    false
}

/// Finds the first `num_of_primes` primes by testing each odd candidate against the
/// primes found so far. Returns `None` when `num_of_primes` is 0, and also when fewer
/// than `num_of_primes` primes fit in a `u64`.
pub fn find_number_of_primes(num_of_primes: usize) -> (r: Option<Vec<u64>>)
    ensures
        num_of_primes == 0 ==> r.is_none(),
        num_of_primes > 0 ==> (r.is_none() <==> primes_below(u64::MAX as nat + 1).len() < num_of_primes),
        r matches Some(v) ==> v@.len() == num_of_primes && v@ == primes_below(v@.last() as nat + 1),
{
    if num_of_primes == 0 {
        return None;
    }
    let mut primes: Vec<u64> = Vec::new();
    primes.push(2);
    proof {
        assert(!is_prime_number(0));
        assert(!is_prime_number(1));
        assert(is_prime_number(2));
        assert(primes_below(3) == seq![2u64]) by {
            reveal_with_fuel(primes_below, 4);
        }
        assert(primes@ == seq![2u64]);
    }
    if num_of_primes == 1 {
        proof {
            lemma_primes_below_prefix(3, u64::MAX as nat + 1);
        }
        return Some(primes);
    }
    let mut num: u64 = 3;
    loop
        invariant
            3 <= num,
            num % 2 == 1,
            primes@ == primes_below(num as nat),
            1 <= primes@.len() < num_of_primes,
        decreases u64::MAX - num,
    {
        proof {
            lemma_primes_below(num as nat);
        }
        let divisible = has_divisor_among(num, &primes);
        proof {
            if divisible {
                let k = choose|k: int| 0 <= k < primes@.len() && num % #[trigger] primes@[k] == 0;
                assert(divides(primes@[k] as nat, num as nat));
            } else if !is_prime_number(num as nat) {
                let d = choose|d: nat| 2 <= d < num && #[trigger] divides(d, num as nat);
                let q = lemma_prime_factor(d);
                lemma_divides_trans(q, d, num as nat);
                assert(primes@.contains(q as u64));
                let k = choose|k: int| 0 <= k < primes@.len() && primes@[k] == q as u64;
                assert(num % primes@[k] == 0);
            }
        }
        if !divisible {
            primes.push(num);
        }
        assert(primes@ == primes_below(num as nat + 1));
        if primes.len() >= num_of_primes {
            proof {
                lemma_primes_below_prefix(num as nat + 1, u64::MAX as nat + 1);
            }
            return Some(primes);
        }
        if num == u64::MAX {
            return None;
        }
        proof {
            assert(divides(2, num as nat + 1));
            assert(primes_below(num as nat + 2) == primes_below(num as nat + 1));
        }
        num = num + 2;
    }
}

} // verus!
