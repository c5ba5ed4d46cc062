//! Divisors and factorials over any integer type that implements [`Integral`].
use vstd::prelude::*;

verus! {

/// The operations that the divisor and factorial routines need from an integer type,
/// each specified over the mathematical value of its operands.
pub trait Integral: Sized {
    /// The mathematical value.
    spec fn value(&self) -> int;

    /// Whether `v` is representable in this type.
    spec fn fits(v: int) -> bool;

    /// The representable values form an interval.
    proof fn lemma_fits_interval(a: int, b: int, c: int)
        requires
            Self::fits(a),
            Self::fits(c),
            a <= b <= c,
        ensures
            Self::fits(b),
    ;

    /// Every value of the type, and the value one, are representable.
    proof fn lemma_value_fits(&self)
        ensures
            Self::fits(self.value()),
            Self::fits(1),
    ;

    fn one() -> (r: Self)
        ensures
            r.value() == 1,
    ;

    fn is_zero(&self) -> (r: bool)
        ensures
            r == (self.value() == 0),
    ;

    fn less_than(&self, o: &Self) -> (r: bool)
        ensures
            r == (self.value() < o.value()),
    ;

    fn plus(&self, o: &Self) -> (r: Self)
        requires
            Self::fits(self.value() + o.value()),
        ensures
            r.value() == self.value() + o.value(),
    ;

    fn times(&self, o: &Self) -> (r: Self)
        requires
            Self::fits(self.value() * o.value()),
        ensures
            r.value() == self.value() * o.value(),
    ;

    /// Quotient of non-negative by positive values.
    fn quot(&self, o: &Self) -> (r: Self)
        requires
            self.value() >= 0,
            o.value() > 0,
        ensures
            r.value() == self.value() / o.value(),
    ;

    /// Remainder of non-negative by positive values.
    fn modulo(&self, o: &Self) -> (r: Self)
        requires
            self.value() >= 0,
            o.value() > 0,
        ensures
            r.value() == self.value() % o.value(),
    ;
}

/// `n!`, with `0! == 1! == 1`.
pub open spec fn fact(n: int) -> int
    decreases n,
{
    if n <= 1 {
        1
    } else {
        n * fact(n - 1)
    }
}

/// `d` is a positive divisor of `n`.
pub open spec fn is_divisor(d: int, n: int) -> bool {
    1 <= d && n % d == 0
}

proof fn lemma_fact_positive(n: int)
    ensures
        fact(n) >= 1,
    decreases n,
{
    if n > 1 {
        lemma_fact_positive(n - 1);
        assert(n * fact(n - 1) >= 1) by (nonlinear_arith) requires n > 1, fact(n - 1) >= 1 {}
    }
}

proof fn lemma_fact_monotone(a: int, b: int)
    requires
        1 <= a <= b,
    ensures
        1 <= fact(a) <= fact(b),
    decreases b - a,
{
    lemma_fact_positive(a);
    if a < b {
        lemma_fact_monotone(a, b - 1);
        assert(fact(b - 1) <= b * fact(b - 1)) by (nonlinear_arith) requires b >= 2, fact(b - 1) >= 1 {}
    }
}

/// Computes `num!` iteratively. The caller supplies a non-negative `num` whose factorial
/// the type can represent.
pub fn factorial<T: Integral>(num: T) -> (r: T)
    requires
        num.value() >= 0,
        T::fits(fact(num.value())),
    ensures
        r.value() == fact(num.value()),
{
    let one = T::one();
    let mut acc = T::one();
    let mut i = T::one();
    if num.less_than(&one) {
        return acc;
    }
    proof {
        num.lemma_value_fits();
    }
    while i.less_than(&num)
        invariant
            one.value() == 1,
            1 <= i.value() <= num.value(),
            acc.value() == fact(i.value()),
            T::fits(1),
            T::fits(num.value()),
            T::fits(fact(num.value())),
        decreases num.value() - i.value(),
    {
        proof {
            T::lemma_fits_interval(1, i.value() + 1, num.value());
            lemma_fact_monotone(i.value() + 1, num.value());
            T::lemma_fits_interval(1, fact(i.value() + 1), fact(num.value()));
            assert(fact(i.value() + 1) == (i.value() + 1) * fact(i.value()));
            assert(fact(i.value()) * (i.value() + 1) == (i.value() + 1) * fact(i.value())) by (nonlinear_arith) {}
        }
        i = i.plus(&one);
        acc = acc.times(&i);
    }
    acc
}

/// Some element of `r` has value `v`.
pub open spec fn holds_value<T: Integral>(r: Seq<T>, v: int) -> bool {
    exists|j: int| 0 <= j < r.len() && r[j].value() == v
}

/// `r` lists the positive divisors of `n`, each once, in strictly ascending order of value.
pub open spec fn divisor_list<T: Integral>(r: Seq<T>, n: int) -> bool {
    &&& forall|j: int, k: int| 0 <= j < k < r.len() ==> r[j].value() < r[k].value()
    &&& forall|k: int| 0 <= k < r.len() ==> is_divisor(#[trigger] r[k].value(), n)
    &&& forall|d: int| #[trigger] is_divisor(d, n) ==> holds_value(r, d)
}

proof fn lemma_ascending_distinct<T: Integral>(r: Seq<T>)
    requires
        forall|j: int, k: int| 0 <= j < k < r.len() ==> r[j].value() < r[k].value(),
    ensures
        forall|j: int, k: int| 0 <= j < r.len() && 0 <= k < r.len() && j != k ==> r[j].value() != r[k].value(),
{
    assert forall|j: int, k: int| 0 <= j < r.len() && 0 <= k < r.len() && j != k implies r[j].value() != r[k].value() by {
        if j > k {
            assert(r[k].value() < r[j].value());
        }
    }
}

/// A divisor list of `n >= 1` is closed under taking cofactors: with `d` it also holds
/// `n / d`, and no value occurs twice.
pub proof fn lemma_divisor_list_symmetric<T: Integral>(r: Seq<T>, n: int)
    requires
        n >= 1,
        divisor_list(r, n),
    ensures
        forall|k: int| 0 <= k < r.len() ==> holds_value(r, n / (#[trigger] r[k]).value()),
        forall|j: int, k: int| 0 <= j < r.len() && 0 <= k < r.len() && j != k ==> r[j].value() != r[k].value(),
{
    assert forall|k: int| 0 <= k < r.len() implies holds_value(r, n / (#[trigger] r[k]).value()) by {
        assert(is_divisor(r[k].value(), n));
        let e = lemma_quotient(n, r[k].value());
        assert(is_divisor(e, n));
    }
    lemma_ascending_distinct(r);
}

/// A divisor list of `n` is unique up to the values it holds: two runs of
/// `factors_for_number` on the same number give lists of the same length with equal values
/// at each position.
pub proof fn lemma_divisor_list_unique<T: Integral>(r: Seq<T>, s: Seq<T>, n: int)
    requires
        n >= 1,
        divisor_list(r, n),
        divisor_list(s, n),
    ensures
        r.len() == s.len(),
        forall|k: int| 0 <= k < r.len() ==> (#[trigger] r[k]).value() == s[k].value(),
{
    lemma_divisor_list_prefix(r, s, n, r.len() as int);
    lemma_divisor_list_prefix(s, r, n, s.len() as int);
}

/// The first `k` positions of `r` exist in `s` and hold the same values there.
proof fn lemma_divisor_list_prefix<T: Integral>(r: Seq<T>, s: Seq<T>, n: int, k: int)
    requires
        n >= 1,
        divisor_list(r, n),
        divisor_list(s, n),
        0 <= k <= r.len(),
    ensures
        k <= s.len(),
        forall|m: int| 0 <= m < k ==> (#[trigger] r[m]).value() == s[m].value(),
    decreases k,
{
    if k > 0 {
        let k1 = k - 1;
        lemma_divisor_list_prefix(r, s, n, k1);
        let v = r[k1].value();
        assert(is_divisor(v, n));
        let j = choose|j: int| 0 <= j < s.len() && s[j].value() == v;
        if j < k1 {
            assert(r[j].value() < r[k1].value());
        }
        let w = s[k1].value();
        assert(is_divisor(w, n));
        let i = choose|i: int| 0 <= i < r.len() && r[i].value() == w;
        if i < k1 {
            assert(s[i].value() < s[k1].value());
        }
        if j > k1 {
            assert(s[k1].value() < s[j].value());
            assert(r[k1].value() < r[i].value());
        }
    }
}

/// For `d * e == n`, how the sizes of `d`, `e` and a bound `c` relate.
proof fn lemma_pair(n: int, d: int, e: int, c: int)
    requires
        n >= 1,
        d >= 1,
        e >= 1,
        c >= 1,
        d * e == n,
    ensures
        c * c <= n && d <= c ==> e >= c,
        c * c > n && d >= c ==> d * d > n && e < c,
        d * d <= n ==> d <= e,
        e > d ==> e * e > n,
        d < c ==> n < c * e,
{
    assert(c * c <= n && d <= c ==> e >= c) by (nonlinear_arith) requires d * e == n, e >= 1, c >= 1 {}
    assert(c * c > n && d >= c ==> d * d > n) by (nonlinear_arith) requires d * e == n, e >= 1, c >= 1 {}
    assert(c * c > n && d >= c ==> e < c) by (nonlinear_arith) requires d * e == n, e >= 1, c >= 1 {}
    assert(d * d <= n ==> d <= e) by (nonlinear_arith) requires d * e == n, e >= 1, d >= 1 {}
    assert(e > d ==> e * e > n) by (nonlinear_arith) requires d * e == n, e >= 1, d >= 1 {}
    assert(d < c ==> n < c * e) by (nonlinear_arith) requires d * e == n, e >= 1 {}
}

/// The cofactor of a divisor is a divisor, and the product of the two is `n`.
proof fn lemma_quotient(n: int, d: int) -> (e: int)
    requires
        is_divisor(d, n),
        n >= 1,
    ensures
        e == n / d,
        e >= 1,
        d * e == n,
        e * d == n,
        n / e == d,
        is_divisor(e, n),
{
    vstd::arithmetic::div_mod::lemma_fundamental_div_mod(n, d);
    let e = n / d;
    assert(e >= 1) by (nonlinear_arith) requires n == d * e, n >= 1, d >= 1 {}
    vstd::arithmetic::div_mod::lemma_mod_multiples_basic(d, e);
    assert(d * e == e * d) by (nonlinear_arith) {}
    vstd::arithmetic::div_mod::lemma_div_multiples_vanish(d, e);
    e
}

/// Two numbers with the same product against a positive factor are equal.
proof fn lemma_cancel(a: int, b: int, c: int)
    requires
        c >= 1,
        a * c == b * c,
    ensures
        a == b,
{
    assert(a == b) by (nonlinear_arith) requires c >= 1, a * c == b * c {}
}

/// Lists the positive divisors of `number` in ascending order, by trial division up to its
/// square root; each divisor found below the root is paired with its cofactor.
pub fn factors_for_number<T: Integral>(number: T) -> (r: Vec<T>)
    requires
        number.value() >= 1,
    ensures
        divisor_list(r@, number.value()),
{
    let ghost n = number.value();
    let one = T::one();
    let mut head: Vec<T> = Vec::new();
    head.push(T::one());
    let mut tail: Vec<T> = Vec::new();
    proof {
        number.lemma_value_fits();
        assert(n % 1 == 0);
    }
    if !one.less_than(&number) {
        assert forall|d: int| #[trigger] is_divisor(d, n) implies exists|k: int| 0 <= k < head@.len() && head@[k].value() == d by {
            assert(d <= n) by (nonlinear_arith) requires n >= 1, d >= 1, n % d == 0 {}
            assert(head@[0].value() == d);
        }
        return head;
    }
    proof {
        T::lemma_fits_interval(1, 2, n);
    }
    let mut current = one.plus(&one);
    tail.push(number.quot(&one));
    proof {
        assert forall|d: int| #[trigger] is_divisor(d, n) && d < current.value()
            implies exists|k: int| 0 <= k < head@.len() && head@[k].value() == d by {
            assert(head@[0].value() == d);
        }
        vstd::arithmetic::div_mod::lemma_div_by_self(n);
        assert(n * n > n) by (nonlinear_arith) requires n >= 2 {}
        assert(is_divisor(n, n));
        assert forall|e: int| #[trigger] is_divisor(e, n) && e * e > n && n / e < current.value()
            implies exists|k: int| 0 <= k < tail@.len() && tail@[k].value() == e by {
            let u = lemma_quotient(n, e);
            assert(tail@[0].value() == e);
        }
    }
    // head: every divisor below `current`, ascending;
    // tail: every divisor whose square exceeds `number` and whose cofactor is below `current`, descending
    while !number.quot(&current).less_than(&current)
        invariant
            n == number.value(),
            n >= 2,
            one.value() == 1,
            T::fits(1),
            T::fits(n),
            2 <= current.value(),
            (current.value() - 1) * (current.value() - 1) <= n,
            forall|j: int, k: int| 0 <= j < k < head@.len() ==> head@[j].value() < head@[k].value(),
            forall|k: int| 0 <= k < head@.len() ==> is_divisor(#[trigger] head@[k].value(), n)
                && head@[k].value() < current.value(),
            forall|d: int| #[trigger] is_divisor(d, n) && d < current.value()
                ==> exists|k: int| 0 <= k < head@.len() && head@[k].value() == d,
            forall|j: int, k: int| 0 <= j < k < tail@.len() ==> tail@[j].value() > tail@[k].value(),
            forall|k: int| 0 <= k < tail@.len() ==> is_divisor(#[trigger] tail@[k].value(), n)
                && tail@[k].value() * tail@[k].value() > n && n / tail@[k].value() < current.value(),
            forall|e: int| #[trigger] is_divisor(e, n) && e * e > n && n / e < current.value()
                ==> exists|k: int| 0 <= k < tail@.len() && tail@[k].value() == e,
        decreases n - current.value(),
    {
        let ghost c = current.value();
        proof {
            vstd::arithmetic::div_mod::lemma_fundamental_div_mod(n, c);
            assert(c * c <= n) by (nonlinear_arith) requires c <= n / c, n == c * (n / c) + n % c, c >= 1, n % c >= 0 {}
            assert(c + 1 <= n) by (nonlinear_arith) requires c * c <= n, c >= 2 {}
            T::lemma_fits_interval(1, c + 1, n);
        }
        let next = current.plus(&one);
        if number.modulo(&current).is_zero() {
            let pair = number.quot(&current);
            let ghost e = pair.value();
            let ghost old_tail = tail@;
            proof {
                lemma_quotient(n, c);
                lemma_pair(n, c, e, c);
                assert forall|k: int| 0 <= k < tail@.len() implies tail@[k].value() > e by {
                    let t = tail@[k].value();
                    let u = lemma_quotient(n, t);
                    lemma_pair(n, u, t, c);
                    assert(c * e < c * t);
                    assert(e < t) by (nonlinear_arith) requires c * e < c * t, c >= 1 {}
                }
            }
            if pair.less_than(&current) || current.less_than(&pair) {
                tail.push(pair);
            }
            proof {
                assert forall|e2: int| #[trigger] is_divisor(e2, n) && e2 * e2 > n && n / e2 < c + 1
                    implies exists|k: int| 0 <= k < tail@.len() && tail@[k].value() == e2 by {
                    if n / e2 == c {
                        let u = lemma_quotient(n, e2);
                        lemma_cancel(e2, e, c);
                        assert(tail@[tail@.len() - 1].value() == e2);
                    } else {
                        let k = choose|k: int| 0 <= k < old_tail.len() && old_tail[k].value() == e2;
                        assert(tail@[k].value() == e2);
                    }
                }
            }
            let ghost old_head = head@;
            head.push(current);
            proof {
                assert forall|d: int| #[trigger] is_divisor(d, n) && d < c + 1
                    implies exists|k: int| 0 <= k < head@.len() && head@[k].value() == d by {
                    if d == c {
                        assert(head@[head@.len() - 1].value() == d);
                    } else {
                        let k = choose|k: int| 0 <= k < old_head.len() && old_head[k].value() == d;
                        assert(head@[k].value() == d);
                    }
                }
            }
        } else {
            proof {
                assert forall|e2: int| #[trigger] is_divisor(e2, n) && e2 * e2 > n && n / e2 < c + 1
                    implies n / e2 < c by {
                    if n / e2 == c {
                        let u = lemma_quotient(n, e2);
                    }
                }
            }
        }
        current = next;
    }
    let ghost c = current.value();
    proof {
        vstd::arithmetic::div_mod::lemma_fundamental_div_mod(n, c);
        assert(c * c > n) by (nonlinear_arith) requires n / c < c, n == c * (n / c) + n % c, c >= 1, n % c < c {}
        assert forall|j: int, k: int| 0 <= j < head@.len() && 0 <= k < tail@.len()
            implies head@[j].value() < tail@[k].value() by {
            let d = head@[j].value();
            let t = tail@[k].value();
            assert(d * d <= n) by (nonlinear_arith) requires 1 <= d <= c - 1, (c - 1) * (c - 1) <= n {}
            assert(d < t) by (nonlinear_arith) requires d * d <= n, t * t > n, d >= 1, t >= 1 {}
        }
        assert forall|d: int| #[trigger] is_divisor(d, n) implies
            (exists|k: int| 0 <= k < head@.len() && head@[k].value() == d)
            || (exists|k: int| 0 <= k < tail@.len() && tail@[k].value() == d) by {
            if d >= c {
                let u = lemma_quotient(n, d);
                lemma_pair(n, d, u, c);
                assert(is_divisor(d, n) && d * d > n && n / d < c);
            }
        }
    }
    while tail.len() > 0
        invariant
            n == number.value(),
            forall|j: int, k: int| 0 <= j < k < head@.len() ==> head@[j].value() < head@[k].value(),
            forall|j: int, k: int| 0 <= j < k < tail@.len() ==> tail@[j].value() > tail@[k].value(),
            forall|j: int, k: int| 0 <= j < head@.len() && 0 <= k < tail@.len()
                ==> head@[j].value() < tail@[k].value(),
            forall|k: int| 0 <= k < head@.len() ==> is_divisor(#[trigger] head@[k].value(), n),
            forall|k: int| 0 <= k < tail@.len() ==> is_divisor(#[trigger] tail@[k].value(), n),
            forall|d: int| #[trigger] is_divisor(d, n) ==>
                (exists|k: int| 0 <= k < head@.len() && head@[k].value() == d)
                || (exists|k: int| 0 <= k < tail@.len() && tail@[k].value() == d),
        decreases tail@.len(),
    {
        let ghost old_head = head@;
        let ghost old_tail = tail@;
        let e = tail.pop().unwrap();
        head.push(e);
        proof {
            assert(old_tail[old_tail.len() - 1] == e);
            assert(tail@ == old_tail.drop_last());
            assert forall|d: int| #[trigger] is_divisor(d, n) implies
                (exists|k: int| 0 <= k < head@.len() && head@[k].value() == d)
                || (exists|k: int| 0 <= k < tail@.len() && tail@[k].value() == d) by {
                if exists|k: int| 0 <= k < old_head.len() && old_head[k].value() == d {
                    let k = choose|k: int| 0 <= k < old_head.len() && old_head[k].value() == d;
                    assert(head@[k].value() == d);
                } else {
                    let k = choose|k: int| 0 <= k < old_tail.len() && old_tail[k].value() == d;
                    if k == old_tail.len() - 1 {
                        assert(head@[head@.len() - 1].value() == d);
                    } else {
                        assert(tail@[k].value() == d);
                    }
                }
            }
        }
    }
    head
}

impl Integral for u32 {
    open spec fn value(&self) -> int {
        *self as int
    }

    open spec fn fits(v: int) -> bool {
        u32::MIN <= v <= u32::MAX
    }

    proof fn lemma_fits_interval(a: int, b: int, c: int) {
    }

    proof fn lemma_value_fits(&self) {
    }

    fn one() -> (r: Self) {
        1
    }

    fn is_zero(&self) -> (r: bool) {
        *self == 0
    }

    fn less_than(&self, o: &Self) -> (r: bool) {
        *self < *o
    }

    fn plus(&self, o: &Self) -> (r: Self) {
        *self + *o
    }

    fn times(&self, o: &Self) -> (r: Self) {
        *self * *o
    }

    fn quot(&self, o: &Self) -> (r: Self) {
        *self / *o
    }

    fn modulo(&self, o: &Self) -> (r: Self) {
        *self % *o
    }
}

impl Integral for u64 {
    open spec fn value(&self) -> int {
        *self as int
    }

    open spec fn fits(v: int) -> bool {
        u64::MIN <= v <= u64::MAX
    }

    proof fn lemma_fits_interval(a: int, b: int, c: int) {
    }

    proof fn lemma_value_fits(&self) {
    }

    fn one() -> (r: Self) {
        1
    }

    fn is_zero(&self) -> (r: bool) {
        *self == 0
    }

    fn less_than(&self, o: &Self) -> (r: bool) {
        *self < *o
    }

    fn plus(&self, o: &Self) -> (r: Self) {
        *self + *o
    }

    fn times(&self, o: &Self) -> (r: Self) {
        *self * *o
    }

    fn quot(&self, o: &Self) -> (r: Self) {
        *self / *o
    }

    fn modulo(&self, o: &Self) -> (r: Self) {
        *self % *o
    }
}

impl Integral for i32 {
    open spec fn value(&self) -> int {
        *self as int
    }

    open spec fn fits(v: int) -> bool {
        i32::MIN <= v <= i32::MAX
    }

    proof fn lemma_fits_interval(a: int, b: int, c: int) {
    }

    proof fn lemma_value_fits(&self) {
    }

    fn one() -> (r: Self) {
        1
    }

    fn is_zero(&self) -> (r: bool) {
        *self == 0
    }

    fn less_than(&self, o: &Self) -> (r: bool) {
        *self < *o
    }

    fn plus(&self, o: &Self) -> (r: Self) {
        *self + *o
    }

    fn times(&self, o: &Self) -> (r: Self) {
        *self * *o
    }

    fn quot(&self, o: &Self) -> (r: Self) {
        *self / *o
    }

    fn modulo(&self, o: &Self) -> (r: Self) {
        *self % *o
    }
}

impl Integral for i64 {
    open spec fn value(&self) -> int {
        *self as int
    }

    open spec fn fits(v: int) -> bool {
        i64::MIN <= v <= i64::MAX
    }

    proof fn lemma_fits_interval(a: int, b: int, c: int) {
    }

    proof fn lemma_value_fits(&self) {
    }

    fn one() -> (r: Self) {
        1
    }

    fn is_zero(&self) -> (r: bool) {
        *self == 0
    }

    fn less_than(&self, o: &Self) -> (r: bool) {
        *self < *o
    }

    fn plus(&self, o: &Self) -> (r: Self) {
        *self + *o
    }

    fn times(&self, o: &Self) -> (r: Self) {
        *self * *o
    }

    fn quot(&self, o: &Self) -> (r: Self) {
        *self / *o
    }

    fn modulo(&self, o: &Self) -> (r: Self) {
        *self % *o
    }
}

} // verus!
