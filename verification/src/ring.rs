//! Exact arithmetic: commutative rings, finite sums and powers in them.
use vstd::prelude::*;

verus! {

/// The operations of a commutative ring with one.
#[verifier::reject_recursive_types(A)]
pub struct Ring<A> {
    pub zero: A,
    pub one: A,
    pub sum: spec_fn(A, A) -> A,
    pub product: spec_fn(A, A) -> A,
    pub negation: spec_fn(A) -> A,
}

impl<A> Ring<A> {
    /// `a + b`.
    pub open spec fn plus(self, a: A, b: A) -> A {
        (self.sum)(a, b)
    }

    /// `a * b`.
    pub open spec fn times(self, a: A, b: A) -> A {
        (self.product)(a, b)
    }

    /// `-a`.
    pub open spec fn minus(self, a: A) -> A {
        (self.negation)(a)
    }

    /// The operations satisfy the laws of a commutative ring.
    #[verifier::opaque]
    pub open spec fn lawful(self) -> bool {
        &&& forall|a: A, b: A| #[trigger] self.plus(a, b) == self.plus(b, a)
        &&& forall|a: A, b: A, c: A| #[trigger]
            self.plus(self.plus(a, b), c) == self.plus(a, self.plus(b, c))
        &&& forall|a: A| #[trigger] self.plus(a, self.zero) == a
        &&& forall|a: A| self.plus(a, #[trigger] self.minus(a)) == self.zero
        &&& forall|a: A, b: A| #[trigger] self.times(a, b) == self.times(b, a)
        &&& forall|a: A, b: A, c: A| #[trigger]
            self.times(self.times(a, b), c) == self.times(a, self.times(b, c))
        &&& forall|a: A| #[trigger] self.times(a, self.one) == a
        &&& forall|a: A, b: A, c: A| #[trigger]
            self.times(a, self.plus(b, c)) == self.plus(self.times(a, b), self.times(a, c))
    }

    /// `a` to the power `n`.
    pub open spec fn power(self, a: A, n: nat) -> A
        decreases n,
    {
        if n == 0 {
            self.one
        } else {
            self.times(self.power(a, (n - 1) as nat), a)
        }
    }

    /// `f(0) + f(1) + ... + f(n - 1)`.
    pub open spec fn total(self, n: nat, f: spec_fn(int) -> A) -> A
        decreases n,
    {
        if n == 0 {
            self.zero
        } else {
            self.plus(self.total((n - 1) as nat, f), f(n - 1))
        }
    }

    /// `a + a + ... + a`, with `n` terms.
    pub open spec fn multiple(self, n: nat, a: A) -> A
        decreases n,
    {
        if n == 0 {
            self.zero
        } else {
            self.plus(self.multiple((n - 1) as nat, a), a)
        }
    }

    pub(crate) proof fn plus_commutes(self, a: A, b: A)
        requires
            self.lawful(),
        ensures
            self.plus(a, b) == self.plus(b, a),
    {
        reveal(Ring::lawful);
    }

    pub(crate) proof fn plus_associates(self, a: A, b: A, c: A)
        requires
            self.lawful(),
        ensures
            self.plus(self.plus(a, b), c) == self.plus(a, self.plus(b, c)),
    {
        reveal(Ring::lawful);
    }

    pub(crate) proof fn plus_zero(self, a: A)
        requires
            self.lawful(),
        ensures
            self.plus(a, self.zero) == a,
            self.plus(self.zero, a) == a,
    {
        reveal(Ring::lawful);
        self.plus_commutes(self.zero, a);
    }

    pub(crate) proof fn plus_minus(self, a: A)
        requires
            self.lawful(),
        ensures
            self.plus(a, self.minus(a)) == self.zero,
            self.plus(self.minus(a), a) == self.zero,
    {
        reveal(Ring::lawful);
        self.plus_commutes(self.minus(a), a);
    }

    pub(crate) proof fn times_commutes(self, a: A, b: A)
        requires
            self.lawful(),
        ensures
            self.times(a, b) == self.times(b, a),
    {
        reveal(Ring::lawful);
    }

    pub(crate) proof fn times_associates(self, a: A, b: A, c: A)
        requires
            self.lawful(),
        ensures
            self.times(self.times(a, b), c) == self.times(a, self.times(b, c)),
    {
        reveal(Ring::lawful);
    }

    pub(crate) proof fn times_one(self, a: A)
        requires
            self.lawful(),
        ensures
            self.times(a, self.one) == a,
            self.times(self.one, a) == a,
    {
        reveal(Ring::lawful);
        self.times_commutes(self.one, a);
    }

    pub(crate) proof fn times_distributes(self, a: A, b: A, c: A)
        requires
            self.lawful(),
        ensures
            self.times(a, self.plus(b, c)) == self.plus(self.times(a, b), self.times(a, c)),
            self.times(self.plus(b, c), a) == self.plus(self.times(b, a), self.times(c, a)),
    {
        reveal(Ring::lawful);
        self.times_commutes(a, self.plus(b, c));
        self.times_commutes(a, b);
        self.times_commutes(a, c);
    }

    /// What is added to both sides can be taken away.
    pub(crate) proof fn plus_cancels(self, a: A, b: A, c: A)
        requires
            self.lawful(),
            self.plus(a, c) == self.plus(b, c),
        ensures
            a == b,
    {
        self.plus_associates(a, c, self.minus(c));
        self.plus_associates(b, c, self.minus(c));
        self.plus_minus(c);
        self.plus_zero(a);
        self.plus_zero(b);
    }

    /// `b` is `-a` if the two add up to zero.
    pub(crate) proof fn minus_unique(self, a: A, b: A)
        requires
            self.lawful(),
            self.plus(a, b) == self.zero,
        ensures
            b == self.minus(a),
    {
        self.plus_commutes(a, b);
        self.plus_minus(a);
        self.plus_cancels(b, self.minus(a), a);
    }

    pub(crate) proof fn minus_minus(self, a: A)
        requires
            self.lawful(),
        ensures
            self.minus(self.minus(a)) == a,
    {
        self.plus_minus(a);
        self.minus_unique(self.minus(a), a);
    }

    /// `(a + b) + (c + d) == (a + c) + (b + d)`.
    pub(crate) proof fn plus_exchanges(self, a: A, b: A, c: A, d: A)
        requires
            self.lawful(),
        ensures
            self.plus(self.plus(a, b), self.plus(c, d)) == self.plus(
                self.plus(a, c),
                self.plus(b, d),
            ),
    {
        self.plus_associates(a, b, self.plus(c, d));
        self.plus_associates(b, c, d);
        self.plus_commutes(b, c);
        self.plus_associates(c, b, d);
        self.plus_associates(a, c, self.plus(b, d));
    }

    pub(crate) proof fn minus_plus(self, a: A, b: A)
        requires
            self.lawful(),
        ensures
            self.minus(self.plus(a, b)) == self.plus(self.minus(a), self.minus(b)),
    {
        self.plus_exchanges(a, b, self.minus(a), self.minus(b));
        self.plus_minus(a);
        self.plus_minus(b);
        self.plus_zero(self.zero);
        self.minus_unique(self.plus(a, b), self.plus(self.minus(a), self.minus(b)));
    }

    pub(crate) proof fn times_zero(self, a: A)
        requires
            self.lawful(),
        ensures
            self.times(a, self.zero) == self.zero,
            self.times(self.zero, a) == self.zero,
    {
        let z = self.times(a, self.zero);
        self.plus_zero(self.zero);
        self.times_distributes(a, self.zero, self.zero);
        self.plus_zero(z);
        self.plus_cancels(z, self.zero, z);
        self.times_commutes(a, self.zero);
    }

    pub(crate) proof fn times_minus(self, a: A, b: A)
        requires
            self.lawful(),
        ensures
            self.times(a, self.minus(b)) == self.minus(self.times(a, b)),
            self.times(self.minus(a), b) == self.minus(self.times(a, b)),
    {
        self.times_distributes(a, b, self.minus(b));
        self.plus_minus(b);
        self.times_zero(a);
        self.minus_unique(self.times(a, b), self.times(a, self.minus(b)));
        self.times_distributes(b, a, self.minus(a));
        self.plus_minus(a);
        self.times_zero(b);
        self.minus_unique(self.times(a, b), self.times(self.minus(a), b));
    }

    pub(crate) proof fn power_one(self, a: A)
        requires
            self.lawful(),
        ensures
            self.power(a, 0) == self.one,
            self.power(a, 1) == a,
    {
        reveal_with_fuel(Ring::power, 2);
        self.times_one(a);
    }

    /// `1` to any power is `1`.
    pub(crate) proof fn power_of_one(self, n: nat)
        requires
            self.lawful(),
        ensures
            self.power(self.one, n) == self.one,
        decreases n,
    {
        if n > 0 {
            self.power_of_one((n - 1) as nat);
            self.times_one(self.one);
        }
    }

    /// `a^(m + n) == a^m * a^n`.
    pub(crate) proof fn power_adds(self, a: A, m: nat, n: nat)
        requires
            self.lawful(),
        ensures
            self.power(a, m + n) == self.times(self.power(a, m), self.power(a, n)),
        decreases n,
    {
        if n == 0 {
            self.times_one(self.power(a, m));
        } else {
            let k = (n - 1) as nat;
            self.power_adds(a, m, k);
            assert((m + n - 1) as nat == m + k);
            self.times_associates(self.power(a, m), self.power(a, k), a);
        }
    }

    /// `a^(m * n) == (a^m)^n`.
    pub(crate) proof fn power_multiplies(self, a: A, m: nat, n: nat)
        requires
            self.lawful(),
        ensures
            self.power(a, m * n) == self.power(self.power(a, m), n),
        decreases n,
    {
        if n == 0 {
            assert(m * n == 0) by (nonlinear_arith)
                requires
                    n == 0,
            ;
        } else {
            let k = (n - 1) as nat;
            self.power_multiplies(a, m, k);
            assert(m * n == m * k + m) by (nonlinear_arith)
                requires
                    n == k + 1,
            ;
            self.power_adds(a, m * k, m);
        }
    }

    /// `(a * b)^n == a^n * b^n`.
    pub(crate) proof fn power_of_product(self, a: A, b: A, n: nat)
        requires
            self.lawful(),
        ensures
            self.power(self.times(a, b), n) == self.times(self.power(a, n), self.power(b, n)),
        decreases n,
    {
        if n == 0 {
            self.times_one(self.one);
        } else {
            let (p, q) = (self.power(a, (n - 1) as nat), self.power(b, (n - 1) as nat));
            self.power_of_product(a, b, (n - 1) as nat);
            self.times_associates(p, q, self.times(a, b));
            self.times_commutes(a, b);
            self.times_associates(q, b, a);
            self.times_commutes(self.times(q, b), a);
            self.times_associates(p, a, self.times(q, b));
        }
    }

    /// `n` times `a * b` is `a` times `n` times `b`.
    pub(crate) proof fn multiple_of_product(self, n: nat, a: A, b: A)
        requires
            self.lawful(),
        ensures
            self.times(a, self.multiple(n, b)) == self.multiple(n, self.times(a, b)),
        decreases n,
    {
        if n == 0 {
            self.times_zero(a);
        } else {
            self.multiple_of_product((n - 1) as nat, a, b);
            self.times_distributes(a, self.multiple((n - 1) as nat, b), b);
        }
    }

    /// Sums of equal terms are equal.
    pub(crate) proof fn total_of_equals(self, n: nat, f: spec_fn(int) -> A, g: spec_fn(int) -> A)
        requires
            forall|i: int| 0 <= i < n ==> #[trigger] f(i) == g(i),
        ensures
            self.total(n, f) == self.total(n, g),
        decreases n,
    {
        if n > 0 {
            self.total_of_equals((n - 1) as nat, f, g);
            assert(f(n - 1) == g(n - 1));
        }
    }

    /// A sum of `m + n` terms is the sum of the first `m` and of the other `n`.
    pub(crate) proof fn total_splits(self, m: nat, n: nat, f: spec_fn(int) -> A)
        requires
            self.lawful(),
        ensures
            self.total(m + n, f) == self.plus(self.total(m, f), self.total(n, |i: int| f(m + i))),
        decreases n,
    {
        let g = |i: int| f(m + i);
        if n == 0 {
            self.plus_zero(self.total(m, f));
        } else {
            let k = (n - 1) as nat;
            self.total_splits(m, k, f);
            assert((m + n - 1) as nat == m + k);
            assert(f(m + n - 1) == g(n - 1));
            self.plus_associates(self.total(m, f), self.total(k, g), g(n - 1));
        }
    }

    /// Sums are added term by term.
    pub(crate) proof fn total_adds(self, n: nat, f: spec_fn(int) -> A, g: spec_fn(int) -> A)
        requires
            self.lawful(),
        ensures
            self.total(n, |i: int| self.plus(f(i), g(i))) == self.plus(
                self.total(n, f),
                self.total(n, g),
            ),
        decreases n,
    {
        let both = |i: int| self.plus(f(i), g(i));
        if n == 0 {
            self.plus_zero(self.zero);
        } else {
            let k = (n - 1) as nat;
            self.total_adds(k, f, g);
            assert(both(n - 1) == self.plus(f(n - 1), g(n - 1)));
            self.plus_exchanges(self.total(k, f), self.total(k, g), f(n - 1), g(n - 1));
        }
    }

    /// A factor of all terms is a factor of the sum.
    pub(crate) proof fn total_scales(self, n: nat, a: A, f: spec_fn(int) -> A)
        requires
            self.lawful(),
        ensures
            self.total(n, |i: int| self.times(a, f(i))) == self.times(a, self.total(n, f)),
        decreases n,
    {
        let scaled = |i: int| self.times(a, f(i));
        if n == 0 {
            self.times_zero(a);
        } else {
            let k = (n - 1) as nat;
            self.total_scales(k, a, f);
            assert(scaled(n - 1) == self.times(a, f(n - 1)));
            self.times_distributes(a, self.total(k, f), f(n - 1));
        }
    }

    /// A sum of equal terms is a multiple.
    pub(crate) proof fn total_of_same(self, n: nat, a: A, f: spec_fn(int) -> A)
        requires
            forall|i: int| 0 <= i < n ==> #[trigger] f(i) == a,
        ensures
            self.total(n, f) == self.multiple(n, a),
        decreases n,
    {
        if n > 0 {
            self.total_of_same((n - 1) as nat, a, f);
            assert(f(n - 1) == a);
        }
    }

    /// A multiple of zero is zero.
    pub(crate) proof fn multiple_of_zero(self, n: nat)
        requires
            self.lawful(),
        ensures
            self.multiple(n, self.zero) == self.zero,
        decreases n,
    {
        if n > 0 {
            self.multiple_of_zero((n - 1) as nat);
            self.plus_zero(self.zero);
        }
    }

    /// A sum of which all terms but one are zero is that term.
    pub(crate) proof fn total_of_one(self, n: nat, t: int, f: spec_fn(int) -> A)
        requires
            self.lawful(),
            0 <= t < n,
            forall|i: int| 0 <= i < n && i != t ==> #[trigger] f(i) == self.zero,
        ensures
            self.total(n, f) == f(t),
        decreases n,
    {
        let k = (n - 1) as nat;
        if t == k {
            self.total_of_same(k, self.zero, f);
            self.multiple_of_zero(k);
            self.plus_zero(f(t));
        } else {
            self.total_of_one(k, t, f);
            assert(f(n - 1) == self.zero);
            self.plus_zero(f(t));
        }
    }

    /// The order of summation does not matter.
    pub(crate) proof fn total_exchanges(self, m: nat, n: nat, f: spec_fn(int, int) -> A)
        requires
            self.lawful(),
        ensures
            self.total(m, |i: int| self.total(n, |j: int| f(i, j))) == self.total(
                n,
                |j: int| self.total(m, |i: int| f(i, j)),
            ),
        decreases m,
    {
        let rows = |i: int| self.total(n, |j: int| f(i, j));
        let columns = |j: int| self.total(m, |i: int| f(i, j));
        if m == 0 {
            self.total_of_same(n, self.zero, columns);
            self.multiple_of_zero(n);
        } else {
            let k = (m - 1) as nat;
            let shorter = |j: int| self.total(k, |i: int| f(i, j));
            let last = |j: int| f(m - 1, j);
            let both = |j: int| self.plus(shorter(j), last(j));
            self.total_exchanges(k, n, f);
            assert(rows(m - 1) == self.total(n, last));
            self.total_adds(n, shorter, last);
            assert forall|j: int| 0 <= j < n implies #[trigger] both(j) == columns(j) by {
                let column = |i: int| f(i, j);
                assert(column(m - 1) == last(j));
            }
            self.total_of_equals(n, both, columns);
        }
    }
}

} // verus!
