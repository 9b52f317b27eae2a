//! The discrete Fourier transform in exact arithmetic, and its decimation by four.
use crate::network::is_power_of_two;
use crate::ring::Ring;
use vstd::prelude::*;

verus! {

impl<A> Ring<A> {
    /// The discrete Fourier transform of `x` at the frequency `k`:
    /// `x[0] * root^0 + x[1] * root^k + x[2] * root^(2 * k) + ...`.
    pub open spec fn dft(self, x: Seq<A>, root: A, k: nat) -> A {
        self.total(x.len(), |j: int| self.times(x[j], self.power(root, (j * k) as nat)))
    }

    /// The four-point transform of `a, b, c, d` at `p`, with `turn` as its root.
    pub open spec fn four_point(self, turn: A, a: A, b: A, c: A, d: A, p: nat) -> A {
        self.plus(
            self.plus(a, self.times(self.power(turn, p), b)),
            self.plus(
                self.times(self.power(turn, 2 * p), c),
                self.times(self.power(turn, 3 * p), d),
            ),
        )
    }

    /// Four equal stretches of a sum, added term by term.
    proof fn lemma_total_in_four(self, q: nat, f: spec_fn(int) -> A)
        requires
            self.lawful(),
        ensures
            self.total(4 * q, f) == self.total(
                q,
                |i: int|
                    self.plus(
                        self.plus(f(i), f(q + i)),
                        self.plus(f(2 * q + i), f(3 * q + i)),
                    ),
            ),
    {
        let f1 = |i: int| f(q + i);
        let f2 = |i: int| f(2 * q + i);
        let f3 = |i: int| f(3 * q + i);
        let low = |i: int| self.plus(f(i), f1(i));
        let high = |i: int| self.plus(f2(i), f3(i));
        let rest = |i: int| f(2 * q + i);
        self.total_splits(2 * q, 2 * q, f);
        self.total_splits(q, q, f);
        self.total_splits(q, q, rest);
        let rest3 = |i: int| rest(q + i);
        self.total_of_equals(q, rest3, f3);
        assert(2 * q == q + q && 4 * q == 2 * q + 2 * q);
        self.total_adds(q, f, f1);
        self.total_adds(q, f2, f3);
        self.total_adds(q, low, high);
        let both = |i: int| self.plus(low(i), high(i));
        let goal = |i: int|
            self.plus(self.plus(f(i), f(q + i)), self.plus(f(2 * q + i), f(3 * q + i)));
        self.total_of_equals(q, both, goal);
    }

    /// The power of `root` that belongs to the term `r * q + i` and the frequency
    /// `4 * k + p`, split by the digits of both.
    proof fn lemma_term_power(self, root: A, turn: A, q: nat, r: nat, i: nat, k: nat, p: nat)
        requires
            self.lawful(),
            self.power(root, q) == turn,
            self.times(turn, turn) == self.minus(self.one),
        ensures
            self.power(root, (r * q + i) * (4 * k + p)) == self.times(
                self.power(turn, r * p),
                self.times(self.power(root, i * p), self.power(self.power(root, 4), i * k)),
            ),
    {
        let rp = r * p;
        let rk = r * k;
        let ik = i * k;
        let ip = i * p;
        assert((r * q + i) * (4 * k + p) == q * (4 * rk + rp) + (ip + 4 * ik)) by (nonlinear_arith)
            requires
                rp == r * p,
                rk == r * k,
                ik == i * k,
                ip == i * p,
        ;
        self.power_adds(root, q * (4 * rk + rp), ip + 4 * ik);
        self.power_adds(root, ip, 4 * ik);
        self.power_multiplies(root, 4, ik);
        self.power_multiplies(root, q, 4 * rk + rp);
        self.power_adds(turn, 4 * rk, rp);
        self.power_multiplies(turn, 4, rk);
        self.lemma_turns(turn);
        self.power_of_one(rk);
        self.times_one(self.power(turn, rp));
    }

    /// The powers of a quarter turn.
    pub(crate) proof fn lemma_turns(self, turn: A)
        requires
            self.lawful(),
            self.times(turn, turn) == self.minus(self.one),
        ensures
            self.power(turn, 0) == self.one,
            self.power(turn, 1) == turn,
            self.power(turn, 2) == self.minus(self.one),
            self.power(turn, 3) == self.minus(turn),
            self.power(turn, 4) == self.one,
            self.power(turn, 6) == self.minus(self.one),
            self.power(turn, 9) == turn,
    {
        self.power_one(turn);
        self.power_adds(turn, 1, 1);
        self.power_adds(turn, 2, 1);
        self.times_minus(self.one, turn);
        self.times_one(turn);
        self.power_adds(turn, 2, 2);
        self.times_minus(self.one, self.minus(self.one));
        self.times_one(self.minus(self.one));
        self.minus_minus(self.one);
        self.power_adds(turn, 4, 2);
        self.power_adds(turn, 6, 3);
        self.times_minus(self.one, self.minus(turn));
        self.times_one(self.minus(turn));
        self.minus_minus(turn);
    }

    /// Decimation in frequency: the transform of `x` at `4 * k + p` is the transform
    /// at `k` of a sequence of a quarter of the length.
    pub(crate) proof fn lemma_decimate(
        self,
        x: Seq<A>,
        y: Seq<A>,
        root: A,
        turn: A,
        q: nat,
        p: nat,
        k: nat,
    )
        requires
            self.lawful(),
            x.len() == 4 * q,
            y.len() == q,
            self.power(root, q) == turn,
            self.times(turn, turn) == self.minus(self.one),
            forall|i: int|
                0 <= i < q ==> #[trigger] y[i] == self.times(
                    self.four_point(turn, x[i], x[q + i], x[2 * q + i], x[3 * q + i], p),
                    self.power(root, (i * p) as nat),
                ),
        ensures
            self.dft(x, root, 4 * k + p) == self.dft(y, self.power(root, 4), k),
    {
        let f = |j: int| self.times(x[j], self.power(root, (j * (4 * k + p)) as nat));
        let g = |i: int| self.times(y[i], self.power(self.power(root, 4), (i * k) as nat));
        let h = |i: int|
            self.plus(self.plus(f(i), f(q + i)), self.plus(f(2 * q + i), f(3 * q + i)));
        self.lemma_total_in_four(q, f);
        assert forall|i: int| 0 <= i < q implies #[trigger] h(i) == g(i) by {
            let n = i as nat;
            let e = self.times(
                self.power(root, n * p),
                self.power(self.power(root, 4), n * k),
            );
            let (a, b, c, d) = (x[i], x[q + i], x[2 * q + i], x[3 * q + i]);
            let (t1, t2, t3) = (
                self.power(turn, p),
                self.power(turn, 2 * p),
                self.power(turn, 3 * p),
            );
            self.lemma_term_power(root, turn, q, 0, n, k, p);
            self.lemma_term_power(root, turn, q, 1, n, k, p);
            self.lemma_term_power(root, turn, q, 2, n, k, p);
            self.lemma_term_power(root, turn, q, 3, n, k, p);
            assert(0 * q + n == n && 1 * q + n == q + n && 0 * p == 0 && 1 * p == p);
            self.power_one(turn);
            self.times_one(e);
            assert(f(i) == self.times(a, e));
            assert(f(q + i) == self.times(self.times(t1, b), e)) by {
                self.times_associates(b, t1, e);
                self.times_commutes(b, t1);
            }
            assert(f(2 * q + i) == self.times(self.times(t2, c), e)) by {
                self.times_associates(c, t2, e);
                self.times_commutes(c, t2);
            }
            assert(f(3 * q + i) == self.times(self.times(t3, d), e)) by {
                self.times_associates(d, t3, e);
                self.times_commutes(d, t3);
            }
            let low = self.plus(a, self.times(t1, b));
            let high = self.plus(self.times(t2, c), self.times(t3, d));
            self.times_distributes(e, a, self.times(t1, b));
            self.times_distributes(e, self.times(t2, c), self.times(t3, d));
            self.times_distributes(e, low, high);
            let four = self.four_point(turn, a, b, c, d, p);
            assert(h(i) == self.times(four, e));
            self.times_associates(
                four,
                self.power(root, n * p),
                self.power(self.power(root, 4), n * k),
            );
        }
        self.total_of_equals(q, h, g);
    }

    /// A transform of one term is that term.
    pub(crate) proof fn lemma_dft_of_one(self, x: Seq<A>, root: A)
        requires
            self.lawful(),
            x.len() == 1,
        ensures
            self.dft(x, root, 0) == x[0],
    {
        reveal_with_fuel(Ring::total, 2);
        self.times_one(x[0]);
        self.plus_zero(x[0]);
        assert(0 * 0 == 0);
    }

    /// A transform of two terms is their sum and their difference.
    pub(crate) proof fn lemma_dft_of_two(self, x: Seq<A>, root: A)
        requires
            self.lawful(),
            x.len() == 2,
            root == self.minus(self.one),
        ensures
            self.dft(x, root, 0) == self.plus(x[0], x[1]),
            self.dft(x, root, 1) == self.plus(x[0], self.minus(x[1])),
    {
        reveal_with_fuel(Ring::total, 3);
        self.power_one(root);
        self.times_one(x[0]);
        self.times_one(x[1]);
        self.plus_zero(x[0]);
        self.times_minus(x[1], self.one);
    }

    /// The powers of a root of unity add up to zero, unless they are all one.
    proof fn lemma_powers_cancel(self, root: A, n: nat, d: nat)
        requires
            self.lawful(),
            is_power_of_two(n as int),
            0 < d < n,
            self.power(root, n / 2) == self.minus(self.one),
        ensures
            self.total(n, |k: int| self.power(self.power(root, d), k as nat)) == self.zero,
        decreases n,
    {
        let h = n / 2;
        let g = self.power(root, d);
        let f = |k: int| self.power(g, k as nat);
        let rest = |k: int| f(h + k);
        let u = self.power(g, h);
        reveal_with_fuel(is_power_of_two, 2);
        assert(n == h + h);
        // The second half of the sum is `u` times the first one.
        self.total_splits(h, h, f);
        let turned = |k: int| self.times(u, f(k));
        assert forall|k: int| 0 <= k < h implies #[trigger] rest(k) == turned(k) by {
            self.power_adds(g, h, k as nat);
        }
        self.total_of_equals(h, rest, turned);
        self.total_scales(h, u, f);
        let first = self.total(h, f);
        self.power_multiplies(root, d, h);
        if d % 2 == 1 {
            assert(u == self.minus(self.one)) by {
                let e = d / 2;
                assert(d * h == h * (2 * e) + h) by (nonlinear_arith)
                    requires
                        d == 2 * e + 1,
                ;
                self.power_adds(root, h * (2 * e), h);
                self.power_multiplies(root, h, 2 * e);
                self.power_multiplies(self.minus(self.one), 2, e);
                self.lemma_minus_one_squared();
                self.power_of_one(e);
                self.times_one(self.minus(self.one));
            }
            self.times_minus(self.one, first);
            self.times_one(first);
            self.plus_minus(first);
        } else {
            let square = self.power(root, 2);
            let e = d / 2;
            assert(h >= 2);
            reveal_with_fuel(is_power_of_two, 3);
            assert(h == 2 * (h / 2));
            self.power_multiplies(root, 2, h / 2);
            self.power_multiplies(root, 2, e);
            self.lemma_powers_cancel(square, h, e);
            assert(first == self.zero);
            self.times_zero(u);
            self.plus_zero(self.zero);
        }
    }

    /// `(-1)^2 == 1`.
    proof fn lemma_minus_one_squared(self)
        requires
            self.lawful(),
        ensures
            self.power(self.minus(self.one), 2) == self.one,
    {
        let m = self.minus(self.one);
        self.power_one(m);
        self.power_adds(m, 1, 1);
        self.times_minus(self.one, m);
        self.times_one(m);
        self.minus_minus(self.one);
    }

    /// Where `root * back == 1`, factors of the two cancel each other: `root^j * back^t`
    /// is a power of the one of which there are more.
    proof fn lemma_powers_meet(self, root: A, back: A, j: nat, t: nat)
        requires
            self.lawful(),
            self.times(root, back) == self.one,
        ensures
            self.times(self.power(root, j), self.power(back, t)) == (if j >= t {
                self.power(root, (j - t) as nat)
            } else {
                self.power(back, (t - j) as nat)
            }),
    {
        let low = if j >= t {
            t
        } else {
            j
        };
        let (r, b) = (self.power(root, low), self.power(back, low));
        self.power_of_product(root, back, low);
        self.power_of_one(low);
        if j >= t {
            let more = self.power(root, (j - t) as nat);
            self.power_adds(root, (j - t) as nat, t);
            self.times_associates(more, r, b);
            self.times_one(more);
        } else {
            let more = self.power(back, (t - j) as nat);
            self.power_adds(back, j, (t - j) as nat);
            self.times_associates(r, b, more);
            self.times_one(more);
        }
    }

    /// The sum of `root^(j * k) * back^(k * t)` over all `k`, where `root * back == 1`.
    proof fn lemma_orthogonal(self, root: A, back: A, n: nat, j: nat, t: nat)
        requires
            self.lawful(),
            is_power_of_two(n as int),
            self.times(root, back) == self.one,
            n >= 2 ==> self.power(root, n / 2) == self.minus(self.one),
            j < n,
            t < n,
        ensures
            self.total(
                n,
                |k: int|
                    self.times(
                        self.power(root, (j * k) as nat),
                        self.power(back, (k * t) as nat),
                    ),
            ) == (if j == t {
                self.multiple(n, self.one)
            } else {
                self.zero
            }),
    {
        let g = self.times(self.power(root, j), self.power(back, t));
        let f = |k: int|
            self.times(self.power(root, (j * k) as nat), self.power(back, (k * t) as nat));
        let powers = |k: int| self.power(g, k as nat);
        self.lemma_powers_meet(root, back, j, t);
        assert forall|k: int| 0 <= k < n implies #[trigger] f(k) == powers(k) by {
            self.power_of_product(self.power(root, j), self.power(back, t), k as nat);
            self.power_multiplies(root, j, k as nat);
            self.power_multiplies(back, t, k as nat);
            assert(k * t == t * k) by (nonlinear_arith);
        }
        self.total_of_equals(n, f, powers);
        if j == t {
            assert forall|k: int| 0 <= k < n implies #[trigger] powers(k) == self.one by {
                self.power_of_one(k as nat);
            }
            self.total_of_same(n, self.one, powers);
        } else if j > t {
            self.lemma_powers_cancel(root, n, (j - t) as nat);
        } else {
            let h = n / 2;
            let b = self.power(back, h);
            self.power_of_product(root, back, h);
            self.power_of_one(h);
            self.times_minus(self.one, b);
            self.times_one(b);
            self.minus_minus(b);
            self.lemma_powers_cancel(back, n, (t - j) as nat);
        }
    }

    /// The transform with the root `back` undoes the transform with the root `root`,
    /// where `root * back == 1`, but for a factor that is the number of terms.
    pub proof fn law_dft_is_undone(self, x: Seq<A>, root: A, back: A, t: nat)
        requires
            self.lawful(),
            is_power_of_two(x.len() as int),
            self.times(root, back) == self.one,
            x.len() >= 2 ==> self.power(root, x.len() / 2) == self.minus(self.one),
            t < x.len(),
        ensures
            self.dft(Seq::new(x.len(), |k: int| self.dft(x, root, k as nat)), back, t)
                == self.multiple(x.len(), x[t as int]),
    {
        let n = x.len();
        let y = Seq::new(n, |k: int| self.dft(x, root, k as nat));
        let e = |k: int| self.power(back, (k * t) as nat);
        let f = |k: int| self.times(y[k], e(k));
        let terms = |k: int, j: int|
            self.times(self.times(x[j], self.power(root, (j * k) as nat)), e(k));
        let rows = |k: int| self.total(n, |j: int| terms(k, j));
        assert forall|k: int| 0 <= k < n implies #[trigger] f(k) == rows(k) by {
            let row = |j: int| self.times(x[j], self.power(root, (j * k as nat) as nat));
            let scaled = |j: int| self.times(e(k), row(j));
            let same = |j: int| terms(k, j);
            assert(y[k] == self.total(n, row));
            self.total_scales(n, e(k), row);
            self.times_commutes(y[k], e(k));
            assert forall|j: int| 0 <= j < n implies #[trigger] scaled(j) == same(j) by {
                self.times_commutes(e(k), row(j));
            }
            self.total_of_equals(n, scaled, same);
        }
        let goal = |k: int| self.times(y[k], self.power(back, (k * t) as nat));
        self.total_of_equals(n, goal, f);
        self.total_of_equals(n, f, rows);
        self.total_exchanges(n, n, terms);
        let columns = |j: int| self.total(n, |k: int| terms(k, j));
        assert forall|j: int| 0 <= j < n implies #[trigger] columns(j) == (if j == t {
            self.multiple(n, x[j])
        } else {
            self.zero
        }) by {
            let column = |k: int| terms(k, j);
            let inner = |k: int|
                self.times(
                    self.power(root, (j as nat * k) as nat),
                    self.power(back, (k * t) as nat),
                );
            let scaled = |k: int| self.times(x[j], inner(k));
            assert forall|k: int| 0 <= k < n implies #[trigger] column(k) == scaled(k) by {
                self.times_associates(x[j], self.power(root, (j * k) as nat), e(k));
            }
            self.total_of_equals(n, column, scaled);
            self.total_scales(n, x[j], inner);
            self.lemma_orthogonal(root, back, n, j as nat, t);
            self.multiple_of_product(n, x[j], self.one);
            self.times_one(x[j]);
            self.times_zero(x[j]);
        }
        self.total_of_one(n, t as int, columns);
    }

    /// The transform of a single term among zeros.
    pub(crate) proof fn lemma_dft_of_impulse(self, x: Seq<A>, root: A, t: int, k: nat)
        requires
            self.lawful(),
            0 <= t < x.len(),
            forall|j: int| 0 <= j < x.len() && j != t ==> #[trigger] x[j] == self.zero,
        ensures
            self.dft(x, root, k) == self.times(x[t], self.power(root, (t * k) as nat)),
    {
        let f = |j: int| self.times(x[j], self.power(root, (j * k) as nat));
        assert forall|j: int| 0 <= j < x.len() && j != t implies #[trigger] f(j)
            == self.zero by {
            self.times_zero(self.power(root, (j * k) as nat));
        }
        self.total_of_one(x.len(), t, f);
    }

    /// The transform of equal terms.
    pub(crate) proof fn lemma_dft_of_constant(self, x: Seq<A>, root: A, k: nat)
        requires
            self.lawful(),
            is_power_of_two(x.len() as int),
            x.len() >= 2 ==> self.power(root, x.len() / 2) == self.minus(self.one),
            k < x.len(),
            forall|j: int| 0 <= j < x.len() ==> #[trigger] x[j] == x[0],
        ensures
            self.dft(x, root, k) == (if k == 0 {
                self.multiple(x.len(), x[0])
            } else {
                self.zero
            }),
    {
        let n = x.len();
        let a = x[0];
        let f = |j: int| self.times(x[j], self.power(root, (j * k) as nat));
        if k == 0 {
            assert forall|j: int| 0 <= j < n implies #[trigger] f(j) == a by {
                assert(x[j] == a);
                assert(j * k == 0) by (nonlinear_arith)
                    requires
                        k == 0,
                ;
                self.times_one(a);
            }
            self.total_of_same(n, a, f);
        } else {
            let powers = |j: int| self.power(self.power(root, k), j as nat);
            let scaled = |j: int| self.times(a, powers(j));
            assert forall|j: int| 0 <= j < n implies #[trigger] f(j) == scaled(j) by {
                assert(x[j] == a);
                self.power_multiplies(root, k, j as nat);
                assert(j * k == k * j) by (nonlinear_arith);
            }
            self.total_of_equals(n, f, scaled);
            self.total_scales(n, a, powers);
            self.lemma_powers_cancel(root, n, k);
            self.times_zero(a);
        }
    }
}

} // verus!
