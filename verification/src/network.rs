//! The network of butterflies that a transform runs, and the order in which it
//! leaves the frequencies.
use crate::arithmetic::Model;
use crate::complex::Complex;
use vstd::prelude::*;

verus! {

/// `n` is one of `1, 2, 4, 8, ...`.
pub open spec fn is_power_of_two(n: int) -> bool
    decreases n,
{
    n == 1 || (n > 1 && n % 2 == 0 && is_power_of_two(n / 2))
}

/// A circle of `n` steps comes back to its start in quarters of whole steps, or has
/// one or two steps.
pub open spec fn is_circle(n: int) -> bool {
    n == 1 || n == 2 || (n > 0 && n % 4 == 0)
}

/// The frequency that a transform of `m` points, before it is put in order, leaves
/// at the position `pos`: the quarter that `pos` lies in is the last digit of the
/// frequency in base four, and so on inside the quarter. Two points are in order.
pub open spec fn frequency_at(m: int, pos: int) -> int
    decreases m,
{
    if m <= 2 {
        pos
    } else {
        4 * frequency_at(m / 4, pos % (m / 4)) + pos / (m / 4)
    }
}

/// The position at which a transform of `m` points, before it is put in order,
/// leaves the frequency `k`: the digits of `k` in base four, reversed. Where `m` is
/// not a power of four, the last digit is one of two.
pub open spec fn position_of(m: int, k: int) -> int
    decreases m,
{
    if m <= 2 {
        k
    } else {
        (k % 4) * (m / 4) + position_of(m / 4, k / 4)
    }
}

/// Where the butterfly of block size `m` that writes to `t` reads its first point.
pub open spec fn first_point(m: int, t: int) -> int {
    t - t % m + t % (m / 4)
}

/// Which of the four results of its butterfly of block size `m` goes to `t`.
pub open spec fn result_at(m: int, t: int) -> int {
    (t % m) / (m / 4)
}

impl<T> Model<T> {
    /// A full turn: `-2 * pi`.
    pub open spec fn turn(self) -> T {
        (self.product)((self.negation)((self.int_value)(2)), self.pi)
    }

    /// `k` of `n` parts of a full turn: `-2 * pi / n * k`.
    pub open spec fn angle(self, n: int, k: int) -> T {
        (self.product)((self.quotient)(self.turn(), (self.int_value)(n)), (self.int_value)(k))
    }

    /// `e` to the power `-2 * pi * i / n * k`.
    pub open spec fn part_w(self, n: int, k: int) -> Complex<T> {
        self.complex_exponential(Complex { re: (self.int_value)(0), im: self.angle(n, k) })
    }

    /// The twiddle factor `k` of a transform of `n` points: the first quarter of the
    /// circle is computed, the others are turns of it.
    pub open spec fn twiddle(self, n: int, k: int) -> Complex<T>
        decreases k,
    {
        if k <= 0 || k == n {
            self.complex_one()
        } else if k < n / 4 {
            self.part_w(n, k)
        } else if k == n / 4 {
            self.minus_i()
        } else if k < n / 2 && n / 4 > 0 {
            self.times_minus_i(self.twiddle(n, k - n / 4))
        } else if k == n / 2 || n / 2 <= 0 {
            self.minus_one()
        } else {
            self.complex_negation(self.twiddle(n, k - n / 2))
        }
    }

    /// The twiddle factors of a transform of `n` points, with the first one again at
    /// the end.
    pub open spec fn twiddles(self, n: int) -> Seq<Complex<T>> {
        Seq::new((n + 1) as nat, |k: int| self.twiddle(n, k))
    }

    /// On a circle that has quarters, the table begins and ends with one, and holds `-i`,
    /// `-1` and `i` at the quarters.
    pub proof fn law_twiddles_at_the_quarters(self, n: int)
        requires
            n > 0,
            n % 4 == 0,
        ensures
            self.twiddles(n).len() == n + 1,
            self.twiddles(n)[0] == self.complex_one(),
            self.twiddles(n)[n / 4] == self.minus_i(),
            self.twiddles(n)[n / 2] == self.minus_one(),
            self.twiddles(n)[n / 2 + n / 4] == self.complex_negation(self.minus_i()),
            self.twiddles(n)[n] == self.complex_one(),
    {
        reveal_with_fuel(Model::twiddle, 2);
    }

    /// The result `p` of the butterfly of four over `a`, `b`, `c`, `d`.
    pub open spec fn butterfly(
        self,
        a: Complex<T>,
        b: Complex<T>,
        c: Complex<T>,
        d: Complex<T>,
        p: int,
    ) -> Complex<T> {
        let even_sum = self.complex_sum(a, c);
        let even_difference = self.complex_difference(a, c);
        let odd_sum = self.complex_sum(b, d);
        let odd_turned = self.times_i(self.complex_difference(b, d));
        if p == 0 {
            self.complex_sum(even_sum, odd_sum)
        } else if p == 1 {
            self.complex_difference(even_difference, odd_turned)
        } else if p == 2 {
            self.complex_difference(even_sum, odd_sum)
        } else {
            self.complex_sum(even_difference, odd_turned)
        }
    }

    /// The butterfly of block size `m` over `x` that writes to `t`, at `t`.
    pub open spec fn butterfly_at(self, x: Seq<Complex<T>>, m: int, t: int) -> Complex<T> {
        let i = first_point(m, t);
        let q = m / 4;
        self.butterfly(x[i], x[i + q], x[i + 2 * q], x[i + 3 * q], result_at(m, t))
    }

    /// One pass of butterflies of block size `m` over `x`, with the twiddle factors
    /// `w`.
    pub open spec fn pass(self, x: Seq<Complex<T>>, w: Seq<Complex<T>>, m: int) -> Seq<Complex<T>> {
        Seq::new(
            x.len(),
            |t: int|
                {
                    let p = result_at(m, t);
                    let v = self.butterfly_at(x, m, t);
                    if p == 0 {
                        v
                    } else {
                        self.complex_product(v, w[t % (m / 4) * (x.len() as int / m) * p])
                    }
                },
        )
    }

    /// The last pass over `x`, of butterflies of four without twiddle factors.
    pub open spec fn pass_of_four(self, x: Seq<Complex<T>>) -> Seq<Complex<T>> {
        Seq::new(x.len(), |t: int| self.butterfly_at(x, 4, t))
    }

    /// The last pass over `x`, of butterflies of two.
    pub open spec fn pass_of_two(self, x: Seq<Complex<T>>) -> Seq<Complex<T>> {
        Seq::new(
            x.len(),
            |t: int|
                if t % 2 == 0 {
                    self.complex_sum(x[t], x[t + 1])
                } else {
                    self.complex_difference(x[t - 1], x[t])
                },
        )
    }

    /// The passes over `x` from the block size `m` on.
    pub open spec fn passes(self, x: Seq<Complex<T>>, w: Seq<Complex<T>>, m: int) -> Seq<Complex<T>>
        decreases m,
    {
        if m > 4 {
            self.passes(self.pass(x, w, m), w, m / 4)
        } else if m == 4 {
            self.pass_of_four(x)
        } else {
            self.pass_of_two(x)
        }
    }

    /// The transform of `x`: the passes, with the frequencies put in order.
    pub open spec fn transform(self, x: Seq<Complex<T>>) -> Seq<Complex<T>> {
        let n = x.len() as int;
        let y = self.passes(x, self.twiddles(n), n);
        if n <= 1 {
            x
        } else {
            Seq::new(x.len(), |k: int| y[position_of(n, k)])
        }
    }
}

/// A power of two above two is four times a power of two.
pub(crate) proof fn lemma_quarter(m: int)
    requires
        is_power_of_two(m),
        m > 2,
    ensures
        m == 4 * (m / 4),
        is_power_of_two(m / 4),
        1 <= m / 4,
        m > 4 ==> m / 4 >= 2,
        m / 2 == 2 * (m / 4),
{
    reveal_with_fuel(is_power_of_two, 3);
    assert(m / 2 / 2 == m / 4);
}

/// A circle whose steps are a power of two has quarters of whole steps, or at most two
/// steps.
pub(crate) proof fn lemma_circle(n: int)
    requires
        is_power_of_two(n),
    ensures
        is_circle(n),
{
    if n > 2 {
        lemma_quarter(n);
    }
}

/// The digits of a position `b * m + p * q + i`.
pub(crate) proof fn lemma_digits(m: int, q: int, b: int, p: int, i: int)
    requires
        m == 4 * q,
        q > 0,
        0 <= b,
        0 <= p < 4,
        0 <= i < q,
    ensures
        (b * m + p * q + i) / m == b,
        (b * m + p * q + i) % m == p * q + i,
        (p * q + i) / q == p,
        (p * q + i) % q == i,
        (b * m + p * q + i) % q == i,
        0 <= p * q + i < m,
{
    let r = p * q + i;
    assert(0 <= r < m) by (nonlinear_arith)
        requires
            r == p * q + i,
            m == 4 * q,
            0 <= p < 4,
            0 <= i < q,
    ;
    vstd::arithmetic::div_mod::lemma_fundamental_div_mod_converse(b * m + r, m, b, r);
    vstd::arithmetic::div_mod::lemma_fundamental_div_mod_converse(r, q, p, i);
    assert(b * m + r == (4 * b + p) * q + i) by (nonlinear_arith)
        requires
            r == p * q + i,
            m == 4 * q,
    ;
    vstd::arithmetic::div_mod::lemma_fundamental_div_mod_converse(b * m + r, q, 4 * b + p, i);
}

/// Every position has such digits.
pub(crate) proof fn lemma_digits_of(m: int, q: int, t: int)
    requires
        m == 4 * q,
        q > 0,
        0 <= t,
    ensures
        t == (t / m) * m + ((t % m) / q) * q + t % q,
        0 <= t / m,
        0 <= (t % m) / q < 4,
        0 <= t % q < q,
        (t % m) % q == t % q,
{
    let r = t % m;
    vstd::arithmetic::div_mod::lemma_fundamental_div_mod(t, m);
    vstd::arithmetic::div_mod::lemma_fundamental_div_mod(r, q);
    vstd::arithmetic::div_mod::lemma_div_pos_is_pos(t, m);
    let p = r / q;
    assert(0 <= p < 4) by (nonlinear_arith)
        requires
            r == q * p + r % q,
            0 <= r % q < q,
            0 <= r < 4 * q,
            q > 0,
    ;
    assert(m * (t / m) == (t / m) * m) by (nonlinear_arith);
    assert(q * p == p * q) by (nonlinear_arith);
    lemma_digits(m, q, t / m, p, r % q);
}

/// The four points of a butterfly of block size `m` lie inside its block.
pub(crate) proof fn lemma_first_point(m: int, blocks: int, t: int)
    requires
        m > 0,
        m == 4 * (m / 4),
        0 <= t < m * blocks,
    ensures
        0 <= first_point(m, t),
        first_point(m, t) + 3 * (m / 4) < m * blocks,
        0 <= result_at(m, t) < 4,
{
    let q = m / 4;
    let i = first_point(m, t);
    let block = t / m;
    lemma_digits_of(m, q, t);
    vstd::arithmetic::div_mod::lemma_fundamental_div_mod(t, m);
    assert(i == block * m + t % q) by (nonlinear_arith)
        requires
            i == t - t % m + t % q,
            t == m * block + t % m,
    ;
    assert(block * m + m <= m * blocks) by (nonlinear_arith)
        requires
            m > 0,
            t == m * block + t % m,
            0 <= t % m,
            t < m * blocks,
    ;
    assert(0 <= block * m) by (nonlinear_arith)
        requires
            0 <= block,
            m > 0,
    ;
}

/// Frequencies are below the number of points.
pub(crate) proof fn lemma_frequency_bound(m: int, pos: int)
    requires
        is_power_of_two(m),
        0 <= pos < m,
    ensures
        0 <= frequency_at(m, pos) < m,
    decreases m,
{
    if m > 2 {
        let q = m / 4;
        lemma_quarter(m);
        lemma_digits_of(m, q, pos);
        vstd::arithmetic::div_mod::lemma_small_mod(pos as nat, m as nat);
        lemma_frequency_bound(q, pos % q);
    }
}

/// No frequency is lost: each has a position of its own among the points, at which it
/// is found again.
pub proof fn law_frequencies_have_positions(m: int, k: int)
    requires
        is_power_of_two(m),
        0 <= k < m,
    ensures
        0 <= position_of(m, k) < m,
        frequency_at(m, position_of(m, k)) == k,
    decreases m,
{
    if m > 2 {
        let q = m / 4;
        lemma_quarter(m);
        law_frequencies_have_positions(q, k / 4);
        let p = k % 4;
        let i = position_of(q, k / 4);
        lemma_digits(m, q, 0, p, i);
        assert(position_of(m, k) == p * q + i);
    }
}

} // verus!
