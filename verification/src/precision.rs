//! How far rounding carries the results away, and what scaling does to them.
//!
//! Two arithmetics compute the same thing side by side: one that rounds, and one that
//! it is held against. A [`Rounding`] says how near numbers of the one are to numbers of
//! the other, and the laws say how near the results still are.
use crate::arithmetic::Model;
use crate::complex::Complex;
use crate::network::{first_point, is_power_of_two, position_of, result_at};
use vstd::prelude::*;

verus! {

/// The largest loss, in steps of rounding, up to which errors simply add up.
pub open spec fn loss_limit() -> nat {
    0x10_0000
}

/// How the numbers of an arithmetic that rounds are related to those of another one.
///
/// For binary floating point against the numbers that it stands for, in a unit of your
/// choice: `near(t, u, s, r)` says that `u` lies within `s` units of zero, and `t` within
/// `r * s` steps of `u`, where a step is the distance between one and the next number,
/// times the unit. `factor(w, v)` says that `v` lies within one of zero, and that a
/// product with `w` in place of `v` costs `cost` steps. Up to `top` units, nothing
/// overflows.
#[verifier::reject_recursive_types(T)]
#[verifier::reject_recursive_types(U)]
pub struct Rounding<T, U> {
    pub near: spec_fn(T, U, nat, nat) -> bool,
    pub factor: spec_fn(T, U) -> bool,
    pub cost: nat,
    pub top: nat,
}

/// Zero, one, their negations, and the sines and cosines of the first quarter of a
/// circle of `n` steps are factors.
pub open spec fn are_factors<T, U>(
    factor: spec_fn(T, U) -> bool,
    m: Model<T>,
    other: Model<U>,
    n: int,
) -> bool {
    &&& !(m.infinite)((m.int_value)(0)) && !(m.not_a_number)((m.int_value)(0))
    &&& !(other.infinite)((other.int_value)(0)) && !(other.not_a_number)(
        (other.int_value)(0),
    )
    &&& factor((m.int_value)(0), (other.int_value)(0))
    &&& factor((m.int_value)(1), (other.int_value)(1))
    &&& forall|w: T, v: U|
        #![trigger (m.negation)(w), (other.negation)(v)]
        factor(w, v) ==> factor((m.negation)(w), (other.negation)(v))
    &&& forall|w: T, v: U|
        #![trigger (m.product)((m.exponential)((m.int_value)(0)), w), factor(w, v)]
        factor(w, v) ==> factor(
            (m.product)((m.exponential)((m.int_value)(0)), w),
            (other.product)((other.exponential)((other.int_value)(0)), v),
        )
    &&& forall|k: int|
        #![trigger (m.int_value)(k), (other.int_value)(k)]
        0 < k < n / 4 ==> {
            let a = (m.product)(
                (m.quotient)(
                    (m.product)((m.negation)((m.int_value)(2)), m.pi),
                    (m.int_value)(n),
                ),
                (m.int_value)(k),
            );
            let b = (other.product)(
                (other.quotient)(
                    (other.product)((other.negation)((other.int_value)(2)), other.pi),
                    (other.int_value)(n),
                ),
                (other.int_value)(k),
            );
            &&& factor((m.cosine)(a), (other.cosine)(b))
            &&& factor((m.sine)(a), (other.sine)(b))
        }
}

impl<T, U> Rounding<T, U> {
    /// Both parts are near.
    pub open spec fn complex_near(self, a: Complex<T>, b: Complex<U>, s: nat, r: nat) -> bool {
        (self.near)(a.re, b.re, s, r) && (self.near)(a.im, b.im, s, r)
    }

    /// Both parts are factors.
    pub open spec fn complex_factor(self, a: Complex<T>, b: Complex<U>) -> bool {
        (self.factor)(a.re, b.re) && (self.factor)(a.im, b.im)
    }

    /// All terms are near.
    pub open spec fn all_near(
        self,
        x: Seq<Complex<T>>,
        y: Seq<Complex<U>>,
        s: nat,
        r: nat,
    ) -> bool {
        &&& x.len() == y.len()
        &&& forall|i: int|
            0 <= i < x.len() ==> self.complex_near(#[trigger] x[i], y[i], s, r)
    }

    /// There is room for sums of terms within `s`, and not too much is lost yet.
    pub open spec fn has_room(self, s: nat, r: nat) -> bool {
        0 < s && 2 * s <= self.top && r <= loss_limit()
    }

    /// A sum and a difference of two terms can be twice as large and lose one step more,
    /// a negation loses nothing, and a product with a factor loses what it costs.
    #[verifier::opaque]
    pub open spec fn links(self, m: Model<T>, other: Model<U>) -> bool {
        &&& forall|t: T, u: U, s: nat, r: nat, s2: nat, r2: nat|
            #![trigger (self.near)(t, u, s, r), (self.near)(t, u, s2, r2)]
            (self.near)(t, u, s, r) && s <= s2 && r <= r2 ==> (self.near)(t, u, s2, r2)
        &&& forall|t: T, u: U, t2: T, u2: U, s: nat, r: nat|
            #![trigger (m.sum)(t, t2), (other.sum)(u, u2), self.has_room(s, r)]
            (self.near)(t, u, s, r) && (self.near)(t2, u2, s, r) && self.has_room(s, r)
                ==> (self.near)((m.sum)(t, t2), (other.sum)(u, u2), 2 * s, r + 1)
        &&& forall|t: T, u: U, t2: T, u2: U, s: nat, r: nat|
            #![trigger (m.difference)(t, t2), (other.difference)(u, u2), self.has_room(s, r)]
            (self.near)(t, u, s, r) && (self.near)(t2, u2, s, r) && self.has_room(s, r)
                ==> (self.near)((m.difference)(t, t2), (other.difference)(u, u2), 2 * s, r + 1)
        &&& forall|t: T, u: U, s: nat, r: nat|
            #![trigger (self.near)((m.negation)(t), (other.negation)(u), s, r)]
            (self.near)(t, u, s, r) ==> (self.near)((m.negation)(t), (other.negation)(u), s, r)
        &&& forall|t: T, u: U, s: nat, r: nat, w: T, v: U|
            #![trigger (m.product)(t, w), (other.product)(u, v), self.has_room(s, r)]
            (self.near)(t, u, s, r) && (self.factor)(w, v) && self.has_room(s, r)
                ==> (self.near)((m.product)(t, w), (other.product)(u, v), s, r + self.cost)
        &&& forall|t: T, u: U, s: nat, r: nat, w: T, v: U|
            #![trigger (m.product)(w, t), (other.product)(v, u), self.has_room(s, r)]
            (self.near)(t, u, s, r) && (self.factor)(w, v) && self.has_room(s, r)
                ==> (self.near)((m.product)(w, t), (other.product)(v, u), s, r + self.cost)
    }

    /// The parts of all twiddle factors of `n` points are factors.
    pub open spec fn has_factors(self, m: Model<T>, other: Model<U>, n: int) -> bool {
        are_factors(self.factor, m, other, n)
    }

    /// Nearness can be given up in part.
    proof fn lemma_near_widens(
        self,
        m: Model<T>,
        other: Model<U>,
        a: Complex<T>,
        b: Complex<U>,
        s: nat,
        r: nat,
        s2: nat,
        r2: nat,
    )
        requires
            self.links(m, other),
            self.complex_near(a, b, s, r),
            s <= s2,
            r <= r2,
        ensures
            self.complex_near(a, b, s2, r2),
    {
        reveal(Rounding::links);
        assert((self.near)(a.re, b.re, s, r) && s <= s2 && r <= r2 ==> (self.near)(
            a.re,
            b.re,
            s2,
            r2,
        ));
        assert((self.near)(a.im, b.im, s, r) && s <= s2 && r <= r2 ==> (self.near)(
            a.im,
            b.im,
            s2,
            r2,
        ));
    }

    /// A complex sum and a complex difference lose one step: nothing but the parts is
    /// added or taken away.
    pub proof fn law_complex_sums_are_near(
        self,
        m: Model<T>,
        other: Model<U>,
        a: Complex<T>,
        b: Complex<T>,
        c: Complex<U>,
        d: Complex<U>,
        s: nat,
        r: nat,
    )
        requires
            self.links(m, other),
            self.has_room(s, r),
            self.complex_near(a, c, s, r),
            self.complex_near(b, d, s, r),
        ensures
            self.complex_near(m.complex_sum(a, b), other.complex_sum(c, d), 2 * s, r + 1),
            self.complex_near(
                m.complex_difference(a, b),
                other.complex_difference(c, d),
                2 * s,
                r + 1,
            ),
    {
        reveal(Rounding::links);
    }

    /// A complex product with a factor loses what the factor costs and one step more.
    pub proof fn law_complex_products_are_near(
        self,
        m: Model<T>,
        other: Model<U>,
        a: Complex<T>,
        b: Complex<U>,
        w: Complex<T>,
        v: Complex<U>,
        s: nat,
        r: nat,
    )
        requires
            self.links(m, other),
            self.has_room(s, r + self.cost),
            self.complex_near(a, b, s, r),
            self.complex_factor(w, v),
        ensures
            self.complex_near(
                m.complex_product(a, w),
                other.complex_product(b, v),
                2 * s,
                r + self.cost + 1,
            ),
    {
        reveal(Rounding::links);
        let q = r + self.cost;
        assert(self.has_room(s, r));
        assert((self.near)((m.product)(a.re, w.re), (other.product)(b.re, v.re), s, q));
        assert((self.near)((m.product)(a.im, w.im), (other.product)(b.im, v.im), s, q));
        assert((self.near)((m.product)(a.re, w.im), (other.product)(b.re, v.im), s, q));
        assert((self.near)((m.product)(a.im, w.re), (other.product)(b.im, v.re), s, q));
    }

    /// A number in polar form loses what its sine and cosine cost.
    pub proof fn law_polar_form_is_near(
        self,
        m: Model<T>,
        other: Model<U>,
        d: T,
        e: U,
        a: T,
        b: U,
        s: nat,
        r: nat,
    )
        requires
            self.links(m, other),
            self.has_room(s, r),
            (self.near)(d, e, s, r),
            (self.factor)((m.cosine)(a), (other.cosine)(b)),
            (self.factor)((m.sine)(a), (other.sine)(b)),
        ensures
            self.complex_near(m.polar(d, a), other.polar(e, b), s, r + self.cost),
    {
        reveal(Rounding::links);
    }

    /// So does the exponential, where it has no limit to take.
    pub proof fn law_exponential_is_near(
        self,
        m: Model<T>,
        other: Model<U>,
        a: Complex<T>,
        b: Complex<U>,
        s: nat,
        r: nat,
    )
        requires
            self.links(m, other),
            self.has_room(s, r),
            !m.takes_limit(a),
            !other.takes_limit(b),
            (self.near)((m.exponential)(a.re), (other.exponential)(b.re), s, r),
            (self.factor)((m.cosine)(a.im), (other.cosine)(b.im)),
            (self.factor)((m.sine)(a.im), (other.sine)(b.im)),
        ensures
            self.complex_near(
                m.complex_exponential(a),
                other.complex_exponential(b),
                s,
                r + self.cost,
            ),
    {
        self.law_polar_form_is_near(
            m,
            other,
            (m.exponential)(a.re),
            (other.exponential)(b.re),
            a.im,
            b.im,
            s,
            r,
        );
    }

    /// A moving average loses what its weights cost and one step more.
    pub proof fn law_average_is_near(
        self,
        m: Model<T>,
        other: Model<U>,
        average: T,
        bin: Complex<T>,
        average2: U,
        bin2: Complex<U>,
        s: nat,
        r: nat,
    )
        requires
            self.links(m, other),
            self.has_room(s, r + self.cost),
            (self.factor)(
                (m.quotient)((m.int_value)(1), (m.int_value)(2)),
                (other.quotient)((other.int_value)(1), (other.int_value)(2)),
            ),
            (self.near)(average, average2, s, r),
            (self.near)(
                (m.hypotenuse)(bin.re, bin.im),
                (other.hypotenuse)(bin2.re, bin2.im),
                s,
                r,
            ),
        ensures
            (self.near)(
                m.averaged(average, bin),
                other.averaged(average2, bin2),
                2 * s,
                r + self.cost + 1,
            ),
    {
        reveal(Rounding::links);
        let (half, half2) = (
            (m.quotient)((m.int_value)(1), (m.int_value)(2)),
            (other.quotient)((other.int_value)(1), (other.int_value)(2)),
        );
        let (level, level2) = (
            (m.hypotenuse)(bin.re, bin.im),
            (other.hypotenuse)(bin2.re, bin2.im),
        );
        let q = r + self.cost;
        assert(self.has_room(s, r));
        assert((self.near)((m.product)(half, average), (other.product)(half2, average2), s, q));
        assert((self.near)((m.product)(half, level), (other.product)(half2, level2), s, q));
    }

    /// The table of twiddle factors holds factors.
    proof fn lemma_twiddles_are_factors(self, m: Model<T>, other: Model<U>, n: int, k: int)
        requires
            self.has_factors(m, other, n),
            0 <= k <= n,
        ensures
            self.complex_factor(m.twiddle(n, k), other.twiddle(n, k)),
        decreases k,
    {
        if k <= 0 || k == n {
        } else if k < n / 4 {
            let (a, b) = (m.angle(n, k), other.angle(n, k));
            assert((self.factor)((m.cosine)(a), (other.cosine)(b)));
            assert((self.factor)((m.sine)(a), (other.sine)(b)));
        } else if k == n / 4 {
        } else if k < n / 2 && n / 4 > 0 {
            self.lemma_twiddles_are_factors(m, other, n, k - n / 4);
        } else if k == n / 2 || n / 2 <= 0 {
        } else {
            self.lemma_twiddles_are_factors(m, other, n, k - n / 2);
        }
    }

    /// A butterfly of four loses two steps.
    proof fn lemma_butterfly_is_near(
        self,
        m: Model<T>,
        other: Model<U>,
        x: (Complex<T>, Complex<T>, Complex<T>, Complex<T>),
        y: (Complex<U>, Complex<U>, Complex<U>, Complex<U>),
        p: int,
        s: nat,
        r: nat,
    )
        requires
            self.links(m, other),
            self.has_room(2 * s, r + 1),
            self.complex_near(x.0, y.0, s, r),
            self.complex_near(x.1, y.1, s, r),
            self.complex_near(x.2, y.2, s, r),
            self.complex_near(x.3, y.3, s, r),
        ensures
            self.complex_near(
                m.butterfly(x.0, x.1, x.2, x.3, p),
                other.butterfly(y.0, y.1, y.2, y.3, p),
                4 * s,
                r + 2,
            ),
    {
        self.law_complex_sums_are_near(m, other, x.0, x.2, y.0, y.2, s, r);
        self.law_complex_sums_are_near(m, other, x.1, x.3, y.1, y.3, s, r);
        let (t, u) = (m.complex_difference(x.1, x.3), other.complex_difference(y.1, y.3));
        assert(self.complex_near(m.times_i(t), other.times_i(u), 2 * s, r + 1)) by {
            reveal(Rounding::links);
        }
        let (a, b) = (m.complex_sum(x.0, x.2), other.complex_sum(y.0, y.2));
        let (c, d) = (m.complex_sum(x.1, x.3), other.complex_sum(y.1, y.3));
        let (e, f) = (m.complex_difference(x.0, x.2), other.complex_difference(y.0, y.2));
        self.law_complex_sums_are_near(m, other, a, c, b, d, 2 * s, r + 1);
        self.law_complex_sums_are_near(
            m,
            other,
            e,
            m.times_i(t),
            f,
            other.times_i(u),
            2 * s,
            r + 1,
        );
    }

    /// The same, inside sequences of whole blocks.
    proof fn lemma_butterfly_at_is_near(
        self,
        m: Model<T>,
        other: Model<U>,
        x: Seq<Complex<T>>,
        y: Seq<Complex<U>>,
        size: int,
        blocks: int,
        t: int,
        s: nat,
        r: nat,
    )
        requires
            self.links(m, other),
            self.has_room(2 * s, r + 1),
            self.all_near(x, y, s, r),
            size > 0,
            size == 4 * (size / 4),
            x.len() == size * blocks,
            0 <= t < x.len(),
        ensures
            self.complex_near(
                m.butterfly_at(x, size, t),
                other.butterfly_at(y, size, t),
                4 * s,
                r + 2,
            ),
    {
        let q = size / 4;
        let i = first_point(size, t);
        crate::network::lemma_first_point(size, blocks, t);
        assert(self.complex_near(x[i], y[i], s, r));
        assert(self.complex_near(x[i + q], y[i + q], s, r));
        assert(self.complex_near(x[i + 2 * q], y[i + 2 * q], s, r));
        assert(self.complex_near(x[i + 3 * q], y[i + 3 * q], s, r));
        self.lemma_butterfly_is_near(
            m,
            other,
            (x[i], x[i + q], x[i + 2 * q], x[i + 3 * q]),
            (y[i], y[i + q], y[i + 2 * q], y[i + 3 * q]),
            result_at(size, t),
            s,
            r,
        );
    }

    /// One pass loses what a factor costs and three steps more.
    proof fn lemma_pass_is_near(
        self,
        m: Model<T>,
        other: Model<U>,
        x: Seq<Complex<T>>,
        y: Seq<Complex<U>>,
        size: int,
        blocks: int,
        s: nat,
        r: nat,
    )
        requires
            self.links(m, other),
            self.has_factors(m, other, x.len() as int),
            self.has_room(4 * s, r + 2 + self.cost),
            self.all_near(x, y, s, r),
            size > 4,
            size == 4 * (size / 4),
            blocks > 0,
            x.len() == size * blocks,
        ensures
            self.all_near(
                m.pass(x, m.twiddles(x.len() as int), size),
                other.pass(y, other.twiddles(x.len() as int), size),
                8 * s,
                r + 3 + self.cost,
            ),
    {
        let n = x.len() as int;
        let q = size / 4;
        let (w, v) = (m.twiddles(n), other.twiddles(n));
        let (a, b) = (m.pass(x, w, size), other.pass(y, v, size));
        assert forall|t: int| 0 <= t < a.len() implies self.complex_near(
            #[trigger] a[t],
            b[t],
            8 * s,
            r + 3 + self.cost,
        ) by {
            let (c, d) = (m.butterfly_at(x, size, t), other.butterfly_at(y, size, t));
            let p = result_at(size, t);
            self.lemma_butterfly_at_is_near(m, other, x, y, size, blocks, t, s, r);
            if p == 0 {
                self.lemma_near_widens(
                    m,
                    other,
                    c,
                    d,
                    4 * s,
                    r + 2,
                    8 * s,
                    r + 3 + self.cost,
                );
            } else {
                let i = t % q;
                let k = i * (n / size) * p;
                crate::network::lemma_digits_of(size, q, t);
                assert(n / size == blocks) by (nonlinear_arith)
                    requires
                        n == size * blocks,
                        size > 0,
                ;
                assert(0 <= k < n) by (nonlinear_arith)
                    requires
                        k == i * blocks * p,
                        0 <= i < q,
                        0 <= p < 4,
                        0 < blocks,
                        n == size * blocks,
                        size == 4 * q,
                ;
                self.lemma_twiddles_are_factors(m, other, n, k);
                self.law_complex_products_are_near(m, other, c, d, w[k], v[k], 4 * s, r + 2);
            }
        }
    }

    /// The passes from the block size `size` on.
    proof fn lemma_passes_are_near(
        self,
        m: Model<T>,
        other: Model<U>,
        x: Seq<Complex<T>>,
        y: Seq<Complex<U>>,
        size: int,
        blocks: int,
        s: nat,
        r: nat,
    )
        requires
            self.links(m, other),
            self.has_factors(m, other, x.len() as int),
            self.all_near(x, y, s, r),
            is_power_of_two(size),
            size >= 2,
            blocks > 0,
            x.len() == size * blocks,
            0 < s,
            growth(size) * s <= self.top,
            r + loss(size, self.cost) <= loss_limit(),
        ensures
            self.all_near(
                m.passes(x, m.twiddles(x.len() as int), size),
                other.passes(y, other.twiddles(x.len() as int), size),
                growth(size) * s,
                r + loss(size, self.cost),
            ),
            m.passes(x, m.twiddles(x.len() as int), size).len() == x.len(),
        decreases size,
    {
        let n = x.len() as int;
        let (w, v) = (m.twiddles(n), other.twiddles(n));
        if size > 4 {
            let q = size / 4;
            crate::network::lemma_quarter(size);
            lemma_growth(q, self.cost);
            assert(growth(size) * s == growth(q) * (8 * s)) by (nonlinear_arith)
                requires
                    growth(size) == 8 * growth(q),
            ;
            assert(8 * s <= growth(q) * (8 * s)) by (nonlinear_arith)
                requires
                    growth(q) >= 1,
            ;
            assert(q * (4 * blocks) == size * blocks) by (nonlinear_arith)
                requires
                    size == 4 * q,
            ;
            self.lemma_pass_is_near(m, other, x, y, size, blocks, s, r);
            self.lemma_passes_are_near(
                m,
                other,
                m.pass(x, w, size),
                other.pass(y, v, size),
                q,
                4 * blocks,
                8 * s,
                r + 3 + self.cost,
            );
        } else if size == 4 {
            let (a, b) = (m.pass_of_four(x), other.pass_of_four(y));
            assert forall|t: int| 0 <= t < a.len() implies self.complex_near(
                #[trigger] a[t],
                b[t],
                4 * s,
                r + 2,
            ) by {
                self.lemma_butterfly_at_is_near(m, other, x, y, 4, blocks, t, s, r);
            }
        } else {
            reveal_with_fuel(is_power_of_two, 3);
            assert(size == 2);
            let (a, b) = (m.pass_of_two(x), other.pass_of_two(y));
            assert forall|t: int| 0 <= t < a.len() implies self.complex_near(
                #[trigger] a[t],
                b[t],
                2 * s,
                r + 1,
            ) by {
                let e = t - t % 2;
                assert(x.len() == 2 * blocks);
                assert(self.complex_near(x[e], y[e], s, r));
                assert(self.complex_near(x[e + 1], y[e + 1], s, r));
                self.law_complex_sums_are_near(
                    m,
                    other,
                    x[e],
                    x[e + 1],
                    y[e],
                    y[e + 1],
                    s,
                    r,
                );
            }
        }
    }

    /// Transforms stay near each other: of frames within `s`, the results lie within
    /// `growth(n) * s`, and lose `loss(n, cost)` steps on the way. Nothing else comes in:
    /// however small the frames are, the error is small against them.
    pub proof fn law_transforms_are_near(
        self,
        m: Model<T>,
        other: Model<U>,
        x: Seq<Complex<T>>,
        y: Seq<Complex<U>>,
        s: nat,
        r: nat,
        k: int,
    )
        requires
            self.links(m, other),
            self.has_factors(m, other, x.len() as int),
            self.all_near(x, y, s, r),
            is_power_of_two(x.len() as int),
            0 < s,
            growth(x.len() as int) * s <= self.top,
            r + loss(x.len() as int, self.cost) <= loss_limit(),
            0 <= k < x.len(),
        ensures
            self.complex_near(
                m.transform(x)[k],
                other.transform(y)[k],
                growth(x.len() as int) * s,
                r + loss(x.len() as int, self.cost),
            ),
    {
        let n = x.len() as int;
        if n == 1 {
            assert(growth(n) * s >= s) by (nonlinear_arith)
                requires
                    growth(n) == 2,
            ;
            assert(self.complex_near(x[k], y[k], s, r));
            self.lemma_near_widens(
                m,
                other,
                x[k],
                y[k],
                s,
                r,
                growth(n) * s,
                r + loss(n, self.cost),
            );
        } else {
            self.lemma_passes_are_near(m, other, x, y, n, 1, s, r);
            crate::network::law_frequencies_have_positions(n, k);
            let pos = position_of(n, k);
            let (a, b) = (m.passes(x, m.twiddles(n), n), other.passes(y, other.twiddles(n), n));
            assert(self.complex_near(
                a[pos],
                b[pos],
                growth(n) * s,
                r + loss(n, self.cost),
            ));
        }
    }

    /// A transform with rounding is near the discrete Fourier transform: held against
    /// exact angles, the error is that of [`Rounding::law_transforms_are_near`].
    pub proof fn law_transform_is_near_fourier(
        self,
        m: Model<T>,
        other: Model<U>,
        x: Seq<Complex<T>>,
        y: Seq<Complex<U>>,
        s: nat,
        r: nat,
        k: int,
    )
        requires
            self.links(m, other),
            self.has_factors(m, other, x.len() as int),
            other.has_exact_angles(x.len() as int),
            self.all_near(x, y, s, r),
            is_power_of_two(x.len() as int),
            0 < s,
            growth(x.len() as int) * s <= self.top,
            r + loss(x.len() as int, self.cost) <= loss_limit(),
            0 <= k < x.len(),
        ensures
            self.complex_near(
                m.transform(x)[k],
                other.complex_ring().dft(y, other.first_step(y.len() as int), k as nat),
                growth(x.len() as int) * s,
                r + loss(x.len() as int, self.cost),
            ),
    {
        self.law_transforms_are_near(m, other, x, y, s, r, k);
        other.law_transform_is_fourier_of_angles(y, k);
    }
}

/// How much larger a transform of `n` points is than its frames, at most.
pub open spec fn growth(n: int) -> nat
    decreases n,
{
    if n > 4 {
        8 * growth(n / 4)
    } else if n == 4 {
        4
    } else {
        2
    }
}

/// How many steps a transform of `n` points loses, where a product with a factor costs
/// `cost` of them.
pub open spec fn loss(n: int, cost: nat) -> nat
    decreases n,
{
    if n > 4 {
        3 + cost + loss(n / 4, cost)
    } else if n == 4 {
        2
    } else {
        1
    }
}

proof fn lemma_growth(n: int, cost: nat)
    ensures
        growth(n) >= 2,
        loss(n, cost) >= 1,
    decreases n,
{
    if n > 4 {
        lemma_growth(n / 4, cost);
    }
}

/// Transforms of up to 2048 points grow by at most 65536, and lose at most what five
/// factors cost and sixteen steps more.
pub proof fn law_little_is_lost(n: int, cost: nat)
    requires
        is_power_of_two(n),
        n <= 2048,
    ensures
        growth(n) <= 0x1_0000,
        loss(n, cost) <= 5 * cost + 16,
{
    reveal_with_fuel(is_power_of_two, 13);
    reveal_with_fuel(growth, 6);
    reveal_with_fuel(loss, 6);
}

impl<T> Model<T> {
    /// `scale` goes through sums, differences and negations, and through products with
    /// `factors`: zero, one, what is computed for the first quarter of a circle of `n`
    /// steps, and negations of factors.
    pub open spec fn scales(
        self,
        scale: spec_fn(T) -> T,
        factors: spec_fn(T) -> bool,
        n: int,
    ) -> bool {
        &&& forall|a: T, b: T| #[trigger]
            (self.sum)(scale(a), scale(b)) == scale((self.sum)(a, b))
        &&& forall|a: T, b: T| #[trigger]
            (self.difference)(scale(a), scale(b)) == scale((self.difference)(a, b))
        &&& forall|a: T| #[trigger] (self.negation)(scale(a)) == scale((self.negation)(a))
        &&& forall|a: T, w: T| #[trigger]
            factors(w) ==> #[trigger] (self.product)(scale(a), w) == scale((self.product)(a, w))
        &&& forall|a: T, w: T| #[trigger]
            factors(w) ==> #[trigger] (self.product)(w, scale(a)) == scale((self.product)(w, a))
        &&& are_factors(|w: T, v: T| w == v && factors(w), self, self, n)
    }

    /// Scaling goes through a transform: the transform of scaled frames is the scaled
    /// transform, for every scale that goes through the single operations, as halving
    /// does in binary floating point short of underflow.
    pub proof fn law_transform_scales(
        self,
        scale: spec_fn(T) -> T,
        factors: spec_fn(T) -> bool,
        x: Seq<Complex<T>>,
        y: Seq<Complex<T>>,
        k: int,
    )
        requires
            self.scales(scale, factors, x.len() as int),
            is_power_of_two(x.len() as int),
            x.len() <= 2048,
            x.len() == y.len(),
            forall|i: int|
                0 <= i < x.len() ==> (#[trigger] y[i]).re == scale(x[i].re) && y[i].im == scale(
                    x[i].im,
                ),
            0 <= k < x.len(),
        ensures
            self.transform(y)[k].re == scale(self.transform(x)[k].re),
            self.transform(y)[k].im == scale(self.transform(x)[k].im),
    {
        let n = x.len() as int;
        let rounding = Rounding::<T, T> {
            near: |t: T, u: T, s: nat, r: nat| u == scale(t),
            factor: |w: T, v: T| w == v && factors(w),
            cost: 0,
            top: growth(n),
        };
        assert(rounding.links(self, self)) by {
            reveal(Rounding::links);
        }
        assert(rounding.has_factors(self, self, n));
        law_little_is_lost(n, 0);
        assert forall|i: int| 0 <= i < n implies rounding.complex_near(
            #[trigger] x[i],
            y[i],
            1,
            0,
        ) by {
            assert(y[i].re == scale(x[i].re));
        }
        rounding.law_transforms_are_near(self, self, x, y, 1, 0, k);
    }
}

} // verus!
