//! Where the roots of unity come from: exact arithmetic with the laws of sine and
//! cosine.
use crate::arithmetic::Model;
use crate::complex::Complex;
use crate::network::{is_circle, is_power_of_two};
use vstd::prelude::*;

verus! {

impl<T> Model<T> {
    /// Integers are added as their numbers are.
    pub open spec fn counts(self) -> bool {
        forall|a: int, b: int| #[trigger]
            (self.sum)((self.int_value)(a), (self.int_value)(b)) == (self.int_value)(a + b)
    }

    /// A division by `n` and a product with `n` undo each other.
    pub open spec fn divides(self, n: int) -> bool {
        &&& forall|a: T|
            (self.product)(
                #[trigger] (self.quotient)(a, (self.int_value)(n)),
                (self.int_value)(n),
            ) == a
        &&& forall|a: T|
            (self.quotient)(
                #[trigger] (self.product)(a, (self.int_value)(n)),
                (self.int_value)(n),
            ) == a
    }

    /// Sine and cosine have their addition formulas and their values at a quarter turn,
    /// and `e` to the power zero is one.
    pub open spec fn is_trigonometric(self) -> bool {
        let zero = (self.int_value)(0);
        let one = (self.int_value)(1);
        let quarter = (self.quotient)(self.turn(), (self.int_value)(4));
        &&& !(self.infinite)(zero)
        &&& !(self.not_a_number)(zero)
        &&& (self.exponential)(zero) == one
        &&& forall|a: T, b: T| #[trigger]
            (self.cosine)((self.sum)(a, b)) == (self.difference)(
                (self.product)((self.cosine)(a), (self.cosine)(b)),
                (self.product)((self.sine)(a), (self.sine)(b)),
            )
        &&& forall|a: T, b: T| #[trigger]
            (self.sine)((self.sum)(a, b)) == (self.sum)(
                (self.product)((self.cosine)(a), (self.sine)(b)),
                (self.product)((self.sine)(a), (self.cosine)(b)),
            )
        &&& (self.cosine)(quarter) == zero
        &&& (self.sine)(quarter) == (self.negation)(one)
    }

    /// Nothing is rounded, sine and cosine are exact, and a turn can be divided into
    /// four and into `n` parts.
    pub open spec fn has_exact_angles(self, n: int) -> bool {
        &&& self.exact()
        &&& self.counts()
        &&& self.divides(4)
        &&& self.divides(n)
        &&& self.is_trigonometric()
    }

    /// The squares of sine and cosine add up to one.
    pub open spec fn is_pythagorean(self) -> bool {
        forall|a: T|
            (self.sum)(
                (self.product)(#[trigger] (self.cosine)(a), (self.cosine)(a)),
                (self.product)((self.sine)(a), (self.sine)(a)),
            ) == (self.int_value)(1)
    }

    /// `e` to the power of a sum is the product of the powers.
    pub open spec fn is_exponential(self) -> bool {
        forall|a: T, b: T| #[trigger]
            (self.exponential)((self.sum)(a, b)) == (self.product)(
                (self.exponential)(a),
                (self.exponential)(b),
            )
    }

    /// The exponential of `a` is a limit: the real part is infinite and the direction is
    /// none, or the real part is plus infinity on the real axis, or it is "not a number"
    /// there.
    pub open spec fn takes_limit(self, a: Complex<T>) -> bool {
        let on_axis = (self.equals)(a.im, (self.int_value)(0));
        ||| (self.infinite)(a.re) && !(self.finite)(a.im)
        ||| (self.infinite)(a.re) && !(self.below)(a.re, (self.int_value)(0)) && on_axis
        ||| !(self.infinite)(a.re) && (self.not_a_number)(a.re) && on_axis
    }

    /// Polar form and exponential: a number at a distance is the distance times the
    /// number with the cosine and the sine of its direction as parts; the exponential is
    /// the number at the distance `e^re` in the direction `im`, unless it is a limit.
    pub proof fn law_polar_form(self, d: T, a: Complex<T>)
        requires
            self.exact(),
        ensures
            ({
                let zero = (self.int_value)(0);
                let direction = Complex { re: (self.cosine)(a.im), im: (self.sine)(a.im) };
                &&& self.polar(d, a.im) == self.complex_product(
                    Complex { re: d, im: zero },
                    direction,
                )
                &&& !self.takes_limit(a) ==> self.complex_exponential(a) == self.complex_product(
                    Complex { re: (self.exponential)(a.re), im: zero },
                    direction,
                )
            }),
    {
        let r = self.ring();
        let e = (self.exponential)(a.re);
        let (c, s) = ((self.cosine)(a.im), (self.sine)(a.im));
        r.times_zero(c);
        r.times_zero(s);
        r.plus_minus(r.zero);
        r.plus_zero(r.minus(r.zero));
        r.plus_zero(r.times(d, c));
        r.plus_zero(r.times(d, s));
        r.plus_zero(r.times(e, c));
        r.plus_zero(r.times(e, s));
    }

    /// The real part is a number, and no infinity.
    pub open spec fn is_bounded(self, a: Complex<T>) -> bool {
        !(self.infinite)(a.re) && !(self.not_a_number)(a.re)
    }

    /// `(x * p) * (y * q) == (x * y) * (p * q)`.
    proof fn lemma_factors_exchange(self, x: T, p: T, y: T, q: T)
        requires
            self.exact(),
        ensures
            (self.product)((self.product)(x, p), (self.product)(y, q)) == (self.product)(
                (self.product)(x, y),
                (self.product)(p, q),
            ),
    {
        let r = self.ring();
        r.times_associates(x, p, r.times(y, q));
        r.times_associates(p, y, q);
        r.times_commutes(p, y);
        r.times_associates(y, p, q);
        r.times_associates(x, y, r.times(p, q));
    }

    /// The exponential turns sums into products: `e^(a + b) == e^a * e^b`.
    pub proof fn law_exponential_of_a_sum(self, a: Complex<T>, b: Complex<T>)
        requires
            self.exact(),
            self.is_trigonometric(),
            self.is_exponential(),
            self.is_bounded(a),
            self.is_bounded(b),
            self.is_bounded(self.complex_sum(a, b)),
        ensures
            self.complex_exponential(self.complex_sum(a, b)) == self.complex_product(
                self.complex_exponential(a),
                self.complex_exponential(b),
            ),
    {
        let r = self.ring();
        let (x, y) = ((self.exponential)(a.re), (self.exponential)(b.re));
        let (ca, sa) = ((self.cosine)(a.im), (self.sine)(a.im));
        let (cb, sb) = ((self.cosine)(b.im), (self.sine)(b.im));
        let e = (self.exponential)((self.sum)(a.re, b.re));
        let c = self.complex_sum(a, b);
        assert(e == r.times(x, y));
        assert((self.cosine)(c.im) == (self.difference)(r.times(ca, cb), r.times(sa, sb)));
        assert((self.sine)(c.im) == r.plus(r.times(ca, sb), r.times(sa, cb)));
        self.lemma_factors_exchange(x, ca, y, cb);
        self.lemma_factors_exchange(x, sa, y, sb);
        self.lemma_factors_exchange(x, ca, y, sb);
        self.lemma_factors_exchange(x, sa, y, cb);
        r.times_distributes(e, r.times(ca, sb), r.times(sa, cb));
        r.times_distributes(e, r.times(ca, cb), r.minus(r.times(sa, sb)));
        r.times_minus(e, r.times(sa, sb));
    }

    /// On the imaginary axis, the exponential is the number in that direction; on the
    /// real axis, it is that of the real numbers.
    pub proof fn law_exponential_on_the_axes(self, a: T)
        requires
            self.exact(),
            self.is_trigonometric(),
        ensures
            self.complex_exponential(Complex { re: (self.int_value)(0), im: a }) == (Complex {
                re: (self.cosine)(a),
                im: (self.sine)(a),
            }),
            !(self.infinite)(a) && !(self.not_a_number)(a) ==> self.complex_exponential(
                Complex { re: a, im: (self.int_value)(0) },
            ) == (Complex { re: (self.exponential)(a), im: (self.int_value)(0) }),
    {
        let r = self.ring();
        r.times_one((self.cosine)(a));
        r.times_one((self.sine)(a));
        // The sine and the cosine of zero.
        let quarter = (self.quotient)(self.turn(), (self.int_value)(4));
        let (c, s) = ((self.cosine)(r.zero), (self.sine)(r.zero));
        r.plus_zero(quarter);
        assert((self.cosine)((self.sum)(quarter, r.zero)) == r.zero);
        assert((self.sine)((self.sum)(quarter, r.zero)) == r.minus(r.one));
        r.times_zero(c);
        r.times_zero(s);
        r.times_minus(r.one, s);
        r.times_minus(r.one, c);
        r.times_one(s);
        r.times_one(c);
        r.minus_minus(s);
        r.minus_minus(c);
        r.minus_minus(r.one);
        r.plus_zero(s);
        r.plus_zero(r.minus(c));
        assert(s == r.zero);
        assert(c == r.one);
        r.times_one((self.exponential)(a));
        r.times_zero((self.exponential)(a));
    }

    /// The exponential where the real part is no bounded number: towards minus infinity
    /// it is zero in every direction that is none; towards plus infinity the number is
    /// handed back on the real axis and in a direction that is "not a number", and an
    /// infinite direction becomes "not a number"; and "not a number" on the real axis is
    /// handed back.
    pub proof fn law_exponential_at_the_infinities(self, a: Complex<T>)
        ensures
            ({
                let zero = (self.int_value)(0);
                let r = self.complex_exponential(a);
                &&& (self.infinite)(a.re) && (self.below)(a.re, zero) && !(self.finite)(a.im)
                    ==> r.re == zero && r.im == zero
                &&& (self.infinite)(a.re) && !(self.below)(a.re, zero) && (self.equals)(
                    a.im,
                    zero,
                ) && !(self.infinite)(a.im) ==> r == a
                &&& (self.infinite)(a.re) && !(self.below)(a.re, zero) && !(self.finite)(a.im)
                    && !(self.infinite)(a.im) ==> r == a
                &&& (self.infinite)(a.re) && !(self.below)(a.re, zero) && !(self.finite)(a.im)
                    && (self.infinite)(a.im) ==> r.re == a.re && r.im == self.nan
                &&& !(self.infinite)(a.re) && (self.not_a_number)(a.re) && (self.equals)(
                    a.im,
                    zero,
                ) ==> r == a
            }),
    {
    }

    /// The first step round a circle of `n` steps.
    pub open spec fn first_step(self, n: int) -> Complex<T> {
        if n == 1 {
            self.complex_one()
        } else if n == 2 {
            self.minus_one()
        } else if n == 4 {
            self.minus_i()
        } else {
            self.part_w(n, 1)
        }
    }

    /// `e` to an imaginary power has cosine and sine as its parts.
    proof fn lemma_part_w(self, n: int, k: int)
        requires
            self.exact(),
            self.is_trigonometric(),
        ensures
            self.part_w(n, k) == (Complex {
                re: (self.cosine)(self.angle(n, k)),
                im: (self.sine)(self.angle(n, k)),
            }),
    {
        let r = self.ring();
        r.times_one((self.cosine)(self.angle(n, k)));
        r.times_one((self.sine)(self.angle(n, k)));
    }

    /// The steps round a circle are the powers of the first one.
    proof fn lemma_steps_are_powers(self, n: int, k: nat)
        requires
            self.exact(),
            self.counts(),
            self.is_trigonometric(),
            k > 0,
        ensures
            self.part_w(n, k as int) == self.complex_ring().power(self.part_w(n, 1), k),
        decreases k,
    {
        let c = self.complex_ring();
        let root = self.part_w(n, 1);
        self.law_complex_numbers_form_a_ring();
        if k == 1 {
            c.power_one(root);
        } else {
            let r = self.ring();
            let j = (k - 1) as nat;
            let step = (self.quotient)(self.turn(), (self.int_value)(n));
            self.lemma_steps_are_powers(n, j);
            self.lemma_part_w(n, 1);
            self.lemma_part_w(n, j as int);
            self.lemma_part_w(n, k as int);
            assert((self.sum)((self.int_value)(j as int), (self.int_value)(1)) == (self.int_value)(
                k as int,
            ));
            r.times_distributes(step, (self.int_value)(j as int), (self.int_value)(1));
            assert(self.angle(n, k as int) == (self.sum)(
                self.angle(n, j as int),
                self.angle(n, 1),
            ));
        }
    }

    /// A quarter of the steps are a quarter of the turn.
    proof fn lemma_quarter_angle(self, n: int)
        requires
            self.has_exact_angles(n),
            n > 0,
            n % 4 == 0,
        ensures
            self.angle(n, n / 4) == (self.quotient)(self.turn(), (self.int_value)(4)),
    {
        let r = self.ring();
        let q = n / 4;
        let (one, two, four) = ((self.int_value)(1), (self.int_value)(2), (self.int_value)(4));
        let (a, b) = ((self.int_value)(q), (self.int_value)(q + q));
        let step = (self.quotient)(self.turn(), (self.int_value)(n));
        assert(r.plus(one, one) == two);
        assert(r.plus(two, two) == four);
        assert(r.plus(a, a) == b);
        assert(r.plus(b, b) == (self.int_value)(n));
        r.times_one(a);
        r.times_distributes(a, one, one);
        r.times_distributes(a, two, two);
        assert(r.times(a, four) == (self.int_value)(n));
        r.times_associates(step, a, four);
        assert((self.product)(step, (self.int_value)(n)) == self.turn());
        assert((self.product)(self.angle(n, q), four) == self.turn());
    }

    /// Where angles are exact, the first step round a circle of at least eight steps,
    /// which is computed, is a root of unity.
    pub proof fn law_first_step_computed_is_root(self, n: int)
        requires
            self.has_exact_angles(n),
            n >= 8,
            n % 4 == 0,
        ensures
            self.is_root(n, self.part_w(n, 1)),
    {
        let c = self.complex_ring();
        let root = self.part_w(n, 1);
        let q = n / 4;
        self.law_complex_numbers_form_a_ring();
        assert forall|k: int| 0 < k < q implies #[trigger] self.part_w(n, k) == c.power(
            root,
            k as nat,
        ) by {
            self.lemma_steps_are_powers(n, k as nat);
        }
        self.lemma_steps_are_powers(n, q as nat);
        self.lemma_part_w(n, q);
        self.lemma_quarter_angle(n);
        assert(c.power(root, q as nat) == self.minus_i());
        c.power_adds(root, q as nat, q as nat);
        assert(n / 2 == q + q);
        self.law_turns(self.complex_one(), self.complex_one());
    }

    /// Where angles are exact, the first step round a circle is a root of unity.
    pub proof fn law_first_step_is_root(self, n: int)
        requires
            self.has_exact_angles(n),
            is_circle(n),
        ensures
            self.is_root(n, self.first_step(n)),
    {
        let c = self.complex_ring();
        let root = self.first_step(n);
        self.law_complex_numbers_form_a_ring();
        self.law_turns(self.complex_one(), self.complex_one());
        if n > 4 {
            self.law_first_step_computed_is_root(n);
        } else {
            c.power_one(root);
            c.power_adds(root, 1, 1);
        }
    }

    /// The first step round a circle lies on the unit circle.
    pub proof fn law_first_step_lies_on_the_circle(self, n: int)
        requires
            self.exact(),
            self.is_trigonometric(),
            self.is_pythagorean(),
        ensures
            self.complex_product(self.first_step(n), self.conjugate(self.first_step(n)))
                == self.complex_one(),
    {
        let r = self.ring();
        let a = self.first_step(n);
        // The product is the sum of the squares of the parts.
        r.times_minus(a.im, a.im);
        r.minus_minus(r.times(a.im, a.im));
        r.times_minus(a.re, a.im);
        r.times_commutes(a.re, a.im);
        r.plus_minus(r.times(a.im, a.re));
        let square = r.plus(r.times(a.re, a.re), r.times(a.im, a.im));
        assert(self.complex_product(a, self.conjugate(a)) == (Complex { re: square, im: r.zero }));
        r.times_one(r.one);
        r.times_zero(r.zero);
        r.plus_zero(r.one);
        r.times_minus(r.one, r.minus(r.one));
        r.times_one(r.minus(r.one));
        r.minus_minus(r.one);
        if n != 1 && n != 2 && n != 4 {
            self.lemma_part_w(n, 1);
        }
    }

    /// Where angles are exact, a transform computes the discrete Fourier transform with
    /// the first step round the circle as its root.
    pub proof fn law_transform_is_fourier_of_angles(self, x: Seq<Complex<T>>, k: int)
        requires
            self.has_exact_angles(x.len() as int),
            is_power_of_two(x.len() as int),
            0 <= k < x.len(),
        ensures
            self.transform(x)[k] == self.complex_ring().dft(
                x,
                self.first_step(x.len() as int),
                k as nat,
            ),
    {
        let n = x.len() as int;
        crate::network::lemma_circle(n);
        self.law_first_step_is_root(n);
        self.law_transform_is_fourier(x, self.first_step(n), k);
    }

    /// A multiple is a product.
    proof fn lemma_multiple_is_product(self, n: nat, a: T)
        requires
            self.exact(),
            self.counts(),
        ensures
            self.ring().multiple(n, a) == (self.product)(a, (self.int_value)(n as int)),
        decreases n,
    {
        let r = self.ring();
        if n == 0 {
            r.times_zero(a);
        } else {
            let k = n - 1;
            self.lemma_multiple_is_product(k as nat, a);
            assert((self.sum)((self.int_value)(k), (self.int_value)(1)) == (self.int_value)(
                n as int,
            ));
            r.times_distributes(a, (self.int_value)(k), (self.int_value)(1));
            r.times_one(a);
        }
    }

    /// Where angles are exact, conjugating the terms, transforming, conjugating again
    /// and dividing by the number of points undoes a transform.
    pub proof fn law_transform_is_undone_by_angles(self, x: Seq<Complex<T>>, t: int)
        requires
            self.has_exact_angles(x.len() as int),
            self.is_pythagorean(),
            is_power_of_two(x.len() as int),
            0 <= t < x.len(),
        ensures
            (self.quotient)(
                self.backward(self.transform(x))[t].re,
                (self.int_value)(x.len() as int),
            ) == x[t].re,
            (self.quotient)(
                self.backward(self.transform(x))[t].im,
                (self.int_value)(x.len() as int),
            ) == x[t].im,
    {
        let n = x.len() as int;
        crate::network::lemma_circle(n);
        self.law_first_step_is_root(n);
        self.law_first_step_lies_on_the_circle(n);
        assert(self.divides_by(x.len())) by {
            assert forall|a: T|
                (self.quotient)(
                    #[trigger] self.ring().multiple(x.len(), a),
                    (self.int_value)(n),
                ) == a by {
                self.lemma_multiple_is_product(x.len(), a);
            }
        }
        self.law_transform_is_undone(x, self.first_step(n), t);
    }
}

} // verus!
