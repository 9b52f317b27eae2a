//! Models in which arithmetic is exact.
use crate::arithmetic::Model;
use crate::complex::Complex;
use crate::ring::Ring;
use vstd::prelude::*;

verus! {

impl<T> Model<T> {
    /// The numbers of the model with their sum, product and negation.
    pub open spec fn ring(self) -> Ring<T> {
        Ring {
            zero: (self.int_value)(0),
            one: (self.int_value)(1),
            sum: self.sum,
            product: self.product,
            negation: self.negation,
        }
    }

    /// The complex numbers of the model with their sum, product and negation.
    pub open spec fn complex_ring(self) -> Ring<Complex<T>> {
        Ring {
            zero: self.complex_zero(),
            one: self.complex_one(),
            sum: |a: Complex<T>, b: Complex<T>| self.complex_sum(a, b),
            product: |a: Complex<T>, b: Complex<T>| self.complex_product(a, b),
            negation: |a: Complex<T>| self.complex_negation(a),
        }
    }

    /// Nothing is rounded: the numbers are a commutative ring, in which a difference
    /// is the sum with the negation.
    pub open spec fn exact(self) -> bool {
        &&& self.ring().lawful()
        &&& forall|a: T, b: T| #[trigger] (self.difference)(a, b) == (self.sum)(a, (self.negation)(b))
    }

    /// `a * (b - c) == a * b - a * c` and `(b - c) * a == b * a - c * a`.
    proof fn lemma_times_difference(self, a: T, b: T, c: T)
        requires
            self.exact(),
        ensures
            (self.product)(a, (self.difference)(b, c)) == (self.difference)(
                (self.product)(a, b),
                (self.product)(a, c),
            ),
            (self.product)((self.difference)(b, c), a) == (self.difference)(
                (self.product)(b, a),
                (self.product)(c, a),
            ),
    {
        let r = self.ring();
        r.times_distributes(a, b, r.minus(c));
        r.times_minus(a, c);
        r.times_minus(c, a);
    }

    proof fn lemma_complex_plus_laws(self)
        requires
            self.exact(),
        ensures
            ({
                let c = self.complex_ring();
                &&& forall|a: Complex<T>, b: Complex<T>| #[trigger] c.plus(a, b) == c.plus(b, a)
                &&& forall|a: Complex<T>, b: Complex<T>, d: Complex<T>| #[trigger]
                    c.plus(c.plus(a, b), d) == c.plus(a, c.plus(b, d))
                &&& forall|a: Complex<T>| #[trigger] c.plus(a, c.zero) == a
                &&& forall|a: Complex<T>| c.plus(a, #[trigger] c.minus(a)) == c.zero
            }),
    {
        let r = self.ring();
        let c = self.complex_ring();
        assert forall|a: Complex<T>, b: Complex<T>| #[trigger] c.plus(a, b) == c.plus(b, a) by {
            r.plus_commutes(a.re, b.re);
            r.plus_commutes(a.im, b.im);
        }
        assert forall|a: Complex<T>, b: Complex<T>, d: Complex<T>| #[trigger]
            c.plus(c.plus(a, b), d) == c.plus(a, c.plus(b, d)) by {
            r.plus_associates(a.re, b.re, d.re);
            r.plus_associates(a.im, b.im, d.im);
        }
        assert forall|a: Complex<T>| #[trigger] c.plus(a, c.zero) == a by {
            r.plus_zero(a.re);
            r.plus_zero(a.im);
        }
        assert forall|a: Complex<T>| c.plus(a, #[trigger] c.minus(a)) == c.zero by {
            r.plus_minus(a.re);
            r.plus_minus(a.im);
        }
    }

    proof fn lemma_complex_times_commutes(self, a: Complex<T>, b: Complex<T>)
        requires
            self.exact(),
        ensures
            self.complex_product(a, b) == self.complex_product(b, a),
    {
        let r = self.ring();
        r.times_commutes(a.re, b.re);
        r.times_commutes(a.im, b.im);
        r.times_commutes(a.re, b.im);
        r.times_commutes(a.im, b.re);
        r.plus_commutes(r.times(a.re, b.im), r.times(a.im, b.re));
    }

    proof fn lemma_complex_times_associates(self, a: Complex<T>, b: Complex<T>, c: Complex<T>)
        requires
            self.exact(),
        ensures
            self.complex_product(self.complex_product(a, b), c) == self.complex_product(
                a,
                self.complex_product(b, c),
            ),
    {
        let r = self.ring();
        let rr = r.times(a.re, b.re);
        let ii = r.times(a.im, b.im);
        let ri = r.times(a.re, b.im);
        let ir = r.times(a.im, b.re);
        // The product from the left.
        self.lemma_times_difference(c.re, rr, ii);
        self.lemma_times_difference(c.im, rr, ii);
        r.times_distributes(c.im, ri, ir);
        r.times_distributes(c.re, ri, ir);
        // The product from the right.
        self.lemma_times_difference(a.re, r.times(b.re, c.re), r.times(b.im, c.im));
        self.lemma_times_difference(a.im, r.times(b.re, c.re), r.times(b.im, c.im));
        r.times_distributes(a.im, r.times(b.re, c.im), r.times(b.im, c.re));
        r.times_distributes(a.re, r.times(b.re, c.im), r.times(b.im, c.re));
        // The terms of both.
        r.times_associates(a.re, b.re, c.re);
        r.times_associates(a.im, b.im, c.re);
        r.times_associates(a.re, b.im, c.im);
        r.times_associates(a.im, b.re, c.im);
        r.times_associates(a.re, b.re, c.im);
        r.times_associates(a.im, b.im, c.im);
        r.times_associates(a.re, b.im, c.re);
        r.times_associates(a.im, b.re, c.re);
        let t1 = r.times(rr, c.re);
        let t2 = r.times(ii, c.re);
        let t3 = r.times(ri, c.im);
        let t4 = r.times(ir, c.im);
        r.minus_plus(t3, t4);
        r.minus_plus(t4, t2);
        r.plus_exchanges(t1, r.minus(t2), r.minus(t3), r.minus(t4));
        r.plus_commutes(r.minus(t2), r.minus(t4));
        let u1 = r.times(rr, c.im);
        let u2 = r.times(ii, c.im);
        let u3 = r.times(ri, c.re);
        let u4 = r.times(ir, c.re);
        r.plus_exchanges(u1, r.minus(u2), u3, u4);
        r.plus_commutes(r.minus(u2), u4);
        let left = self.complex_product(self.complex_product(a, b), c);
        let right = self.complex_product(a, self.complex_product(b, c));
        assert(left.re == r.plus(r.plus(t1, r.minus(t2)), r.plus(r.minus(t3), r.minus(t4))));
        assert(right.re == r.plus(r.plus(t1, r.minus(t3)), r.plus(r.minus(t4), r.minus(t2))));
        assert(left.im == r.plus(r.plus(u1, r.minus(u2)), r.plus(u3, u4)));
        assert(right.im == r.plus(r.plus(u1, u3), r.plus(u4, r.minus(u2))));
    }

    proof fn lemma_complex_times_distributes(self, a: Complex<T>, b: Complex<T>, c: Complex<T>)
        requires
            self.exact(),
        ensures
            self.complex_product(a, self.complex_sum(b, c)) == self.complex_sum(
                self.complex_product(a, b),
                self.complex_product(a, c),
            ),
    {
        let r = self.ring();
        r.times_distributes(a.re, b.re, c.re);
        r.times_distributes(a.im, b.im, c.im);
        r.times_distributes(a.re, b.im, c.im);
        r.times_distributes(a.im, b.re, c.re);
        let (p1, p2) = (r.times(a.re, b.re), r.times(a.re, c.re));
        let (p3, p4) = (r.times(a.im, b.im), r.times(a.im, c.im));
        r.minus_plus(p3, p4);
        r.plus_exchanges(p1, p2, r.minus(p3), r.minus(p4));
        let (q1, q2) = (r.times(a.re, b.im), r.times(a.re, c.im));
        let (q3, q4) = (r.times(a.im, b.re), r.times(a.im, c.re));
        r.plus_exchanges(q1, q2, q3, q4);
    }

    proof fn lemma_complex_times_one(self, a: Complex<T>)
        requires
            self.exact(),
        ensures
            self.complex_product(a, self.complex_one()) == a,
    {
        let r = self.ring();
        r.times_one(a.re);
        r.times_one(a.im);
        r.times_zero(a.re);
        r.times_zero(a.im);
        r.plus_minus(r.zero);
        r.plus_zero(r.minus(r.zero));
        r.plus_zero(a.re);
        r.plus_zero(a.im);
    }

    /// Complex numbers over an exact arithmetic are exact: their sum, product and
    /// negation satisfy the laws of a commutative ring.
    pub proof fn law_complex_numbers_form_a_ring(self)
        requires
            self.exact(),
        ensures
            self.complex_ring().lawful(),
    {
        let c = self.complex_ring();
        self.lemma_complex_plus_laws();
        assert forall|a: Complex<T>, b: Complex<T>| #[trigger] c.times(a, b) == c.times(b, a) by {
            self.lemma_complex_times_commutes(a, b);
        }
        assert forall|a: Complex<T>, b: Complex<T>, d: Complex<T>| #[trigger]
            c.times(c.times(a, b), d) == c.times(a, c.times(b, d)) by {
            self.lemma_complex_times_associates(a, b, d);
        }
        assert forall|a: Complex<T>| #[trigger] c.times(a, c.one) == a by {
            self.lemma_complex_times_one(a);
        }
        assert forall|a: Complex<T>, b: Complex<T>, d: Complex<T>| #[trigger]
            c.times(a, c.plus(b, d)) == c.plus(c.times(a, b), c.times(a, d)) by {
            self.lemma_complex_times_distributes(a, b, d);
        }
        reveal(Ring::lawful);
    }

    /// Nothing is lost in a difference: `a - b == -(b - a)`, and `(a - b) + b == a`.
    pub proof fn law_differences_are_exact(self, a: Complex<T>, b: Complex<T>)
        requires
            self.exact(),
        ensures
            self.complex_difference(a, b) == self.complex_negation(self.complex_difference(b, a)),
            self.complex_sum(self.complex_difference(a, b), b) == a,
    {
        let c = self.complex_ring();
        self.law_complex_numbers_form_a_ring();
        self.law_turns(a, b);
        self.law_turns(b, a);
        c.minus_plus(b, c.minus(a));
        c.minus_minus(a);
        c.plus_commutes(a, c.minus(b));
        c.plus_associates(a, c.minus(b), b);
        c.plus_minus(b);
        c.plus_zero(a);
    }

    /// A difference of complex numbers is the sum with the negation, an exchange of
    /// the parts is the product with `i` or with `-i`, and `-i` is a quarter turn.
    pub proof fn law_turns(self, a: Complex<T>, b: Complex<T>)
        requires
            self.exact(),
        ensures
            self.complex_difference(a, b) == self.complex_sum(a, self.complex_negation(b)),
            self.times_minus_i(a) == self.complex_product(self.minus_i(), a),
            self.times_i(a) == self.complex_negation(self.times_minus_i(a)),
            self.minus_one() == self.complex_negation(self.complex_one()),
            self.complex_product(self.minus_i(), self.minus_i()) == self.minus_one(),
    {
        let r = self.ring();
        let one = r.one;
        r.times_zero(a.re);
        r.times_zero(a.im);
        r.times_minus(one, a.im);
        r.times_minus(one, a.re);
        r.times_one(a.im);
        r.times_one(a.re);
        r.minus_minus(a.im);
        r.minus_minus(a.re);
        r.plus_zero(a.im);
        r.plus_zero(r.minus(a.re));
        r.plus_minus(r.zero);
        r.plus_zero(r.minus(r.zero));
        r.times_zero(r.zero);
        r.times_minus(one, r.minus(one));
        r.times_one(r.minus(one));
        r.minus_minus(one);
        r.times_zero(r.minus(one));
        r.plus_zero(r.zero);
        r.plus_zero(r.minus(one));
    }

    /// The complex numbers extend the numbers by a root of `-1`, and by nothing else:
    /// numbers on the real axis are added, subtracted, negated and multiplied as before,
    /// `i * i == -1`, and every complex number is `re + i * im`. Together with the laws of
    /// a ring, this leaves no choice for any sum or product.
    pub proof fn law_complex_numbers_extend_the_numbers(self, a: T, b: T, c: Complex<T>)
        requires
            self.exact(),
        ensures
            ({
                let zero = (self.int_value)(0);
                let i = Complex { re: zero, im: (self.int_value)(1) };
                let on_axis = |v: T| Complex { re: v, im: zero };
                &&& self.complex_sum(on_axis(a), on_axis(b)) == on_axis((self.sum)(a, b))
                &&& self.complex_difference(on_axis(a), on_axis(b)) == on_axis(
                    (self.difference)(a, b),
                )
                &&& self.complex_negation(on_axis(a)) == on_axis((self.negation)(a))
                &&& self.complex_product(on_axis(a), on_axis(b)) == on_axis((self.product)(a, b))
                &&& self.complex_product(i, i) == on_axis((self.negation)((self.int_value)(1)))
                &&& c == self.complex_sum(
                    on_axis(c.re),
                    self.complex_product(i, on_axis(c.im)),
                )
            }),
    {
        let r = self.ring();
        r.plus_zero(r.zero);
        r.plus_minus(r.zero);
        r.plus_zero(r.minus(r.zero));
        r.times_zero(a);
        r.times_zero(b);
        r.times_zero(r.zero);
        r.times_zero(r.one);
        r.times_one(r.one);
        r.times_one(c.im);
        r.times_zero(c.im);
        r.plus_zero(r.times(a, b));
        r.plus_zero(r.minus(r.one));
        r.plus_zero(c.re);
        r.plus_zero(c.im);
    }
}

} // verus!
