//! Laws that need no exact arithmetic: what they ask of the operations holds where
//! results are rounded, too.
use crate::arithmetic::Model;
use crate::complex::Complex;
use vstd::prelude::*;

verus! {

impl<T> Model<T> {
    /// The two numbers are equal as numbers, part by part.
    pub open spec fn complex_equals(self, a: Complex<T>, b: Complex<T>) -> bool {
        (self.equals)(a.re, b.re) && (self.equals)(a.im, b.im)
    }

    /// Neither part is "not a number".
    pub open spec fn is_number(self, a: Complex<T>) -> bool {
        !(self.not_a_number)(a.re) && !(self.not_a_number)(a.im)
    }

    /// The order of the two terms of a sum, and of the two factors of a product, does
    /// not matter.
    pub open spec fn commutes(self) -> bool {
        &&& forall|a: T, b: T| #[trigger] (self.sum)(a, b) == (self.sum)(b, a)
        &&& forall|a: T, b: T| #[trigger] (self.product)(a, b) == (self.product)(b, a)
    }

    /// The order of the two terms of a sum, and of the two factors of a product, does
    /// not matter where the result is a number. What is computed from "not a number"
    /// is not a number either.
    pub open spec fn commutes_on_numbers(self) -> bool {
        &&& forall|a: T, b: T|
            !(self.not_a_number)(#[trigger] (self.sum)(a, b)) ==> (self.sum)(a, b) == (self.sum)(
                b,
                a,
            )
        &&& forall|a: T, b: T|
            !(self.not_a_number)(#[trigger] (self.product)(a, b)) ==> (self.product)(a, b) == (
            self.product)(b, a)
        &&& forall|a: T, b: T|
            (self.not_a_number)(a) || (self.not_a_number)(b) ==> (self.not_a_number)(
                #[trigger] (self.sum)(a, b),
            )
        &&& forall|a: T, b: T|
            (self.not_a_number)(a) || (self.not_a_number)(b) ==> (self.not_a_number)(
                #[trigger] (self.difference)(a, b),
            )
    }

    /// For finite numbers, a factor of one keeps the other factor, a factor of zero
    /// gives zero, and zero can be added and subtracted. The sign of a zero is left
    /// open.
    pub open spec fn has_units(self) -> bool {
        let zero = (self.int_value)(0);
        let one = (self.int_value)(1);
        &&& forall|x: T| (self.finite)(x) ==> #[trigger] (self.product)(x, one) == x
        &&& forall|x: T|
            (self.finite)(x) ==> (self.equals)(#[trigger] (self.product)(x, zero), zero)
        &&& forall|x: T, z: T|
            (self.finite)(x) && (self.equals)(z, zero) ==> (self.equals)(
                #[trigger] (self.sum)(x, z),
                x,
            )
        &&& forall|x: T, z: T|
            (self.finite)(x) && (self.equals)(z, zero) ==> (self.equals)(
                #[trigger] (self.sum)(z, x),
                x,
            )
        &&& forall|x: T, z: T|
            (self.finite)(x) && (self.equals)(z, zero) ==> (self.equals)(
                #[trigger] (self.difference)(x, z),
                x,
            )
        &&& forall|x: T, z: T|
            (self.finite)(x) && (self.equals)(z, zero) ==> (self.equals)(
                #[trigger] (self.difference)(z, x),
                (self.negation)(x),
            )
    }

    /// A difference that is a number is the opposite of the difference the other way
    /// round.
    pub open spec fn has_opposite_differences(self) -> bool {
        forall|a: T, b: T|
            !(self.not_a_number)(#[trigger] (self.difference)(a, b)) ==> (self.equals)(
                (self.difference)(a, b),
                (self.negation)((self.difference)(b, a)),
            )
    }

    /// `a <= b`, as numbers.
    pub open spec fn at_most(self, a: T, b: T) -> bool {
        (self.below)(a, b) || (self.equals)(a, b)
    }

    /// The steps of a quantization keep the order of numbers.
    pub open spec fn keeps_order(self) -> bool {
        let scale = (self.int_value)(64);
        let low = (self.int_value)(0);
        let high = (self.int_value)(255);
        &&& forall|a: T, b: T|
            #![trigger (self.product)(a, scale), (self.product)(b, scale)]
            self.at_most(a, b) ==> self.at_most(
                (self.product)(a, scale),
                (self.product)(b, scale),
            )
        &&& forall|a: T, b: T|
            #![trigger (self.clamped)(a, low, high), (self.clamped)(b, low, high)]
            self.at_most(a, b) ==> self.at_most(
                (self.clamped)(a, low, high),
                (self.clamped)(b, low, high),
            )
        &&& forall|a: T, b: T|
            #![trigger (self.byte_value)(a), (self.byte_value)(b)]
            self.at_most(a, b) ==> (self.byte_value)(a) <= (self.byte_value)(b)
    }

    /// A negation undoes itself, and zero is its own negation, as a number.
    pub open spec fn has_signs(self) -> bool {
        let zero = (self.int_value)(0);
        &&& forall|a: T| #[trigger] (self.negation)((self.negation)(a)) == a
        &&& (self.equals)((self.negation)(zero), zero)
        &&& (self.equals)(zero, (self.negation)(zero))
    }

    /// The two numbers are the same, or equal as numbers, part by part.
    pub open spec fn same_or_equal(self, a: Complex<T>, b: Complex<T>) -> bool {
        &&& a.re == b.re || (self.equals)(a.re, b.re)
        &&& a.im == b.im || (self.equals)(a.im, b.im)
    }

    /// The table of twiddle factors turns without rounding: a quarter of it further lies
    /// the factor times `-i`, half of it further lies the factor negated.
    pub proof fn law_twiddles_turn(self, n: int, k: int)
        requires
            self.has_signs(),
            n > 0,
            n % 4 == 0,
            0 <= k <= n,
        ensures
            k <= n - n / 4 ==> self.same_or_equal(
                self.twiddles(n)[k + n / 4],
                self.times_minus_i(self.twiddles(n)[k]),
            ),
            k <= n / 2 ==> self.same_or_equal(
                self.twiddles(n)[k + n / 2],
                self.complex_negation(self.twiddles(n)[k]),
            ),
    {
        let zero = (self.int_value)(0);
        let one = (self.int_value)(1);
        self.law_twiddles_at_the_quarters(n);
        reveal_with_fuel(Model::twiddle, 4);
        assert((self.negation)((self.negation)(one)) == one);
        assert((self.negation)((self.negation)(zero)) == zero);
    }

    /// Complex numbers commute where their parts do: `a + b == b + a` and
    /// `a * b == b * a`.
    pub proof fn law_complex_numbers_commute(self, a: Complex<T>, b: Complex<T>)
        requires
            self.commutes(),
        ensures
            self.complex_sum(a, b) == self.complex_sum(b, a),
            self.complex_product(a, b) == self.complex_product(b, a),
    {
    }

    /// Complex numbers commute where only results that are numbers do: a sum or a
    /// product both parts of which are numbers does not depend on the order.
    pub proof fn law_complex_numbers_commute_on_numbers(self, a: Complex<T>, b: Complex<T>)
        requires
            self.commutes_on_numbers(),
        ensures
            self.is_number(self.complex_sum(a, b)) ==> self.complex_sum(a, b) == self.complex_sum(
                b,
                a,
            ),
            self.is_number(self.complex_product(a, b)) ==> self.complex_product(a, b)
                == self.complex_product(b, a),
    {
        if self.is_number(self.complex_product(a, b)) {
            let (rr, ii) = ((self.product)(a.re, b.re), (self.product)(a.im, b.im));
            let (ri, ir) = ((self.product)(a.re, b.im), (self.product)(a.im, b.re));
            assert(!(self.not_a_number)(rr) && !(self.not_a_number)(ii));
            assert(!(self.not_a_number)(ri) && !(self.not_a_number)(ir));
            assert((self.sum)(ri, ir) == (self.sum)(ir, ri));
        }
    }

    /// The product of a finite number with one is that number, and its product with
    /// the imaginary unit turns it by a quarter: `a * 1 == a` and
    /// `(re + i * im) * i == -im + i * re`.
    pub proof fn law_units_of_products(self, a: Complex<T>)
        requires
            self.has_units(),
            (self.finite)(a.re),
            (self.finite)(a.im),
        ensures
            self.complex_equals(self.complex_product(a, self.complex_one()), a),
            (self.equals)(
                self.complex_product(
                    a,
                    Complex { re: (self.int_value)(0), im: (self.int_value)(1) },
                ).re,
                (self.negation)(a.im),
            ),
            (self.equals)(
                self.complex_product(
                    a,
                    Complex { re: (self.int_value)(0), im: (self.int_value)(1) },
                ).im,
                a.re,
            ),
    {
    }

    /// `a - b == -(b - a)`, where both parts of the difference are numbers.
    pub proof fn law_differences_are_opposite(self, a: Complex<T>, b: Complex<T>)
        requires
            self.has_opposite_differences(),
            self.is_number(self.complex_difference(a, b)),
        ensures
            self.complex_equals(
                self.complex_difference(a, b),
                self.complex_negation(self.complex_difference(b, a)),
            ),
    {
    }

    /// A quantization keeps the order of numbers.
    pub proof fn law_quantization_keeps_order(self, a: T, b: T)
        requires
            self.keeps_order(),
            self.at_most(a, b),
        ensures
            self.quantized(a) <= self.quantized(b),
    {
        let scale = (self.int_value)(64);
        let (low, high) = ((self.int_value)(0), (self.int_value)(255));
        let (x, y) = ((self.product)(a, scale), (self.product)(b, scale));
        assert(self.at_most(x, y));
        assert(self.at_most((self.clamped)(x, low, high), (self.clamped)(y, low, high)));
    }
}

} // verus!
