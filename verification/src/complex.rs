//! Complex numbers.
use crate::arithmetic::{Model, Real};
use vstd::prelude::*;

verus! {

/// The complex number `re + i * im`.
#[derive(PartialEq, Debug, Default)]
pub struct Complex<T> {
    pub re: T,
    pub im: T,
}

impl<T: Copy> Clone for Complex<T> {
    fn clone(&self) -> (r: Self)
        ensures
            r == *self,
    {
        *self
    }
}

impl<T: Copy> Copy for Complex<T> {

}

impl<T> Model<T> {
    /// Zero.
    pub open spec fn complex_zero(self) -> Complex<T> {
        Complex { re: (self.int_value)(0), im: (self.int_value)(0) }
    }

    /// One.
    pub open spec fn complex_one(self) -> Complex<T> {
        Complex { re: (self.int_value)(1), im: (self.int_value)(0) }
    }

    /// The imaginary unit, negated.
    pub open spec fn minus_i(self) -> Complex<T> {
        Complex { re: (self.int_value)(0), im: (self.negation)((self.int_value)(1)) }
    }

    /// One, negated.
    pub open spec fn minus_one(self) -> Complex<T> {
        Complex { re: (self.negation)((self.int_value)(1)), im: (self.int_value)(0) }
    }

    /// `a + b`: the parts are added.
    pub open spec fn complex_sum(self, a: Complex<T>, b: Complex<T>) -> Complex<T> {
        Complex { re: (self.sum)(a.re, b.re), im: (self.sum)(a.im, b.im) }
    }

    /// `a - b`: the parts are subtracted.
    pub open spec fn complex_difference(self, a: Complex<T>, b: Complex<T>) -> Complex<T> {
        Complex { re: (self.difference)(a.re, b.re), im: (self.difference)(a.im, b.im) }
    }

    /// `a * b`.
    pub open spec fn complex_product(self, a: Complex<T>, b: Complex<T>) -> Complex<T> {
        Complex {
            re: (self.difference)((self.product)(a.re, b.re), (self.product)(a.im, b.im)),
            im: (self.sum)((self.product)(a.re, b.im), (self.product)(a.im, b.re)),
        }
    }

    /// `-a`.
    pub open spec fn complex_negation(self, a: Complex<T>) -> Complex<T> {
        Complex { re: (self.negation)(a.re), im: (self.negation)(a.im) }
    }

    /// `i * a`, by an exchange of the parts.
    pub open spec fn times_i(self, a: Complex<T>) -> Complex<T> {
        Complex { re: (self.negation)(a.im), im: a.re }
    }

    /// `-i * a`, by an exchange of the parts.
    pub open spec fn times_minus_i(self, a: Complex<T>) -> Complex<T> {
        Complex { re: a.im, im: (self.negation)(a.re) }
    }

    /// The number at distance `r` from zero in the direction `theta`.
    pub open spec fn polar(self, r: T, theta: T) -> Complex<T> {
        Complex {
            re: (self.product)(r, (self.cosine)(theta)),
            im: (self.product)(r, (self.sine)(theta)),
        }
    }

    /// `e` to the power `a`.
    ///
    /// Limits are taken where the real part is infinite: at minus infinity the
    /// result is zero if the direction is not finite; at plus infinity the number is
    /// handed back if it lies on the real axis or its direction is not finite, where
    /// an infinite direction becomes "not a number". A real part that is "not a
    /// number" is handed back together with an imaginary part of zero. Everything
    /// else is the polar form.
    pub open spec fn complex_exponential(self, a: Complex<T>) -> Complex<T> {
        let zero = (self.int_value)(0);
        let on_axis = (self.equals)(a.im, zero);
        let endless = !(self.finite)(a.im);
        if (self.infinite)(a.re) && (self.below)(a.re, zero) && endless {
            self.complex_zero()
        } else if (self.infinite)(a.re) && !(self.below)(a.re, zero) && (on_axis || endless) {
            Complex {
                re: a.re,
                im: if (self.infinite)(a.im) {
                    self.nan
                } else {
                    a.im
                },
            }
        } else if !(self.infinite)(a.re) && (self.not_a_number)(a.re) && on_axis {
            a
        } else {
            self.polar((self.exponential)(a.re), a.im)
        }
    }
}

impl<T: Real> Complex<T> {
    /// The number with the parts `re` and `im`.
    #[inline]
    pub fn new(re: T, im: T) -> (r: Self)
        ensures
            r == (Complex { re, im }),
    {
        Complex { re, im }
    }

    /// The distance of the number from zero.
    #[inline]
    pub fn norm(self) -> (r: T)
        ensures
            forall|m: Model<T>| #[trigger] m.fits() ==> r == (m.hypotenuse)(self.re, self.im),
    {
        self.re.hypot(self.im)
    }

    /// The number at distance `r` from zero in the direction `theta`.
    #[inline]
    pub fn from_polar(r: T, theta: T) -> (c: Self)
        ensures
            forall|m: Model<T>| #[trigger] m.fits() ==> c == m.polar(r, theta),
    {
        Complex::new(r.times(theta.cos()), r.times(theta.sin()))
    }

    /// `e` to the power `self`.
    #[inline]
    pub fn exp(self) -> (r: Self)
        ensures
            forall|m: Model<T>| #[trigger] m.fits() ==> r == m.complex_exponential(self),
    {
        let re = self.re;
        let mut im = self.im;

        if re.is_infinite() {
            if re.is_below(T::from_int(0)) {
                if !im.is_finite() {
                    return Complex::new(T::from_int(0), T::from_int(0));
                }
            } else if im.is_equal(T::from_int(0)) || !im.is_finite() {
                if im.is_infinite() {
                    im = T::nan();
                }
                return Complex::new(re, im);
            }
        } else if re.is_nan() && im.is_equal(T::from_int(0)) {
            return self;
        }
        Self::from_polar(re.exp(), im)
    }
}

impl<T: Real> core::ops::Add for Complex<T> {
    type Output = Self;

    #[inline]
    fn add(self, other: Self) -> (r: Self)
        ensures
            forall|m: Model<T>| #[trigger] m.fits() ==> r == m.complex_sum(self, other),
    {
        Complex { re: self.re.plus(other.re), im: self.im.plus(other.im) }
    }
}

// The result is a matter of the model: see the contract of `add`.
impl<T: Real> vstd::std_specs::ops::AddSpecImpl for Complex<T> {
    open spec fn obeys_add_spec() -> bool {
        false
    }

    open spec fn add_req(self, rhs: Self) -> bool {
        true
    }

    open spec fn add_spec(self, rhs: Self) -> Self {
        arbitrary()
    }
}

impl<T: Real> core::ops::Sub for Complex<T> {
    type Output = Self;

    #[inline]
    fn sub(self, other: Self) -> (r: Self)
        ensures
            forall|m: Model<T>| #[trigger] m.fits() ==> r == m.complex_difference(self, other),
    {
        Complex { re: self.re.minus(other.re), im: self.im.minus(other.im) }
    }
}

// The result is a matter of the model: see the contract of `sub`.
impl<T: Real> vstd::std_specs::ops::SubSpecImpl for Complex<T> {
    open spec fn obeys_sub_spec() -> bool {
        false
    }

    open spec fn sub_req(self, rhs: Self) -> bool {
        true
    }

    open spec fn sub_spec(self, rhs: Self) -> Self {
        arbitrary()
    }
}

impl<T: Real> core::ops::Mul for Complex<T> {
    type Output = Self;

    #[inline]
    fn mul(self, other: Self) -> (r: Self)
        ensures
            forall|m: Model<T>| #[trigger] m.fits() ==> r == m.complex_product(self, other),
    {
        Complex {
            re: self.re.times(other.re).minus(self.im.times(other.im)),
            im: self.re.times(other.im).plus(self.im.times(other.re)),
        }
    }
}

// The result is a matter of the model: see the contract of `mul`.
impl<T: Real> vstd::std_specs::ops::MulSpecImpl for Complex<T> {
    open spec fn obeys_mul_spec() -> bool {
        false
    }

    open spec fn mul_req(self, rhs: Self) -> bool {
        true
    }

    open spec fn mul_spec(self, rhs: Self) -> Self {
        arbitrary()
    }
}

} // verus!
