//! How a transform is undone, where arithmetic is exact.
use crate::arithmetic::Model;
use crate::complex::Complex;
use crate::network::is_power_of_two;
use vstd::prelude::*;

verus! {

impl<T> Model<T> {
    /// `re - i * im`.
    pub open spec fn conjugate(self, a: Complex<T>) -> Complex<T> {
        Complex { re: a.re, im: (self.negation)(a.im) }
    }

    /// The conjugate of each term.
    pub open spec fn conjugates(self, x: Seq<Complex<T>>) -> Seq<Complex<T>> {
        Seq::new(x.len(), |i: int| self.conjugate(x[i]))
    }

    /// The conjugates of the transform of the conjugates.
    pub open spec fn backward(self, y: Seq<Complex<T>>) -> Seq<Complex<T>> {
        self.conjugates(self.transform(self.conjugates(y)))
    }

    /// A division by `n` gives back what was added up `n` times.
    pub open spec fn divides_by(self, n: nat) -> bool {
        forall|a: T|
            (self.quotient)(#[trigger] self.ring().multiple(n, a), (self.int_value)(n as int)) == a
    }

    /// Conjugation goes through sums and products, and is undone by itself.
    proof fn lemma_conjugate(self, a: Complex<T>, b: Complex<T>)
        requires
            self.exact(),
        ensures
            self.conjugate(self.complex_sum(a, b)) == self.complex_sum(
                self.conjugate(a),
                self.conjugate(b),
            ),
            self.conjugate(self.complex_product(a, b)) == self.complex_product(
                self.conjugate(a),
                self.conjugate(b),
            ),
            self.conjugate(self.conjugate(a)) == a,
            self.conjugate(self.complex_zero()) == self.complex_zero(),
            self.conjugate(self.complex_one()) == self.complex_one(),
    {
        let r = self.ring();
        r.minus_plus(a.im, b.im);
        r.minus_minus(a.im);
        r.plus_minus(r.zero);
        r.plus_zero(r.minus(r.zero));
        r.times_minus(r.minus(a.im), b.im);
        r.times_minus(a.im, b.im);
        r.minus_minus(r.times(a.im, b.im));
        r.times_minus(a.re, b.im);
        r.times_minus(a.im, b.re);
        r.minus_plus(r.times(a.re, b.im), r.times(a.im, b.re));
    }

    /// Conjugation goes through powers.
    proof fn lemma_conjugate_power(self, a: Complex<T>, n: nat)
        requires
            self.exact(),
        ensures
            self.conjugate(self.complex_ring().power(a, n)) == self.complex_ring().power(
                self.conjugate(a),
                n,
            ),
        decreases n,
    {
        let c = self.complex_ring();
        if n == 0 {
            self.lemma_conjugate(a, a);
        } else {
            self.lemma_conjugate_power(a, (n - 1) as nat);
            self.lemma_conjugate(c.power(a, (n - 1) as nat), a);
        }
    }

    /// Conjugation goes through finite sums.
    proof fn lemma_conjugate_total(self, n: nat, f: spec_fn(int) -> Complex<T>)
        requires
            self.exact(),
        ensures
            self.conjugate(self.complex_ring().total(n, f)) == self.complex_ring().total(
                n,
                |i: int| self.conjugate(f(i)),
            ),
        decreases n,
    {
        let c = self.complex_ring();
        let g = |i: int| self.conjugate(f(i));
        if n == 0 {
            self.lemma_conjugate(c.zero, c.zero);
        } else {
            self.lemma_conjugate_total((n - 1) as nat, f);
            self.lemma_conjugate(c.total((n - 1) as nat, f), f(n - 1));
            assert(g(n - 1) == self.conjugate(f(n - 1)));
        }
    }

    /// The conjugate of the Fourier transform of conjugates is the one with the
    /// conjugate of the root.
    proof fn lemma_conjugate_dft(self, y: Seq<Complex<T>>, root: Complex<T>, t: nat)
        requires
            self.exact(),
        ensures
            self.conjugate(self.complex_ring().dft(self.conjugates(y), root, t))
                == self.complex_ring().dft(y, self.conjugate(root), t),
    {
        let c = self.complex_ring();
        let z = self.conjugates(y);
        let back = self.conjugate(root);
        let f = |k: int| c.times(z[k], c.power(root, (k * t) as nat));
        let conjugated = |k: int| self.conjugate(f(k));
        let goal = |k: int| c.times(y[k], c.power(back, (k * t) as nat));
        self.lemma_conjugate_total(y.len(), f);
        assert forall|k: int| 0 <= k < y.len() implies #[trigger] conjugated(k) == goal(k) by {
            self.lemma_conjugate(z[k], c.power(root, (k * t) as nat));
            self.lemma_conjugate(y[k], y[k]);
            self.lemma_conjugate_power(root, (k * t) as nat);
        }
        c.total_of_equals(y.len(), conjugated, goal);
    }

    /// The parts of a multiple are multiples.
    proof fn lemma_multiple_parts(self, n: nat, a: Complex<T>)
        ensures
            self.complex_ring().multiple(n, a).re == self.ring().multiple(n, a.re),
            self.complex_ring().multiple(n, a).im == self.ring().multiple(n, a.im),
        decreases n,
    {
        if n > 0 {
            self.lemma_multiple_parts((n - 1) as nat, a);
        }
    }

    /// Forward and backward, each point is added up as often as there are points,
    /// where the root lies on the unit circle.
    pub proof fn law_backward_undoes_transform(
        self,
        x: Seq<Complex<T>>,
        root: Complex<T>,
        t: int,
    )
        requires
            self.exact(),
            is_power_of_two(x.len() as int),
            self.is_root(x.len() as int, root),
            self.complex_product(root, self.conjugate(root)) == self.complex_one(),
            0 <= t < x.len(),
        ensures
            self.backward(self.transform(x))[t] == self.complex_ring().multiple(x.len(), x[t]),
    {
        let c = self.complex_ring();
        let n = x.len();
        let y = self.transform(x);
        let z = self.conjugates(y);
        let ys = Seq::new(n, |k: int| c.dft(x, root, k as nat));
        self.law_complex_numbers_form_a_ring();
        self.law_turns(self.complex_one(), self.complex_one());
        assert(y =~= ys) by {
            assert forall|k: int| 0 <= k < n implies #[trigger] y[k] == ys[k] by {
                self.law_transform_is_fourier(x, root, k);
            }
        }
        self.law_transform_is_fourier(z, root, t);
        self.lemma_conjugate_dft(y, root, t as nat);
        assert((n as int) / 2 == n / 2);
        c.law_dft_is_undone(x, root, self.conjugate(root), t as nat);
    }

    /// Conjugating the terms, transforming, conjugating again and dividing by the
    /// number of points undoes a transform, where the root lies on the unit circle.
    pub proof fn law_transform_is_undone(self, x: Seq<Complex<T>>, root: Complex<T>, t: int)
        requires
            self.exact(),
            is_power_of_two(x.len() as int),
            self.is_root(x.len() as int, root),
            self.complex_product(root, self.conjugate(root)) == self.complex_one(),
            self.divides_by(x.len()),
            0 <= t < x.len(),
        ensures
            (self.quotient)(
                self.backward(self.transform(x))[t].re,
                (self.int_value)(x.len() as int),
            ) == x[t].re,
            (self.quotient)(
                self.backward(self.transform(x))[t].im,
                (self.int_value)(x.len() as int),
            ) == x[t].im,
    {
        self.law_backward_undoes_transform(x, root, t);
        self.lemma_multiple_parts(x.len(), x[t]);
    }
}

} // verus!
