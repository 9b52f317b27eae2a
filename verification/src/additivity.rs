//! Transforms of sums, where arithmetic is exact.
use crate::arithmetic::Model;
use crate::complex::Complex;
use crate::network::{first_point, is_power_of_two, position_of, result_at};
use vstd::prelude::*;

verus! {

impl<T> Model<T> {
    /// The sum of two sequences, term by term.
    pub open spec fn added(self, a: Seq<Complex<T>>, b: Seq<Complex<T>>) -> Seq<Complex<T>> {
        Seq::new(a.len(), |i: int| self.complex_sum(a[i], b[i]))
    }

    /// `(a + b) - (c + d) == (a - c) + (b - d)`.
    proof fn lemma_difference_adds(
        self,
        a: Complex<T>,
        b: Complex<T>,
        c: Complex<T>,
        d: Complex<T>,
    )
        requires
            self.exact(),
        ensures
            self.complex_difference(self.complex_sum(a, b), self.complex_sum(c, d))
                == self.complex_sum(self.complex_difference(a, c), self.complex_difference(b, d)),
    {
        let r = self.complex_ring();
        self.law_complex_numbers_form_a_ring();
        self.law_turns(self.complex_sum(a, b), self.complex_sum(c, d));
        self.law_turns(a, c);
        self.law_turns(b, d);
        r.minus_plus(c, d);
        r.plus_exchanges(a, b, r.minus(c), r.minus(d));
    }

    /// `(a + b) + (c + d) == (a + c) + (b + d)`.
    proof fn lemma_sum_adds(self, a: Complex<T>, b: Complex<T>, c: Complex<T>, d: Complex<T>)
        requires
            self.exact(),
        ensures
            self.complex_sum(self.complex_sum(a, b), self.complex_sum(c, d)) == self.complex_sum(
                self.complex_sum(a, c),
                self.complex_sum(b, d),
            ),
    {
        self.law_complex_numbers_form_a_ring();
        self.complex_ring().plus_exchanges(a, b, c, d);
    }

    /// A butterfly over sums is the sum of the butterflies.
    proof fn lemma_butterfly_adds(
        self,
        x: (Complex<T>, Complex<T>, Complex<T>, Complex<T>),
        y: (Complex<T>, Complex<T>, Complex<T>, Complex<T>),
        p: int,
    )
        requires
            self.exact(),
        ensures
            self.butterfly(
                self.complex_sum(x.0, y.0),
                self.complex_sum(x.1, y.1),
                self.complex_sum(x.2, y.2),
                self.complex_sum(x.3, y.3),
                p,
            ) == self.complex_sum(
                self.butterfly(x.0, x.1, x.2, x.3, p),
                self.butterfly(y.0, y.1, y.2, y.3, p),
            ),
    {
        let (xs, ys) = (self.complex_sum(x.0, x.2), self.complex_sum(y.0, y.2));
        let (xd, yd) = (self.complex_difference(x.0, x.2), self.complex_difference(y.0, y.2));
        let (xo, yo) = (self.complex_sum(x.1, x.3), self.complex_sum(y.1, y.3));
        let (xt, yt) = (self.complex_difference(x.1, x.3), self.complex_difference(y.1, y.3));
        self.lemma_sum_adds(x.0, y.0, x.2, y.2);
        self.lemma_difference_adds(x.0, y.0, x.2, y.2);
        self.lemma_sum_adds(x.1, y.1, x.3, y.3);
        self.lemma_difference_adds(x.1, y.1, x.3, y.3);
        self.ring().minus_plus(xt.im, yt.im);
        assert(self.times_i(self.complex_sum(xt, yt)) == self.complex_sum(
            self.times_i(xt),
            self.times_i(yt),
        ));
        self.lemma_sum_adds(xs, ys, xo, yo);
        self.lemma_difference_adds(xs, ys, xo, yo);
        self.lemma_sum_adds(xd, yd, self.times_i(xt), self.times_i(yt));
        self.lemma_difference_adds(xd, yd, self.times_i(xt), self.times_i(yt));
    }

    /// The same, inside a sequence of whole blocks.
    proof fn lemma_butterfly_at_adds(
        self,
        a: Seq<Complex<T>>,
        b: Seq<Complex<T>>,
        m: int,
        s: int,
        t: int,
    )
        requires
            self.exact(),
            m > 0,
            m == 4 * (m / 4),
            a.len() == b.len() == m * s,
            0 <= t < a.len(),
        ensures
            self.butterfly_at(self.added(a, b), m, t) == self.complex_sum(
                self.butterfly_at(a, m, t),
                self.butterfly_at(b, m, t),
            ),
    {
        let q = m / 4;
        let i = first_point(m, t);
        crate::network::lemma_first_point(m, s, t);
        self.lemma_butterfly_adds(
            (a[i], a[i + q], a[i + 2 * q], a[i + 3 * q]),
            (b[i], b[i + q], b[i + 2 * q], b[i + 3 * q]),
            result_at(m, t),
        );
    }

    /// The passes over a sum are the sum of the passes.
    proof fn lemma_passes_add(
        self,
        a: Seq<Complex<T>>,
        b: Seq<Complex<T>>,
        w: Seq<Complex<T>>,
        m: int,
        s: int,
    )
        requires
            self.exact(),
            is_power_of_two(m),
            m >= 2,
            0 < s,
            a.len() == b.len() == m * s,
        ensures
            self.passes(a, w, m).len() == a.len(),
            self.passes(b, w, m).len() == b.len(),
            self.passes(self.added(a, b), w, m) == self.added(
                self.passes(a, w, m),
                self.passes(b, w, m),
            ),
        decreases m,
    {
        let c = self.added(a, b);
        if m > 4 {
            let q = m / 4;
            crate::network::lemma_quarter(m);
            assert(q * (4 * s) == m * s) by (nonlinear_arith)
                requires
                    m == 4 * q,
            ;
            assert(self.pass(c, w, m) =~= self.added(self.pass(a, w, m), self.pass(b, w, m))) by {
                assert forall|t: int| 0 <= t < a.len() implies #[trigger] self.pass(c, w, m)[t]
                    == self.added(self.pass(a, w, m), self.pass(b, w, m))[t] by {
                    let r = self.complex_ring();
                    self.lemma_butterfly_at_adds(a, b, m, s, t);
                    self.law_complex_numbers_form_a_ring();
                    r.times_distributes(
                        w[t % q * (a.len() as int / m) * result_at(m, t)],
                        self.butterfly_at(a, m, t),
                        self.butterfly_at(b, m, t),
                    );
                }
            }
            self.lemma_passes_add(self.pass(a, w, m), self.pass(b, w, m), w, q, 4 * s);
        } else if m == 4 {
            assert forall|t: int| 0 <= t < a.len() implies #[trigger] self.pass_of_four(c)[t]
                == self.added(self.pass_of_four(a), self.pass_of_four(b))[t] by {
                self.lemma_butterfly_at_adds(a, b, m, s, t);
            }
            assert(self.pass_of_four(c) =~= self.added(
                self.pass_of_four(a),
                self.pass_of_four(b),
            ));
        } else {
            reveal_with_fuel(is_power_of_two, 3);
            assert(m == 2);
            assert forall|t: int| 0 <= t < a.len() implies #[trigger] self.pass_of_two(c)[t]
                == self.added(self.pass_of_two(a), self.pass_of_two(b))[t] by {
                let e = t - t % 2;
                assert(a.len() == 2 * s);
                self.lemma_sum_adds(a[e], b[e], a[e + 1], b[e + 1]);
                self.lemma_difference_adds(a[e], b[e], a[e + 1], b[e + 1]);
            }
            assert(self.pass_of_two(c) =~= self.added(self.pass_of_two(a), self.pass_of_two(b)));
        }
    }

    /// The transform of a sum is the sum of the transforms.
    pub proof fn law_transform_is_additive(self, a: Seq<Complex<T>>, b: Seq<Complex<T>>)
        requires
            self.exact(),
            is_power_of_two(a.len() as int),
            a.len() == b.len(),
        ensures
            self.transform(self.added(a, b)) == self.added(self.transform(a), self.transform(b)),
    {
        let n = a.len() as int;
        if n > 1 {
            let w = self.twiddles(n);
            self.lemma_passes_add(a, b, w, n, 1);
            assert forall|k: int| 0 <= k < n implies #[trigger] self.transform(
                self.added(a, b),
            )[k] == self.added(self.transform(a), self.transform(b))[k] by {
                crate::network::law_frequencies_have_positions(n, k);
                let pos = position_of(n, k);
                assert(self.passes(self.added(a, b), w, n)[pos] == self.complex_sum(
                    self.passes(a, w, n)[pos],
                    self.passes(b, w, n)[pos],
                ));
            }
        }
        assert(self.transform(self.added(a, b)) =~= self.added(
            self.transform(a),
            self.transform(b),
        ));
    }
}

} // verus!
