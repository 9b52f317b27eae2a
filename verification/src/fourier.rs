//! What the network of butterflies computes where arithmetic is exact.
use crate::arithmetic::Model;
use crate::complex::Complex;
use vstd::prelude::*;

verus! {

impl<T> Model<T> {
    /// `root` is a root of unity for a transform of `n` points, and the computed part
    /// of the table of twiddle factors consists of its powers: a quarter of the way
    /// round lies `-i`, half of the way round lies `-1`, and one step goes all the way
    /// round where there is only one point.
    pub open spec fn is_root(self, n: int, root: Complex<T>) -> bool {
        let c = self.complex_ring();
        &&& n == 1 ==> root == self.complex_one()
        &&& n >= 2 ==> c.power(root, (n / 2) as nat) == self.minus_one()
        &&& n >= 4 ==> c.power(root, (n / 4) as nat) == self.minus_i()
        &&& forall|k: int|
            0 < k < n / 4 ==> #[trigger] self.part_w(n, k) == c.power(root, k as nat)
    }

    /// The table of twiddle factors holds the powers of the root:
    /// `twiddle(n, k) == root^k`.
    pub proof fn law_twiddles_are_powers(self, n: int, root: Complex<T>, k: int)
        requires
            self.exact(),
            crate::network::is_circle(n),
            self.is_root(n, root),
            0 <= k <= n,
        ensures
            self.twiddles(n)[k] == self.complex_ring().power(root, k as nat),
        decreases k,
    {
        let c = self.complex_ring();
        let q = n / 4;
        let h = n / 2;
        self.law_complex_numbers_form_a_ring();
        self.law_turns(self.complex_one(), self.complex_one());
        c.power_one(root);
        if n > 1 && k == n {
            c.power_adds(root, h as nat, h as nat);
            c.times_minus(c.one, self.minus_one());
            c.times_one(self.minus_one());
            c.minus_minus(c.one);
        } else if q < k < h {
            self.law_twiddles_are_powers(n, root, k - q);
            self.law_turns(self.twiddle(n, k - q), self.complex_one());
            c.power_adds(root, q as nat, (k - q) as nat);
        } else if n > 1 && h < k {
            self.law_twiddles_are_powers(n, root, k - h);
            let v = self.twiddle(n, k - h);
            c.power_adds(root, h as nat, (k - h) as nat);
            c.times_minus(c.one, v);
            c.times_one(v);
        }
    }

    /// A butterfly of four is a four-point transform with the root `-i`.
    proof fn lemma_butterfly(
        self,
        a: Complex<T>,
        b: Complex<T>,
        c: Complex<T>,
        d: Complex<T>,
        p: int,
    )
        requires
            self.exact(),
            0 <= p < 4,
        ensures
            self.butterfly(a, b, c, d, p) == self.complex_ring().four_point(
                self.minus_i(),
                a,
                b,
                c,
                d,
                p as nat,
            ),
    {
        let r = self.complex_ring();
        let turn = self.minus_i();
        self.law_complex_numbers_form_a_ring();
        self.law_turns(a, c);
        r.lemma_turns(turn);
        r.times_one(b);
        r.times_one(c);
        r.times_one(d);
        r.times_minus(r.one, b);
        r.times_minus(r.one, c);
        r.times_minus(r.one, d);
        if p == 0 {
            r.plus_exchanges(a, c, b, d);
        } else if p == 2 {
            self.law_turns(r.plus(a, c), r.plus(b, d));
            r.minus_plus(b, d);
            r.plus_exchanges(a, c, r.minus(b), r.minus(d));
        } else {
            self.law_turns(b, d);
            let odd = self.complex_difference(b, d);
            assert(odd == r.plus(b, r.minus(d)));
            self.law_turns(odd, odd);
            self.law_turns(r.plus(a, r.minus(c)), self.times_i(odd));
            let (tb, td) = (r.times(turn, b), r.times(turn, d));
            r.times_distributes(turn, b, r.minus(d));
            r.times_minus(turn, d);
            r.times_minus(turn, b);
            let turned = self.times_minus_i(odd);
            assert(turned == r.plus(tb, r.minus(td)));
            if p == 1 {
                r.minus_minus(turned);
                r.plus_exchanges(a, r.minus(c), tb, r.minus(td));
            } else {
                r.minus_plus(tb, r.minus(td));
                r.minus_minus(td);
                r.plus_exchanges(a, r.minus(c), r.minus(tb), td);
            }
        }
    }

    /// `y` is `x` after butterflies of block size `m`, turned by powers of `root`.
    spec fn decimated(
        self,
        x: Seq<Complex<T>>,
        y: Seq<Complex<T>>,
        m: int,
        s: int,
        root: Complex<T>,
    ) -> bool {
        let c = self.complex_ring();
        &&& y.len() == x.len()
        &&& forall|t: int|
            0 <= t < x.len() ==> #[trigger] y[t] == c.times(
                self.butterfly_at(x, m, t),
                c.power(root, (t % (m / 4) * s * crate::network::result_at(m, t)) as nat),
            )
    }

    /// The block `b` of `x` has at `4 * k + p` the transform that the block
    /// `4 * b + p` of a quarter of the size has at `k` after a pass.
    proof fn lemma_decimated_block(
        self,
        x: Seq<Complex<T>>,
        y: Seq<Complex<T>>,
        m: int,
        s: int,
        root: Complex<T>,
        b: int,
        p: int,
        k: nat,
    )
        requires
            self.exact(),
            m > 2,
            m == 4 * (m / 4),
            0 < s,
            x.len() == m * s,
            self.is_root(m * s, root),
            self.decimated(x, y, m, s, root),
            0 <= b < s,
            0 <= p < 4,
        ensures
            0 <= b * m,
            b * m + m <= x.len(),
            0 <= (4 * b + p) * (m / 4),
            (4 * b + p) * (m / 4) + m / 4 <= x.len(),
            ({
                let c = self.complex_ring();
                let q = m / 4;
                c.dft(
                    x.subrange(b * m, b * m + m),
                    c.power(root, s as nat),
                    (4 * k + p) as nat,
                ) == c.dft(
                    y.subrange((4 * b + p) * q, (4 * b + p) * q + q),
                    c.power(root, (4 * s) as nat),
                    k,
                )
            }),
    {
        let c = self.complex_ring();
        let q = m / 4;
        let turn = self.minus_i();
        let n = m * s;
        self.law_complex_numbers_form_a_ring();
        self.law_turns(turn, turn);
        assert(0 <= b * m && b * m + m <= n) by (nonlinear_arith)
            requires
                0 <= b < s,
                m > 0,
                n == m * s,
        ;
        assert((4 * b + p) * q == b * m + p * q) by (nonlinear_arith)
            requires
                m == 4 * q,
        ;
        assert(0 <= p * q && p * q + q <= m) by (nonlinear_arith)
            requires
                m == 4 * q,
                0 <= p < 4,
                q > 0,
        ;
        let xs = x.subrange(b * m, b * m + m);
        let ys = y.subrange((4 * b + p) * q, (4 * b + p) * q + q);
        let rho = c.power(root, s as nat);
        assert(n >= 4) by (nonlinear_arith)
            requires
                n == m * s,
                m >= 4,
                s >= 1,
        ;
        assert(n / 4 == s * q) by (nonlinear_arith)
            requires
                n == m * s,
                m == 4 * q,
        ;
        assert(c.power(rho, q as nat) == turn) by {
            assert((s * q) as nat == (s as nat) * (q as nat));
            c.power_multiplies(root, s as nat, q as nat);
        }
        assert forall|i: int| 0 <= i < q implies #[trigger] ys[i] == c.times(
            c.four_point(turn, xs[i], xs[q + i], xs[2 * q + i], xs[3 * q + i], p as nat),
            c.power(rho, (i * p) as nat),
        ) by {
            let t = b * m + p * q + i;
            crate::network::lemma_digits(m, q, b, p, i);
            assert(ys[i] == y[t]);
            assert(t - t % m == b * m);
            assert(crate::network::first_point(m, t) == b * m + i);
            assert(crate::network::result_at(m, t) == p);
            self.lemma_butterfly(xs[i], xs[q + i], xs[2 * q + i], xs[3 * q + i], p);
            assert(self.butterfly_at(x, m, t) == self.butterfly(
                xs[i],
                xs[q + i],
                xs[2 * q + i],
                xs[3 * q + i],
                p,
            ));
            assert(0 <= i * p) by (nonlinear_arith)
                requires
                    0 <= i,
                    0 <= p,
            ;
            assert(i * s * p == (s as nat) * ((i * p) as nat)) by (nonlinear_arith)
                requires
                    0 <= i * p,
                    0 < s,
            ;
            c.power_multiplies(root, s as nat, (i * p) as nat);
        }
        c.lemma_decimate(xs, ys, rho, turn, q as nat, p as nat, k);
        c.power_multiplies(root, s as nat, 4);
    }

    /// What the passes leave in each block.
    proof fn lemma_passes(
        self,
        x: Seq<Complex<T>>,
        w: Seq<Complex<T>>,
        m: int,
        s: int,
        root: Complex<T>,
    )
        requires
            self.exact(),
            crate::network::is_power_of_two(m),
            m >= 2,
            0 < s,
            x.len() == m * s,
            self.is_root(m * s, root),
            m > 4 ==> w.len() >= m * s,
            m > 4 ==> forall|k: int|
                0 <= k < m * s ==> #[trigger] w[k] == self.complex_ring().power(root, k as nat),
        ensures
            self.passes(x, w, m).len() == x.len(),
            forall|b: int, pos: int|
                #![trigger self.block_done(x, w, m, s, root, b, pos)]
                0 <= b < s && 0 <= pos < m ==> self.block_done(x, w, m, s, root, b, pos),
        decreases m,
    {
        let c = self.complex_ring();
        let n = m * s;
        let q = m / 4;
        self.law_complex_numbers_form_a_ring();
        if m == 2 {
            assert(n == 2 * s) by (nonlinear_arith)
                requires
                    n == m * s,
                    m == 2,
            ;
            assert forall|b: int, pos: int|
                0 <= b < s && 0 <= pos < m implies self.block_done(x, w, m, s, root, b, pos) by {
                let xs = x.subrange(b * m, b * m + m);
                self.law_turns(xs[0], xs[1]);
                c.lemma_dft_of_two(xs, c.power(root, s as nat));
            }
        } else {
            crate::network::lemma_quarter(m);
            let y = if m > 4 {
                self.pass(x, w, m)
            } else {
                self.pass_of_four(x)
            };
            assert(self.decimated(x, y, m, s, root)) by {
                assert forall|t: int| 0 <= t < x.len() implies #[trigger] y[t] == c.times(
                    self.butterfly_at(x, m, t),
                    c.power(root, (t % q * s * crate::network::result_at(m, t)) as nat),
                ) by {
                    let v = self.butterfly_at(x, m, t);
                    let p = crate::network::result_at(m, t);
                    let i = t % q;
                    crate::network::lemma_digits_of(m, q, t);
                    c.times_one(v);
                    c.power_one(root);
                    if m == 4 {
                        assert(i == 0);
                        assert(i * s * p == 0) by (nonlinear_arith)
                            requires
                                i == 0,
                        ;
                    } else if p == 0 {
                        assert(i * s * p == 0) by (nonlinear_arith)
                            requires
                                p == 0,
                        ;
                    } else {
                        assert(0 <= i * s * p < n) by (nonlinear_arith)
                            requires
                                0 <= i < q,
                                0 <= p < 4,
                                0 < s,
                                n == m * s,
                                m == 4 * q,
                        ;
                        assert(x.len() as int / m == s) by (nonlinear_arith)
                            requires
                                x.len() == m * s,
                                m > 0,
                        ;
                    }
                }
            }
            assert(q * (4 * s) == n) by (nonlinear_arith)
                requires
                    n == m * s,
                    m == 4 * q,
            ;
            if m > 4 {
                self.lemma_passes(y, w, q, 4 * s, root);
            }
            assert forall|b: int, pos: int|
                0 <= b < s && 0 <= pos < m implies self.block_done(x, w, m, s, root, b, pos) by {
                crate::network::lemma_digits_of(m, q, pos);
                vstd::arithmetic::div_mod::lemma_small_mod(pos as nat, m as nat);
                vstd::arithmetic::div_mod::lemma_basic_div(pos, m);
                let p = pos / q;
                let i = pos % q;
                crate::network::lemma_frequency_bound(q, i);
                let k = crate::network::frequency_at(q, i);
                self.lemma_decimated_block(x, y, m, s, root, b, p, k as nat);
                let b4 = 4 * b + p;
                assert(b4 * q + i == b * m + pos) by (nonlinear_arith)
                    requires
                        m == 4 * q,
                        b4 == 4 * b + p,
                        pos == p * q + i,
                ;
                if m > 4 {
                    assert(self.block_done(y, w, q, 4 * s, root, b4, i));
                } else {
                    c.lemma_dft_of_one(
                        y.subrange(b4 * q, b4 * q + q),
                        c.power(root, (4 * s) as nat),
                    );
                }
            }
        }
    }

    /// The position `pos` of the block `b` holds the transform of that block.
    spec fn block_done(
        self,
        x: Seq<Complex<T>>,
        w: Seq<Complex<T>>,
        m: int,
        s: int,
        root: Complex<T>,
        b: int,
        pos: int,
    ) -> bool {
        let c = self.complex_ring();
        self.passes(x, w, m)[b * m + pos] == c.dft(
            x.subrange(b * m, b * m + m),
            c.power(root, s as nat),
            crate::network::frequency_at(m, pos) as nat,
        )
    }

    /// A transform computes the discrete Fourier transform, and leaves the frequencies
    /// in order.
    pub proof fn law_transform_is_fourier(self, x: Seq<Complex<T>>, root: Complex<T>, k: int)
        requires
            self.exact(),
            crate::network::is_power_of_two(x.len() as int),
            self.is_root(x.len() as int, root),
            0 <= k < x.len(),
        ensures
            self.transform(x)[k] == self.complex_ring().dft(x, root, k as nat),
    {
        let c = self.complex_ring();
        let n = x.len() as int;
        self.law_complex_numbers_form_a_ring();
        if n == 1 {
            c.lemma_dft_of_one(x, root);
        } else {
            let w = self.twiddles(n);
            crate::network::lemma_circle(n);
            assert forall|j: int| n > 4 && 0 <= j < n implies #[trigger] w[j] == c.power(
                root,
                j as nat,
            ) by {
                self.law_twiddles_are_powers(n, root, j);
            }
            self.lemma_passes(x, w, n, 1, root);
            crate::network::law_frequencies_have_positions(n, k);
            let pos = crate::network::position_of(n, k);
            assert(self.block_done(x, w, n, 1, root, 0, pos));
            assert(x.subrange(0 * n, 0 * n + n) =~= x);
            c.power_one(root);
        }
    }

    /// An impulse holds every frequency: the transform of a single point `x[j]` among
    /// zeros is `x[j] * root^(j * k)`.
    pub proof fn law_transform_of_impulse(
        self,
        x: Seq<Complex<T>>,
        root: Complex<T>,
        j: int,
        k: int,
    )
        requires
            self.exact(),
            crate::network::is_power_of_two(x.len() as int),
            self.is_root(x.len() as int, root),
            0 <= j < x.len(),
            0 <= k < x.len(),
            forall|i: int| 0 <= i < x.len() && i != j ==> #[trigger] x[i] == self.complex_zero(),
        ensures
            self.transform(x)[k] == self.complex_product(
                x[j],
                self.complex_ring().power(root, (j * k) as nat),
            ),
    {
        let c = self.complex_ring();
        self.law_complex_numbers_form_a_ring();
        self.law_transform_is_fourier(x, root, k);
        c.lemma_dft_of_impulse(x, root, j, k as nat);
    }

    /// A constant holds the frequency zero alone: its transform is `x[0]`, added up as
    /// often as there are points, and zero at every other frequency.
    pub proof fn law_transform_of_constant(self, x: Seq<Complex<T>>, root: Complex<T>, k: int)
        requires
            self.exact(),
            crate::network::is_power_of_two(x.len() as int),
            self.is_root(x.len() as int, root),
            0 <= k < x.len(),
            forall|i: int| 0 <= i < x.len() ==> #[trigger] x[i] == x[0],
        ensures
            self.transform(x)[k] == (if k == 0 {
                self.complex_ring().multiple(x.len(), x[0])
            } else {
                self.complex_zero()
            }),
    {
        let c = self.complex_ring();
        self.law_complex_numbers_form_a_ring();
        self.law_turns(self.complex_one(), self.complex_one());
        self.law_transform_is_fourier(x, root, k);
        assert((x.len() as int) / 2 == x.len() / 2);
        c.lemma_dft_of_constant(x, root, k as nat);
    }
}

} // verus!
