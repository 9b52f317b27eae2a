//! The fast Fourier transform.
use crate::arithmetic::{Model, Real};
use crate::complex::Complex;
use crate::network::{is_circle, is_power_of_two, position_of};
use crate::reversal::{
    counting,
    exchanged,
    exchanges_for,
    is_power_of_four,
    puts_in_order,
};
use vstd::prelude::*;

verus! {

/// The largest number of points of a transform.
pub const R_INDEXES_SIZE: usize = 512 * 4;

/// The room for twiddle factors.
pub const W_SIZE: usize = R_INDEXES_SIZE + 1;

/// A transform of `n` points has tables that fit: `n` is a power of two, up to
/// [`R_INDEXES_SIZE`].
pub open spec fn is_size(n: int) -> bool {
    is_power_of_two(n) && n <= R_INDEXES_SIZE
}

/// The tables of a transform of one number of points.
pub struct Fft<T> {
    n: usize,
    r_indexes: [usize; R_INDEXES_SIZE],
    w: [Complex<T>; W_SIZE],
}

impl<T: Real> Fft<T> {
    /// The number of points that the tables are for; zero before the first set-up.
    pub closed spec fn size(self) -> int {
        self.n as int
    }

    /// All places for exchanges.
    pub closed spec fn exchange_room(self) -> Seq<usize> {
        self.r_indexes@
    }

    /// All places for twiddle factors.
    pub closed spec fn factor_room(self) -> Seq<Complex<T>> {
        self.w@
    }

    /// The exchanges that put the frequencies in order.
    pub open spec fn exchanges(self) -> Seq<usize> {
        self.exchange_room().take(self.size())
    }

    /// The twiddle factors.
    pub open spec fn factors(self) -> Seq<Complex<T>> {
        self.factor_room().take(self.size() + 1)
    }

    /// The tables belong to the number of points.
    pub open spec fn wf(self) -> bool {
        self.size() == 0 || {
            &&& is_size(self.size())
            &&& puts_in_order(self.exchanges(), self.size())
            &&& forall|m: Model<T>| #[trigger]
                m.fits() ==> self.factors() == m.twiddles(self.size())
        }
    }

    /// The tables are those of `before`, set up for `n` points: places that the tables
    /// do not use are as they were.
    pub open spec fn is_set_up_from(self, before: Self, n: int) -> bool {
        &&& self.size() == n
        &&& is_size(n)
        &&& self.wf()
        &&& forall|i: int|
            n <= i < R_INDEXES_SIZE ==> #[trigger] self.exchange_room()[i]
                == before.exchange_room()[i]
        &&& forall|i: int|
            n < i < W_SIZE ==> #[trigger] self.factor_room()[i] == before.factor_room()[i]
    }

    /// Copies the first `count` indexes to `to` and sets `bits` in each copy.
    fn extend_indexes(&mut self, to: usize, count: usize, bits: usize)
        requires
            count <= to,
            to + count <= R_INDEXES_SIZE,
        ensures
            final(self).n == old(self).n,
            final(self).w == old(self).w,
            forall|i: int|
                0 <= i < R_INDEXES_SIZE ==> #[trigger] final(self).r_indexes@[i] == (if to <= i < to
                    + count {
                    old(self).r_indexes@[i - to] | bits
                } else {
                    old(self).r_indexes@[i]
                }),
    {
        let mut j: usize = 0;
        while j < count
            invariant
                j <= count <= to,
                to + count <= R_INDEXES_SIZE,
                self.n == old(self).n,
                self.w == old(self).w,
                forall|i: int|
                    0 <= i < R_INDEXES_SIZE ==> #[trigger] self.r_indexes@[i] == (if to <= i < to
                        + j {
                        old(self).r_indexes@[i - to] | bits
                    } else {
                        old(self).r_indexes@[i]
                    }),
            decreases count - j,
        {
            self.r_indexes[to + j] = self.r_indexes[j] | bits;
            j += 1;
        }
    }

    /// Fills the table of exchanges for `n` points and returns its length.
    fn calc_bit_reversed_indexes(&mut self, n: usize) -> (r: usize)
        requires
            is_size(n as int),
        ensures
            r == n,
            final(self).n == old(self).n,
            final(self).w == old(self).w,
            puts_in_order(final(self).r_indexes@.take(n as int), n as int),
            final(self).r_indexes@.take(n as int) == exchanges_for(n as int),
            forall|i: int|
                n <= i < R_INDEXES_SIZE ==> #[trigger] final(self).r_indexes@[i] == old(
                    self,
                ).r_indexes@[i],
    {
        // A power of two is its own lowest bit.
        let mut r_bit: usize = n;
        let mut len: usize = 1;
        self.r_indexes[0] = 0;
        assert(position_of(n as int, 0) == 0) by {
            crate::reversal::lemma_position_of_zero(n as int);
        }

        while r_bit > 2
            invariant
                is_size(n as int),
                is_power_of_two(r_bit as int),
                is_power_of_four(len as int),
                len * r_bit == n,
                self.n == old(self).n,
                self.w == old(self).w,
                forall|i: int|
                    0 <= i < len ==> #[trigger] self.r_indexes@[i] == position_of(n as int, i),
                forall|i: int|
                    n <= i < R_INDEXES_SIZE ==> #[trigger] self.r_indexes@[i] == old(
                        self,
                    ).r_indexes@[i],
            decreases r_bit,
        {
            let ghost before = r_bit;
            assert(r_bit >> 2 == r_bit / 4) by (bit_vector);
            r_bit = r_bit >> 2;
            let current_len = len;
            proof {
                crate::network::lemma_quarter(before as int);
                assert(4 * current_len <= n) by (nonlinear_arith)
                    requires
                        current_len * before == n,
                        before >= 4,
                ;
                assert(r_bit <= 512) by (nonlinear_arith)
                    requires
                        current_len * before == n,
                        before == 4 * r_bit,
                        n <= 2048,
                        current_len >= 1,
                ;
                assert(n == current_len * (4 * r_bit)) by (nonlinear_arith)
                    requires
                        current_len * before == n,
                        before == 4 * r_bit,
                ;
                assert forall|j: int| 0 <= j < current_len implies {
                    let a = #[trigger] self.r_indexes@[j];
                    &&& a | r_bit == position_of(n as int, current_len + j)
                    &&& a | (r_bit << 1) == position_of(n as int, 2 * current_len + j)
                    &&& a | (r_bit | (r_bit << 1)) == position_of(n as int, 3 * current_len + j)
                } by {
                    let a = self.r_indexes@[j];
                    let l = current_len as int;
                    crate::network::law_frequencies_have_positions(n as int, j);
                    crate::reversal::lemma_position_spacing(n as int, l, 4 * r_bit, j);
                    crate::reversal::lemma_bits_add(a, r_bit);
                    crate::reversal::lemma_first_digit_of_four(n as int, l, r_bit as int, 1, j);
                    crate::reversal::lemma_first_digit_of_four(n as int, l, r_bit as int, 2, j);
                    crate::reversal::lemma_first_digit_of_four(n as int, l, r_bit as int, 3, j);
                }
            }
            self.extend_indexes(len, current_len, r_bit);
            len += current_len;
            self.extend_indexes(len, current_len, r_bit << 1);
            len += current_len;
            self.extend_indexes(len, current_len, r_bit | (r_bit << 1));
            len += current_len;
            proof {
                assert(len == 4 * current_len);
                assert(len * r_bit == n) by (nonlinear_arith)
                    requires
                        n == current_len * (4 * r_bit),
                        len == 4 * current_len,
                ;
            }
        }
        if r_bit == 2 {
            let current_len = len;
            proof {
                assert forall|j: int| 0 <= j < current_len implies #[trigger] self.r_indexes@[j]
                    | 1 == position_of(n as int, current_len + j) by {
                    crate::reversal::lemma_position_spacing(n as int, current_len as int, 2, j);
                    crate::reversal::lemma_lowest_bit_adds(self.r_indexes@[j]);
                    crate::reversal::lemma_first_digit_of_two(n as int, current_len as int, j);
                }
            }
            self.extend_indexes(len, current_len, 1);
            len += current_len;
        }
        assert(len == n) by {
            assert(len * 1 == len);
        }
        proof {
            assert forall|i: int, j: int| 0 <= i < j < n implies #[trigger] self.r_indexes@[i]
                != #[trigger] self.r_indexes@[j] by {
                crate::network::law_frequencies_have_positions(n as int, i);
                crate::network::law_frequencies_have_positions(n as int, j);
            }
            assert forall|i: int| 0 <= i < n implies #[trigger] self.r_indexes@[i] < n by {
                crate::network::law_frequencies_have_positions(n as int, i);
            }
        }
        self.convert_indexes_as_inplace(n);
        proof {
            let table = self.r_indexes@.take(n as int);
            assert(puts_in_order(table, n as int));
            crate::reversal::law_exchanges_are_unique(
                table,
                exchanges_for(n as int),
                n as int,
            );
        }
        len
    }

    /// Turns the first `len` indexes, which say where the point for each place is to
    /// be found, into exchanges to be done one after the other.
    fn convert_indexes_as_inplace(&mut self, len: usize)
        requires
            len <= R_INDEXES_SIZE,
            forall|i: int| 0 <= i < len ==> #[trigger] old(self).r_indexes@[i] < len,
            forall|i: int, j: int|
                0 <= i < j < len ==> #[trigger] old(self).r_indexes@[i] != #[trigger] old(
                    self,
                ).r_indexes@[j],
        ensures
            final(self).n == old(self).n,
            final(self).w == old(self).w,
            forall|i: int| 0 <= i < len ==> i <= #[trigger] final(self).r_indexes@[i] < len,
            forall|k: int|
                0 <= k < len ==> #[trigger] exchanged(
                    counting(len as int),
                    final(self).r_indexes@.take(len as int),
                    len as int,
                )[k] == old(self).r_indexes@[k],
            forall|i: int|
                len <= i < R_INDEXES_SIZE ==> #[trigger] final(self).r_indexes@[i] == old(
                    self,
                ).r_indexes@[i],
    {
        let mut nums = [0usize;R_INDEXES_SIZE];
        let mut i: usize = 0;
        while i < len
            invariant
                i <= len <= R_INDEXES_SIZE,
                forall|j: int| 0 <= j < i ==> #[trigger] nums@[j] == j,
            decreases len - i,
        {
            nums[i] = i;
            i += 1;
        }

        // Where each number stands in `nums`.
        let ghost mut place: Seq<int> = counting(len as int);
        let ghost mut done: Seq<usize> = Seq::empty();
        let mut i: usize = 0;
        while i < len
            invariant
                i <= len <= R_INDEXES_SIZE,
                self.n == old(self).n,
                self.w == old(self).w,
                forall|j: int| 0 <= j < len ==> #[trigger] old(self).r_indexes@[j] < len,
                forall|j: int, k: int|
                    0 <= j < k < len ==> #[trigger] old(self).r_indexes@[j] != #[trigger] old(
                        self,
                    ).r_indexes@[k],
                forall|j: int|
                    i <= j < R_INDEXES_SIZE ==> #[trigger] self.r_indexes@[j] == old(
                        self,
                    ).r_indexes@[j],
                forall|j: int| 0 <= j < i ==> j <= #[trigger] self.r_indexes@[j] < len,
                forall|j: int| 0 <= j < i ==> #[trigger] nums@[j] == old(self).r_indexes@[j],
                place.len() == len,
                forall|j: int| 0 <= j < len ==> #[trigger] nums@[j] < len && place[nums@[j] as int]
                    == j,
                forall|v: int|
                    0 <= v < len ==> 0 <= #[trigger] place[v] < len && nums@[place[v]] == v,
                done.len() == i,
                forall|j: int| 0 <= j < i ==> done[j] == self.r_indexes@[j],
                exchanged(counting(len as int), done, i as int).len() == len,
                forall|j: int|
                    0 <= j < len ==> #[trigger] exchanged(counting(len as int), done, i as int)[j]
                        == nums@[j],
            decreases len - i,
        {
            let r_i = self.r_indexes[i];
            let mut swap_index: usize = 0;
            while nums[swap_index] != r_i
                invariant
                    len <= R_INDEXES_SIZE,
                    swap_index < len,
                    0 <= place[r_i as int] < len,
                    nums@[place[r_i as int]] == r_i,
                    swap_index <= place[r_i as int],
                decreases len - swap_index,
            {
                swap_index += 1;
            }
            assert(swap_index >= i) by {
                if swap_index < i {
                    assert(nums@[swap_index as int] == old(self).r_indexes@[swap_index as int]);
                }
            }
            let ghost before = nums@;
            let tmp = nums[i];
            nums[i] = nums[swap_index];
            nums[swap_index] = tmp;
            self.r_indexes[i] = swap_index;
            proof {
                let now = done.push(swap_index);
                crate::reversal::lemma_exchanged_prefix(
                    counting(len as int),
                    done,
                    now,
                    i as int,
                );
                place = place.update(r_i as int, i as int).update(tmp as int, swap_index as int);
                done = now;
            }
            i += 1;
        }
        assert(done =~= self.r_indexes@.take(len as int));
    }

    /// Fills the table of twiddle factors for `n` points and returns its length. The
    /// number of points is one, two or a multiple of four.
    fn calc_w(&mut self, n: usize) -> (r: usize)
        requires
            is_circle(n as int),
            n <= R_INDEXES_SIZE,
        ensures
            r == n + 1,
            final(self).n == old(self).n,
            final(self).r_indexes == old(self).r_indexes,
            forall|i: int| r <= i < W_SIZE ==> #[trigger] final(self).w@[i] == old(self).w@[i],
            forall|m: Model<T>| #[trigger]
                m.fits() ==> final(self).w@.take(r as int) == m.twiddles(n as int),
    {
        let mut len: usize = 0;
        self.w[len] = Complex::new(T::from_int(1), T::from_int(0));
        len += 1;

        let q = n / 4;
        let h = n / 2;
        let mut i: usize = 1;
        while i < q
            invariant
                is_circle(n as int),
                n <= R_INDEXES_SIZE,
                q == n / 4,
                1 <= i,
                n >= 4 ==> len == i <= q,
                n < 4 ==> len == i == 1,
                self.n == old(self).n,
                self.r_indexes == old(self).r_indexes,
                forall|k: int| n < k < W_SIZE ==> #[trigger] self.w@[k] == old(self).w@[k],
                forall|m: Model<T>, k: int| #[trigger]
                    m.fits() && 0 <= k < len ==> #[trigger] self.w@[k] == m.twiddles(n as int)[k],
            decreases q - i,
        {
            self.w[len] = self.calc_part_w(n, i);
            len += 1;
            i += 1;
        }
        if q > 0 {
            // A quarter of the way round.
            self.w[len] = Complex::new(T::from_int(0), T::from_int(1).negated());
            len += 1;
        }
        let mut i: usize = q + 1;
        while i < h
            invariant
                is_circle(n as int),
                n <= R_INDEXES_SIZE,
                q == n / 4,
                h == n / 2,
                q < i,
                n >= 4 ==> n == 4 * q && h == 2 * q && len == i <= h,
                n < 4 ==> q == 0 && h == n - 1 && len == i == 1,
                self.n == old(self).n,
                self.r_indexes == old(self).r_indexes,
                forall|k: int| n < k < W_SIZE ==> #[trigger] self.w@[k] == old(self).w@[k],
                forall|m: Model<T>, k: int| #[trigger]
                    m.fits() && 0 <= k < len ==> #[trigger] self.w@[k] == m.twiddles(n as int)[k],
            decreases h - i,
        {
            let tmp = self.w[i - q];
            self.w[len] = Complex::new(tmp.im, tmp.re.negated());
            len += 1;
            i += 1;
        }
        if h > 0 {
            // Half of the way round.
            self.w[len] = Complex::new(T::from_int(1).negated(), T::from_int(0));
            len += 1;
        }
        let mut i: usize = h + 1;
        while i < n
            invariant
                is_circle(n as int),
                n <= R_INDEXES_SIZE,
                h == n / 2,
                h < i,
                n >= 4 ==> h == 2 * (n / 4) && n == 4 * (n / 4) && len == i <= n,
                n < 4 ==> h == n - 1 && len == i == n,
                self.n == old(self).n,
                self.r_indexes == old(self).r_indexes,
                forall|k: int| n < k < W_SIZE ==> #[trigger] self.w@[k] == old(self).w@[k],
                forall|m: Model<T>, k: int| #[trigger]
                    m.fits() && 0 <= k < len ==> #[trigger] self.w@[k] == m.twiddles(n as int)[k],
            decreases n - i,
        {
            let tmp = self.w[i - h];
            self.w[len] = Complex::new(tmp.re.negated(), tmp.im.negated());
            len += 1;
            i += 1;
        }
        self.w[len] = Complex::new(T::from_int(1), T::from_int(0));
        len += 1;
        assert forall|m: Model<T>| #[trigger] m.fits() implies self.w@.take(len as int)
            == m.twiddles(n as int) by {
            assert(self.w@.take(len as int) =~= m.twiddles(n as int));
        }
        len
    }

    /// `e` to the power `-2 * pi * i / n * seq`.
    fn calc_part_w(&self, n: usize, seq: usize) -> (r: Complex<T>)
        requires
            n <= R_INDEXES_SIZE,
            seq <= R_INDEXES_SIZE,
        ensures
            forall|m: Model<T>| #[trigger] m.fits() ==> r == m.part_w(n as int, seq as int),
    {
        let turn = T::from_int(2).negated().times(T::pi());
        let step = turn.over(T::from_int(n as i32));
        Complex::new(T::from_int(0), step.times(T::from_int(seq as i32))).exp()
    }

    /// Tables that are not set up yet.
    pub fn new() -> (r: Self)
        ensures
            r.size() == 0,
            r.wf(),
            r.exchange_room() == Seq::new(R_INDEXES_SIZE as nat, |i: int| 0usize),
            forall|m: Model<T>| #[trigger]
                m.fits() ==> r.factor_room() == Seq::new(
                    W_SIZE as nat,
                    |i: int| m.complex_zero(),
                ),
    {
        let zero = Complex::new(T::from_int(0), T::from_int(0));
        let r = Fft { n: 0, r_indexes: [0;R_INDEXES_SIZE], w: [zero;W_SIZE] };
        assert(r.exchange_room() =~= Seq::new(R_INDEXES_SIZE as nat, |i: int| 0usize));
        assert forall|m: Model<T>| #[trigger] m.fits() implies r.factor_room() == Seq::new(
            W_SIZE as nat,
            |i: int| m.complex_zero(),
        ) by {
            assert(r.factor_room() =~= Seq::new(W_SIZE as nat, |i: int| m.complex_zero()));
        }
        r
    }

    /// Sets the tables up for transforms of `n` points.
    pub fn setup(&mut self, n: usize)
        requires
            is_size(n as int),
        ensures
            final(self).is_set_up_from(*old(self), n as int),
    {
        self.n = n;
        let _ = self.calc_bit_reversed_indexes(n);
        proof {
            crate::network::lemma_circle(n as int);
        }
        let _ = self.calc_w(n);
    }

    /// Transforms `frames` in place, after setting the tables up for their number
    /// where they are for another one. One frame is left as it is.
    pub fn process(&mut self, frames: &mut [Complex<T>])
        requires
            old(self).wf(),
            is_size(old(frames)@.len() as int),
        ensures
            final(self).wf(),
            old(frames)@.len() <= 1 || old(frames)@.len() == old(self).size() ==> *final(self)
                == *old(self),
            old(frames)@.len() > 1 && old(frames)@.len() != old(self).size() ==>
                final(self).is_set_up_from(*old(self), old(frames)@.len() as int),
            final(frames)@.len() == old(frames)@.len(),
            old(frames)@.len() <= 1 ==> final(frames)@ == old(frames)@,
            forall|m: Model<T>| #[trigger] m.fits() ==> final(frames)@ == m.transform(old(frames)@),
    {
        let len = frames.len();
        if len <= 1 {
            return ;
        }
        if len != self.n {
            self.setup(len);
        }
        self.inner_process(frames);
    }

    /// Transforms `x` in place.
    fn inner_process(&self, x: &mut [Complex<T>])
        requires
            self.wf(),
            old(x)@.len() == self.size(),
            self.size() > 1,
        ensures
            final(x)@.len() == old(x)@.len(),
            forall|m: Model<T>| #[trigger] m.fits() ==> final(x)@ == m.transform(old(x)@),
    {
        let n = x.len();
        let ghost x0 = x@;
        let mut calc_n = n;
        let mut stride: usize = 1;
        while calc_n > 4
            invariant
                self.wf(),
                n == self.size(),
                1 < n <= R_INDEXES_SIZE,
                x0.len() == n,
                x@.len() == n,
                is_power_of_two(calc_n as int),
                calc_n >= 2,
                stride > 0,
                calc_n * stride == n,
                forall|m: Model<T>| #[trigger]
                    m.fits() ==> m.passes(x@, m.twiddles(n as int), calc_n as int) == m.passes(
                        x0,
                        m.twiddles(n as int),
                        n as int,
                    ),
            decreases calc_n,
        {
            self.pass(x, calc_n, stride);
            proof {
                crate::network::lemma_quarter(calc_n as int);
                let q = calc_n / 4;
                assert(q * (stride * 4) == n && stride * 4 <= n) by (nonlinear_arith)
                    requires
                        calc_n * stride == n,
                        calc_n == 4 * q,
                        q >= 1,
                ;
            }
            calc_n = calc_n / 4;
            stride = stride * 4;
        }
        if calc_n == 4 {
            Self::pass_of_four(x);
        } else {
            assert(calc_n == 2) by {
                reveal_with_fuel(is_power_of_two, 2);
            }
            Self::pass_of_two(x);
        }
        self.put_in_order(x);
        assert forall|m: Model<T>| #[trigger] m.fits() implies x@ == m.transform(x0) by {
            assert(x@ =~= m.transform(x0));
        }
    }

    /// The last pass, of butterflies of four.
    fn pass_of_four(x: &mut [Complex<T>])
        requires
            old(x)@.len() % 4 == 0,
            old(x)@.len() <= R_INDEXES_SIZE,
        ensures
            final(x)@.len() == old(x)@.len(),
            forall|m: Model<T>| #[trigger] m.fits() ==> final(x)@ == m.pass_of_four(old(x)@),
    {
        let n = x.len();
        let ghost x0 = x@;
        let mut i0: usize = 0;
        while i0 < n
            invariant
                n % 4 == 0,
                n <= R_INDEXES_SIZE,
                i0 % 4 == 0,
                i0 <= n,
                x0.len() == n,
                x@.len() == n,
                forall|m: Model<T>, t: int| #[trigger]
                    m.fits() && 0 <= t < i0 ==> #[trigger] x@[t] == m.pass_of_four(x0)[t],
                forall|t: int| i0 <= t < n ==> #[trigger] x@[t] == x0[t],
            decreases n - i0,
        {
            let i1 = i0 + 1;
            let i2 = i1 + 1;
            let i3 = i2 + 1;

            let xi0_plus_xi2 = x[i0] + x[i2];
            let xi0_minus_xi2 = x[i0] - x[i2];
            let xi1_plus_xi3 = x[i1] + x[i3];
            let xi1_minus_xi3 = x[i1] - x[i3];
            let xi1_minus_xi3_i = Complex::new(xi1_minus_xi3.im.negated(), xi1_minus_xi3.re);

            x[i0] = xi0_plus_xi2 + xi1_plus_xi3;
            x[i1] = xi0_minus_xi2 - xi1_minus_xi3_i;
            x[i2] = xi0_plus_xi2 - xi1_plus_xi3;
            x[i3] = xi0_minus_xi2 + xi1_minus_xi3_i;
            i0 += 4;
        }
        assert forall|m: Model<T>| #[trigger] m.fits() implies x@ == m.pass_of_four(x0) by {
            assert(x@ =~= m.pass_of_four(x0));
        }
    }

    /// The last pass, of butterflies of two.
    fn pass_of_two(x: &mut [Complex<T>])
        requires
            old(x)@.len() % 2 == 0,
            old(x)@.len() <= R_INDEXES_SIZE,
        ensures
            final(x)@.len() == old(x)@.len(),
            forall|m: Model<T>| #[trigger] m.fits() ==> final(x)@ == m.pass_of_two(old(x)@),
    {
        let n = x.len();
        let ghost x0 = x@;
        let mut even_i: usize = 0;
        while even_i < n
            invariant
                n % 2 == 0,
                n <= R_INDEXES_SIZE,
                even_i % 2 == 0,
                even_i <= n,
                x0.len() == n,
                x@.len() == n,
                forall|m: Model<T>, t: int| #[trigger]
                    m.fits() && 0 <= t < even_i ==> #[trigger] x@[t] == m.pass_of_two(x0)[t],
                forall|t: int| even_i <= t < n ==> #[trigger] x@[t] == x0[t],
            decreases n - even_i,
        {
            let odd_i = even_i + 1;
            let x_even = x[even_i] + x[odd_i];
            let x_odd = x[even_i] - x[odd_i];
            x[even_i] = x_even;
            x[odd_i] = x_odd;
            even_i += 2;
        }
        assert forall|m: Model<T>| #[trigger] m.fits() implies x@ == m.pass_of_two(x0) by {
            assert(x@ =~= m.pass_of_two(x0));
        }
    }

    /// Puts the points of `x` in order.
    fn put_in_order(&self, x: &mut [Complex<T>])
        requires
            self.wf(),
            self.size() > 0,
            old(x)@.len() == self.size(),
        ensures
            final(x)@ == Seq::new(
                old(x)@.len(),
                |k: int| old(x)@[position_of(self.size(), k)],
            ),
    {
        let n = x.len();
        let ghost x0 = x@;
        let ghost s = self.exchanges();
        let mut i: usize = 0;
        while i < n
            invariant
                self.wf(),
                n == self.size(),
                0 < n <= R_INDEXES_SIZE,
                i <= n,
                x@.len() == n,
                s == self.exchanges(),
                x@ == exchanged(x0, s, i as int),
            decreases n - i,
        {
            let r = self.r_indexes[i];
            assert(s[i as int] == r);
            let tmp = x[i];
            x[i] = x[r];
            x[r] = tmp;
            i += 1;
        }
        proof {
            crate::reversal::lemma_exchanged_by_number(x0, s, n as int);
            let sorted = Seq::new(x0.len(), |k: int| x0[position_of(n as int, k)]);
            assert forall|k: int| 0 <= k < n implies #[trigger] x@[k] == sorted[k] by {
                assert(exchanged(counting(n as int), s, n as int)[k] == position_of(n as int, k));
            }
            assert(x@ =~= sorted);
        }
    }

    /// One pass of butterflies of block size `before_n`, where `stride` is the number
    /// of blocks.
    fn pass(&self, x: &mut [Complex<T>], before_n: usize, stride: usize)
        requires
            self.wf(),
            old(x)@.len() == self.size(),
            is_power_of_two(before_n as int),
            before_n > 4,
            stride > 0,
            before_n * stride == self.size(),
        ensures
            final(x)@.len() == old(x)@.len(),
            forall|m: Model<T>| #[trigger]
                m.fits() ==> final(x)@ == m.pass(
                    old(x)@,
                    m.twiddles(self.size()),
                    before_n as int,
                ),
    {
        let n = x.len();
        let calc_n = before_n / 4;
        let ghost x0 = x@;
        proof {
            crate::network::lemma_quarter(before_n as int);
            assert(n > 4) by (nonlinear_arith)
                requires
                    before_n * stride == n,
                    before_n > 4,
                    stride > 0,
            ;
            assert(n as int / before_n as int == stride) by (nonlinear_arith)
                requires
                    before_n * stride == n,
                    before_n > 4,
            ;
        }
        let mut i: usize = 0;
        while i < calc_n
            invariant
                self.wf(),
                n == self.size(),
                4 < n <= R_INDEXES_SIZE,
                x0.len() == n,
                x@.len() == n,
                before_n > 4,
                before_n == 4 * calc_n,
                before_n * stride == n,
                n as int / before_n as int == stride,
                i <= calc_n,
                forall|m: Model<T>| #[trigger]
                    m.fits() ==> partly_done(
                        x@,
                        x0,
                        m.pass(x0, m.twiddles(n as int), before_n as int),
                        before_n as int,
                        i as int,
                        0,
                    ),
            decreases calc_n - i,
        {
            proof {
                assert(3 * (i * stride) < n) by (nonlinear_arith)
                    requires
                        i < calc_n,
                        before_n == 4 * calc_n,
                        before_n * stride == n,
                        n > 0,
                ;
                assert(0 <= i * stride) by (nonlinear_arith);
            }
            let w_i = i * stride;
            let (w1, w2, w3) = (self.w[w_i], self.w[w_i * 2], self.w[w_i * 3]);
            let mut begin_i: usize = 0;
            let ghost mut block: int = 0;
            while begin_i < n
                invariant
                    self.wf(),
                    n == self.size(),
                    4 < n <= R_INDEXES_SIZE,
                    x0.len() == n,
                    x@.len() == n,
                    before_n > 4,
                    before_n == 4 * calc_n,
                    before_n * stride == n,
                    n as int / before_n as int == stride,
                    i < calc_n,
                    w_i == i * stride,
                    3 * w_i < n,
                    w1 == self.w@[w_i as int],
                    w2 == self.w@[w_i * 2],
                    w3 == self.w@[w_i * 3],
                    0 <= block <= stride,
                    begin_i == block * before_n,
                    forall|m: Model<T>| #[trigger]
                        m.fits() ==> partly_done(
                            x@,
                            x0,
                            m.pass(x0, m.twiddles(n as int), before_n as int),
                            before_n as int,
                            i as int,
                            block,
                        ),
                decreases n - begin_i,
            {
                proof {
                    assert(block < stride && block * before_n + before_n <= n) by (nonlinear_arith)
                        requires
                            block * before_n < n,
                            before_n * stride == n,
                            before_n > 0,
                    ;
                }
                let i0 = begin_i + i;
                let i1 = i0 + calc_n;
                let i2 = i1 + calc_n;
                let i3 = i2 + calc_n;

                let ghost now = x@;
                let xi0_plus_xi2 = x[i0] + x[i2];
                let xi0_minus_xi2 = x[i0] - x[i2];
                let xi1_plus_xi3 = x[i1] + x[i3];
                let xi1_minus_xi3 = x[i1] - x[i3];
                let xi1_minus_xi3_i = Complex::new(xi1_minus_xi3.im.negated(), xi1_minus_xi3.re);

                x[i0] = xi0_plus_xi2 + xi1_plus_xi3;
                x[i1] = (xi0_minus_xi2 - xi1_minus_xi3_i) * w1;
                x[i2] = (xi0_plus_xi2 - xi1_plus_xi3) * w2;
                x[i3] = (xi0_minus_xi2 + xi1_minus_xi3_i) * w3;

                assert forall|m: Model<T>| #[trigger] m.fits() implies partly_done(
                    x@,
                    x0,
                    m.pass(x0, m.twiddles(n as int), before_n as int),
                    before_n as int,
                    i as int,
                    block + 1,
                ) by {
                    let w = m.twiddles(n as int);
                    let out = m.pass(x0, w, before_n as int);
                    let (mm, q) = (before_n as int, calc_n as int);
                    assert(self.factors() == w);
                    assert(w1 == w[w_i as int] && w2 == w[w_i * 2] && w3 == w[w_i * 3]);
                    crate::network::lemma_digits(mm, q, block, 0, i as int);
                    crate::network::lemma_digits(mm, q, block, 1, i as int);
                    crate::network::lemma_digits(mm, q, block, 2, i as int);
                    crate::network::lemma_digits(mm, q, block, 3, i as int);
                    assert(now[i0 as int] == x0[i0 as int]);
                    assert(now[i1 as int] == x0[i1 as int]);
                    assert(now[i2 as int] == x0[i2 as int]);
                    assert(now[i3 as int] == x0[i3 as int]);
                    assert(w_i * 1 == w_i);
                    assert(x@[i0 as int] == out[i0 as int]);
                    assert(x@[i1 as int] == out[i1 as int]);
                    assert(x@[i2 as int] == out[i2 as int]);
                    assert(x@[i3 as int] == out[i3 as int]);
                    assert forall|t: int| 0 <= t < n implies #[trigger] x@[t] == (if is_done(
                        mm,
                        i as int,
                        block + 1,
                        t,
                    ) {
                        out[t]
                    } else {
                        x0[t]
                    }) by {
                        crate::network::lemma_digits_of(mm, q, t);
                        assert(now[t] == (if is_done(mm, i as int, block, t) {
                            out[t]
                        } else {
                            x0[t]
                        }));
                        let p = (t % mm) / q;
                        if t % q == i && t / mm == block {
                            assert(p == 0 || p == 1 || p == 2 || p == 3);
                        } else {
                            assert(t != i0 && t != i1 && t != i2 && t != i3);
                        }
                    }
                }
                begin_i += before_n;
                proof {
                    assert((block + 1) * before_n == block * before_n + before_n)
                        by (nonlinear_arith);
                    block = block + 1;
                }
            }
            assert forall|m: Model<T>| #[trigger] m.fits() implies partly_done(
                x@,
                x0,
                m.pass(x0, m.twiddles(n as int), before_n as int),
                before_n as int,
                i + 1,
                0,
            ) by {
                assert(block == stride) by (nonlinear_arith)
                    requires
                        block * before_n >= n,
                        before_n * stride == n,
                        block <= stride,
                        before_n > 0,
                ;
                assert forall|t: int| 0 <= t < n implies is_done(before_n as int, i + 1, 0, t)
                    == #[trigger] is_done(before_n as int, i as int, block, t) by {
                    crate::network::lemma_digits_of(before_n as int, calc_n as int, t);
                    assert(t / (before_n as int) < stride) by {
                        assert(stride * before_n == n) by (nonlinear_arith)
                            requires
                                before_n * stride == n,
                        ;
                        vstd::arithmetic::div_mod::lemma_div_by_multiple_is_strongly_ordered(
                            t,
                            n as int,
                            stride as int,
                            before_n as int,
                        );
                    }
                }
            }
            i += 1;
        }
        assert forall|m: Model<T>| #[trigger] m.fits() implies x@ == m.pass(
            x0,
            m.twiddles(n as int),
            before_n as int,
        ) by {
            assert forall|t: int| 0 <= t < n implies #[trigger] x@[t] == m.pass(
                x0,
                m.twiddles(n as int),
                before_n as int,
            )[t] by {
                crate::network::lemma_digits_of(before_n as int, calc_n as int, t);
            }
            assert(x@ =~= m.pass(x0, m.twiddles(n as int), before_n as int));
        }
    }
}

/// Setting up is determined: tables that are set up from the same ones for the same
/// number of points are the same, in every place.
pub proof fn law_set_up_is_determined<T: Real>(
    m: Model<T>,
    before: Fft<T>,
    a: Fft<T>,
    b: Fft<T>,
    n: int,
)
    requires
        m.fits(),
        a.is_set_up_from(before, n),
        b.is_set_up_from(before, n),
    ensures
        a.size() == b.size(),
        a.exchange_room() == b.exchange_room(),
        a.factor_room() == b.factor_room(),
        a == b,
{
    crate::reversal::law_exchanges_are_unique(a.exchanges(), b.exchanges(), n);
    assert forall|i: int| 0 <= i < R_INDEXES_SIZE implies #[trigger] a.exchange_room()[i]
        == b.exchange_room()[i] by {
        if i < n {
            assert(a.exchanges()[i] == b.exchanges()[i]);
        }
    }
    assert forall|i: int| 0 <= i < W_SIZE implies #[trigger] a.factor_room()[i]
        == b.factor_room()[i] by {
        if i <= n {
            assert(a.factors()[i] == b.factors()[i]);
        }
    }
    assert(a.exchange_room() =~= b.exchange_room());
    assert(a.factor_room() =~= b.factor_room());
    assert(a.r_indexes =~= b.r_indexes);
    assert(a.w =~= b.w);
}

/// In a pass of block size `m`, the butterflies that start below `i` in any block, or
/// at `i` in the blocks below `block`, are done: one of them writes to `t`.
spec fn is_done(m: int, i: int, block: int, t: int) -> bool {
    t % (m / 4) < i || (t % (m / 4) == i && t / m < block)
}

/// `x` is `out` where a pass is done and `x0` elsewhere.
spec fn partly_done<A>(x: Seq<A>, x0: Seq<A>, out: Seq<A>, m: int, i: int, block: int) -> bool {
    forall|t: int|
        0 <= t < x0.len() ==> #[trigger] x[t] == (if is_done(m, i, block, t) {
            out[t]
        } else {
            x0[t]
        })
}

} // verus!
