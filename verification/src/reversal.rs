//! How the table of reversed digits is built and turned into exchanges.
use crate::network::{is_power_of_two, position_of};
use vstd::prelude::*;

verus! {

/// `n` is one of `1, 4, 16, 64, ...`.
pub open spec fn is_power_of_four(n: int) -> bool
    decreases n,
{
    n == 1 || (n > 1 && n % 4 == 0 && is_power_of_four(n / 4))
}

/// `x` after the first `k` of the exchanges `0 <-> s[0]`, `1 <-> s[1]`, ...
pub open spec fn exchanged<A>(x: Seq<A>, s: Seq<usize>, k: int) -> Seq<A>
    decreases k,
{
    if k <= 0 {
        x
    } else {
        let y = exchanged(x, s, k - 1);
        let (i, j) = (k - 1, s[k - 1] as int);
        y.update(i, y[j]).update(j, y[i])
    }
}

/// The numbers `0, 1, ..., n - 1`.
pub open spec fn counting(n: int) -> Seq<int> {
    Seq::new(n as nat, |i: int| i)
}

/// The exchanges `s`, done one after the other, put `n` points whose frequencies lie
/// where a transform leaves them in order. Each one fills its place for good.
pub open spec fn puts_in_order(s: Seq<usize>, n: int) -> bool {
    &&& s.len() == n
    &&& forall|i: int| 0 <= i < n ==> i <= #[trigger] s[i] < n
    &&& forall|k: int|
        0 <= k < n ==> #[trigger] exchanged(counting(n), s, n)[k] == position_of(n, k)
}

/// The exchanges that put `n` points in order: a table that depends on `n` alone.
pub open spec fn exchanges_for(n: int) -> Seq<usize> {
    choose|s: Seq<usize>| puts_in_order(s, n)
}

/// Frequency zero stays where it is.
pub(crate) proof fn lemma_position_of_zero(m: int)
    ensures
        position_of(m, 0) == 0,
    decreases m,
{
    if m > 2 {
        lemma_position_of_zero(m / 4);
        assert(0 * (m / 4) == 0) by (nonlinear_arith);
    }
}

/// Taking the last digit from `p * len + j`, for a power of four `len`.
proof fn lemma_last_digit(len: int, p: int, j: int)
    requires
        len > 1,
        len % 4 == 0,
        0 <= j < len,
        0 <= p,
    ensures
        (p * len + j) % 4 == j % 4,
        (p * len + j) / 4 == p * (len / 4) + j / 4,
        0 <= j / 4 < len / 4,
{
    let l = len / 4;
    assert(p * len + j == (p * l) * 4 + j) by (nonlinear_arith)
        requires
            len == 4 * l,
    ;
}

/// The table of positions, extended by a first digit `p` in base four.
pub(crate) proof fn lemma_first_digit_of_four(n: int, len: int, r: int, p: int, j: int)
    requires
        is_power_of_two(n),
        is_power_of_four(len),
        n == len * (4 * r),
        r > 0,
        0 <= j < len,
        0 <= p < 4,
    ensures
        position_of(n, p * len + j) == position_of(n, j) + p * r,
    decreases len,
{
    assert(n >= 4) by (nonlinear_arith)
        requires
            n == len * (4 * r),
            r > 0,
            len > 0,
    ;
    crate::network::lemma_quarter(n);
    if len == 1 {
        lemma_position_of_zero(n / 4);
        lemma_position_of_zero(n);
        assert(len * (4 * r) == 4 * r && p * len == p) by (nonlinear_arith)
            requires
                len == 1,
        ;
    } else {
        let l = len / 4;
        lemma_last_digit(len, p, j);
        assert(n / 4 == l * (4 * r)) by (nonlinear_arith)
            requires
                n == len * (4 * r),
                len == 4 * l,
        ;
        lemma_first_digit_of_four(n / 4, l, r, p, j / 4);
    }
}

/// The table of positions, extended by a first digit one in base two.
pub(crate) proof fn lemma_first_digit_of_two(n: int, len: int, j: int)
    requires
        is_power_of_two(n),
        is_power_of_four(len),
        n == 2 * len,
        0 <= j < len,
    ensures
        position_of(n, len + j) == position_of(n, j) + 1,
    decreases len,
{
    if len > 1 {
        crate::network::lemma_quarter(n);
        lemma_last_digit(len, 1, j);
        lemma_first_digit_of_two(n / 4, len / 4, j / 4);
    }
}

/// The positions of the first `len` frequencies are multiples of `n / len`.
pub(crate) proof fn lemma_position_spacing(n: int, len: int, g: int, j: int)
    requires
        is_power_of_two(n),
        is_power_of_four(len),
        n == len * g,
        g > 0,
        0 <= j < len,
    ensures
        position_of(n, j) % g == 0,
    decreases len,
{
    if len == 1 {
        lemma_position_of_zero(n);
        vstd::arithmetic::div_mod::lemma_small_mod(0, g as nat);
    } else {
        let l = len / 4;
        assert(n >= 4) by (nonlinear_arith)
            requires
                n == len * g,
                len >= 4,
                g > 0,
        ;
        crate::network::lemma_quarter(n);
        assert(n / 4 == l * g) by (nonlinear_arith)
            requires
                n == len * g,
                len == 4 * l,
        ;
        lemma_position_spacing(n / 4, l, g, j / 4);
        let rest = position_of(n / 4, j / 4);
        let d = j % 4;
        assert((d * (l * g) + rest) % g == 0) by {
            assert(d * (l * g) == (d * l) * g) by (nonlinear_arith);
            vstd::arithmetic::div_mod::lemma_mod_multiples_vanish(d * l, rest, g);
            assert(g * (d * l) == (d * l) * g) by (nonlinear_arith);
        }
    }
}

/// The powers of two up to a quarter of the largest table.
proof fn lemma_small_powers_of_two(r: int)
    requires
        is_power_of_two(r),
        r <= 512,
    ensures
        r == 1 || r == 2 || r == 4 || r == 8 || r == 16 || r == 32 || r == 64 || r == 128 || r
            == 256 || r == 512,
{
    reveal_with_fuel(is_power_of_two, 11);
}

/// Setting the two bits at and above `r` in a multiple of `4 * r` is adding them.
pub(crate) proof fn lemma_bits_add(a: usize, r: usize)
    requires
        a < 2048,
        is_power_of_two(r as int),
        r <= 512,
        a as int % (4 * r) == 0,
    ensures
        a | r == a + r,
        a | (r << 1) == a + 2 * r,
        a | (r | (r << 1)) == a + 3 * r,
        r << 1 == 2 * r,
{
    lemma_small_powers_of_two(r as int);
    let four: usize = (4 * r) as usize;
    assert(a % four == 0);
    assert(a | r == a + r && a | (r << 1) == a + 2 * r && a | (r | (r << 1)) == a + 3 * r && r << 1
        == 2 * r) by (bit_vector)
        requires
            a < 2048,
            r == 1 || r == 2 || r == 4 || r == 8 || r == 16 || r == 32 || r == 64 || r == 128 || r
                == 256 || r == 512,
            four == 4 * r,
            a % four == 0,
    ;
}

/// Setting the lowest bit of an even number is adding one.
pub(crate) proof fn lemma_lowest_bit_adds(a: usize)
    requires
        a % 2 == 0,
    ensures
        a | 1 == a + 1,
{
    assert(a | 1 == a + 1) by (bit_vector)
        requires
            a % 2 == 0,
    ;
}

/// Only the exchanges that are done matter.
pub(crate) proof fn lemma_exchanged_prefix<A>(x: Seq<A>, s: Seq<usize>, t: Seq<usize>, k: int)
    requires
        forall|i: int| 0 <= i < k ==> s[i] == t[i],
    ensures
        exchanged(x, s, k) == exchanged(x, t, k),
    decreases k,
{
    if k > 0 {
        lemma_exchanged_prefix(x, s, t, k - 1);
    }
}

/// Exchanging points moves each one as exchanging their numbers moves its number.
pub(crate) proof fn lemma_exchanged_by_number<A>(x: Seq<A>, s: Seq<usize>, k: int)
    requires
        0 <= k <= x.len(),
        k <= s.len(),
        forall|i: int| 0 <= i < k ==> #[trigger] s[i] < x.len(),
    ensures
        exchanged(x, s, k).len() == x.len(),
        exchanged(counting(x.len() as int), s, k).len() == x.len(),
        forall|j: int|
            0 <= j < x.len() ==> {
                let from = #[trigger] exchanged(counting(x.len() as int), s, k)[j];
                0 <= from < x.len() && exchanged(x, s, k)[j] == x[from]
            },
    decreases k,
{
    if k > 0 {
        lemma_exchanged_by_number(x, s, k - 1);
    }
}

/// A place that was filled is not touched again.
proof fn lemma_filled_for_good<A>(x: Seq<A>, s: Seq<usize>, place: int, k: int)
    requires
        0 <= place < k <= x.len(),
        k <= s.len(),
        forall|i: int| 0 <= i < k ==> i <= #[trigger] s[i] < x.len(),
    ensures
        exchanged(x, s, k).len() == x.len(),
        exchanged(x, s, k)[place] == exchanged(x, s, place)[s[place] as int],
    decreases k,
{
    lemma_exchanged_by_number(x, s, k - 1);
    if place < k - 1 {
        lemma_filled_for_good(x, s, place, k - 1);
    }
}

/// Exchanges lose no number.
proof fn lemma_exchanged_distinct(n: int, s: Seq<usize>, k: int)
    requires
        0 <= k <= n,
        k <= s.len(),
        forall|i: int| 0 <= i < k ==> #[trigger] s[i] < n,
    ensures
        exchanged(counting(n), s, k).len() == n,
        forall|i: int, j: int|
            0 <= i < j < n ==> #[trigger] exchanged(counting(n), s, k)[i]
                != #[trigger] exchanged(counting(n), s, k)[j],
    decreases k,
{
    if k > 0 {
        lemma_exchanged_distinct(n, s, k - 1);
    }
}

/// There is one way only to put `n` points in order by exchanges that each fill their
/// place for good.
pub proof fn law_exchanges_are_unique(s: Seq<usize>, t: Seq<usize>, n: int)
    requires
        puts_in_order(s, n),
        puts_in_order(t, n),
    ensures
        s == t,
{
    lemma_exchanges_agree(s, t, n, n);
    assert(s =~= t);
}

/// The first `k` exchanges are the same.
proof fn lemma_exchanges_agree(s: Seq<usize>, t: Seq<usize>, n: int, k: int)
    requires
        puts_in_order(s, n),
        puts_in_order(t, n),
        0 <= k <= n,
    ensures
        forall|i: int| 0 <= i < k ==> #[trigger] s[i] == t[i],
    decreases k,
{
    if k > 0 {
        let x = counting(n);
        let i = k - 1;
        lemma_exchanges_agree(s, t, n, i);
        lemma_exchanged_prefix(x, s, t, i);
        lemma_filled_for_good(x, s, i, n);
        lemma_filled_for_good(x, t, i, n);
        lemma_exchanged_distinct(n, s, i);
        assert(exchanged(x, s, n)[i] == exchanged(x, t, n)[i]);
    }
}

} // verus!
