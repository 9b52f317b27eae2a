//! Transforms in an arithmetic that rounds nothing: complex numbers over the integers
//! modulo a prime, in which roots of unity exist.
use fft_analyzer::arithmetic::Real;
use fft_analyzer::complex::Complex;
use fft_analyzer::fft::Fft;

const P: u64 = 0x7fff_ffff;

/// A full turn, in the unit that angles have here.
const TURN: u64 = 2048;

#[derive(Clone, Copy, Debug, PartialEq)]
struct Residue(u64);

type Gauss = (u64, u64);

fn times(a: Gauss, b: Gauss) -> Gauss {
    let re = a.0 * b.0 % P + P - a.1 * b.1 % P;
    let im = a.0 * b.1 % P + a.1 * b.0 % P;
    (re % P, im % P)
}

fn power(a: Gauss, n: u64) -> Gauss {
    let (mut base, mut n, mut r) = (a, n, (1, 0));
    while n > 0 {
        if n % 2 == 1 {
            r = times(r, base);
        }
        base = times(base, base);
        n /= 2;
    }
    r
}

/// A number of which the powers go once round in a full turn, with `-i` after a
/// quarter of it.
fn unit() -> Gauss {
    let mut z = 2;
    loop {
        let g = power(power((z, 1), P - 1), (P + 1) / TURN);
        let quarter = power(g, TURN / 4);
        if quarter == (0, P - 1) {
            return g;
        }
        if quarter == (0, 1) {
            return power(g, TURN - 1);
        }
        z += 1;
    }
}

impl Real for Residue {
    fn from_int(v: i32) -> Self { Residue((v as i64).rem_euclid(P as i64) as u64) }
    fn pi() -> Self { Residue(P - TURN / 2) }
    fn nan() -> Self { Residue(0) }
    fn plus(self, other: Self) -> Self { Residue((self.0 + other.0) % P) }
    fn minus(self, other: Self) -> Self { Residue((self.0 + P - other.0) % P) }
    fn times(self, other: Self) -> Self { Residue(self.0 * other.0 % P) }
    fn over(self, other: Self) -> Self { Residue(self.0 * power((other.0, 0), P - 2).0 % P) }
    fn negated(self) -> Self { Residue((P - self.0) % P) }
    fn hypot(self, other: Self) -> Self { self.times(self).plus(other.times(other)) }
    fn cos(self) -> Self { Residue(power(unit(), self.0).0) }
    fn sin(self) -> Self { Residue(power(unit(), self.0).1) }
    fn exp(self) -> Self { assert_eq!(self.0, 0); Residue(1) }
    fn is_infinite(self) -> bool { false }
    fn is_finite(self) -> bool { true }
    fn is_nan(self) -> bool { false }
    fn is_below(self, other: Self) -> bool { self.0 < other.0 }
    fn is_equal(self, other: Self) -> bool { self.0 == other.0 }
    fn clamp(self, low: Self, high: Self) -> Self { Residue(self.0.clamp(low.0, high.0)) }
    fn to_byte(self) -> u8 { self.0 as u8 }
}

fn frames(n: usize) -> Vec<Complex<Residue>> {
    (0..n as u64)
        .map(|i| Complex::new(Residue((i * i * 31 + 7) % P), Residue((i * 1000 + 3) % P)))
        .collect()
}

/// The discrete Fourier transform, by its definition.
fn fourier(x: &[Complex<Residue>]) -> Vec<Complex<Residue>> {
    let n = x.len() as u64;
    let root = power(unit(), TURN / n);
    (0..n)
        .map(|k| {
            let mut sum = (0, 0);
            for (j, v) in x.iter().enumerate() {
                let term = times((v.re.0, v.im.0), power(root, j as u64 * k % n));
                sum = ((sum.0 + term.0) % P, (sum.1 + term.1) % P);
            }
            Complex::new(Residue(sum.0), Residue(sum.1))
        })
        .collect()
}

fn transform(n: usize) -> Vec<Complex<Residue>> {
    let mut x = frames(n);
    Fft::new().process(&mut x);
    x
}

#[test]
fn unit_is_a_root() {
    assert_eq!(power(unit(), TURN), (1, 0));
    assert_eq!(power(unit(), TURN / 2), (P - 1, 0));
    assert_eq!(power(unit(), TURN / 4), (0, P - 1));
}

#[test]
fn twice_a_power_of_four_is_in_order() {
    for n in [2, 8, 32, 128, 512] {
        assert_eq!(transform(n), fourier(&frames(n)), "{} points", n);
    }
}

#[test]
fn a_power_of_four_is_in_order() {
    for n in [1, 4, 16, 64, 256, 1024] {
        assert_eq!(transform(n), fourier(&frames(n)), "{} points", n);
    }
}

#[test]
fn a_late_one_turns_round() {
    let c = |re: u64, im: u64| Complex::new(Residue(re), Residue(im));
    let mut x = [c(0, 0); 16];
    x[4] = c(1, 0);
    let mut fft = Fft::new();
    fft.setup(16);
    fft.process(&mut x);
    for k in 0..16 {
        let expected = [c(1, 0), c(0, P - 1), c(P - 1, 0), c(0, 1)][k % 4];
        assert_eq!(x[k], expected, "frequency {}", k);
    }
}

#[test]
fn the_transform_of_a_sum_is_the_sum() {
    for n in [1, 2, 4, 8, 16, 64, 128] {
        let a = frames(n);
        let b: Vec<Complex<Residue>> = a.iter().rev().map(|&v| v * a[0]).collect();
        let mut sum: Vec<Complex<Residue>> = (0..n).map(|i| a[i] + b[i]).collect();
        let (mut left, mut right) = (a, b);
        let mut fft = Fft::new();
        fft.process(&mut sum);
        fft.process(&mut left);
        fft.process(&mut right);
        for k in 0..n {
            assert_eq!(sum[k], left[k] + right[k], "{} points, frequency {}", n, k);
        }
    }
}

#[test]
fn a_transform_is_undone() {
    let conjugate = |v: &Complex<Residue>| Complex::new(v.re, v.im.negated());
    for n in [1, 2, 4, 8, 16, 32, 256] {
        let mut fft = Fft::new();
        let mut z: Vec<Complex<Residue>> = transform(n).iter().map(conjugate).collect();
        fft.process(&mut z);
        let count = Residue::from_int(n as i32);
        for (t, v) in frames(n).iter().enumerate() {
            assert_eq!(z[t].re.over(count), v.re);
            assert_eq!(z[t].im.negated().over(count), v.im);
        }
    }
}

#[test]
fn a_computed_step_is_a_root() {
    let turn = Residue::from_int(2).negated().times(Residue::pi());
    for n in [8, 64, 2048] {
        let angle = turn.over(Residue::from_int(n as i32));
        let step = Complex::new(Residue(0), angle).exp();
        let step = (step.re.0, step.im.0);
        assert_eq!(power(step, n / 4), (0, P - 1));
        assert_eq!(power(step, n / 2), (P - 1, 0));
        assert_eq!(times(step, (step.0, P - step.1)), (1, 0));
    }
}

#[test]
fn an_impulse_holds_every_frequency() {
    let c = |re: u64, im: u64| Complex::new(Residue(re), Residue(im));
    for n in [2usize, 4, 8, 16, 64, 128] {
        let mut x = vec![c(0, 0); n];
        x[1] = c(3, 5);
        Fft::new().process(&mut x);
        let root = power(unit(), TURN / n as u64);
        for k in 0..n {
            let expected = times((3, 5), power(root, k as u64));
            assert_eq!(x[k], c(expected.0, expected.1), "{} points, frequency {}", n, k);
        }
        for k in 0..n / 2 {
            assert_eq!(x[k + n / 2], c(0, 0) - x[k]);
        }
    }
}

#[test]
fn a_constant_holds_the_frequency_zero() {
    let c = |re: u64, im: u64| Complex::new(Residue(re), Residue(im));
    for n in [1usize, 2, 4, 8, 16, 64, 128] {
        let mut x = vec![c(3, 5); n];
        Fft::new().process(&mut x);
        assert_eq!(x[0], c(3 * n as u64, 5 * n as u64));
        assert!(x[1..].iter().all(|&v| v == c(0, 0)), "{} points", n);
    }
}

#[test]
fn the_unit_lies_on_the_circle() {
    let (re, im) = unit();
    assert_eq!(times((re, im), (re, P - im)), (1, 0));
}

#[test]
fn complex_numbers_form_a_ring() {
    let x = frames(3);
    let (a, b, c) = (x[0], x[1], x[2]);
    assert_eq!(a * b, b * a);
    assert_eq!((a * b) * c, a * (b * c));
    assert_eq!(a * (b + c), a * b + a * c);
    assert_eq!((a - b) + b, a);
    let e = b - a;
    assert_eq!(a - b, Complex::new(e.re.negated(), e.im.negated()));
}
