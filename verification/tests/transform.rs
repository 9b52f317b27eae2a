use fft_analyzer::arithmetic::Real;
use core::f32::consts::PI;
use fft_analyzer::complex::Complex;
use fft_analyzer::fft::Fft;
use micromath::F32Ext;

#[derive(Clone, Copy, Debug, PartialEq)]
struct F32(f32);

impl Real for F32 {
    fn from_int(v: i32) -> Self { F32(v as f32) }
    fn pi() -> Self { F32(core::f32::consts::PI) }
    fn nan() -> Self { F32(f32::NAN) }
    fn plus(self, other: Self) -> Self { F32(self.0 + other.0) }
    fn minus(self, other: Self) -> Self { F32(self.0 - other.0) }
    fn times(self, other: Self) -> Self { F32(self.0 * other.0) }
    fn over(self, other: Self) -> Self { F32(self.0 / other.0) }
    fn negated(self) -> Self { F32(-self.0) }
    fn hypot(self, other: Self) -> Self { F32(F32Ext::hypot(self.0, other.0)) }
    fn cos(self) -> Self { F32(F32Ext::cos(self.0)) }
    fn sin(self) -> Self { F32(F32Ext::sin(self.0)) }
    fn exp(self) -> Self { F32(F32Ext::exp(self.0)) }
    fn is_infinite(self) -> bool { self.0.is_infinite() }
    fn is_finite(self) -> bool { self.0.is_finite() }
    fn is_nan(self) -> bool { self.0.is_nan() }
    fn is_below(self, other: Self) -> bool { self.0 < other.0 }
    fn is_equal(self, other: Self) -> bool { self.0 == other.0 }
    fn clamp(self, low: Self, high: Self) -> Self { F32(self.0.clamp(low.0, high.0)) }
    fn to_byte(self) -> u8 { self.0 as u8 }
}

fn c(re: f32, im: f32) -> Complex<F32> {
    Complex::new(F32(re), F32(im))
}

fn close(a: Complex<F32>, b: Complex<F32>) -> bool {
    (a.re.0 - b.re.0).abs() < 0.02 && (a.im.0 - b.im.0).abs() < 0.02
}

#[test]
fn complex_operators() {
    assert_eq!(c(1.0, 2.0) + c(3.0, -1.0), c(4.0, 1.0));
    assert_eq!(c(1.0, 2.0) - c(3.0, -1.0), c(-2.0, 3.0));
    assert_eq!(c(1.0, 2.0) * c(3.0, -1.0), c(5.0, 5.0));
    assert_eq!(Complex::<f32>::default(), Complex { re: 0.0, im: 0.0 });
}

#[test]
fn the_order_of_terms_and_factors_does_not_matter() {
    let values = [c(1.1, -2.7), c(-0.0, 0.0), c(1e30, 3e-30), c(f32::INFINITY, 5.0), c(0.1, 0.2)];
    for a in values {
        for b in values {
            assert_eq!(a + b, b + a);
            let product = a * b;
            if !product.re.0.is_nan() && !product.im.0.is_nan() {
                assert_eq!(product, b * a);
            }
        }
    }
}

#[test]
fn one_and_the_imaginary_unit_as_factors() {
    for a in [c(1.1, -2.7), c(-0.0, -1.0), c(1e30, 3e-30), c(0.0, -0.0)] {
        assert_eq!(a * c(1.0, 0.0), a);
        assert_eq!(a * c(0.0, 1.0), c(-a.im.0, a.re.0));
    }
}

#[test]
fn differences_are_opposite() {
    for (a, b) in [(c(1.1, -2.7), c(0.3, 1e10)), (c(2.0, 2.0), c(2.0, -2.0))] {
        let e = b - a;
        assert_eq!(a - b, c(-e.re.0, -e.im.0));
    }
}

#[test]
fn norm_is_the_hypotenuse() {
    let norm = c(3.0, -4.0).norm().0;
    assert!((norm - 5.0).abs() < 0.2, "{}", norm);
    assert_eq!(norm, F32Ext::hypot(3.0f32, -4.0f32));
}

#[test]
fn polar_form() {
    assert!(close(Complex::from_polar(F32(2.0), F32(0.0)), c(2.0, 0.0)));
    assert!(close(Complex::from_polar(F32(2.0), F32(PI / 2.0)), c(0.0, 2.0)));
    let r = Complex::from_polar(F32(1.5), F32(0.7));
    assert_eq!(r, c(1.5 * F32Ext::cos(0.7f32), 1.5 * F32Ext::sin(0.7f32)));
}

#[test]
fn exponential_of_finite_numbers_is_polar() {
    assert!(close(c(0.0, 0.0).exp(), c(1.0, 0.0)));
    assert!(close(c(0.0, PI).exp(), c(-1.0, 0.0)));
    let r = c(0.5, 1.0).exp();
    assert_eq!(r, Complex::from_polar(F32(F32Ext::exp(0.5f32)), F32(1.0)));
}

#[test]
fn exponential_at_the_infinities() {
    let (inf, nan) = (f32::INFINITY, f32::NAN);
    assert_eq!(c(-inf, inf).exp(), c(0.0, 0.0));
    assert_eq!(c(-inf, nan).exp(), c(0.0, 0.0));
    assert_eq!(c(inf, 0.0).exp(), c(inf, 0.0));
    let r = c(inf, inf).exp();
    assert_eq!(r.re.0, inf);
    assert!(r.im.0.is_nan());
    let r = c(inf, nan).exp();
    assert_eq!(r.re.0, inf);
    assert!(r.im.0.is_nan());
}

#[test]
fn exponential_of_not_a_number_on_the_axis() {
    let r = c(f32::NAN, 0.0).exp();
    assert!(r.re.0.is_nan());
    assert_eq!(r.im.0, 0.0);
}

#[test]
fn one_frame_is_left_as_it_is() {
    let mut fft = Fft::new();
    let mut frames = [c(1.25, -3.0)];
    fft.process(&mut frames);
    assert_eq!(frames, [c(1.25, -3.0)]);
}

#[test]
fn two_points() {
    let mut fft = Fft::new();
    let mut frames = [c(1.0, 0.5), c(2.0, -1.0)];
    fft.process(&mut frames);
    assert_eq!(frames, [c(3.0, -0.5), c(-1.0, 1.5)]);
}

#[test]
fn four_points() {
    let mut fft = Fft::new();
    let mut frames = [c(1.0, 0.0), c(2.0, 0.0), c(3.0, 0.0), c(4.0, 0.0)];
    fft.process(&mut frames);
    assert_eq!(frames, [c(10.0, 0.0), c(-2.0, 2.0), c(-2.0, 0.0), c(-2.0, -2.0)]);
}

#[test]
fn sixteen_points_are_in_order() {
    let mut frames = [c(0.0, 0.0); 16];
    frames[4] = c(1.0, 0.0);
    Fft::new().process(&mut frames);
    for k in 0..16 {
        let expected = [c(1.0, 0.0), c(0.0, -1.0), c(-1.0, 0.0), c(0.0, 1.0)][k % 4];
        assert!(close(frames[k], expected), "frequency {}: {:?}", k, frames[k]);
    }
}

#[test]
fn tables_follow_the_number_of_frames() {
    let wave = |n: usize| {
        (0..n).map(|i| c((i * i % 7) as f32, i as f32)).collect::<Vec<Complex<F32>>>()
    };
    let fresh = |n: usize| {
        let mut frames = wave(n);
        Fft::new().process(&mut frames);
        frames
    };
    let mut fft = Fft::new();
    fft.setup(2048);
    for n in [8, 64, 8, 2, 2048, 1, 32, 32] {
        let mut frames = wave(n);
        fft.process(&mut frames);
        assert_eq!(frames, fresh(n));
    }
}

#[test]
fn single_sin_wave_test() {
    let frame_size: usize = 2048;
    let sampling_rate = 48000;
    let hz = 2000;

    let mut sin_curve = (0..frame_size)
        .map(|x| (x as f32) * 2.0 * PI * (hz as f32) / (sampling_rate as f32))
        .map(|x| Complex::new(F32(F32Ext::sin(x)), F32(0.0)))
        .collect::<Vec<Complex<F32>>>();

    let size = frame_size.next_power_of_two();
    let mut fft = Fft::new();

    fft.setup(size);
    fft.process(&mut sin_curve);

    let result = sin_curve;
    let spectrum = &result[..(size / 2)];
    let (max_index, max) = spectrum.iter().enumerate().fold(
        (0, f32::MIN),
        |(i_a, a), (i_b, &b)| {
            if b.norm().0 > a {
                (i_b, b.norm().0)
            } else {
                (i_a, a)
            }
        },
    );
    let max_hz = (max_index as f32) * (sampling_rate as f32) / (size as f32);

    println!("max_index: {:?}, max: {:?}, max_hz: {:?}", max_index, max, max_hz);
    assert_eq!(max_index, 85);
    assert_eq!(max_hz, 1992.1875);
}
