use fft_analyzer::analyzer::{average_spectrum, quantize, spectrum_packets, Analyzer};
use fft_analyzer::arithmetic::Real;
use fft_analyzer::audio::{load_block, sample, AudioStep};
use fft_analyzer::complex::Complex;
use fft_analyzer::packet::SpectrumPacket;

#[derive(Clone, Copy, Debug, PartialEq)]
struct F32(f32);

impl Real for F32 {
    fn from_int(v: i32) -> Self { F32(v as f32) }
    fn pi() -> Self { F32(core::f32::consts::PI) }
    fn nan() -> Self { F32(f32::NAN) }
    fn plus(self, other: Self) -> Self { F32(self.0 + other.0) }
    fn minus(self, other: Self) -> Self { F32(self.0 - other.0) }
    fn times(self, other: Self) -> Self { F32(self.0 * other.0) }
    fn over(self, other: Self) -> Self { F32(self.0 / other.0) }
    fn negated(self) -> Self { F32(-self.0) }
    fn hypot(self, other: Self) -> Self { F32(self.0.hypot(other.0)) }
    fn cos(self) -> Self { F32(self.0.cos()) }
    fn sin(self) -> Self { F32(self.0.sin()) }
    fn exp(self) -> Self { F32(self.0.exp()) }
    fn is_infinite(self) -> bool { self.0.is_infinite() }
    fn is_finite(self) -> bool { self.0.is_finite() }
    fn is_nan(self) -> bool { self.0.is_nan() }
    fn is_below(self, other: Self) -> bool { self.0 < other.0 }
    fn is_equal(self, other: Self) -> bool { self.0 == other.0 }
    fn clamp(self, low: Self, high: Self) -> Self { F32(self.0.clamp(low.0, high.0)) }
    fn to_byte(self) -> u8 { self.0 as u8 }
}

fn c(re: f32, im: f32) -> Complex<F32> {
    Complex::new(F32(re), F32(im))
}

#[test]
fn samples_are_signed() {
    assert_eq!(sample(0), 0);
    assert_eq!(sample(1), 1);
    assert_eq!(sample(0x40_0000), 4194304);
    assert_eq!(sample(0x7f_ffff), 8388607);
    assert_eq!(sample(0x80_0000), -8388608);
    assert_eq!(sample(0xff_ffff), -1);
    assert_eq!(sample(0x100_0000), 0);
    assert_eq!(sample(0x100_0001), 1);
    assert_eq!(sample(0xffff_ffff), -1);
}

#[test]
fn the_first_channel_is_loaded() {
    let mut block = vec![0xff_ffffu32; 4096];
    block[0] = 0x20_0000;
    block[1] = 0x12_3456;
    block[2] = 0x60_0000;
    block[6] = 0x80_0000;
    block[8] = 0x7f_ffff;
    block[4094] = 0xf0_0000;
    let mut frames = vec![c(9.0, 9.0); 2050];
    load_block(&block, &mut frames);
    assert_eq!(frames[0], c(0.25, 0.0));
    assert_eq!(frames[1], c(0.75, 0.0));
    assert_eq!(frames[2], c(-1.0 / 8388608.0, 0.0));
    assert_eq!(frames[3], c(-1.0, 0.0));
    assert_eq!(frames[4], c(8388607.0 / 8388608.0, 0.0));
    assert_eq!(frames[2047], c(-0.125, 0.0));
    assert!(frames[..2048].iter().all(|f| (-1.0..1.0).contains(&f.re.0) && f.im.0 == 0.0));
    assert_eq!(frames[2048..], [c(9.0, 9.0), c(9.0, 9.0)]);
}

#[test]
fn only_passed_blocks_are_analyzed() {
    let mut step = AudioStep::first();
    let mut steps = Vec::new();
    for ok in [false, true, false, true, true, true, true, true, false, true] {
        steps.push(step);
        step = step.next(ok);
    }
    assert_eq!(
        steps,
        [
            AudioStep::Read,
            AudioStep::Read,
            AudioStep::Write,
            AudioStep::Read,
            AudioStep::Write,
            AudioStep::Analyze,
            AudioStep::Read,
            AudioStep::Write,
            AudioStep::Analyze,
            AudioStep::Read,
        ],
    );
    assert_eq!(step, AudioStep::Write);
}

#[test]
fn quantized_values() {
    assert_eq!(quantize(F32(0.0)), 0);
    assert_eq!(quantize(F32(0.5)), 32);
    assert_eq!(quantize(F32(1.0)), 64);
    assert_eq!(quantize(F32(1.999)), 127);
    assert_eq!(quantize(F32(3.984375)), 255);
    assert_eq!(quantize(F32(100.0)), 255);
    assert_eq!(quantize(F32(-2.0)), 0);
    assert_eq!(quantize(F32(f32::NAN)), 0);
}

#[test]
fn quantization_keeps_the_order() {
    let values = [f32::NEG_INFINITY, -1.0, -0.0, 0.0, 1e-9, 0.1, 0.5, 2.0, 3.99, 4.0, f32::INFINITY];
    for pair in values.windows(2) {
        assert!(quantize(F32(pair[0])) <= quantize(F32(pair[1])));
    }
}

#[test]
fn averages_move_by_half() {
    let mut average = [F32(2.0), F32(0.0), F32(7.0)];
    average_spectrum(&mut average, &[c(3.0, 4.0), c(0.0, -2.0)]);
    assert_eq!(average, [F32(3.5), F32(1.0), F32(7.0)]);
}

#[test]
fn packets_of_a_spectrum() {
    let spectrum: Vec<F32> = (0..1024).map(|i| F32((i % 200) as f32 / 64.0)).collect();
    let packets: [SpectrumPacket; 5] = spectrum_packets(12, &spectrum);
    for (j, p) in packets.iter().enumerate() {
        assert_eq!((p.seq, p.offset as usize), (12, 252 * j));
        for (i, &bin) in p.bins.iter().enumerate() {
            let k = 252 * j + i;
            assert_eq!(bin as usize, if k < 1024 { k % 200 } else { 0 });
        }
    }
}

#[test]
fn every_thirtieth_spectrum_is_sent() {
    let mut analyzer = Analyzer::new();
    let mut sent = Vec::new();
    for block in 0..61 {
        // An impulse holds every frequency once.
        let mut frames = vec![c(0.0, 0.0); 2048];
        frames[0] = c(1.0, 0.0);
        let packets = analyzer.analyze(&mut frames);
        assert!(frames.iter().all(|&f| f == c(1.0, 0.0)));
        if let Some(packets) = packets {
            sent.push((block, packets[0].seq, packets[4].offset, packets[2].bins[100]));
        }
    }
    assert_eq!(sent, [(0, 0, 1008, 32), (30, 1, 1008, 64), (60, 2, 1008, 64)]);
}
