//! The analysis: blocks of frames become averaged spectra, and packets of them.
use crate::arithmetic::{Model, Real};
use crate::audio::BLOCK_SIZE;
use crate::complex::Complex;
use crate::fft::Fft;
use crate::packet::{
    is_packet_of,
    split_spectrum,
    SpectrumPacket,
    BINS_PER_PACKET,
    FFT_BINS,
    PACKETS_PER_SPECTRUM,
};
use vstd::prelude::*;

verus! {

/// Of how many spectra one is sent.
pub const SEND_FREQUENCY: u16 = 30;

impl<T> Model<T> {
    /// A moving average: half of what it was and half of the distance of `bin` from
    /// zero.
    pub open spec fn averaged(self, average: T, bin: Complex<T>) -> T {
        let half = (self.quotient)((self.int_value)(1), (self.int_value)(2));
        (self.sum)(
            (self.product)(half, average),
            (self.product)(half, (self.hypotenuse)(bin.re, bin.im)),
        )
    }

    /// `v` in steps of a sixty-fourth, up to the largest byte.
    pub open spec fn quantized(self, v: T) -> u8 {
        (self.byte_value)(
            (self.clamped)(
                (self.product)(v, (self.int_value)(64)),
                (self.int_value)(0),
                (self.int_value)(255),
            ),
        )
    }

    /// The bins of a spectrum in steps of a sixty-fourth.
    pub open spec fn quantized_spectrum(self, spectrum: Seq<T>) -> Seq<u8> {
        Seq::new(FFT_BINS as nat, |i: int| self.quantized(spectrum[i]))
    }
}

/// `v` in steps of a sixty-fourth, up to the largest byte.
pub fn quantize<T: Real>(v: T) -> (r: u8)
    ensures
        forall|m: Model<T>| #[trigger] m.fits() ==> r == m.quantized(v),
{
    let scaled = v.times(T::from_int(64)).clamp(T::from_int(0), T::from_int(255));
    scaled.to_byte()
}

/// Takes a transformed block into the moving average of each bin.
pub fn average_spectrum<T: Real>(average: &mut [T], spectrum: &[Complex<T>])
    requires
        spectrum@.len() <= old(average)@.len(),
    ensures
        final(average)@.len() == old(average)@.len(),
        forall|m: Model<T>, i: int|
            #![trigger m.fits(), final(average)@[i]]
            m.fits() && 0 <= i < spectrum@.len() ==> final(average)@[i] == m.averaged(
                old(average)@[i],
                spectrum@[i],
            ),
        forall|i: int|
            spectrum@.len() <= i < old(average)@.len() ==> #[trigger] final(average)@[i] == old(
                average,
            )@[i],
{
    let half = T::from_int(1).over(T::from_int(2));
    let mut i: usize = 0;
    while i < spectrum.len()
        invariant
            forall|m: Model<T>| #[trigger]
                m.fits() ==> half == (m.quotient)((m.int_value)(1), (m.int_value)(2)),
            i <= spectrum@.len() <= average@.len(),
            average@.len() == old(average)@.len(),
            forall|m: Model<T>, j: int|
                #![trigger m.fits(), average@[j]]
                m.fits() && 0 <= j < i ==> average@[j] == m.averaged(
                    old(average)@[j],
                    spectrum@[j],
                ),
            forall|j: int| i <= j < average@.len() ==> #[trigger] average@[j] == old(average)@[j],
        decreases spectrum@.len() - i,
    {
        average[i] = half.times(average[i]).plus(half.times(spectrum[i].norm()));
        i += 1;
    }
}

/// The packets of a spectrum.
pub fn spectrum_packets<T: Real>(seq: u16, spectrum: &[T]) -> (r:
    [SpectrumPacket; PACKETS_PER_SPECTRUM])
    requires
        spectrum@.len() >= FFT_BINS,
    ensures
        forall|j: int|
            0 <= j < PACKETS_PER_SPECTRUM ==> (#[trigger] r@[j]).seq == seq && r@[j].offset == j
                * BINS_PER_PACKET,
        forall|m: Model<T>, j: int|
            #![trigger m.fits(), r@[j]]
            m.fits() && 0 <= j < PACKETS_PER_SPECTRUM ==> is_packet_of(
                r@[j],
                seq,
                m.quantized_spectrum(spectrum@),
                j,
            ),
{
    let mut bins = [0u8;FFT_BINS];
    let mut i: usize = 0;
    while i < FFT_BINS
        invariant
            i <= FFT_BINS <= spectrum@.len(),
            forall|m: Model<T>, j: int|
                #![trigger m.fits(), bins@[j]]
                m.fits() && 0 <= j < i ==> bins@[j] == m.quantized(spectrum@[j]),
        decreases FFT_BINS - i,
    {
        bins[i] = quantize(spectrum[i]);
        i += 1;
    }
    let r = split_spectrum(seq, &bins);
    assert forall|m: Model<T>, j: int|
        #![trigger m.fits(), r@[j]]
        m.fits() && 0 <= j < PACKETS_PER_SPECTRUM implies is_packet_of(
        r@[j],
        seq,
        m.quantized_spectrum(spectrum@),
        j,
    ) by {
        assert(bins@ =~= m.quantized_spectrum(spectrum@));
    }
    r
}

/// The state of the analysis.
pub struct Analyzer<T> {
    fft: Fft<T>,
    average: [T; FFT_BINS],
    seq: u16,
}

impl<T: Real> Analyzer<T> {
    /// The moving average of each bin.
    pub closed spec fn averages(self) -> Seq<T> {
        self.average@
    }

    /// The number of the next block, counted from zero and again from zero after
    /// 65536 blocks.
    pub closed spec fn number(self) -> u16 {
        self.seq
    }

    /// The tables are set up for blocks.
    pub closed spec fn wf(self) -> bool {
        self.fft.wf() && self.fft.size() == BLOCK_SIZE
    }

    /// An analysis that has seen no block.
    pub fn new() -> (r: Self)
        ensures
            r.wf(),
            r.number() == 0,
            r.averages().len() == FFT_BINS,
            forall|m: Model<T>, i: int|
                #![trigger m.fits(), r.averages()[i]]
                m.fits() && 0 <= i < FFT_BINS ==> r.averages()[i] == (m.int_value)(0),
    {
        let mut fft = Fft::new();
        proof {
            reveal_with_fuel(crate::network::is_power_of_two, 12);
        }
        fft.setup(BLOCK_SIZE);
        Analyzer { fft, average: [T::from_int(0);FFT_BINS], seq: 0 }
    }

    /// Transforms a block in place and takes its positive frequencies into the moving
    /// averages. Of [`SEND_FREQUENCY`] blocks, the first one yields the packets of the
    /// averages.
    pub fn analyze(&mut self, frames: &mut [Complex<T>]) -> (r: Option<
        [SpectrumPacket; PACKETS_PER_SPECTRUM],
    >)
        requires
            old(self).wf(),
            old(frames)@.len() == BLOCK_SIZE,
        ensures
            final(self).wf(),
            final(self).number() as int == (old(self).number() + 1) % 0x1_0000,
            final(frames)@.len() == BLOCK_SIZE,
            final(self).averages().len() == FFT_BINS,
            forall|m: Model<T>| #[trigger] m.fits() ==> final(frames)@ == m.transform(old(frames)@),
            forall|m: Model<T>, i: int|
                #![trigger m.fits(), final(self).averages()[i]]
                m.fits() && 0 <= i < FFT_BINS ==> final(self).averages()[i] == m.averaged(
                    old(self).averages()[i],
                    final(frames)@[i],
                ),
            r is Some <==> old(self).number() % SEND_FREQUENCY == 0,
            r matches Some(packets) ==> forall|j: int|
                0 <= j < PACKETS_PER_SPECTRUM ==> (#[trigger] packets@[j]).seq == old(self).number()
                    / SEND_FREQUENCY && packets@[j].offset == j * BINS_PER_PACKET,
            r matches Some(packets) ==> forall|m: Model<T>, j: int|
                #![trigger m.fits(), packets@[j]]
                m.fits() && 0 <= j < PACKETS_PER_SPECTRUM ==> is_packet_of(
                    packets@[j],
                    old(self).number() / SEND_FREQUENCY,
                    m.quantized_spectrum(final(self).averages()),
                    j,
                ),
    {
        proof {
            reveal_with_fuel(crate::network::is_power_of_two, 12);
        }
        self.fft.process(frames);
        let spectrum = vstd::slice::slice_subrange(frames, 0, BLOCK_SIZE / 2);
        average_spectrum(&mut self.average, spectrum);
        let r = if self.seq % SEND_FREQUENCY == 0 {
            Some(spectrum_packets(self.seq / SEND_FREQUENCY, self.average.as_slice()))
        } else {
            None
        };
        self.seq = self.seq.wrapping_add(1);
        r
    }
}

/// Until the count of blocks begins again, spectra are sent at intervals of
/// [`SEND_FREQUENCY`] blocks and have consecutive numbers.
pub proof fn law_spectra_are_sent_regularly(number: u16, later: u16)
    requires
        number % SEND_FREQUENCY == 0,
        number <= later,
    ensures
        later < number + SEND_FREQUENCY ==> (later % SEND_FREQUENCY == 0 <==> later == number),
        later == number + SEND_FREQUENCY ==> later % SEND_FREQUENCY == 0 && later / SEND_FREQUENCY
            == number / SEND_FREQUENCY + 1,
{
}

impl<T> Model<T> {
    /// A moving average lies halfway between what it was and the new level, whichever of
    /// the two is larger: twice the average is the sum of both. Where the new level is
    /// zero, the average is halved.
    pub proof fn law_average_lies_halfway(self, average: T, bin: Complex<T>)
        requires
            self.exact(),
            self.counts(),
            self.divides(2),
        ensures
            (self.sum)(self.averaged(average, bin), self.averaged(average, bin)) == (self.sum)(
                average,
                (self.hypotenuse)(bin.re, bin.im),
            ),
            (self.hypotenuse)(bin.re, bin.im) == (self.int_value)(0) ==> (self.sum)(
                self.averaged(average, bin),
                self.averaged(average, bin),
            ) == average,
    {
        let r = self.ring();
        let half = (self.quotient)((self.int_value)(1), (self.int_value)(2));
        let level = (self.hypotenuse)(bin.re, bin.im);
        let (a, b) = (r.times(half, average), r.times(half, level));
        assert((self.sum)((self.int_value)(1), (self.int_value)(1)) == (self.int_value)(2));
        r.times_one(half);
        r.times_distributes(half, r.one, r.one);
        assert(r.plus(half, half) == r.one);
        r.times_distributes(average, half, half);
        r.times_distributes(level, half, half);
        r.times_one(average);
        r.times_one(level);
        r.plus_exchanges(a, b, a, b);
        r.plus_zero(average);
    }

    /// A steady level is kept: where two halves make up a number, the average of equal
    /// levels is that level, rounding or not.
    pub proof fn law_average_keeps_a_steady_level(self, bin: Complex<T>)
        requires
            forall|v: T|
                (self.sum)(
                    #[trigger] (self.product)(
                        (self.quotient)((self.int_value)(1), (self.int_value)(2)),
                        v,
                    ),
                    (self.product)((self.quotient)((self.int_value)(1), (self.int_value)(2)), v),
                ) == v,
        ensures
            self.averaged((self.hypotenuse)(bin.re, bin.im), bin) == (self.hypotenuse)(
                bin.re,
                bin.im,
            ),
    {
    }

    /// Numbers are cut off to bytes: from zero up to 255 a number is in range and becomes
    /// the largest byte that it reaches, outside it is moved to the end of the range, and
    /// what is not a number becomes zero.
    pub open spec fn cuts_off(self) -> bool {
        let low = (self.int_value)(0);
        let high = (self.int_value)(255);
        &&& forall|v: T, k: int|
            #![trigger self.reaches(v, k)]
            0 <= k < 255 && self.reaches(v, k) ==> (self.clamped)(v, low, high) == v && (
            self.byte_value)(v) == k
        &&& forall|v: T|
            self.at_most(high, v) ==> #[trigger] (self.clamped)(v, low, high) == high
        &&& forall|v: T|
            (self.below)(v, low) ==> #[trigger] (self.clamped)(v, low, high) == low
        &&& forall|v: T|
            (self.not_a_number)(v) ==> (self.not_a_number)(
                #[trigger] (self.clamped)(v, low, high),
            )
        &&& forall|v: T| (self.not_a_number)(v) ==> #[trigger] (self.byte_value)(v) == 0
        &&& (self.byte_value)(low) == 0
        &&& (self.byte_value)(high) == 255
    }

    /// `v` lies from `k` up to, not including, `k + 1`.
    pub open spec fn reaches(self, v: T, k: int) -> bool {
        self.at_most((self.int_value)(k), v) && (self.below)(v, (self.int_value)(k + 1))
    }

    /// A quantization has steps of a sixty-fourth, all of them: of what is from `k` up to
    /// `k + 1` sixty-fourths, it is `k`, up to the largest byte, which stands for all that
    /// is more. Negative numbers, and what is not a number, become zero.
    pub proof fn law_quantization_has_even_steps(self, v: T, k: int)
        requires
            self.cuts_off(),
        ensures
            ({
                let scaled = (self.product)(v, (self.int_value)(64));
                &&& 0 <= k < 255 && self.reaches(scaled, k) ==> self.quantized(v) == k
                &&& self.at_most((self.int_value)(255), scaled) ==> self.quantized(v) == 255
                &&& (self.below)(scaled, (self.int_value)(0)) ==> self.quantized(v) == 0
                &&& (self.not_a_number)(scaled) ==> self.quantized(v) == 0
            }),
    {
    }

    /// Whole sixty-fourths are quantized without loss.
    pub proof fn law_quantization_keeps_whole_steps(self, v: T, k: int)
        requires
            0 <= k <= 255,
            (self.product)(v, (self.int_value)(64)) == (self.int_value)(k),
            (self.clamped)((self.int_value)(k), (self.int_value)(0), (self.int_value)(255))
                == (self.int_value)(k),
            (self.byte_value)((self.int_value)(k)) == k,
        ensures
            self.quantized(v) == k,
    {
    }

    /// From a spectrum to its reports: the byte `4 + i` of the report of the packet `j`
    /// holds the bin `252 * j + i` of the spectrum, in whole sixty-fourths, and the first
    /// four bytes hold the number of the spectrum and the place of the first bin.
    pub proof fn law_reports_hold_the_spectrum(
        self,
        p: SpectrumPacket,
        seq: u16,
        spectrum: Seq<T>,
        j: int,
        i: int,
        k: int,
    )
        requires
            self.cuts_off(),
            0 <= j < 5,
            0 <= i < 252,
            is_packet_of(p, seq, self.quantized_spectrum(spectrum), j),
        ensures
            p.report()[0] + 256 * p.report()[1] == seq,
            p.report()[2] + 256 * p.report()[3] == 252 * j,
            252 * j + i >= 1024 ==> p.report()[4 + i] == 0,
            252 * j + i < 1024 ==> {
                let scaled = (self.product)(spectrum[252 * j + i], (self.int_value)(64));
                &&& 0 <= k < 255 && self.reaches(scaled, k) ==> p.report()[4 + i] == k
                &&& self.at_most((self.int_value)(255), scaled) ==> p.report()[4 + i] == 255
                &&& (self.below)(scaled, (self.int_value)(0)) ==> p.report()[4 + i] == 0
            },
    {
        let bins = self.quantized_spectrum(spectrum);
        crate::packet::law_reports_hold_the_packet(p, i);
        crate::packet::law_packets_hold_the_spectrum(p, seq, bins, j);
        let place = 252 * j + i;
        assert(p.bins@[place - 252 * j] == (if place < 1024 {
            bins[place]
        } else {
            0
        }));
        self.law_quantization_has_even_steps(spectrum[place], k);
    }
}

} // verus!
