//! The audio side: received words become frames, and blocks are passed on.
use crate::arithmetic::{Model, Real};
use crate::complex::Complex;
use vstd::prelude::*;

verus! {

/// The number of samples of one channel in a block, which is also the number of
/// points of a transform.
pub const BLOCK_SIZE: usize = 512 * 4;

/// The number of words in a block: the samples of two channels, in turn.
pub const HALF_DMA_BUFFER_SIZE: usize = BLOCK_SIZE * 2;

/// The number of words in the buffer that two blocks share.
pub const DMA_BUFFER_SIZE: usize = HALF_DMA_BUFFER_SIZE * 2;

/// The low 24 bits of `word`, the highest of which is the sign.
pub open spec fn sample_of(word: u32) -> int {
    let low = word as int % 0x100_0000;
    if low < 0x80_0000 {
        low
    } else {
        low - 0x100_0000
    }
}

/// The low 24 bits of `word`, the highest of which is the sign.
pub fn sample(word: u32) -> (r: i32)
    ensures
        r == sample_of(word),
        -0x80_0000 <= r < 0x80_0000,
{
    assert(word % 0x100_0000 < 0x80_0000 ==> ((word as i32) << 8) >> 8 == word % 0x100_0000)
        by (bit_vector);
    assert(word % 0x100_0000 >= 0x80_0000 ==> ((word as i32) << 8) >> 8 == word % 0x100_0000
        - 0x100_0000) by (bit_vector);
    ((word as i32) << 8) >> 8
}

impl<T> Model<T> {
    /// The frame that a word of the first channel becomes.
    pub open spec fn frame_of(self, word: u32) -> Complex<T> {
        Complex {
            re: (self.quotient)((self.int_value)(sample_of(word)), (self.int_value)(0x80_0000)),
            im: (self.int_value)(0),
        }
    }
}

/// Turns the words of the first channel of a block into frames.
pub fn load_block<T: Real>(block: &[u32], frames: &mut [Complex<T>])
    requires
        block@.len() >= HALF_DMA_BUFFER_SIZE,
        old(frames)@.len() >= BLOCK_SIZE,
    ensures
        final(frames)@.len() == old(frames)@.len(),
        forall|m: Model<T>, i: int|
            #![trigger m.fits(), final(frames)@[i]]
            m.fits() && 0 <= i < BLOCK_SIZE ==> final(frames)@[i] == m.frame_of(block@[i * 2]),
        forall|i: int|
            BLOCK_SIZE <= i < old(frames)@.len() ==> #[trigger] final(frames)@[i] == old(
                frames,
            )@[i],
{
    let mut i: usize = 0;
    while i < BLOCK_SIZE
        invariant
            i <= BLOCK_SIZE,
            block@.len() >= HALF_DMA_BUFFER_SIZE,
            frames@.len() == old(frames)@.len(),
            frames@.len() >= BLOCK_SIZE,
            forall|m: Model<T>, j: int|
                #![trigger m.fits(), frames@[j]]
                m.fits() && 0 <= j < i ==> frames@[j] == m.frame_of(block@[j * 2]),
            forall|j: int| i <= j < frames@.len() ==> #[trigger] frames@[j] == old(frames)@[j],
        decreases BLOCK_SIZE - i,
    {
        let value = T::from_int(sample(block[i * 2])).over(T::from_int(1 << 23));
        assert(1i32 << 23 == 0x80_0000) by (bit_vector);
        frames[i] = Complex::new(value, T::from_int(0));
        i += 1;
    }
}

/// Samples are 24-bit two's complement numbers: the sample of a word is the one number
/// from `-2^23` up to, not including, `2^23` that differs from the word by a multiple of
/// `2^24`.
pub proof fn law_samples_are_twos_complement(word: u32, v: int)
    ensures
        -0x80_0000 <= sample_of(word) < 0x80_0000,
        (word as int - sample_of(word)) % 0x100_0000 == 0,
        -0x80_0000 <= v < 0x80_0000 && (word as int - v) % 0x100_0000 == 0 ==> sample_of(word)
            == v,
{
}

impl<T> Model<T> {
    /// A product with `2^23` undoes the division of a 24-bit number by it.
    pub open spec fn divides_samples(self) -> bool {
        forall|v: int|
            -0x80_0000 <= v < 0x80_0000 ==> (self.product)(
                (self.quotient)(#[trigger] (self.int_value)(v), (self.int_value)(0x80_0000)),
                (self.int_value)(0x80_0000),
            ) == (self.int_value)(v)
    }

    /// Nothing of a sample is lost in its frame: the real part times `2^23` is the number
    /// of the sample, whatever the word is, and the imaginary part is zero.
    pub proof fn law_frames_hold_samples(self, word: u32, v: int)
        requires
            self.divides_samples(),
            -0x80_0000 <= v < 0x80_0000,
            (word as int - v) % 0x100_0000 == 0,
        ensures
            (self.product)(self.frame_of(word).re, (self.int_value)(0x80_0000))
                == (self.int_value)(v),
            self.frame_of(word).im == (self.int_value)(0),
    {
        law_samples_are_twos_complement(word, v);
    }

    /// Different samples give different frames, as far as their numbers differ; the bits
    /// of a word above its sample make no difference.
    pub proof fn law_frames_tell_samples_apart(self, word: u32, other: u32)
        requires
            self.divides_samples(),
        ensures
            self.frame_of(word) == self.frame_of(other) ==> (self.int_value)(sample_of(word))
                == (self.int_value)(sample_of(other)),
            (word as int - other as int) % 0x100_0000 == 0 ==> self.frame_of(word)
                == self.frame_of(other),
    {
        self.law_frames_hold_samples(word, sample_of(word));
        self.law_frames_hold_samples(other, sample_of(other));
    }
}

/// What the pass-through of audio does next.
#[derive(Clone, Copy, PartialEq, Eq, Structural, Debug)]
pub enum AudioStep {
    /// Receive a block.
    Read,
    /// Send the block that was received.
    Write,
    /// Load the block that was passed on, drop what was signalled before, and signal
    /// that there is a block to analyze.
    Analyze,
}

/// The step after `step`, which went well if `ok`: a block that could not be
/// received or sent is dropped.
pub open spec fn step_after(step: AudioStep, ok: bool) -> AudioStep {
    match step {
        AudioStep::Read if ok => AudioStep::Write,
        AudioStep::Write if ok => AudioStep::Analyze,
        _ => AudioStep::Read,
    }
}

impl AudioStep {
    /// The first step.
    pub fn first() -> (r: AudioStep)
        ensures
            r == AudioStep::Read,
    {
        AudioStep::Read
    }

    /// The step after this one, which went well if `ok`.
    pub fn next(self, ok: bool) -> (r: AudioStep)
        ensures
            r == step_after(self, ok),
    {
        match self {
            AudioStep::Read => {
                if ok {
                    AudioStep::Write
                } else {
                    AudioStep::Read
                }
            },
            AudioStep::Write => {
                if ok {
                    AudioStep::Analyze
                } else {
                    AudioStep::Read
                }
            },
            AudioStep::Analyze => AudioStep::Read,
        }
    }
}

/// The step that the pass-through is at after its steps so far went as `outcomes`
/// says.
pub open spec fn step_at(outcomes: Seq<bool>) -> AudioStep
    decreases outcomes.len(),
{
    if outcomes.len() == 0 {
        AudioStep::Read
    } else {
        step_after(step_at(outcomes.drop_last()), outcomes.last())
    }
}

/// Only a block that was received and sent without an error is analyzed: the two
/// steps before an analysis are a reading and a writing, and both went well.
pub proof fn law_only_passed_blocks_are_analyzed(outcomes: Seq<bool>)
    requires
        step_at(outcomes) == AudioStep::Analyze,
    ensures
        outcomes.len() >= 2,
        outcomes[outcomes.len() - 1],
        outcomes[outcomes.len() - 2],
        step_at(outcomes.take(outcomes.len() - 1)) == AudioStep::Write,
        step_at(outcomes.take(outcomes.len() - 2)) == AudioStep::Read,
{
    let n = outcomes.len();
    reveal_with_fuel(step_at, 3);
    assert(outcomes.drop_last() =~= outcomes.take(n - 1));
    assert(outcomes.drop_last().drop_last() =~= outcomes.take(n - 2));
}

/// Every block that was received and sent is analyzed, and nothing stops the
/// pass-through: a reading and a writing that go well lead to an analysis, and after
/// anything that goes wrong, and after an analysis, the next block is read.
pub proof fn law_passed_blocks_are_analyzed(outcomes: Seq<bool>, ok: bool)
    ensures
        step_at(Seq::empty()) == AudioStep::Read,
        step_at(outcomes.push(false)) == AudioStep::Read,
        step_at(outcomes) == AudioStep::Read ==> step_at(outcomes.push(true)) == AudioStep::Write
            && step_at(outcomes.push(true).push(true)) == AudioStep::Analyze,
        step_at(outcomes) == AudioStep::Analyze ==> step_at(outcomes.push(ok)) == AudioStep::Read,
{
    let p = outcomes.push(true);
    assert(outcomes.push(false).drop_last() =~= outcomes);
    assert(outcomes.push(ok).drop_last() =~= outcomes);
    assert(p.drop_last() =~= outcomes);
    assert(p.push(true).drop_last() =~= p);
}

} // verus!
