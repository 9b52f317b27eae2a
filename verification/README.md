# fft_analyzer

A spectrum analyzer for audio, verified with Verus.

Stereo audio comes in blocks and is passed on. Of each block, the first channel is
transformed by a fast Fourier transform, the distances of the positive frequencies from
zero are averaged, and every thirtieth spectrum is quantized, split into packets and
sent to a host, which puts it together again. Nothing in the library allocates memory.

## Layout

- `src/` is the verified library.
  - `arithmetic`, `complex`: the numbers. The library computes with any type that has
    the operations of `Real`; a `Model` says what these operations compute.
  - `fft`: tables and transforms of up to 2048 points, in place.
  - `network`, `reversal`: what `fft` computes, as a network of butterflies and a table
    of exchanges.
  - `ring`, `dft`, `exact`, `fourier`: what that network is where nothing is rounded,
    the discrete Fourier transform.
  - `additivity`, `inversion`: transforms of sums, and how a transform is undone, where
    nothing is rounded.
  - `trigonometry`: the root of unity of a transform, from the laws of sine and cosine.
  - `rounded`: laws of complex numbers, of the factors of a transform and of the
    quantization that hold where results are rounded, too.
  - `audio`: samples, and the steps of the pass-through.
  - `analyzer`: averages, quantization, and when a spectrum is sent.
  - `packet`, `bulk`, `host`: packets and their reports, sending them in chunks, and
    putting a spectrum together from them.
- `app/` is the firmware around it: clocks, audio and USB peripherals, tasks, and
  single-precision numbers as the arithmetic.
- `tests/` runs the library with single-precision numbers, and with complex numbers
  over a prime field, in which transforms are exact.

## Order of the frequencies

A transform leaves the frequencies in order, for every power of two up to 2048 points:
`frames[k]` is the frequency `k`.
