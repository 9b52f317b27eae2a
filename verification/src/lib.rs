//! A spectrum analyzer for audio, with its proofs.
//!
//! Blocks of samples ([`audio`]) are transformed by a radix-4 fast Fourier transform
//! ([`fft`]) over complex numbers ([`complex`]), averaged and quantized
//! ([`analyzer`]), split into packets ([`packet`]) and sent in chunks ([`bulk`]); a
//! host puts the spectra together again ([`host`]).
//!
//! The numbers themselves come from the user, as a type with the operations of
//! [`arithmetic::Real`]. What a function computes is stated for every model of these
//! operations ([`arithmetic::Model`]): as the network of butterflies that it runs
//! ([`network`], [`reversal`]). In models that round nothing ([`exact`], over
//! [`ring`]) this network is the discrete Fourier transform ([`dft`], [`fourier`]); it
//! is additive ([`additivity`]) and can be undone ([`inversion`]). The root of unity
//! that it turns by comes from sine and cosine ([`trigonometry`]). Some laws hold where
//! results are rounded, too ([`rounded`]), and errors are bounded ([`precision`]).
pub mod additivity;
pub mod analyzer;
pub mod arithmetic;
pub mod audio;
pub mod bulk;
pub mod complex;
pub mod dft;
pub mod exact;
pub mod fft;
pub mod fourier;
pub mod host;
pub mod inversion;
pub mod network;
pub mod packet;
pub mod precision;
pub mod reversal;
pub mod ring;
pub mod rounded;
pub mod trigonometry;
