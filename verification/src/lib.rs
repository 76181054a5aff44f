//! The audio effects of the textbook by Reiss and McPherson: delays, filters, modulators, dynamics
//! and two effects on spectra, each as a state that takes a block of samples to the next.
//!
//! Samples are encodings of 32-bit numbers. Everything that is rounded to a defined result is
//! computed here, in the integer arithmetic of [`float`], so that every contract is exact to the
//! last bit. What is not, such as a sine, a power or a transform, the caller computes between two
//! steps: a function of an effect hands out the arguments, and the next one takes the results.
//!
//! The effects:
//! [`delay`], [`pingpong`], [`vibrato`], [`flanger`] and [`chorus`] on delay lines;
//! [`panning`] on delay lines and shelves;
//! [`parametric_eq`], [`wahwah`] and [`phaser`] on filters;
//! [`ringmod`], [`distortion`] and [`compressor`] on samples;
//! [`robotization`] and [`pitchshift`] on spectra.
//!
//! What they share:
//! [`audio`] is the block, [`ring`] the circular line, [`modulation`] the oscillator and the
//! reading between samples, [`biquad`] and [`follower`] the filter and the envelope,
//! [`complement`] the pairs of filters that add up to their input, [`nearness`] the ones that are
//! nearly the same, and [`spectral`] the windows and the pace of frames.
//!
//! What they come to in real numbers, up to rounding:
//! [`oscillators`] says it of waveforms and phases, [`echoes`] of delay lines, [`spatial`] of
//! panning, [`gains`] and [`filters`] of what filters do at given frequencies and how they are set,
//! [`sweeps`] of the phaser and the ring modulator, [`shapers`] of distortion, [`dynamics`] of
//! levels and envelopes, [`transforms`] of bins and frames, and [`spools`] of what goes in and out
//! of their rings.
use vstd::prelude::*;

pub mod audio;
pub mod biquad;
pub mod chorus;
pub mod complement;
pub mod compressor;
pub mod delay;
pub mod distortion;
pub mod dynamics;
pub mod echoes;
pub mod filters;
pub mod flanger;
pub mod float;
pub mod follower;
pub mod gains;
pub mod modulation;
pub mod nearness;
pub mod oscillators;
pub mod panning;
pub mod parametric_eq;
pub mod phaser;
pub mod pingpong;
pub mod pitchshift;
pub mod ring;
pub mod ringmod;
pub mod robotization;
pub mod shapers;
pub mod spatial;
pub mod spectral;
pub mod spools;
pub mod sweeps;
pub mod transforms;
pub mod vibrato;
pub mod wahwah;

verus! {

} // verus!
