# reiss_mcpherson_effects

The audio effects of Reiss and McPherson, *Audio Effects: Theory, Implementation and Application*,
as a verified library.

| Module          | Effect                                  |
| --------------- | --------------------------------------- |
| `delay`         | Delay on a circular line                |
| `pingpong`      | Delay that bounces from side to side    |
| `vibrato`       | Delay moved by an oscillator            |
| `flanger`       | Short modulated delay and the dry sound |
| `chorus`        | Ensemble of up to five voices           |
| `panning`       | Panorama and precedence; head model     |
| `parametric_eq` | One band of seven shapes                |
| `wahwah`        | Wah by hand, oscillator or envelope     |
| `phaser`        | Swept chain of allpass filters          |
| `ringmod`       | Ring modulation                         |
| `distortion`    | Five waveshapers and a tone control     |
| `compressor`    | Compressor and expander                 |
| `robotization`  | Robot and whisper                       |
| `pitchshift`    | Phase-vocoder pitch shift               |

## Samples

A sample is a `Single`, the encoding of a 32-bit number; `Double` is the 64-bit one. `float` does
their arithmetic on integers, rounding to nearest with ties to even, and states every operation over
the exact value. Contracts are therefore exact: they say which encoding comes out.

Sines, cosines, tangents, logarithms, powers and Fourier transforms have no fixed last digit. The
library does not compute them. Each effect hands out the arguments, the caller applies the function,
and the effect's `process` takes the results. A block goes like this:

    let angles = ringmod.lfo_angles(&params, n);
    let sines = /* the sine of every angle */;
    ringmod.process(&params, &sines, &mut buffer);

## Laws

Public proof functions whose names begin with `law_` state what holds across functions: that two
blocks give what one block of both gives, that an oscillator stays in its range, that a read on a
line always lands on it, that a line gives back what was written, that a phase stays within half a
turn, that frames come once per hop, that mirrored controls exchange the two sides, that a low pass
and a high pass add up to their input. Where rounding keeps a law from being exact, it says by how
much.

## Layout

- `src/` the library
- `tests/` the effects against floating-point code, sample for sample
- `app/` the effects as plugins for the truce framework
