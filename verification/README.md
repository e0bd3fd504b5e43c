# Analog FPV video, verified

Detection and decoding of analog FPV drone video from raw samples. Analog FPV
video is a frequency-modulated television signal: the library searches a
capture for one, tells PAL from NTSC, follows its sync, and assembles fields
into frames.

`src/` is the library, written in Verus. Everything it decides is stated in
contracts and proved: which probes of a sweep belong to one transmitter, what a
spectrum shows, how a field is laid on a grid of lines, when a channel is let
go of. `app/` is the receiver around it, in ordinary Rust: filters, transforms,
a GPU, files.

## Numbers

The library counts in whole numbers.

| What | Unit |
| :--- | :--- |
| Frequency | hertz, half-hertz on a probe grid |
| Demodulated sample | nanoturns per sample |
| Position in a record | millionths of a sample |
| Spectrum | millionths of a radian |
| Energy, cepstrum | 10^-12 |
| Confidence, quality | thousandths |
| Energy ratio | millionths |
| Level | thousandths of a decibel |
| Generated level | 1/5040 IRE |

What a floating-point number cannot say, a missing value says: `None` stands
for what is not a number.

## Modules

- `bands`, `scanner`: the channel plan, names of channels, the plan of a sweep,
  and what a scan takes away from it.
- `detector`: one capture from probes to reports. `line_rate`, `spectrum` and
  `confirm` classify a record; `sweep`, `carrier` and `results` make reports of
  probes; `search` ties them together; `integrator` averages over batches.
- `acquisition`, `decode`: resolving a tuned channel, holding it, and the stream
  side of a decoder.
- `ddc`, `demod`: the converter's delay line and decimation, the discriminator
  and deemphasis.
- `levels`, `offset`, `gain`: sync and blanking levels, deviation, link quality.
- `timing`, `vbi`: the constants of the two standards.
- `video`: from a demodulated record to a frame. `sync` and `grid` find the
  lines, `line` and `scan` read them, `notch` and `picture` clean them, and
  `reconstructor` keeps the state from field to field.
- `frame_history`: the fields that noise reduction looks back on.
- `synthetic`, `impairments`, `metrics`: test signals, what befalls them, and
  how close a frame is to another.
- `gpu`, `neural`: the layout of a batched sweep, and the use of a restoration
  model.
- `stats`, `text`, `seqs`: order statistics, text and lists.

Measurements that need floating point come in as closures. A contract then says
what is handed to a closure and what becomes of its answer, whatever that is.

Proof functions named `law_..` state what holds of several functions together.
