# subvox

Voice analysis for recorded singing: WAV loading, spectra, cepstra, linear
prediction and pitch candidates.

- `src/` is the verified library. It parses WAV (RIFF) files from their
  bytes, decodes integer samples, names notes and intervals, frames signals
  into analysis windows, and picks and ranks peaks and valleys for the pitch
  algorithms. Values that are floats elsewhere reach it as order keys
  (`Option<i32>`, `None` for NaN).
- `app/` is the program around it: file mapping, the floating-point
  transforms (realfft, rayon), the pitch algorithms' arithmetic, and the
  desktop window (eframe).
- `tests/` exercises the library on concrete inputs.
