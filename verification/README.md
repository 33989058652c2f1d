# lau-signal-processing-agents (verified core)

Signal processing for agent observations. This crate is the verified core of the
toolkit: the index and data-flow logic, proved with Verus.

- `src/fourier.rs` — bit reversal, the in-place radix-2 Cooley-Tukey FFT on complex
  values (proved to give an outcome of the recursive decimation-in-time transform),
  zero padding to a power of two.
- `src/complex.rs` — `num_complex::Complex64` as an opaque type, and the three
  complex operations the transforms use, each described by a relation between its
  operands and its possible results.
- `src/psd.rs` — the window types, the segmentation of Welch's method and the
  zero-padded segments.
- `src/compressed_sensing.rs` — where the nonzero entries of sparse test signals go.
- `src/wiener.rs` — Wiener deconvolution of a spectrum.
- `src/adaptive.rs` — the delay line of the LMS, NLMS and RLS filters.
- `src/pipeline.rs` — the downsampling stage of the observation pipeline.
- `src/kalman.rs` — the column-major layout of the Kalman filters' matrices.
- `src/wavelet.rs` — the wavelet types, and the blocks the Haar transform returns.

`app/` holds the floating-point parts (window functions, filters, wavelets, Kalman,
adaptive weight updates, compressed sensing, PSD scaling, the pipeline, and the
twiddle factors of the FFT), built on the verified core.
