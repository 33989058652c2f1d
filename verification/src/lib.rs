//! Signal processing for agent observations: the index and data-flow logic of
//! the radix-2 FFT, zero padding, the segmentation of Welch's method, spectral
//! deconvolution, the adaptive filters' delay line, pipeline downsampling, the
//! matrix layout of the Kalman filters, the index search of sparse test signals,
//! the Haar transform's result blocks, and the enums shared by the spectral and
//! wavelet tools.

pub mod adaptive;
pub mod complex;
pub mod compressed_sensing;
pub mod fourier;
pub mod kalman;
pub mod pipeline;
pub mod psd;
pub mod wavelet;
pub mod wiener;

pub use complex::Complex64;
pub use fourier::{fft_complex, zero_pad_to_power2};
