use std::collections::HashSet;
use lau_signal_processing_agents::compressed_sensing::first_free_index;
use lau_signal_processing_agents::wavelet::haar_output_blocks;
use lau_signal_processing_agents::pipeline::downsample;
use lau_signal_processing_agents::psd::{padded_segment, segment_starts, WindowType};
use lau_signal_processing_agents::wavelet::WaveletType;
use lau_signal_processing_agents::wiener::WienerDeconvolution;
use lau_signal_processing_agents::Complex64;

/// The deconvolution response `conj(h) / (|h|^2 + noise_to_signal)`.
fn response(h: &[Complex64], noise_to_signal: f64) -> WienerDeconvolution {
    WienerDeconvolution {
        frequency_response: h.iter().map(|&h| h.conj() / (h.norm_sqr() + noise_to_signal)).collect(),
    }
}

#[test]
fn test_wiener_deconvolve_apply() {
    let h: Vec<Complex64> = vec![
        Complex64::new(1.0, 0.0),
        Complex64::new(0.5, 0.0),
        Complex64::new(0.3, 0.0),
        Complex64::new(0.1, 0.0),
    ];
    let deconv = response(&h, 0.01);
    let observed = vec![Complex64::new(1.0, 0.0); 4];
    let result = deconv.deconvolve(&observed);
    assert_eq!(result.len(), 4);
}

#[test]
fn deconvolve_multiplies_bin_by_bin() {
    let deconv = WienerDeconvolution {
        frequency_response: vec![Complex64::new(2.0, 0.0), Complex64::new(0.0, 1.0), Complex64::new(1.0, 1.0)],
    };
    let observed = vec![Complex64::new(1.5, -1.0), Complex64::new(3.0, 2.0), Complex64::new(1.0, -1.0)];
    let result = deconv.deconvolve(&observed);
    assert_eq!(
        result,
        vec![Complex64::new(3.0, -2.0), Complex64::new(-2.0, 3.0), Complex64::new(2.0, 0.0)]
    );
}

#[test]
fn deconvolve_stops_at_the_shorter_sequence() {
    let deconv = WienerDeconvolution { frequency_response: vec![Complex64::new(1.0, 0.0); 3] };
    assert_eq!(deconv.deconvolve(&vec![Complex64::new(1.0, 0.0); 5]).len(), 3);
    assert_eq!(deconv.deconvolve(&vec![Complex64::new(1.0, 0.0); 2]).len(), 2);
    assert!(deconv.deconvolve(&[]).is_empty());
}

#[test]
fn deconvolution_of_identity_system() {
    let h = vec![Complex64::new(1.0, 0.0); 4];
    let deconv = response(&h, 0.0);
    let observed = vec![Complex64::new(1.0, 2.0), Complex64::new(-3.0, 0.5), Complex64::new(0.0, 0.0), Complex64::new(4.0, -4.0)];
    assert_eq!(deconv.deconvolve(&observed), observed);
}

#[test]
fn welch_segments_of_overlapping_halves() {
    // 128 / (64 - 32) = 4 segments (positions 0, 32, 64, 96).
    assert_eq!(segment_starts(128, 64, 32), vec![0, 32, 64, 96]);
    assert_eq!(segment_starts(256, 64, 32).len(), 8);
    assert_eq!(segment_starts(256, 128, 64).len(), 4);
}

#[test]
fn welch_segments_edge_cases() {
    assert_eq!(segment_starts(10, 10, 0), vec![0]);
    assert_eq!(segment_starts(10, 3, 0), vec![0, 3, 6]);
    assert_eq!(segment_starts(10, 3, 2), vec![0, 1, 2, 3, 4, 5, 6, 7, 8, 9]);
    assert_eq!(segment_starts(11, 4, 1), vec![0, 3, 6]);
    assert_eq!(segment_starts(64, 64, 32), vec![0, 32]);
}

#[test]
fn padded_segment_fills_past_the_end() {
    let signal: Vec<f64> = (1..=6).map(|i| i as f64).collect();
    assert_eq!(padded_segment(&signal, 0, 4, 0.0), vec![1.0, 2.0, 3.0, 4.0]);
    assert_eq!(padded_segment(&signal, 4, 4, 0.0), vec![5.0, 6.0, 0.0, 0.0]);
    assert_eq!(padded_segment(&signal, 6, 2, 0.0), vec![0.0, 0.0]);
    assert_eq!(padded_segment(&signal, 100, 3, -1.0), vec![-1.0, -1.0, -1.0]);
    assert!(padded_segment(&signal, 2, 0, 0.0).is_empty());
}

#[test]
fn window_and_wavelet_types() {
    let w = WindowType::Hanning;
    let copy = w;
    assert_eq!(w, copy);
    assert_ne!(WindowType::Hamming, WindowType::Blackman);
    assert_ne!(WindowType::Rectangular, WindowType::Hanning);
    assert_ne!(WaveletType::Haar, WaveletType::Daubechies4);
    assert_eq!(format!("{:?}", WaveletType::Haar), "Haar");
}

#[test]
fn downsample_keeps_every_factor_th_sample() {
    let signal: Vec<f64> = (0..10).map(|i| i as f64).collect();
    assert_eq!(downsample(&signal, 2), vec![0.0, 2.0, 4.0, 6.0, 8.0]);
    assert_eq!(downsample(&signal, 3), vec![0.0, 3.0, 6.0, 9.0]);
    assert_eq!(downsample(&signal, 1), signal);
    assert_eq!(downsample(&signal, 10), vec![0.0]);
    assert_eq!(downsample(&signal, 100), vec![0.0]);
    let empty: Vec<f64> = vec![];
    assert!(downsample(&empty, 0).is_empty());
    assert!(downsample(&empty, 4).is_empty());
}

#[test]
fn downsample_twice_is_downsample_by_product() {
    let signal: Vec<u32> = (0..50).collect();
    for a in 1..6 {
        for b in 1..6 {
            assert_eq!(downsample(&downsample(&signal, a), b), downsample(&signal, a * b));
        }
    }
}

#[test]
fn welch_segments_one_per_step() {
    for n in 1..40usize {
        for seg in 1..=n {
            for overlap in 0..seg {
                let starts = segment_starts(n, seg, overlap);
                let step = seg - overlap;
                assert_eq!(starts.len(), n / step);
                assert!(!starts.is_empty());
                assert!(starts.iter().enumerate().all(|(i, &s)| s == i * step && s < n));
                assert!(starts.len() * step <= n && n < (starts.len() + 1) * step);
            }
        }
    }
}

#[test]
fn first_free_index_wraps_around() {
    let mut used = HashSet::new();
    assert_eq!(first_free_index(&used, 3, 5), 3);
    used.insert(3);
    used.insert(4);
    assert_eq!(first_free_index(&used, 3, 5), 0);
    used.insert(0);
    assert_eq!(first_free_index(&used, 4, 5), 1);
    assert_eq!(first_free_index(&used, 1, 5), 1);
    used.insert(1);
    used.insert(2);
    used.remove(&4);
    assert_eq!(first_free_index(&used, 0, 5), 4);
}

#[test]
fn haar_blocks_of_short_arrays() {
    assert_eq!(haar_output_blocks(&[7.0]), (vec![7.0], vec![]));
    assert_eq!(haar_output_blocks(&[7.0, 8.0]), (vec![7.0], vec![8.0]));
    assert_eq!(haar_output_blocks(&[1, 2, 3, 4]), (vec![1, 2], vec![3, 4]));
    assert_eq!(
        haar_output_blocks(&[1, 2, 3, 4, 5, 6, 7, 8]),
        (vec![1, 2, 3, 4], vec![5, 6, 7, 8])
    );
}
