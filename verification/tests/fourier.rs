use lau_signal_processing_agents::fourier::{bit_reverse, fft_complex, zero_pad_to_power2};
use lau_signal_processing_agents::Complex64;

/// Twiddle table for a transform of `n` entries, computed as the iterative FFT does:
/// row `st` holds `e^(-2 pi i k / len)` for `len = 2^(st + 1)` and `k < len / 2`.
fn twiddle_table(n: usize) -> Vec<Vec<Complex64>> {
    let mut table = Vec::new();
    let mut len = 2;
    while len <= n {
        let angle = -2.0 * std::f64::consts::PI / len as f64;
        let row = (0..len / 2)
            .map(|k| Complex64::new((angle * k as f64).cos(), (angle * k as f64).sin()))
            .collect();
        table.push(row);
        len *= 2;
    }
    table
}

fn naive_dft(input: &[Complex64]) -> Vec<Complex64> {
    let n = input.len();
    (0..n)
        .map(|k| {
            let mut sum = Complex64::new(0.0, 0.0);
            for (t, x) in input.iter().enumerate() {
                let angle = -2.0 * std::f64::consts::PI * (k * t) as f64 / n as f64;
                sum += Complex64::new(angle.cos(), angle.sin()) * x;
            }
            sum
        })
        .collect()
}

fn close(a: f64, b: f64) -> bool {
    (a - b).abs() < 1e-10
}

#[test]
fn test_fft_complex() {
    let input = vec![
        Complex64::new(1.0, 0.0),
        Complex64::new(0.0, 1.0),
        Complex64::new(-1.0, 0.0),
        Complex64::new(0.0, -1.0),
    ];
    let result = fft_complex(&input, &twiddle_table(input.len()));
    assert_eq!(result.len(), 4);
    assert!(close(result[0].re, 0.0));
}

#[test]
fn test_zero_pad() {
    let signal = vec![1.0, 2.0, 3.0];
    let padded = zero_pad_to_power2(&signal, 0.0);
    assert_eq!(padded.len(), 4);
    assert_eq!(padded[0], 1.0);
    assert_eq!(padded[3], 0.0);
}

#[test]
fn fft_complex_of_constant_is_an_impulse() {
    let input = vec![Complex64::new(1.0, 0.0); 8];
    let result = fft_complex(&input, &twiddle_table(8));
    assert!(close(result[0].re, 8.0));
    assert!(close(result[0].im, 0.0));
    for c in &result[1..] {
        assert!(close(c.re, 0.0) && close(c.im, 0.0));
    }
}

#[test]
fn fft_complex_matches_naive_dft() {
    let input: Vec<Complex64> = [1.0, 2.0, 3.0, 4.0, -1.0, -2.0, 0.5, 1.5, 0.25, -0.75, 2.5, 0.0, 1.0, -3.0, 0.5, 2.0]
        .iter()
        .enumerate()
        .map(|(i, &re)| Complex64::new(re, 0.1 * i as f64))
        .collect();
    let fast = fft_complex(&input, &twiddle_table(input.len()));
    let slow = naive_dft(&input);
    assert_eq!(fast.len(), slow.len());
    for (a, b) in fast.iter().zip(slow.iter()) {
        assert!(close(a.re, b.re) && close(a.im, b.im));
    }
}

#[test]
fn fft_complex_of_two_entries_is_sum_and_difference() {
    let input = vec![Complex64::new(3.0, 1.0), Complex64::new(1.0, -2.0)];
    let result = fft_complex(&input, &twiddle_table(2));
    assert_eq!(result, vec![Complex64::new(4.0, -1.0), Complex64::new(2.0, 3.0)]);
}

#[test]
fn fft_complex_uses_the_given_twiddles() {
    // With a twiddle of 2 the butterfly gives e + 2o and e - 2o.
    let input = vec![Complex64::new(1.0, 0.0), Complex64::new(1.0, 0.0)];
    let twiddles = vec![vec![Complex64::new(2.0, 0.0)]];
    let result = fft_complex(&input, &twiddles);
    assert_eq!(result, vec![Complex64::new(3.0, 0.0), Complex64::new(-1.0, 0.0)]);
}

#[test]
fn fft_complex_short_inputs_unchanged() {
    assert!(fft_complex(&[], &[]).is_empty());
    let one = vec![Complex64::new(2.5, -1.0)];
    assert_eq!(fft_complex(&one, &[]), one);
}

#[test]
fn bit_reverse_values() {
    assert_eq!(bit_reverse(1, 3), 4);
    assert_eq!(bit_reverse(6, 3), 3);
    assert_eq!(bit_reverse(0b1011, 4), 0b1101);
    assert_eq!(bit_reverse(5, 0), 0);
    // Only the lowest `bits` digits are read.
    assert_eq!(bit_reverse(0b1110_0001, 4), 0b1000);
}

#[test]
fn bit_reverse_is_an_involution() {
    for bits in 0..8 {
        for x in 0..(1usize << bits) {
            let r = bit_reverse(x, bits);
            assert!(r < (1usize << bits));
            assert_eq!(bit_reverse(r, bits), x);
        }
    }
}

#[test]
fn bit_reverse_full_word() {
    assert_eq!(bit_reverse(1, usize::BITS as usize), 1usize << (usize::BITS - 1));
    // Digits pushed above the word are lost.
    assert_eq!(bit_reverse(1, usize::BITS as usize + 1), 0);
    assert_eq!(bit_reverse(2, usize::BITS as usize + 1), 1usize << (usize::BITS - 1));
}

#[test]
fn zero_pad_edge_cases() {
    let empty: Vec<f64> = vec![];
    assert_eq!(zero_pad_to_power2(&empty, 0.0), vec![0.0]);
    let exact = vec![1.0, 2.0, 3.0, 4.0];
    assert_eq!(zero_pad_to_power2(&exact, 0.0), exact);
    let five = vec![1, 2, 3, 4, 5];
    assert_eq!(zero_pad_to_power2(&five, 0), vec![1, 2, 3, 4, 5, 0, 0, 0]);
    let one = vec![7.0];
    assert_eq!(zero_pad_to_power2(&one, 0.0), vec![7.0]);
}

#[test]
fn zero_pad_of_padded_signal_is_unchanged() {
    for n in 0..40 {
        let signal: Vec<i32> = (0..n).collect();
        let once = zero_pad_to_power2(&signal, 0);
        assert!(once.len().is_power_of_two());
        assert_eq!(zero_pad_to_power2(&once, 0), once);
    }
}
