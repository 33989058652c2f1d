//! Wiener deconvolution in the frequency domain.

use vstd::prelude::*;

use crate::complex::{Complex64, complex_product_outcome, mul_complex};

verus! {

/// Wiener deconvolution: recovers an original spectrum from a convolved (blurred)
/// observation by multiplying it, bin by bin, with a fixed frequency response.
pub struct WienerDeconvolution {
    /// The deconvolution filter, one complex factor per frequency bin.
    pub frequency_response: Vec<Complex64>,
}

impl WienerDeconvolution {
    /// Applies the deconvolution: bin `i` of the result is the product
    /// `observed_spectrum[i] * frequency_response[i]` (as `num_complex` computes it),
    /// for as many bins as both sequences have.
    pub fn deconvolve(&self, observed_spectrum: &[Complex64]) -> (result: Vec<Complex64>)
        ensures
            result@.len() == if observed_spectrum@.len() <= self.frequency_response@.len() {
                observed_spectrum@.len()
            } else {
                self.frequency_response@.len()
            },
            forall|i: int|
                0 <= i < result@.len() ==> #[trigger] complex_product_outcome(
                    observed_spectrum@[i],
                    self.frequency_response@[i],
                    result@[i],
                ),
    {
        let n = if observed_spectrum.len() <= self.frequency_response.len() {
            observed_spectrum.len()
        } else {
            self.frequency_response.len()
        };
        let mut result: Vec<Complex64> = Vec::with_capacity(n);
        let mut i: usize = 0;
        while i < n
            invariant
                n <= observed_spectrum@.len(),
                n <= self.frequency_response@.len(),
                i <= n,
                result@.len() == i,
                forall|j: int|
                    0 <= j < i ==> #[trigger] complex_product_outcome(
                        observed_spectrum@[j],
                        self.frequency_response@[j],
                        result@[j],
                    ),
            decreases n - i,
        {
            result.push(mul_complex(observed_spectrum[i], self.frequency_response[i]));
            i = i + 1;
        }
        result
    }
}

} // verus!
