//! Power spectral density: the window choice and the segmentation of a signal
//! into the overlapping segments that Welch's method and the spectrogram average.

use vstd::prelude::*;
use vstd::arithmetic::div_mod::*;

verus! {

/// The window applied to each segment.
#[derive(Debug, Clone, Copy, PartialEq, Eq)]
pub enum WindowType {
    Hanning,
    Hamming,
    Blackman,
    Rectangular,
}

/// The start positions of the overlapping segments of Welch's method: one segment
/// every `step = segment_length - overlap` samples, from position 0, `n / step` of
/// them; the last ones may run past the end of the `n` samples of the signal (they
/// are filled up, see [`padded_segment`]).
///
/// The segment length must be positive and at most `n`, and the overlap smaller than
/// the segment length.
pub fn segment_starts(n: usize, segment_length: usize, overlap: usize) -> (starts: Vec<usize>)
    requires
        0 < segment_length <= n,
        overlap < segment_length,
    ensures
        starts@.len() == n as nat / (segment_length - overlap) as nat,
        forall|i: int|
            0 <= i < starts@.len() ==> #[trigger] starts@[i] == i * (segment_length - overlap),
        forall|i: int| 0 <= i < starts@.len() ==> #[trigger] starts@[i] < n,
        starts@.len() * (segment_length - overlap) <= n < (starts@.len() + 1) * (segment_length - overlap),
{
    let step = segment_length - overlap;
    let count = n / step;
    let mut starts: Vec<usize> = Vec::with_capacity(count);
    proof {
        lemma_fundamental_div_mod(n as int, step as int);
        assert(count * step <= n) by (nonlinear_arith)
            requires
                n == step * count + n % step,
                n % step >= 0,
        ;
        assert(n < (count + 1) * step) by (nonlinear_arith)
            requires
                n == step * count + n % step,
                n % step < step,
        ;
    }
    let mut i: usize = 0;
    while i < count
        invariant
            step == segment_length - overlap,
            step > 0,
            count == n / step,
            count * step <= n,
            i <= count,
            starts@.len() == i,
            forall|j: int| 0 <= j < i ==> #[trigger] starts@[j] == j * step,
            forall|j: int| 0 <= j < i ==> #[trigger] starts@[j] < n,
        decreases count - i,
    {
        proof {
            assert(i * step < count * step) by (nonlinear_arith)
                requires
                    i < count,
                    step > 0,
            ;
        }
        starts.push(i * step);
        i = i + 1;
    }
    starts
}

/// The segment of `length` samples of `signal` from position `start`, filled up with
/// `fill` where it runs past the end of the signal.
pub fn padded_segment<T: Copy>(signal: &[T], start: usize, length: usize, fill: T) -> (segment: Vec<T>)
    ensures
        segment@.len() == length,
        forall|j: int|
            0 <= j < length ==> #[trigger] segment@[j] == if start + j < signal@.len() {
                signal@[start + j]
            } else {
                fill
            },
{
    let n = signal.len();
    let available = if start < n { n - start } else { 0 };
    let mut segment: Vec<T> = Vec::with_capacity(length);
    let mut j: usize = 0;
    while j < length
        invariant
            n == signal@.len(),
            available == if start < n { n - start } else { 0 },
            j <= length,
            segment@.len() == j,
            forall|k: int|
                0 <= k < j ==> #[trigger] segment@[k] == if start + k < n {
                    signal@[start + k]
                } else {
                    fill
                },
        decreases length - j,
    {
        if j < available {
            segment.push(signal[start + j]);
        } else {
            segment.push(fill);
        }
        j = j + 1;
    }
    segment
}

} // verus!
