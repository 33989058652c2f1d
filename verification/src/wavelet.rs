//! Wavelet families, and how the single-level Haar transform reads its
//! approximation and detail blocks out of the transformed array.

use vstd::prelude::*;

verus! {

/// Wavelet type.
#[derive(Debug, Clone, Copy, PartialEq, Eq)]
pub enum WaveletType {
    Haar,
    Daubechies4,
}

/// Reads the two blocks of a single-level Haar transform out of its transformed
/// array `data`: the pair sums (approximations) fill the first half and the pair
/// differences (details) the second. Any power-of-two length is accepted; an
/// array of one entry has nothing to pair, so it is its own approximation and
/// has no details.
pub fn haar_output_blocks<T: Copy>(data: &[T]) -> (blocks: (Vec<T>, Vec<T>))
    requires
        crate::fourier::is_power_of_two(data@.len() as nat),
    ensures
        data@.len() == 1 ==> blocks.0@ == seq![data@[0]] && blocks.1@ == Seq::<T>::empty(),
        data@.len() >= 2 ==> blocks.0@ == data@.subrange(0, (data@.len() / 2) as int)
            && blocks.1@ == data@.subrange((data@.len() / 2) as int, data@.len() as int),
{
    let n = data.len();
    if n == 1 {
        let mut approx: Vec<T> = Vec::new();
        approx.push(data[0]);
        assert(approx@ =~= seq![data@[0]]);
        (approx, Vec::new())
    } else {
        let half = n / 2;
        let approx = vstd::slice::slice_to_vec(vstd::slice::slice_subrange(data, 0, half));
        let detail = vstd::slice::slice_to_vec(vstd::slice::slice_subrange(data, half, n));
        (approx, detail)
    }
}

} // verus!
