//! The index logic of the observation pipeline's stages.

use vstd::prelude::*;
use vstd::arithmetic::div_mod::*;

verus! {

/// The samples of `signal` at the positions divisible by `factor`, in order.
pub open spec fn downsampled<T>(signal: Seq<T>, factor: nat) -> Seq<T> {
    Seq::new(
        if signal.len() == 0 { 0 } else { ((signal.len() - 1) as nat / factor + 1) as nat },
        |j: int| signal[j * factor],
    )
}

/// What downsampling keeps, in terms of the signal alone: `ceil(len / factor)`
/// samples, the `j`-th of them taken from position `j * factor` (inside the
/// signal), and every sample at a position divisible by `factor` among them.
pub proof fn lemma_downsampled_positions<T>(signal: Seq<T>, factor: nat)
    requires
        factor > 0,
    ensures
        downsampled(signal, factor).len() == (signal.len() + factor - 1) as int / factor as int,
        forall|j: int| 0 <= j < downsampled(signal, factor).len() ==> #[trigger] (j * factor) < signal.len(),
        forall|j: int|
            0 <= j < downsampled(signal, factor).len() ==> #[trigger] downsampled(signal, factor)[j] == signal[j
                * factor],
        forall|i: int|
            0 <= i < signal.len() && i % (factor as int) == 0 ==> #[trigger] (i / (factor as int)) < downsampled(
                signal,
                factor,
            ).len(),
        forall|i: int|
            0 <= i < signal.len() && i % (factor as int) == 0 ==> downsampled(signal, factor)[i / (factor as int)]
                == #[trigger] signal[i],
{
    let f = factor as int;
    if signal.len() == 0 {
        lemma_fundamental_div_mod_converse(f - 1, f, 0, f - 1);
    } else {
        let last = signal.len() - 1;
        let q = last / f;
        lemma_fundamental_div_mod(last, f);
        assert((q + 1) * f == q * f + f) by (nonlinear_arith);
        assert(q * f == f * q) by (nonlinear_arith);
        lemma_fundamental_div_mod_converse(last + f, f, q + 1, last % f);
        assert(downsampled(signal, factor).len() == q + 1);
        assert forall|j: int| 0 <= j < downsampled(signal, factor).len() implies #[trigger] (j * factor)
            < signal.len() by {
            assert(j * f <= q * f) by (nonlinear_arith)
                requires
                    j <= q,
                    f > 0,
            ;
        }
        assert forall|i: int| 0 <= i < signal.len() && i % f == 0 implies #[trigger] (i / f) < downsampled(
            signal,
            factor,
        ).len() && downsampled(signal, factor)[i / f] == signal[i] by {
            lemma_div_is_ordered(i, last, f);
            lemma_fundamental_div_mod(i, f);
            assert(i / f * f == f * (i / f)) by (nonlinear_arith);
            assert(0 <= i / f);
            assert(downsampled(signal, factor)[i / f] == signal[(i / f) * f]);
        }
    }
}

/// Downsampling twice is downsampling once by the product of the factors: two
/// downsampling stages in a row keep the same samples as one.
pub proof fn lemma_downsample_twice<T>(signal: Seq<T>, a: nat, b: nat)
    requires
        a > 0,
        b > 0,
    ensures
        downsampled(downsampled(signal, a), b) == downsampled(signal, a * b),
{
    let once = downsampled(signal, a);
    let twice = downsampled(once, b);
    let direct = downsampled(signal, a * b);
    if signal.len() > 0 {
        lemma_div_denominator((signal.len() - 1) as int, a as int, b as int);
        assert(twice.len() == direct.len());
        let q = (once.len() - 1) as int / b as int;
        lemma_fundamental_div_mod((once.len() - 1) as int, b as int);
        assert forall|k: int| 0 <= k < twice.len() implies twice[k] == direct[k] by {
            assert(k * b <= q * b) by (nonlinear_arith)
                requires
                    k <= q,
                    b > 0,
            ;
            assert(0 <= k * b) by (nonlinear_arith)
                requires
                    k >= 0,
                    b > 0,
            ;
            assert((k * b) * a == k * (a * b)) by (nonlinear_arith);
        }
    }
    assert(twice =~= direct);
}

/// Keeps every `factor`-th sample, starting with the first: the samples at the
/// positions divisible by `factor`, in order (`ceil(len / factor)` of them). The
/// factor must be positive unless the signal is empty.
pub fn downsample<T: Copy>(signal: &[T], factor: usize) -> (kept: Vec<T>)
    requires
        factor > 0 || signal@.len() == 0,
    ensures
        kept@ == downsampled(signal@, factor as nat),
        kept@.len() == if signal@.len() == 0 { 0 } else { (signal@.len() + factor - 1) as int / factor as int },
        forall|j: int| 0 <= j < kept@.len() ==> j * factor < signal@.len() && #[trigger] kept@[j] == signal@[j * factor],
        forall|i: int|
            0 <= i < signal@.len() && i % (factor as int) == 0 ==> i / (factor as int) < kept@.len()
                && kept@[i / (factor as int)] == #[trigger] signal@[i],
{
    let n = signal.len();
    let mut kept: Vec<T> = Vec::new();
    if n == 0 {
        assert(kept@ =~= Seq::new(0, |j: int| signal@[j * factor]));
        return kept;
    }
    let mut i: usize = 0;
    proof {
        lemma_fundamental_div_mod_converse((factor - 1) as int, factor as int, 0, (factor - 1) as int);
    }
    while i < n
        invariant
            factor > 0,
            n == signal@.len(),
            i <= n,
            kept@.len() == (i + factor - 1) as nat / factor as nat,
            forall|j: int| 0 <= j < kept@.len() ==> #[trigger] kept@[j] == signal@[j * factor],
        decreases n - i,
    {
        let ghost q = i as int / factor as int;
        let ghost r = i as int % factor as int;
        proof {
            lemma_fundamental_div_mod(i as int, factor as int);
            assert(i == q * factor + r);
            assert((q + 1) * factor == q * factor + factor) by (nonlinear_arith);
        }
        if i % factor == 0 {
            proof {
                lemma_fundamental_div_mod_converse((i + factor - 1) as int, factor as int, q, (factor - 1) as int);
                assert(kept@.len() * factor == i);
            }
            kept.push(signal[i]);
            proof {
                lemma_fundamental_div_mod_converse((i + 1 + factor - 1) as int, factor as int, q + 1, 0);
            }
        } else {
            proof {
                lemma_fundamental_div_mod_converse((i + factor - 1) as int, factor as int, q + 1, r - 1);
                lemma_fundamental_div_mod_converse((i + 1 + factor - 1) as int, factor as int, q + 1, r);
            }
        }
        i = i + 1;
    }
    proof {
        lemma_fundamental_div_mod((n - 1) as int, factor as int);
        let q = (n - 1) as int / factor as int;
        let r = (n - 1) as int % factor as int;
        assert((q + 1) * factor == q * factor + factor) by (nonlinear_arith);
        lemma_fundamental_div_mod_converse((n + factor - 1) as int, factor as int, q + 1, r);
    }
    assert(kept@ =~= Seq::new(((n - 1) as nat / factor as nat + 1) as nat, |j: int| signal@[j * factor]));
    proof {
        lemma_downsampled_positions(signal@, factor as nat);
    }
    kept
}

} // verus!
