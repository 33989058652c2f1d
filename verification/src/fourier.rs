//! Radix-2 Fourier transform: bit reversal, the in-place Cooley-Tukey
//! butterflies, and zero padding to a power-of-two length.

use vstd::prelude::*;
use vstd::arithmetic::power2::*;
use vstd::arithmetic::div_mod::*;
use vstd::arithmetic::mul::*;

use crate::complex::{
    Complex64, complex_sum_outcome, complex_difference_outcome, complex_product_outcome, add_complex, sub_complex,
    mul_complex,
};

verus! {

// ---------------------------------------------------------------------------
// Bit reversal
// ---------------------------------------------------------------------------

/// The number whose `bits` binary digits are those of `x`, lowest digit of `x` first:
/// digit `t` of `x` (for `t < bits`) becomes digit `bits - 1 - t` of the result.
pub open spec fn reverse_bits(x: nat, bits: nat) -> nat
    decreases bits,
{
    if bits == 0 {
        0
    } else {
        (x % 2) * pow2((bits - 1) as nat) + reverse_bits(x / 2, (bits - 1) as nat)
    }
}

/// The lowest binary digit of `x`, times `p`.
proof fn lemma_digit_times(x: nat, p: nat)
    ensures
        (x % 2) * p == if x % 2 == 0 { 0 } else { p },
{
    let b = x % 2;
    assert(b * p == if b == 0 { 0 } else { p }) by (nonlinear_arith)
        requires
            b == 0 || b == 1,
    ;
}

/// The reversal of `bits` digits has at most `bits` digits.
pub proof fn lemma_reverse_bits_bound(x: nat, bits: nat)
    ensures
        reverse_bits(x, bits) < pow2(bits),
    decreases bits,
{
    if bits == 0 {
        lemma2_to64();
    } else {
        let b1 = (bits - 1) as nat;
        lemma_reverse_bits_bound(x / 2, b1);
        lemma_pow2_unfold(bits);
        lemma_digit_times(x, pow2(b1));
    }
}

/// One more digit: the reversal of `bits + 1` digits shifts the reversal of `bits`
/// digits up by one place and appends digit `bits` of `x` at the bottom.
pub proof fn lemma_reverse_bits_extend(x: nat, bits: nat)
    ensures
        reverse_bits(x, bits + 1) == 2 * reverse_bits(x, bits) + (x / pow2(bits)) % 2,
    decreases bits,
{
    if bits == 0 {
        lemma2_to64();
        assert(pow2(0) == 1);
        assert(reverse_bits(x, 1) == (x % 2) * pow2(0) + reverse_bits(x / 2, 0));
        assert(x / pow2(0) == x);
    } else {
        let b1 = (bits - 1) as nat;
        lemma_reverse_bits_extend(x / 2, b1);
        lemma_pow2_unfold(bits);
        lemma_pow2_pos(b1);
        lemma_div_denominator(x as int, 2, pow2(b1) as int);
        assert(pow2(bits) == 2 * pow2(b1));
        assert((x / 2) / pow2(b1) == x / pow2(bits));
        lemma_digit_times(x, pow2(b1));
        lemma_digit_times(x, pow2(bits));
        assert(reverse_bits(x, bits + 1) == (x % 2) * pow2(bits) + reverse_bits(x / 2, bits));
        assert(reverse_bits(x, bits) == (x % 2) * pow2(b1) + reverse_bits(x / 2, b1));
        assert(reverse_bits(x / 2, bits) == 2 * reverse_bits(x / 2, b1) + ((x / 2) / pow2(b1)) % 2);
    }
}

/// The reversal of `bits` digits reads only the lowest `bits` digits of `x`.
pub proof fn lemma_reverse_bits_low_digits(u: nat, t: nat, bits: nat)
    ensures
        reverse_bits(u + t * pow2(bits), bits) == reverse_bits(u, bits),
    decreases bits,
{
    if bits > 0 {
        let b1 = (bits - 1) as nat;
        lemma_pow2_unfold(bits);
        let m = t * pow2(b1);
        let p = pow2(b1);
        assert(t * (2 * p) == 2 * (t * p)) by (nonlinear_arith);
        assert(t * pow2(bits) == 2 * m);
        assert((u + 2 * m) % 2 == u % 2) by {
            lemma_mod_multiples_vanish(m as int, u as int, 2);
        }
        assert((u + 2 * m) / 2 == u / 2 + m) by {
            lemma_fundamental_div_mod(u as int, 2);
            lemma_fundamental_div_mod_converse((u + 2 * m) as int, 2, (u / 2 + m) as int, (u % 2) as int);
        }
        lemma_reverse_bits_low_digits(u / 2, t, b1);
    }
}

/// Reversing the digits twice gives the number back.
pub proof fn lemma_reverse_bits_involution(x: nat, bits: nat)
    requires
        x < pow2(bits),
    ensures
        reverse_bits(reverse_bits(x, bits), bits) == x,
    decreases bits,
{
    if bits == 0 {
        lemma2_to64();
    } else {
        let b1 = (bits - 1) as nat;
        lemma_pow2_unfold(bits);
        lemma_pow2_pos(b1);
        let r = reverse_bits(x / 2, b1);
        lemma_reverse_bits_bound(x / 2, b1);
        let y = reverse_bits(x, bits);
        assert(y == r + (x % 2) * pow2(b1));
        assert(x / 2 < pow2(b1)) by {
            lemma_fundamental_div_mod(x as int, 2);
        }
        lemma_reverse_bits_involution(x / 2, b1);
        lemma_reverse_bits_extend(y, b1);
        lemma_reverse_bits_low_digits(r, x % 2, b1);
        assert(y / pow2(b1) == x % 2) by {
            lemma_fundamental_div_mod_converse(y as int, pow2(b1) as int, (x % 2) as int, r as int);
        }
        lemma_fundamental_div_mod(x as int, 2);
    }
}

/// Within the word size, `bit_reverse` undoes itself: reversing the lowest `bits`
/// digits of a number below `2^bits` twice gives the number back, even with the
/// reduction modulo the word that `bit_reverse` applies.
pub proof fn lemma_bit_reverse_round_trip(x: nat, bits: nat)
    requires
        x < pow2(bits),
        bits <= usize::BITS,
    ensures
        reverse_bits(reverse_bits(x, bits) % (usize::MAX as nat + 1), bits) % (usize::MAX as nat + 1) == x,
{
    let m = usize::MAX as nat + 1;
    vstd::layout::unsigned_int_max_values();
    if bits < usize::BITS {
        lemma_pow2_strictly_increases(bits, usize::BITS as nat);
    }
    assert(pow2(bits) <= m);
    lemma_reverse_bits_bound(x, bits);
    lemma_small_mod(reverse_bits(x, bits), m);
    lemma_reverse_bits_involution(x, bits);
    lemma_small_mod(x, m);
}

/// Reverses the lowest `bits` binary digits of `x`: digit `t` of `x` becomes digit
/// `bits - 1 - t` of the result.
///
/// The result is built in a word, shifting up one digit per step, so where `bits`
/// exceeds the word size the digits shifted out above the word are lost.
pub fn bit_reverse(x: usize, bits: usize) -> (result: usize)
    ensures
        result as nat == reverse_bits(x as nat, bits as nat) % (usize::MAX as nat + 1),
{
    let ghost x0 = x as nat;
    let ghost m = usize::MAX as nat + 1;
    let mut x = x;
    let mut result: usize = 0;
    let mut i: usize = 0;
    proof {
        lemma2_to64();
        lemma_small_mod(0, m);
    }
    while i < bits
        invariant
            i <= bits,
            m == usize::MAX as nat + 1,
            x as nat == x0 / pow2(i as nat),
            result as nat == reverse_bits(x0, i as nat) % m,
        decreases bits - i,
    {
        let b = x & 1;
        assert(b == x % 2) by (bit_vector)
            requires
                b == x & 1,
        ;
        let doubled = result.wrapping_mul(2);
        proof {
            vstd::layout::unsigned_int_max_values();
            lemma_pow2_unfold(usize::BITS as nat);
            assert(m % 2 == 0);
            lemma_mod_mod((result as nat * 2) as int, 2, (m / 2) as int);
            assert(doubled as nat == (result as nat * 2) % m);
            assert((result as nat * 2) % 2 == 0);
        }
        let next = doubled + b;
        proof {
            lemma_reverse_bits_extend(x0, i as nat);
            lemma_pow2_pos(i as nat);
            let big = reverse_bits(x0, i as nat);
            lemma_mul_mod_noop_left(big as int, 2, m as int);
            lemma_add_mod_noop((big * 2) as int, b as int, m as int);
            lemma_mod_twice((big * 2 % m) as int, m as int);
            lemma_add_mod_noop(((big % m) * 2) as int, b as int, m as int);
            lemma_small_mod(b as nat, m);
            lemma_div_denominator(x0 as int, pow2(i as nat) as int, 2);
            lemma_pow2_unfold((i + 1) as nat);
            lemma_mul_is_commutative(pow2(i as nat) as int, 2);
        }
        result = next;
        let nx = x >> 1;
        assert(nx == x / 2) by (bit_vector)
            requires
                nx == x >> 1,
        ;
        x = nx;
        i = i + 1;
    }
    result
}

// ---------------------------------------------------------------------------
// The radix-2 transform
// ---------------------------------------------------------------------------

/// Whether `n` is `2^m` for some `m`.
pub open spec fn is_power_of_two(n: nat) -> bool {
    exists|m: nat| pow2(m) == n
}

/// The number of halvings that bring `n` down to 1 (`log2(2^m) == m`).
pub open spec fn log2(n: nat) -> nat
    decreases n,
{
    if n <= 1 {
        0
    } else {
        1 + log2(n / 2)
    }
}

/// The entries `s[c]`, `s[c + stride]`, `s[c + 2 * stride]`, ... of `s`, `count` of them.
pub open spec fn decimate<A>(s: Seq<A>, c: int, stride: int, count: nat) -> Seq<A> {
    Seq::new(count, |j: int| s[c + j * stride])
}

/// One butterfly, as the transform computes it: `v` is an outcome of the product
/// `w * o`, `upper` an outcome of `e + v` and `lower` an outcome of `e - v`, for
/// one and the same `v`.
pub open spec fn butterfly_outcome(e: Complex64, o: Complex64, w: Complex64, upper: Complex64, lower: Complex64) -> bool {
    exists|v: Complex64|
        #![trigger complex_product_outcome(w, o, v)]
        complex_product_outcome(w, o, v) && complex_sum_outcome(e, v, upper) && complex_difference_outcome(e, v, lower)
}

/// `r` is an outcome of the radix-2 decimation-in-time transform of `s`, a sequence
/// of length `2^m`, with the twiddle factors `tw`.
///
/// The transform of a single entry is the entry itself. The transform of `2h`
/// entries splits them into the entries at even and at odd positions, transforms
/// both halves (giving `E` and `O`), and combines entry `k` of the two halves with
/// the twiddle factor `w = tw[m - 1][k]` in a butterfly: `E[k] + w * O[k]` goes to
/// position `k`, `E[k] - w * O[k]` to position `k + h`. Row `st` of `tw` holds the
/// factors of the combining step whose blocks have `2^(st + 1)` entries.
pub open spec fn radix2_outcome(s: Seq<Complex64>, tw: Seq<Seq<Complex64>>, m: nat, r: Seq<Complex64>) -> bool
    decreases m,
{
    if m == 0 {
        r == s
    } else {
        let h = pow2((m - 1) as nat);
        &&& r.len() == 2 * h
        &&& exists|e: Seq<Complex64>, o: Seq<Complex64>|
            #![trigger halves_combine(tw[m - 1], h, e, o, r)]
            radix2_outcome(decimate(s, 0, 2, h), tw, (m - 1) as nat, e)
                && radix2_outcome(decimate(s, 1, 2, h), tw, (m - 1) as nat, o)
                && halves_combine(tw[m - 1], h, e, o, r)
    }
}

/// Entry `k` and entry `k + h` of `r` are a butterfly of entry `k` of `e` and `o`
/// with the factor `row[k]`, for every `k < h`.
pub open spec fn halves_combine(row: Seq<Complex64>, h: nat, e: Seq<Complex64>, o: Seq<Complex64>, r: Seq<Complex64>) -> bool {
    forall|k: int| 0 <= k < h ==> #[trigger] butterfly_outcome(e[k], o[k], row[k], r[k], r[k + h])
}

/// The rows of a twiddle table, as sequences.
pub open spec fn twiddle_rows(twiddles: Seq<Vec<Complex64>>) -> Seq<Seq<Complex64>> {
    twiddles.map_values(|row: Vec<Complex64>| row@)
}

/// Whether the twiddle table has the factors that a transform of `n` entries reads:
/// for each combining step `st` (blocks of `2^(st + 1)` entries), `2^st` factors.
pub open spec fn twiddles_cover(tw: Seq<Seq<Complex64>>, n: nat) -> bool {
    &&& tw.len() >= log2(n)
    &&& forall|st: int| 0 <= st < log2(n) ==> #[trigger] tw[st].len() >= pow2(st as nat)
}

/// `log2` inverts `pow2`.
pub proof fn lemma_log2_pow2(m: nat)
    ensures
        log2(pow2(m)) == m,
    decreases m,
{
    if m == 0 {
        lemma2_to64();
    } else {
        lemma_pow2_unfold(m);
        lemma_pow2_pos((m - 1) as nat);
        lemma_log2_pow2((m - 1) as nat);
        assert(pow2(m) / 2 == pow2((m - 1) as nat));
    }
}

/// `q * d + r` splits into quotient `q` and remainder `r`.
proof fn lemma_div_mod_split(q: int, d: int, r: int)
    requires
        0 < d,
        0 <= r < d,
    ensures
        (q * d + r) / d == q,
        (q * d + r) % d == r,
{
    lemma_fundamental_div_mod_converse(q * d + r, d, q, r);
}

/// The entries of `s` that the block with index `q` holds once every block of `2^m`
/// entries has been combined, in a transform of `2^total` entries: those whose
/// positions are congruent to `reverse_bits(q)` modulo the number of blocks.
pub open spec fn stage_input(s: Seq<Complex64>, total: nat, m: nat, q: int) -> Seq<Complex64> {
    decimate(s, reverse_bits(q as nat, (total - m) as nat) as int, pow2((total - m) as nat) as int, pow2(m))
}

/// Block `q` of the in-place array `x`, of `2^m` entries, holds an outcome of the
/// transform of its entries of `s`.
pub open spec fn block_done(s: Seq<Complex64>, tw: Seq<Seq<Complex64>>, total: nat, m: nat, x: Seq<Complex64>, q: int) -> bool {
    radix2_outcome(stage_input(s, total, m, q), tw, m, x.subrange(q * pow2(m), q * pow2(m) + pow2(m)))
}

/// Combining two transformed halves with butterflies transforms the whole.
proof fn lemma_radix2_combine(
    d: Seq<Complex64>,
    tw: Seq<Seq<Complex64>>,
    m: nat,
    left: Seq<Complex64>,
    right: Seq<Complex64>,
    r: Seq<Complex64>,
)
    requires
        radix2_outcome(decimate(d, 0, 2, pow2(m)), tw, m, left),
        radix2_outcome(decimate(d, 1, 2, pow2(m)), tw, m, right),
        r.len() == 2 * pow2(m),
        forall|k: int| 0 <= k < pow2(m) ==> #[trigger] butterfly_outcome(left[k], right[k], tw[m as int][k], r[k], r[k + pow2(m)]),
    ensures
        radix2_outcome(d, tw, m + 1, r),
{
    let m1 = (m + 1) as nat;
    assert((m1 - 1) as nat == m);
    assert(halves_combine(tw[m1 - 1], pow2(m), left, right, r));
}

/// The first stage: blocks of single entries, in bit-reversed order.
proof fn lemma_stage_zero(s: Seq<Complex64>, tw: Seq<Seq<Complex64>>, total: nat, x: Seq<Complex64>, q: int)
    requires
        0 <= q < pow2(total),
        x.len() == pow2(total),
        x[q] == s[reverse_bits(q as nat, total) as int],
    ensures
        block_done(s, tw, total, 0, x, q),
{
    lemma2_to64();
    assert(q * pow2(0) == q);
    let d = stage_input(s, total, 0, q);
    assert((total - 0) as nat == total);
    assert(d.len() == 1);
    assert(d[0] == s[reverse_bits(q as nat, total) as int + 0 * pow2(total)]);
    assert(x.subrange(q, q + 1) =~= d);
}

/// The last stage: the single block is an outcome of the transform of `s`.
proof fn lemma_stage_last(s: Seq<Complex64>, tw: Seq<Seq<Complex64>>, total: nat, x: Seq<Complex64>)
    requires
        s.len() == pow2(total),
        x.len() == pow2(total),
        block_done(s, tw, total, total, x, 0),
    ensures
        radix2_outcome(s, tw, total, x),
{
    lemma2_to64();
    assert(reverse_bits(0, 0) == 0);
    assert(stage_input(s, total, total, 0) =~= s);
    assert(x.subrange(0, pow2(total) as int) =~= x);
}

/// The entries of block `q` of a combining step, split by parity of position, are
/// the entries of blocks `2q` and `2q + 1` of the step before.
proof fn lemma_stage_input_halves(s: Seq<Complex64>, total: nat, m: nat, q: int)
    requires
        m < total,
        0 <= q < pow2((total - m - 1) as nat),
    ensures
        decimate(stage_input(s, total, m + 1, q), 0, 2, pow2(m)) =~= stage_input(s, total, m, 2 * q),
        decimate(stage_input(s, total, m + 1, q), 1, 2, pow2(m)) =~= stage_input(s, total, m, 2 * q + 1),
{
    let h = pow2(m) as int;
    let bb = (total - m - 1) as nat;
    let stride = pow2(bb) as int;
    let c = reverse_bits(q as nat, bb) as int;
    lemma_pow2_pos(m);
    lemma_pow2_unfold(m + 1);
    assert((total - m) as nat == bb + 1);
    assert((total - (m + 1)) as nat == bb);
    lemma_pow2_unfold(bb + 1);
    assert(pow2((total - m) as nat) == 2 * stride);
    assert(reverse_bits((2 * q) as nat, bb + 1) == c) by {
        assert(((2 * q) as nat) % 2 == 0);
        assert(((2 * q) as nat) / 2 == q);
    }
    assert(reverse_bits((2 * q + 1) as nat, bb + 1) == stride + c) by {
        assert(((2 * q + 1) as nat) % 2 == 1);
        assert(((2 * q + 1) as nat) / 2 == q);
    }
    let d = stage_input(s, total, m + 1, q);
    assert(d == decimate(s, c, stride, pow2(m + 1)));
    let left = stage_input(s, total, m, 2 * q);
    let right = stage_input(s, total, m, 2 * q + 1);
    assert(left == decimate(s, c, 2 * stride, pow2(m)));
    assert(right == decimate(s, stride + c, 2 * stride, pow2(m)));
    assert forall|j: int| 0 <= j < h implies decimate(d, 0, 2, pow2(m))[j] == left[j] by {
        assert((j * 2) * stride == j * (2 * stride)) by (nonlinear_arith);
    }
    assert forall|j: int| 0 <= j < h implies decimate(d, 1, 2, pow2(m))[j] == right[j] by {
        assert((1 + j * 2) * stride == stride + j * (2 * stride)) by (nonlinear_arith);
    }
}

/// Puts the entries of `x` (of length `2^bits`) into bit-reversed order by swapping
/// each entry with the one at its reversed index.
fn reorder_bit_reversed<T: Copy>(x: &mut Vec<T>, bits: usize)
    requires
        old(x)@.len() == pow2(bits as nat),
    ensures
        final(x)@.len() == old(x)@.len(),
        forall|p: int|
            0 <= p < old(x)@.len() ==> #[trigger] final(x)@[p] == old(x)@[reverse_bits(p as nat, bits as nat) as int],
{
    let ghost s = x@;
    let n = x.len();
    let ghost m = usize::MAX as nat + 1;
    proof {
        assert forall|p: nat| p < n implies reverse_bits(#[trigger] reverse_bits(p, bits as nat), bits as nat) == p
            && reverse_bits(p, bits as nat) < n by {
            lemma_reverse_bits_involution(p, bits as nat);
            lemma_reverse_bits_bound(p, bits as nat);
        }
    }
    let mut i: usize = 0;
    while i < n
        invariant
            n == s.len(),
            n == pow2(bits as nat),
            m == usize::MAX as nat + 1,
            i <= n,
            x@.len() == n,
            forall|p: nat| p < n ==> reverse_bits(#[trigger] reverse_bits(p, bits as nat), bits as nat) == p
                && reverse_bits(p, bits as nat) < n,
            forall|p: int|
                0 <= p < n ==> #[trigger] x@[p] == (if p < i || reverse_bits(p as nat, bits as nat) < i {
                    s[reverse_bits(p as nat, bits as nat) as int]
                } else {
                    s[p]
                }),
        decreases n - i,
    {
        let j = bit_reverse(i, bits);
        proof {
            let r = reverse_bits(i as nat, bits as nat);
            assert(r < n);
            lemma_small_mod(r, m);
            assert(j == r);
        }
        if i < j {
            let a = x[i];
            let b = x[j];
            x.set(i, b);
            x.set(j, a);
        }
        proof {
            assert forall|p: int| 0 <= p < n implies #[trigger] x@[p] == (if p < i + 1 || reverse_bits(
                p as nat,
                bits as nat,
            ) < i + 1 {
                s[reverse_bits(p as nat, bits as nat) as int]
            } else {
                s[p]
            }) by {
                let rp = reverse_bits(p as nat, bits as nat);
                assert(reverse_bits(rp, bits as nat) == p as nat);
            }
        }
        i = i + 1;
    }
}

/// Cooley-Tukey radix-2 FFT of complex input, computed in place: the entries are put
/// into bit-reversed order, then each combining step merges pairs of blocks with
/// butterflies, from blocks of one entry up to the whole array.
///
/// The input length must be zero, one, or a power of two. Row `st` of `twiddles`
/// holds the twiddle factors `w_k = e^(-2 pi i k / 2^(st + 1))` (for `k < 2^st`) of
/// the step that builds blocks of `2^(st + 1)` entries; the result is an outcome of
/// the recursive radix-2 decimation-in-time transform of the input with those
/// factors, each butterfly being `num_complex`'s product, sum and difference.
/// Inputs of length zero or one come back unchanged.
pub fn fft_complex(input: &[Complex64], twiddles: &[Vec<Complex64>]) -> (result: Vec<Complex64>)
    requires
        input@.len() <= 1 || is_power_of_two(input@.len() as nat),
        twiddles_cover(twiddle_rows(twiddles@), input@.len() as nat),
    ensures
        radix2_outcome(input@, twiddle_rows(twiddles@), log2(input@.len() as nat), result@),
{
    let n = input.len();
    let ghost s = input@;
    let ghost tw = twiddle_rows(twiddles@);
    if n <= 1 {
        proof {
            reveal_with_fuel(log2, 1);
        }
        return vstd::slice::slice_to_vec(input);
    }
    let ghost total = choose|m: nat| pow2(m) == n as nat;
    proof {
        lemma_log2_pow2(total);
        lemma_pow2_pos(total);
    }
    // The number of bits of an index: n == 2^bits.
    let mut bits: usize = 0;
    let mut p: usize = 1;
    proof {
        lemma2_to64();
    }
    while p < n
        invariant
            n == pow2(total),
            p == pow2(bits as nat),
            bits <= total,
            p <= n,
        decreases n - p,
    {
        proof {
            if bits as nat == total {
                assert(false);
            }
            lemma_pow2_unfold(bits as nat + 1);
            lemma_pow2_pos(bits as nat);
            if bits >= 64 {
                if bits > 64 {
                    lemma_pow2_strictly_increases(64, bits as nat);
                }
                lemma2_to64_rest();
                assert(false);
            }
            lemma_pow2_strictly_increases(bits as nat, total);
            if bits as nat + 1 < total {
                lemma_pow2_strictly_increases(bits as nat + 1, total);
            }
        }
        p = p * 2;
        bits = bits + 1;
    }
    proof {
        if (bits as nat) < total {
            lemma_pow2_strictly_increases(bits as nat, total);
        }
        assert(bits as nat == total);
    }

    let mut x = vstd::slice::slice_to_vec(input);
    reorder_bit_reversed(&mut x, bits);
    proof {
        lemma2_to64();
        assert forall|q: int| 0 <= q < pow2((total - 0) as nat) implies #[trigger] block_done(s, tw, total, 0, x@, q) by {
            lemma_stage_zero(s, tw, total, x@, q);
        }
    }

    // Combining steps: blocks of `half` entries are merged into blocks of `2 * half`.
    let mut half: usize = 1;
    let mut stage: usize = 0;
    while half < n
        invariant
            n == s.len(),
            n == pow2(total),
            bits as nat == total,
            half == pow2(stage as nat),
            stage <= total,
            half <= n,
            tw == twiddle_rows(twiddles@),
            twiddles_cover(tw, n as nat),
            log2(n as nat) == total,
            x@.len() == n,
            forall|q: int| 0 <= q < pow2((total - stage) as nat) ==> #[trigger] block_done(s, tw, total, stage as nat, x@, q),
        decreases n - half,
    {
        let ghost st = stage as nat;
        proof {
            if st == total {
                assert(false);
            }
            lemma_pow2_unfold(st + 1);
            lemma_pow2_strictly_increases(st, total);
            if st + 1 < total {
                lemma_pow2_strictly_increases(st + 1, total);
            }
            lemma_pow2_adds(st + 1, (total - st - 1) as nat);
            lemma_pow2_pos(st);
            lemma_pow2_unfold((total - st) as nat);
            assert((total - st - 1) as nat == ((total - st) as nat - 1) as nat);
            assert(tw[st as int].len() >= pow2(st));
        }
        let len = half * 2;
        let ghost blocks = pow2((total - st - 1) as nat) as int;
        assert(n == len * blocks);
        assert(pow2((total - st) as nat) == 2 * blocks);
        let row = &twiddles[stage];
        assert(row@ == tw[st as int]);
        let mut start: usize = 0;
        let ghost mut q: int = 0;
        while start < n
            invariant
                n == s.len(),
                n == pow2(total),
                half == pow2(st),
                half > 0,
                len == 2 * half,
                len == pow2(st + 1),
                st < total,
                n == len * blocks,
                blocks == pow2((total - st - 1) as nat),
                row@ == tw[st as int],
                row@.len() >= half,
                0 <= q <= blocks,
                start == q * len,
                x@.len() == n,
                forall|p: int| 0 <= p < q ==> #[trigger] block_done(s, tw, total, st + 1, x@, p),
                forall|p: int| 2 * q <= p < 2 * blocks ==> #[trigger] block_done(s, tw, total, st, x@, p),
            decreases n - start,
        {
            proof {
                if q >= blocks {
                    assert(q * len >= blocks * len) by (nonlinear_arith)
                        requires q >= blocks, len > 0;
                    assert(false);
                }
                assert((q + 1) * len <= blocks * len) by (nonlinear_arith)
                    requires q + 1 <= blocks, len > 0;
                assert((q + 1) * len == start + len) by (nonlinear_arith)
                    requires start == q * len;
                assert((2 * q) * half == start) by (nonlinear_arith)
                    requires start == q * len, len == 2 * half;
                assert((2 * q + 1) * half == start + half) by (nonlinear_arith)
                    requires start == q * len, len == 2 * half;
                assert(block_done(s, tw, total, st, x@, 2 * q));
                assert(block_done(s, tw, total, st, x@, 2 * q + 1));
            }
            let ghost x0 = x@;
            let mut k: usize = 0;
            while k < half
                invariant
                    n == s.len(),
                    half == pow2(st),
                    len == 2 * half,
                    row@ == tw[st as int],
                    row@.len() >= half,
                    start + len <= n,
                    k <= half,
                    x0.len() == n,
                    x@.len() == n,
                    forall|i: int|
                        0 <= i < n && !(start <= i < start + k) && !(start + half <= i < start + half + k) ==> #[trigger] x@[i]
                            == x0[i],
                    forall|j: int|
                        0 <= j < k ==> #[trigger] butterfly_outcome(
                            x0[start + j],
                            x0[start + half + j],
                            tw[st as int][j],
                            x@[start + j],
                            x@[start + half + j],
                        ),
                decreases half - k,
            {
                let w = row[k];
                let u = x[start + k];
                let v = mul_complex(w, x[start + k + half]);
                let a = add_complex(u, v);
                let b = sub_complex(u, v);
                proof {
                    assert(u == x0[start + k]);
                    assert(x@[start + k + half] == x0[start + half + k]);
                    assert(complex_product_outcome(w, x0[start + half + k], v));
                    assert(butterfly_outcome(x0[start + k], x0[start + half + k], tw[st as int][k as int], a, b));
                }
                x.set(start + k, a);
                x.set(start + k + half, b);
                k = k + 1;
            }
            proof {
                let h = half as int;
                let r = x@.subrange(start as int, start + len);
                let left = x0.subrange(start as int, start + h);
                let right = x0.subrange(start + h, start + len);
                lemma_stage_input_halves(s, total, st, q);
                assert(left == x0.subrange((2 * q) * pow2(st), (2 * q) * pow2(st) + pow2(st)));
                assert(right == x0.subrange((2 * q + 1) * pow2(st), (2 * q + 1) * pow2(st) + pow2(st)));
                assert forall|j: int| 0 <= j < pow2(st) implies #[trigger] butterfly_outcome(
                    left[j],
                    right[j],
                    tw[st as int][j],
                    r[j],
                    r[j + pow2(st)],
                ) by {
                    assert(butterfly_outcome(x0[start + j], x0[start + half + j], tw[st as int][j], x@[start + j], x@[start + half + j]));
                }
                lemma_radix2_combine(stage_input(s, total, st + 1, q), tw, st, left, right, r);
                assert(block_done(s, tw, total, st + 1, x@, q));
                assert forall|p: int| 0 <= p < q + 1 implies #[trigger] block_done(s, tw, total, st + 1, x@, p) by {
                    if p < q {
                        assert(block_done(s, tw, total, st + 1, x0, p));
                        assert(p * len + len <= start) by (nonlinear_arith)
                            requires p < q, start == q * len, len > 0;
                        assert(0 <= p * len) by (nonlinear_arith)
                            requires 0 <= p, len > 0;
                        assert(x@.subrange(p * len, p * len + len) =~= x0.subrange(p * len, p * len + len));
                    }
                }
                assert forall|p: int| 2 * (q + 1) <= p < 2 * blocks implies #[trigger] block_done(s, tw, total, st, x@, p) by {
                    assert(block_done(s, tw, total, st, x0, p));
                    assert(p * h >= start + len) by (nonlinear_arith)
                        requires p >= 2 * q + 2, start == q * len, len == 2 * h, h > 0;
                    assert(p * h + h <= n) by (nonlinear_arith)
                        requires p < 2 * blocks, n == len * blocks, len == 2 * h, h > 0;
                    assert(x@.subrange(p * h, p * h + h) =~= x0.subrange(p * h, p * h + h));
                }
            }
            start = start + len;
            proof {
                q = q + 1;
            }
        }
        proof {
            if q < blocks {
                assert(q * len < blocks * len) by (nonlinear_arith)
                    requires q < blocks, len > 0;
            }
            assert((total - (st + 1)) as nat == (total - st - 1) as nat);
        }
        half = len;
        stage = stage + 1;
    }
    proof {
        if (stage as nat) < total {
            lemma_pow2_strictly_increases(stage as nat, total);
        }
        assert(stage as nat == total);
        lemma2_to64();
        assert(block_done(s, tw, total, total, x@, 0));
        lemma_stage_last(s, tw, total, x@);
    }
    x
}


// ---------------------------------------------------------------------------
// Zero padding
// ---------------------------------------------------------------------------

/// The padded length is a fixed point: a power of two `len` is the only length that
/// padding a signal of `len` samples can give, so padding a padded signal leaves it
/// unchanged.
pub proof fn lemma_padded_length_unique(len: nat, padded_len: nat)
    requires
        is_power_of_two(len),
        is_power_of_two(padded_len),
        len <= padded_len,
        padded_len == 1 || padded_len < 2 * len,
    ensures
        padded_len == len,
{
    let a = choose|m: nat| pow2(m) == len;
    let b = choose|m: nat| pow2(m) == padded_len;
    if a < b {
        lemma_pow2_strictly_increases(a, b);
        lemma_pow2_unfold(b);
        if a + 1 < b {
            lemma_pow2_strictly_increases(a, (b - 1) as nat);
        }
        lemma_pow2_pos(a);
        assert(padded_len >= 2 * len);
    } else if b < a {
        lemma_pow2_strictly_increases(b, a);
    }
}

/// Pads `signal` with `zero` up to the next power of two: the result has the length
/// of the smallest power of two that is at least `signal.len()` (and at least 1, so
/// an empty signal becomes one `zero`), starts with the signal, and is `zero` after it.
///
/// The power of two must fit in a `usize`.
pub fn zero_pad_to_power2<T: Copy>(signal: &[T], zero: T) -> (padded: Vec<T>)
    requires
        signal@.len() <= usize::MAX / 2 + 1,
    ensures
        is_power_of_two(padded@.len() as nat),
        signal@.len() <= padded@.len(),
        padded@.len() == 1 || padded@.len() < 2 * signal@.len(),
        forall|i: int| 0 <= i < signal@.len() ==> #[trigger] padded@[i] == signal@[i],
        forall|i: int| signal@.len() <= i < padded@.len() ==> #[trigger] padded@[i] == zero,
{
    let n = signal.len();
    let mut target: usize = 1;
    let ghost mut e: nat = 0;
    proof {
        lemma2_to64();
    }
    while target < n
        invariant
            n == signal@.len(),
            n <= usize::MAX / 2 + 1,
            target == pow2(e),
            target >= 1,
            target == 1 || target < 2 * n,
        decreases 2 * n - target,
    {
        proof {
            lemma_pow2_unfold(e + 1);
        }
        target = target * 2;
        proof {
            e = e + 1;
        }
    }
    let mut padded = vstd::slice::slice_to_vec(signal);
    while padded.len() < target
        invariant
            n == signal@.len(),
            n <= padded@.len() <= target,
            forall|i: int| 0 <= i < n ==> #[trigger] padded@[i] == signal@[i],
            forall|i: int| n <= i < padded@.len() ==> #[trigger] padded@[i] == zero,
        decreases target - padded@.len(),
    {
        padded.push(zero);
    }
    proof {
        assert(is_power_of_two(padded@.len() as nat)) by {
            assert(pow2(e) == padded@.len());
        }
    }
    padded
}

} // verus!
