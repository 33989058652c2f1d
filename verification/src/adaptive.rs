//! The delay line of the adaptive filters: the most recent input samples, kept in a
//! circular buffer, that the LMS, NLMS and RLS filters weight.

use vstd::prelude::*;

verus! {

/// A circular buffer holding the last `order` samples pushed into it (initially all
/// equal to a fill value), read back by age: tap 0 is the most recent sample.
#[derive(Debug)]
pub struct DelayLine<T> {
    buffer: Vec<T>,
    idx: usize,
}

/// The buffer slot that holds the sample of age `i`, when the next write goes to slot
/// `idx` of a buffer of `len` slots.
pub open spec fn slot_of_age(idx: int, len: int, i: int) -> int {
    if i < idx {
        idx - 1 - i
    } else {
        idx + len - 1 - i
    }
}

/// The samples of a delay line after pushing `sample` into one holding `samples`
/// (most recent first): the new sample, then all but the oldest of the others.
pub open spec fn pushed<T>(samples: Seq<T>, sample: T) -> Seq<T> {
    seq![sample] + samples.take(samples.len() - 1)
}

/// The samples after pushing each of `inputs` in turn, first to last.
pub open spec fn pushed_all<T>(samples: Seq<T>, inputs: Seq<T>) -> Seq<T>
    decreases inputs.len(),
{
    if inputs.len() == 0 {
        samples
    } else {
        pushed(pushed_all(samples, inputs.drop_last()), inputs.last())
    }
}

/// A delay line is a sliding window over its inputs: after any sequence of pushes it
/// still holds as many samples as before, tap `k` is the `k`-th most recent input
/// while there have been more than `k` inputs, and the remaining taps hold the
/// samples it held before, shifted by the number of inputs.
pub proof fn lemma_pushed_all_window<T>(samples: Seq<T>, inputs: Seq<T>)
    requires
        samples.len() > 0,
    ensures
        pushed_all(samples, inputs).len() == samples.len(),
        forall|k: int|
            0 <= k < samples.len() ==> #[trigger] pushed_all(samples, inputs)[k] == if k < inputs.len() {
                inputs[inputs.len() - 1 - k]
            } else {
                samples[k - inputs.len()]
            },
    decreases inputs.len(),
{
    if inputs.len() > 0 {
        let prefix = inputs.drop_last();
        lemma_pushed_all_window(samples, prefix);
        let before = pushed_all(samples, prefix);
        assert forall|k: int| 0 <= k < samples.len() implies #[trigger] pushed_all(samples, inputs)[k]
            == if k < inputs.len() {
            inputs[inputs.len() - 1 - k]
        } else {
            samples[k - inputs.len()]
        } by {
            if k > 0 {
                assert(pushed_all(samples, inputs)[k] == before[k - 1]);
            }
        }
    }
}

impl<T> View for DelayLine<T> {
    type V = Seq<T>;

    /// The samples, most recent first.
    closed spec fn view(&self) -> Seq<T> {
        Seq::new(
            self.buffer@.len(),
            |i: int| self.buffer@[slot_of_age(self.idx as int, self.buffer@.len() as int, i)],
        )
    }
}

impl<T> DelayLine<T> {
    #[verifier::type_invariant]
    spec fn next_slot_in_range(&self) -> bool {
        if self.buffer@.len() == 0 {
            self.idx == 0
        } else {
            self.idx < self.buffer@.len()
        }
    }
}

impl<T: Copy> Clone for DelayLine<T> {
    /// A delay line holding the same samples.
    fn clone(&self) -> (line: Self)
        ensures
            line@ == self@,
    {
        proof {
            use_type_invariant(self);
        }
        DelayLine { buffer: vstd::slice::slice_to_vec(self.buffer.as_slice()), idx: self.idx }
    }
}

impl<T: Copy> DelayLine<T> {
    /// A delay line of `order` samples, all equal to `fill`.
    pub fn new(order: usize, fill: T) -> (line: Self)
        ensures
            line@ == Seq::new(order as nat, |i: int| fill),
    {
        let mut buffer: Vec<T> = Vec::with_capacity(order);
        let mut i: usize = 0;
        while i < order
            invariant
                i <= order,
                buffer@ == Seq::new(i as nat, |j: int| fill),
            decreases order - i,
        {
            buffer.push(fill);
            i = i + 1;
        }
        let line = DelayLine { buffer, idx: 0 };
        assert(line@ =~= Seq::new(order as nat, |i: int| fill));
        line
    }

    /// The number of samples held.
    pub fn order(&self) -> (n: usize)
        ensures
            n == self@.len(),
    {
        self.buffer.len()
    }

    /// Pushes a new sample: it becomes tap 0, every other sample ages by one, and the
    /// oldest one is dropped.
    pub fn push(&mut self, sample: T)
        requires
            old(self)@.len() > 0,
        ensures
            final(self)@ == pushed(old(self)@, sample),
    {
        proof {
            use_type_invariant(&*self);
        }
        let ghost before = self@;
        let ghost old_buffer = self.buffer@;
        let ghost old_idx = self.idx as int;
        let len = self.buffer.len();
        let i = self.idx;
        let mut taken = DelayLine { buffer: Vec::new(), idx: 0 };
        std::mem::swap(self, &mut taken);
        let DelayLine { buffer: mut buffer, idx: _ } = taken;
        buffer.set(i, sample);
        let next = if i + 1 == len { 0 } else { i + 1 };
        *self = DelayLine { buffer, idx: next };
        proof {
            let l = len as int;
            let after = self@;
            let expected = seq![sample] + before.take(before.len() - 1);
            assert forall|a: int| 0 <= a < l implies #[trigger] after[a] == expected[a] by {
                if a > 0 {
                    assert(slot_of_age(next as int, l, a) == slot_of_age(old_idx, l, a - 1));
                    assert(slot_of_age(old_idx, l, a - 1) != old_idx);
                }
            }
            assert(after =~= expected);
        }
    }

    /// The sample of age `i` (tap 0 is the most recent).
    pub fn tap(&self, i: usize) -> (sample: T)
        requires
            i < self@.len(),
        ensures
            sample == self@[i as int],
    {
        proof {
            use_type_invariant(self);
        }
        let len = self.buffer.len();
        let slot = if i < self.idx { self.idx - 1 - i } else { self.idx + (len - 1 - i) };
        self.buffer[slot]
    }

    /// Sets every sample to `fill`, keeping the order.
    pub fn reset(&mut self, fill: T)
        ensures
            final(self)@ == Seq::new(old(self)@.len(), |i: int| fill),
    {
        let order = self.buffer.len();
        *self = DelayLine::new(order, fill);
    }
}

} // verus!
