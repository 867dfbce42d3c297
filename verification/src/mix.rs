//! The mixdown: each contribution is halved and added to the aggregate,
//! which clips at full scale.

use vstd::prelude::*;
use crate::buffer::{silence, AudioBuffer};

verus! {

/// Half of a sample, rounded toward negative infinity.
pub open spec fn halved(sample: i32) -> int {
    sample as int / 2
}

/// `value` held to the range of a sample.
pub open spec fn clipped(value: int) -> i32 {
    if value > i32::MAX {
        i32::MAX
    } else if value < i32::MIN {
        i32::MIN
    } else {
        value as i32
    }
}

/// The aggregate sample after one more contribution: the sum of the
/// aggregate so far and half the contribution, clipped at full scale.
pub open spec fn mixed(aggregate: i32, contribution: i32) -> i32 {
    clipped(aggregate + halved(contribution))
}

/// The aggregate after one more shadow buffer was mixed in.
pub open spec fn mix_in(aggregate: Seq<i32>, shadow: Seq<i32>) -> Seq<i32> {
    Seq::new(aggregate.len(), |i: int| mixed(aggregate[i], shadow[i]))
}

/// The mixdown of `shadows` into an aggregate of `len` samples: silence,
/// then each shadow buffer mixed in, the first one first.
pub open spec fn mixdown(shadows: Seq<Seq<i32>>, len: nat) -> Seq<i32>
    decreases shadows.len(),
{
    if shadows.len() == 0 {
        silence(len)
    } else {
        mix_in(mixdown(shadows.drop_last(), len), shadows.last())
    }
}

/// A mixdown has the length asked for.
pub proof fn lemma_mixdown_len(shadows: Seq<Seq<i32>>, len: nat)
    ensures
        mixdown(shadows, len).len() == len,
    decreases shadows.len(),
{
    if shadows.len() > 0 {
        lemma_mixdown_len(shadows.drop_last(), len);
    }
}

/// Halving rounds down: twice the half is the sample itself or one less.
pub proof fn lemma_halved_rounds_down(sample: i32)
    ensures
        2 * halved(sample) <= sample <= 2 * halved(sample) + 1,
        i32::MIN <= halved(sample) <= i32::MAX,
{
}

/// Two contributions never clip: their halves sum within full scale.
pub proof fn lemma_two_inputs_never_clip(first: i32, second: i32)
    ensures
        mixed(mixed(0, first), second) == halved(first) + halved(second),
{
}

/// Whether every sample of `shadow` halves to zero, so that mixing the
/// buffer in changes nothing.
pub open spec fn contributes_nothing(shadow: Seq<i32>) -> bool {
    forall|i: int| 0 <= i < shadow.len() ==> halved(#[trigger] shadow[i]) == 0
}

/// A mixdown is the same without a shadow buffer that contributes nothing.
pub proof fn lemma_mixdown_without_silent(shadows: Seq<Seq<i32>>, place: int, len: nat)
    requires
        0 <= place < shadows.len(),
        shadows[place].len() == len,
        contributes_nothing(shadows[place]),
    ensures
        mixdown(shadows.remove(place), len) == mixdown(shadows, len),
    decreases shadows.len(),
{
    let front = shadows.drop_last();
    lemma_mixdown_len(front, len);
    if place == shadows.len() - 1 {
        assert(shadows.remove(place) =~= front);
        assert(mix_in(mixdown(front, len), shadows.last()) =~= mixdown(front, len));
    } else {
        lemma_mixdown_without_silent(front, place, len);
        assert(shadows.remove(place).drop_last() =~= front.remove(place));
        assert(shadows.remove(place).last() == shadows.last());
    }
}

/// Half of `sample`, by an arithmetic right shift.
pub fn halve(sample: i32) -> (half: i32)
    ensures
        half == halved(sample),
{
    let half = sample >> 1;
    assert(2 * (sample >> 1) <= sample <= 2 * (sample >> 1) + 1) by (bit_vector);
    half
}

/// Adds half of `contribution` to `aggregate`, clipping at full scale.
pub fn mix_sample(aggregate: i32, contribution: i32) -> (sum: i32)
    ensures
        sum == mixed(aggregate, contribution),
{
    let half = halve(contribution);
    if half > 0 && aggregate > i32::MAX - half {
        i32::MAX
    } else if half < 0 && aggregate < i32::MIN - half {
        i32::MIN
    } else {
        aggregate + half
    }
}

/// Mixes `shadow` into `aggregate`, sample by sample.
pub fn mix_into(aggregate: &mut AudioBuffer, shadow: &AudioBuffer)
    requires
        shadow@.len() == old(aggregate)@.len(),
    ensures
        final(aggregate)@ == mix_in(old(aggregate)@, shadow@),
{
    let n = aggregate.len();
    let mut i: usize = 0;
    while i < n
        invariant
            i <= n,
            n == aggregate@.len(),
            n == shadow@.len(),
            n == old(aggregate)@.len(),
            forall|j: int| 0 <= j < i ==> aggregate@[j] == mixed(old(aggregate)@[j], shadow@[j]),
            forall|j: int| i <= j < n ==> aggregate@[j] == old(aggregate)@[j],
        decreases n - i,
    {
        let a = aggregate.get(i).unwrap();
        let s = shadow.get(i).unwrap();
        aggregate.set(i, mix_sample(a, s));
        i += 1;
    }
    assert(aggregate@ =~= mix_in(old(aggregate)@, shadow@));
}

} // verus!
