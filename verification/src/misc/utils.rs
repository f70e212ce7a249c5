//! Generators and rearrangements of flat sequences.
//!
//! The spacing generators are generic in the sample type and take the step as
//! a function, so their contracts say which value follows which without
//! fixing an arithmetic. The range generator works on `i32`, and reversal and
//! concatenation on any copyable element.

use vstd::arithmetic::div_mod::{lemma_fundamental_div_mod_converse, lemma_small_mod};
use vstd::prelude::*;
use crate::misc::lemmas::{lemma_count_down, lemma_count_up};
use crate::misc::model::{is_arange, is_linspace, is_linspace_repeated, is_progression, tiled};

verus! {

/// `samples` values, the first of them `start` and each later one made by
/// `advance` from the one before it.
fn progression<T: Copy, F: Fn(T) -> T>(start: T, samples: usize, advance: F) -> (values: Vec<T>)
    requires
        forall|x: T| call_requires(advance, (x,)),
    ensures
        values@.len() == samples,
        is_progression(values@, start, advance),
{
    let mut values: Vec<T> = Vec::with_capacity(samples);
    if samples == 0 {
        return values;
    }
    let mut current: T = start;
    values.push(current);
    let mut count: usize = 1;
    while count < samples
        invariant
            1 <= count <= samples,
            values@.len() == count,
            values@[count - 1] == current,
            forall|x: T| call_requires(advance, (x,)),
            is_progression(values@, start, advance),
        decreases samples - count,
    {
        current = advance(current);
        values.push(current);
        count = count + 1;
    }
    values
}

/// Evenly spaced samples from `start` on, the spacing given by `advance`.
///
/// The result holds `samples` values. The first is `start`, and `advance`
/// makes each further one from the one before it. With `include_end` the last
/// value is replaced by `stop`, so that the end of the interval is hit exactly
/// however the stepping drifted; a single sample is then `stop` alone.
///
/// The sample type is left open: the caller supplies the addition of the
/// step, and the contract holds for whatever rounding that addition has.
pub fn linspace_by<T: Copy, F: Fn(T) -> T>(
    start: T,
    stop: T,
    samples: usize,
    include_end: bool,
    advance: F,
) -> (values: Vec<T>)
    requires
        forall|x: T| call_requires(advance, (x,)),
    ensures
        is_linspace(values@, start, stop, samples as nat, include_end, advance),
        values@.len() == samples,
        samples == 0 ==> values@ == Seq::<T>::empty(),
        include_end && samples > 0 ==> values@[samples - 1] == stop,
        samples > 1 || (samples == 1 && !include_end) ==> values@[0] == start,
        samples == 1 && include_end ==> values@ == seq![stop],
{
    if samples == 0 {
        return Vec::new();
    }
    let mut values: Vec<T> = progression(start, samples, advance);
    if include_end {
        let ghost spaced: Seq<T> = values@;
        values.set(samples - 1, stop);
        assert(values@.drop_last() =~= spaced.drop_last());
    }
    values
}

/// `base` written out `repeats` times in a row.
fn tile<T: Copy>(base: &[T], repeats: usize) -> (tiles: Vec<T>)
    requires
        base@.len() * repeats <= usize::MAX,
    ensures
        tiles@ == tiled(base@, repeats as nat),
{
    let period: usize = base.len();
    let mut tiles: Vec<T> = Vec::with_capacity(period * repeats);
    let mut round: usize = 0;
    while round < repeats
        invariant
            period == base@.len(),
            round <= repeats,
            tiles@.len() == round * period,
            forall|i: int| 0 <= i < tiles@.len() ==> #[trigger] tiles@[i] == base@[i % (period as int)],
        decreases repeats - round,
    {
        let mut offset: usize = 0;
        while offset < period
            invariant
                period == base@.len(),
                offset <= period,
                tiles@.len() == round * period + offset,
                forall|i: int|
                    0 <= i < tiles@.len() ==> #[trigger] tiles@[i] == base@[i % (period as int)],
            decreases period - offset,
        {
            proof {
                lemma_fundamental_div_mod_converse(
                    round * period + offset,
                    period as int,
                    round as int,
                    offset as int,
                );
            }
            tiles.push(base[offset]);
            offset = offset + 1;
        }
        assert((round + 1) * period == round * period + period) by (nonlinear_arith);
        round = round + 1;
    }
    assert(repeats * period == period * repeats) by (nonlinear_arith);
    assert(tiles@ =~= tiled(base@, repeats as nat));
    tiles
}

/// One cycle of `samples` values, spaced by `advance` from `start` on,
/// written out `repeats` times in a row.
///
/// Every cycle is the same sequence, element for element, and no value is
/// adjusted to meet an end point. With no samples or no repeats the result is
/// empty. The whole has to fit in a vector, so `samples * repeats` may not
/// exceed `usize::MAX`.
pub fn linspace_repeated_by<T: Copy, F: Fn(T) -> T>(
    start: T,
    samples: usize,
    repeats: usize,
    advance: F,
) -> (values: Vec<T>)
    requires
        forall|x: T| call_requires(advance, (x,)),
        samples * repeats <= usize::MAX,
    ensures
        is_linspace_repeated(values@, start, samples as nat, repeats as nat, advance),
        values@.len() == samples * repeats,
        samples == 0 || repeats == 0 ==> values@ == Seq::<T>::empty(),
{
    if samples == 0 || repeats == 0 {
        let nothing: Vec<T> = Vec::new();
        assert(samples * repeats == 0) by (nonlinear_arith)
            requires
                samples == 0 || repeats == 0,
        ;
        assert(samples == 0 ==> nothing@.take(samples as int) =~= nothing@);
        assert(samples == 0 ==> tiled(nothing@, repeats as nat) =~= nothing@);
        return nothing;
    }
    let cycle: Vec<T> = progression(start, samples, advance);
    let values: Vec<T> = tile(cycle.as_slice(), repeats);
    assert(values@.take(samples as int) =~= cycle@) by {
        assert(samples * repeats >= samples) by (nonlinear_arith)
            requires
                repeats > 0,
        ;
        assert forall|i: int| 0 <= i < samples implies values@[i] == cycle@[i] by {
            lemma_small_mod(i as nat, samples as nat);
        }
    }
    values
}

/// Why a requested sequence cannot be generated.
#[derive(Debug, Clone, Copy, PartialEq, Eq)]
pub enum InvalidArgument {
    /// The step of a range was zero, so the range would never reach its end.
    ZeroStep,
}

/// Values from `start` towards `stop` in increments of `step`, `stop` itself
/// excluded.
///
/// A positive step counts up while the value stays below `stop`, a negative
/// step counts down while it stays above. The step must not be zero.
pub fn arange(start: i32, stop: i32, step: i32) -> (values: Vec<i32>)
    requires
        step != 0,
    ensures
        is_arange(values@, start as int, stop as int, step as int),
{
    let mut values: Vec<i32> = Vec::new();
    let mut current: i64 = start as i64;
    let end: i64 = stop as i64;
    let delta: i64 = step as i64;

    assert(values@.len() * step == 0) by (nonlinear_arith)
        requires
            values@.len() == 0,
    ;
    if step > 0 {
        while current < end
            invariant
                delta == step,
                end == stop,
                step > 0,
                current == start + values@.len() * step,
                values@.len() > 0 ==> current - step < stop,
                forall|k: int| 0 <= k < values@.len() ==> #[trigger] values@[k] == start + k * step,
            decreases end + delta - current,
        {
            let ghost n: int = values@.len() as int;
            assert(start <= current) by (nonlinear_arith)
                requires
                    current == start + n * step,
                    n >= 0,
                    step > 0,
            ;
            values.push(current as i32);
            assert((n + 1) * step == n * step + step) by (nonlinear_arith);
            current = current + delta;
        }
        proof {
            let n: int = values@.len() as int;
            assert((n - 1) * step == n * step - step) by (nonlinear_arith);
            lemma_count_up(start as int, stop as int, step as int, n);
        }
    } else {
        while current > end
            invariant
                delta == step,
                end == stop,
                step < 0,
                current == start + values@.len() * step,
                values@.len() > 0 ==> current - step > stop,
                forall|k: int| 0 <= k < values@.len() ==> #[trigger] values@[k] == start + k * step,
            decreases current - end - delta,
        {
            let ghost n: int = values@.len() as int;
            assert(start >= current) by (nonlinear_arith)
                requires
                    current == start + n * step,
                    n >= 0,
                    step < 0,
            ;
            values.push(current as i32);
            assert((n + 1) * step == n * step + step) by (nonlinear_arith);
            current = current + delta;
        }
        proof {
            let n: int = values@.len() as int;
            assert((n - 1) * step == n * step - step) by (nonlinear_arith);
            lemma_count_down(start as int, stop as int, step as int, n);
        }
    }
    values
}

/// [`arange`] for callers that cannot rule out a step of zero: such a step
/// is reported, and nothing is generated for it.
pub fn try_arange(start: i32, stop: i32, step: i32) -> (result: Result<Vec<i32>, InvalidArgument>)
    ensures
        match result {
            Ok(values) => step != 0 && is_arange(values@, start as int, stop as int, step as int),
            Err(reason) => step == 0 && reason == InvalidArgument::ZeroStep,
        },
{
    if step == 0 {
        Err(InvalidArgument::ZeroStep)
    } else {
        Ok(arange(start, stop, step))
    }
}

/// The elements of `arr` in reverse order.
pub fn reverse<T: Copy>(arr: &[T]) -> (reversed: Vec<T>)
    ensures
        reversed@ == arr@.reverse(),
        reversed@.len() == arr@.len(),
        forall|i: int|
            0 <= i < arr@.len() ==> #[trigger] reversed@[i] == arr@[arr@.len() - 1 - i],
{
    let mut reversed: Vec<T> = Vec::with_capacity(arr.len());
    let mut remaining: usize = arr.len();
    while remaining > 0
        invariant
            remaining <= arr@.len(),
            reversed@.len() == arr@.len() - remaining,
            forall|i: int|
                0 <= i < reversed@.len() ==> #[trigger] reversed@[i] == arr@[arr@.len() - 1 - i],
        decreases remaining,
    {
        remaining = remaining - 1;
        reversed.push(arr[remaining]);
    }
    assert(reversed@ =~= arr@.reverse());
    reversed
}

/// The elements of `arr1` followed by those of `arr2`.
///
/// The joined sequence has to fit in a vector, so the two lengths together
/// may not exceed `usize::MAX`.
pub fn concatenate<T: Copy>(arr1: &[T], arr2: &[T]) -> (joined: Vec<T>)
    requires
        arr1@.len() + arr2@.len() <= usize::MAX,
    ensures
        joined@ == arr1@ + arr2@,
        joined@.len() == arr1@.len() + arr2@.len(),
{
    let mut joined: Vec<T> = Vec::with_capacity(arr1.len() + arr2.len());
    let mut i: usize = 0;
    while i < arr1.len()
        invariant
            i <= arr1@.len(),
            joined@ == arr1@.take(i as int),
        decreases arr1@.len() - i,
    {
        joined.push(arr1[i]);
        i = i + 1;
        assert(joined@ =~= arr1@.take(i as int));
    }
    let mut j: usize = 0;
    while j < arr2.len()
        invariant
            j <= arr2@.len(),
            joined@ == arr1@ + arr2@.take(j as int),
        decreases arr2@.len() - j,
    {
        joined.push(arr2[j]);
        j = j + 1;
        assert(joined@ =~= arr1@ + arr2@.take(j as int));
    }
    assert(joined@ =~= arr1@ + arr2@);
    joined
}

} // verus!
