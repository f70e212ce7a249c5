//! The mathematical model that the contracts of [`crate::misc::utils`] are
//! stated over.

use vstd::prelude::*;

verus! {

/// Number of values that a fixed-step range holds.
///
/// Counting up, it is the number of multiples of `step` that fit strictly
/// before `stop - start`; counting down, the same with the signs swapped. A
/// range whose start already lies at or beyond `stop` is empty, and so is one
/// with a step of zero, which no generator accepts.
pub open spec fn arange_len(start: int, stop: int, step: int) -> nat {
    if step > 0 && start < stop {
        ((stop - start + step - 1) / step) as nat
    } else if step < 0 && start > stop {
        ((start - stop - step - 1) / (-step)) as nat
    } else {
        0
    }
}

/// `values` is the range `start, start + step, start + 2 * step, ...` that
/// ends just before `stop`.
pub open spec fn is_arange(values: Seq<i32>, start: int, stop: int, step: int) -> bool {
    &&& values.len() == arange_len(start, stop, step)
    &&& forall|k: int| 0 <= k < values.len() ==> #[trigger] values[k] == start + k * step
}

/// `values` starts at `first`, and every later element is what `advance` made
/// of the element before it.
pub open spec fn is_progression<T, F: Fn(T) -> T>(values: Seq<T>, first: T, advance: F) -> bool {
    &&& values.len() > 0 ==> values[0] == first
    &&& forall|i: int|
        0 < i < values.len() ==> call_ensures(advance, (values[i - 1],), #[trigger] values[i])
}

/// `values` holds `samples` elements spaced by `advance` from `start` on.
///
/// With `include_end` the last element is `stop` itself, whatever the
/// stepping arrived at, and the elements before it are spaced from `start`.
pub open spec fn is_linspace<T, F: Fn(T) -> T>(
    values: Seq<T>,
    start: T,
    stop: T,
    samples: nat,
    include_end: bool,
    advance: F,
) -> bool {
    &&& values.len() == samples
    &&& if include_end && samples > 0 {
        values.last() == stop && is_progression(values.drop_last(), start, advance)
    } else {
        is_progression(values, start, advance)
    }
}

/// `base` written out `repeats` times in a row.
pub open spec fn tiled<T>(base: Seq<T>, repeats: nat) -> Seq<T> {
    Seq::new(base.len() * repeats, |i: int| base[i % (base.len() as int)])
}

/// `values` is one cycle of `samples` elements, spaced by `advance` from
/// `start` on, written out `repeats` times in a row.
pub open spec fn is_linspace_repeated<T, F: Fn(T) -> T>(
    values: Seq<T>,
    start: T,
    samples: nat,
    repeats: nat,
    advance: F,
) -> bool {
    &&& values.len() == samples * repeats
    &&& repeats > 0 ==> is_progression(values.take(samples as int), start, advance)
    &&& repeats > 0 ==> values == tiled(values.take(samples as int), repeats)
}

/// `advance` allows exactly one result for each argument.
pub open spec fn is_single_valued<T, F: Fn(T) -> T>(advance: F) -> bool {
    forall|x: T, y: T, z: T|
        call_ensures(advance, (x,), y) && call_ensures(advance, (x,), z) ==> y == z
}

} // verus!
