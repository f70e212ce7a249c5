//! Facts about the model: the statements that hold of every input, and the
//! arithmetic that the generators rely on.

use vstd::arithmetic::div_mod::{
    lemma_fundamental_div_mod, lemma_fundamental_div_mod_converse, lemma_mod_bound,
};
use vstd::prelude::*;
use crate::misc::model::{
    arange_len, is_linspace, is_linspace_repeated, is_progression, is_single_valued, tiled,
};

verus! {

/// A count `n` whose last value lies before `stop` and whose next value does
/// not is the length of the ascending range.
pub(crate) proof fn lemma_count_up(start: int, stop: int, step: int, n: int)
    requires
        step > 0,
        n >= 0,
        start + n * step >= stop,
        n > 0 ==> start + (n - 1) * step < stop,
    ensures
        n == arange_len(start, stop, step),
{
    if n == 0 {
        assert(0 * step == 0);
    } else {
        assert(start < stop) by (nonlinear_arith)
            requires
                start + (n - 1) * step < stop,
                n > 0,
                step > 0,
        ;
        let x: int = stop - start + step - 1;
        let r: int = x - n * step;
        assert((n - 1) * step == n * step - step) by (nonlinear_arith);
        lemma_fundamental_div_mod_converse(x, step, n, r);
    }
}

/// The mirror image of [`lemma_count_up`] for a descending range.
pub(crate) proof fn lemma_count_down(start: int, stop: int, step: int, n: int)
    requires
        step < 0,
        n >= 0,
        start + n * step <= stop,
        n > 0 ==> start + (n - 1) * step > stop,
    ensures
        n == arange_len(start, stop, step),
{
    if n == 0 {
        assert(0 * step == 0);
    } else {
        assert(start > stop) by (nonlinear_arith)
            requires
                start + (n - 1) * step > stop,
                n > 0,
                step < 0,
        ;
        let x: int = start - stop - step - 1;
        let r: int = x - n * (-step);
        assert((n - 1) * step == n * step - step) by (nonlinear_arith);
        assert(n * (-step) == -(n * step)) by (nonlinear_arith);
        lemma_fundamental_div_mod_converse(x, -step, n, r);
    }
}

/// Every value of an ascending range lies in `[start, stop)`, and every value
/// of a descending one in `(stop, start]`: the end of the range is exclusive
/// in both directions.
pub proof fn lemma_arange_stays_before_stop(start: int, stop: int, step: int, k: int)
    requires
        step != 0,
        0 <= k < arange_len(start, stop, step),
    ensures
        step > 0 ==> start <= start + k * step < stop,
        step < 0 ==> stop < start + k * step <= start,
{
    let n: int = arange_len(start, stop, step) as int;
    if step > 0 {
        let x: int = stop - start + step - 1;
        lemma_fundamental_div_mod(x, step);
        lemma_mod_bound(x, step);
        assert(step * n == n * step) by (nonlinear_arith);
        assert(0 <= k * step <= (n - 1) * step) by (nonlinear_arith)
            requires
                0 <= k <= n - 1,
                step > 0,
        ;
        assert((n - 1) * step == n * step - step) by (nonlinear_arith);
    } else {
        let x: int = start - stop - step - 1;
        lemma_fundamental_div_mod(x, -step);
        lemma_mod_bound(x, -step);
        assert((-step) * n == -(n * step)) by (nonlinear_arith);
        assert(0 >= k * step >= (n - 1) * step) by (nonlinear_arith)
            requires
                0 <= k <= n - 1,
                step < 0,
        ;
        assert((n - 1) * step == n * step - step) by (nonlinear_arith);
    }
}

/// A range is as long as it can be: one more step from its last value would
/// reach `stop` or pass it.
pub proof fn lemma_arange_is_maximal(start: int, stop: int, step: int)
    requires
        step != 0,
    ensures
        step > 0 ==> start + arange_len(start, stop, step) * step >= stop,
        step < 0 ==> start + arange_len(start, stop, step) * step <= stop,
{
    let n: int = arange_len(start, stop, step) as int;
    if step > 0 && start < stop {
        let x: int = stop - start + step - 1;
        lemma_fundamental_div_mod(x, step);
        lemma_mod_bound(x, step);
        assert(step * n == n * step) by (nonlinear_arith);
    } else if step < 0 && start > stop {
        let x: int = start - stop - step - 1;
        lemma_fundamental_div_mod(x, -step);
        lemma_mod_bound(x, -step);
        assert((-step) * n == -(n * step)) by (nonlinear_arith);
    } else {
        assert(0 * step == 0);
    }
}

/// Reversing twice gives the sequence back.
pub proof fn lemma_reverse_involution<T>(s: Seq<T>)
    ensures
        s.reverse().reverse() == s,
{
    assert(s.reverse().reverse() =~= s);
}

/// Reversing keeps the length, and leaves an empty sequence and a sequence of
/// one element as they are.
pub proof fn lemma_reverse_small<T>(s: Seq<T>)
    ensures
        s.reverse().len() == s.len(),
        s.len() <= 1 ==> s.reverse() == s,
{
    assert(s.len() <= 1 ==> s.reverse() =~= s);
}

/// An empty sequence is neutral for concatenation, on either side.
pub proof fn lemma_concatenate_empty<T>(s: Seq<T>)
    ensures
        s + Seq::<T>::empty() == s,
        Seq::<T>::empty() + s == s,
{
    assert(s + Seq::<T>::empty() =~= s);
    assert(Seq::<T>::empty() + s =~= s);
}

/// Concatenation is associative.
pub proof fn lemma_concatenate_associative<T>(a: Seq<T>, b: Seq<T>, c: Seq<T>)
    ensures
        (a + b) + c == a + (b + c),
{
    assert((a + b) + c =~= a + (b + c));
}

/// Tiling is repeated concatenation: no copy is the empty sequence, and each
/// further repeat appends one more copy of the base.
pub proof fn lemma_tiled_unfold<T>(base: Seq<T>, repeats: nat)
    ensures
        tiled(base, 0) == Seq::<T>::empty(),
        tiled(base, repeats + 1) == tiled(base, repeats) + base,
{
    let n: int = base.len() as int;
    assert(n * 0 == 0);
    assert(tiled(base, 0) =~= Seq::<T>::empty());
    assert(n * (repeats + 1) == n * repeats + n) by (nonlinear_arith);
    let longer: Seq<T> = tiled(base, repeats + 1);
    let appended: Seq<T> = tiled(base, repeats) + base;
    assert forall|i: int| 0 <= i < longer.len() implies longer[i] == appended[i] by {
        if i >= n * repeats {
            assert(repeats * n == n * repeats) by (nonlinear_arith);
            lemma_fundamental_div_mod_converse(i, n, repeats as int, i - n * repeats);
        }
    }
    assert(longer =~= appended);
}

/// Where `advance` is single-valued, a start and a length leave room for one
/// progression only.
pub proof fn lemma_progression_unique<T, F: Fn(T) -> T>(
    a: Seq<T>,
    b: Seq<T>,
    first: T,
    advance: F,
)
    requires
        is_single_valued(advance),
        is_progression(a, first, advance),
        is_progression(b, first, advance),
        a.len() == b.len(),
    ensures
        a == b,
{
    assert forall|i: int| 0 <= i < a.len() implies a[i] == b[i] by {
        lemma_progression_agrees(a, b, first, advance, i);
    }
    assert(a =~= b);
}

proof fn lemma_progression_agrees<T, F: Fn(T) -> T>(
    a: Seq<T>,
    b: Seq<T>,
    first: T,
    advance: F,
    i: int,
)
    requires
        is_single_valued(advance),
        is_progression(a, first, advance),
        is_progression(b, first, advance),
        0 <= i < a.len(),
        i < b.len(),
    ensures
        a[i] == b[i],
    decreases i,
{
    if i > 0 {
        lemma_progression_agrees(a, b, first, advance, i - 1);
        assert(call_ensures(advance, (a[i - 1],), a[i]));
        assert(call_ensures(advance, (b[i - 1],), b[i]));
    }
}

/// A repeated sequence is the inclusive sequence of the same start, length
/// and spacing, written out `repeats` times, provided that the stepping
/// arrives at `stop` exactly.
///
/// The inclusive sequence ends in `stop` by definition, while a cycle of the
/// repeated one ends wherever its last step landed, so the two agree only
/// under that condition. The spacing has to be single-valued for two runs of
/// it to be comparable at all.
pub proof fn lemma_repeated_is_tiled_linspace<T, F: Fn(T) -> T>(
    repeated: Seq<T>,
    inclusive: Seq<T>,
    start: T,
    stop: T,
    samples: nat,
    repeats: nat,
    advance: F,
)
    requires
        is_single_valued(advance),
        is_linspace_repeated(repeated, start, samples, repeats, advance),
        is_linspace(inclusive, start, stop, samples, true, advance),
        samples > 0 && repeats > 0 ==> repeated[samples - 1] == stop,
    ensures
        repeated == tiled(inclusive, repeats),
        repeated.len() == samples * repeats,
{
    if repeats == 0 {
        assert(samples * 0 == 0);
        assert(repeated =~= tiled(inclusive, repeats));
    } else if samples == 0 {
        assert(0 * repeats == 0);
        assert(repeated =~= tiled(inclusive, repeats));
    } else {
        assert(samples * repeats >= samples) by (nonlinear_arith)
            requires
                repeats > 0,
        ;
        let cycle: Seq<T> = repeated.take(samples as int);
        assert(is_progression(cycle.drop_last(), start, advance));
        lemma_progression_unique(cycle.drop_last(), inclusive.drop_last(), start, advance);
        assert(cycle =~= cycle.drop_last().push(cycle.last()));
        assert(inclusive =~= inclusive.drop_last().push(inclusive.last()));
    }
}

} // verus!
