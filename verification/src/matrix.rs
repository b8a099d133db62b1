//! Helpers over ordered sequences of scalars: sample counts for stepped
//! ranges, uniformly spaced lists, element-wise clipping and integer powers.

use vstd::prelude::*;
use vstd::math::abs;
use vstd::arithmetic::div_mod::{
    lemma_div_is_ordered_by_denominator, lemma_div_nonincreasing, lemma_div_pos_is_pos,
    lemma_fundamental_div_mod, lemma_mod_division_less_than_divisor,
};
use vstd::arithmetic::power::{
    lemma0_pow, lemma1_pow, lemma_pow0, lemma_pow1, lemma_pow_adds, lemma_pow_distributes,
    lemma_pow_increases, lemma_pow_positive, pow,
};

verus! {

/// A stepped range is degenerate when the step is zero, the range is empty,
/// or the step points away from the end; the sample count is then fixed at 1.
pub open spec fn size_range_degenerate(start: int, end: int, step: int) -> bool {
    step == 0 || end == start || (end > start && step < 0) || (end < start && step > 0)
}

/// Number of whole steps laid from `start` towards `end`, counting one more
/// when the last whole step stops short of `end`.
pub open spec fn spec_whole_steps(start: int, end: int, step: int) -> int
    recommends
        !size_range_degenerate(start, end, step),
{
    let n = abs(end - start) as int / abs(step) as int;
    if start + n * step < end {
        n + 1
    } else {
        n
    }
}

/// Inclusive sample count of the range from `start` to `end` with `step`:
/// one sample at `start`, then one per whole step, with one more when the
/// last whole step stops short of `end`; 1 for a degenerate range.
pub open spec fn spec_size_range_with_step(start: int, end: int, step: int) -> int {
    if size_range_degenerate(start, end, step) {
        1
    } else {
        spec_whole_steps(start, end, step) + 1
    }
}

/// Compute the number of samples required to go from `start` to `end` with
/// `step`, the end point included even when the last step towards it is
/// smaller than `step`. Degenerate inputs (zero step, empty range, step
/// pointing away from the end) give the single sample at `start`.
pub fn size_range_with_step(start: i64, end: i64, step: i64) -> (size: usize)
    requires
        -(i64::MAX as int) <= end - start <= i64::MAX as int,
        spec_size_range_with_step(start as int, end as int, step as int) <= usize::MAX as int,
    ensures
        size as int == spec_size_range_with_step(start as int, end as int, step as int),
{
    let diff: i64 = end - start;
    if step == 0 || diff == 0 || (diff > 0 && step < 0) || (diff < 0 && step > 0) {
        return 1;
    }
    let ghost a: int = abs(diff as int) as int;
    let ghost b: int = abs(step as int) as int;
    proof {
        lemma_div_pos_is_pos(a, b);
        lemma_div_nonincreasing(a, b);
        lemma_fundamental_div_mod(a, b);
        lemma_mod_division_less_than_divisor(a, b);
        assert(0 <= (a / b) * b <= a) by (nonlinear_arith)
            requires
                0 <= a / b,
                b > 0,
                a == b * (a / b) + a % b,
                0 <= a % b,
        {}
    }
    let n: i64 = diff.checked_div(step).unwrap();
    proof {
        assert(n == a / b);
        assert((n as int) * (step as int) == if step > 0 {
            (a / b) * b
        } else {
            -((a / b) * b)
        }) by (nonlinear_arith)
            requires
                n == a / b,
                b == abs(step as int),
                step != 0,
        {}
    }
    if start + n * step < end {
        let nu: usize = n as usize;
        nu + 2
    } else {
        let nu: usize = n as usize;
        nu + 1
    }
}

/// The sample count of a range whose span fits in a machine word stays
/// within one more than that word: at most one sample per whole step plus
/// the two end samples, and an overshooting range needs a step of at least
/// two units.
proof fn lemma_size_range_bound(start: int, end: int, step: int)
    requires
        abs(end - start) <= i64::MAX as int,
    ensures
        spec_size_range_with_step(start, end, step) - 1 <= i64::MAX as int,
{
    if !size_range_degenerate(start, end, step) {
        let a = abs(end - start) as int;
        let b = abs(step) as int;
        let n = a / b;
        let r = a % b;
        lemma_div_pos_is_pos(a, b);
        lemma_div_nonincreasing(a, b);
        lemma_fundamental_div_mod(a, b);
        lemma_mod_division_less_than_divisor(a, b);
        assert(n * b == a - r) by (nonlinear_arith)
            requires
                a == b * n + r,
        ;
        assert(n * step == if step > 0 {
            n * b
        } else {
            -(n * b)
        }) by (nonlinear_arith)
            requires
                step != 0,
                b == abs(step),
                n >= 0,
        ;
        if start + n * step < end {
            assert(step > 0);
            assert(r > 0);
            assert(b >= 2);
            lemma_div_is_ordered_by_denominator(a, 2, b);
            lemma_fundamental_div_mod(a, 2);
            lemma_mod_division_less_than_divisor(a, 2);
            assert(n + 1 <= i64::MAX as int);
        }
    }
}

/// Value of sample `j` of the list from `start` to `end` with `step`: the
/// samples step uniformly away from `start`, except that a final sample
/// that would pass `end` is clamped to exactly `end`.
pub open spec fn spec_linspace_at(start: int, end: int, step: int, j: int) -> int {
    let raw = start + j * step;
    if j == spec_size_range_with_step(start, end, step) - 1 && raw > end {
        end
    } else {
        raw
    }
}

/// Create the list from `start` to `end` with `step`. The last step can be
/// smaller than `step`, so that the list always ends exactly at `end` when
/// the range is not degenerate.
pub fn linspace(start: i64, end: i64, step: i64) -> (list: Vec<i64>)
    requires
        -(i64::MAX as int) <= end - start <= i64::MAX as int,
        spec_size_range_with_step(start as int, end as int, step as int) <= usize::MAX as int,
        forall|j: int|
            0 <= j < spec_size_range_with_step(start as int, end as int, step as int) ==> (i64::MIN
                <= #[trigger] (j * step) <= i64::MAX && i64::MIN <= start + j * step <= i64::MAX),
    ensures
        list@.len() == spec_size_range_with_step(start as int, end as int, step as int),
        forall|j: int|
            0 <= j < list@.len() ==> #[trigger] (list@[j]) as int == spec_linspace_at(
                start as int,
                end as int,
                step as int,
                j,
            ),
{
    let size: usize = size_range_with_step(start, end, step);
    proof {
        lemma_size_range_bound(start as int, end as int, step as int);
    }
    let mut list: Vec<i64> = Vec::new();
    let mut j: usize = 0;
    while j < size
        invariant
            j <= size,
            size as int == spec_size_range_with_step(start as int, end as int, step as int),
            size >= 1,
            size - 1 <= i64::MAX,
            forall|k: int|
                0 <= k < size ==> (i64::MIN <= #[trigger] (k * step) <= i64::MAX && i64::MIN
                    <= start + k * step <= i64::MAX),
            list@.len() == j,
            forall|k: int|
                0 <= k < j ==> #[trigger] (list@[k]) as int == spec_linspace_at(
                    start as int,
                    end as int,
                    step as int,
                    k,
                ),
        decreases size - j,
    {
        proof {
            assert(i64::MIN <= (j as int) * (step as int) <= i64::MAX && i64::MIN <= start + (
            j as int) * (step as int) <= i64::MAX);
            assert((step as int) * (j as int) == (j as int) * (step as int)) by (nonlinear_arith);
        }
        let ji: i64 = j as i64;
        let raw: i64 = start + step * ji;
        if j == size - 1 && raw > end {
            list.push(end);
        } else {
            list.push(raw);
        }
        j = j + 1;
    }
    list
}

/// LAW. Over a forward range (`start < end`, `step > 0`) the uniformly
/// spaced list starts exactly at `start`, ends exactly at `end`, never
/// decreases from one sample to the next, and holds at least two samples;
/// its length is the inclusive sample count of the range.
pub proof fn lemma_linspace_endpoints(start: int, end: int, step: int)
    requires
        start < end,
        step > 0,
    ensures
        spec_size_range_with_step(start, end, step) >= 2,
        spec_linspace_at(start, end, step, 0) == start,
        spec_linspace_at(start, end, step, spec_size_range_with_step(start, end, step) - 1)
            == end,
        forall|j: int|
            0 <= j < spec_size_range_with_step(start, end, step) - 1 ==> #[trigger]
            spec_linspace_at(start, end, step, j) <= spec_linspace_at(start, end, step, j + 1),
        forall|j: int|
            0 <= j < spec_size_range_with_step(start, end, step) - 1 ==> #[trigger]
            spec_linspace_at(start, end, step, j) == start + j * step,
{
    let a = end - start;
    let b = step;
    let n = a / b;
    let r = a % b;
    lemma_div_pos_is_pos(a, b);
    lemma_fundamental_div_mod(a, b);
    lemma_mod_division_less_than_divisor(a, b);
    assert(!size_range_degenerate(start, end, step));
    assert(abs(a) == a && abs(b) == b);
    assert(n * b == a - r) by (nonlinear_arith)
        requires
            a == b * n + r,
    ;
    assert(start + n * b == end - r);
    assert((n + 1) * b == n * b + b) by (nonlinear_arith);
    let size = spec_size_range_with_step(start, end, step);
    if start + n * b < end {
        // the whole steps stop short of `end`: one extra, clamped, sample
        assert(r > 0);
        assert(size == n + 2);
        assert(start + (n + 1) * b == end - r + b > end);
        assert(spec_linspace_at(start, end, step, size - 1) == end);
    } else {
        // the whole steps land exactly on `end`
        assert(r == 0);
        assert(start + n * b == end);
        assert(n >= 1) by (nonlinear_arith)
            requires
                n * b == end - start - r,
                r == 0,
                start < end,
                b > 0,
                n >= 0,
        ;
        assert(size == n + 1);
        assert(spec_linspace_at(start, end, step, size - 1) == end);
    }
    assert(spec_linspace_at(start, end, step, 0) == start);
    assert forall|j: int| 0 <= j < size - 1 implies #[trigger] spec_linspace_at(start, end, step, j)
        <= spec_linspace_at(start, end, step, j + 1) by {
        assert(j <= n);
        assert((j + 1) * b == j * b + b) by (nonlinear_arith);
        assert(j * b <= n * b) by (nonlinear_arith)
            requires
                b > 0,
                j <= n,
        ;
    }
}

/// Value of `x` saturated at the optional bounds: the lower bound is
/// applied first, then the upper one, so with crossed bounds the upper
/// bound wins.
pub open spec fn spec_clip(x: int, min: Option<i64>, max: Option<i64>) -> int {
    let floored = match min {
        Option::Some(lo) => if x < lo {
            lo as int
        } else {
            x
        },
        Option::None => x,
    };
    match max {
        Option::Some(hi) => if floored > hi {
            hi as int
        } else {
            floored
        },
        Option::None => floored,
    }
}

/// Clip all elements of a list between `min` and `max`. A `None` value
/// indicates no limit on that side, so with both bounds absent the list
/// comes back unchanged.
pub fn clip(list: &Vec<i64>, min: Option<i64>, max: Option<i64>) -> (res: Vec<i64>)
    ensures
        res@.len() == list@.len(),
        forall|i: int|
            0 <= i < list@.len() ==> #[trigger] (res@[i]) as int == spec_clip(
                list@[i] as int,
                min,
                max,
            ),
{
    let mut res: Vec<i64> = Vec::new();
    let mut i: usize = 0;
    while i < list.len()
        invariant
            i <= list@.len(),
            res@.len() == i,
            forall|k: int|
                0 <= k < i ==> #[trigger] (res@[k]) as int == spec_clip(list@[k] as int, min, max),
        decreases list@.len() - i,
    {
        let mut element: i64 = list[i];
        if let Some(lo) = min {
            if element < lo {
                element = lo;
            }
        }
        if let Some(hi) = max {
            if element > hi {
                element = hi;
            }
        }
        res.push(element);
        i = i + 1;
    }
    res
}

/// Powers of minus one alternate between one and minus one.
proof fn lemma_pow_neg_one(e: nat)
    ensures
        pow(-1, e) == 1 || pow(-1, e) == -1,
    decreases e,
{
    reveal(pow);
    if e > 0 {
        lemma_pow_neg_one((e - 1) as nat);
    }
}

/// A power of a negated base splits into a sign factor and the power of
/// the base itself.
proof fn lemma_pow_neg_base(m: int, e: nat)
    ensures
        pow(-m, e) == pow(-1, e) * pow(m, e),
{
    lemma_pow_distributes(-1, m, e);
}

/// Every power along the way to `pow(x, k)` stays within the machine
/// range that holds the final power: bases other than 0, 1 and minus 1
/// only grow in magnitude as the exponent rises.
proof fn lemma_pow_within_i64(x: int, j: nat, k: nat)
    requires
        j <= k,
        i64::MIN <= pow(x, k) <= i64::MAX,
    ensures
        i64::MIN <= pow(x, j) <= i64::MAX,
{
    if j == k {
    } else if x == 0 {
        lemma_pow0(x);
        if j > 0 {
            lemma0_pow(j);
        }
    } else if x == 1 {
        lemma1_pow(j);
    } else if x == -1 {
        lemma_pow_neg_one(j);
    } else {
        let m = if x > 0 {
            x
        } else {
            -x
        };
        lemma_pow_positive(m, j);
        lemma_pow_positive(m, k);
        lemma_pow_increases(m as nat, j, k);
        lemma_pow_adds(m, j, 1);
        lemma_pow1(m);
        assert(pow(m, (j + 1) as nat) == pow(m, j) * m);
        assert(pow(m, j) * m >= 2 * pow(m, j)) by (nonlinear_arith)
            requires
                m >= 2,
                pow(m, j) > 0,
        ;
        lemma_pow_increases(m as nat, j + 1, k);
        if x < 0 {
            lemma_pow_neg_base(m, j);
            lemma_pow_neg_base(m, k);
            lemma_pow_neg_one(j);
            lemma_pow_neg_one(k);
        }
    }
}

/// Compute the element-wise integer power of a list.
pub fn pows(list: &Vec<i64>, power: i32) -> (res: Vec<i64>)
    requires
        power >= 0,
        forall|i: int|
            0 <= i < list@.len() ==> i64::MIN <= #[trigger] pow(list@[i] as int, power as nat)
                <= i64::MAX,
    ensures
        res@.len() == list@.len(),
        forall|i: int|
            0 <= i < list@.len() ==> #[trigger] (res@[i]) as int == pow(
                list@[i] as int,
                power as nat,
            ),
{
    let p: u32 = power as u32;
    let mut res: Vec<i64> = Vec::new();
    let mut i: usize = 0;
    while i < list.len()
        invariant
            i <= list@.len(),
            res@.len() == i,
            p as nat == power as nat,
            forall|i2: int|
                0 <= i2 < list@.len() ==> i64::MIN <= #[trigger] pow(list@[i2] as int, power as nat)
                    <= i64::MAX,
            forall|k: int|
                0 <= k < i ==> #[trigger] (res@[k]) as int == pow(list@[k] as int, power as nat),
        decreases list@.len() - i,
    {
        let x: i64 = list[i];
        proof {
            assert(i64::MIN <= pow(list@[i as int] as int, power as nat) <= i64::MAX);
        }
        let mut acc: i64 = 1;
        let mut e: u32 = 0;
        proof {
            lemma_pow0(x as int);
        }
        while e < p
            invariant
                e <= p,
                acc as int == pow(x as int, e as nat),
                i64::MIN <= pow(x as int, p as nat) <= i64::MAX,
            decreases p - e,
        {
            proof {
                lemma_pow_within_i64(x as int, (e + 1) as nat, p as nat);
                lemma_pow_adds(x as int, e as nat, 1);
                lemma_pow1(x as int);
            }
            acc = acc.checked_mul(x).unwrap();
            e = e + 1;
        }
        res.push(acc);
        i = i + 1;
    }
    res
}

/// LAW. Raising every element to the power zero gives all ones, and
/// raising every element to the power one gives the element back.
pub proof fn lemma_pows_unit_powers(l: Seq<i64>)
    ensures
        forall|i: int| 0 <= i < l.len() ==> #[trigger] pow(l[i] as int, 0) == 1,
        forall|i: int| 0 <= i < l.len() ==> #[trigger] pow(l[i] as int, 1) == l[i] as int,
{
    assert forall|i: int| 0 <= i < l.len() implies #[trigger] pow(l[i] as int, 0) == 1 by {
        lemma_pow0(l[i] as int);
    }
    assert forall|i: int| 0 <= i < l.len() implies #[trigger] pow(l[i] as int, 1) == l[i] as int by {
        lemma_pow1(l[i] as int);
    }
}

/// LAW. When both bounds are present and ordered, every clipped element
/// lies within the closed interval they delimit.
pub proof fn lemma_clip_within_bounds(l: Seq<i64>, lo: i64, hi: i64)
    requires
        lo <= hi,
    ensures
        forall|i: int|
            0 <= i < l.len() ==> lo <= #[trigger] spec_clip(l[i] as int, Some(lo), Some(hi)) <= hi,
{
}

/// LAW. With both bounds absent, clipping leaves every element unchanged.
pub proof fn lemma_clip_no_bounds_identity(l: Seq<i64>)
    ensures
        forall|i: int|
            0 <= i < l.len() ==> #[trigger] spec_clip(l[i] as int, None, None) == l[i] as int,
{
}

} // verus!
