use vstd::prelude::*;

use crate::ring_buffer::{RingBuffer, RingBufferIterator};
use crate::sample::{sample_checked_sub, sample_from_i128, sample_to_i128, Sample};

verus! {

/// Whether `x` lies in the range of `i128`.
pub open spec fn fits_i128(x: int) -> bool {
    i128::MIN <= x <= i128::MAX
}

/// Sum of the values of `s`.
pub open spec fn sample_sum<T: Sample>(s: Seq<T>) -> int
    decreases s.len(),
{
    if s.len() == 0 {
        0
    } else {
        sample_sum(s.drop_last()) + s.last().value()
    }
}

/// Sum of the squared distances of the values of `s` from `mean`.
pub open spec fn square_deviation_sum<T: Sample>(s: Seq<T>, mean: T) -> int
    decreases s.len(),
{
    if s.len() == 0 {
        0
    } else {
        square_deviation_sum(s.drop_last(), mean) + (s.last().value() - mean.value()) * (
        s.last().value() - mean.value())
    }
}

/// The last `m` items of `s`, newest first.
pub open spec fn newest_first<T>(s: Seq<T>, m: int) -> Seq<T> {
    Seq::new(m as nat, |i: int| s[s.len() - 1 - i])
}

/// The last `m` items of `s`, oldest first.
pub open spec fn last_items<T>(s: Seq<T>, m: int) -> Seq<T> {
    s.subrange(s.len() - m, s.len() as int)
}

/// Integer division by a positive `b` that rounds towards zero, as `/` on Rust's signed
/// integers does.
pub open spec fn trunc_div(a: int, b: int) -> int {
    if a >= 0 {
        a / b
    } else {
        -((-a) / b)
    }
}

/// Summing `s` one value after another into an `i128` accumulator starting at zero neither
/// meets a value outside `i128` nor overflows.
pub open spec fn sums_fit_i128<T: Sample>(s: Seq<T>) -> bool {
    &&& forall|i: int| 0 <= i < s.len() ==> fits_i128(#[trigger] s[i].value())
    &&& forall|k: int| 0 <= k <= s.len() ==> fits_i128(#[trigger] sample_sum(s.take(k)))
}

/// The distance of `x` from `mean` and its square both lie in the range of `i128`.
pub open spec fn deviation_fits<T: Sample>(x: T, mean: T) -> bool {
    &&& fits_i128(x.value() - mean.value())
    &&& fits_i128((x.value() - mean.value()) * (x.value() - mean.value()))
}

/// Summing the squared distances of `s` from `mean` one after another into an `i128`
/// accumulator starting at zero overflows nowhere.
pub open spec fn square_sums_fit_i128<T: Sample>(s: Seq<T>, mean: T) -> bool {
    &&& forall|i: int| 0 <= i < s.len() ==> #[trigger] deviation_fits(s[i], mean)
    &&& forall|k: int|
        0 <= k <= s.len() ==> fits_i128(#[trigger] square_deviation_sum(s.take(k), mean))
}

proof fn lemma_sum_take_step<T: Sample>(s: Seq<T>, k: int)
    requires
        0 <= k < s.len(),
    ensures
        sample_sum(s.take(k + 1)) == sample_sum(s.take(k)) + s[k].value(),
{
    assert(s.take(k + 1).drop_last() =~= s.take(k));
}

proof fn lemma_square_sum_take_step<T: Sample>(s: Seq<T>, mean: T, k: int)
    requires
        0 <= k < s.len(),
    ensures
        square_deviation_sum(s.take(k + 1), mean) == square_deviation_sum(s.take(k), mean) + (
        s[k].value() - mean.value()) * (s[k].value() - mean.value()),
{
    assert(s.take(k + 1).drop_last() =~= s.take(k));
}

proof fn lemma_newest_first_step<T: Sample>(s: Seq<T>, mean: T, k: int)
    requires
        0 <= k < s.len(),
    ensures
        newest_first(s, k + 1).drop_last() == newest_first(s, k),
        sample_sum(newest_first(s, k + 1)) == sample_sum(newest_first(s, k)) + s[s.len() - 1
            - k].value(),
        square_deviation_sum(newest_first(s, k + 1), mean) == square_deviation_sum(
            newest_first(s, k),
            mean,
        ) + (s[s.len() - 1 - k].value() - mean.value()) * (s[s.len() - 1 - k].value()
            - mean.value()),
{
    assert(newest_first(s, k + 1).drop_last() =~= newest_first(s, k));
}

proof fn lemma_newest_first_take<T>(s: Seq<T>, m: int, k: int)
    requires
        0 <= k <= m <= s.len(),
    ensures
        newest_first(s, m).take(k) == newest_first(s, k),
{
    assert(newest_first(s, m).take(k) =~= newest_first(s, k));
}

proof fn lemma_sum_prepend<T: Sample>(x: T, t: Seq<T>, mean: T)
    ensures
        sample_sum(seq![x] + t) == x.value() + sample_sum(t),
        square_deviation_sum(seq![x] + t, mean) == (x.value() - mean.value()) * (x.value()
            - mean.value()) + square_deviation_sum(t, mean),
    decreases t.len(),
{
    let u = seq![x] + t;
    if t.len() == 0 {
        assert(u =~= seq![x]);
        assert(u.drop_last() =~= Seq::<T>::empty());
        assert(u.last() == x);
        assert(sample_sum(u) == sample_sum(u.drop_last()) + x.value());
        assert(sample_sum(u.drop_last()) == 0);
        assert(sample_sum(t) == 0);
        assert(square_deviation_sum(u.drop_last(), mean) == 0);
        assert(square_deviation_sum(t, mean) == 0);
    } else {
        lemma_sum_prepend(x, t.drop_last(), mean);
        assert(u.drop_last() =~= seq![x] + t.drop_last());
        assert(u.last() == t.last());
        assert(sample_sum(u) == sample_sum(u.drop_last()) + t.last().value());
        assert(sample_sum(t) == sample_sum(t.drop_last()) + t.last().value());
        assert(square_deviation_sum(u, mean) == square_deviation_sum(u.drop_last(), mean) + (
        t.last().value() - mean.value()) * (t.last().value() - mean.value()));
    }
}

/// Summing the last `m` items newest first gives the same as summing them oldest first.
proof fn lemma_newest_first_sums<T: Sample>(s: Seq<T>, mean: T, m: int)
    requires
        0 <= m <= s.len(),
    ensures
        sample_sum(newest_first(s, m)) == sample_sum(last_items(s, m)),
        square_deviation_sum(newest_first(s, m), mean) == square_deviation_sum(
            last_items(s, m),
            mean,
        ),
    decreases m,
{
    if m == 0 {
        assert(last_items(s, 0) =~= Seq::<T>::empty());
        assert(newest_first(s, 0) =~= Seq::<T>::empty());
    } else {
        lemma_newest_first_sums(s, mean, m - 1);
        lemma_newest_first_step(s, mean, m - 1);
        let x = s[s.len() - m];
        assert(last_items(s, m) =~= seq![x] + last_items(s, m - 1));
        lemma_sum_prepend(x, last_items(s, m - 1), mean);
    }
}

/// Sums the values that `it` hands out going forward.
fn sum_forward<T: Sample + num_traits::PrimInt, const N: usize>(
    it: &mut RingBufferIterator<'_, T, N>,
) -> (acc: i128)
    requires
        sums_fit_i128(old(it)@),
    ensures
        acc == sample_sum(old(it)@),
{
    let ghost all = it@;
    let mut acc: i128 = 0;
    loop
        invariant
            sums_fit_i128(all),
            all.len() >= it@.len(),
            all == all.take(all.len() - it@.len()) + it@,
            acc == sample_sum(all.take(all.len() - it@.len())),
        ensures
            acc == sample_sum(all),
        decreases it@.len(),
    {
        let ghost k = all.len() - it@.len();
        let ghost before = it@;
        match it.next() {
            Some(el) => {
                proof {
                    assert(all[k] == before[0]);
                    lemma_sum_take_step(all, k);
                    assert(fits_i128(all[k].value()));
                    assert(fits_i128(sample_sum(all.take(k + 1))));
                    assert(all == all.take(k + 1) + it@);
                }
                acc = acc + sample_to_i128(el).unwrap();
            },
            None => {
                proof {
                    assert(all.take(all.len() as int) =~= all);
                }
                break ;
            },
        }
    }
    acc
}

/// Sums the first `n` values that `it` hands out going backward, newest first; there are at
/// least `n`.
fn sum_backward<T: Sample + num_traits::PrimInt, const N: usize>(
    it: &mut RingBufferIterator<'_, T, N>,
    n: usize,
) -> (acc: i128)
    requires
        n <= old(it)@.len(),
        sums_fit_i128(newest_first(old(it)@, n as int)),
    ensures
        acc == sample_sum(newest_first(old(it)@, n as int)),
{
    let ghost all = it@;
    let ghost mean = arbitrary::<T>();
    let mut acc: i128 = 0;
    let mut k: usize = 0;
    while k < n
        invariant
            k <= n <= all.len(),
            sums_fit_i128(newest_first(all, n as int)),
            it@ == all.take(all.len() - k),
            acc == sample_sum(newest_first(all, k as int)),
        decreases n - k,
    {
        let ghost before = it@;
        let el = it.next_back().unwrap();
        proof {
            assert(before.last() == all[all.len() - 1 - k]);
            lemma_newest_first_step(all, mean, k as int);
            lemma_newest_first_take(all, n as int, k + 1);
            assert(newest_first(all, n as int)[k as int] == all[all.len() - 1 - k]);
            assert(fits_i128(all[all.len() - 1 - k].value()));
            assert(fits_i128(sample_sum(newest_first(all, n as int).take(k + 1))));
            assert(it@ =~= all.take(all.len() - (k + 1)));
        }
        acc = acc + sample_to_i128(el).unwrap();
        k = k + 1;
    }
    acc
}

/// Divides `sum` by the positive `count` with `/` on `i128`.
fn divide_by_count(sum: i128, count: usize) -> (q: i128)
    requires
        count > 0,
    ensures
        q == trunc_div(sum as int, count as int),
{
    let d = count as i128;
    let q = sum / d;
    if sum >= 0 {
        assert(q == (sum as int) / (d as int));
    } else {
        assert(q == -((-sum) as int / (d as int)));
    }
    q
}

proof fn lemma_div_bounds(a: int, b: int)
    by (nonlinear_arith)
    requires
        a >= 0,
        b >= 1,
    ensures
        0 <= a / b <= a,
{
}

proof fn lemma_sum_bounds<T: Sample>(s: Seq<T>, lo: int, hi: int)
    requires
        forall|i: int| 0 <= i < s.len() ==> lo <= #[trigger] s[i].value() <= hi,
    ensures
        s.len() * lo <= sample_sum(s) <= s.len() * hi,
    decreases s.len(),
{
    if s.len() > 0 {
        let t = s.drop_last();
        assert forall|i: int| 0 <= i < t.len() implies lo <= #[trigger] t[i].value() <= hi by {
            assert(t[i] == s[i]);
        }
        lemma_sum_bounds(t, lo, hi);
        assert(s.last() == s[s.len() - 1]);
        assert(s.len() * lo == t.len() * lo + lo) by (nonlinear_arith)
            requires
                s.len() == t.len() + 1,
        ;
        assert(s.len() * hi == t.len() * hi + hi) by (nonlinear_arith)
            requires
                s.len() == t.len() + 1,
        ;
    }
}

proof fn lemma_trunc_div_between(sum: int, len: int, lo: int, hi: int)
    by (nonlinear_arith)
    requires
        len > 0,
        len * lo <= sum <= len * hi,
    ensures
        lo <= trunc_div(sum, len) <= hi,
{
    if sum > 0 {
        assert(sum / len <= hi) by {
            vstd::arithmetic::div_mod::lemma_div_is_ordered(sum, len * hi, len);
            vstd::arithmetic::mul::lemma_mul_is_commutative(len, hi);
            vstd::arithmetic::div_mod::lemma_div_by_multiple(hi, len);
        }
    }
}

/// Dividing the sum of samples that all lie between `lo` and `hi` by their number gives a
/// value between `lo` and `hi`: the mean lies between the smallest and the largest sample.
pub proof fn lemma_mean_within_range<T: Sample>(s: Seq<T>, lo: int, hi: int)
    requires
        s.len() > 0,
        forall|i: int| 0 <= i < s.len() ==> lo <= #[trigger] s[i].value() <= hi,
    ensures
        lo <= trunc_div(sample_sum(s), s.len() as int) <= hi,
{
    lemma_sum_bounds(s, lo, hi);
    lemma_trunc_div_between(sample_sum(s), s.len() as int, lo, hi);
}

/// The mean of samples that all equal `c` is `c`.
pub proof fn lemma_mean_of_constant<T: Sample>(s: Seq<T>, c: int)
    requires
        s.len() > 0,
        forall|i: int| 0 <= i < s.len() ==> #[trigger] s[i].value() == c,
    ensures
        trunc_div(sample_sum(s), s.len() as int) == c,
{
    lemma_mean_within_range(s, c, c);
}

/// The mean of samples of type `T` fits back into `T`.
proof fn lemma_mean_fits<T: Sample>(s: Seq<T>)
    requires
        s.len() > 0,
    ensures
        T::lowest() <= trunc_div(sample_sum(s), s.len() as int) <= T::highest(),
{
    assert forall|i: int| 0 <= i < s.len() implies T::lowest() <= #[trigger] s[i].value()
        <= T::highest() by {
        T::lemma_value_in_range(s[i]);
    }
    lemma_mean_within_range(s, T::lowest(), T::highest());
}

/// Upcasting to `i128` removes any risk of overflow for samples that fit in `i64`: a buffer
/// holds at most `usize::MAX` of them, and their running sums stay inside `i128`.
pub proof fn lemma_i64_samples_fit<T: Sample>(s: Seq<T>)
    requires
        s.len() <= usize::MAX,
        forall|i: int|
            0 <= i < s.len() ==> i64::MIN <= #[trigger] s[i].value() <= i64::MAX,
    ensures
        sums_fit_i128(s),
{
    assert forall|k: int| 0 <= k <= s.len() implies fits_i128(#[trigger] sample_sum(s.take(k))) by {
        let t = s.take(k);
        assert forall|i: int| 0 <= i < t.len() implies i64::MIN <= #[trigger] t[i].value()
            <= i64::MAX by {
            assert(t[i] == s[i]);
        }
        lemma_sum_bounds(t, i64::MIN as int, i64::MAX as int);
        assert(t.len() * (i64::MIN as int) >= i128::MIN) by (nonlinear_arith)
            requires
                0 <= t.len() <= 0xffff_ffff_ffff_ffff,
        ;
        assert(t.len() * (i64::MAX as int) <= i128::MAX) by (nonlinear_arith)
            requires
                0 <= t.len() <= 0xffff_ffff_ffff_ffff,
        ;
    }
}

/// Shifting every sample and the mean by the same offset leaves the distances, and so the
/// sum of their squares, unchanged.
pub proof fn lemma_square_deviation_shift<T: Sample>(
    s: Seq<T>,
    mean: T,
    t: Seq<T>,
    shifted_mean: T,
    offset: int,
)
    requires
        s.len() == t.len(),
        forall|i: int| 0 <= i < s.len() ==> #[trigger] t[i].value() == s[i].value() + offset,
        shifted_mean.value() == mean.value() + offset,
    ensures
        square_deviation_sum(t, shifted_mean) == square_deviation_sum(s, mean),
    decreases s.len(),
{
    if s.len() > 0 {
        let s0 = s.drop_last();
        let t0 = t.drop_last();
        assert forall|i: int| 0 <= i < s0.len() implies #[trigger] t0[i].value() == s0[i].value()
            + offset by {
            assert(t0[i] == t[i]);
            assert(s0[i] == s[i]);
        }
        lemma_square_deviation_shift(s0, mean, t0, shifted_mean, offset);
        assert(t.last().value() == s.last().value() + offset) by {
            assert(t.last() == t[t.len() - 1]);
            assert(s.last() == s[s.len() - 1]);
        }
    }
}

/// Calculates the mean of the samples in `buffer`: their sum, taken in `i128` so that it
/// cannot overflow for samples of up to 64 bits, divided by their number (rounding towards
/// zero), and converted back to `T`.
pub fn mean<T: Sample + num_traits::PrimInt, const N: usize>(buffer: &RingBuffer<T, N>) -> (r: T)
    requires
        buffer@.len() > 0,
        sums_fit_i128(buffer@),
    ensures
        r.value() == trunc_div(sample_sum(buffer@), buffer@.len() as int),
{
    let mut it = buffer.into_iter();
    let len = it.len();
    let sum = sum_forward(&mut it);
    proof {
        lemma_mean_fits(buffer@);
    }
    sample_from_i128::<T>(divide_by_count(sum, len)).unwrap()
}

/// Calculates the mean of the last `window_len` samples in `buffer`, or of all of them when
/// it holds fewer. See [`mean`] for details.
pub fn windowed_mean<T: Sample + num_traits::PrimInt, const N: usize>(
    buffer: &RingBuffer<T, N>,
    window_len: usize,
) -> (r: T)
    requires
        window_len > 0,
        buffer@.len() > 0,
        sums_fit_i128(
            newest_first(buffer@, vstd::math::min(window_len as int, buffer@.len() as int)),
        ),
    ensures
        r.value() == trunc_div(
            sample_sum(last_items(buffer@, vstd::math::min(window_len as int, buffer@.len() as int))),
            vstd::math::min(window_len as int, buffer@.len() as int),
        ),
{
    let mut it = buffer.into_iter();
    let full_len = it.len();
    let len = if window_len < full_len {
        window_len
    } else {
        full_len
    };
    let ghost taken = newest_first(buffer@, len as int);
    let sum = sum_backward(&mut it, len);
    proof {
        lemma_newest_first_sums(buffer@, arbitrary::<T>(), len as int);
        assert(taken.len() == len);
        lemma_mean_fits(taken);
    }
    sample_from_i128::<T>(divide_by_count(sum, len)).unwrap()
}

proof fn lemma_large_square(d: int)
    by (nonlinear_arith)
    requires
        d <= -0x8000_0000_0000_0000_0000_0000_0000_0000,
    ensures
        d * d > 0x7fff_ffff_ffff_ffff_ffff_ffff_ffff_ffff,
{
}

/// The squared distance of `el` from `mean`, computed in `i128`; `None` where the distance
/// or its square lies outside `i128`. When both values convert to `i128` the distance is
/// taken there; otherwise (an unsigned type with values above `i128`) it is taken in `T`,
/// as `el - mean` or `mean - el`, and then converted.
fn square_deviation<T: Sample + num_traits::PrimInt>(el: T, mean: T) -> (r: Option<i128>)
    ensures
        r == (if deviation_fits(el, mean) {
            Some(((el.value() - mean.value()) * (el.value() - mean.value())) as i128)
        } else {
            None
        }),
{
    proof {
        T::lemma_value_in_range(el);
        T::lemma_value_in_range(mean);
        T::lemma_range_against_i128();
    }
    let d: i128 = match (sample_to_i128(el), sample_to_i128(mean)) {
        (Some(x), Some(m)) => match x.checked_sub(m) {
            Some(d) => d,
            None => return None,
        },
        _ => match sample_checked_sub(el, mean) {
            Some(up) => match sample_to_i128(up) {
                Some(d) => d,
                None => return None,
            },
            None => match sample_checked_sub(mean, el) {
                Some(down) => match sample_to_i128(down) {
                    Some(e) => -e,
                    None => {
                        proof {
                            lemma_large_square(el.value() - mean.value());
                        }
                        return None;
                    },
                },
                None => return None,
            },
        },
    };
    d.checked_mul(d)
}

/// Sums the squared distances from `mean` of the values that `it` hands out going forward;
/// `None` where a step overflows.
fn square_sum_forward<T: Sample + num_traits::PrimInt, const N: usize>(
    it: &mut RingBufferIterator<'_, T, N>,
    mean: T,
) -> (acc: Option<i128>)
    ensures
        acc == (if square_sums_fit_i128(old(it)@, mean) {
            Some(square_deviation_sum(old(it)@, mean) as i128)
        } else {
            None
        }),
{
    let ghost all = it@;
    let mut acc: i128 = 0;
    loop
        invariant
            all == old(it)@,
            all.len() >= it@.len(),
            all == all.take(all.len() - it@.len()) + it@,
            acc == square_deviation_sum(all.take(all.len() - it@.len()), mean),
            forall|i: int|
                0 <= i < all.len() - it@.len() ==> #[trigger] deviation_fits(all[i], mean),
            forall|k: int|
                0 <= k <= all.len() - it@.len() ==> fits_i128(
                    #[trigger] square_deviation_sum(all.take(k), mean),
                ),
        ensures
            square_sums_fit_i128(all, mean),
            acc == square_deviation_sum(all, mean),
        decreases it@.len(),
    {
        let ghost k = all.len() - it@.len();
        let ghost before = it@;
        match it.next() {
            Some(el) => {
                proof {
                    assert(all[k] == before[0]);
                    lemma_square_sum_take_step(all, mean, k);
                    assert(all == all.take(k + 1) + it@);
                }
                match square_deviation(el, mean) {
                    Some(sq) => match acc.checked_add(sq) {
                        Some(next) => {
                            acc = next;
                        },
                        None => {
                            proof {
                                assert(!fits_i128(square_deviation_sum(all.take(k + 1), mean)));
                            }
                            return None;
                        },
                    },
                    None => {
                        proof {
                            assert(!deviation_fits(all[k], mean));
                        }
                        return None;
                    },
                }
            },
            None => {
                proof {
                    assert(all.take(all.len() as int) =~= all);
                }
                break ;
            },
        }
    }
    Some(acc)
}

/// Sums the squared distances from `mean` of the first `n` values that `it` hands out going
/// backward, newest first; there are at least `n`. `None` where a step overflows.
fn square_sum_backward<T: Sample + num_traits::PrimInt, const N: usize>(
    it: &mut RingBufferIterator<'_, T, N>,
    mean: T,
    n: usize,
) -> (acc: Option<i128>)
    requires
        n <= old(it)@.len(),
    ensures
        acc == (if square_sums_fit_i128(newest_first(old(it)@, n as int), mean) {
            Some(square_deviation_sum(newest_first(old(it)@, n as int), mean) as i128)
        } else {
            None
        }),
{
    let ghost all = it@;
    let ghost taken = newest_first(all, n as int);
    let mut acc: i128 = 0;
    let mut k: usize = 0;
    while k < n
        invariant
            all == old(it)@,
            taken == newest_first(all, n as int),
            k <= n <= all.len(),
            it@ == all.take(all.len() - k),
            acc == square_deviation_sum(newest_first(all, k as int), mean),
            forall|i: int| 0 <= i < k ==> #[trigger] deviation_fits(taken[i], mean),
            forall|j: int|
                0 <= j <= k ==> fits_i128(#[trigger] square_deviation_sum(taken.take(j), mean)),
        ensures
            acc == square_deviation_sum(taken, mean),
            square_sums_fit_i128(taken, mean),
        decreases n - k,
    {
        let ghost before = it@;
        let el = it.next_back().unwrap();
        proof {
            assert(before.last() == all[all.len() - 1 - k]);
            lemma_newest_first_step(all, mean, k as int);
            lemma_newest_first_take(all, n as int, k as int);
            lemma_newest_first_take(all, n as int, k + 1);
            assert(taken[k as int] == all[all.len() - 1 - k]);
            assert(it@ =~= all.take(all.len() - (k + 1)));
        }
        match square_deviation(el, mean) {
            Some(sq) => match acc.checked_add(sq) {
                Some(next) => {
                    acc = next;
                    k = k + 1;
                },
                None => {
                    proof {
                        assert(!fits_i128(square_deviation_sum(taken.take(k + 1), mean)));
                    }
                    return None;
                },
            },
            None => {
                proof {
                    assert(!deviation_fits(taken[k as int], mean));
                }
                return None;
            },
        }
    }
    proof {
        lemma_newest_first_take(all, n as int, n as int);
        assert(taken.take(n as int) =~= taken);
    }
    Some(acc)
}

/// The mean of the squared distances of the samples in `buffer` from `mean`, each distance
/// exact in `i128` (taken in `T` where a value lies beyond `i128`), the sum taken in `i128`, divided by the number
/// of samples. The root of this value is the AC RMS of the buffer. `None` where a step of
/// the computation overflows or the buffer is empty.
pub fn mean_square_deviation<T: Sample + num_traits::PrimInt, const N: usize>(
    buffer: &RingBuffer<T, N>,
    mean: T,
) -> (r: Option<i128>)
    ensures
        r == (if square_sums_fit_i128(buffer@, mean) && buffer@.len() > 0 {
            Some(trunc_div(square_deviation_sum(buffer@, mean), buffer@.len() as int) as i128)
        } else {
            None
        }),
{
    let mut it = buffer.into_iter();
    let len = it.len();
    match square_sum_forward(&mut it, mean) {
        Some(sum) => {
            if len == 0 {
                return None;
            }
            proof {
                assert(buffer@.take(buffer@.len() as int) =~= buffer@);
            }
            Some(divide_by_count(sum, len))
        },
        None => None,
    }
}

/// The mean of the squared distances from `mean` of the last `window_len` samples in
/// `buffer`, or of all of them when it holds fewer; see [`mean_square_deviation`]. `None`
/// where a step of the computation overflows or there is no sample to divide by.
pub fn windowed_mean_square_deviation<T: Sample + num_traits::PrimInt, const N: usize>(
    buffer: &RingBuffer<T, N>,
    mean: T,
    window_len: usize,
) -> (r: Option<i128>)
    ensures
        r == (if square_sums_fit_i128(
            newest_first(buffer@, vstd::math::min(window_len as int, buffer@.len() as int)),
            mean,
        ) && vstd::math::min(window_len as int, buffer@.len() as int) > 0 {
            Some(
                trunc_div(
                    square_deviation_sum(
                        last_items(
                            buffer@,
                            vstd::math::min(window_len as int, buffer@.len() as int),
                        ),
                        mean,
                    ),
                    vstd::math::min(window_len as int, buffer@.len() as int),
                ) as i128,
            )
        } else {
            None
        }),
{
    let mut it = buffer.into_iter();
    let full_len = it.len();
    let len = if window_len < full_len {
        window_len
    } else {
        full_len
    };
    let ghost taken = newest_first(buffer@, len as int);
    match square_sum_backward(&mut it, mean, len) {
        Some(sum) => {
            if len == 0 {
                return None;
            }
            proof {
                assert(taken.take(taken.len() as int) =~= taken);
                lemma_newest_first_sums(buffer@, mean, len as int);
            }
            Some(divide_by_count(sum, len))
        },
        None => None,
    }
}

/// Shifting every sample and the mean by the same offset changes neither whether the mean
/// squared deviation can be computed nor its value: the AC RMS ignores a DC offset.
pub proof fn lemma_mean_square_deviation_shift<T: Sample>(
    s: Seq<T>,
    mean: T,
    t: Seq<T>,
    shifted_mean: T,
    offset: int,
)
    requires
        s.len() == t.len(),
        forall|i: int| 0 <= i < s.len() ==> #[trigger] t[i].value() == s[i].value() + offset,
        shifted_mean.value() == mean.value() + offset,
    ensures
        square_sums_fit_i128(t, shifted_mean) == square_sums_fit_i128(s, mean),
        square_deviation_sum(t, shifted_mean) == square_deviation_sum(s, mean),
{
    lemma_square_deviation_shift(s, mean, t, shifted_mean, offset);
    assert forall|k: int| 0 <= k <= s.len() implies #[trigger] square_deviation_sum(
        t.take(k),
        shifted_mean,
    ) == square_deviation_sum(s.take(k), mean) by {
        assert forall|i: int| 0 <= i < s.take(k).len() implies #[trigger] t.take(k)[i].value()
            == s.take(k)[i].value() + offset by {
            assert(t.take(k)[i] == t[i]);
            assert(s.take(k)[i] == s[i]);
        }
        lemma_square_deviation_shift(s.take(k), mean, t.take(k), shifted_mean, offset);
    }
    assert forall|i: int| 0 <= i < s.len() implies #[trigger] deviation_fits(t[i], shifted_mean)
        == deviation_fits(s[i], mean) by {
        assert(t[i].value() - shifted_mean.value() == s[i].value() - mean.value());
    }
    if square_sums_fit_i128(s, mean) {
        assert forall|k: int| 0 <= k <= t.len() implies fits_i128(
            #[trigger] square_deviation_sum(t.take(k), shifted_mean),
        ) by {
            assert(fits_i128(square_deviation_sum(s.take(k), mean)));
        }
        assert forall|i: int| 0 <= i < t.len() implies #[trigger] deviation_fits(
            t[i],
            shifted_mean,
        ) by {
            assert(deviation_fits(s[i], mean));
        }
    }
    if square_sums_fit_i128(t, shifted_mean) {
        assert forall|k: int| 0 <= k <= s.len() implies fits_i128(
            #[trigger] square_deviation_sum(s.take(k), mean),
        ) by {
            assert(fits_i128(square_deviation_sum(t.take(k), shifted_mean)));
        }
        assert forall|i: int| 0 <= i < s.len() implies #[trigger] deviation_fits(s[i], mean) by {
            assert(deviation_fits(t[i], shifted_mean));
        }
    }
}

} // verus!
