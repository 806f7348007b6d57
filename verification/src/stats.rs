//! Angle statistics for the eight-direction phase.
//!
//! Samples are millidegrees. A mean is reported in centidegrees, rounded
//! half away from zero, which is the mean in degrees rounded to two decimal
//! places. A variance is reported as an exact ratio in squared
//! millidegrees, so that no precision is lost.

use vstd::prelude::*;

verus! {

/// The sample values as unbounded integers.
pub open spec fn ints(s: Seq<i64>) -> Seq<int> {
    s.map_values(|x: i64| x as int)
}

/// The sum of a sequence of integers.
pub open spec fn spec_sum(s: Seq<int>) -> int
    decreases s.len(),
{
    if s.len() == 0 {
        0
    } else {
        spec_sum(s.drop_last()) + s.last()
    }
}

/// The greatest element of a nonempty sequence.
pub open spec fn spec_max(s: Seq<int>) -> int
    decreases s.len(),
{
    if s.len() <= 1 {
        s[0]
    } else if spec_max(s.drop_last()) >= s.last() {
        spec_max(s.drop_last())
    } else {
        s.last()
    }
}

/// The least element of a nonempty sequence.
pub open spec fn spec_min(s: Seq<int>) -> int
    decreases s.len(),
{
    if s.len() <= 1 {
        s[0]
    } else if spec_min(s.drop_last()) <= s.last() {
        spec_min(s.drop_last())
    } else {
        s.last()
    }
}

/// The quotient `a / b` rounded half away from zero, for positive `b`.
pub open spec fn round_div(a: int, b: int) -> int {
    if a >= 0 {
        (2 * a + b) / (2 * b)
    } else {
        -((2 * (-a) + b) / (2 * b))
    }
}

/// An azimuth fold for the first tag: a value beyond a half turn is taken
/// as its negative complement before averaging.
pub open spec fn spec_fold_wrap(x: int) -> int {
    if x > 180000 {
        x - 360000
    } else {
        x
    }
}

/// The wrap fold applied to every sample.
pub open spec fn fold_all(s: Seq<int>) -> Seq<int> {
    s.map_values(|x: int| spec_fold_wrap(x))
}

/// Every sample is a millidegree reading that fits the arithmetic below:
/// bounded by one full unsigned reading plus one fold shift.
pub open spec fn samples_bounded(s: Seq<i64>) -> bool {
    forall|k: int| 0 <= k < s.len() ==> -5_000_000_000 <= (#[trigger] s[k]) as int
        <= 5_000_000_000
}

/// The number of samples a statistics call accepts; far above what one
/// reply frame can carry, and small enough that every sum below fits its
/// machine word.
pub open spec fn len_ok(s: Seq<i64>) -> bool {
    s.len() <= 1_000_000
}

proof fn lemma_sum_take(s: Seq<int>, i: int)
    requires
        0 <= i < s.len(),
    ensures
        spec_sum(s.take(i + 1)) == spec_sum(s.take(i)) + s[i],
{
    assert(s.take(i + 1).drop_last() =~= s.take(i));
    assert(s.take(i + 1).last() == s[i]);
}

/// The sum of the samples, exactly.
pub fn sum_samples(data: &Vec<i64>) -> (r: i128)
    requires
        len_ok(data@),
        samples_bounded(data@),
    ensures
        r as int == spec_sum(ints(data@)),
        -5_000_000_000_000_000 <= r <= 5_000_000_000_000_000,
{
    let ghost s = ints(data@);
    let mut sum: i128 = 0;
    let mut i: usize = 0;
    proof {
        assert(s.take(0) =~= Seq::<int>::empty());
    }
    while i < data.len()
        invariant
            0 <= i <= data@.len(),
            s == ints(data@),
            len_ok(data@),
            samples_bounded(data@),
            sum as int == spec_sum(s.take(i as int)),
            -5_000_000_000 * i <= sum as int <= 5_000_000_000 * i,
        decreases data@.len() - i,
    {
        proof {
            lemma_sum_take(s, i as int);
            assert(s[i as int] == data@[i as int] as int);
        }
        sum = sum + data[i] as i128;
        i = i + 1;
    }
    proof {
        assert(s.take(data@.len() as int) =~= s);
    }
    sum
}

/// The mean of the samples in centidegrees, rounded half away from zero:
/// the degree mean rounded to two decimal places.
pub fn calculate_mean(data: &Vec<i64>) -> (r: i64)
    requires
        data@.len() >= 1,
        len_ok(data@),
        samples_bounded(data@),
    ensures
        r as int == round_div(spec_sum(ints(data@)), 10 * data@.len() as int),
{
    let sum = sum_samples(data);
    let n = data.len() as i128;
    let den: i128 = 10 * n;
    let r: i128 = if sum >= 0 {
        (2 * sum + den) / (2 * den)
    } else {
        -((2 * (-sum) + den) / (2 * den))
    };
    proof {
        assert(r as int == round_div(spec_sum(ints(data@)), 10 * data@.len() as int));
    }
    r as i64
}

/// The wrap fold of one sample.
pub fn fold_wrap(x: i64) -> (r: i64)
    requires
        -5_000_000_000 <= x as int <= 5_000_000_000,
    ensures
        r as int == spec_fold_wrap(x as int),
        -5_000_000_000 <= r as int <= 5_000_000_000,
{
    if x > 180000 {
        x - 360000
    } else {
        x
    }
}

/// The mean of the samples after the first-tag wrap fold, in centidegrees,
/// rounded half away from zero.
pub fn calc_avg_index0(data: &Vec<i64>) -> (r: i64)
    requires
        data@.len() >= 1,
        len_ok(data@),
        samples_bounded(data@),
    ensures
        r as int == round_div(spec_sum(fold_all(ints(data@))), 10 * data@.len() as int),
{
    let mut folded: Vec<i64> = Vec::new();
    let mut i: usize = 0;
    while i < data.len()
        invariant
            0 <= i <= data@.len(),
            len_ok(data@),
            samples_bounded(data@),
            folded@.len() == i,
            samples_bounded(folded@),
            forall|k: int|
                0 <= k < i ==> (#[trigger] folded@[k]) as int == spec_fold_wrap(
                    data@[k] as int,
                ),
        decreases data@.len() - i,
    {
        let f = fold_wrap(data[i]);
        folded.push(f);
        i = i + 1;
    }
    proof {
        assert(ints(folded@) =~= fold_all(ints(data@)));
    }
    calculate_mean(&folded)
}

/// The greatest sample.
pub fn max_of(data: &Vec<i64>) -> (r: i64)
    requires
        data@.len() >= 1,
    ensures
        r as int == spec_max(ints(data@)),
{
    let ghost s = ints(data@);
    let mut cur = data[0];
    let mut i: usize = 1;
    proof {
        assert(s.take(1)[0] == s[0]);
    }
    while i < data.len()
        invariant
            1 <= i <= data@.len(),
            s == ints(data@),
            cur as int == spec_max(s.take(i as int)),
        decreases data@.len() - i,
    {
        proof {
            assert(s.take(i + 1).drop_last() =~= s.take(i as int));
            assert(s.take(i + 1).last() == s[i as int]);
        }
        if data[i] > cur {
            cur = data[i];
        }
        i = i + 1;
    }
    proof {
        assert(s.take(data@.len() as int) =~= s);
    }
    cur
}

/// The least sample.
pub fn min_of(data: &Vec<i64>) -> (r: i64)
    requires
        data@.len() >= 1,
    ensures
        r as int == spec_min(ints(data@)),
{
    let ghost s = ints(data@);
    let mut cur = data[0];
    let mut i: usize = 1;
    proof {
        assert(s.take(1)[0] == s[0]);
    }
    while i < data.len()
        invariant
            1 <= i <= data@.len(),
            s == ints(data@),
            cur as int == spec_min(s.take(i as int)),
        decreases data@.len() - i,
    {
        proof {
            assert(s.take(i + 1).drop_last() =~= s.take(i as int));
            assert(s.take(i + 1).last() == s[i as int]);
        }
        if data[i] < cur {
            cur = data[i];
        }
        i = i + 1;
    }
    proof {
        assert(s.take(data@.len() as int) =~= s);
    }
    cur
}

/// The greatest and least elements lie in any range that contains every
/// element.
pub proof fn lemma_max_min_range(s: Seq<int>, lo: int, hi: int)
    requires
        s.len() >= 1,
        forall|k: int| 0 <= k < s.len() ==> lo <= #[trigger] s[k] <= hi,
    ensures
        lo <= spec_max(s) <= hi,
        lo <= spec_min(s) <= hi,
    decreases s.len(),
{
    if s.len() > 1 {
        assert(forall|k: int|
            0 <= k < s.drop_last().len() ==> lo <= #[trigger] s.drop_last()[k] <= hi);
        lemma_max_min_range(s.drop_last(), lo, hi);
    }
}

/// The sum of squared deviations scaled by the sample count: each term is
/// the sample times the count, less the total, squared.
pub open spec fn spec_sq_dev_sum(s: Seq<int>, n: int, total: int) -> int
    decreases s.len(),
{
    if s.len() == 0 {
        0
    } else {
        spec_sq_dev_sum(s.drop_last(), n, total) + (n * s.last() - total) * (n * s.last()
            - total)
    }
}

/// The numerator of the unbiased sample variance over a denominator of
/// count squared times count less one.
pub open spec fn spec_var_num(s: Seq<int>) -> int {
    spec_sq_dev_sum(s, s.len() as int, spec_sum(s))
}

/// The unbiased sample variance as an exact ratio in squared millidegrees,
/// or nothing when fewer than two samples exist.
pub fn eight_calculate_variance(data: &Vec<i64>) -> (r: Option<(i128, i128)>)
    requires
        len_ok(data@),
        samples_bounded(data@),
    ensures
        data@.len() <= 1 <==> r is None,
        r matches Some(v) ==> v.0 as int == spec_var_num(ints(data@)) && v.1 as int == data@.len()
            * data@.len() * (data@.len() - 1) && v.1 > 0 && v.0 >= 0 && v.0 as int
            <= 100_000_000_000_000_000_000_000_000_000_000_000_000 && v.1 as int
            <= 1_000_000_000_000_000_000,
{
    let nlen = data.len();
    if nlen <= 1 {
        return None;
    }
    let ghost s = ints(data@);
    let total = sum_samples(data);
    let n = nlen as i128;
    let mut num: i128 = 0;
    let mut i: usize = 0;
    proof {
        assert(s.take(0) =~= Seq::<int>::empty());
    }
    while i < nlen
        invariant
            0 <= i <= nlen,
            nlen == data@.len(),
            2 <= nlen <= 1_000_000,
            s == ints(data@),
            samples_bounded(data@),
            n == nlen as int,
            total as int == spec_sum(s),
            -5_000_000_000_000_000 <= total <= 5_000_000_000_000_000,
            num as int == spec_sq_dev_sum(s.take(i as int), n as int, total as int),
            0 <= num as int <= i * 100_000_000_000_000_000_000_000_000_000_000,
        decreases nlen - i,
    {
        proof {
            assert(s.take(i + 1).drop_last() =~= s.take(i as int));
            assert(s.take(i + 1).last() == s[i as int]);
            assert(s[i as int] == data@[i as int] as int);
        }
        let x = data[i] as i128;
        proof {
            assert(-5_000_000_000 <= x <= 5_000_000_000);
            assert(-5_000_000_000_000_000 <= n as int * x as int <= 5_000_000_000_000_000)
                by (nonlinear_arith)
                requires
                    -5_000_000_000 <= x as int <= 5_000_000_000,
                    0 <= n as int <= 1_000_000,
            ;
        }
        let d: i128 = n * x - total;
        proof {
            assert(-10_000_000_000_000_000 <= d as int <= 10_000_000_000_000_000);
            assert(0 <= d as int * d as int <= 100_000_000_000_000_000_000_000_000_000_000)
                by (nonlinear_arith)
                requires
                    -10_000_000_000_000_000 <= d as int <= 10_000_000_000_000_000,
            ;
            assert((i + 1) * 100_000_000_000_000_000_000_000_000_000_000 == i
                * 100_000_000_000_000_000_000_000_000_000_000
                + 100_000_000_000_000_000_000_000_000_000_000) by (nonlinear_arith);
        }
        let sq: i128 = d * d;
        num = num + sq;
        i = i + 1;
    }
    proof {
        assert(s.take(nlen as int) =~= s);
        assert(2 <= n as int <= 1_000_000);
        assert(n as int * n as int <= 1_000_000_000_000 && 4 <= n as int * n as int)
            by (nonlinear_arith)
            requires
                2 <= n as int <= 1_000_000,
        ;
        assert(n as int * n as int * (n as int - 1) <= 1_000_000_000_000_000_000 && 4 <= n as int
            * n as int * (n as int - 1)) by (nonlinear_arith)
            requires
                2 <= n as int <= 1_000_000,
        ;
    }
    let den: i128 = n * n * (n - 1);
    Some((num, den))
}

/// The number of packets received for one tag.
pub fn eight_calc_pack(src: &Vec<(u32, u32)>) -> (r: usize)
    ensures
        r == src@.len(),
{
    src.len()
}

} // verus!
