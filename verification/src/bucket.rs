//! Bucket-sum over a stream of timestamps: which samples are summed together,
//! and under which label.
//!
//! Buckets follow contiguous runs: neighbouring samples whose timestamps fall
//! into the same bucket form one run, and a later run with the same bucket is
//! kept apart from it. The sums themselves are taken by the caller over the
//! index range of each run.

use vstd::prelude::*;
use vstd::string::StringExecFns;

verus! {

/// Why a bucket summation was refused.
#[derive(Clone, Copy, Debug, PartialEq, Eq, Structural)]
pub enum BucketError {
    /// The bucket width is zero or negative.
    NonPositiveWidth,
    /// There are not as many values as timestamps.
    LengthMismatch,
}

impl BucketError {
    /// What went wrong, in words.
    pub open spec fn text(self) -> Seq<char> {
        match self {
            BucketError::NonPositiveWidth => "dt_ns must be > 0"@,
            BucketError::LengthMismatch => "t_ns and vals must have the same length"@,
        }
    }

    /// What went wrong, in words.
    pub fn message(&self) -> (r: String)
        ensures
            r@ == self.text(),
    {
        match self {
            BucketError::NonPositiveWidth => String::from_str("dt_ns must be > 0"),
            BucketError::LengthMismatch => String::from_str(
                "t_ns and vals must have the same length",
            ),
        }
    }
}

/// One run of samples: the samples at the indices `start..end` are summed,
/// and the sum is reported at time `label`.
#[derive(Clone, Copy, Debug, PartialEq, Eq, Structural)]
pub struct Bucket {
    pub label: i64,
    pub start: usize,
    pub end: usize,
}

/// The bucket that time `t` falls into, for buckets of width `dt`: `t / dt`
/// with the quotient truncated toward zero, times `dt`.
pub open spec fn bucket_key(t: int, dt: int) -> int {
    if t >= 0 {
        (t / dt) * dt
    } else {
        -(((-t) / dt) * dt)
    }
}

/// The bucket of the sample at index `i`.
pub open spec fn key_at(t: Seq<i64>, dt: int, i: int) -> int {
    bucket_key(t[i] as int, dt)
}

/// The label of every sample's bucket, `key + dt`, fits in an `i64`.
pub open spec fn labels_fit(t: Seq<i64>, dt: int) -> bool {
    forall|i: int| 0 <= i < t.len() ==> #[trigger] key_at(t, dt, i) + dt <= i64::MAX
}

/// A run begins at index `i`: it is the first sample, or its bucket differs
/// from that of the sample before it.
pub open spec fn starts_run(t: Seq<i64>, dt: int, i: int) -> bool {
    i == 0 || key_at(t, dt, i - 1) != key_at(t, dt, i)
}

/// The number of maximal runs of equal bucket among the first `n` samples.
pub open spec fn run_count(t: Seq<i64>, dt: int, n: int) -> nat
    decreases n,
{
    if n <= 0 {
        0
    } else {
        run_count(t, dt, n - 1) + if starts_run(t, dt, n - 1) {
            1nat
        } else {
            0nat
        }
    }
}

/// `run` covers a non-empty range of samples that all fall into one bucket,
/// and is labelled with that bucket's right boundary.
pub open spec fn is_run(run: Bucket, t: Seq<i64>, dt: int) -> bool {
    &&& run.start < run.end <= t.len()
    &&& run.label == key_at(t, dt, run.start as int) + dt
    &&& forall|i: int|
        run.start <= i < run.end ==> #[trigger] key_at(t, dt, i) == key_at(t, dt, run.start as int)
}

/// `runs` lists, in order, the maximal runs of equal bucket of `t`: the runs
/// tile `0..t.len()` without gap, and two neighbouring runs differ in bucket.
pub open spec fn is_run_partition(runs: Seq<Bucket>, t: Seq<i64>, dt: int) -> bool {
    &&& runs.len() == 0 <==> t.len() == 0
    &&& runs.len() > 0 ==> runs[0].start == 0 && runs[runs.len() - 1].end == t.len()
    &&& forall|k: int| 0 <= k < runs.len() ==> is_run(#[trigger] runs[k], t, dt)
    &&& forall|k: int|
        #![trigger runs[k]]
        0 <= k < runs.len() - 1 ==> runs[k].end == runs[k + 1].start && key_at(
            t,
            dt,
            runs[k].start as int,
        ) != key_at(t, dt, runs[k + 1].start as int)
}

/// The bucket of `t` lies between zero and `t`.
proof fn lemma_key_bounds(t: int, dt: int)
    requires
        dt > 0,
    ensures
        t >= 0 ==> 0 <= bucket_key(t, dt) <= t,
        t < 0 ==> t <= bucket_key(t, dt) <= 0,
        t >= 0 ==> 0 <= t / dt <= t,
        t < 0 ==> 0 <= (-t) / dt <= -t,
{
    if t >= 0 {
        assert(0 <= (t / dt) * dt <= t && 0 <= t / dt <= t) by (nonlinear_arith)
            requires
                t >= 0,
                dt > 0,
        ;
    } else {
        let u = -t;
        assert(0 <= (u / dt) * dt <= u && 0 <= u / dt <= u) by (nonlinear_arith)
            requires
                u > 0,
                dt > 0,
        ;
    }
}

/// The bucket of time `t`.
pub fn bucket_key_of(t: i64, dt: i64) -> (key: i64)
    requires
        dt > 0,
    ensures
        key == bucket_key(t as int, dt as int),
{
    proof {
        lemma_key_bounds(t as int, dt as int);
    }
    let q = t / dt;
    assert(q * dt == bucket_key(t as int, dt as int)) by (nonlinear_arith)
        requires
            t >= 0 ==> q == (t as int) / (dt as int),
            t < 0 ==> q == -((-(t as int)) / (dt as int)),
    ;
    q * dt
}

/// Whether every sample's label fits in an `i64`, so that `bucket_runs` can
/// be called on these timestamps. A width that is not positive gives no
/// labels, and all of none fit.
pub fn labels_representable(t_ns: &Vec<i64>, dt_ns: i64) -> (fit: bool)
    ensures
        fit == (dt_ns > 0 ==> labels_fit(t_ns@, dt_ns as int)),
{
    if dt_ns <= 0 {
        return true;
    }
    let n = t_ns.len();
    let mut i: usize = 0;
    while i < n
        invariant
            i <= n,
            n == t_ns.len(),
            dt_ns > 0,
            forall|j: int| 0 <= j < i ==> #[trigger] key_at(t_ns@, dt_ns as int, j) + dt_ns <= i64::MAX,
        decreases n - i,
    {
        let key = bucket_key_of(t_ns[i], dt_ns);
        if key > i64::MAX - dt_ns {
            assert(key_at(t_ns@, dt_ns as int, i as int) + dt_ns > i64::MAX);
            return false;
        }
        i += 1;
    }
    true
}

/// Splits the timestamps `t_ns`, which come with `n_vals` values, into
/// buckets of width `dt_ns`.
///
/// Fails when the width is not positive, and then when the number of values
/// differs from the number of timestamps. Otherwise the result lists the
/// maximal runs of equal bucket in the order of the input, each with the
/// index range of its samples and the label `key + dt_ns`. The timestamps are
/// taken as they come: they are not sorted.
pub fn bucket_runs(t_ns: &Vec<i64>, n_vals: usize, dt_ns: i64) -> (res: Result<
    Vec<Bucket>,
    BucketError,
>)
    requires
        dt_ns > 0 && n_vals == t_ns.len() ==> labels_fit(t_ns@, dt_ns as int),
    ensures
        dt_ns <= 0 ==> res == Err::<Vec<Bucket>, BucketError>(BucketError::NonPositiveWidth),
        dt_ns > 0 && n_vals != t_ns.len() ==> res == Err::<Vec<Bucket>, BucketError>(
            BucketError::LengthMismatch,
        ),
        dt_ns > 0 && n_vals == t_ns.len() ==> res is Ok,
        res matches Ok(runs) ==> {
            &&& is_run_partition(runs@, t_ns@, dt_ns as int)
            &&& runs@.len() == run_count(t_ns@, dt_ns as int, t_ns@.len() as int)
        },
{
    if dt_ns <= 0 {
        return Err(BucketError::NonPositiveWidth);
    }
    let n = t_ns.len();
    if n != n_vals {
        return Err(BucketError::LengthMismatch);
    }
    let mut out: Vec<Bucket> = Vec::new();
    if n == 0 {
        proof {
            lemma_run_partition_counts(t_ns@, dt_ns as int, out@);
        }
        return Ok(out);
    }
    let ghost t = t_ns@;
    let ghost dt = dt_ns as int;
    let mut prev_key = bucket_key_of(t_ns[0], dt_ns);
    let mut start: usize = 0;
    let mut i: usize = 1;
    while i < n
        invariant
            n == t_ns.len(),
            t == t_ns@,
            dt == dt_ns as int,
            dt_ns > 0,
            labels_fit(t, dt),
            1 <= i <= n,
            start < i,
            prev_key == key_at(t, dt, start as int),
            forall|j: int| start <= j < i ==> #[trigger] key_at(t, dt, j) == prev_key,
            out@.len() == 0 <==> start == 0,
            out@.len() > 0 ==> out@[0].start == 0 && out@[out@.len() - 1].end == start && key_at(
                t,
                dt,
                out@[out@.len() - 1].start as int,
            ) != prev_key,
            forall|k: int| 0 <= k < out@.len() ==> is_run(#[trigger] out@[k], t, dt),
            forall|k: int|
                #![trigger out@[k]]
                0 <= k < out@.len() - 1 ==> out@[k].end == out@[k + 1].start && key_at(
                    t,
                    dt,
                    out@[k].start as int,
                ) != key_at(t, dt, out@[k + 1].start as int),
        decreases n - i,
    {
        let key = bucket_key_of(t_ns[i], dt_ns);
        assert(key == key_at(t, dt, i as int));
        assert(key_at(t, dt, i - 1) == prev_key);
        if key != prev_key {
            assert(key_at(t, dt, start as int) + dt <= i64::MAX);
            let run = Bucket { label: prev_key + dt_ns, start, end: i };
            assert(is_run(run, t, dt));
            out.push(run);
            prev_key = key;
            start = i;
        }
        i += 1;
    }
    assert(key_at(t, dt, start as int) + dt <= i64::MAX);
    let run = Bucket { label: prev_key + dt_ns, start, end: n };
    assert(is_run(run, t, dt));
    out.push(run);
    proof {
        lemma_run_partition_counts(t, dt, out@);
    }
    Ok(out)
}

/// `times` and `sums` are the bucket sums over `runs`: for each run its
/// label, and what `sum` gave for the index range of the run.
pub open spec fn are_sums_over<S, F: Fn(usize, usize) -> S>(
    times: Seq<i64>,
    sums: Seq<S>,
    runs: Seq<Bucket>,
    sum: F,
) -> bool {
    &&& times.len() == runs.len()
    &&& sums.len() == runs.len()
    &&& forall|k: int|
        0 <= k < runs.len() ==> {
            &&& times[k] == (#[trigger] runs[k]).label
            &&& call_ensures(sum, (runs[k].start, runs[k].end), sums[k])
        }
}

/// Sums a stream of values over the buckets of its timestamps, with `sum`
/// to add up the values of an index range.
///
/// Fails as `bucket_runs` does. Otherwise `sum` is called once for each
/// maximal run of equal bucket, in order, with the first index of the run and
/// the index after its last; the result pairs the label of each run with
/// what `sum` gave for it.
pub fn bucket_sum_with<S, F: Fn(usize, usize) -> S>(
    t_ns: &Vec<i64>,
    n_vals: usize,
    dt_ns: i64,
    sum: F,
) -> (res: Result<(Vec<i64>, Vec<S>), BucketError>)
    requires
        dt_ns > 0 && n_vals == t_ns.len() ==> labels_fit(t_ns@, dt_ns as int),
        forall|start: usize, end: usize| start < end <= n_vals ==> call_requires(sum, (start, end)),
    ensures
        dt_ns <= 0 ==> res == Err::<(Vec<i64>, Vec<S>), BucketError>(BucketError::NonPositiveWidth),
        dt_ns > 0 && n_vals != t_ns.len() ==> res == Err::<(Vec<i64>, Vec<S>), BucketError>(
            BucketError::LengthMismatch,
        ),
        dt_ns > 0 && n_vals == t_ns.len() ==> res is Ok,
        res matches Ok(out) ==> exists|runs: Seq<Bucket>|
            is_run_partition(runs, t_ns@, dt_ns as int) && are_sums_over(out.0@, out.1@, runs, sum),
{
    let runs = match bucket_runs(t_ns, n_vals, dt_ns) {
        Ok(runs) => runs,
        Err(fault) => {
            return Err(fault);
        },
    };
    let mut times: Vec<i64> = Vec::new();
    let mut sums: Vec<S> = Vec::new();
    let mut k: usize = 0;
    while k < runs.len()
        invariant
            0 <= k <= runs.len(),
            n_vals == t_ns.len(),
            is_run_partition(runs@, t_ns@, dt_ns as int),
            forall|start: usize, end: usize|
                start < end <= n_vals ==> call_requires(sum, (start, end)),
            are_sums_over(times@, sums@, runs@.take(k as int), sum),
        decreases runs.len() - k,
    {
        let run = runs[k];
        assert(is_run(runs@[k as int], t_ns@, dt_ns as int));
        let total = sum(run.start, run.end);
        times.push(run.label);
        sums.push(total);
        k += 1;
    }
    assert(runs@.take(runs@.len() as int) =~= runs@);
    Ok((times, sums))
}

/// Up to an index inside run `k`, `k + 1` runs have begun.
proof fn lemma_runs_begun(t: Seq<i64>, dt: int, runs: Seq<Bucket>, k: int, i: int)
    requires
        is_run_partition(runs, t, dt),
        0 <= k < runs.len(),
        runs[k].start < i <= runs[k].end,
    ensures
        run_count(t, dt, i) == k + 1,
    decreases k, i,
{
    assert(is_run(runs[k], t, dt));
    if i - 1 > runs[k].start {
        lemma_runs_begun(t, dt, runs, k, i - 1);
        assert(key_at(t, dt, i - 1) == key_at(t, dt, runs[k].start as int));
        assert(key_at(t, dt, i - 2) == key_at(t, dt, runs[k].start as int));
    } else if k > 0 {
        assert(is_run(runs[k - 1], t, dt));
        assert(runs[k - 1].end == runs[k].start);
        lemma_runs_begun(t, dt, runs, k - 1, runs[k - 1].end as int);
        assert(key_at(t, dt, runs[k].start - 1) == key_at(t, dt, runs[k - 1].start as int));
    } else {
        assert(run_count(t, dt, 0) == 0);
    }
}

/// A list of the maximal runs of a stream holds as many runs as the stream
/// has positions at which the bucket changes, the first position included.
pub proof fn lemma_run_partition_counts(t: Seq<i64>, dt: int, runs: Seq<Bucket>)
    requires
        is_run_partition(runs, t, dt),
    ensures
        runs.len() == run_count(t, dt, t.len() as int),
{
    if runs.len() > 0 {
        let k = runs.len() - 1;
        assert(is_run(runs[k], t, dt));
        lemma_runs_begun(t, dt, runs, k, t.len() as int);
    }
}

/// The maximal runs of a stream are determined: two lists of them are the
/// same list.
pub proof fn lemma_run_partition_is_unique(t: Seq<i64>, dt: int, a: Seq<Bucket>, b: Seq<Bucket>)
    requires
        is_run_partition(a, t, dt),
        is_run_partition(b, t, dt),
    ensures
        a == b,
{
    if a.len() <= b.len() {
        lemma_same_runs(t, dt, a, b, a.len() as int);
    } else {
        lemma_same_runs(t, dt, b, a, b.len() as int);
    }
    assert(a =~= b);
}

/// Two lists of the maximal runs of a stream have the same first `n` runs,
/// and the shorter one is not a proper beginning of the other.
proof fn lemma_same_runs(t: Seq<i64>, dt: int, a: Seq<Bucket>, b: Seq<Bucket>, n: int)
    requires
        is_run_partition(a, t, dt),
        is_run_partition(b, t, dt),
        0 <= n <= a.len() <= b.len(),
    ensures
        forall|k: int| 0 <= k < n ==> #[trigger] a[k] == b[k],
        n == a.len() ==> a.len() == b.len(),
    decreases n,
{
    if n > 0 {
        lemma_same_runs(t, dt, a, b, n - 1);
        let k = n - 1;
        assert(is_run(a[k], t, dt));
        assert(is_run(b[k], t, dt));
        if k > 0 {
            assert(a[k - 1] == b[k - 1]);
            assert(a[k - 1].end == a[k].start);
            assert(b[k - 1].end == b[k].start);
        }
        assert(a[k].start == b[k].start);
        if a[k].end < b[k].end {
            // The run of `a` ends inside the run of `b`: the next run of `a`
            // starts in the same bucket.
            assert(k < a.len() - 1);
            assert(a[k].end == a[k + 1].start);
            assert(key_at(t, dt, a[k + 1].start as int) == key_at(t, dt, b[k].start as int));
        }
        if b[k].end < a[k].end {
            assert(k < b.len() - 1);
            assert(b[k].end == b[k + 1].start);
            assert(key_at(t, dt, b[k + 1].start as int) == key_at(t, dt, a[k].start as int));
        }
        assert(a[k] == b[k]);
        if n == a.len() && a.len() < b.len() {
            assert(b[k].end == b[k + 1].start);
            assert(is_run(b[k + 1], t, dt));
        }
    } else if a.len() == 0 {
    }
}

/// With buckets of width 1 and no two neighbouring timestamps equal, every
/// sample is a run of its own: there are as many buckets as samples, and the
/// bucket of sample `i` covers `i` alone and is labelled `t[i] + 1`.
pub proof fn lemma_unit_width_keeps_samples(t: Seq<i64>, runs: Seq<Bucket>)
    requires
        is_run_partition(runs, t, 1),
        forall|i: int| 0 <= i < t.len() - 1 ==> #[trigger] t[i] != t[i + 1],
    ensures
        runs.len() == t.len(),
        forall|i: int|
            0 <= i < t.len() ==> {
                &&& (#[trigger] runs[i]).start == i
                &&& runs[i].end == i + 1
                &&& runs[i].label == t[i] + 1
            },
{
    assert forall|i: int| 0 <= i < t.len() implies #[trigger] key_at(t, 1, i) == t[i] by {
        lemma_unit_key(t[i] as int);
    }
    lemma_unit_runs(t, runs, runs.len() as int);
    if runs.len() > 0 {
        assert(runs[runs.len() - 1].end == runs.len());
    }
}

/// Buckets of width 1 are the timestamps themselves.
proof fn lemma_unit_key(t: int)
    ensures
        bucket_key(t, 1) == t,
{
}

/// In a partition into runs of single samples, the first `n` runs cover the
/// first `n` samples one by one.
proof fn lemma_unit_runs(t: Seq<i64>, runs: Seq<Bucket>, n: int)
    requires
        is_run_partition(runs, t, 1),
        forall|i: int| 0 <= i < t.len() ==> #[trigger] key_at(t, 1, i) == t[i],
        forall|i: int| 0 <= i < t.len() - 1 ==> #[trigger] t[i] != t[i + 1],
        0 <= n <= runs.len(),
    ensures
        forall|k: int| 0 <= k < n ==> (#[trigger] runs[k]).start == k && runs[k].end == k + 1,
    decreases n,
{
    if n > 0 {
        lemma_unit_runs(t, runs, n - 1);
        let k = n - 1;
        let run = runs[k];
        assert(is_run(run, t, 1));
        if k > 0 {
            assert(runs[k - 1].end == runs[k - 1 + 1].start);
        }
        assert(run.start == k);
        if run.end > k + 1 {
            assert(key_at(t, 1, k + 1) == key_at(t, 1, k));
            assert(t[k] != t[k + 1]);
        }
    }
}

} // verus!
