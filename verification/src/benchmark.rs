//! The warm-up, calibration and sampling protocol of the reference
//! benchmarks: how many times a workload runs per sample, and the median and
//! 95th percentile of the per-iteration sample times.

use vstd::prelude::*;

use crate::sorting::lemma_swap_multiset;

verus! {

#[verifier::external_type_specification]
#[verifier::external_body]
pub struct ExInstant(std::time::Instant);

/// Runs before any sample is taken.
pub const WARMUP_RUNS: usize = 3;

/// Samples taken per measurement.
pub const SAMPLE_RUNS: usize = 25;

/// The time one calibrated sample should at least take.
pub const MIN_SAMPLE_TIME_NS: u128 = 2_000_000;

/// The most iterations one sample runs.
pub const MAX_ITERATIONS_PER_SAMPLE: usize = 1_048_576;

/// What one measurement reports.
pub struct Measurement<Output> {
    /// The output of the last run.
    pub output: Output,
    /// Median time of one iteration, in nanoseconds.
    pub median_ns: u128,
    /// 95th-percentile time of one iteration, in nanoseconds.
    pub p95_ns: u128,
    /// Iterations run per sample after calibration.
    pub iterations_per_sample: usize,
}

/// The current time, from `std::time::Instant::now`. Nothing is claimed of
/// it.
#[verifier::external_body]
fn now() -> std::time::Instant {
    std::time::Instant::now()
}

/// The time since `started`, from `Instant::elapsed`. Nothing is claimed of
/// it: it depends on the clock.
#[verifier::external_body]
fn elapsed(started: &std::time::Instant) -> std::time::Duration {
    started.elapsed()
}

/// A duration in whole nanoseconds, from `Duration::as_nanos`. Nothing is
/// claimed of it.
#[verifier::external_body]
fn as_nanos(duration: &std::time::Duration) -> u128 {
    duration.as_nanos()
}

/// Nanoseconds since `started`.
fn elapsed_ns(started: &std::time::Instant) -> u128 {
    let duration = elapsed(started);
    as_nanos(&duration)
}

/// `std::hint::black_box`, documented as an identity function that keeps the
/// optimizer from removing the computation of its argument: the value comes
/// back unchanged.
#[verifier::external_body]
fn black_box<T>(value: T) -> (result: T)
    ensures
        result == value,
{
    std::hint::black_box(value)
}

/// Whether `n` is a power of two.
pub open spec fn power_of_two(n: int) -> bool
    decreases n,
{
    if n <= 1 {
        n == 1
    } else {
        n % 2 == 0 && power_of_two(n / 2)
    }
}

/// The most iterations one sample runs is a power of two.
proof fn lemma_max_iterations_power_of_two()
    ensures
        power_of_two(MAX_ITERATIONS_PER_SAMPLE as int),
{
    reveal_with_fuel(power_of_two, 21);
}

/// The calibration step: `None` once a sample took long enough or ran the
/// most iterations allowed, else twice the iterations, capped.
pub fn next_iterations(iterations: usize, elapsed_ns: u128) -> (next: Option<usize>)
    requires
        1 <= iterations <= MAX_ITERATIONS_PER_SAMPLE,
    ensures
        next is None <==> (elapsed_ns >= MIN_SAMPLE_TIME_NS || iterations == MAX_ITERATIONS_PER_SAMPLE),
        next matches Some(n) ==> n == if 2 * iterations <= MAX_ITERATIONS_PER_SAMPLE {
            2 * iterations
        } else {
            MAX_ITERATIONS_PER_SAMPLE as int
        },
        next matches Some(n) ==> iterations < n <= MAX_ITERATIONS_PER_SAMPLE,
        next matches Some(n) ==> (power_of_two(iterations as int) ==> power_of_two(n as int)),
{
    proof {
        lemma_max_iterations_power_of_two();
        assert((2 * iterations) / 2 == iterations as int);
    }
    if elapsed_ns >= MIN_SAMPLE_TIME_NS || iterations == MAX_ITERATIONS_PER_SAMPLE {
        return None;
    }
    let doubled = iterations * 2;
    if doubled <= MAX_ITERATIONS_PER_SAMPLE {
        Some(doubled)
    } else {
        Some(MAX_ITERATIONS_PER_SAMPLE)
    }
}

/// Whether a sequence is in nondecreasing order.
pub open spec fn is_sorted(values: Seq<u128>) -> bool {
    forall|a: int, b: int| 0 <= a <= b < values.len() ==> values[a] <= values[b]
}

/// Sorts sample times in nondecreasing order.
pub fn sort_timings(timings: &mut Vec<u128>)
    ensures
        final(timings)@.len() == old(timings)@.len(),
        final(timings)@.to_multiset() == old(timings)@.to_multiset(),
        is_sorted(final(timings)@),
{
    let len = timings.len();
    if len < 2 {
        return;
    }
    let ghost initial = timings@;
    let mut i: usize = 1;
    while i < len
        invariant
            1 <= i <= len == timings@.len(),
            timings@.to_multiset() == initial.to_multiset(),
            forall|a: int, b: int| 0 <= a <= b < i ==> timings@[a] <= timings@[b],
        decreases len - i,
    {
        let mut j: usize = i;
        while j > 0 && timings[j - 1] > timings[j]
            invariant
                0 <= j <= i < len == timings@.len(),
                timings@.to_multiset() == initial.to_multiset(),
                forall|a: int, b: int| 0 <= a <= b <= i && a != j && b != j ==> timings@[a] <= timings@[b],
                forall|b: int| j < b <= i ==> timings@[j as int] <= timings@[b],
            decreases j,
        {
            let moving = timings[j];
            let previous = timings[j - 1];
            proof {
                lemma_swap_multiset(timings@, j as int, j - 1);
            }
            timings.set(j - 1, moving);
            timings.set(j, previous);
            j -= 1;
        }
        i += 1;
    }
}

/// The index of the 95th percentile among `len` sorted samples: the
/// ceiling of 95% of `len`, minus one.
pub open spec fn p95_index(len: int) -> int {
    (len * 95 + 99) / 100 - 1
}

/// The median and the 95th percentile of sample times, after sorting them.
pub fn summarize(timings: Vec<u128>) -> (result: (u128, u128))
    requires
        0 < timings@.len(),
        timings@.len() * 95 + 99 <= usize::MAX,
    ensures
        exists|sorted: Seq<u128>|
            #![trigger is_sorted(sorted)]
            is_sorted(sorted) && sorted.len() == timings@.len() && sorted.to_multiset() == timings@.to_multiset()
                && result.0 == sorted[(timings@.len() / 2) as int] && result.1 == sorted[p95_index(timings@.len() as int)],
{
    let ghost original = timings@;
    let mut timings = timings;
    sort_timings(&mut timings);
    let len = timings.len();
    let percentile = (len * 95 + 99) / 100 - 1;
    assert(0 <= percentile < len);
    let result = (timings[len / 2], timings[percentile]);
    assert(is_sorted(timings@));
    result
}

/// Measures `run`: warms up, calibrates how many iterations make one sample
/// long enough, then reports the median and 95th percentile of the
/// per-iteration times of the samples, and the output of the last run. The
/// first error that `run` returns is returned.
pub fn measure<Output, E, Run: Fn() -> Result<Output, E>>(run: Run) -> (result: Result<Measurement<Output>, E>)
    requires
        run.requires(()),
    ensures
        result matches Ok(measurement) ==> {
            &&& run.ensures((), Ok::<Output, E>(measurement.output))
            &&& 1 <= measurement.iterations_per_sample <= MAX_ITERATIONS_PER_SAMPLE
            &&& power_of_two(measurement.iterations_per_sample as int)
            &&& measurement.median_ns <= measurement.p95_ns
        },
        result matches Err(error) ==> run.ensures((), Err::<Output, E>(error)),
{
    let mut output = match run() {
        Ok(value) => black_box(value),
        Err(error) => return Err(error),
    };
    let mut warmup: usize = 1;
    while warmup < WARMUP_RUNS
        invariant
            run.requires(()),
            run.ensures((), Ok::<Output, E>(output)),
        decreases WARMUP_RUNS - warmup,
    {
        output = match run() {
            Ok(value) => black_box(value),
            Err(error) => return Err(error),
        };
        warmup += 1;
    }
    let mut iterations_per_sample: usize = 1;
    loop
        invariant
            run.requires(()),
            run.ensures((), Ok::<Output, E>(output)),
            1 <= iterations_per_sample <= MAX_ITERATIONS_PER_SAMPLE,
            power_of_two(iterations_per_sample as int),
        decreases MAX_ITERATIONS_PER_SAMPLE - iterations_per_sample,
    {
        let started = now();
        let mut iteration: usize = 0;
        while iteration < iterations_per_sample
            invariant
                run.requires(()),
                run.ensures((), Ok::<Output, E>(output)),
            decreases iterations_per_sample - iteration,
        {
            output = match run() {
                Ok(value) => black_box(value),
                Err(error) => return Err(error),
            };
            iteration += 1;
        }
        match next_iterations(iterations_per_sample, elapsed_ns(&started)) {
            None => break,
            Some(next) => {
                iterations_per_sample = next;
            },
        }
    }
    let mut timings: Vec<u128> = Vec::new();
    let mut sample: usize = 0;
    while sample < SAMPLE_RUNS
        invariant
            run.requires(()),
            run.ensures((), Ok::<Output, E>(output)),
            1 <= iterations_per_sample <= MAX_ITERATIONS_PER_SAMPLE,
            power_of_two(iterations_per_sample as int),
            timings@.len() == sample,
            sample <= SAMPLE_RUNS,
        decreases SAMPLE_RUNS - sample,
    {
        let started = now();
        let mut iteration: usize = 0;
        while iteration < iterations_per_sample
            invariant
                run.requires(()),
                run.ensures((), Ok::<Output, E>(output)),
            decreases iterations_per_sample - iteration,
        {
            output = match run() {
                Ok(value) => black_box(value),
                Err(error) => return Err(error),
            };
            iteration += 1;
        }
        timings.push(elapsed_ns(&started) / (iterations_per_sample as u128));
        sample += 1;
    }
    let (median_ns, p95_ns) = summarize(timings);
    proof {
        let sorted = choose|sorted: Seq<u128>|
            #![trigger is_sorted(sorted)]
            is_sorted(sorted) && sorted.len() == SAMPLE_RUNS && median_ns == sorted[(SAMPLE_RUNS / 2) as int]
                && p95_ns == sorted[p95_index(SAMPLE_RUNS as int)];
        assert(p95_index(SAMPLE_RUNS as int) == 23);
    }
    Ok(Measurement { output, median_ns, p95_ns, iterations_per_sample })
}

} // verus!
