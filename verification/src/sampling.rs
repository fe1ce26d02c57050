//! The sampling task's arithmetic and decisions: calibration of raw samples,
//! the batch accumulator, the RMS estimate, and what to do after each
//! acquisition attempt.

use vstd::prelude::*;

verus! {

/// Largest raw sample of the converter's nominal range.
pub const ADC_MAX: u32 = 4095;

/// Voltage read at `ADC_MAX`, in millivolts.
pub const VREF_MV: u32 = 3300;

/// Sensor output at zero current, in millivolts.
pub const V_ZERO_MV: u32 = 1500;

/// Sensor sensitivity, in millivolts per ampere.
pub const SENSE_MV_PER_A: u32 = 66;

/// Acquisition attempts that make up one batch.
pub const BATCH: u32 = 100;

/// Pause after a failed acquisition, in milliseconds.
pub const RETRY_BACKOFF_MS: u32 = 10;

/// Pause between two batches, in milliseconds.
pub const BATCH_PAUSE_MS: u32 = 10;

/// `num / den` rounded to the nearest integer, halves away from zero.
pub open spec fn round_to_nearest(num: int, den: int) -> int
    recommends
        den > 0,
{
    if num >= 0 {
        (2 * num + den) / (2 * den)
    } else {
        -((2 * (-num) + den) / (2 * den))
    }
}

/// The load current for a raw sample, to the nearest microampere.
///
/// The sample is scaled to a voltage (`raw / ADC_MAX * VREF`), the sensor's
/// zero offset is taken off and the rest divided by the sensitivity; the
/// quotient is taken once, over the exact numerator.
pub open spec fn calibrated_current(raw: u16) -> int {
    round_to_nearest(
        (raw * VREF_MV - V_ZERO_MV * ADC_MAX) * 1_000_000,
        ADC_MAX * SENSE_MV_PER_A,
    )
}

/// Sum of the squares of `currents`.
pub open spec fn sum_of_squares(currents: Seq<i32>) -> nat
    decreases currents.len(),
{
    if currents.len() == 0 {
        0
    } else {
        sum_of_squares(currents.drop_last()) + (currents.last() * currents.last()) as nat
    }
}

/// `rms` is the root of the mean square of `currents`, rounded down; of no
/// samples at all it is zero.
pub open spec fn is_rms_of(rms: nat, currents: Seq<i32>) -> bool {
    if currents.len() == 0 {
        rms == 0
    } else {
        &&& rms * rms * currents.len() <= sum_of_squares(currents)
        &&& sum_of_squares(currents) < (rms + 1) * (rms + 1) * currents.len()
    }
}

/// Converts a raw sample to the load current in microamperes.
pub fn current_from_raw(raw: u16) -> (microamps: i32)
    ensures
        microamps == calibrated_current(raw),
{
    proof {
        lemma_calibration_products(raw);
    }
    let scaled: u64 = raw as u64 * VREF_MV as u64;
    let zero: u64 = V_ZERO_MV as u64 * ADC_MAX as u64;
    let den: u64 = ADC_MAX as u64 * SENSE_MV_PER_A as u64;
    if scaled >= zero {
        let num: u64 = (scaled - zero) * 1_000_000;
        ((2 * num + den) / (2 * den)) as i32
    } else {
        let num: u64 = (zero - scaled) * 1_000_000;
        -(((2 * num + den) / (2 * den)) as i32)
    }
}

/// The products of the calibration constants, written out.
proof fn lemma_calibration_products(raw: u16)
    ensures
        raw * VREF_MV == raw * 3300,
        V_ZERO_MV * ADC_MAX == 6_142_500,
        ADC_MAX * SENSE_MV_PER_A == 270_270,
{
    assert(raw * VREF_MV == raw * 3300) by (nonlinear_arith)
        requires
            VREF_MV == 3300,
    ;
    assert(V_ZERO_MV * ADC_MAX == 6_142_500) by (nonlinear_arith)
        requires
            V_ZERO_MV == 1500,
            ADC_MAX == 4095,
    ;
    assert(ADC_MAX * SENSE_MV_PER_A == 270_270) by (nonlinear_arith)
        requires
            ADC_MAX == 4095,
            SENSE_MV_PER_A == 66,
    ;
}

/// The integer square root: the largest `root` whose square is at most `n`.
pub fn isqrt(n: u64) -> (root: u32)
    ensures
        root * root <= n < (root + 1) * (root + 1),
{
    let mut lo: u64 = 0;
    let mut hi: u64 = 0x1_0000_0000;
    assert(n < hi * hi) by (nonlinear_arith)
        requires
            hi == 0x1_0000_0000,
            n <= u64::MAX,
    ;
    while hi - lo > 1
        invariant
            lo < hi <= 0x1_0000_0000,
            lo * lo <= n < hi * hi,
        decreases hi - lo,
    {
        let mid: u64 = lo + (hi - lo) / 2;
        assert(mid * mid <= 0xFFFF_FFFF * 0xFFFF_FFFF) by (nonlinear_arith)
            requires
                mid <= 0xFFFF_FFFF,
        ;
        if mid * mid <= n {
            lo = mid;
        } else {
            hi = mid;
        }
    }
    lo as u32
}

/// Each square is below `2^62`, so a batch's sum stays far inside `u128`.
proof fn lemma_sum_of_squares_bound(currents: Seq<i32>)
    ensures
        sum_of_squares(currents) <= currents.len() * 0x4000_0000_0000_0000,
    decreases currents.len(),
{
    if currents.len() > 0 {
        lemma_sum_of_squares_bound(currents.drop_last());
        let c = currents.last();
        assert(0 <= c * c <= 0x4000_0000_0000_0000) by (nonlinear_arith)
            requires
                -0x8000_0000 <= c <= 0x7FFF_FFFF,
        ;
    }
}

/// The estimate over a batch in which no sample was accepted is zero.
pub proof fn lemma_rms_of_no_samples(rms: nat)
    requires
        is_rms_of(rms, Seq::<i32>::empty()),
    ensures
        rms == 0,
{
}

/// The estimate over a batch with samples is the largest integer whose
/// square is at most the mean of the samples' squares.
pub proof fn lemma_rms_is_root_of_mean_square(rms: nat, currents: Seq<i32>)
    requires
        currents.len() > 0,
        is_rms_of(rms, currents),
    ensures
        rms * rms <= sum_of_squares(currents) / currents.len(),
        sum_of_squares(currents) / currents.len() < (rms + 1) * (rms + 1),
{
    let n = currents.len() as int;
    let s = sum_of_squares(currents) as int;
    let r = rms as int;
    assert(r * r <= s / n && s / n < (r + 1) * (r + 1)) by (nonlinear_arith)
        requires
            n > 0,
            s >= 0,
            r * r * n <= s,
            s < (r + 1) * (r + 1) * n,
    ;
}

/// At most one number is the rounded-down root mean square of a batch.
pub proof fn lemma_rms_is_unique(a: nat, b: nat, currents: Seq<i32>)
    requires
        is_rms_of(a, currents),
        is_rms_of(b, currents),
    ensures
        a == b,
{
    if currents.len() > 0 {
        let n = currents.len();
        let s = sum_of_squares(currents);
        assert(a == b) by (nonlinear_arith)
            requires
                n > 0,
                a * a * n <= s,
                s < (a + 1) * (a + 1) * n,
                b * b * n <= s,
                s < (b + 1) * (b + 1) * n,
        ;
    }
}

/// The accepted samples of the batch being gathered: their count and the
/// running sum of their squares.
///
/// Its view is the sequence of accepted currents, in microamperes.
#[derive(Clone, Copy)]
pub struct SampleBatch {
    sum_sq: u128,
    count: u32,
    samples: Ghost<Seq<i32>>,
}

impl View for SampleBatch {
    type V = Seq<i32>;

    closed spec fn view(&self) -> Seq<i32> {
        self.samples@
    }
}

impl SampleBatch {
    #[verifier::type_invariant]
    spec fn sums_match(self) -> bool {
        &&& self.count == self.samples@.len()
        &&& self.count <= BATCH
        &&& self.sum_sq == sum_of_squares(self.samples@)
    }

    /// A batch without samples.
    pub fn new() -> (batch: SampleBatch)
        ensures
            batch@ == Seq::<i32>::empty(),
    {
        SampleBatch { sum_sq: 0, count: 0, samples: Ghost(Seq::empty()) }
    }

    /// Number of accepted samples.
    pub fn len(&self) -> (count: u32)
        ensures
            count == self@.len(),
            count <= BATCH,
    {
        proof {
            use_type_invariant(self);
        }
        self.count
    }

    /// Accepts one sample, a current in microamperes.
    pub fn add(&mut self, microamps: i32)
        requires
            old(self)@.len() < BATCH,
        ensures
            final(self)@ == old(self)@.push(microamps),
    {
        proof {
            use_type_invariant(&*self);
            lemma_sum_of_squares_bound(self.samples@);
            assert(0 <= microamps * microamps <= 0x4000_0000_0000_0000) by (nonlinear_arith)
                requires
                    -0x8000_0000 <= microamps <= 0x7FFF_FFFF,
            ;
            assert(self.samples@.push(microamps).drop_last() =~= self.samples@);
        }
        let wide: i64 = microamps as i64;
        let square: u128 = (wide * wide) as u128;
        *self = SampleBatch {
            sum_sq: self.sum_sq + square,
            count: self.count + 1,
            samples: Ghost(self.samples@.push(microamps)),
        };
    }

    /// Forgets all samples.
    pub fn reset(&mut self)
        ensures
            final(self)@ == Seq::<i32>::empty(),
    {
        *self = SampleBatch::new();
    }

    /// The root mean square of the accepted samples in microamperes, rounded
    /// down; zero where no sample was accepted.
    pub fn rms(&self) -> (microamps: u32)
        ensures
            is_rms_of(microamps as nat, self@),
    {
        proof {
            use_type_invariant(self);
            lemma_sum_of_squares_bound(self.samples@);
        }
        if self.count == 0 {
            return 0;
        }
        let n: u128 = self.count as u128;
        assert(self.sum_sq / n <= 0x4000_0000_0000_0000) by (nonlinear_arith)
            requires
                n > 0,
                self.sum_sq <= n * 0x4000_0000_0000_0000,
        ;
        let mean: u64 = (self.sum_sq / n) as u64;
        let root: u32 = isqrt(mean);
        proof {
            let s = self.sum_sq as int;
            let m = mean as int;
            let r = root as int;
            let k = n as int;
            assert(m == s / k);
            assert(r * r * k <= s && s < (r + 1) * (r + 1) * k) by (nonlinear_arith)
                requires
                    k > 0,
                    s >= 0,
                    m == s / k,
                    r * r <= m,
                    m < (r + 1) * (r + 1),
            ;
        }
        root
    }
}

/// The accepted samples once the outcome of one more acquisition attempt is
/// known: a raw sample is calibrated and accepted, a failure adds nothing.
pub open spec fn with_reading(accepted: Seq<i32>, reading: Option<u16>) -> Seq<i32> {
    match reading {
        Some(raw) => accepted.push(calibrated_current(raw) as i32),
        None => accepted,
    }
}

/// The pause that follows an acquisition attempt: none after a sample, the
/// retry backoff after a failure.
pub open spec fn wait_after(reading: Option<u16>) -> u32 {
    match reading {
        Some(_) => 0,
        None => RETRY_BACKOFF_MS,
    }
}

/// What the sampling task does after an acquisition attempt.
#[derive(Clone, Copy, Debug, PartialEq, Eq, Structural)]
pub enum SamplerAction {
    /// Wait `wait_ms` milliseconds, then make the next attempt of the batch.
    Acquire { wait_ms: u32 },
    /// The batch is over. Wait `wait_ms` milliseconds, publish `rms`
    /// microamperes as the current estimate, wait `pause_ms` milliseconds,
    /// then make the first attempt of the next batch.
    Publish { wait_ms: u32, rms: u32, pause_ms: u32 },
}

/// The sampling task between two acquisition attempts: the batch gathered so
/// far and the number of attempts spent on it.
///
/// A batch is `BATCH` attempts long, whether they succeed or fail: a failed
/// attempt uses up its slot, so a source that keeps failing cannot stall the
/// task.
pub struct Sampler {
    batch: SampleBatch,
    attempts: u32,
}

impl Sampler {
    #[verifier::type_invariant]
    spec fn within_batch(self) -> bool {
        &&& self.attempts < BATCH
        &&& self.batch@.len() <= self.attempts
    }

    /// The currents accepted in the batch so far, in microamperes.
    pub closed spec fn accepted(&self) -> Seq<i32> {
        self.batch@
    }

    /// The attempts made in the batch so far.
    pub closed spec fn attempts(&self) -> nat {
        self.attempts as nat
    }

    /// A sampler at the start of a batch.
    pub fn new() -> (sampler: Sampler)
        ensures
            sampler.accepted() == Seq::<i32>::empty(),
            sampler.attempts() == 0,
    {
        Sampler { batch: SampleBatch::new(), attempts: 0 }
    }

    /// Takes in the outcome of one acquisition attempt, `None` for a failed
    /// one, and says what to do next.
    ///
    /// Before the last attempt of a batch the outcome is only recorded. The
    /// last attempt ends the batch: the estimate over the accepted samples is
    /// handed out for publication, zero if every attempt failed, and the
    /// sampler starts over.
    pub fn step(&mut self, reading: Option<u16>) -> (action: SamplerAction)
        ensures
            old(self).attempts() + 1 < BATCH ==> {
                &&& final(self).accepted() == with_reading(old(self).accepted(), reading)
                &&& final(self).attempts() == old(self).attempts() + 1
                &&& action == (SamplerAction::Acquire { wait_ms: wait_after(reading) })
            },
            old(self).attempts() + 1 >= BATCH ==> {
                &&& final(self).accepted() == Seq::<i32>::empty()
                &&& final(self).attempts() == 0
                &&& action matches SamplerAction::Publish { wait_ms, rms, pause_ms }
                &&& wait_ms == wait_after(reading)
                &&& pause_ms == BATCH_PAUSE_MS
                &&& is_rms_of(rms as nat, with_reading(old(self).accepted(), reading))
            },
    {
        proof {
            use_type_invariant(&*self);
        }
        let mut batch = self.batch;
        let wait_ms: u32 = match reading {
            Some(raw) => {
                batch.add(current_from_raw(raw));
                0
            },
            None => RETRY_BACKOFF_MS,
        };
        if self.attempts + 1 < BATCH {
            *self = Sampler { batch, attempts: self.attempts + 1 };
            SamplerAction::Acquire { wait_ms }
        } else {
            let rms = batch.rms();
            *self = Sampler::new();
            SamplerAction::Publish { wait_ms, rms, pause_ms: BATCH_PAUSE_MS }
        }
    }
}

} // verus!
