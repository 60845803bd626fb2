//! Ticks, and what they are worth in nanoseconds.

use quanta::Clock as Meter;
use std::sync::Arc;
use vstd::arithmetic::div_mod::{lemma_div_is_ordered, lemma_fundamental_div_mod};
use vstd::arithmetic::mul::lemma_mul_inequality;
use vstd::arithmetic::power2::{lemma2_to64, lemma2_to64_rest, pow2};
use vstd::prelude::*;

pub use quanta::Mock;

verus! {

#[verifier::external_type_specification]
#[verifier::external_body]
pub struct ExMeter(Meter);

#[verifier::external_type_specification]
#[verifier::external_body]
pub struct ExMock(quanta::Mock);

/// The nanoseconds that a calibrated clock makes of `delta` ticks.
pub uninterp spec fn scaled_nanos(meter: Meter, delta: u64) -> u64;

/// `quanta::Clock::delta_as_nanos`: nothing when the end does not come after the
/// start, and otherwise a number that depends on the clock's calibration and on
/// the distance between the two readings alone.
#[verifier::external_body]
fn measured_nanos(meter: &Meter, start: u64, end: u64) -> (ns: u64)
    ensures
        ns == (if end <= start {
            0
        } else {
            scaled_nanos(*meter, (end - start) as u64)
        }),
{
    meter.delta_as_nanos(start, end)
}

/// `quanta::Clock::raw`: the current reading, of which nothing is promised.
#[verifier::external_body]
fn measured_raw(meter: &Meter) -> u64 {
    meter.raw()
}

/// `quanta::Clock::new`: a clock calibrated against this machine.
#[verifier::external_body]
fn calibrated() -> Meter {
    Meter::new()
}

/// `quanta::Clock::mock`, its handle moved from zero to `ticks` by
/// `quanta::Mock::increment`, and what the clock then reads. One tick of such a
/// clock is one nanosecond.
#[verifier::external_body]
fn mocked_at(ticks: u64) -> (r: (Meter, Arc<quanta::Mock>, u64))
    ensures
        r.2 == ticks,
        forall|delta: u64| #[trigger] scaled_nanos(r.0, delta) == delta,
{
    let (meter, mock) = Meter::mock();
    mock.increment(ticks);
    let reading = meter.raw();
    (meter, mock, reading)
}

/// `quanta::Clock::clone`: a clock that makes the same of any number of ticks.
#[verifier::external_body]
fn same_meter(meter: &Meter) -> (copy: Meter)
    ensures
        forall|delta: u64| #[trigger] scaled_nanos(copy, delta) == scaled_nanos(*meter, delta),
{
    meter.clone()
}

#[derive(Debug)]
enum Source {
    SelfDescribing { nanos_num: u64, nanos_den: u64 },
    Measured(Meter),
}

/// A clock, anchored at the reading it had when it was made.
#[derive(Debug)]
pub struct Clock {
    source: Source,
    start_ticks: u64,
}

/// The low 64 bits of a count.
pub open spec fn low64(n: int) -> u64 {
    (n % 0x1_0000_0000_0000_0000) as u64
}

/// A sum that stops at the largest count.
pub open spec fn clamped_sum(a: int, b: int) -> u64 {
    if a + b > u64::MAX {
        u64::MAX
    } else {
        (a + b) as u64
    }
}

impl Clone for Clock {
    /// Another clock with the same anchor, which makes the same of any reading.
    fn clone(&self) -> (copy: Self)
        ensures
            copy.rate() == self.rate(),
            copy.anchor() == self.anchor(),
            forall|ticks: u64| #[trigger] copy.ns_at(ticks) == self.ns_at(ticks),
    {
        proof {
            use_type_invariant(self);
        }
        match &self.source {
            Source::SelfDescribing { nanos_num, nanos_den } => Clock {
                source: Source::SelfDescribing { nanos_num: *nanos_num, nanos_den: *nanos_den },
                start_ticks: self.start_ticks,
            },
            Source::Measured(meter) => Clock {
                source: Source::Measured(same_meter(meter)),
                start_ticks: self.start_ticks,
            },
        }
    }
}

impl Clock {
    #[verifier::type_invariant]
    spec fn rate_is_usable(&self) -> bool {
        self.source matches Source::SelfDescribing { nanos_num, nanos_den } ==> nanos_num > 0
            && nanos_den > 0
    }

    /// The reading that counts as time zero.
    pub closed spec fn anchor(&self) -> u64 {
        self.start_ticks
    }

    /// Nanoseconds per tick as a fraction, for a counter that states its own rate.
    pub closed spec fn rate(&self) -> Option<(u64, u64)> {
        match self.source {
            Source::SelfDescribing { nanos_num, nanos_den } => Some((nanos_num, nanos_den)),
            Source::Measured(_) => None,
        }
    }

    /// The calibrated clock behind a clock whose counter does not state its rate.
    pub closed spec fn meter(&self) -> Meter {
        self.source->Measured_0
    }

    /// Whether this is a reading that was taken of the calibrated clock behind this one.
    pub closed spec fn was_read(&self, ticks: u64) -> bool {
        call_ensures(measured_raw, (&self.meter(),), ticks)
    }

    /// Whether the clock behind this one was calibrated against the machine.
    pub closed spec fn is_calibrated(&self) -> bool {
        call_ensures(calibrated, (), self.meter())
    }

    /// Whether this is a mock clock, and this the handle that came with it.
    pub closed spec fn is_moved_by(&self, handle: Arc<Mock>) -> bool {
        exists|from: u64, reading: u64| #[trigger]
            call_ensures(mocked_at, (from,), (self.meter(), handle, reading))
    }

    /// The nanoseconds between the anchor and a reading.
    pub open spec fn ns_at(&self, ticks: u64) -> u64 {
        if ticks <= self.anchor() {
            0
        } else {
            let delta = (ticks - self.anchor()) as u64;
            match self.rate() {
                Some((num, den)) => low64(delta * num / (den as int)),
                None => scaled_nanos(self.meter(), delta),
            }
        }
    }

    /// Whether one tick is one nanosecond, as it is on a mock clock.
    pub open spec fn counts_nanoseconds(&self) -> bool {
        &&& self.rate() is None
        &&& forall|delta: u64| #[trigger] scaled_nanos(self.meter(), delta) == delta
    }

    /// Whether a later reading never stands for an earlier time.
    pub open spec fn is_monotonic(&self) -> bool {
        forall|a: u64, b: u64| a <= b ==> #[trigger] self.ns_at(a) <= #[trigger] self.ns_at(b)
    }

    /// Whether the reading `2^k` ticks past the anchor has come to `ns`.
    pub open spec fn span_reaches(&self, k: nat, ns: u64) -> bool {
        self.ns_at(clamped_sum(self.anchor() as int, pow2(k) as int)) >= ns
    }

    /// What it means for `ticks` to be the reading that stands for `ns`.
    ///
    /// A counter that states its rate is divided through. Otherwise the reading is
    /// the one at which the clock comes to `ns`, no further out than the first
    /// power of two that does; and the last reading there is when none does.
    pub open spec fn reads(&self, ns: u64, ticks: u64) -> bool {
        match self.rate() {
            Some((num, den)) => ticks == clamped_sum(
                self.anchor() as int,
                low64(ns * den / (num as int)) as int,
            ),
            None => if exists|k: nat| k < 64 && #[trigger] self.span_reaches(k, ns) {
                &&& self.anchor() <= ticks
                &&& self.ns_at(ticks) >= ns
                &&& ticks == self.anchor() || self.ns_at((ticks - 1) as u64) < ns
                &&& forall|k: nat|
                    k < 64 && #[trigger] self.span_reaches(k, ns) ==> ticks <= clamped_sum(
                        self.anchor() as int,
                        pow2(k) as int,
                    )
            } else {
                ticks == u64::MAX
            },
        }
    }

    /// A clock over a counter that ticks `timebase.1` times per `timebase.0`
    /// nanoseconds and now reads `counter`; or, where the machine states no such
    /// rate, over a calibrated clock.
    pub fn starting_now(timebase: Option<(u64, u64)>, counter: u64) -> (clock: Self)
        requires
            timebase matches Some((num, den)) ==> num > 0 && den > 0,
        ensures
            clock.rate() == timebase,
            timebase is Some ==> clock.anchor() == counter,
            timebase is None ==> clock.is_calibrated() && clock.was_read(clock.anchor()),
    {
        match timebase {
            Some((nanos_num, nanos_den)) => Clock {
                source: Source::SelfDescribing { nanos_num, nanos_den },
                start_ticks: counter,
            },
            None => {
                let meter = calibrated();
                let start_ticks: u64 = measured_raw(&meter);
                Self::anchored(meter, start_ticks)
            },
        }
    }

    /// A clock that moves only when its handle is told to.
    pub fn mock() -> (r: (Self, Arc<Mock>))
        ensures
            r.0.is_moved_by(r.1),
            r.0.counts_nanoseconds(),
            r.0.anchor() == 0,
    {
        Self::mock_starting_at(0)
    }

    /// A mock clock whose handle has already been moved to `start_ticks`.
    pub fn mock_starting_at(start_ticks: u64) -> (r: (Self, Arc<Mock>))
        ensures
            r.0.is_moved_by(r.1),
            r.0.counts_nanoseconds(),
            r.0.anchor() == start_ticks,
    {
        let (inner, mock, reading) = mocked_at(start_ticks);
        (Self::anchored(inner, reading), mock)
    }

    /// A clock over a calibrated one, anchored at a reading of it.
    pub fn anchored(meter: Meter, start_ticks: u64) -> (clock: Self)
        ensures
            clock.rate() is None,
            clock.meter() == meter,
            clock.anchor() == start_ticks,
    {
        Clock { source: Source::Measured(meter), start_ticks }
    }

    /// Whether the counter states its own rate, and is read without this clock.
    pub fn is_direct(&self) -> (direct: bool)
        ensures
            direct == (self.rate() is Some),
    {
        matches!(self.source, Source::SelfDescribing { .. })
    }

    /// The current reading of a calibrated clock. A counter that states its own
    /// rate is read by an instruction of the machine instead.
    pub fn raw(&self) -> (ticks: u64)
        requires
            self.rate() is None,
        ensures
            self.was_read(ticks),
    {
        match &self.source {
            Source::SelfDescribing { .. } => self.start_ticks,
            Source::Measured(meter) => measured_raw(meter),
        }
    }

    /// The nanoseconds between the anchor and a reading; none before the anchor.
    pub fn ns_since_start(&self, ticks: u64) -> (ns: u64)
        ensures
            ns == self.ns_at(ticks),
    {
        proof {
            use_type_invariant(self);
        }
        match &self.source {
            Source::SelfDescribing { nanos_num, nanos_den } => {
                let delta: u128 = ticks.saturating_sub(self.start_ticks) as u128;
                let num: u128 = *nanos_num as u128;
                let den: u128 = *nanos_den as u128;
                proof {
                    lemma_product_fits(delta as u64, *nanos_num);
                }
                let ns: u128 = delta * num / den;
                proof {
                    lemma_low64(ns);
                    if delta == 0 {
                        assert(0 * num == 0) by (nonlinear_arith);
                        assert(0int / den as int == 0) by (nonlinear_arith)
                            requires
                                den > 0,
                        ;
                    }
                }
                #[verifier::truncate]
                (ns as u64)
            },
            Source::Measured(meter) => measured_nanos(meter, self.start_ticks, ticks),
        }
    }

    /// The reading that counts as time zero.
    pub fn start_ticks(&self) -> (ticks: u64)
        ensures
            ticks == self.anchor(),
    {
        self.start_ticks
    }

    /// The reading that stands for `ns` nanoseconds after the anchor.
    pub fn ticks_from_ns(&self, ns: u64) -> (ticks: u64)
        ensures
            self.reads(ns, ticks),
    {
        proof {
            use_type_invariant(self);
        }
        match &self.source {
            Source::SelfDescribing { nanos_num, nanos_den } => {
                let num: u128 = *nanos_num as u128;
                let den: u128 = *nanos_den as u128;
                proof {
                    lemma_product_fits(ns, *nanos_den);
                }
                let ticks: u128 = ns as u128 * den / num;
                proof {
                    lemma_low64(ticks);
                }
                self.start_ticks.saturating_add(#[verifier::truncate] (ticks as u64))
            },
            Source::Measured(_) => self.search_from_ns(ns),
        }
    }

    /// Doubles a span until the clock has come to `ns` at its end, and then halves
    /// the last stretch of it down to the reading at which it does.
    fn search_from_ns(&self, ns: u64) -> (ticks: u64)
        requires
            self.rate() is None,
        ensures
            self.reads(ns, ticks),
    {
        let ghost mut k: nat = 0;
        let mut span: u64 = 1;
        proof {
            lemma2_to64();
            lemma2_to64_rest();
        }
        while self.ns_since_start(self.start_ticks.saturating_add(span)) < ns
            invariant
                self.rate() is None,
                k < 64,
                span == pow2(k),
                forall|j: nat| j < k ==> !#[trigger] self.span_reaches(j, ns),
            decreases 64 - k,
        {
            assert(!self.span_reaches(k, ns));
            let ghost last = k;
            proof {
                lemma_doubling(k);
            }
            let doubled = span.checked_mul(2);
            match doubled {
                None => {
                    assert(forall|j: nat| j < 64 ==> !#[trigger] self.span_reaches(j, ns));
                    return u64::MAX;
                },
                Some(d) => {
                    span = d;
                },
            }
            proof {
                k = k + 1;
            }
        }
        assert(self.span_reaches(k, ns));
        let mut lo: u64 = self.start_ticks.saturating_add(span / 2);
        let mut hi: u64 = self.start_ticks.saturating_add(span);
        proof {
            if k > 0 {
                lemma_doubling((k - 1) as nat);
                assert(!self.span_reaches((k - 1) as nat, ns));
                assert(span / 2 == pow2((k - 1) as nat));
            }
        }
        let ghost first = lo;
        let ghost last = hi;
        while lo < hi
            invariant
                first <= lo <= hi <= last,
                first >= self.anchor(),
                self.ns_at(hi) >= ns,
                lo == first || self.ns_at((lo - 1) as u64) < ns,
            decreases hi - lo,
        {
            let mid: u64 = lo + (hi - lo) / 2;
            if self.ns_since_start(mid) < ns {
                lo = mid + 1;
            } else {
                hi = mid;
            }
        }
        proof {
            if k > 0 && lo == first {
                assert(self.ns_at(first) < ns);
            }
            assert forall|j: nat| j < 64 && #[trigger] self.span_reaches(j, ns) implies lo
                <= clamped_sum(self.anchor() as int, pow2(j) as int) by {
                assert(j >= k);
                lemma_spans_grow(k, j);
            }
        }
        lo
    }
}

proof fn lemma_product_fits(a: u64, b: u64)
    ensures
        0 <= a * b <= u128::MAX,
        (a as u128) * (b as u128) == a * b,
{
    lemma_mul_inequality(a as int, u64::MAX as int, b as int);
    lemma_mul_inequality(b as int, u64::MAX as int, u64::MAX as int);
    assert(a * b <= u64::MAX * u64::MAX) by (nonlinear_arith)
        requires
            a <= u64::MAX,
            b <= u64::MAX,
    ;
    assert(0 <= a * b) by (nonlinear_arith);
}

proof fn lemma_low64(n: u128)
    ensures
        n as u64 == low64(n as int),
{
    assert(n as u64 == n % 0x1_0000_0000_0000_0000u128) by (bit_vector);
}

proof fn lemma_doubling(k: nat)
    ensures
        pow2(k + 1) == 2 * pow2(k),
        k < 63 ==> 2 * pow2(k) <= u64::MAX,
        k == 63 ==> 2 * pow2(k) > u64::MAX,
        k < 63 ==> pow2(k) <= 0x4000_0000_0000_0000,
{
    vstd::arithmetic::power2::lemma_pow2_unfold(k + 1);
    lemma2_to64();
    lemma2_to64_rest();
    if k < 62 {
        vstd::arithmetic::power2::lemma_pow2_strictly_increases(k, 62);
    }
}

proof fn lemma_spans_grow(j: nat, k: nat)
    requires
        j <= k,
    ensures
        pow2(j) <= pow2(k),
{
    if j < k {
        vstd::arithmetic::power2::lemma_pow2_strictly_increases(j, k);
    }
}

/// No reading up to the anchor stands for any time.
pub proof fn readings_before_the_anchor_are_zero(clock: Clock, ticks: u64)
    requires
        ticks <= clock.anchor(),
    ensures
        clock.ns_at(ticks) == 0,
{
}

/// A clock over a counter that states its rate never runs backwards, as long as
/// the time it stands for fits its 64 bits.
pub proof fn direct_readings_are_monotonic(clock: Clock, a: u64, b: u64)
    requires
        clock.rate() matches Some((num, den)) && den > 0 && (b - clock.anchor()) * num
            / (den as int) <= u64::MAX,
        a <= b,
    ensures
        clock.ns_at(a) <= clock.ns_at(b),
{
    if a > clock.anchor() {
        let (num, den) = clock.rate().unwrap();
        let da = a - clock.anchor();
        let db = b - clock.anchor();
        lemma_mul_inequality(da, db, num as int);
        lemma_div_is_ordered(da * num, db * num, den as int);
        assert(0 <= da * num) by (nonlinear_arith)
            requires
                da >= 0,
        ;
        assert(0 <= da * num / (den as int)) by (nonlinear_arith)
            requires
                da * num >= 0,
                den > 0,
        ;
    }
}

/// A mock clock never runs backwards.
pub proof fn mock_readings_are_monotonic(clock: Clock)
    requires
        clock.counts_nanoseconds(),
    ensures
        clock.is_monotonic(),
{
}

/// Zero nanoseconds are read at the anchor.
pub proof fn zero_is_read_at_the_anchor(clock: Clock, ticks: u64)
    requires
        clock.reads(0, ticks),
        clock.rate() matches Some((num, den)) ==> num > 0,
    ensures
        ticks == clock.anchor(),
{
    match clock.rate() {
        Some((num, den)) => {
            assert(0 * den == 0) by (nonlinear_arith);
            assert(0int / (num as int) == 0) by (nonlinear_arith)
                requires
                    num > 0,
            ;
        },
        None => {
            assert(clock.span_reaches(0, 0));
        },
    }
}

/// Where the clock never runs backwards, the reading for a time is the first one
/// that has come to it.
pub proof fn the_reading_for_a_time_is_the_first(clock: Clock, ns: u64, ticks: u64, other: u64)
    requires
        clock.rate() is None,
        clock.is_monotonic(),
        clock.reads(ns, ticks),
        clock.anchor() <= other,
        clock.ns_at(other) >= ns,
        ticks < u64::MAX,
    ensures
        clock.ns_at(ticks) >= ns,
        ticks <= other,
{
    if ticks > other && ticks != clock.anchor() {
        assert(clock.ns_at(other) <= clock.ns_at((ticks - 1) as u64));
    }
}

/// On a mock clock, converting a time to a reading and back gives the time, for
/// every time that a span of at most `2^63` ticks comes to.
pub proof fn mock_conversion_inverts(clock: Clock, ns: u64, ticks: u64)
    requires
        clock.counts_nanoseconds(),
        clock.reads(ns, ticks),
        clock.anchor() + ns <= u64::MAX,
        ns <= 0x8000_0000_0000_0000 || clock.anchor() >= 0x8000_0000_0000_0000,
    ensures
        clock.ns_at(ticks) == ns,
{
    lemma2_to64();
    lemma2_to64_rest();
    let top = pow2(63) as int;
    if clock.anchor() + top > u64::MAX {
        assert(clock.span_reaches(63, ns)) by {
            assert(clock.ns_at(u64::MAX) == u64::MAX - clock.anchor());
        }
    } else if ns <= top {
        assert(clock.span_reaches(63, ns));
    }
    if exists|k: nat| k < 64 && #[trigger] clock.span_reaches(k, ns) {
        if clock.ns_at(ticks) > ns {
            assert(clock.ns_at((ticks - 1) as u64) == clock.ns_at(ticks) - 1);
        }
    }
}

/// On a counter that states its rate, a time that goes to a reading and back
/// loses less than the time of one tick, rounded up.
pub proof fn direct_conversion_inverts_within_a_tick(clock: Clock, ns: u64, ticks: u64)
    requires
        clock.rate() matches Some((num, den)) && num > 0 && den > 0 && clock.anchor() + ns * den
            / (num as int) <= u64::MAX,
        clock.reads(ns, ticks),
    ensures
        clock.ns_at(ticks) <= ns,
        clock.rate() matches Some((num, den)) ==> (ns - clock.ns_at(ticks) - 1) * den < num,
{
    let (num, den) = clock.rate().unwrap();
    let n = num as int;
    let d = den as int;
    let t = ns * d / n;
    assert(0 <= ns * d) by (nonlinear_arith)
        requires
            d > 0,
            ns >= 0,
    ;
    lemma_fundamental_div_mod(ns * d, n);
    assert(t >= 0) by (nonlinear_arith)
        requires
            ns * d >= 0,
            n > 0,
            t == ns * d / n,
    ;
    assert(ticks == clock.anchor() + t);
    let back = t * n / d;
    lemma_fundamental_div_mod(t * n, d);
    assert(n * t == t * n) by (nonlinear_arith);
    assert(back <= ns && back >= 0) by (nonlinear_arith)
        requires
            back == t * n / d,
            0 <= t * n <= ns * d,
            d > 0,
    ;
    assert((ns - back - 1) * d < n) by (nonlinear_arith)
        requires
            t * n == d * back + (t * n) % d,
            0 <= (t * n) % d < d,
            ns * d == t * n + (ns * d) % n,
            0 <= (ns * d) % n < n,
            d > 0,
    ;
    if t == 0 {
        assert(0 * n == 0) by (nonlinear_arith);
        assert(0int / d == 0) by (nonlinear_arith)
            requires
                d > 0,
        ;
    }
}

/// A clock over a counter that states its rate counts the nanoseconds that have passed
/// since the anchor, and no part of one.
pub proof fn a_direct_reading_is_the_time_that_has_passed(clock: Clock, ticks: u64)
    requires
        clock.rate() matches Some((num, den)) && den > 0 && (ticks - clock.anchor()) * num
            < 0x1_0000_0000_0000_0000 * den,
        ticks >= clock.anchor(),
    ensures
        clock.rate() matches Some((num, den)) ==> clock.ns_at(ticks) * den <= (ticks
            - clock.anchor()) * num < (clock.ns_at(ticks) + 1) * den,
{
    let (num, den) = clock.rate().unwrap();
    let n = num as int;
    let d = den as int;
    let delta = ticks - clock.anchor();
    assert(0 <= delta * n) by (nonlinear_arith)
        requires
            delta >= 0,
            n >= 0,
    ;
    if ticks == clock.anchor() {
        assert(0 * n == 0) by (nonlinear_arith);
        assert(0 * d == 0 && (0 + 1) * d == d) by (nonlinear_arith);
        assert(delta == 0 && clock.ns_at(ticks) == 0);
    } else {
        let q = delta * n / d;
        lemma_fundamental_div_mod(delta * n, d);
        assert(0 <= q < 0x1_0000_0000_0000_0000) by (nonlinear_arith)
            requires
                delta * n == d * q + (delta * n) % d,
                0 <= (delta * n) % d < d,
                0 <= delta * n < 0x1_0000_0000_0000_0000 * d,
        ;
        assert(q * d <= delta * n < (q + 1) * d) by (nonlinear_arith)
            requires
                delta * n == d * q + (delta * n) % d,
                0 <= (delta * n) % d < d,
        ;
        assert(clock.ns_at(ticks) == q);
    }
}

/// On a counter that states its rate, the reading for a time is the last one that has not
/// passed it.
pub proof fn a_direct_time_is_read_at_the_last_tick(clock: Clock, ns: u64, ticks: u64)
    requires
        clock.rate() matches Some((num, den)) && num > 0 && clock.anchor() + ns * den / (
        num as int) <= u64::MAX,
        clock.reads(ns, ticks),
    ensures
        ticks >= clock.anchor(),
        clock.rate() matches Some((num, den)) ==> (ticks - clock.anchor()) * num <= ns * den < (
        ticks - clock.anchor() + 1) * num,
{
    let (num, den) = clock.rate().unwrap();
    let n = num as int;
    let d = den as int;
    let q = ns * d / n;
    assert(0 <= ns * d) by (nonlinear_arith)
        requires
            ns >= 0,
            d >= 0,
    ;
    lemma_fundamental_div_mod(ns * d, n);
    assert(0 <= q && q * n <= ns * d < (q + 1) * n) by (nonlinear_arith)
        requires
            ns * d == n * q + (ns * d) % n,
            0 <= (ns * d) % n < n,
            ns * d >= 0,
    ;
}

/// A mock clock reads a nanosecond for each tick past its anchor.
pub proof fn a_mock_reading_is_the_time_that_has_passed(clock: Clock, ticks: u64)
    requires
        clock.counts_nanoseconds(),
    ensures
        ticks >= clock.anchor() ==> clock.ns_at(ticks) == ticks - clock.anchor(),
        ticks <= clock.anchor() ==> clock.ns_at(ticks) == 0,
{
}

/// Only the distance to the anchor counts: two clocks that run alike make the same of two
/// readings that lie equally far from their anchors.
pub proof fn only_the_distance_to_the_anchor_counts(a: Clock, b: Clock, s: u64, t: u64)
    requires
        a.rate() == b.rate(),
        a.meter() == b.meter(),
        s - a.anchor() == t - b.anchor(),
    ensures
        a.ns_at(s) == b.ns_at(t),
{
}

/// No reading for a time lies before the anchor.
pub proof fn a_time_is_read_no_earlier_than_the_anchor(clock: Clock, ns: u64, ticks: u64)
    requires
        clock.reads(ns, ticks),
    ensures
        ticks >= clock.anchor(),
{
}

/// What a clock makes of a reading: the whole nanoseconds since the anchor where the counter
/// states its rate, a nanosecond for each tick on a mock clock, and zero before the anchor.
pub proof fn a_clock_tells_the_time_that_has_passed(clock: Clock, ticks: u64, ns: u64)
    requires
        call_ensures(Clock::ns_since_start, (&clock, ticks), ns),
        clock.rate() matches Some((num, den)) ==> den > 0 && (ticks - clock.anchor()) * num
            < 0x1_0000_0000_0000_0000 * den,
    ensures
        ticks <= clock.anchor() ==> ns == 0,
        ticks >= clock.anchor() ==> (clock.rate() matches Some((num, den)) ==> ns * den <= (ticks
            - clock.anchor()) * num < (ns + 1) * den),
        ticks >= clock.anchor() && clock.counts_nanoseconds() ==> ns == ticks - clock.anchor(),
{
    if ticks >= clock.anchor() && clock.rate() is Some {
        a_direct_reading_is_the_time_that_has_passed(clock, ticks);
    }
}

/// What a clock makes of a time: the last reading that has not passed it where the counter
/// states its rate, and never one before the anchor.
pub proof fn a_clock_finds_the_reading_of_a_time(clock: Clock, ns: u64, ticks: u64)
    requires
        call_ensures(Clock::ticks_from_ns, (&clock, ns), ticks),
        clock.rate() matches Some((num, den)) ==> num > 0 && clock.anchor() + ns * den / (
        num as int) <= u64::MAX,
    ensures
        ticks >= clock.anchor(),
        clock.rate() matches Some((num, den)) ==> (ticks - clock.anchor()) * num <= ns * den < (
        ticks - clock.anchor() + 1) * num,
        clock.counts_nanoseconds() && clock.anchor() + ns <= u64::MAX && ns
            <= 0x8000_0000_0000_0000 ==> ticks == clock.anchor() + ns,
{
    if clock.rate() is Some {
        a_direct_time_is_read_at_the_last_tick(clock, ns, ticks);
    } else {
        a_time_is_read_no_earlier_than_the_anchor(clock, ns, ticks);
        if clock.counts_nanoseconds() && clock.anchor() + ns <= u64::MAX && ns
            <= 0x8000_0000_0000_0000 {
            mock_conversion_inverts(clock, ns, ticks);
            if ns == 0 {
                zero_is_read_at_the_anchor(clock, ticks);
            }
        }
    }
}

/// A clock is set as it is asked to be: at the reading that counts as zero, and by the rate
/// that the counter states.
pub proof fn a_clock_starts_where_it_is_set(
    timebase: Option<(u64, u64)>,
    counter: u64,
    clock: Clock,
    start_ticks: u64,
    mocked: (Clock, Arc<Mock>),
    anchor: u64,
)
    requires
        timebase matches Some((num, den)) ==> num > 0 && den > 0,
        call_ensures(Clock::starting_now, (timebase, counter), clock),
        call_ensures(Clock::mock_starting_at, (start_ticks,), mocked),
        call_ensures(Clock::start_ticks, (&mocked.0,), anchor),
    ensures
        clock.rate() == timebase,
        timebase is Some ==> clock.anchor() == counter,
        mocked.0.counts_nanoseconds(),
        mocked.0.anchor() == start_ticks,
        anchor == start_ticks,
{
}

/// A copy of a clock makes the same of every reading.
pub proof fn a_copy_of_a_clock_tells_the_same(clock: Clock, copy: Clock, ticks: u64)
    requires
        call_ensures(<Clock as Clone>::clone, (&clock,), copy),
    ensures
        copy.ns_at(ticks) == clock.ns_at(ticks),
        copy.anchor() == clock.anchor(),
        copy.rate() == clock.rate(),
{
}

} // verus!
