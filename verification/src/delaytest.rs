//! Acoustic delay measurement.
//!
//! The server plays a short, distinct-frequency tone burst on each speaker under
//! test (all speakers sharing one `play_at` timeline), the browser records the
//! room with its microphone, and from the recording it is found out, per speaker,
//! *when* that speaker's tone was actually heard. From those times come:
//!
//! - **relative delay**: how far each speaker lags the fastest one, and
//! - **absolute delay**: server-emit to heard, i.e. the real end-to-end latency
//!   (network + jitter buffer + hardware + acoustic travel to the mic).
//!
//! Short windows are looked at around each burst's *expected* position (mapped from
//! the shared server clock via the recording's start); the window with the most
//! energy at the speaker's frequency marks the heard time. Because every speaker
//! emits into one recording at one `play_at`, the *differences* between heard times
//! (the relative delay) are immune to any error between the two clocks; only the
//! absolute number leans on that offset.
//!
//! How loud a window is at a frequency is measured by the caller, for the windows
//! that [`Recording::floor_starts`] and [`Recording::burst_starts`] name, and handed
//! in as integers: an energy of one is 2^50.
use vstd::arithmetic::div_mod;
use vstd::prelude::*;

use crate::units::{Millis, FLICKS_PER_MS, FLICKS_PER_SEC};

verus! {

/// Time resolution of the search, in milliseconds.
pub const HOP_MS: u64 = 1;

/// Length of a window, in milliseconds.
pub const WIN_MS: u64 = 8;

/// The widest measurable delay, in milliseconds (so burst spacing must exceed
/// twice this).
pub const SEARCH_MS: u64 = 250;

/// Coarse hop for sampling the per-frequency noise floor across the whole
/// recording, in milliseconds.
pub const BASELINE_HOP_MS: u64 = 13;

/// The noise floor is at least this energy, 10^-9.
pub const MIN_LEVEL: i128 = 1_125_900;

/// A burst counts only if its energy is at least this many times the noise floor.
pub const DETECT_SNR: i128 = 5;

/// A detected band must be within this many hundredths of the loudest detected
/// tone, which rejects a silent speaker's band catching a louder neighbour's
/// leakage.
pub const LEAK_PERCENT: i128 = 6;

/// Full detection confidence.
pub const CONFIDENCE_FULL: i128 = 0x1_0000_0000;

/// No value that is computed here is larger.
pub const BOUND: i128 = 0x100_0000_0000_0000_0000_0000_0000_0000;

/// The delays of the bursts of one speaker must agree to within this (15 ms, in
/// flicks): a real tone lands at the same delay each burst; noise peaks scatter
/// across the whole search window.
pub const CONSISTENCY: i128 = 15 * FLICKS_PER_MS;

/// One speaker under test and the frequency it was assigned.
#[derive(Debug)]
pub struct Assignment {
    pub client_id: String,
    /// The frequency in hertz, as the bits of an IEEE-754 double.
    pub freq_bits: u64,
}

/// How the test was emitted, in server clock milliseconds.
#[derive(Debug)]
pub struct TestPlan {
    /// Server-clock time the first burst's first sample was scheduled to play.
    pub play_at_ms: u64,
    /// Gap between successive bursts. Must be more than twice [`SEARCH_MS`].
    pub burst_spacing_ms: u64,
    /// Bursts emitted per speaker (medianed for robustness).
    pub burst_count: u32,
    /// Duration of each burst.
    pub burst_ms: u64,
    pub assignments: Vec<Assignment>,
}

/// Per-speaker measurement result; nothing where the tone couldn't be located.
#[derive(Debug)]
pub struct SpeakerResult {
    pub client_id: String,
    /// Server-clock time the speaker's tone was first heard.
    pub onset_ms: Option<Millis>,
    /// How far this speaker lags the fastest measured one (never negative).
    pub relative_delay_ms: Option<Millis>,
    /// Server emit to heard delay, including acoustic travel to the mic.
    pub absolute_delay_ms: Option<Millis>,
    /// Detection confidence (peak energy vs. the noise floor), of which
    /// [`CONFIDENCE_FULL`] is full; zero where the tone couldn't be located.
    pub confidence: u32,
}

/// What is known of a mono recording besides its samples.
#[derive(Debug, Clone, Copy, PartialEq, Eq, Structural)]
pub struct Recording {
    pub sample_rate: u32,
    /// How many samples it has.
    pub len: usize,
    /// Server-clock time of the first sample.
    pub capture_start: Millis,
}

/// What was measured of a recording at one speaker's frequency.
#[derive(Debug)]
pub struct Energies {
    /// The energy of each window that samples the noise floor.
    pub floor: Vec<u64>,
    /// For each burst, the energy of each window that is tried.
    pub bursts: Vec<Vec<u64>>,
}

/// Samples in so many milliseconds, to the nearest (halves up), at least one.
pub open spec fn span(sample_rate: u32, ms: u64) -> int {
    let n = (sample_rate * ms + 500) / 1000;
    if n < 1 {
        1
    } else {
        n
    }
}

fn span_of(sample_rate: u32, ms: u64) -> (n: usize)
    requires
        ms <= 1000,
    ensures
        n == span(sample_rate, ms),
{
    proof {
        assert(0 <= sample_rate * ms <= 0xffff_ffff * 1000) by (nonlinear_arith)
            requires
                ms <= 1000,
                sample_rate <= 0xffff_ffff,
        ;
    }
    let n: u64 = (sample_rate as u64 * ms + 500) / 1000;
    if n < 1 {
        1
    } else {
        n as usize
    }
}

/// When the `k`-th burst's centre is expected to play, in flicks of the server
/// clock: its energy peaks there.
pub open spec fn expected_peak(plan: TestPlan, k: int) -> int {
    Millis::spec_whole(plan.play_at_ms + k * plan.burst_spacing_ms) + Millis::spec_whole(
        plan.burst_ms as int,
    ) / 2
}

fn expected_peak_of(plan: &TestPlan, k: u32) -> (r: i128)
    ensures
        r == expected_peak(*plan, k as int),
        0 <= r <= 0x10_0000_0000_0000_0000_0000_0000_0000,
{
    proof {
        let s = plan.burst_spacing_ms;
        assert(0 <= k * s <= 0xffff_ffff * 0xffff_ffff_ffff_ffff) by (nonlinear_arith)
            requires
                0 <= k <= 0xffff_ffff,
                0 <= s <= 0xffff_ffff_ffff_ffff,
        ;
    }
    (plan.play_at_ms as i128 + k as i128 * plan.burst_spacing_ms as i128) * FLICKS_PER_MS + (
    plan.burst_ms as i128 * FLICKS_PER_MS) / 2
}

impl Recording {
    /// Where a time falls in the recording, in samples, cut toward zero.
    pub open spec fn index(self, at: int) -> int {
        let x = (at - self.capture_start.flicks) * self.sample_rate;
        if x >= 0 {
            x / (FLICKS_PER_SEC as int)
        } else {
            -((-x) / (FLICKS_PER_SEC as int))
        }
    }

    fn index_of(&self, at: i128) -> (n: i128)
        requires
            self.capture_start.sane(),
            0 <= at <= 0x10_0000_0000_0000_0000_0000_0000_0000,
        ensures
            n == self.index(at as int),
            -BOUND <= n <= BOUND,
    {
        let d: i128 = at - self.capture_start.flicks;
        let neg: bool = d < 0;
        let m: i128 = if neg {
            -d
        } else {
            d
        };
        let rate: i128 = self.sample_rate as i128;
        // Whole seconds and the rest apart, so that the product fits.
        let secs: i128 = m / FLICKS_PER_SEC;
        let rest: i128 = m % FLICKS_PER_SEC;
        proof {
            let x = m * rate;
            assert(0 <= secs * rate <= 0x81_0000_0000_0000_0000_0000 * 0xffff_ffff && 0 <= rest
                * rate <= 705_600_000 * 0xffff_ffff && 0 <= x) by (nonlinear_arith)
                requires
                    x == m * rate,
                    0 <= m,
                    0 <= secs <= 0x81_0000_0000_0000_0000_0000,
                    0 <= rest < 705_600_000,
                    0 <= rate <= 0xffff_ffff,
            ;
            assert(x == (secs * rate) * 705_600_000 + rest * rate) by (nonlinear_arith)
                requires
                    x == m * rate,
                    m == secs * 705_600_000 + rest,
            ;
            assert(x / 705_600_000 == secs * rate + (rest * rate) / 705_600_000);
            assert((at - self.capture_start.flicks) * self.sample_rate == if neg {
                -x
            } else {
                x
            }) by (nonlinear_arith)
                requires
                    x == m * rate,
                    rate == self.sample_rate,
                    neg ==> m == -(at - self.capture_start.flicks),
                    !neg ==> m == at - self.capture_start.flicks,
            ;
        }
        let q: i128 = secs * rate + (rest * rate) / FLICKS_PER_SEC;
        if neg {
            -q
        } else {
            q
        }
    }

    /// When the sample at `n` was captured, in flicks of the server clock.
    pub open spec fn time_of(self, n: int) -> int {
        self.capture_start.flicks + n * FLICKS_PER_SEC / (self.sample_rate as int)
    }

    /// How many windows sample the noise floor.
    pub open spec fn floor_count(self) -> int {
        let win = span(self.sample_rate, WIN_MS);
        if win > self.len {
            0
        } else {
            (self.len - win) / span(self.sample_rate, BASELINE_HOP_MS) + 1
        }
    }

    /// How many samples a window has.
    pub fn window(&self) -> (n: usize)
        ensures
            n == span(self.sample_rate, WIN_MS),
            n == span(self.sample_rate, 8),
            n > 0,
    {
        span_of(self.sample_rate, WIN_MS)
    }

    /// Where the windows start that sample the noise floor across the whole
    /// recording. Bursts occupy a small fraction of the timeline, so the median of
    /// these samples reflects true ambient noise.
    pub fn floor_starts(&self) -> (out: Vec<usize>)
        ensures
            out@.len() == self.floor_count(),
            forall|i: int|
                0 <= i < out@.len() ==> #[trigger] out@[i] == i * span(
                    self.sample_rate,
                    BASELINE_HOP_MS,
                ),
            forall|i: int|
                0 <= i < out@.len() ==> #[trigger] out@[i] + span(self.sample_rate, WIN_MS)
                    <= self.len,
    {
        let mut out: Vec<usize> = Vec::new();
        let win: usize = self.window();
        let hop: usize = span_of(self.sample_rate, BASELINE_HOP_MS);
        if win > self.len {
            return out;
        }
        let room: usize = self.len - win;
        let n: usize = room / hop;
        let mut i: usize = 0;
        proof {
            div_mod::lemma_fundamental_div_mod(room as int, hop as int);
            div_mod::lemma_div_pos_is_pos(room as int, hop as int);
            assert(0int * hop == 0) by (nonlinear_arith);
        }
        while i < n
            invariant
                i <= n,
                hop > 0,
                room == self.len - win,
                n == room as int / (hop as int),
                room == hop * n + room as int % (hop as int),
                0 <= room as int % (hop as int),
                out@.len() == i,
                i * hop <= room,
                forall|j: int| 0 <= j < i ==> #[trigger] out@[j] == j * hop,
                forall|j: int| 0 <= j < i ==> #[trigger] out@[j] + win <= self.len,
            decreases n - i,
        {
            proof {
                assert((i + 1) * hop <= room) by (nonlinear_arith)
                    requires
                        i + 1 <= n,
                        room == hop * n + room as int % (hop as int),
                        0 <= room as int % (hop as int),
                        hop > 0,
                ;
            }
            out.push(i * hop);
            i = i + 1;
        }
        out.push(i * hop);
        out
    }

    /// How many hops a search takes: it spans the search range both ways.
    pub open spec fn tries(self) -> int {
        2 * (self.sample_rate / 4) / span(self.sample_rate, HOP_MS) + 1
    }

    /// Of the first `n` hops of a search around `center`, the window starts that lie
    /// within the recording.
    pub open spec fn tried(self, center: int, n: int) -> Seq<int>
        decreases n,
    {
        if n <= 0 {
            Seq::empty()
        } else {
            let before = self.tried(center, n - 1);
            let win = span(self.sample_rate, WIN_MS);
            let start = center - self.sample_rate / 4 + (n - 1) * span(self.sample_rate, HOP_MS)
                - win / 2;
            if start >= 0 && start + win <= self.len {
                before.push(start)
            } else {
                before
            }
        }
    }

    /// The window starts that are tried for the `k`-th burst.
    pub open spec fn starts(self, plan: TestPlan, k: int) -> Seq<int> {
        self.tried(self.index(expected_peak(plan, k)), self.tries())
    }

    /// Where the windows start that are tried for the `k`-th burst: every hop within
    /// the search range of where the burst's centre is expected.
    pub fn burst_starts(&self, plan: &TestPlan, k: u32) -> (out: Vec<usize>)
        requires
            self.capture_start.sane(),
        ensures
            places(out@) == self.starts(*plan, k as int),
            forall|i: int|
                0 <= i < out@.len() ==> #[trigger] out@[i] + span(self.sample_rate, WIN_MS)
                    <= self.len,
    {
        let mut out: Vec<usize> = Vec::new();
        let center: i128 = self.index_of(expected_peak_of(plan, k));
        let win: usize = self.window();
        let hop: i128 = span_of(self.sample_rate, HOP_MS) as i128;
        let search: i128 = (self.sample_rate / 4) as i128;
        let reach: i128 = 2 * search;
        let base: i128 = center - search - (win / 2) as i128;
        let mut off: i128 = 0;
        let mut n: u64 = 0;
        proof {
            assert(places(out@) =~= Seq::<int>::empty());
            assert(0int * hop == 0) by (nonlinear_arith);
        }
        while off <= reach
            invariant
                0 < hop <= 0x1_0000_0000,
                hop == span(self.sample_rate, HOP_MS),
                win == span(self.sample_rate, WIN_MS),
                win <= 0x1_0000_0000,
                reach == 2 * (self.sample_rate / 4),
                0 <= reach <= 0x2_0000_0000,
                -BOUND <= center <= BOUND,
                base == center - self.sample_rate / 4 - win as int / 2,
                off == n * hop,
                0 <= off <= reach + hop,
                n <= off,
                n > 0 ==> (n - 1) * hop <= reach,
                places(out@) == self.tried(center as int, n as int),
                forall|i: int| 0 <= i < out@.len() ==> #[trigger] out@[i] + win <= self.len,
            decreases reach + hop - off,
        {
            let ghost before = out@;
            let start: i128 = base + off;
            if start >= 0 && start + win as i128 <= self.len as i128 {
                out.push(start as usize);
                proof {
                    assert(places(out@) =~= places(before).push(start as int));
                }
            }
            off = off + hop;
            n = n + 1;
            proof {
                assert((n - 1) * hop + hop == n * hop) by (nonlinear_arith);
            }
        }
        proof {
            let t = self.tries();
            let r = reach as int;
            let h = hop as int;
            div_mod::lemma_fundamental_div_mod(r, h);
            assert(n == t) by (nonlinear_arith)
                requires
                    n * h > r,
                    n > 0,
                    (n - 1) * h <= r,
                    h > 0,
                    r == h * (r / h) + r % h,
                    0 <= r % h < h,
                    t == r / h + 1,
            ;
        }
        out
    }
}

/// Positions as integers.
pub open spec fn places(v: Seq<usize>) -> Seq<int> {
    Seq::new(v.len(), |i: int| v[i] as int)
}

/// Values as integers.
pub open spec fn ints(v: Seq<i128>) -> Seq<int> {
    Seq::new(v.len(), |i: int| v[i] as int)
}

/// The median of some values; between two middle ones, half way (rounded down).
pub open spec fn median_of(v: Seq<int>) -> int {
    let s = v.sort();
    let n = s.len() as int;
    if n % 2 == 1 {
        s[n / 2]
    } else {
        s[n / 2 - 1] + (s[n / 2] - s[n / 2 - 1]) / 2
    }
}

/// Sorted values lie between the same bounds, in order.
proof fn lemma_sorted_between(v: Seq<int>, lo: int, hi: int)
    requires
        forall|i: int| 0 <= i < v.len() ==> lo <= #[trigger] v[i] <= hi,
    ensures
        v.sort().len() == v.len(),
        forall|i: int| 0 <= i < v.len() ==> lo <= #[trigger] v.sort()[i] <= hi,
        forall|i: int, j: int| 0 <= i < j < v.len() ==> v.sort()[i] <= v.sort()[j],
{
    broadcast use vstd::seq_lib::group_to_multiset_ensures;

    v.lemma_sort_ensures();
    let s = v.sort();
    assert(s.to_multiset().len() == s.len());
    assert forall|i: int| 0 <= i < s.len() implies lo <= #[trigger] s[i] <= hi by {
        assert(s.contains(s[i]));
        assert(s.to_multiset().count(s[i]) > 0);
        assert(v.contains(s[i]));
    }
    let leq = |x: int, y: int| x <= y;
    assert forall|i: int, j: int| 0 <= i < j < v.len() implies s[i] <= s[j] by {
        assert(leq(s[i], s[j]));
    }
}

/// The median lies among the values.
proof fn lemma_median_between(v: Seq<int>, lo: int, hi: int)
    requires
        v.len() > 0,
        forall|i: int| 0 <= i < v.len() ==> lo <= #[trigger] v[i] <= hi,
    ensures
        lo <= median_of(v) <= hi,
{
    lemma_sorted_between(v, lo, hi);
}

/// The values in ascending order.
fn sorted(v: &Vec<i128>) -> (out: Vec<i128>)
    ensures
        ints(out@) == ints(v@).sort(),
{
    let mut out: Vec<i128> = Vec::new();
    let mut i: usize = 0;
    let ghost leq = |x: int, y: int| x <= y;
    proof {
        assert(ints(out@) =~= ints(v@).take(0));
    }
    while i < v.len()
        invariant
            i <= v@.len(),
            leq == (|x: int, y: int| x <= y),
            ints(out@).to_multiset() == ints(v@).take(i as int).to_multiset(),
            forall|a: int, b: int| 0 <= a < b < out@.len() ==> out@[a] <= out@[b],
        decreases v@.len() - i,
    {
        let x: i128 = v[i];
        let mut at: usize = 0;
        while at < out.len() && out[at] <= x
            invariant
                at <= out@.len(),
                forall|j: int| 0 <= j < at ==> out@[j] <= x,
            decreases out@.len() - at,
        {
            at = at + 1;
        }
        let ghost before = out@;
        out.insert(at, x);
        proof {
            assert(ints(out@) =~= ints(before).insert(at as int, x as int));
            vstd::seq_lib::to_multiset_insert(ints(before), at as int, x as int);
            assert(ints(v@).take(i + 1) =~= ints(v@).take(i as int).push(x as int));
            vstd::seq_lib::to_multiset_build(ints(v@).take(i as int), x as int);
            assert forall|a: int, b: int| 0 <= a < b < out@.len() implies out@[a] <= out@[b] by {
                let a2 = if a < at {
                    a
                } else {
                    a - 1
                };
                let b2 = if b < at {
                    b
                } else {
                    b - 1
                };
                assert(a == at || out@[a] == before[a2]);
                assert(b == at || out@[b] == before[b2]);
                if a == at {
                    assert(before[at as int] > x);
                    assert(b2 == at || before[at as int] <= before[b2]);
                }
            }
        }
        i = i + 1;
    }
    proof {
        assert(ints(v@).take(i as int) =~= ints(v@));
        ints(v@).lemma_sort_ensures();
        assert(vstd::relations::sorted_by(ints(out@), leq)) by {
            assert forall|a: int, b: int| 0 <= a < b < ints(out@).len() implies #[trigger] leq(
                ints(out@)[a],
                ints(out@)[b],
            ) by {
                assert(out@[a] <= out@[b]);
            }
        }
        vstd::seq_lib::lemma_sorted_unique(ints(out@), ints(v@).sort(), leq);
    }
    out
}

/// The median of some values.
fn median(v: &Vec<i128>) -> (r: i128)
    requires
        v@.len() > 0,
        forall|i: int| 0 <= i < v@.len() ==> -BOUND <= #[trigger] v@[i] <= BOUND,
    ensures
        r == median_of(ints(v@)),
        -BOUND <= r <= BOUND,
{
    let s: Vec<i128> = sorted(v);
    let n: usize = s.len();
    proof {
        lemma_sorted_between(ints(v@), -BOUND as int, BOUND as int);
        lemma_median_between(ints(v@), -BOUND as int, BOUND as int);
        assert(ints(s@).len() == n);
        assert(ints(s@)[n as int / 2] == s@[n as int / 2]);
    }
    if n % 2 == 1 {
        s[n / 2]
    } else {
        proof {
            assert(ints(s@)[n as int / 2 - 1] == s@[n as int / 2 - 1]);
        }
        s[n / 2 - 1] + (s[n / 2] - s[n / 2 - 1]) / 2
    }
}

/// Whether `i` is the first of the loudest windows.
pub open spec fn is_loudest(energy: Seq<u64>, i: int) -> bool {
    &&& 0 <= i < energy.len()
    &&& energy[i] > 0
    &&& forall|j: int| 0 <= j < energy.len() ==> #[trigger] energy[j] <= energy[i]
    &&& forall|j: int| 0 <= j < i ==> #[trigger] energy[j] < energy[i]
}

/// The first of the loudest windows; none where all are silent.
fn loudest(energy: &Vec<u64>) -> (r: Option<usize>)
    ensures
        match r {
            Some(i) => is_loudest(energy@, i as int),
            None => forall|j: int| 0 <= j < energy@.len() ==> #[trigger] energy@[j] == 0,
        },
{
    let mut best: u64 = 0;
    let mut at: Option<usize> = None;
    let mut i: usize = 0;
    while i < energy.len()
        invariant
            i <= energy@.len(),
            forall|j: int| 0 <= j < i ==> #[trigger] energy@[j] <= best,
            at is None ==> best == 0,
            at matches Some(a) ==> a < i && energy@[a as int] == best && best > 0 && forall|j: int|
                0 <= j < a ==> #[trigger] energy@[j] < best,
        decreases energy@.len() - i,
    {
        if energy[i] > best {
            best = energy[i];
            at = Some(i);
        }
        i = i + 1;
    }
    at
}

/// Energies as integers.
pub open spec fn energies(v: Seq<u64>) -> Seq<int> {
    Seq::new(v.len(), |i: int| v[i] as int)
}

/// The noise floor at a frequency: the median energy sampled across the whole
/// recording. An absent tone reads at this floor; a real tone sits far above it.
pub open spec fn level_of(floor: Seq<u64>) -> int {
    let m = median_of(energies(floor));
    if floor.len() == 0 || m < MIN_LEVEL {
        MIN_LEVEL as int
    } else {
        m
    }
}

fn level(floor: &Vec<u64>) -> (r: i128)
    ensures
        r == level_of(floor@),
        MIN_LEVEL <= r <= u64::MAX,
{
    if floor.len() == 0 {
        return MIN_LEVEL;
    }
    let mut v: Vec<i128> = Vec::new();
    let mut i: usize = 0;
    while i < floor.len()
        invariant
            i <= floor@.len(),
            v@.len() == i,
            forall|j: int| 0 <= j < i ==> #[trigger] v@[j] == floor@[j],
        decreases floor@.len() - i,
    {
        v.push(floor[i] as i128);
        i = i + 1;
    }
    proof {
        assert(ints(v@) =~= energies(floor@));
        lemma_median_between(energies(floor@), 0, u64::MAX as int);
    }
    let m: i128 = median(&v);
    if m < MIN_LEVEL {
        MIN_LEVEL
    } else {
        m
    }
}

/// Where a burst was heard: the loudest of the windows tried, if it clearly beats
/// the noise floor.
pub open spec fn heard_at(e: Seq<u64>, level: int) -> Option<int> {
    if exists|i: int| #[trigger] is_loudest(e, i) && e[i] >= DETECT_SNR * level {
        Some(choose|i: int| #[trigger] is_loudest(e, i) && e[i] >= DETECT_SNR * level)
    } else {
        None
    }
}

fn heard_window(e: &Vec<u64>, level: i128) -> (r: Option<usize>)
    requires
        MIN_LEVEL <= level <= u64::MAX,
    ensures
        match r {
            Some(i) => i < e@.len() && heard_at(e@, level as int) == Some(i as int)
                && DETECT_SNR * level <= e@[i as int],
            None => heard_at(e@, level as int) is None,
        },
{
    let best: Option<usize> = loudest(e);
    match best {
        Some(i) => {
            proof {
                assert forall|j: int| #[trigger] is_loudest(e@, j) implies j == i by {
                    assert(e@[j] <= e@[i as int] && e@[i as int] <= e@[j]);
                    if j < i {
                        assert(e@[j] < e@[i as int]);
                    } else if i < j {
                        assert(e@[i as int] < e@[j]);
                    }
                }
            }
            if e[i] as i128 >= DETECT_SNR * level {
                Some(i)
            } else {
                None
            }
        },
        None => None,
    }
}

impl Energies {
    /// Whether the energies of all windows that are tried are there.
    pub open spec fn fits(self, rec: Recording, plan: TestPlan) -> bool {
        &&& self.bursts@.len() == plan.burst_count
        &&& forall|k: int|
            0 <= k < self.bursts@.len() ==> (#[trigger] self.bursts@[k])@.len() == rec.starts(
                plan,
                k,
            ).len()
    }
}

/// Of the first `n` bursts those that were heard: how long after its expected
/// time each was, and how loud.
pub open spec fn heard(rec: Recording, plan: TestPlan, e: Energies, n: int) -> Seq<(int, int)>
    decreases n,
{
    if n <= 0 {
        Seq::empty()
    } else {
        let before = heard(rec, plan, e, n - 1);
        let burst = e.bursts@[n - 1]@;
        let at = heard_at(burst, level_of(e.floor@));
        if at is Some && rec.sample_rate > 0 {
            let center = rec.starts(plan, n - 1)[at->0] + span(rec.sample_rate, WIN_MS) / 2;
            before.push((rec.time_of(center) - expected_peak(plan, n - 1), burst[at->0] as int))
        } else {
            before
        }
    }
}

pub open spec fn delays_of(h: Seq<(int, int)>) -> Seq<int> {
    h.map_values(|x: (int, int)| x.0)
}

pub open spec fn peaks_of(h: Seq<(int, int)>) -> Seq<int> {
    h.map_values(|x: (int, int)| x.1)
}

/// How far values lie from `m`.
pub open spec fn distances(v: Seq<int>, m: int) -> Seq<int> {
    v.map_values(
        |x: int|
            if x < m {
                m - x
            } else {
                x - m
            },
    )
}

/// How many bursts of a speaker must be heard: a majority, at least one.
pub open spec fn majority(burst_count: u32) -> int {
    let n = (burst_count + 1) / 2;
    if n < 1 {
        1
    } else {
        n
    }
}

/// A tone that was heard.
#[derive(Debug, Clone, Copy, PartialEq, Eq, Structural)]
pub struct Detection {
    /// How late it was, in flicks.
    pub delay: i128,
    /// How loud.
    pub peak: i128,
    /// The noise floor at its frequency.
    pub level: i128,
}

/// The tone of a speaker, where it was heard: it clears the noise floor on a
/// majority of bursts and lands at a consistent delay each time (a wide spread
/// means that noise was tracked, not a tone).
pub open spec fn detected(rec: Recording, plan: TestPlan, e: Energies) -> Option<(int, int, int)> {
    let h = heard(rec, plan, e, plan.burst_count as int);
    let delay = median_of(delays_of(h));
    if h.len() < majority(plan.burst_count) {
        None
    } else if median_of(distances(delays_of(h), delay)) > CONSISTENCY {
        None
    } else {
        Some((delay, median_of(peaks_of(h)), level_of(e.floor@)))
    }
}

/// The delay and the energy of each burst that was heard.
fn heard_bursts(rec: &Recording, plan: &TestPlan, e: &Energies, level: i128) -> (r: (
    Vec<i128>,
    Vec<i128>,
))
    requires
        e.fits(*rec, *plan),
        rec.capture_start.sane(),
        level == level_of(e.floor@),
        MIN_LEVEL <= level <= u64::MAX,
    ensures
        ints(r.0@) == delays_of(heard(*rec, *plan, *e, plan.burst_count as int)),
        ints(r.1@) == peaks_of(heard(*rec, *plan, *e, plan.burst_count as int)),
        forall|i: int| 0 <= i < r.0@.len() ==> -BOUND / 4 <= #[trigger] r.0@[i] <= BOUND / 4,
        forall|i: int|
            0 <= i < r.1@.len() ==> DETECT_SNR * level <= #[trigger] r.1@[i] <= u64::MAX,
{
    let mut delays: Vec<i128> = Vec::new();
    let mut peaks: Vec<i128> = Vec::new();
    let mut k: u32 = 0;
    proof {
        let h = heard(*rec, *plan, *e, 0);
        assert(ints(delays@) =~= delays_of(h));
        assert(ints(peaks@) =~= peaks_of(h));
    }
    while k < plan.burst_count
        invariant
            k <= plan.burst_count,
            e.fits(*rec, *plan),
            rec.capture_start.sane(),
            level == level_of(e.floor@),
            MIN_LEVEL <= level <= u64::MAX,
            ints(delays@) == delays_of(heard(*rec, *plan, *e, k as int)),
            ints(peaks@) == peaks_of(heard(*rec, *plan, *e, k as int)),
            forall|i: int|
                0 <= i < delays@.len() ==> -BOUND / 4 <= #[trigger] delays@[i] <= BOUND / 4,
            forall|i: int|
                0 <= i < peaks@.len() ==> DETECT_SNR * level <= #[trigger] peaks@[i] <= u64::MAX,
        decreases plan.burst_count - k,
    {
        let ghost h0 = heard(*rec, *plan, *e, k as int);
        let burst: &Vec<u64> = &e.bursts[k as usize];
        if let Some(i) = heard_window(burst, level) {
            if rec.sample_rate > 0 {
                let starts: Vec<usize> = rec.burst_starts(plan, k);
                proof {
                    assert(places(starts@).len() == e.bursts@[k as int]@.len());
                    assert(places(starts@)[i as int] == starts@[i as int]);
                }
                let center: i128 = starts[i] as i128 + (rec.window() / 2) as i128;
                let rate: i128 = rec.sample_rate as i128;
                let since: i128 = center * FLICKS_PER_SEC / rate;
                proof {
                    let x = center * FLICKS_PER_SEC;
                    div_mod::lemma_div_pos_is_pos(x, rate as int);
                    div_mod::lemma_div_is_ordered_by_denominator(x, 1, rate as int);
                    assert(x / 1 == x);
                }
                let late: i128 = rec.capture_start.flicks + since - expected_peak_of(plan, k);
                let ghost d0 = delays@;
                let ghost p0 = peaks@;
                delays.push(late);
                peaks.push(burst[i] as i128);
                proof {
                    let x = (late as int, burst@[i as int] as int);
                    assert(heard(*rec, *plan, *e, k + 1) == h0.push(x));
                    assert(ints(delays@) =~= ints(d0).push(x.0));
                    assert(ints(peaks@) =~= ints(p0).push(x.1));
                    assert(delays_of(h0.push(x)) =~= delays_of(h0).push(x.0));
                    assert(peaks_of(h0.push(x)) =~= peaks_of(h0).push(x.1));
                }
            }
        }
        k = k + 1;
    }
    (delays, peaks)
}

/// Locates a speaker's tone and decides whether it was really heard.
pub fn detect(rec: &Recording, plan: &TestPlan, e: &Energies) -> (r: Option<Detection>)
    requires
        e.fits(*rec, *plan),
        rec.capture_start.sane(),
    ensures
        match r {
            Some(d) => detected(*rec, *plan, *e) == Some(
                (d.delay as int, d.peak as int, d.level as int),
            ),
            None => detected(*rec, *plan, *e) is None,
        },
        r matches Some(d) ==> {
            &&& -BOUND / 4 <= d.delay <= BOUND / 4
            &&& MIN_LEVEL <= d.level <= u64::MAX
            &&& DETECT_SNR * d.level <= d.peak <= u64::MAX
        },
{
    let level: i128 = level(&e.floor);
    let (delays, peaks) = heard_bursts(rec, plan, e, level);
    let ghost h = heard(*rec, *plan, *e, plan.burst_count as int);
    proof {
        assert(delays_of(h).len() == h.len() && peaks_of(h).len() == h.len());
        assert(ints(delays@).len() == delays@.len() && ints(peaks@).len() == peaks@.len());
    }
    let half: u64 = (plan.burst_count as u64 + 1) / 2;
    if delays.len() == 0 || (delays.len() as u64) < half {
        return None;
    }
    proof {
        assert forall|i: int| 0 <= i < delays@.len() implies -BOUND / 4 <= #[trigger] ints(
            delays@,
        )[i] <= BOUND / 4 by {
            assert(delays@[i] <= BOUND / 4);
        }
        lemma_median_between(ints(delays@), -BOUND as int / 4, BOUND as int / 4);
        assert forall|i: int| 0 <= i < peaks@.len() implies DETECT_SNR * level <= #[trigger] ints(
            peaks@,
        )[i] <= u64::MAX by {
            assert(peaks@[i] <= u64::MAX);
        }
        lemma_median_between(ints(peaks@), DETECT_SNR * level, u64::MAX as int);
    }
    let delay: i128 = median(&delays);
    let mut apart: Vec<i128> = Vec::new();
    let mut i: usize = 0;
    while i < delays.len()
        invariant
            i <= delays@.len(),
            -BOUND / 4 <= delay <= BOUND / 4,
            forall|j: int|
                0 <= j < delays@.len() ==> -BOUND / 4 <= #[trigger] delays@[j] <= BOUND / 4,
            apart@.len() == i,
            forall|j: int|
                0 <= j < i ==> 0 <= #[trigger] apart@[j] <= BOUND && apart@[j] == distances(
                    ints(delays@),
                    delay as int,
                )[j],
        decreases delays@.len() - i,
    {
        let x: i128 = delays[i];
        apart.push(
            if x < delay {
                delay - x
            } else {
                x - delay
            },
        );
        i = i + 1;
    }
    proof {
        assert(ints(apart@) =~= distances(ints(delays@), delay as int));
    }
    if median(&apart) > CONSISTENCY {
        return None;
    }
    Some(Detection { delay, peak: median(&peaks), level })
}

/// What was detected of each speaker.
pub open spec fn detections(rec: Recording, plan: TestPlan, es: Seq<Energies>) -> Seq<
    Option<(int, int, int)>,
> {
    Seq::new(es.len(), |i: int| detected(rec, plan, es[i]))
}

/// The energy of the loudest of the tones.
pub open spec fn top_peak(ds: Seq<Option<(int, int, int)>>) -> int
    decreases ds.len(),
{
    if ds.len() == 0 {
        0
    } else {
        let before = top_peak(ds.drop_last());
        match ds.last() {
            Some(d) if d.1 > before => d.1,
            _ => before,
        }
    }
}

/// The tones that are no leakage of a louder neighbour: a silent speaker's band can
/// catch it, consistent and above its own (near-zero) floor.
pub open spec fn accepted(ds: Seq<Option<(int, int, int)>>) -> Seq<Option<(int, int, int)>> {
    ds.map_values(
        |d: Option<(int, int, int)>|
            match d {
                Some(x) if 100 * x.1 >= LEAK_PERCENT * top_peak(ds) => Some(x),
                _ => None,
            },
    )
}

/// Whether `f` is the smallest delay of the tones.
pub open spec fn is_fastest(ds: Seq<Option<(int, int, int)>>, f: int) -> bool {
    &&& exists|i: int| 0 <= i < ds.len() && (#[trigger] ds[i]) is Some && (ds[i]->0).0 == f
    &&& forall|i: int| 0 <= i < ds.len() && (#[trigger] ds[i]) is Some ==> f <= (ds[i]->0).0
}

/// Whether a result reports the `i`-th speaker's tone: when it was heard, how late,
/// and how far behind the fastest.
pub open spec fn reports(
    r: SpeakerResult,
    plan: TestPlan,
    ds: Seq<Option<(int, int, int)>>,
    i: int,
) -> bool {
    &&& r.client_id@ == plan.assignments@[i].client_id@
    &&& match ds[i] {
        None => {
            &&& r.onset_ms is None
            &&& r.relative_delay_ms is None
            &&& r.absolute_delay_ms is None
            &&& r.confidence == 0
        },
        Some((delay, peak, level)) => {
            &&& r.absolute_delay_ms is Some
            &&& r.absolute_delay_ms->0.flicks == delay
            &&& r.onset_ms is Some
            &&& r.onset_ms->0.flicks == Millis::spec_whole(plan.play_at_ms as int) + delay
            &&& r.relative_delay_ms is Some
            &&& is_fastest(ds, delay - r.relative_delay_ms->0.flicks)
            &&& r.confidence == (peak - DETECT_SNR * level) * CONFIDENCE_FULL / peak
        },
    }
}

/// Whether the tones that were detected are those.
spec fn holds_tones(v: Seq<Option<Detection>>, ds: Seq<Option<(int, int, int)>>) -> bool {
    &&& v.len() == ds.len()
    &&& forall|i: int|
        0 <= i < v.len() ==> match #[trigger] v[i] {
            Some(d) => {
                &&& ds[i] == Some((d.delay as int, d.peak as int, d.level as int))
                &&& -BOUND / 4 <= d.delay <= BOUND / 4
                &&& MIN_LEVEL <= d.level <= u64::MAX
                &&& DETECT_SNR * d.level <= d.peak <= u64::MAX
            },
            None => ds[i] is None,
        }
}

/// Drops the tones that are leakage.
fn accept(v: &mut Vec<Option<Detection>>, Ghost(ds): Ghost<Seq<Option<(int, int, int)>>>)
    requires
        holds_tones(old(v)@, ds),
    ensures
        holds_tones(final(v)@, accepted(ds)),
{
    let mut top: i128 = 0;
    let mut i: usize = 0;
    proof {
        assert(ds.take(0) =~= Seq::empty());
    }
    while i < v.len()
        invariant
            i <= v@.len(),
            holds_tones(v@, ds),
            top == top_peak(ds.take(i as int)),
            0 <= top <= u64::MAX,
        decreases v@.len() - i,
    {
        proof {
            assert(ds.take(i + 1).drop_last() =~= ds.take(i as int));
            assert(ds.take(i + 1).last() == ds[i as int]);
            assert(v@[i as int] is Some || v@[i as int] is None);
        }
        if let Some(d) = v[i] {
            if d.peak > top {
                top = d.peak;
            }
        }
        i = i + 1;
    }
    proof {
        assert(ds.take(i as int) =~= ds);
    }
    let mut j: usize = 0;
    let ghost before = v@;
    while j < v.len()
        invariant
            j <= v@.len(),
            v@.len() == before.len(),
            holds_tones(before, ds),
            top == top_peak(ds),
            0 <= top <= u64::MAX,
            forall|k: int| j <= k < v@.len() ==> v@[k] == before[k],
            forall|k: int|
                0 <= k < j ==> #[trigger] v@[k] == match before[k] {
                    Some(d) if 100 * d.peak >= LEAK_PERCENT * top => Some(d),
                    _ => None,
                },
        decreases v@.len() - j,
    {
        proof {
            assert(v@[j as int] == before[j as int]);
        }
        if let Some(d) = v[j] {
            if 100 * d.peak < LEAK_PERCENT * top {
                v.set(j, None);
            }
        }
        j = j + 1;
    }
    proof {
        let out = accepted(ds);
        assert forall|k: int| 0 <= k < v@.len() implies match #[trigger] v@[k] {
            Some(d) => {
                &&& out[k] == Some((d.delay as int, d.peak as int, d.level as int))
                &&& -BOUND / 4 <= d.delay <= BOUND / 4
                &&& MIN_LEVEL <= d.level <= u64::MAX
                &&& DETECT_SNR * d.level <= d.peak <= u64::MAX
            },
            None => out[k] is None,
        } by {
            assert(before[k] is Some || before[k] is None);
        }
    }
}

/// The smallest delay of the tones.
fn fastest(v: &Vec<Option<Detection>>, Ghost(ds): Ghost<Seq<Option<(int, int, int)>>>) -> (r:
    Option<i128>)
    requires
        holds_tones(v@, ds),
    ensures
        match r {
            Some(f) => is_fastest(ds, f as int) && -BOUND / 4 <= f <= BOUND / 4,
            None => forall|i: int| 0 <= i < ds.len() ==> (#[trigger] ds[i]) is None,
        },
{
    let mut best: Option<i128> = None;
    let mut i: usize = 0;
    while i < v.len()
        invariant
            i <= v@.len(),
            holds_tones(v@, ds),
            match best {
                Some(f) => {
                    &&& -BOUND / 4 <= f <= BOUND / 4
                    &&& exists|j: int|
                        0 <= j < i && (#[trigger] ds[j]) is Some && (ds[j]->0).0 == f
                    &&& forall|j: int|
                        0 <= j < i && (#[trigger] ds[j]) is Some ==> f <= (ds[j]->0).0
                },
                None => forall|j: int| 0 <= j < i ==> (#[trigger] ds[j]) is None,
            },
        decreases v@.len() - i,
    {
        proof {
            assert(v@[i as int] is Some || v@[i as int] is None);
        }
        if let Some(d) = v[i] {
            let better: bool = match best {
                Some(f) => d.delay < f,
                None => true,
            };
            if better {
                best = Some(d.delay);
                proof {
                    assert(ds[i as int] is Some && (ds[i as int]->0).0 == d.delay);
                }
            }
        }
        i = i + 1;
    }
    best
}

fn confidence_of(peak: i128, level: i128) -> (r: u32)
    requires
        MIN_LEVEL <= level <= u64::MAX,
        DETECT_SNR * level <= peak <= u64::MAX,
    ensures
        r == (peak - DETECT_SNR * level) * CONFIDENCE_FULL / (peak as int),
{
    let x: i128 = (peak - DETECT_SNR * level) * CONFIDENCE_FULL;
    let r: i128 = x / peak;
    proof {
        let q = x as int / peak as int;
        div_mod::lemma_div_pos_is_pos(x as int, peak as int);
        div_mod::lemma_fundamental_div_mod(x as int, peak as int);
        assert(q < 0x1_0000_0000) by (nonlinear_arith)
            requires
                x == peak * q + x as int % peak as int,
                0 <= x as int % peak as int,
                x < peak * 0x1_0000_0000,
                peak > 0,
        ;
    }
    r as u32
}

/// Recovers when each speaker was heard and how late from what was measured of a
/// recording. Results come back in the order of the plan's assignments.
pub fn analyze(plan: &TestPlan, rec: &Recording, measured: &Vec<Energies>) -> (out: Vec<
    SpeakerResult,
>)
    requires
        measured@.len() == plan.assignments@.len(),
        forall|i: int| 0 <= i < measured@.len() ==> (#[trigger] measured@[i]).fits(*rec, *plan),
        rec.capture_start.sane(),
    ensures
        out@.len() == plan.assignments@.len(),
        forall|i: int|
            0 <= i < out@.len() ==> reports(
                #[trigger] out@[i],
                *plan,
                accepted(detections(*rec, *plan, measured@)),
                i,
            ),
{
    let mut tones: Vec<Option<Detection>> = Vec::new();
    let ghost all = detections(*rec, *plan, measured@);
    let mut i: usize = 0;
    while i < measured.len()
        invariant
            i <= measured@.len(),
            all == detections(*rec, *plan, measured@),
            forall|j: int|
                0 <= j < measured@.len() ==> (#[trigger] measured@[j]).fits(*rec, *plan),
            rec.capture_start.sane(),
            holds_tones(tones@, all.take(i as int)),
        decreases measured@.len() - i,
    {
        let d: Option<Detection> = detect(rec, plan, &measured[i]);
        let ghost before = tones@;
        tones.push(d);
        proof {
            let t = all.take(i + 1);
            assert forall|j: int| 0 <= j < tones@.len() implies match #[trigger] tones@[j] {
                Some(d) => {
                    &&& t[j] == Some((d.delay as int, d.peak as int, d.level as int))
                    &&& -BOUND / 4 <= d.delay <= BOUND / 4
                    &&& MIN_LEVEL <= d.level <= u64::MAX
                    &&& DETECT_SNR * d.level <= d.peak <= u64::MAX
                },
                None => t[j] is None,
            } by {
                if j < i {
                    assert(tones@[j] == before[j]);
                    assert(t[j] == all.take(i as int)[j]);
                } else {
                    assert(t[j] == all[i as int]);
                }
            }
        }
        i = i + 1;
    }
    proof {
        assert(all.take(i as int) =~= all);
    }
    accept(&mut tones, Ghost(all));
    let ghost ds = accepted(all);
    // Relative delay is measured against the fastest speaker that was heard.
    let first: Option<i128> = fastest(&tones, Ghost(ds));
    let start: i128 = Millis::whole(plan.play_at_ms).flicks;
    let mut out: Vec<SpeakerResult> = Vec::new();
    let mut k: usize = 0;
    while k < tones.len()
        invariant
            k <= tones@.len(),
            tones@.len() == plan.assignments@.len(),
            holds_tones(tones@, ds),
            start == Millis::spec_whole(plan.play_at_ms as int),
            0 <= start < 0x10_0000_0000_0000_0000_0000,
            match first {
                Some(f) => is_fastest(ds, f as int) && -BOUND / 4 <= f <= BOUND / 4,
                None => forall|i: int| 0 <= i < ds.len() ==> (#[trigger] ds[i]) is None,
            },
            out@.len() == k,
            forall|j: int| 0 <= j < k ==> reports(#[trigger] out@[j], *plan, ds, j),
        decreases tones@.len() - k,
    {
        let client_id: String = plan.assignments[k].client_id.clone();
        proof {
            assert(tones@[k as int] is Some || tones@[k as int] is None);
        }
        let r: SpeakerResult = match tones[k] {
            Some(d) => {
                proof {
                    assert(ds[k as int] is Some);
                }
                let base: i128 = match first {
                    Some(f) => f,
                    None => d.delay,
                };
                SpeakerResult {
                    client_id,
                    onset_ms: Some(Millis { flicks: start + d.delay }),
                    relative_delay_ms: Some(Millis { flicks: d.delay - base }),
                    absolute_delay_ms: Some(Millis { flicks: d.delay }),
                    confidence: confidence_of(d.peak, d.level),
                }
            },
            None => SpeakerResult {
                client_id,
                onset_ms: None,
                relative_delay_ms: None,
                absolute_delay_ms: None,
                confidence: 0,
            },
        };
        proof {
            assert(reports(r, *plan, ds, k as int));
        }
        out.push(r);
        k = k + 1;
    }
    out
}

/// A speaker that produced no sound is not given a delay: where no window that is
/// tried clearly beats the noise floor, nothing is detected.
pub proof fn silent_speaker_is_undetected(rec: Recording, plan: TestPlan, e: Energies)
    requires
        e.fits(rec, plan),
        forall|k: int, j: int|
            0 <= k < e.bursts@.len() && 0 <= j < e.bursts@[k]@.len()
                ==> #[trigger] e.bursts@[k]@[j] < DETECT_SNR * level_of(e.floor@),
    ensures
        detected(rec, plan, e) is None,
{
    lemma_none_heard(rec, plan, e, plan.burst_count as int);
}

proof fn lemma_none_heard(rec: Recording, plan: TestPlan, e: Energies, n: int)
    requires
        n <= e.bursts@.len(),
        forall|k: int, j: int|
            0 <= k < e.bursts@.len() && 0 <= j < e.bursts@[k]@.len()
                ==> #[trigger] e.bursts@[k]@[j] < DETECT_SNR * level_of(e.floor@),
    ensures
        heard(rec, plan, e, n) == Seq::<(int, int)>::empty(),
    decreases n,
{
    if n > 0 {
        lemma_none_heard(rec, plan, e, n - 1);
        let burst = e.bursts@[n - 1]@;
        assert(heard_at(burst, level_of(e.floor@)) is None) by {
            if exists|i: int|
                #[trigger] is_loudest(burst, i) && burst[i] >= DETECT_SNR * level_of(e.floor@) {
                let i = choose|i: int|
                    #[trigger] is_loudest(burst, i) && burst[i] >= DETECT_SNR * level_of(e.floor@);
                assert(e.bursts@[n - 1]@[i] < DETECT_SNR * level_of(e.floor@));
            }
        }
    }
}

/// Relative delays are immune to an error of the recording's clock: it shifts all
/// measured delays alike, and leaves each speaker's lag behind the fastest as it
/// is. No lag is negative.
pub proof fn relative_delays_ignore_clock_error(
    ds: Seq<Option<(int, int, int)>>,
    shifted: Seq<Option<(int, int, int)>>,
    error: int,
    plan: TestPlan,
    r: SpeakerResult,
    s: SpeakerResult,
    i: int,
)
    requires
        shifted.len() == ds.len(),
        forall|j: int|
            0 <= j < ds.len() ==> ((#[trigger] shifted[j]) is Some <==> ds[j] is Some),
        forall|j: int|
            0 <= j < ds.len() && (#[trigger] shifted[j]) is Some ==> (shifted[j]->0).0 == (
            ds[j]->0).0 + error,
        0 <= i < ds.len(),
        reports(r, plan, ds, i),
        reports(s, plan, shifted, i),
    ensures
        s.relative_delay_ms == r.relative_delay_ms,
        r.relative_delay_ms matches Some(d) ==> d.flicks >= 0,
{
    if ds[i] is Some {
        let f = (ds[i]->0).0 - r.relative_delay_ms->0.flicks;
        let g = (shifted[i]->0).0 - s.relative_delay_ms->0.flicks;
        assert(shifted[i] is Some);
        assert(is_fastest(ds, f) && is_fastest(shifted, g));
        let a = choose|a: int| 0 <= a < ds.len() && (#[trigger] ds[a]) is Some && (ds[a]->0).0 == f;
        let b = choose|b: int|
            0 <= b < shifted.len() && (#[trigger] shifted[b]) is Some && (shifted[b]->0).0 == g;
        assert(shifted[a] is Some);
        assert(ds[b] is Some);
    } else {
        assert(shifted[i] is None);
    }
}

/// The fastest of the speakers that were heard reads zero.
pub proof fn fastest_speaker_reads_zero(
    plan: TestPlan,
    ds: Seq<Option<(int, int, int)>>,
    out: Seq<SpeakerResult>,
    i: int,
) -> (first: int)
    requires
        out.len() == ds.len(),
        forall|j: int| 0 <= j < out.len() ==> reports(#[trigger] out[j], plan, ds, j),
        0 <= i < out.len(),
        out[i].absolute_delay_ms is Some,
    ensures
        0 <= first < out.len(),
        out[first].relative_delay_ms is Some,
        out[first].relative_delay_ms->0.flicks == 0,
{
    assert(reports(out[i], plan, ds, i));
    let f = (ds[i]->0).0 - out[i].relative_delay_ms->0.flicks;
    assert(is_fastest(ds, f));
    let a = choose|a: int| 0 <= a < ds.len() && (#[trigger] ds[a]) is Some && (ds[a]->0).0 == f;
    assert(reports(out[a], plan, ds, a));
    let g = (ds[a]->0).0 - out[a].relative_delay_ms->0.flicks;
    let b = choose|b: int| 0 <= b < ds.len() && (#[trigger] ds[b]) is Some && (ds[b]->0).0 == g;
    assert(f <= g && g <= f) by {
        assert(ds[b] is Some && ds[a] is Some);
    }
    a
}

/// The loudest tone is at least as loud as every tone that was detected, and is one
/// of them.
pub proof fn top_peak_is_the_loudest(ds: Seq<Option<(int, int, int)>>)
    ensures
        forall|i: int|
            0 <= i < ds.len() && (#[trigger] ds[i]) is Some ==> (ds[i]->0).1 <= top_peak(ds),
        top_peak(ds) == 0 || exists|i: int|
            0 <= i < ds.len() && (#[trigger] ds[i]) is Some && (ds[i]->0).1 == top_peak(ds),
    decreases ds.len(),
{
    if ds.len() > 0 {
        let init = ds.drop_last();
        top_peak_is_the_loudest(init);
        assert forall|i: int| 0 <= i < ds.len() && (#[trigger] ds[i]) is Some implies (
        ds[i]->0).1 <= top_peak(ds) by {
            if i < init.len() {
                assert(init[i] == ds[i]);
            }
        }
        if top_peak(ds) != 0 {
            if top_peak(ds) == top_peak(init) {
                let i = choose|i: int|
                    0 <= i < init.len() && (#[trigger] init[i]) is Some && (init[i]->0).1
                        == top_peak(init);
                assert(ds[i] == init[i]);
            } else {
                assert(ds[ds.len() - 1] is Some);
            }
        }
    }
}

/// A tone that is fainter than six hundredths of any other that was detected, before
/// it or after it, is taken for leakage and reported as not heard; one that is at
/// least that loud beside every other is reported, with its own delay. A tone that
/// was not detected is not reported either.
pub proof fn leakage_is_rejected(
    plan: TestPlan,
    ds: Seq<Option<(int, int, int)>>,
    out: Seq<SpeakerResult>,
    i: int,
)
    requires
        out.len() == ds.len(),
        forall|j: int|
            0 <= j < out.len() ==> reports(#[trigger] out[j], plan, accepted(ds), j),
        0 <= i < out.len(),
    ensures
        out[i].client_id@ == plan.assignments@[i].client_id@,
        ds[i] is None ==> out[i].absolute_delay_ms is None,
        forall|j: int|
            #![trigger ds[j]]
            0 <= j < ds.len() && ds[i] is Some && ds[j] is Some && 100 * (ds[i]->0).1 < 6 * (
            ds[j]->0).1 ==> out[i].absolute_delay_ms is None && out[i].relative_delay_ms is None
                && out[i].onset_ms is None && out[i].confidence == 0,
        ds[i] is Some && (ds[i]->0).1 >= 0 && (forall|j: int|
            0 <= j < ds.len() && (#[trigger] ds[j]) is Some ==> 100 * (ds[i]->0).1 >= 6 * (
            ds[j]->0).1) ==> out[i].absolute_delay_ms is Some && out[i].relative_delay_ms is Some
            && out[i].absolute_delay_ms->0.flicks == (ds[i]->0).0,
{
    top_peak_is_the_loudest(ds);
    assert(reports(out[i], plan, accepted(ds), i));
    assert forall|j: int|
        #![trigger ds[j]]
        0 <= j < ds.len() && ds[i] is Some && ds[j] is Some && 100 * (ds[i]->0).1 < 6 * (
        ds[j]->0).1 implies accepted(ds)[i] is None by {
        assert((ds[j]->0).1 <= top_peak(ds));
    }
    if ds[i] is Some && (ds[i]->0).1 >= 0 && forall|j: int|
        0 <= j < ds.len() && (#[trigger] ds[j]) is Some ==> 100 * (ds[i]->0).1 >= 6 * (
        ds[j]->0).1 {
        assert(accepted(ds)[i] == ds[i]);
    }
}

/// A report counts from the plan's start, and its confidence is the part of the
/// tone's energy that is above five times the noise floor.
pub proof fn confidence_is_the_clear_part(
    r: SpeakerResult,
    plan: TestPlan,
    ds: Seq<Option<(int, int, int)>>,
    i: int,
)
    requires
        reports(r, plan, ds, i),
        ds[i] is Some,
        (ds[i]->0).2 > 0,
        5 * (ds[i]->0).2 <= (ds[i]->0).1,
    ensures
        r.onset_ms->0.flicks - r.absolute_delay_ms->0.flicks == 705_600 * plan.play_at_ms,
        ({
            let clear = (ds[i]->0).1 - 5 * (ds[i]->0).2;
            &&& 0 <= r.confidence < 0x1_0000_0000
            &&& r.confidence * (ds[i]->0).1 <= clear * 0x1_0000_0000 < (r.confidence + 1) * (
            ds[i]->0).1
        }),
{
    let peak = (ds[i]->0).1;
    let clear = peak - 5 * (ds[i]->0).2;
    let x = clear * 0x1_0000_0000;
    let q = x / peak;
    assert(r.confidence == q);
    div_mod::lemma_fundamental_div_mod(x, peak);
    assert(q * peak <= x < (q + 1) * peak) by (nonlinear_arith)
        requires
            x == peak * q + x % peak,
            0 <= x % peak < peak,
    ;
    assert(0 <= q < 0x1_0000_0000) by (nonlinear_arith)
        requires
            q * peak <= x < (q + 1) * peak,
            x == clear * 0x1_0000_0000,
            0 <= clear < peak,
    ;
}

/// Half of the values, in ascending order, are no larger than the median, and the
/// other half are no smaller; of an odd number it is the middle one, of an even one
/// it lies half way between the two middle ones.
pub proof fn median_is_in_the_middle(v: Seq<int>, s: Seq<int>)
    requires
        v.len() > 0,
        s.to_multiset() == v.to_multiset(),
        forall|i: int, j: int| 0 <= i < j < s.len() ==> s[i] <= s[j],
    ensures
        s.len() == v.len(),
        forall|i: int| 0 <= 2 * i && 2 * i + 1 <= v.len() ==> #[trigger] s[i] <= median_of(v),
        forall|i: int| v.len() <= 2 * i + 1 && i < v.len() ==> median_of(v) <= #[trigger] s[i],
        v.len() % 2 == 1 ==> s.contains(median_of(v)),
        v.len() % 2 == 0 ==> {
            let a = s[v.len() as int / 2 - 1];
            let b = s[v.len() as int / 2];
            2 * median_of(v) <= a + b < 2 * median_of(v) + 2
        },
{
    let leq = |x: int, y: int| x <= y;
    v.lemma_sort_ensures();
    v.to_multiset_ensures();
    s.to_multiset_ensures();
    v.sort().to_multiset_ensures();
    assert(vstd::relations::sorted_by(s, leq));
    assert(vstd::relations::total_ordering(leq));
    vstd::seq_lib::lemma_sorted_unique(s, v.sort(), leq);
    let n = v.len() as int;
    assert(s == v.sort() && s.len() == n);
    if n % 2 == 1 {
        assert(median_of(v) == s[n / 2]);
    }
}

/// The noise floor is the median of what was sampled, and never less than a
/// thousand-millionth.
pub proof fn level_is_the_median(floor: Seq<u64>)
    ensures
        level_of(floor) >= 1_125_900,
        floor.len() > 0 && median_of(energies(floor)) >= 1_125_900 ==> level_of(floor)
            == median_of(energies(floor)),
        floor.len() == 0 || median_of(energies(floor)) <= 1_125_900 ==> level_of(floor)
            == 1_125_900,
{
}

/// A burst is heard at the loudest of its windows, the first of them if several are
/// equally loud, and only if that one has at least five times the noise floor's
/// energy; it is not heard exactly if no window has.
pub proof fn bursts_are_heard_where_loudest(e: Seq<u64>, level: int)
    requires
        level > 0,
    ensures
        match heard_at(e, level) {
            Some(i) => {
                &&& 0 <= i < e.len()
                &&& e[i] >= 5 * level
                &&& forall|j: int| 0 <= j < e.len() ==> #[trigger] e[j] <= e[i]
                &&& forall|j: int| 0 <= j < i ==> #[trigger] e[j] != e[i]
            },
            None => forall|j: int| 0 <= j < e.len() ==> #[trigger] e[j] < 5 * level,
        },
{
    if exists|j: int| 0 <= j < e.len() && #[trigger] e[j] >= 5 * level {
        let j = choose|j: int| 0 <= j < e.len() && #[trigger] e[j] >= 5 * level;
        let i = lemma_some_loudest(e, e.len() as int);
        assert(is_loudest(e, i));
        assert(e[j] <= e[i]);
    }
}

/// Among the first `n` energies, where there is any, one is the first of the loudest.
proof fn lemma_some_loudest(e: Seq<u64>, n: int) -> (i: int)
    requires
        0 < n <= e.len(),
    ensures
        0 <= i < n,
        forall|j: int| 0 <= j < n ==> #[trigger] e[j] <= e[i],
        forall|j: int| 0 <= j < i ==> #[trigger] e[j] < e[i],
    decreases n,
{
    if n == 1 {
        0
    } else {
        let before = lemma_some_loudest(e, n - 1);
        if e[n - 1] > e[before] {
            n - 1
        } else {
            before
        }
    }
}

/// Every burst that is heard adds one measurement: the energy of its loudest window,
/// and how long after the expected time the middle of that window was captured. A
/// burst that is not heard adds none.
pub proof fn delays_are_measured_at_the_middle(
    rec: Recording,
    plan: TestPlan,
    e: Energies,
    n: int,
)
    requires
        n > 0,
    ensures
        rec.sample_rate == 0 ==> heard(rec, plan, e, n) == heard(rec, plan, e, n - 1),
        rec.sample_rate > 0 ==> ({
            let before = heard(rec, plan, e, n - 1);
            let after = heard(rec, plan, e, n);
            let burst = e.bursts@[n - 1]@;
            let rate = rec.sample_rate as int;
            match heard_at(burst, level_of(e.floor@)) {
                None => after == before,
                Some(i) => {
                    let taken = after.last().0 + expected_peak(plan, n - 1)
                        - rec.capture_start.flicks;
                    let twice_middle = 2 * rec.starts(plan, n - 1)[i] + span(
                        rec.sample_rate,
                        8,
                    );
                    &&& after.len() == before.len() + 1
                    &&& after.drop_last() == before
                    &&& after.last().1 == burst[i]
                    &&& 2 * (taken * rate) <= twice_middle * 705_600_000 < 2 * (taken * rate) + 2
                        * rate + 705_600_000
                },
            }
        }),
{
    let before = heard(rec, plan, e, n - 1);
    let after = heard(rec, plan, e, n);
    let burst = e.bursts@[n - 1]@;
    let rate = rec.sample_rate as int;
    let at = heard_at(burst, level_of(e.floor@));
    if at is Some && rate > 0 {
        let win = span(rec.sample_rate, 8);
        let center = rec.starts(plan, n - 1)[at->0] + win / 2;
        let x = center * 705_600_000;
        let taken = x / rate;
        assert(after.drop_last() =~= before);
        assert(after.last().0 + expected_peak(plan, n - 1) - rec.capture_start.flicks == taken);
        div_mod::lemma_fundamental_div_mod(x, rate);
        assert(taken * rate <= x < taken * rate + rate) by (nonlinear_arith)
            requires
                x == rate * taken + x % rate,
                0 <= x % rate < rate,
        ;
    }
}

/// The bursts of a plan are expected one spacing apart, each half a burst after it
/// begins, the first where the plan plays.
pub proof fn bursts_are_spaced_apart(plan: TestPlan, k: int)
    ensures
        expected_peak(plan, k + 1) - expected_peak(plan, k) == 705_600 * plan.burst_spacing_ms,
        2 * expected_peak(plan, 0) == 705_600 * (2 * plan.play_at_ms + plan.burst_ms),
{
    assert((k + 1) * plan.burst_spacing_ms == k * plan.burst_spacing_ms + plan.burst_spacing_ms)
        by (nonlinear_arith);
    assert(0 * plan.burst_spacing_ms == 0) by (nonlinear_arith);
}

/// A span has as many samples as fit the time, to the nearest one, and at least one.
pub proof fn span_lasts_its_time(sample_rate: u32, ms: u64)
    ensures
        span(sample_rate, ms) >= 1,
        span(sample_rate, ms) > 1 || sample_rate * ms >= 500 ==> -1000 <= 2 * (1000 * span(
            sample_rate,
            ms,
        ) - sample_rate * ms) <= 1000,
        sample_rate * ms < 500 ==> span(sample_rate, ms) == 1,
{
    assert(sample_rate * ms >= 0) by (nonlinear_arith);
}

/// A time is mapped to the sample that is captured then: less than one sample away
/// from it, toward the recording's start.
pub proof fn times_map_to_samples(rec: Recording, at: int)
    ensures
        ({
            let n = rec.index(at);
            let x = (at - rec.capture_start.flicks) * rec.sample_rate;
            &&& x >= 0 ==> n * 705_600_000 <= x < (n + 1) * 705_600_000
            &&& x <= 0 ==> (n - 1) * 705_600_000 < x <= n * 705_600_000
        }),
{
}

/// Every window that is tried lies within the recording, its middle at most a quarter
/// of a second (and the rounding of half a window) away from the centre, and they
/// come in order of time.
pub proof fn tried_windows_lie_around_the_center(rec: Recording, center: int, n: int)
    requires
        0 <= n <= rec.tries(),
    ensures
        ({
            let t = rec.tried(center, n);
            let win = span(rec.sample_rate, 8);
            &&& forall|i: int|
                0 <= i < t.len() ==> {
                    &&& 0 <= #[trigger] t[i]
                    &&& t[i] + win <= rec.len
                    &&& -(rec.sample_rate as int / 4) <= t[i] + win / 2 - center
                        <= rec.sample_rate as int / 4
                    &&& t[i] + win / 2 <= center - rec.sample_rate as int / 4 + (n - 1) * span(
                        rec.sample_rate,
                        1,
                    )
                }
            &&& forall|i: int, j: int| 0 <= i < j < t.len() ==> #[trigger] t[i] < #[trigger] t[j]
        }),
    decreases n,
{
    let hop = span(rec.sample_rate, 1);
    let win = span(rec.sample_rate, 8);
    let half = rec.sample_rate as int / 4;
    if n > 0 {
        tried_windows_lie_around_the_center(rec, center, n - 1);
        let h = n - 1;
        let all = 2 * half / hop;
        div_mod::lemma_fundamental_div_mod(2 * half, hop);
        assert(0 <= h * hop <= 2 * half && (h - 1) * hop < h * hop) by (nonlinear_arith)
            requires
                0 <= h <= all,
                hop >= 1,
                2 * half == hop * all + 2 * half % hop,
                2 * half % hop >= 0,
        ;
        let before = rec.tried(center, n - 1);
        let t = rec.tried(center, n);
        assert forall|i: int| 0 <= i < t.len() implies {
            &&& 0 <= #[trigger] t[i]
            &&& t[i] + win <= rec.len
            &&& -half <= t[i] + win / 2 - center <= half
            &&& t[i] + win / 2 <= center - half + h * hop
        } by {
            if i < before.len() {
                assert(t[i] == before[i]);
            }
        }
        assert forall|i: int, j: int| 0 <= i < j < t.len() implies #[trigger] t[i]
            < #[trigger] t[j] by {
            assert(t[i] == before[i]);
            if j < before.len() {
                assert(t[j] == before[j]);
            }
        }
    }
}

/// The windows that are tried leave no gap: wherever within a quarter of a second of
/// the centre a window could start, one that is tried starts less than a hop (of a
/// millisecond) before it.
pub proof fn tried_windows_leave_no_gap(rec: Recording, center: int, start: int) -> (i: int)
    requires
        ({
            let middle = start + span(rec.sample_rate, 8) / 2;
            &&& -(rec.sample_rate as int / 4) <= middle - center <= rec.sample_rate as int / 4
            &&& span(rec.sample_rate, 1) - 1 <= start
            &&& start + span(rec.sample_rate, 8) <= rec.len
        }),
    ensures
        0 <= i < rec.tried(center, rec.tries()).len(),
        rec.tried(center, rec.tries())[i] <= start < rec.tried(center, rec.tries())[i] + span(
            rec.sample_rate,
            1,
        ),
{
    let hop = span(rec.sample_rate, 1);
    let win = span(rec.sample_rate, 8);
    let half = rec.sample_rate as int / 4;
    let off = start + win / 2 - center + half;
    let h = off / hop;
    let all = 2 * half / hop;
    div_mod::lemma_fundamental_div_mod(off, hop);
    div_mod::lemma_fundamental_div_mod(2 * half, hop);
    assert(0 <= h <= all && h * hop <= off < h * hop + hop) by (nonlinear_arith)
        requires
            0 <= off <= 2 * half,
            hop >= 1,
            off == hop * h + off % hop,
            0 <= off % hop < hop,
            2 * half == hop * all + 2 * half % hop,
            0 <= 2 * half % hop < hop,
    ;
    lemma_hop_is_tried(rec, center, h, rec.tries())
}

/// A hop whose window lies within the recording is among those that are tried.
proof fn lemma_hop_is_tried(rec: Recording, center: int, h: int, n: int) -> (i: int)
    requires
        0 <= h < n,
        ({
            let start = center - rec.sample_rate as int / 4 + h * span(rec.sample_rate, 1) - span(
                rec.sample_rate,
                8,
            ) / 2;
            0 <= start && start + span(rec.sample_rate, 8) <= rec.len
        }),
    ensures
        0 <= i < rec.tried(center, n).len(),
        rec.tried(center, n)[i] == center - rec.sample_rate as int / 4 + h * span(
            rec.sample_rate,
            1,
        ) - span(rec.sample_rate, 8) / 2,
    decreases n,
{
    if h == n - 1 {
        rec.tried(center, n).len() - 1
    } else {
        lemma_hop_is_tried(rec, center, h, n - 1)
    }
}

/// At least half of the bursts must be heard, and no more than it takes; one at least.
pub proof fn majority_is_half(burst_count: u32)
    ensures
        majority(burst_count) >= 1,
        2 * majority(burst_count) >= burst_count,
        burst_count > 0 ==> 2 * (majority(burst_count) - 1) < burst_count,
{
}

/// A tone is detected exactly if at least half of its bursts were heard, at delays
/// whose median distance from their median is at most 15 ms; its delay and its energy
/// are the medians.
pub proof fn detection_is_consistent(rec: Recording, plan: TestPlan, e: Energies)
    ensures
        ({
            let h = heard(rec, plan, e, plan.burst_count as int);
            let delays = h.map_values(|x: (int, int)| x.0);
            let delay = median_of(delays);
            let spread = median_of(
                delays.map_values(
                    |x: int|
                        if x >= delay {
                            x - delay
                        } else {
                            delay - x
                        },
                ),
            );
            &&& detected(rec, plan, e) is Some <==> h.len() > 0 && 2 * h.len() >= plan.burst_count
                && spread <= 15 * 705_600
            &&& detected(rec, plan, e) matches Some(d) ==> d.0 == delay && d.1 == median_of(
                h.map_values(|x: (int, int)| x.1),
            ) && d.2 == level_of(e.floor@)
        }),
{
    let h = heard(rec, plan, e, plan.burst_count as int);
    let delays = h.map_values(|x: (int, int)| x.0);
    let delay = median_of(delays);
    assert(delays_of(h) =~= delays);
    assert(peaks_of(h) =~= h.map_values(|x: (int, int)| x.1));
    assert(distances(delays, delay) =~= delays.map_values(
        |x: int|
            if x >= delay {
                x - delay
            } else {
                delay - x
            },
    ));
}

/// What is reported of one speaker rests on its own measurements.
pub proof fn speakers_are_detected_one_by_one(
    rec: Recording,
    plan: TestPlan,
    es: Seq<Energies>,
    i: int,
)
    requires
        0 <= i < es.len(),
    ensures
        detections(rec, plan, es).len() == es.len(),
        detections(rec, plan, es)[i] == detected(rec, plan, es[i]),
{
}

/// The noise floor is sampled from the start of a recording to its end, every 13 ms: no
/// further window of 8 ms would fit.
pub proof fn floor_covers_the_recording(rec: Recording)
    ensures
        span(rec.sample_rate, 8) > rec.len ==> rec.floor_count() == 0,
        span(rec.sample_rate, 8) <= rec.len ==> {
            let hop = span(rec.sample_rate, 13);
            let win = span(rec.sample_rate, 8);
            &&& rec.floor_count() >= 1
            &&& (rec.floor_count() - 1) * hop + win <= rec.len < rec.floor_count() * hop + win
        },
{
    let hop = span(rec.sample_rate, 13);
    let win = span(rec.sample_rate, 8);
    if win <= rec.len {
        let x = rec.len - win;
        let q = x / hop;
        div_mod::lemma_fundamental_div_mod(x, hop);
        assert(0 <= q && q * hop <= x < (q + 1) * hop) by (nonlinear_arith)
            requires
                x >= 0,
                hop >= 1,
                x == hop * q + x % hop,
                0 <= x % hop < hop,
        ;
    }
}

} // verus!
