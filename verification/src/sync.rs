//! Client clock synchronization and client-owned settings.
//!
//! Multicast audio is one-way (server to clients), so to estimate the owning
//! server's clock a client opens a *unicast* side-channel and does an NTP-style
//! round-trip exchange. [`SyncedClock`] turns those measurements into a smooth,
//! continuously-corrected estimate that playback schedules against.
//!
//! With many servers, no single server owns a client's settings, so the client
//! owns them itself in [`ClientSettings`] (selected source, volume, delay). The
//! web UI mutates them by multicasting a [`ControlCommand`]; the client applies
//! it and reflects the new value in its telemetry. The sync exchange re-points
//! to whichever server owns the currently-selected source via [`SyncTarget`].
//!
//! Times of the local clock are epoch milliseconds; the time at which a listener
//! was heard is a monotonic clock's nanoseconds.
use vstd::prelude::*;

use crate::assoc;
use crate::assoc::is_fresh;
use crate::lists;
use crate::units::{Millis, Volume, FLICKS_PER_MS, FULL_VOLUME};
use crate::wire::{ControlCommand, TimeRequest, TimeResponse, MAX_DELAY_MS};

verus! {

/// How many recent measurements to keep when choosing the best offset.
pub const SAMPLE_WINDOW: usize = 64;

/// Most flicks that the *applied* offset may move toward the target per elapsed
/// millisecond: 0.5% of real time. Keeps the induced tempo/pitch change well
/// below the threshold of perception while still tracking drift.
pub const MAX_SLEW: i128 = 3528;

/// Number of quick exchanges to do before settling into the steady interval.
pub const WARMUP_SAMPLES: usize = 8;

pub const WARMUP_INTERVAL_MS: u64 = 50;

/// Steady sync cadence.
pub const STEADY_INTERVAL_MS: u64 = 500;

/// How often the sync thread wakes to re-check its target while nothing is
/// selected (Off), so it re-points promptly once a source is chosen.
pub const IDLE_POLL_MS: u64 = 200;

/// One round-trip measurement.
#[derive(Debug, Clone, Copy, PartialEq, Eq, Structural)]
pub struct Sample {
    pub offset_ms: Millis,
    pub rtt_ms: Millis,
}

/// A snapshot of the clock-sync state, for telemetry.
#[derive(Debug, Clone, Copy, PartialEq, Eq, Structural)]
pub struct SyncStats {
    pub applied_offset_ms: Millis,
    pub target_offset_ms: Millis,
    pub best_rtt_ms: Millis,
    pub last_offset_ms: Millis,
    pub last_rtt_ms: Millis,
    pub samples: usize,
}

/// Whether the `i`-th measurement is the first with the lowest round trip.
pub open spec fn is_best(samples: Seq<Sample>, i: int) -> bool {
    &&& 0 <= i < samples.len()
    &&& forall|j: int|
        0 <= j < samples.len() ==> samples[i].rtt_ms.flicks <= (#[trigger] samples[j]).rtt_ms.flicks
    &&& forall|j: int|
        0 <= j < i ==> samples[i].rtt_ms.flicks < (#[trigger] samples[j]).rtt_ms.flicks
}

/// The measurements with one more, the oldest left off beyond the window.
pub open spec fn window_with(samples: Seq<Sample>, s: Sample) -> Seq<Sample> {
    let all = samples.push(s);
    if all.len() > SAMPLE_WINDOW {
        all.drop_first()
    } else {
        all
    }
}

/// The applied offset after `elapsed_ms` more milliseconds: it moves toward the
/// target by at most [`MAX_SLEW`] per millisecond, and not beyond it.
pub open spec fn slewed(applied: int, target: int, elapsed_ms: int) -> int {
    let step = MAX_SLEW * elapsed_ms;
    if target - applied > step {
        applied + step
    } else if target - applied < -step {
        applied - step
    } else {
        target
    }
}

/// A continuously-corrected estimate of the server's clock.
pub struct SyncedClock {
    pub samples: Vec<Sample>,
    /// Best current estimate of (server_clock - local_clock).
    pub target_offset: Millis,
    /// The offset actually in effect; slewed toward `target_offset`.
    pub applied_offset: Millis,
    pub last_local_ms: u64,
    pub initialized: bool,
}

impl SyncedClock {
    pub open spec fn wf(&self) -> bool {
        &&& self.samples@.len() <= SAMPLE_WINDOW
        &&& self.initialized == (self.samples@.len() >= WARMUP_SAMPLES)
        &&& self.target_offset.modest()
        &&& self.applied_offset.modest()
        &&& forall|i: int|
            0 <= i < self.samples@.len() ==> (#[trigger] self.samples@[i]).offset_ms.modest()
                && self.samples@[i].rtt_ms.modest()
        &&& self.samples@.len() > 0 ==> exists|i: int| #[trigger]
            is_best(self.samples@, i) && self.target_offset == self.samples@[i].offset_ms
    }

    /// Whether nothing is known of the server's clock.
    pub open spec fn blank(&self) -> bool {
        &&& self.samples@.len() == 0
        &&& self.target_offset.flicks == 0
        &&& self.applied_offset.flicks == 0
        &&& !self.initialized
    }

    /// Whether the best estimate was adopted directly at the end of the warmup, and
    /// the offset in effect left alone at any other time.
    pub open spec fn adopts_from(&self, before: SyncedClock, now_ms: u64) -> bool {
        let adopt = !before.initialized && self.initialized;
        &&& self.applied_offset == if adopt {
            self.target_offset
        } else {
            before.applied_offset
        }
        &&& self.last_local_ms == if adopt {
            now_ms
        } else {
            before.last_local_ms
        }
    }

    pub fn new(now_ms: u64) -> (r: Self)
        ensures
            r.wf(),
            r.blank(),
            r.last_local_ms == now_ms,
    {
        SyncedClock {
            samples: Vec::new(),
            target_offset: Millis { flicks: 0 },
            applied_offset: Millis { flicks: 0 },
            last_local_ms: now_ms,
            initialized: false,
        }
    }

    /// Discard all samples and offsets. Called when the sync target switches to
    /// a *different server*, whose clock offset is unrelated to the old one's.
    pub fn reset(&mut self, now_ms: u64)
        ensures
            final(self).wf(),
            final(self).blank(),
            final(self).last_local_ms == now_ms,
    {
        self.samples = Vec::new();
        self.target_offset = Millis { flicks: 0 };
        self.applied_offset = Millis { flicks: 0 };
        self.last_local_ms = now_ms;
        self.initialized = false;
    }

    /// The first measurement with the lowest round trip.
    fn best(&self) -> (i: usize)
        requires
            self.samples@.len() > 0,
        ensures
            is_best(self.samples@, i as int),
    {
        let mut at: usize = 0;
        let mut i: usize = 1;
        while i < self.samples.len()
            invariant
                at < i <= self.samples@.len(),
                forall|j: int|
                    0 <= j < i ==> self.samples@[at as int].rtt_ms.flicks <= (
                    #[trigger] self.samples@[j]).rtt_ms.flicks,
                forall|j: int|
                    0 <= j < at ==> self.samples@[at as int].rtt_ms.flicks < (
                    #[trigger] self.samples@[j]).rtt_ms.flicks,
            decreases self.samples@.len() - i,
        {
            if self.samples[i].rtt_ms.flicks < self.samples[at].rtt_ms.flicks {
                at = i;
            }
            i = i + 1;
        }
        at
    }

    /// Feed a raw round-trip measurement.
    ///
    /// The target becomes the offset of the lowest-RTT sample in the window: it
    /// is the one least distorted by transient network/queuing delay (a standard
    /// NTP heuristic), which keeps the target stable against jitter.
    ///
    /// No offset is applied (and playback may not start) until the full warmup
    /// window is collected: a single early sample can be badly skewed, and
    /// adopting it would jump playback. Once [`WARMUP_SAMPLES`] are in, the best
    /// estimate is adopted directly, and slewed from there.
    pub fn add_sample(&mut self, offset_ms: Millis, rtt_ms: Millis, now_ms: u64)
        requires
            old(self).wf(),
            offset_ms.modest(),
            rtt_ms.modest(),
        ensures
            final(self).wf(),
            final(self).samples@ == window_with(old(self).samples@, (Sample { offset_ms, rtt_ms })),
            final(self).adopts_from(*old(self), now_ms),
    {
        let ghost before = self.samples@;
        self.samples.push(Sample { offset_ms, rtt_ms });
        if self.samples.len() > SAMPLE_WINDOW {
            let _ = self.samples.remove(0);
        }
        proof {
            assert(self.samples@ =~= window_with(before, Sample { offset_ms, rtt_ms }));
        }
        let b: usize = self.best();
        self.target_offset = self.samples[b].offset_ms;
        if !self.initialized && self.samples.len() >= WARMUP_SAMPLES {
            self.applied_offset = self.target_offset;
            self.last_local_ms = now_ms;
            self.initialized = true;
        }
        proof {
            assert(is_best(self.samples@, b as int));
        }
    }

    pub fn is_initialized(&self) -> (r: bool)
        ensures
            r == self.initialized,
    {
        self.initialized
    }

    pub fn sample_count(&self) -> (n: usize)
        ensures
            n == self.samples@.len(),
    {
        self.samples.len()
    }

    /// Current sync state for telemetry.
    pub fn stats(&self) -> (r: SyncStats)
        requires
            self.wf(),
        ensures
            r.applied_offset_ms == self.applied_offset,
            r.target_offset_ms == self.target_offset,
            r.samples == self.samples@.len(),
            self.samples@.len() > 0 ==> {
                &&& r.last_offset_ms == self.samples@.last().offset_ms
                &&& r.last_rtt_ms == self.samples@.last().rtt_ms
                &&& exists|i: int|
                    #[trigger] is_best(self.samples@, i) && r.best_rtt_ms == self.samples@[i].rtt_ms
            },
            self.samples@.len() == 0 ==> r.last_offset_ms.flicks == 0 && r.last_rtt_ms.flicks == 0
                && r.best_rtt_ms.flicks == 0,
    {
        let n: usize = self.samples.len();
        let zero: Millis = Millis { flicks: 0 };
        let mut best_rtt_ms: Millis = zero;
        let mut last_offset_ms: Millis = zero;
        let mut last_rtt_ms: Millis = zero;
        if n > 0 {
            let b: usize = self.best();
            best_rtt_ms = self.samples[b].rtt_ms;
            last_offset_ms = self.samples[n - 1].offset_ms;
            last_rtt_ms = self.samples[n - 1].rtt_ms;
            proof {
                assert(is_best(self.samples@, b as int));
            }
        }
        SyncStats {
            applied_offset_ms: self.applied_offset,
            target_offset_ms: self.target_offset,
            best_rtt_ms,
            last_offset_ms,
            last_rtt_ms,
            samples: n,
        }
    }

    /// Best estimate of the server's current clock, where the local one reads
    /// `local_ms`. Each call advances the applied offset toward the target by at
    /// most 0.5% of the elapsed time, so the correction is spread out and never
    /// causes an audible jump.
    pub fn server_now_ms(&mut self, local_ms: u64) -> (r: Millis)
        requires
            old(self).wf(),
        ensures
            final(self).wf(),
            final(self).samples == old(self).samples,
            final(self).target_offset == old(self).target_offset,
            final(self).initialized == old(self).initialized,
            final(self).last_local_ms == local_ms,
            final(self).applied_offset.flicks == slewed(
                old(self).applied_offset.flicks as int,
                old(self).target_offset.flicks as int,
                if local_ms > old(self).last_local_ms {
                    local_ms - old(self).last_local_ms
                } else {
                    0
                },
            ),
            r.flicks == Millis::spec_whole(local_ms as int) + final(self).applied_offset.flicks,
            r.sane(),
    {
        let elapsed: u64 = local_ms.saturating_sub(self.last_local_ms);
        self.last_local_ms = local_ms;
        let step: i128 = MAX_SLEW * elapsed as i128;
        let diff: i128 = self.target_offset.flicks - self.applied_offset.flicks;
        let moved: i128 = if diff > step {
            self.applied_offset.flicks + step
        } else if diff < -step {
            self.applied_offset.flicks - step
        } else {
            self.target_offset.flicks
        };
        self.applied_offset = Millis { flicks: moved };
        Millis { flicks: Millis::whole(local_ms).flicks + moved }
    }
}

/// The estimate never runs backwards or off: over `elapsed` milliseconds of the
/// local clock it advances by the same span, give or take 0.5%.
pub proof fn estimate_advances_evenly(applied: int, target: int, elapsed: int)
    requires
        elapsed >= 0,
    ensures
        ({
            let gained = Millis::spec_whole(elapsed) + slewed(applied, target, elapsed) - applied;
            &&& gained >= 0
            &&& 200 * (gained - Millis::spec_whole(elapsed)) <= Millis::spec_whole(elapsed)
            &&& 200 * (Millis::spec_whole(elapsed) - gained) <= Millis::spec_whole(elapsed)
        }),
{
}

/// The applied offset closes in on the target and never passes it: with enough
/// time it gets there.
pub proof fn slew_reaches_target(applied: int, target: int, elapsed: int)
    requires
        elapsed >= 0,
    ensures
        applied <= target ==> applied <= slewed(applied, target, elapsed) <= target,
        applied >= target ==> target <= slewed(applied, target, elapsed) <= applied,
        target - applied <= MAX_SLEW * elapsed && applied - target <= MAX_SLEW * elapsed ==> slewed(
            applied,
            target,
            elapsed,
        ) == target,
{
}

/// Two advances in a row move the offset as one over the whole time does.
pub proof fn slew_adds_up(applied: int, target: int, first: int, second: int)
    requires
        first >= 0,
        second >= 0,
    ensures
        slewed(slewed(applied, target, first), target, second) == slewed(
            applied,
            target,
            first + second,
        ),
{
}

/// The unicast address the client currently time-syncs against: the server that
/// owns the selected source. Updated by the selection logic; read by the sync
/// thread. `None` when nothing is selected.
pub struct SyncTarget {
    pub inner: Option<(u32, u16)>,
}

impl SyncTarget {
    pub fn new() -> (r: Self)
        ensures
            r.inner is None,
    {
        SyncTarget { inner: None }
    }

    pub fn set(&mut self, ip: u32, port: u16)
        ensures
            final(self).inner == Some((ip, port)),
    {
        self.inner = Some((ip, port));
    }

    pub fn clear(&mut self)
        ensures
            final(self).inner is None,
    {
        self.inner = None;
    }

    pub fn get(&self) -> (r: Option<(u32, u16)>)
        ensures
            r == self.inner,
    {
        self.inner
    }
}

/// Copies a channel map.
pub fn copy_map(map: &Vec<i16>) -> (r: Vec<i16>)
    ensures
        r@ == map@,
{
    let r: Vec<i16> = map.clone();
    proof {
        assert(r@ =~= map@);
    }
    r
}

/// Client-owned settings: the single source of truth for this client's selected
/// source, volume, and delay. Written by the control listener (applying UI
/// commands), read by playback, the sync re-pointer, and the telemetry sender.
pub struct ClientSettings {
    /// 0 = off (play nothing).
    pub selected_source_id: u64,
    pub volume: Volume,
    pub delay_ms: u32,
    pub volume_dirty: bool,
    /// Bumped on every actual selection change; the watcher keys off it.
    pub selection_epoch: u64,
    /// Send lead (ms) of the currently-selected source: the cap on `delay_ms`,
    /// since a device can't play earlier than the buffered lead. Kept current by
    /// the selection watcher from the catalog.
    pub active_lead_ms: u32,
    /// Output channel map: one source-channel index per output channel (`-1` =
    /// silence). Empty means the default identity mapping (out i plays src i).
    pub channel_map: Vec<i16>,
}

/// What client settings hold.
#[verifier::ext_equal]
pub struct SettingsView {
    pub selected: u64,
    pub volume: Volume,
    pub delay_ms: u32,
    pub volume_dirty: bool,
    pub epoch: u64,
    pub lead_ms: u32,
    pub channel_map: Seq<i16>,
}

impl View for ClientSettings {
    type V = SettingsView;

    open spec fn view(&self) -> SettingsView {
        SettingsView {
            selected: self.selected_source_id,
            volume: self.volume,
            delay_ms: self.delay_ms,
            volume_dirty: self.volume_dirty,
            epoch: self.selection_epoch,
            lead_ms: self.active_lead_ms,
            channel_map: self.channel_map@,
        }
    }
}

impl SettingsView {
    /// The delay never exceeds the lead of the selected source, and the volume
    /// lies between silence and full.
    pub open spec fn wf(self) -> bool {
        &&& self.delay_ms <= self.lead_ms
        &&& 0 <= self.volume.units <= FULL_VOLUME
    }

    /// With the volume set: only a real change marks it as new.
    pub open spec fn with_volume(self, v: Volume) -> SettingsView {
        if v.spec_clamped().spec_differs(self.volume) {
            SettingsView { volume: v.spec_clamped(), volume_dirty: true, ..self }
        } else {
            self
        }
    }

    /// With the delay set, up to the lead.
    pub open spec fn with_delay(self, ms: u32) -> SettingsView {
        SettingsView {
            delay_ms: if ms < self.lead_ms {
                ms
            } else {
                self.lead_ms
            },
            ..self
        }
    }

    /// With a source selected: only a real change starts a new epoch.
    pub open spec fn with_selection(self, id: u64) -> SettingsView {
        if self.selected != id {
            SettingsView { selected: id, epoch: next_epoch(self.epoch), ..self }
        } else {
            self
        }
    }

    pub open spec fn with_map(self, map: Seq<i16>) -> SettingsView {
        SettingsView { channel_map: map, ..self }
    }

    /// With a lead that caps the delay.
    pub open spec fn with_lead(self, ms: u32) -> SettingsView {
        SettingsView {
            lead_ms: ms,
            delay_ms: if self.delay_ms > ms {
                ms
            } else {
                self.delay_ms
            },
            ..self
        }
    }

    /// With each field of a command that is present applied.
    pub open spec fn after(self, cmd: CommandView) -> SettingsView {
        let a = match cmd.volume {
            Some(v) => self.with_volume(v),
            None => self,
        };
        let b = match cmd.delay_ms {
            Some(d) => a.with_delay(d),
            None => a,
        };
        let c = match cmd.source_id {
            Some(id) => b.with_selection(id),
            None => b,
        };
        match cmd.channel_map {
            Some(m) => c.with_map(m),
            None => c,
        }
    }
}

/// The epoch after `epoch`; the count wraps.
pub open spec fn next_epoch(epoch: u64) -> u64 {
    if epoch == u64::MAX {
        0
    } else {
        (epoch + 1) as u64
    }
}

/// What a control command asks for.
#[verifier::ext_equal]
pub struct CommandView {
    pub target_ip: Seq<u8>,
    pub cmd_id: u64,
    pub source_id: Option<u64>,
    pub volume: Option<Volume>,
    pub delay_ms: Option<u32>,
    pub channel_map: Option<Seq<i16>>,
}

impl View for ControlCommand {
    type V = CommandView;

    open spec fn view(&self) -> CommandView {
        CommandView {
            target_ip: self.target_ip@,
            cmd_id: self.cmd_id,
            source_id: self.set_source_id,
            volume: self.set_volume,
            delay_ms: self.set_delay_ms,
            channel_map: match self.set_channel_map {
                Some(m) => Some(m@),
                None => None,
            },
        }
    }
}

impl ClientSettings {
    pub fn new() -> (r: Self)
        ensures
            r@.wf(),
            r@ == (SettingsView {
                selected: 0,
                volume: Volume { units: FULL_VOLUME },
                delay_ms: 0,
                volume_dirty: true,
                epoch: 0,
                lead_ms: MAX_DELAY_MS,
                channel_map: Seq::empty(),
            }),
            r@.lead_ms == 150,
    {
        ClientSettings {
            selected_source_id: 0,
            volume: Volume::full(),
            delay_ms: 0,
            // Apply the initial volume once at startup.
            volume_dirty: true,
            selection_epoch: 0,
            active_lead_ms: MAX_DELAY_MS,
            channel_map: Vec::new(),
        }
    }

    /// (selected_source_id, volume, delay_ms) for a telemetry report.
    pub fn report_values(&self) -> (r: (u64, Volume, u32))
        ensures
            r == (self@.selected, self@.volume, self@.delay_ms),
    {
        (self.selected_source_id, self.volume, self.delay_ms)
    }

    pub fn selected(&self) -> (r: u64)
        ensures
            r == self@.selected,
    {
        self.selected_source_id
    }

    pub fn delay_ms(&self) -> (r: u32)
        ensures
            r == self@.delay_ms,
    {
        self.delay_ms
    }

    /// Send lead (ms) of the selected source: the total-buffer budget basis.
    pub fn active_lead_ms(&self) -> (r: u32)
        ensures
            r == self@.lead_ms,
    {
        self.active_lead_ms
    }

    /// The current output channel map (empty = default identity mapping).
    pub fn channel_map(&self) -> (r: Vec<i16>)
        ensures
            r@ == self@.channel_map,
    {
        copy_map(&self.channel_map)
    }

    /// The current volume if it changed since the last call, clearing the flag.
    pub fn take_volume_update(&mut self) -> (r: Option<Volume>)
        ensures
            r == if old(self)@.volume_dirty {
                Some(old(self)@.volume)
            } else {
                None
            },
            final(self)@ == (SettingsView { volume_dirty: false, ..old(self)@ }),
    {
        if self.volume_dirty {
            self.volume_dirty = false;
            Some(self.volume)
        } else {
            None
        }
    }

    pub fn set_volume(&mut self, value: Volume)
        ensures
            final(self)@ == old(self)@.with_volume(value),
            old(self)@.wf() ==> final(self)@.wf(),
    {
        let v: Volume = value.clamped();
        if v.differs(self.volume) {
            self.volume = v;
            self.volume_dirty = true;
        }
    }

    pub fn set_delay(&mut self, ms: u32)
        ensures
            final(self)@ == old(self)@.with_delay(ms),
            old(self)@.wf() ==> final(self)@.wf(),
    {
        self.delay_ms =
        if ms < self.active_lead_ms {
            ms
        } else {
            self.active_lead_ms
        };
    }

    pub fn set_channel_map(&mut self, map: Vec<i16>)
        ensures
            final(self)@ == old(self)@.with_map(map@),
            old(self)@.wf() ==> final(self)@.wf(),
    {
        self.channel_map = map;
    }

    /// Update the cap on `delay_ms` to the selected source's send lead, and
    /// re-clamp the current delay to it. Called by the selection watcher.
    pub fn set_active_lead(&mut self, lead_ms: u32)
        ensures
            final(self)@ == old(self)@.with_lead(lead_ms),
            old(self)@.wf() ==> final(self)@.wf(),
    {
        self.active_lead_ms = lead_ms;
        if self.delay_ms > lead_ms {
            self.delay_ms = lead_ms;
        }
    }

    /// Select a source (0 = off). Bumps the epoch only on an actual change, so
    /// redundant re-sends of a command are idempotent.
    pub fn set_selection(&mut self, id: u64)
        ensures
            final(self)@ == old(self)@.with_selection(id),
            old(self)@.wf() ==> final(self)@.wf(),
    {
        if self.selected_source_id != id {
            self.selected_source_id = id;
            self.selection_epoch = self.selection_epoch.wrapping_add(1);
        }
    }

    /// Apply a control command from the UI. Each field is applied only if
    /// present; unchanged values are no-ops (so the threefold re-send is
    /// harmless).
    pub fn apply_command(&mut self, cmd: &ControlCommand)
        ensures
            final(self)@ == old(self)@.after(cmd@),
            old(self)@.wf() ==> final(self)@.wf(),
    {
        if let Some(v) = cmd.set_volume {
            self.set_volume(v);
        }
        if let Some(d) = cmd.set_delay_ms {
            self.set_delay(d);
        }
        if let Some(id) = cmd.set_source_id {
            self.set_selection(id);
        }
        if let Some(map) = &cmd.set_channel_map {
            self.set_channel_map(copy_map(map));
        }
    }

    /// The selected source and its epoch, for a watcher that last saw
    /// `last_epoch`, and whether it has changed since.
    pub fn selection_since(&self, last_epoch: u64) -> (r: (u64, u64, bool))
        ensures
            r == (self@.selected, self@.epoch, self@.epoch != last_epoch),
    {
        (self.selected_source_id, self.selection_epoch, self.selection_epoch != last_epoch)
    }
}

/// A command applied twice does what it does once, whether or not the volume was
/// taken over in between.
pub proof fn commands_are_idempotent(s: SettingsView, cmd: CommandView)
    ensures
        s.after(cmd).after(cmd) =~= s.after(cmd),
        ({
            let taken = SettingsView { volume_dirty: false, ..s.after(cmd) };
            taken.after(cmd) =~= taken
        }),
{
}

/// A command that names no source leaves the selection and its epoch alone, and
/// one that names the selected source does so too.
pub proof fn epoch_moves_only_on_change(s: SettingsView, cmd: CommandView)
    ensures
        (cmd.source_id is None || cmd.source_id == Some(s.selected)) <==> s.after(cmd).epoch
            == s.epoch,
        cmd.source_id is Some ==> s.after(cmd).selected == cmd.source_id->0,
        cmd.source_id is None ==> s.after(cmd).selected == s.selected,
{
}

/// No command takes the delay beyond the lead or the volume out of its range.
pub proof fn commands_keep_bounds(s: SettingsView, cmd: CommandView)
    requires
        s.wf(),
    ensures
        s.after(cmd).wf(),
        s.after(cmd).lead_ms == s.lead_ms,
{
}

/// What the sync thread does next.
#[derive(Debug)]
pub enum SyncStep {
    /// Nothing selected: look again after this many milliseconds.
    Idle { sleep_ms: u64 },
    /// Send the request to the server.
    Ask { ip: u32, port: u16, request: TimeRequest },
}

/// The state of the exchange with the server that owns the selected source.
pub struct SyncClient {
    pub nonce: u64,
    pub current_ip: Option<u32>,
}

/// Twice the offset (server_clock minus the midpoint of the client's send and
/// receive times), in flicks.
pub open spec fn doubled_offset(t1: u64, t4: u64, server_ms: u64) -> int {
    Millis::spec_whole(2 * server_ms - t1 - t4)
}

/// A measured offset is off by at most half its round trip: whatever the way there
/// and the way back took (`there` and `back`), when the server's clock truly runs
/// `ahead` milliseconds ahead. This is why the measurement with the lowest round
/// trip is trusted.
pub proof fn offset_error_is_half_the_round_trip(
    t1: u64,
    t4: u64,
    server_ms: u64,
    ahead: int,
    there: int,
    back: int,
)
    requires
        there >= 0,
        back >= 0,
        server_ms == t1 + there + ahead,
        t4 == t1 + there + back,
    ensures
        ({
            let error2 = doubled_offset(t1, t4, server_ms) - 2 * Millis::spec_whole(ahead);
            let rtt = Millis::spec_whole(t4 - t1);
            -rtt <= error2 <= rtt
        }),
{
}

impl SyncClient {
    pub fn new() -> (r: Self)
        ensures
            r.nonce == 0,
            r.current_ip is None,
    {
        SyncClient { nonce: 0, current_ip: None }
    }

    /// Start an exchange with the server that owns the currently-selected source
    /// (from `target`). When that is a different server than before, the clock is
    /// reset (offsets are per-server).
    pub fn begin(
        &mut self,
        target: &SyncTarget,
        clock: &mut SyncedClock,
        settings: &ClientSettings,
        now_ms: u64,
    ) -> (r: SyncStep)
        requires
            old(clock).wf(),
        ensures
            final(clock).wf(),
            match target.inner {
                None => {
                    &&& r == (SyncStep::Idle { sleep_ms: IDLE_POLL_MS })
                    &&& r == (SyncStep::Idle { sleep_ms: 200 })
                    &&& final(self).current_ip is None
                    &&& final(self).nonce == old(self).nonce
                    &&& *final(clock) == *old(clock)
                },
                Some(dest) => {
                    &&& final(self).current_ip == Some(dest.0)
                    &&& final(self).nonce == next_epoch(old(self).nonce)
                    &&& old(self).current_ip == Some(dest.0) ==> *final(clock) == *old(clock)
                    &&& old(self).current_ip != Some(dest.0) ==> final(clock).blank()
                        && final(clock).last_local_ms == now_ms
                    &&& r matches SyncStep::Ask { ip, port, request }
                    &&& (ip, port) == dest
                    &&& request.client_send_ms == now_ms
                    &&& request.nonce == final(self).nonce
                    &&& request.selected_source_id == settings@.selected
                    &&& request.channel_map@ == settings@.channel_map
                },
            },
    {
        match target.get() {
            None => {
                // Keep the last clock; playback is off.
                self.current_ip = None;
                SyncStep::Idle { sleep_ms: IDLE_POLL_MS }
            },
            Some(dest) => {
                let same: bool = match self.current_ip {
                    Some(ip) => ip == dest.0,
                    None => false,
                };
                if !same {
                    clock.reset(now_ms);
                    self.current_ip = Some(dest.0);
                }
                self.nonce = self.nonce.wrapping_add(1);
                SyncStep::Ask {
                    ip: dest.0,
                    port: dest.1,
                    request: TimeRequest {
                        client_send_ms: now_ms,
                        nonce: self.nonce,
                        selected_source_id: settings.selected(),
                        channel_map: settings.channel_map(),
                    },
                }
            },
        }
    }

    /// Take in a reply that came at `t4` to the request sent at `t1`. A stale or
    /// mismatched one is dropped; a matching one is measured and the clock's new
    /// state is returned.
    pub fn on_reply(
        &self,
        clock: &mut SyncedClock,
        resp: &TimeResponse,
        t1: u64,
        t4: u64,
    ) -> (r: Option<SyncStats>)
        requires
            old(clock).wf(),
        ensures
            final(clock).wf(),
            r is Some <==> resp.nonce == self.nonce,
            r is None ==> *final(clock) == *old(clock),
            r is Some ==> {
                &&& exists|s: Sample|
                    {
                        &&& final(clock).samples@ == #[trigger] window_with(old(clock).samples@, s)
                        &&& 2 * s.offset_ms.flicks == doubled_offset(t1, t4, resp.server_ms)
                        &&& s.rtt_ms.flicks == Millis::spec_whole(
                            if t4 > t1 {
                                t4 - t1
                            } else {
                                0
                            },
                        )
                    }
                &&& final(clock).adopts_from(*old(clock), t4)
                &&& r->0.samples == final(clock).samples@.len()
                &&& r->0.applied_offset_ms == final(clock).applied_offset
                &&& r->0.target_offset_ms == final(clock).target_offset
                &&& r->0.last_offset_ms == final(clock).samples@.last().offset_ms
                &&& r->0.last_rtt_ms == final(clock).samples@.last().rtt_ms
                &&& exists|i: int|
                    #[trigger] is_best(final(clock).samples@, i) && r->0.best_rtt_ms == final(clock).samples@[i].rtt_ms
            },
    {
        if resp.nonce != self.nonce {
            return None;
        }
        let rtt: Millis = Millis::whole(t4.saturating_sub(t1));
        let twice: i128 = 2 * (resp.server_ms as i128) - (t1 as i128) - (t4 as i128);
        let offset: Millis = Millis { flicks: twice * (FLICKS_PER_MS / 2) };
        proof {
            assert(2 * offset.flicks == doubled_offset(t1, t4, resp.server_ms));
        }
        let ghost before = clock.samples@;
        clock.add_sample(offset, rtt, t4);
        proof {
            let s = Sample { offset_ms: offset, rtt_ms: rtt };
            assert(clock.samples@ == window_with(before, s));
        }
        Some(clock.stats())
    }

    /// How long to sleep before the next exchange.
    pub fn interval(clock: &SyncedClock) -> (ms: u64)
        ensures
            ms == if clock.samples@.len() < WARMUP_SAMPLES {
                WARMUP_INTERVAL_MS
            } else {
                STEADY_INTERVAL_MS
            },
            clock.samples@.len() < 8 ==> ms == 50,
            clock.samples@.len() >= 8 ==> ms == 500,
    {
        if clock.sample_count() < WARMUP_SAMPLES {
            WARMUP_INTERVAL_MS
        } else {
            STEADY_INTERVAL_MS
        }
    }
}

/// How long a client counts as a listener of a source after its last time-sync
/// request naming it (3 s, in nanoseconds). A few sync intervals, so a dropped
/// request is tolerated.
pub const LISTENER_TTL: u64 = 3_000_000_000;

/// One listening client: when it was last heard, and the output channel map it
/// reported (empty = default identity / full stream). The map lets the send path
/// stream only the source channels this client actually plays in unicast mode.
pub struct Listener {
    pub source_id: u64,
    pub ip: u32,
    pub seen: u64,
    pub channel_map: Vec<i16>,
}

/// What is known of a listener.
#[verifier::ext_equal]
pub struct ListenerView {
    pub source_id: u64,
    pub ip: u32,
    pub seen: u64,
    pub channel_map: Seq<i16>,
}

impl View for Listener {
    type V = ListenerView;

    open spec fn view(&self) -> ListenerView {
        ListenerView {
            source_id: self.source_id,
            ip: self.ip,
            seen: self.seen,
            channel_map: self.channel_map@,
        }
    }
}

/// Which clients are currently listening to each local source, learned from the
/// `selected_source_id` (and channel map) on their time-sync requests. Lets the
/// server stop an unheard source, target unicast mode, and, in unicast mode,
/// send each client only the channels it plays.
pub struct Listeners {
    pub inner: Vec<Listener>,
}

impl View for Listeners {
    type V = Seq<ListenerView>;

    open spec fn view(&self) -> Seq<ListenerView> {
        self.inner@.map_values(|l: Listener| l@)
    }
}

/// Whether the record is of this client on this source.
pub open spec fn is_listener(l: ListenerView, source_id: u64, ip: u32) -> bool {
    l.source_id == source_id && l.ip == ip
}

/// Whether the record speaks of the source and is recent enough to count.
pub open spec fn hears(l: ListenerView, source_id: u64, now: u64) -> bool {
    l.source_id == source_id && assoc::still_fresh(l.seen, now, LISTENER_TTL)
}

/// The records that a look at a source leaves: its silent listeners go.
pub open spec fn pruned(all: Seq<ListenerView>, source_id: u64, now: u64) -> Seq<ListenerView> {
    all.filter(|l: ListenerView| l.source_id != source_id || hears(l, source_id, now))
}

/// The current listeners of a source.
pub open spec fn hearing(all: Seq<ListenerView>, source_id: u64, now: u64) -> Seq<ListenerView> {
    all.filter(|l: ListenerView| hears(l, source_id, now))
}

/// Whether no client is recorded twice on one source.
pub open spec fn one_record_each(all: Seq<ListenerView>) -> bool {
    forall|i: int, j: int|
        0 <= i < j < all.len() ==> !((#[trigger] all[i]).source_id == (#[trigger] all[j]).source_id
            && all[i].ip == all[j].ip)
}

/// A part of the records taken in order holds no client twice either, and holds
/// nothing but records that pass.
proof fn lemma_filter_distinct(all: Seq<ListenerView>, n: int, keep: spec_fn(ListenerView) -> bool)
    requires
        one_record_each(all),
        0 <= n <= all.len(),
    ensures
        one_record_each(all.take(n).filter(keep)),
        forall|i: int|
            0 <= i < all.take(n).filter(keep).len() ==> keep(
                #[trigger] all.take(n).filter(keep)[i],
            ) && all.take(n).contains(all.take(n).filter(keep)[i]),
    decreases n,
{
    if n == 0 {
        reveal(Seq::filter);
    } else {
        lemma_filter_distinct(all, n - 1, keep);
        lists::lemma_filter_step(all, n - 1, keep);
        let before = all.take(n - 1).filter(keep);
        let next = all.take(n).filter(keep);
        assert(all.take(n)[n - 1] == all[n - 1]);
        assert forall|i: int| 0 <= i < next.len() implies keep(#[trigger] next[i])
            && all.take(n).contains(next[i]) by {
            if i < before.len() {
                assert(next[i] == before[i]);
                let p = all.take(n - 1).index_of(before[i]);
                assert(all.take(n - 1).contains(before[i]));
                assert(all.take(n)[p] == before[i]);
            }
        }
        assert forall|i: int, j: int| 0 <= i < j < next.len() implies !((
        #[trigger] next[i]).source_id == (#[trigger] next[j]).source_id && next[i].ip
            == next[j].ip) by {
            assert(next[i] == before[i]);
            if j < before.len() {
                assert(next[j] == before[j]);
            } else {
                let p = all.take(n - 1).index_of(before[i]);
                assert(all.take(n - 1).contains(before[i]));
                assert(all[p] == before[i]);
                assert(next[j] == all[n - 1]);
            }
        }
    }
}

impl Listeners {
    pub open spec fn wf(&self) -> bool {
        one_record_each(self@)
    }

    pub fn new() -> (r: Self)
        ensures
            r.wf(),
            r@ == Seq::<ListenerView>::empty(),
    {
        let r: Listeners = Listeners { inner: Vec::new() };
        proof {
            assert(r@ =~= Seq::<ListenerView>::empty());
        }
        r
    }

    /// Record that `ip` is listening to `source_id` (0 = none, ignored), with the
    /// client's current output `channel_map` (empty = identity / full stream).
    pub fn touch(&mut self, source_id: u64, ip: u32, channel_map: Vec<i16>, now: u64)
        requires
            old(self).wf(),
        ensures
            final(self).wf(),
            source_id == 0 ==> final(self)@ == old(self)@,
            source_id != 0 ==> {
                let l = ListenerView { source_id, ip, seen: now, channel_map: channel_map@ };
                ||| exists|i: int|
                    0 <= i < old(self)@.len() && is_listener(#[trigger] old(self)@[i], source_id, ip)
                        && final(self)@ == old(self)@.update(i, l)
                ||| (forall|i: int|
                    0 <= i < old(self)@.len() ==> !is_listener(
                        #[trigger] old(self)@[i],
                        source_id,
                        ip,
                    )) && final(self)@ == old(self)@.push(l)
            },
    {
        if source_id == 0 {
            return;
        }
        let ghost before = self@;
        let ghost l = ListenerView { source_id, ip, seen: now, channel_map: channel_map@ };
        let mut i: usize = 0;
        while i < self.inner.len()
            invariant
                i <= self.inner@.len(),
                forall|j: int| 0 <= j < i ==> !is_listener(#[trigger] self@[j], source_id, ip),
                self@ == before,
            ensures
                i <= self.inner@.len(),
                i < self.inner@.len() ==> is_listener(self@[i as int], source_id, ip),
                i == self.inner@.len() ==> forall|j: int|
                    0 <= j < self@.len() ==> !is_listener(#[trigger] self@[j], source_id, ip),
                self@ == before,
            decreases self.inner@.len() - i,
        {
            if self.inner[i].source_id == source_id && self.inner[i].ip == ip {
                break;
            }
            i = i + 1;
        }
        let entry: Listener = Listener { source_id, ip, seen: now, channel_map };
        if i < self.inner.len() {
            self.inner.set(i, entry);
            proof {
                assert(self@ =~= before.update(i as int, l));
                assert(is_listener(before[i as int], source_id, ip));
                assert forall|a: int, b: int| 0 <= a < b < self@.len() implies !((
                #[trigger] self@[a]).source_id == (#[trigger] self@[b]).source_id && self@[a].ip
                    == self@[b].ip) by {
                    assert(!(before[a].source_id == before[b].source_id && before[a].ip
                        == before[b].ip));
                }
            }
        } else {
            self.inner.push(entry);
            proof {
                assert(self@ =~= before.push(l));
                assert forall|a: int, b: int| 0 <= a < b < self@.len() implies !((
                #[trigger] self@[a]).source_id == (#[trigger] self@[b]).source_id && self@[a].ip
                    == self@[b].ip) by {
                    assert(self@[a] == before[a]);
                    assert(!is_listener(before[a], source_id, ip));
                    if b < before.len() {
                        assert(self@[b] == before[b]);
                    }
                }
            }
        }
    }

    /// Drop the listeners of a source that have been silent for [`LISTENER_TTL`].
    fn prune(&mut self, source_id: u64, now: u64)
        requires
            old(self).wf(),
        ensures
            final(self).wf(),
            final(self)@ == pruned(old(self)@, source_id, now),
    {
        let ghost all = self@;
        let ghost keep = |l: ListenerView| l.source_id != source_id || hears(l, source_id, now);
        let n: usize = self.inner.len();
        let mut i: usize = 0;
        let mut seen: usize = 0;
        proof {
            lists::lemma_filter_none(all, keep);
            assert(self@ =~= all.take(0).filter(keep) + all.skip(0));
        }
        while seen < n
            invariant
                n == all.len(),
                seen <= n,
                keep == (|l: ListenerView| l.source_id != source_id || hears(l, source_id, now)),
                self@ == all.take(seen as int).filter(keep) + all.skip(seen as int),
                i == all.take(seen as int).filter(keep).len(),
            decreases n - seen,
        {
            let ghost before = all.take(seen as int).filter(keep);
            let ghost now_held = self@;
            proof {
                lists::lemma_filter_step(all, seen as int, keep);
                assert(self@.len() == before.len() + (n - seen));
                assert(self@[i as int] == all.skip(seen as int)[0]);
                assert(self@[i as int] == all[seen as int]);
                assert(self@[i as int] == self.inner@[i as int]@);
                assert(all.skip(seen as int) =~= seq![all[seen as int]] + all.skip(seen + 1));
            }
            if self.inner[i].source_id != source_id || is_fresh(
                self.inner[i].seen,
                now,
                LISTENER_TTL,
            ) {
                proof {
                    assert(self@ =~= before.push(all[seen as int]) + all.skip(seen + 1));
                }
                i = i + 1;
            } else {
                let _ = self.inner.remove(i);
                proof {
                    assert(self@ =~= now_held.remove(i as int));
                    assert(self@ =~= before + all.skip(seen + 1));
                }
            }
            seen = seen + 1;
        }
        proof {
            lemma_filter_distinct(all, n as int, keep);
            assert(all.take(n as int) =~= all);
            assert(self@ =~= pruned(all, source_id, now));
        }
    }

    /// Current listener IPs for a source (pruned to [`LISTENER_TTL`]).
    pub fn listeners(&mut self, source_id: u64, now: u64) -> (out: Vec<u32>)
        requires
            old(self).wf(),
        ensures
            final(self).wf(),
            final(self)@ == pruned(old(self)@, source_id, now),
            out@ == hearing(old(self)@, source_id, now).map_values(|l: ListenerView| l.ip),
    {
        let targets: Vec<(u32, Vec<i16>)> = self.targets(source_id, now);
        let mut out: Vec<u32> = Vec::new();
        let mut i: usize = 0;
        let ghost want = hearing(old(self)@, source_id, now);
        while i < targets.len()
            invariant
                i <= targets@.len(),
                out@.len() == i,
                targets@.map_values(|t: (u32, Vec<i16>)| (t.0, t.1@)) == want.map_values(
                    |l: ListenerView| (l.ip, l.channel_map),
                ),
                forall|j: int| 0 <= j < i ==> #[trigger] out@[j] == want[j].ip,
            decreases targets@.len() - i,
        {
            proof {
                let a = targets@.map_values(|t: (u32, Vec<i16>)| (t.0, t.1@));
                let b = want.map_values(|l: ListenerView| (l.ip, l.channel_map));
                assert(a.len() == b.len());
                assert(a[i as int] == b[i as int]);
                assert(b[i as int] == (want[i as int].ip, want[i as int].channel_map));
                assert(a[i as int] == (targets@[i as int].0, targets@[i as int].1@));
            }
            out.push(targets[i].0);
            i = i + 1;
        }
        proof {
            let a = targets@.map_values(|t: (u32, Vec<i16>)| (t.0, t.1@));
            let b = want.map_values(|l: ListenerView| (l.ip, l.channel_map));
            assert(a.len() == b.len());
            assert(out@ =~= want.map_values(|l: ListenerView| l.ip));
        }
        out
    }

    /// Current listeners for a source as `(ip, channel_map)` pairs (pruned to
    /// [`LISTENER_TTL`]). The channel map (empty = full stream) drives per-client
    /// channel subsetting in unicast mode.
    pub fn targets(&mut self, source_id: u64, now: u64) -> (out: Vec<(u32, Vec<i16>)>)
        requires
            old(self).wf(),
        ensures
            final(self).wf(),
            final(self)@ == pruned(old(self)@, source_id, now),
            out@.map_values(|t: (u32, Vec<i16>)| (t.0, t.1@)) == hearing(
                old(self)@,
                source_id,
                now,
            ).map_values(|l: ListenerView| (l.ip, l.channel_map)),
    {
        let ghost all = self@;
        let ghost keep = |l: ListenerView| hears(l, source_id, now);
        let ghost fst = |t: (u32, Vec<i16>)| (t.0, t.1@);
        let ghost snd = |l: ListenerView| (l.ip, l.channel_map);
        let mut out: Vec<(u32, Vec<i16>)> = Vec::new();
        let mut i: usize = 0;
        proof {
            lists::lemma_filter_none(all, keep);
            assert(out@.map_values(fst) =~= all.take(0).filter(keep).map_values(snd));
        }
        while i < self.inner.len()
            invariant
                i <= self.inner@.len(),
                self@ == all,
                keep == (|l: ListenerView| hears(l, source_id, now)),
                fst == (|t: (u32, Vec<i16>)| (t.0, t.1@)),
                snd == (|l: ListenerView| (l.ip, l.channel_map)),
                out@.map_values(fst) == all.take(i as int).filter(keep).map_values(snd),
            decreases self.inner@.len() - i,
        {
            let ghost was = out@;
            let ghost before = all.take(i as int).filter(keep);
            proof {
                lists::lemma_filter_step(all, i as int, keep);
                assert(all[i as int] == self.inner@[i as int]@);
            }
            if self.inner[i].source_id == source_id && is_fresh(
                self.inner[i].seen,
                now,
                LISTENER_TTL,
            ) {
                out.push((self.inner[i].ip, copy_map(&self.inner[i].channel_map)));
                proof {
                    assert(out@.map_values(fst) =~= was.map_values(fst).push(snd(all[i as int])));
                    assert(before.push(all[i as int]).map_values(snd) =~= before.map_values(
                        snd,
                    ).push(snd(all[i as int])));
                }
            }
            i = i + 1;
        }
        proof {
            assert(all.take(i as int) =~= all);
        }
        self.prune(source_id, now);
        out
    }

    /// Whether any client is currently listening to this source.
    pub fn has_listener(&mut self, source_id: u64, now: u64) -> (r: bool)
        requires
            old(self).wf(),
        ensures
            final(self).wf(),
            final(self)@ == pruned(old(self)@, source_id, now),
            r == (hearing(old(self)@, source_id, now).len() > 0),
    {
        self.listeners(source_id, now).len() > 0
    }
}

/// A client that has just named a source counts as one of its listeners, with
/// the channel map it named, until it has been silent for [`LISTENER_TTL`].
pub proof fn touched_client_is_heard(
    all: Seq<ListenerView>,
    i: int,
    source_id: u64,
    now: u64,
)
    requires
        0 <= i < all.len(),
        all[i].source_id == source_id,
    ensures
        hearing(all, source_id, now).contains(all[i]) <==> assoc::still_fresh(
            all[i].seen,
            now,
            LISTENER_TTL,
        ),
{
    lemma_in_filter(all, i, |l: ListenerView| hears(l, source_id, now));
}

/// What passes is in the part that is kept, and nothing else.
proof fn lemma_in_filter<T>(all: Seq<T>, i: int, keep: spec_fn(T) -> bool)
    requires
        0 <= i < all.len(),
    ensures
        all.filter(keep).contains(all[i]) <==> keep(all[i]),
    decreases all.len(),
{
    reveal(Seq::filter);
    let init = all.drop_last();
    let sub = init.filter(keep);
    lemma_filter_all(init, keep);
    if i < init.len() {
        lemma_in_filter(init, i, keep);
        assert(init[i] == all[i]);
        if sub.contains(all[i]) {
            let p = sub.index_of(all[i]);
            assert(all.filter(keep)[p] == all[i]);
        }
        if all.filter(keep).contains(all[i]) && !keep(all[i]) {
            let p = all.filter(keep).index_of(all[i]);
            if p < sub.len() {
                assert(sub[p] == all[i]);
            }
        }
    } else {
        if keep(all[i]) {
            assert(all.filter(keep)[sub.len() as int] == all[i]);
        } else if all.filter(keep).contains(all[i]) {
            let p = all.filter(keep).index_of(all[i]);
            assert(sub[p] == all[i]);
            assert(keep(sub[p]));
        }
    }
}

proof fn lemma_filter_all<T>(all: Seq<T>, keep: spec_fn(T) -> bool)
    ensures
        forall|p: int|
            0 <= p < all.filter(keep).len() ==> keep(#[trigger] all.filter(keep)[p])
                && all.contains(all.filter(keep)[p]),
    decreases all.len(),
{
    reveal(Seq::filter);
    if all.len() > 0 {
        lemma_filter_all(all.drop_last(), keep);
        let sub = all.drop_last().filter(keep);
        assert forall|p: int| 0 <= p < all.filter(keep).len() implies keep(
            #[trigger] all.filter(keep)[p],
        ) && all.contains(all.filter(keep)[p]) by {
            if p < sub.len() {
                assert(all.filter(keep)[p] == sub[p]);
                let q = all.drop_last().index_of(sub[p]);
                assert(all[q] == sub[p]);
            } else {
                assert(all[all.len() - 1] == all.filter(keep)[p]);
            }
        }
    }
}

/// A look at one source forgets nothing of another one.
pub proof fn pruning_spares_other_sources(
    all: Seq<ListenerView>,
    i: int,
    source_id: u64,
    now: u64,
)
    requires
        0 <= i < all.len(),
        all[i].source_id != source_id,
    ensures
        pruned(all, source_id, now).contains(all[i]),
{
    lemma_in_filter(
        all,
        i,
        |l: ListenerView| l.source_id != source_id || hears(l, source_id, now),
    );
}

/// Answer a time-sync request that came from `from` (`None` = not an IPv4 peer)
/// with the current server clock, and record the requester as a listener of the
/// source it named.
pub fn respond(
    listeners: &mut Listeners,
    req: &TimeRequest,
    from: Option<u32>,
    now: u64,
    server_ms: u64,
) -> (r: TimeResponse)
    requires
        old(listeners).wf(),
    ensures
        final(listeners).wf(),
        r == (TimeResponse { client_send_ms: req.client_send_ms, server_ms, nonce: req.nonce }),
        from is None || req.selected_source_id == 0 ==> final(listeners)@ == old(listeners)@,
        from is Some && req.selected_source_id != 0 ==> {
            let l = ListenerView {
                source_id: req.selected_source_id,
                ip: from->0,
                seen: now,
                channel_map: req.channel_map@,
            };
            ||| exists|i: int|
                0 <= i < old(listeners)@.len() && is_listener(
                    #[trigger] old(listeners)@[i],
                    req.selected_source_id,
                    from->0,
                ) && final(listeners)@ == old(listeners)@.update(i, l)
            ||| (forall|i: int|
                0 <= i < old(listeners)@.len() ==> !is_listener(
                    #[trigger] old(listeners)@[i],
                    req.selected_source_id,
                    from->0,
                )) && final(listeners)@ == old(listeners)@.push(l)
        },
{
    if let Some(ip) = from {
        listeners.touch(req.selected_source_id, ip, copy_map(&req.channel_map), now);
    }
    TimeResponse { client_send_ms: req.client_send_ms, server_ms, nonce: req.nonce }
}

/// The window holds the latest measurements, the newest last, up to sixty-four of
/// them.
pub proof fn window_keeps_the_latest(samples: Seq<Sample>, s: Sample)
    requires
        samples.len() <= 64,
    ensures
        ({
            let w = window_with(samples, s);
            &&& w.len() <= 64
            &&& w.len() == samples.len() + 1 || (samples.len() == 64 && w.len() == 64)
            &&& w.last() == s
            &&& forall|k: int|
                1 <= k < w.len() ==> #[trigger] w[w.len() - 1 - k] == samples[samples.len() - k]
        }),
{
}

/// The offset that a clock aims at is that of a measurement with no longer a round
/// trip than any other in the window; the clock counts as settled from the eighth
/// measurement on.
pub proof fn target_has_the_shortest_round_trip(clock: SyncedClock) -> (i: int)
    requires
        clock.wf(),
        clock.samples@.len() > 0,
    ensures
        0 <= i < clock.samples@.len(),
        clock.target_offset == clock.samples@[i].offset_ms,
        forall|j: int|
            0 <= j < clock.samples@.len() ==> clock.samples@[i].rtt_ms.flicks <= (
            #[trigger] clock.samples@[j]).rtt_ms.flicks,
        forall|j: int|
            0 <= j < i ==> (#[trigger] clock.samples@[j]).rtt_ms.flicks
                != clock.samples@[i].rtt_ms.flicks,
        clock.initialized <==> clock.samples@.len() >= 8,
        clock.samples@.len() <= 64,
{
    choose|i: int| #[trigger]
        is_best(clock.samples@, i) && clock.target_offset == clock.samples@[i].offset_ms
}

/// An offset that is far off moves toward the target by exactly half a percent of the
/// time that passes.
pub proof fn far_offsets_move_at_half_a_percent(applied: int, target: int, elapsed: int)
    requires
        elapsed >= 0,
    ensures
        200 * (target - applied) >= 705_600 * elapsed ==> 200 * (slewed(applied, target, elapsed)
            - applied) == 705_600 * elapsed,
        200 * (applied - target) >= 705_600 * elapsed ==> 200 * (applied - slewed(
            applied,
            target,
            elapsed,
        )) == 705_600 * elapsed,
        -705_600 * elapsed <= 200 * (target - applied) <= 705_600 * elapsed ==> slewed(
            applied,
            target,
            elapsed,
        ) == target,
{
}

/// The offset in effect jumps to the target once, when the warmup ends, and at no
/// other measurement.
pub proof fn offset_jumps_only_after_warmup(before: SyncedClock, after: SyncedClock, now_ms: u64)
    requires
        after.adopts_from(before, now_ms),
    ensures
        before.initialized || !after.initialized ==> after.applied_offset
            == before.applied_offset && after.last_local_ms == before.last_local_ms,
        !before.initialized && after.initialized ==> after.applied_offset == after.target_offset
            && after.last_local_ms == now_ms,
{
}

/// A blank clock knows of no measurement and applies none.
pub proof fn blank_clocks_know_nothing(clock: SyncedClock)
    requires
        clock.blank(),
    ensures
        clock.samples@.len() == 0,
        clock.applied_offset.flicks == 0,
        clock.target_offset.flicks == 0,
        !clock.initialized,
{
}

/// A command sets what it names and leaves alone what it does not: the source and the
/// channel map as named, the delay up to the lead, the volume to the nearest one that
/// there is (unless it is that one already, but for rounding).
pub proof fn commands_set_what_they_name(s: SettingsView, cmd: CommandView)
    ensures
        ({
            let t = s.after(cmd);
            &&& t.selected == if cmd.source_id is Some {
                cmd.source_id->0
            } else {
                s.selected
            }
            &&& t.channel_map == if cmd.channel_map is Some {
                cmd.channel_map->0
            } else {
                s.channel_map
            }
            &&& t.lead_ms == s.lead_ms
            &&& match cmd.delay_ms {
                None => t.delay_ms == s.delay_ms,
                Some(d) => t.delay_ms <= d && t.delay_ms <= s.lead_ms && (t.delay_ms == d
                    || t.delay_ms == s.lead_ms),
            }
            &&& match cmd.volume {
                None => t.volume == s.volume && t.volume_dirty == s.volume_dirty,
                Some(v) => {
                    &&& !t.volume.spec_differs(v.spec_clamped())
                    &&& t.volume == v.spec_clamped() || t.volume == s.volume
                    &&& t.volume != s.volume ==> t.volume_dirty
                    &&& t.volume == s.volume && v.spec_clamped() != s.volume ==> t.volume_dirty
                        == s.volume_dirty
                },
            }
        }),
{
}

/// A new lead caps the delay: one that exceeds it is brought down to it, and any other
/// stays. Nothing else changes.
pub proof fn leads_cap_the_delay(s: SettingsView, ms: u32)
    ensures
        ({
            let t = s.with_lead(ms);
            &&& t.lead_ms == ms
            &&& t.delay_ms <= ms
            &&& s.delay_ms <= ms ==> t.delay_ms == s.delay_ms
            &&& s.delay_ms > ms ==> t.delay_ms == ms
            &&& t.selected == s.selected
            &&& t.volume == s.volume
            &&& t.volume_dirty == s.volume_dirty
            &&& t.epoch == s.epoch
            &&& t.channel_map == s.channel_map
        }),
{
}

/// Each epoch is the one after the last, and no two in a row are the same.
pub proof fn epochs_count_up(epoch: u64)
    ensures
        next_epoch(epoch) != epoch,
        epoch < u64::MAX ==> next_epoch(epoch) == epoch + 1,
        epoch == u64::MAX ==> next_epoch(epoch) == 0,
{
}

/// A measurement whose way there took as long as the way back finds how far the
/// server's clock is ahead, exactly.
pub proof fn even_paths_measure_exactly(
    t1: u64,
    t4: u64,
    server_ms: u64,
    ahead: int,
    way: int,
)
    requires
        way >= 0,
        server_ms == t1 + way + ahead,
        t4 == t1 + way + way,
    ensures
        doubled_offset(t1, t4, server_ms) == 2 * (705_600 * ahead),
{
}

/// The listeners of a source are those recorded of it that were heard of within the
/// last three seconds, no others, and each client once.
pub proof fn listeners_were_heard_lately(
    all: Seq<ListenerView>,
    source_id: u64,
    now: u64,
    i: int,
    j: int,
)
    requires
        one_record_each(all),
        0 <= i < hearing(all, source_id, now).len(),
        0 <= j < hearing(all, source_id, now).len(),
    ensures
        all.contains(hearing(all, source_id, now)[i]),
        hearing(all, source_id, now)[i].source_id == source_id,
        now - hearing(all, source_id, now)[i].seen < 3_000_000_000,
        i != j ==> hearing(all, source_id, now)[i].ip != hearing(all, source_id, now)[j].ip,
{
    let keep = |l: ListenerView| hears(l, source_id, now);
    lemma_filter_distinct(all, all.len() as int, keep);
    assert(all.take(all.len() as int) =~= all);
    assert(hearing(all, source_id, now) == all.filter(keep));
    let a = all.filter(keep)[i];
    let b = all.filter(keep)[j];
    assert(keep(a) && keep(b) && all.contains(a));
}

/// Every client that named the source within the last three seconds is among its
/// listeners.
pub proof fn recent_listeners_are_heard(
    all: Seq<ListenerView>,
    i: int,
    source_id: u64,
    now: u64,
)
    requires
        0 <= i < all.len(),
        all[i].source_id == source_id,
        now - all[i].seen < 3_000_000_000,
    ensures
        hearing(all, source_id, now).contains(all[i]),
        pruned(all, source_id, now).contains(all[i]),
{
    touched_client_is_heard(all, i, source_id, now);
    lemma_in_filter(
        all,
        i,
        |l: ListenerView| l.source_id != source_id || hears(l, source_id, now),
    );
}

/// A look at a source leaves no record of it that is three seconds old, and adds none.
pub proof fn silent_listeners_are_forgotten(
    all: Seq<ListenerView>,
    source_id: u64,
    now: u64,
    i: int,
)
    requires
        0 <= i < pruned(all, source_id, now).len(),
    ensures
        all.contains(pruned(all, source_id, now)[i]),
        pruned(all, source_id, now)[i].source_id == source_id ==> now - pruned(
            all,
            source_id,
            now,
        )[i].seen < 3_000_000_000,
{
    let keep = |l: ListenerView| l.source_id != source_id || hears(l, source_id, now);
    lemma_filter_all(all, keep);
    assert(pruned(all, source_id, now) == all.filter(keep));
    let l = all.filter(keep)[i];
    assert(keep(l));
}

/// A record is a client's on a source exactly if both are the ones that it names; one
/// of another client or of another source is not.
pub proof fn records_name_client_and_source(l: ListenerView, source_id: u64, ip: u32)
    ensures
        l.source_id != source_id ==> !is_listener(l, source_id, ip),
        l.ip != ip ==> !is_listener(l, source_id, ip),
        is_listener(l, l.source_id, l.ip),
{
}

} // verus!
