//! Automatic recording of calls: a monitor polls, every few seconds,
//! whether a watched application has an active audio session, and starts
//! or stops the recording. Polling, recording and notifying belong to the
//! application; each poll's decision is here.
//!
//! So as not to record short notification sounds (a messenger's "ding" of
//! about two seconds): a recording starts only when the call has lasted
//! without a break for the start delay (several polls in a row), and on an
//! automatic stop a recording shorter than the least length kept is
//! discarded. The monitor only stops what it started itself.
use vstd::prelude::*;

verus! {

/// Time between two polls, in milliseconds.
pub const AUTORECORD_POLL_MS: u64 = 2500;

/// What the monitor remembers between polls.
#[derive(Debug, Clone, Copy, PartialEq, Eq, Default)]
pub struct MonitorState {
    /// The current recording was started by the monitor.
    pub auto_active: bool,
    /// How many polls in a row saw an active call.
    pub active_streak: u32,
}

/// What a poll decides.
#[derive(Debug, Clone, Copy, PartialEq, Eq)]
pub enum MonitorAction {
    Nothing,
    /// Start recording.
    Start,
    /// Stop the recording the monitor started (and discard it if short).
    Stop,
}

/// Polls in a row needed before a start: the start delay rounded up to
/// whole polls, at least one.
pub open spec fn required_polls_spec(start_delay_secs: u32) -> int {
    let n = (start_delay_secs * 1000 + AUTORECORD_POLL_MS - 1) / (AUTORECORD_POLL_MS as int);
    if n < 1 {
        1
    } else {
        n
    }
}

/// Polls in a row needed before a start.
pub fn required_polls(start_delay_secs: u32) -> (r: u32)
    ensures
        r == required_polls_spec(start_delay_secs),
{
    let n: u64 = ((start_delay_secs as u64) * 1000 + AUTORECORD_POLL_MS - 1) / AUTORECORD_POLL_MS;
    if n < 1 {
        1
    } else {
        n as u32
    }
}

/// One poll of the monitor. `watching`: automatic recording is on and some
/// application is watched; `recording`: a recording runs now; `call`: a
/// watched application has an active audio session (asked only when
/// watching).
pub fn monitor_step(
    st: MonitorState,
    watching: bool,
    recording: bool,
    call: bool,
    start_delay_secs: u32,
    auto_stop: bool,
) -> (r: (MonitorState, MonitorAction))
    ensures
        !watching ==> r == (MonitorState { auto_active: false, active_streak: 0 }, MonitorAction::Nothing),
        watching ==> ({
            let auto = recording && st.auto_active;
            let streak = if call {
                if st.active_streak < u32::MAX {
                    (st.active_streak + 1) as u32
                } else {
                    u32::MAX
                }
            } else {
                0u32
            };
            if call && !recording && streak >= required_polls_spec(start_delay_secs) {
                r == (MonitorState { auto_active: true, active_streak: streak }, MonitorAction::Start)
            } else if !call && recording && auto && auto_stop {
                r == (MonitorState { auto_active: false, active_streak: 0 }, MonitorAction::Stop)
            } else {
                r == (MonitorState { auto_active: auto, active_streak: streak }, MonitorAction::Nothing)
            }
        }),
        // The monitor stops only a recording that it started itself.
        r.1 == MonitorAction::Stop ==> st.auto_active && recording && auto_stop,
        // It starts only after enough polls in a row saw the call.
        r.1 == MonitorAction::Start ==> call && !recording && r.0.active_streak
            >= required_polls_spec(start_delay_secs),
{
    if !watching {
        return (MonitorState { auto_active: false, active_streak: 0 }, MonitorAction::Nothing);
    }
    let auto = recording && st.auto_active;
    let streak = if call {
        st.active_streak.saturating_add(1)
    } else {
        0
    };
    let required = required_polls(start_delay_secs);
    if call && !recording && streak >= required {
        (MonitorState { auto_active: true, active_streak: streak }, MonitorAction::Start)
    } else if !call && recording && auto && auto_stop {
        (MonitorState { auto_active: false, active_streak: 0 }, MonitorAction::Stop)
    } else {
        (MonitorState { auto_active: auto, active_streak: streak }, MonitorAction::Nothing)
    }
}

/// Whether a recording stopped automatically is too short to keep.
pub fn discard_after_auto_stop(min_keep_secs: u32, duration_secs: u64) -> (r: bool)
    ensures
        r == (min_keep_secs > 0 && duration_secs < min_keep_secs),
{
    min_keep_secs > 0 && duration_secs < min_keep_secs as u64
}

} // verus!
