//! The decisions of the capture loop of one recorded track: padding with
//! silence to the wall clock so that both tracks keep the same length,
//! and, for the system sound, reopening a stream that failed or stalled,
//! giving up after a few failed reopens. Reading the device, writing the
//! samples and sleeping belong to the application, which reports each tick
//! as an event and carries out the action it gets back.
use vstd::prelude::*;

verus! {

/// The sample rate of the tracks, in samples per second.
pub const CAPTURE_RATE: u64 = 16000;

/// How far (in samples, a tenth of a second) the track may fall behind
/// the wall clock before it is padded with silence.
pub const PAD_SLACK: u64 = 1600;

/// After this long without data (ms) the system-sound stream counts as
/// stalled and is reopened.
pub const STALL_MS: u64 = 2000;

/// Failed reopens in a row after which the loop gives up and records
/// silence to the end.
pub const MAX_REOPEN_FAILS: u32 = 5;

/// The pause after a failed reopen, in ms.
pub const REOPEN_BACKOFF_MS: u64 = 200;

/// What a capture loop records: the microphone (its errors are fatal) or
/// the system sound through loopback (its errors lead to a reopen).
#[derive(Debug, Clone, Copy, PartialEq, Eq, Structural)]
pub enum CaptureSource {
    Mic,
    Loopback,
}

/// The state of a capture loop.
#[derive(Debug, Clone, Copy, PartialEq, Eq)]
pub struct CaptureState {
    /// Samples written so far, silence included.
    pub written: u64,
    /// When data last came (or the last reopen ended), ms since the start.
    pub last_data_ms: u64,
    /// Failed reopens in a row.
    pub reopen_fails: u32,
    /// No more reopens: silence to the end.
    pub gave_up: bool,
}

/// What the application reports to the loop.
#[derive(Debug, Clone, Copy, PartialEq, Eq)]
pub enum CaptureEvent {
    /// One turn of the loop: whether reading the device worked, how many
    /// samples it gave (already written), how many samples the wall clock
    /// asks for by now, and the time in ms since the start.
    Tick { read_ok: bool, produced: u64, expected: u64, now_ms: u64 },
    /// The outcome of a reopen that the loop asked for, and the time.
    Reopened { ok: bool, now_ms: u64 },
}

/// What the application does next.
#[derive(Debug, Clone, Copy, PartialEq, Eq)]
pub enum CaptureAction {
    /// Stop with an error (a microphone read failed).
    Fail,
    /// Write `pad` samples of silence and go on.
    Continue { pad: u64 },
    /// Write `pad` samples of silence, then reopen the stream and report
    /// the outcome.
    Reopen { pad: u64 },
    /// Wait `ms` milliseconds (after a failed reopen), then go on.
    Backoff { ms: u64 },
}

/// A state that a loop can be in: it gave up exactly when the failed
/// reopens reached the limit, and they never go past it.
pub open spec fn capture_valid(st: CaptureState) -> bool {
    &&& st.reopen_fails <= MAX_REOPEN_FAILS
    &&& st.gave_up <==> st.reopen_fails >= MAX_REOPEN_FAILS
}

/// The silence that brings `written` samples up to the wall clock's
/// `expected`, when they lag by more than the slack.
pub open spec fn pad_for(written: int, expected: int) -> int {
    if expected > written + PAD_SLACK {
        expected - written
    } else {
        0
    }
}

/// The expected sample count that an event reports (zero for a reopen).
pub open spec fn expected_of(ev: CaptureEvent) -> u64 {
    match ev {
        CaptureEvent::Tick { expected, .. } => expected,
        CaptureEvent::Reopened { .. } => 0,
    }
}

/// One step of the capture loop.
///
/// A tick: a failed microphone read ends the loop; otherwise the samples
/// read are counted, the clock of the last data moves when any came, and
/// silence pads the track when it lags the wall clock by more than a
/// tenth of a second. The system-sound stream is reopened after a read
/// error or after more than `STALL_MS` without data, unless the loop gave
/// up.
///
/// A reopen's outcome: success clears the failure count; a failure counts,
/// gives up at the limit and backs off; either way the stall clock starts
/// again (at the end of the back-off).
pub open spec fn capture_step_spec(src: CaptureSource, st: CaptureState, ev: CaptureEvent) -> (
    CaptureState,
    CaptureAction,
) {
    match ev {
        CaptureEvent::Tick { read_ok, produced, expected, now_ms } => {
            if !read_ok && src == CaptureSource::Mic {
                (st, CaptureAction::Fail)
            } else {
                let w1 = st.written + produced;
                let last = if produced > 0 {
                    now_ms
                } else {
                    st.last_data_ms
                };
                let pad = pad_for(w1, expected as int);
                let read_reopen = !read_ok && !st.gave_up;
                let stalled = src == CaptureSource::Loopback && !st.gave_up && now_ms > last
                    && now_ms - last > STALL_MS;
                let next = CaptureState { written: (w1 + pad) as u64, last_data_ms: last, ..st };
                if read_reopen || stalled {
                    (next, CaptureAction::Reopen { pad: pad as u64 })
                } else {
                    (next, CaptureAction::Continue { pad: pad as u64 })
                }
            }
        },
        CaptureEvent::Reopened { ok, now_ms } => {
            if st.gave_up {
                (st, CaptureAction::Continue { pad: 0 })
            } else if ok {
                (
                    CaptureState { reopen_fails: 0, last_data_ms: now_ms, ..st },
                    CaptureAction::Continue { pad: 0 },
                )
            } else {
                let fails = (st.reopen_fails + 1) as u32;
                (
                    CaptureState {
                        reopen_fails: fails,
                        gave_up: fails >= MAX_REOPEN_FAILS,
                        last_data_ms: (now_ms + REOPEN_BACKOFF_MS) as u64,
                        ..st
                    },
                    CaptureAction::Backoff { ms: REOPEN_BACKOFF_MS },
                )
            }
        },
    }
}

/// Failed reopens are counted in a row: a successful reopen clears the
/// count (and the loop goes on), a failed one adds exactly one and gives
/// up when the count reaches the limit; a tick never touches the count.
pub proof fn lemma_reopen_failures_in_a_row(src: CaptureSource, st: CaptureState, now_ms: u64, ev: CaptureEvent)
    requires
        capture_valid(st),
        !st.gave_up,
    ensures
        capture_step_spec(src, st, CaptureEvent::Reopened { ok: true, now_ms }).0.reopen_fails == 0,
        !capture_step_spec(src, st, CaptureEvent::Reopened { ok: true, now_ms }).0.gave_up,
        capture_step_spec(src, st, CaptureEvent::Reopened { ok: true, now_ms }).1 == (CaptureAction::Continue { pad: 0 }),
        capture_step_spec(src, st, CaptureEvent::Reopened { ok: false, now_ms }).0.reopen_fails == st.reopen_fails + 1,
        capture_step_spec(src, st, CaptureEvent::Reopened { ok: false, now_ms }).0.gave_up <==> st.reopen_fails + 1
            >= MAX_REOPEN_FAILS,
        ev is Tick ==> capture_step_spec(src, st, ev).0.reopen_fails == st.reopen_fails
            && capture_step_spec(src, st, ev).0.gave_up == st.gave_up,
{
}

/// Silence is written only when the track lags the wall clock by more
/// than the slack, and then exactly up to the wall clock; the samples read
/// always count. A microphone read error writes nothing.
pub proof fn lemma_pad_to_wall_clock(src: CaptureSource, st: CaptureState, read_ok: bool, produced: u64, expected: u64, now_ms: u64)
    requires
        read_ok || src == CaptureSource::Loopback,
        st.written + produced <= u64::MAX,
    ensures
        ({
            let (next, act) = capture_step_spec(
                src,
                st,
                CaptureEvent::Tick { read_ok, produced, expected, now_ms },
            );
            let w = st.written + produced;
            &&& expected <= w + PAD_SLACK ==> next.written == w && (act matches CaptureAction::Continue { pad } ==> pad == 0) && (act matches CaptureAction::Reopen { pad } ==> pad == 0)
            &&& expected > w + PAD_SLACK ==> next.written == expected && (act matches CaptureAction::Continue { pad } ==> pad == expected - w) && (act matches CaptureAction::Reopen { pad } ==> pad == expected - w)
            &&& !(act is Fail) && !(act is Backoff)
        }),
        capture_step_spec(CaptureSource::Mic, st, CaptureEvent::Tick { read_ok: false, produced, expected, now_ms }) == (st, CaptureAction::Fail),
{
}

/// The stream of the system sound is reopened after a failed read or
/// after more than `STALL_MS` without data, while the loop has not given
/// up; the microphone stream is never reopened.
pub proof fn lemma_reopen_when_failed_or_stalled(
    st: CaptureState,
    produced: u64,
    expected: u64,
    now_ms: u64,
)
    requires
        !st.gave_up,
    ensures
        capture_step_spec(CaptureSource::Loopback, st, CaptureEvent::Tick { read_ok: false, produced, expected, now_ms }).1 is Reopen,
        produced == 0 && now_ms > st.last_data_ms + STALL_MS ==> capture_step_spec(
            CaptureSource::Loopback,
            st,
            CaptureEvent::Tick { read_ok: true, produced, expected, now_ms },
        ).1 is Reopen,
        produced > 0 ==> !(capture_step_spec(
            CaptureSource::Loopback,
            st,
            CaptureEvent::Tick { read_ok: true, produced, expected, now_ms },
        ).1 is Reopen),
        !(capture_step_spec(CaptureSource::Mic, st, CaptureEvent::Tick { read_ok: true, produced, expected, now_ms }).1 is Reopen),
{
}

impl CaptureState {
    /// The state at the start of a loop: nothing written, data "just came".
    pub fn new() -> (r: CaptureState)
        ensures
            r == (CaptureState { written: 0, last_data_ms: 0, reopen_fails: 0, gave_up: false }),
            capture_valid(r),
    {
        CaptureState { written: 0, last_data_ms: 0, reopen_fails: 0, gave_up: false }
    }
}

/// One step of the capture loop of `src` in state `st` on event `ev`.
pub fn capture_step(src: CaptureSource, st: CaptureState, ev: CaptureEvent) -> (r: (
    CaptureState,
    CaptureAction,
))
    requires
        capture_valid(st),
        ev matches CaptureEvent::Tick { produced, expected, .. } ==> st.written + produced
            <= u64::MAX && expected <= u64::MAX - PAD_SLACK,
        ev matches CaptureEvent::Reopened { now_ms, .. } ==> now_ms <= u64::MAX - REOPEN_BACKOFF_MS,
    ensures
        r == capture_step_spec(src, st, ev),
        capture_valid(r.0),
        r.0.written >= st.written,
        !(r.1 is Fail) ==> r.0.written + PAD_SLACK >= expected_of(ev),
        st.gave_up ==> r.0.gave_up && !(r.1 is Reopen),
        src == CaptureSource::Mic ==> !(r.1 is Reopen),
        r.1 is Fail <==> (ev matches CaptureEvent::Tick { read_ok, .. } && !read_ok && src
            == CaptureSource::Mic),
{
    match ev {
        CaptureEvent::Tick { read_ok, produced, expected, now_ms } => {
            if !read_ok && src == CaptureSource::Mic {
                return (st, CaptureAction::Fail);
            }
            let w1 = st.written + produced;
            let last = if produced > 0 {
                now_ms
            } else {
                st.last_data_ms
            };
            let pad = if expected > w1 && expected - w1 > PAD_SLACK {
                expected - w1
            } else {
                0
            };
            let read_reopen = !read_ok && !st.gave_up;
            let stalled = src == CaptureSource::Loopback && !st.gave_up && now_ms > last && now_ms
                - last > STALL_MS;
            let next = CaptureState {
                written: w1 + pad,
                last_data_ms: last,
                reopen_fails: st.reopen_fails,
                gave_up: st.gave_up,
            };
            if read_reopen || stalled {
                (next, CaptureAction::Reopen { pad })
            } else {
                (next, CaptureAction::Continue { pad })
            }
        },
        CaptureEvent::Reopened { ok, now_ms } => {
            if st.gave_up {
                (st, CaptureAction::Continue { pad: 0 })
            } else if ok {
                (
                    CaptureState {
                        written: st.written,
                        last_data_ms: now_ms,
                        reopen_fails: 0,
                        gave_up: false,
                    },
                    CaptureAction::Continue { pad: 0 },
                )
            } else {
                let fails = st.reopen_fails + 1;
                (
                    CaptureState {
                        written: st.written,
                        last_data_ms: now_ms + REOPEN_BACKOFF_MS,
                        reopen_fails: fails,
                        gave_up: fails >= MAX_REOPEN_FAILS,
                    },
                    CaptureAction::Backoff { ms: REOPEN_BACKOFF_MS },
                )
            }
        },
    }
}

/// The silence written when the loop stops, so that the track reaches the
/// full wall-clock length `expected`.
pub fn final_pad(written: u64, expected: u64) -> (r: u64)
    ensures
        r == if expected > written {
            expected - written
        } else {
            0
        },
        written + r >= expected,
{
    if expected > written {
        expected - written
    } else {
        0
    }
}

} // verus!
