//! The state of a recorder of two tracks. Capturing sound belongs to the
//! application; what a recorder may do next is decided here.
use vstd::prelude::*;

use crate::error::{AppError, AppResult};
use crate::text::string_of;

verus! {

/// The result of stopping a recording.
#[derive(Debug, Clone, PartialEq)]
pub struct RecordingResult {
    pub duration_secs: u64,
}

/// The current level (peak) of each track, scaled to 0..1000, for the live
/// meters; read and reset on each poll.
#[derive(Debug, Clone, Copy, PartialEq, Eq, Default)]
pub struct TrackLevels {
    pub mic: u32,
    pub system: u32,
}

impl TrackLevels {
    /// Levels from the raw 16-bit peaks of the tracks: 0..32767 → 0..1000.
    pub fn from_peaks(mic_raw: u32, sys_raw: u32) -> (r: TrackLevels)
        requires
            mic_raw * 1000 <= u32::MAX,
            sys_raw * 1000 <= u32::MAX,
        ensures
            r.mic == mic_raw * 1000 / 32767,
            r.system == sys_raw * 1000 / 32767,
    {
        TrackLevels { mic: mic_raw * 1000 / 32767, system: sys_raw * 1000 / 32767 }
    }
}

/// A recorder that writes silence of a fixed length instead of real
/// sound: its state is the pair of track files being recorded.
pub struct MockRecorder {
    fixed_secs: u64,
    state: Option<(String, String)>,
}

impl MockRecorder {
    /// Length of the silence it writes, in seconds.
    pub closed spec fn fixed_secs_spec(&self) -> u64 {
        self.fixed_secs
    }

    /// The track files being recorded, if it records.
    pub closed spec fn recording(&self) -> Option<(Seq<char>, Seq<char>)> {
        match self.state {
            Some(p) => Some((p.0@, p.1@)),
            None => None,
        }
    }

    /// An idle recorder that writes `fixed_secs` seconds of silence.
    pub fn new(fixed_secs: u64) -> (r: Self)
        ensures
            r.fixed_secs_spec() == fixed_secs,
            r.recording() is None,
    {
        MockRecorder { fixed_secs, state: None }
    }

    /// Length of the silence it writes, in seconds.
    pub fn fixed_secs(&self) -> (r: u64)
        ensures
            r == self.fixed_secs_spec(),
    {
        self.fixed_secs
    }

    /// Starts recording into `mic_path` and `system_path`; a second start
    /// is an error.
    pub fn start(&mut self, mic_path: &str, system_path: &str) -> (r: AppResult<()>)
        ensures
            final(self).fixed_secs_spec() == old(self).fixed_secs_spec(),
            old(self).recording() is Some ==> (r matches Err(AppError::InvalidState(m)) && m@
                == "already recording"@ && final(self).recording() == old(self).recording()),
            old(self).recording() is None ==> r is Ok && final(self).recording() == Some(
                (mic_path@, system_path@),
            ),
    {
        if self.state.is_some() {
            return Err(AppError::InvalidState(string_of("already recording")));
        }
        self.state = Some((string_of(mic_path), string_of(system_path)));
        Ok(())
    }

    /// Stops recording and hands back the two files, into which the
    /// caller writes the silence; stopping an idle recorder is an error.
    pub fn stop(&mut self) -> (r: AppResult<(String, String)>)
        ensures
            final(self).fixed_secs_spec() == old(self).fixed_secs_spec(),
            final(self).recording() is None,
            match old(self).recording() {
                Some(p) => r matches Ok(q) && q.0@ == p.0 && q.1@ == p.1,
                None => r matches Err(AppError::InvalidState(m)) && m@ == "not recording"@,
            },
    {
        match self.state.take() {
            Some(p) => Ok(p),
            None => Err(AppError::InvalidState(string_of("not recording"))),
        }
    }

    /// Whether it records.
    pub fn is_recording(&self) -> (r: bool)
        ensures
            r == self.recording() is Some,
    {
        self.state.is_some()
    }

    /// The levels for the meters: zero on both tracks while idle; while
    /// recording, what `live` measures (it is asked only then).
    pub fn levels<F>(&self, live: F) -> (r: TrackLevels) where F: Fn() -> TrackLevels
        requires
            self.recording() is Some ==> live.requires(()),
        ensures
            self.recording() is None ==> r == (TrackLevels { mic: 0, system: 0 }),
            self.recording() is Some ==> live.ensures((), r),
    {
        if self.state.is_none() {
            return TrackLevels { mic: 0, system: 0 };
        }
        live()
    }
}

} // verus!
