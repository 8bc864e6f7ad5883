//! The stored meeting record and the recording tracks.
use vstd::prelude::*;

use crate::text::string_of;

verus! {

/// A recording track: the microphone ("me") or the system sound (the
/// other side).
#[derive(Debug, Clone, Copy, PartialEq, Eq)]
pub enum RecordingTrack {
    Mic,
    System,
}

/// One recorded meeting.
#[derive(Debug, Clone, PartialEq)]
pub struct Meeting {
    pub id: String,
    /// ISO-8601, UTC.
    pub created_at: String,
    pub title: String,
    pub participants: String,
    pub topic: String,
    pub duration_secs: u64,
    /// Name of the meeting's folder inside the data directory.
    pub folder: String,
    /// recorded | transcribed | summarized.
    pub status: String,
    /// Where the meeting came from: "recorded" (two tracks recorded by the
    /// application) or "imported" (one imported track `audio.wav`).
    pub source: String,
}

/// The source of a meeting stored before the field existed.
pub fn default_source() -> (r: String)
    ensures
        r@ == "recorded"@,
{
    string_of("recorded")
}

} // verus!
