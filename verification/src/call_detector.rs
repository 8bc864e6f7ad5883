//! Detecting a call in progress from the audio sessions of applications.
//! The application lists the processes that have an active audio session
//! (on Windows); the decision is here.
use vstd::prelude::*;

use crate::text::{lowercase, str_eq, to_lowercase};

verus! {

/// Whether some active session belongs to one of the watched processes,
/// names compared in lowercase.
pub open spec fn call_active(processes: Seq<Seq<char>>, active: Seq<Seq<char>>) -> bool {
    processes.len() > 0 && exists|i: int, j: int|
        0 <= i < processes.len() && 0 <= j < active.len() && #[trigger] lowercase(processes[i])
            == #[trigger] lowercase(active[j])
}

/// `true` when one of `processes` (`.exe` names, case-insensitive) has an
/// active audio session; `active` are the process names of the active
/// sessions.
pub fn any_active_call(processes: &[String], active: &[String]) -> (r: bool)
    ensures
        r == call_active(
            processes@.map_values(|s: String| s@),
            active@.map_values(|s: String| s@),
        ),
{
    let ghost ps = processes@.map_values(|s: String| s@);
    let ghost act = active@.map_values(|s: String| s@);
    if processes.len() == 0 {
        return false;
    }
    let mut i: usize = 0;
    while i < processes.len()
        invariant
            i <= processes@.len(),
            ps == processes@.map_values(|s: String| s@),
            act == active@.map_values(|s: String| s@),
            forall|a: int, b: int|
                0 <= a < i && 0 <= b < act.len() ==> #[trigger] lowercase(ps[a]) != #[trigger] lowercase(act[b]),
        decreases processes@.len() - i,
    {
        let want = to_lowercase(processes[i].as_str());
        let mut j: usize = 0;
        while j < active.len()
            invariant
                i < processes@.len(),
                j <= active@.len(),
                ps == processes@.map_values(|s: String| s@),
                act == active@.map_values(|s: String| s@),
                want@ == lowercase(ps[i as int]),
                forall|b: int| 0 <= b < j ==> want@ != #[trigger] lowercase(act[b]),
            decreases active@.len() - j,
        {
            let name = to_lowercase(active[j].as_str());
            if str_eq(want.as_str(), name.as_str()) {
                proof {
                    assert(lowercase(ps[i as int]) == lowercase(act[j as int]));
                }
                return true;
            }
            j = j + 1;
        }
        i = i + 1;
    }
    false
}

} // verus!
