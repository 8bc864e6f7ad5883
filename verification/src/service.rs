//! The meeting folder and the recording session: which ids are safe, where
//! a meeting's files lie, how a recording in segments is paused, resumed
//! and assembled, how orphaned segments are found again, and what the audio
//! editor may touch. Files, the recorder and the database belong to the
//! application; the rules on them are here.
//!
//! A recording is written in SEGMENTS: each continuous piece goes into
//! `mic.part{N}.wav` / `system.part{N}.wav`. A pause finalizes the current
//! segment, resuming opens the next. On stop all segments are joined into
//! one `mic.wav` / `system.wav`. Orphaned parts after a crash are joined on
//! the next start.
use vstd::prelude::*;

use crate::error::{AppError, AppResult};
use crate::model::Meeting;
use crate::text::{
    chars_of, concat, contains, contains_seq, decimal, ends_with, has_at, join_path,
    lemma_parse_decimal, parse_usize, parse_usize_range, path_join, push_decimal, push_str,
    starts_with, str_eq, string_of, views, lemma_views_push,
};

verus! {

/// A meeting id that stays inside the meetings directory: not empty, no
/// `/`, no `\`, no `..`.
pub open spec fn valid_id(id: Seq<char>) -> bool {
    &&& id.len() > 0
    &&& !id.contains('/')
    &&& !id.contains('\\')
    &&& !contains_seq(id, ".."@)
}

/// Rejects an id that could escape the meetings directory (path traversal).
pub fn validate_id(id: &str) -> (r: AppResult<()>)
    ensures
        valid_id(id@) ==> r is Ok,
        !valid_id(id@) ==> (r matches Err(AppError::InvalidInput(m)) && m@
            == "invalid meeting id: "@ + id@),
{
    let v = chars_of(id);
    let mut bad = v.len() == 0;
    let mut i: usize = 0;
    while i < v.len()
        invariant
            i <= v@.len(),
            v@ == id@,
            bad == (v@.len() == 0 || exists|k: int| 0 <= k < i && (v@[k] == '/' || v@[k] == '\\')),
        decreases v@.len() - i,
    {
        if v[i] == '/' || v[i] == '\\' {
            bad = true;
        }
        i = i + 1;
    }
    let dots = chars_of("..");
    if bad || contains(&v, &dots) {
        proof {
            if v@.len() > 0 && !contains_seq(v@, dots@) {
                let k = choose|k: int| 0 <= k < v@.len() && (v@[k] == '/' || v@[k] == '\\');
                assert(v@[k] == '/' ==> id@.contains('/'));
                assert(v@[k] == '\\' ==> id@.contains('\\'));
            }
        }
        return Err(AppError::InvalidInput(concat("invalid meeting id: ", id)));
    }
    proof {
        assert(!id@.contains('/'));
        assert(!id@.contains('\\'));
    }
    Ok(())
}

/// The folder of meeting `id`: `<data_root>/meetings/<id>`.
pub open spec fn meeting_dir_spec(data_root: Seq<char>, id: Seq<char>) -> Seq<char> {
    join_path(join_path(data_root, "meetings"@), id)
}

/// The folder of meeting `id`.
pub fn meeting_dir(data_root: &str, id: &str) -> (r: String)
    ensures
        r@ == meeting_dir_spec(data_root@, id@),
{
    let m = path_join(data_root, "meetings");
    path_join(m.as_str(), id)
}

/// The file `name` of meeting `id`, when the id is safe.
pub fn meeting_file(data_root: &str, id: &str, name: &str) -> (r: AppResult<String>)
    ensures
        valid_id(id@) ==> (r matches Ok(p) && p@ == join_path(meeting_dir_spec(data_root@, id@), name@)),
        !valid_id(id@) ==> (r matches Err(AppError::InvalidInput(m)) && m@
            == "invalid meeting id: "@ + id@),
{
    match validate_id(id) {
        Ok(()) => {
            let d = meeting_dir(data_root, id);
            Ok(path_join(d.as_str(), name))
        },
        Err(e) => Err(e),
    }
}

/// The file name of segment `idx` of `track`: `<track>.part<idx>.wav`.
pub open spec fn part_name(track: Seq<char>, idx: nat) -> Seq<char> {
    track + ".part"@ + decimal(idx) + ".wav"@
}

/// The file name of segment `idx` of `track`.
pub fn part_file_name(track: &str, idx: usize) -> (r: String)
    ensures
        r@ == part_name(track@, idx as nat),
{
    let mut r = string_of(track);
    push_str(&mut r, ".part");
    push_decimal(&mut r, idx);
    push_str(&mut r, ".wav");
    proof {
        assert(r@ =~= part_name(track@, idx as nat));
    }
    r
}

/// The files of segment `idx` in the folder `dir`: microphone, system.
pub fn segment_paths(dir: &str, idx: usize) -> (r: (String, String))
    ensures
        r.0@ == join_path(dir@, part_name("mic"@, idx as nat)),
        r.1@ == join_path(dir@, part_name("system"@, idx as nat)),
{
    let m = part_file_name("mic", idx);
    let s = part_file_name("system", idx);
    (path_join(dir, m.as_str()), path_join(dir, s.as_str()))
}

/// The segment number in a file name: `mic.part3.wav` with `mic` → 3.
pub open spec fn part_index_spec(name: Seq<char>, track: Seq<char>) -> Option<usize> {
    let rest = name.skip(track.len() + 5int);
    if starts_with(name, track) && starts_with(name.skip(track.len() as int), ".part"@) && ends_with(
        rest,
        ".wav"@,
    ) {
        parse_usize(rest.take(rest.len() - 4))
    } else {
        None
    }
}

/// The segment number in a file name: `mic.part3.wav` with `"mic"` →
/// `Some(3)`.
pub fn parse_part_index(name: &str, track: &str) -> (r: Option<usize>)
    ensures
        r == part_index_spec(name@, track@),
{
    let v = chars_of(name);
    let t = chars_of(track);
    let part = chars_of(".part");
    let wav = chars_of(".wav");
    proof {
        reveal_strlit(".part");
        reveal_strlit(".wav");
        assert(v@.skip(0) =~= v@);
    }
    if !has_at(&v, 0, &t) {
        return None;
    }
    let tl = t.len();
    let n = v.len();
    proof {
        assert(v@.skip(0) =~= v@);
        assert(tl <= n);
    }
    if !has_at(&v, tl, &part) {
        return None;
    }
    proof {
        assert(part@.len() == 5);
        assert(tl + 5 <= n);
    }
    let start = tl + 5;
    let ghost rest = v@.skip(start as int);
    if n - start < 4 {
        proof {
            assert(rest.len() == n - start);
            assert(!ends_with(rest, ".wav"@));
        }
        return None;
    }
    proof {
        assert(rest.skip(rest.len() - 4) =~= v@.skip(n - 4));
        assert(v@.skip(n - 4).take(4) =~= v@.skip(n - 4));
        assert(wav@.len() == 4);
    }
    if !has_at(&v, n - 4, &wav) {
        return None;
    }
    proof {
        assert(rest.skip(rest.len() - 4) =~= v@.skip(n - 4));
        assert(v@.skip(n - 4).take(4) =~= v@.skip(n - 4));
        assert(rest.take(rest.len() - 4) =~= v@.subrange(start as int, n - 4));
    }
    parse_usize_range(&v, start, n - 4)
}

/// Reading the segment number back from a segment's file name gives the
/// number it was made with.
pub proof fn lemma_part_index_round_trip(track: Seq<char>, idx: usize)
    ensures
        part_index_spec(part_name(track, idx as nat), track) == Some(idx),
{
    reveal_strlit(".part");
    reveal_strlit(".wav");
    let name = part_name(track, idx as nat);
    let d = decimal(idx as nat);
    assert(name.take(track.len() as int) =~= track);
    assert(name.skip(track.len() as int).take(5) =~= ".part"@);
    let rest = name.skip(track.len() + 5int);
    assert(rest =~= d + ".wav"@);
    assert(rest.skip(rest.len() - 4) =~= ".wav"@);
    assert(rest.take(rest.len() - 4) =~= d);
    lemma_parse_decimal(idx);
}

/// An active recording: its id, its folder and its segments.
#[derive(Debug, Clone)]
pub struct ActiveRecording {
    pub id: String,
    pub dir: String,
    /// Finalized segments: `(mic_part, system_part)`.
    pub segments: Vec<(String, String)>,
    /// The segment being written now; `None` while paused.
    pub current: Option<(String, String)>,
}

/// The texts of a pair of strings.
pub open spec fn pair_view(p: (String, String)) -> (Seq<char>, Seq<char>) {
    (p.0@, p.1@)
}

/// The texts of a list of pairs of strings.
pub open spec fn pair_views(v: Seq<(String, String)>) -> Seq<(Seq<char>, Seq<char>)> {
    v.map_values(|p: (String, String)| pair_view(p))
}

/// The pair held by an `Option` known to hold one.
pub open spec fn segment_strings(o: Option<(String, String)>) -> (String, String) {
    o->0
}

/// The segment files of `dir` for segment `idx`.
pub open spec fn segment_spec(dir: Seq<char>, idx: nat) -> (Seq<char>, Seq<char>) {
    (join_path(dir, part_name("mic"@, idx)), join_path(dir, part_name("system"@, idx)))
}

/// Starts a recording of meeting `id`: its folder and the files of its
/// first segment, which is being written. The caller creates the folder
/// and starts the recorder on those files.
pub fn start_recording(data_root: &str, id: &str) -> (r: AppResult<ActiveRecording>)
    ensures
        valid_id(id@) ==> (r matches Ok(a) && a.id@ == id@ && a.dir@ == meeting_dir_spec(
            data_root@,
            id@,
        ) && a.segments@.len() == 0 && a.current == Some(segment_strings(a.current)) && pair_view(
            segment_strings(a.current),
        ) == segment_spec(a.dir@, 0) && numbered_segments(a)),
        !valid_id(id@) ==> (r matches Err(AppError::InvalidInput(m)) && m@
            == "invalid meeting id: "@ + id@),
{
    match validate_id(id) {
        Ok(()) => {},
        Err(e) => {
            return Err(e);
        },
    }
    let dir = meeting_dir(data_root, id);
    let first = segment_paths(dir.as_str(), 0);
    Ok(ActiveRecording { id: string_of(id), dir, segments: Vec::new(), current: Some(first) })
}

/// The segments of a recording are numbered in order: finalized segment
/// `i` is segment `i` of its folder, the current one comes next.
pub open spec fn numbered_segments(a: ActiveRecording) -> bool {
    &&& forall|i: int|
        0 <= i < a.segments@.len() ==> #[trigger] pair_view(a.segments@[i]) == segment_spec(
            a.dir@,
            i as nat,
        )
    &&& match a.current {
        Some(c) => pair_view(c) == segment_spec(a.dir@, a.segments@.len() as nat),
        None => true,
    }
}

/// All segments of a recording: the finalized ones, then the current one.
pub open spec fn all_segments(a: ActiveRecording) -> Seq<(Seq<char>, Seq<char>)> {
    match a.current {
        Some(c) => pair_views(a.segments@).push(pair_view(c)),
        None => pair_views(a.segments@),
    }
}

impl ActiveRecording {
    /// Whether a segment is being written (not paused).
    pub fn is_running(&self) -> (r: bool)
        ensures
            r == self.current is Some,
    {
        self.current.is_some()
    }

    /// Pauses: the current segment, if any, becomes finalized. The caller
    /// stops the recorder first when [`Self::is_running`]. Pausing a paused
    /// recording changes nothing.
    pub fn pause(&mut self)
        ensures
            final(self).id == old(self).id,
            final(self).dir == old(self).dir,
            final(self).current is None,
            numbered_segments(*old(self)) ==> numbered_segments(*final(self)),
            pair_views(final(self).segments@) == match old(self).current {
                Some(c) => pair_views(old(self).segments@).push(pair_view(c)),
                None => pair_views(old(self).segments@),
            },
    {
        let ghost before = self.segments@;
        if let Some(c) = self.current.take() {
            self.segments.push(c);
            proof {
                assert(pair_views(self.segments@) =~= pair_views(before).push(pair_view(c)));
                if numbered_segments(*old(self)) {
                    assert forall|i: int| 0 <= i < self.segments@.len() implies #[trigger] pair_view(
                        self.segments@[i],
                    ) == segment_spec(self.dir@, i as nat) by {
                        if i < before.len() {
                            assert(self.segments@[i] == before[i]);
                        }
                    }
                }
            }
        }
    }

    /// The files of the segment that resuming opens, numbered after the
    /// finalized ones; `None` when the recording is not paused.
    pub fn next_segment(&self) -> (r: Option<(String, String)>)
        ensures
            self.current is Some ==> r is None,
            self.current is None ==> (r matches Some(p) && pair_view(p) == segment_spec(
                self.dir@,
                self.segments@.len() as nat,
            )),
    {
        if self.current.is_some() {
            return None;
        }
        Some(segment_paths(self.dir.as_str(), self.segments.len()))
    }

    /// Resumes into the segment files `next` (from [`Self::next_segment`])
    /// once the recorder has started on them.
    pub fn resume(&mut self, next: (String, String))
        ensures
            final(self).id == old(self).id,
            final(self).dir == old(self).dir,
            final(self).segments == old(self).segments,
            final(self).current == Some(next),
            numbered_segments(*old(self)) && pair_view(next) == segment_spec(
                old(self).dir@,
                old(self).segments@.len() as nat,
            ) ==> numbered_segments(*final(self)),
    {
        self.current = Some(next);
    }

    /// The parts of each track to join on stop, in order: the finalized
    /// segments, then the current one if the recording runs.
    pub fn all_parts(&self) -> (r: (Vec<String>, Vec<String>))
        ensures
            r.0@.len() == all_segments(*self).len(),
            r.1@.len() == all_segments(*self).len(),
            forall|k: int| 0 <= k < r.0@.len() ==> #[trigger] r.0@[k]@ == all_segments(*self)[k].0,
            forall|k: int| 0 <= k < r.1@.len() ==> #[trigger] r.1@[k]@ == all_segments(*self)[k].1,
    {
        let ghost all = all_segments(*self);
        let mut mic: Vec<String> = Vec::new();
        let mut sys: Vec<String> = Vec::new();
        let mut i: usize = 0;
        while i < self.segments.len()
            invariant
                i <= self.segments@.len(),
                all == all_segments(*self),
                mic@.len() == i,
                sys@.len() == i,
                forall|k: int|
                    0 <= k < i ==> #[trigger] mic@[k]@ == all[k].0 && sys@[k]@ == all[k].1,
            decreases self.segments@.len() - i,
        {
            mic.push(string_of(self.segments[i].0.as_str()));
            sys.push(string_of(self.segments[i].1.as_str()));
            proof {
                assert(all[i as int] == pair_view(self.segments@[i as int]));
            }
            i = i + 1;
        }
        let ghost m0 = mic@;
        let ghost s0 = sys@;
        proof {
            assert(m0.len() == self.segments@.len());
            assert(forall|k: int| 0 <= k < m0.len() ==> #[trigger] m0[k]@ == all[k].0 && s0[k]@ == all[k].1);
        }
        if let Some(c) = &self.current {
            mic.push(string_of(c.0.as_str()));
            sys.push(string_of(c.1.as_str()));
            proof {
                assert(all.len() == m0.len() + 1);
                assert(all[m0.len() as int] == pair_view(*c));
                assert forall|k: int| 0 <= k < mic@.len() implies #[trigger] mic@[k]@ == all[k].0
                    && sys@[k]@ == all[k].1 by {
                    if k < m0.len() {
                        assert(mic@[k] == m0[k]);
                        assert(sys@[k] == s0[k]);
                        assert(m0[k]@ == all[k].0);
                    }
                }
            }
        }
        proof {
            assert(mic@.len() == all.len());
            assert(forall|k: int| 0 <= k < mic@.len() ==> #[trigger] mic@[k]@ == all[k].0 && sys@[k]@ == all[k].1);
            assert(forall|k: int| 0 <= k < sys@.len() ==> #[trigger] sys@[k]@ == all[k].1) by {
                assert forall|k: int| 0 <= k < sys@.len() implies #[trigger] sys@[k]@ == all[k].1 by {
                    assert(mic@[k]@ == all[k].0);
                }
            }
        }
        (mic, sys)
    }
}

/// The length of a meeting from the lengths of its two tracks (`None`:
/// unreadable, counted as 0): the longer one.
pub fn meeting_duration(mic: Option<u64>, system: Option<u64>) -> (r: u64)
    ensures
        r == ({
            let m = match mic {
                Some(x) => x,
                None => 0,
            };
            let s = match system {
                Some(x) => x,
                None => 0,
            };
            if m >= s {
                m
            } else {
                s
            }
        }),
{
    let m = match mic {
        Some(x) => x,
        None => 0,
    };
    let s = match system {
        Some(x) => x,
        None => 0,
    };
    if m >= s {
        m
    } else {
        s
    }
}

/// A meeting just recorded or imported: no participants or topic yet,
/// stored in the folder named by its id, status "recorded".
pub open spec fn new_meeting_spec(
    m: Meeting,
    id: Seq<char>,
    created_at: Seq<char>,
    title: Seq<char>,
    duration_secs: u64,
    source: Seq<char>,
) -> bool {
    &&& m.id@ == id
    &&& m.created_at@ == created_at
    &&& m.title@ == title
    &&& m.participants@.len() == 0
    &&& m.topic@.len() == 0
    &&& m.duration_secs == duration_secs
    &&& m.folder@ == id
    &&& m.status@ == "recorded"@
    &&& m.source@ == source
}

/// The record of a meeting just recorded or imported.
pub fn new_meeting(id: &str, created_at: String, title: &str, duration_secs: u64, source: &str) -> (r:
    Meeting)
    ensures
        new_meeting_spec(r, id@, created_at@, title@, duration_secs, source@),
{
    Meeting {
        id: string_of(id),
        created_at,
        title: string_of(title),
        participants: String::new(),
        topic: String::new(),
        duration_secs,
        folder: string_of(id),
        status: string_of("recorded"),
        source: string_of(source),
    }
}

/// The record of a recording just stopped: titled "Новая встреча".
pub fn recorded_meeting(active: &ActiveRecording, created_at: String, duration_secs: u64) -> (r:
    Meeting)
    ensures
        new_meeting_spec(r, active.id@, created_at@, "Новая встреча"@, duration_secs, "recorded"@),
{
    new_meeting(active.id.as_str(), created_at, "Новая встреча", duration_secs, "recorded")
}

/// What to do with a meeting folder that had orphaned parts, once they are
/// joined.
#[derive(Debug, Clone, Copy, PartialEq, Eq)]
pub enum Recovery {
    /// An empty remnant unknown to the database: remove the folder.
    Discard,
    /// Unknown to the database: insert it as a recovered recording.
    Insert,
    /// Already in the database: nothing more to do.
    Keep,
}

/// The fate of a recovered folder: an empty unknown remnant is discarded,
/// an unknown recording inserted, a known one kept.
pub fn recovery_action(duration_secs: u64, already_known: bool) -> (r: Recovery)
    ensures
        r == (if duration_secs == 0 && !already_known {
            Recovery::Discard
        } else if !already_known {
            Recovery::Insert
        } else {
            Recovery::Keep
        }),
{
    if duration_secs == 0 && !already_known {
        Recovery::Discard
    } else if !already_known {
        Recovery::Insert
    } else {
        Recovery::Keep
    }
}

/// The record of a recording recovered from orphaned parts.
pub fn recovered_meeting(id: &str, created_at: String, duration_secs: u64) -> (r: Meeting)
    ensures
        new_meeting_spec(r, id@, created_at@, "Восстановленная запись"@, duration_secs, "recorded"@),
{
    new_meeting(id, created_at, "Восстановленная запись", duration_secs, "recorded")
}

/// The title of an imported meeting: the file's stem, or a generic title
/// when it has none.
pub open spec fn import_title_spec(stem: Option<Seq<char>>) -> Seq<char> {
    match stem {
        Some(s) => if s.len() > 0 {
            s
        } else {
            "Импортированная запись"@
        },
        None => "Импортированная запись"@,
    }
}

/// The record of an imported recording, with `source = "imported"`.
pub fn imported_meeting(id: &str, created_at: String, stem: Option<&str>, duration_secs: u64) -> (r:
    Meeting)
    ensures
        new_meeting_spec(
            r,
            id@,
            created_at@,
            import_title_spec(
                match stem {
                    Some(s) => Some(s@),
                    None => None,
                },
            ),
            duration_secs,
            "imported"@,
        ),
{
    let title = match stem {
        Some(s) => {
            let v = chars_of(s);
            if v.len() > 0 {
                string_of(s)
            } else {
                string_of("Импортированная запись")
            }
        },
        None => string_of("Импортированная запись"),
    };
    new_meeting(id, created_at, title.as_str(), duration_secs, "imported")
}

/// Where an entry with index `key` goes into the sorted `sorted`: after
/// the leading entries whose index is not greater.
pub open spec fn insert_pos(sorted: Seq<(usize, Seq<char>)>, key: usize) -> nat
    decreases sorted.len(),
{
    if sorted.len() == 0 || sorted[0].0 > key {
        0
    } else {
        1 + insert_pos(sorted.drop_first(), key)
    }
}

/// `s` sorted by index, entries of equal index in their order in `s`
/// (`sort_by_key`, which is stable).
pub open spec fn sort_by_index(s: Seq<(usize, Seq<char>)>) -> Seq<(usize, Seq<char>)>
    decreases s.len(),
{
    if s.len() == 0 {
        s
    } else {
        let t = sort_by_index(s.drop_last());
        let k = insert_pos(t, s.last().0) as int;
        t.take(k).push(s.last()) + t.skip(k)
    }
}

/// Whether the entries come in non-decreasing order of index.
pub open spec fn sorted_by_index(s: Seq<(usize, Seq<char>)>) -> bool {
    forall|i: int, j: int| 0 <= i <= j < s.len() ==> s[i].0 <= s[j].0
}

proof fn lemma_insert_pos(sorted: Seq<(usize, Seq<char>)>, key: usize)
    requires
        sorted_by_index(sorted),
    ensures
        insert_pos(sorted, key) <= sorted.len(),
        forall|i: int| 0 <= i < insert_pos(sorted, key) ==> #[trigger] sorted[i].0 <= key,
        forall|i: int| insert_pos(sorted, key) <= i < sorted.len() ==> #[trigger] sorted[i].0 > key,
    decreases sorted.len(),
{
    if sorted.len() > 0 && sorted[0].0 <= key {
        let rest = sorted.drop_first();
        assert(sorted_by_index(rest)) by {
            assert forall|i: int, j: int| 0 <= i <= j < rest.len() implies rest[i].0 <= rest[j].0 by {
                assert(rest[i] == sorted[i + 1]);
                assert(rest[j] == sorted[j + 1]);
            }
        }
        lemma_insert_pos(rest, key);
        assert forall|i: int| 0 <= i < insert_pos(sorted, key) implies #[trigger] sorted[i].0 <= key by {
            if i > 0 {
                assert(sorted[i] == rest[i - 1]);
            }
        }
        assert forall|i: int| insert_pos(sorted, key) <= i < sorted.len() implies #[trigger] sorted[i].0 > key by {
            assert(sorted[i] == rest[i - 1]);
        }
    } else if sorted.len() > 0 {
        assert forall|i: int| 0 <= i < sorted.len() implies #[trigger] sorted[i].0 > key by {
            assert(sorted[0].0 <= sorted[i].0);
        }
    }
}

/// Sorting by index gives entries in non-decreasing order of index, the
/// same entries as before.
pub proof fn lemma_sort_by_index(s: Seq<(usize, Seq<char>)>)
    ensures
        sorted_by_index(sort_by_index(s)),
        sort_by_index(s).to_multiset() == s.to_multiset(),
    decreases s.len(),
{
    if s.len() > 0 {
        let t = sort_by_index(s.drop_last());
        lemma_sort_by_index(s.drop_last());
        let x = s.last();
        lemma_insert_pos(t, x.0);
        let k = insert_pos(t, x.0) as int;
        let r = t.take(k).push(x) + t.skip(k);
        assert(r == sort_by_index(s));
        assert forall|i: int, j: int| 0 <= i <= j < r.len() implies r[i].0 <= r[j].0 by {
            if i < k {
                assert(r[i] == t[i]);
            } else if i > k {
                assert(r[i] == t[i - 1]);
            }
            if j < k {
                assert(r[j] == t[j]);
            } else if j > k {
                assert(r[j] == t[j - 1]);
            }
        }
        assert(r.to_multiset() == s.to_multiset()) by {
            vstd::seq_lib::lemma_multiset_commutative(t.take(k).push(x), t.skip(k));
            vstd::seq_lib::lemma_multiset_commutative(t.take(k), t.skip(k));
            assert(t.take(k) + t.skip(k) =~= t);
            assert(s.drop_last().push(x) =~= s);
            broadcast use vstd::seq_lib::group_seq_properties, vstd::multiset::group_multiset_axioms;
        }
    }
}

/// Inserts `x` into the index-sorted `v` after the entries whose index is
/// not greater.
fn insert_by_index(v: &mut Vec<(usize, String)>, x: (usize, String))
    ensures
        entry_views(final(v)@) == ({
            let t = entry_views(old(v)@);
            let k = insert_pos(t, x.0) as int;
            t.take(k).push((x.0, x.1@)) + t.skip(k)
        }),
{
    let ghost t = entry_views(v@);
    let mut k: usize = 0;
    proof {
        assert(t.skip(0) =~= t);
    }
    while k < v.len() && v[k].0 <= x.0
        invariant
            k <= v@.len(),
            t == entry_views(v@),
            insert_pos(t, x.0) == k + insert_pos(t.skip(k as int), x.0),
        decreases v@.len() - k,
    {
        proof {
            assert(t.skip(k as int).drop_first() =~= t.skip(k + 1));
        }
        k = k + 1;
    }
    let ghost xv = (x.0, x.1@);
    v.insert(k, x);
    proof {
        assert(entry_views(v@) =~= t.take(k as int).push(xv) + t.skip(k as int));
    }
}

/// The texts of index-tagged names.
pub open spec fn entry_views(v: Seq<(usize, String)>) -> Seq<(usize, Seq<char>)> {
    v.map_values(|e: (usize, String)| (e.0, e.1@))
}

/// The microphone part files among `names`, each with its segment number,
/// in the order of `names`.
pub open spec fn mic_entries(names: Seq<Seq<char>>) -> Seq<(usize, Seq<char>)>
    decreases names.len(),
{
    if names.len() == 0 {
        seq![]
    } else {
        let rest = mic_entries(names.drop_last());
        match part_index_spec(names.last(), "mic"@) {
            Some(i) => rest.push((i, names.last())),
            None => rest,
        }
    }
}

/// The system part files among `names` (those that are not microphone
/// parts), each with its segment number, in the order of `names`.
pub open spec fn system_entries(names: Seq<Seq<char>>) -> Seq<(usize, Seq<char>)>
    decreases names.len(),
{
    if names.len() == 0 {
        seq![]
    } else {
        let rest = system_entries(names.drop_last());
        match (part_index_spec(names.last(), "mic"@), part_index_spec(names.last(), "system"@)) {
            (None, Some(i)) => rest.push((i, names.last())),
            _ => rest,
        }
    }
}

/// The names of index-tagged entries.
pub open spec fn entry_names(v: Seq<(usize, Seq<char>)>) -> Seq<Seq<char>> {
    v.map_values(|e: (usize, Seq<char>)| e.1)
}

/// The names of the entries of `v`, in order.
fn names_of(v: &Vec<(usize, String)>) -> (r: Vec<String>)
    ensures
        views(r@) == entry_names(entry_views(v@)),
{
    let mut r: Vec<String> = Vec::new();
    let mut i: usize = 0;
    while i < v.len()
        invariant
            i <= v@.len(),
            views(r@) == entry_names(entry_views(v@)).take(i as int),
        decreases v@.len() - i,
    {
        let ghost r0 = r@;
        let s = string_of(v[i].1.as_str());
        r.push(s);
        i = i + 1;
        proof {
            lemma_views_push(r0, s);
            assert(views(r@) =~= entry_names(entry_views(v@)).take(i as int));
        }
    }
    proof {
        assert(entry_names(entry_views(v@)).take(v@.len() as int) =~= entry_names(entry_views(v@)));
    }
    r
}

/// The segment part files among the file names of a meeting folder, per
/// track, ordered by segment number: microphone parts, system parts.
pub fn collect_segment_parts(names: &Vec<String>) -> (r: (Vec<String>, Vec<String>))
    ensures
        views(r.0@) == entry_names(sort_by_index(mic_entries(views(names@)))),
        views(r.1@) == entry_names(sort_by_index(system_entries(views(names@)))),
{
    let ghost ns = views(names@);
    let mut mic: Vec<(usize, String)> = Vec::new();
    let mut sys: Vec<(usize, String)> = Vec::new();
    let mut i: usize = 0;
    proof {
        assert(ns.take(0) =~= Seq::<Seq<char>>::empty());
        assert(entry_views(mic@) =~= Seq::<(usize, Seq<char>)>::empty());
        assert(entry_views(sys@) =~= Seq::<(usize, Seq<char>)>::empty());
    }
    while i < names.len()
        invariant
            i <= names@.len(),
            ns == views(names@),
            entry_views(mic@) == sort_by_index(mic_entries(ns.take(i as int))),
            entry_views(sys@) == sort_by_index(system_entries(ns.take(i as int))),
        decreases names@.len() - i,
    {
        proof {
            assert(ns.take(i + 1).drop_last() =~= ns.take(i as int));
            assert(ns.take(i + 1).last() == names@[i as int]@);
        }
        let name = names[i].as_str();
        match parse_part_index(name, "mic") {
            Some(idx) => {
                insert_by_index(&mut mic, (idx, string_of(name)));
                proof {
                    let e = mic_entries(ns.take(i + 1));
                    assert(e.drop_last() =~= mic_entries(ns.take(i as int)));
                }
            },
            None => {
                match parse_part_index(name, "system") {
                    Some(idx) => {
                        insert_by_index(&mut sys, (idx, string_of(name)));
                        proof {
                            let e = system_entries(ns.take(i + 1));
                            assert(e.drop_last() =~= system_entries(ns.take(i as int)));
                        }
                    },
                    None => {},
                }
            },
        }
        i = i + 1;
    }
    proof {
        assert(ns.take(names@.len() as int) =~= ns);
    }
    (names_of(&mic), names_of(&sys))
}

/// The tracks a meeting folder may hold: a recorded meeting has `mic` and
/// `system`, an imported one `audio`. An audio edit cuts ALL existing
/// tracks with the same cuts, else "me" and the other side drift apart.
pub const TRACK_FILES: [&'static str; 3] = ["mic.wav", "system.wav", "audio.wav"];

/// The track files, in order.
pub open spec fn track_files() -> Seq<Seq<char>> {
    seq!["mic.wav"@, "system.wav"@, "audio.wav"@]
}

/// Whether `name` is one of the track files.
pub fn is_track_file(name: &str) -> (r: bool)
    ensures
        r == track_files().contains(name@),
{
    let r = str_eq(name, "mic.wav") || str_eq(name, "system.wav") || str_eq(name, "audio.wav");
    proof {
        if r {
            if name@ == "mic.wav"@ {
                assert(track_files()[0] == name@);
            } else if name@ == "system.wav"@ {
                assert(track_files()[1] == name@);
            } else {
                assert(track_files()[2] == name@);
            }
        }
    }
    r
}

/// The file of a meeting's track (for playback), when the id is safe and
/// the name is a track file; the caller reports a missing file as
/// `NotFound(track_file)`.
pub fn track_path(data_root: &str, id: &str, track_file: &str) -> (r: AppResult<String>)
    ensures
        !valid_id(id@) ==> (r matches Err(AppError::InvalidInput(m)) && m@
            == "invalid meeting id: "@ + id@),
        valid_id(id@) && !track_files().contains(track_file@) ==> (r matches Err(
            AppError::InvalidInput(m),
        ) && m@ == "unknown track file: "@ + track_file@),
        valid_id(id@) && track_files().contains(track_file@) ==> (r matches Ok(p) && p@
            == join_path(meeting_dir_spec(data_root@, id@), track_file@)),
{
    match validate_id(id) {
        Ok(()) => {},
        Err(e) => {
            return Err(e);
        },
    }
    if !is_track_file(track_file) {
        return Err(AppError::InvalidInput(concat("unknown track file: ", track_file)));
    }
    let d = meeting_dir(data_root, id);
    Ok(path_join(d.as_str(), track_file))
}

/// `s` without all trailing repetitions of `p` (`str::trim_end_matches`).
pub open spec fn trim_end_matches(s: Seq<char>, p: Seq<char>) -> Seq<char>
    decreases s.len(),
{
    if p.len() > 0 && ends_with(s, p) {
        trim_end_matches(s.take(s.len() - p.len()), p)
    } else {
        s
    }
}

/// The backup name of a track: `mic.wav` → `mic.orig.wav`.
pub open spec fn orig_name_spec(track_file: Seq<char>) -> Seq<char> {
    trim_end_matches(track_file, ".wav"@) + ".orig.wav"@
}

/// The backup name of a track: `mic.wav` → `mic.orig.wav`.
pub fn orig_name(track_file: &str) -> (r: String)
    ensures
        r@ == orig_name_spec(track_file@),
{
    let v = chars_of(track_file);
    let wav = chars_of(".wav");
    proof {
        reveal_strlit(".wav");
    }
    let mut n = v.len();
    proof {
        assert(v@.take(n as int) =~= v@);
    }
    while n >= 4 && has_at(&v, n - 4, &wav)
        invariant
            n <= v@.len(),
            wav@ == ".wav"@,
            trim_end_matches(track_file@, ".wav"@) == trim_end_matches(v@.take(n as int), ".wav"@),
            v@ == track_file@,
        decreases n,
    {
        proof {
            reveal_strlit(".wav");
            let s = v@.take(n as int);
            assert(s.skip(s.len() - 4) =~= v@.skip(n - 4).take(4));
            assert(s.take(s.len() - 4) =~= v@.take(n - 4));
            assert(ends_with(s, ".wav"@));
        }
        n = n - 4;
    }
    proof {
        let s = v@.take(n as int);
        if n >= 4 {
            assert(s.skip(s.len() - 4) =~= v@.skip(n - 4).take(4));
        }
    }
    let mut r = crate::text::string_from_range(&v, 0, n);
    push_str(&mut r, ".orig.wav");
    proof {
        assert(v@.subrange(0, n as int) =~= v@.take(n as int));
    }
    r
}

/// The track files that are among `present`, in the order of the tracks.
pub open spec fn existing_tracks_spec(present: Seq<Seq<char>>) -> Seq<Seq<char>> {
    kept(present, "mic.wav"@) + kept(present, "system.wav"@) + kept(present, "audio.wav"@)
}

/// `[name]` when `name` is among `present`, else nothing.
pub open spec fn kept(present: Seq<Seq<char>>, name: Seq<char>) -> Seq<Seq<char>> {
    if present.contains(name) {
        seq![name]
    } else {
        seq![]
    }
}

/// Whether `name` is among `names`.
fn listed(names: &Vec<String>, name: &str) -> (r: bool)
    ensures
        r == views(names@).contains(name@),
{
    let mut i: usize = 0;
    while i < names.len()
        invariant
            i <= names@.len(),
            forall|k: int| 0 <= k < i ==> views(names@)[k] != name@,
        decreases names@.len() - i,
    {
        if str_eq(names[i].as_str(), name) {
            proof {
                assert(views(names@)[i as int] == name@);
            }
            return true;
        }
        i = i + 1;
    }
    false
}

/// The tracks of a meeting that lie in its folder, given the file names
/// of the folder.
pub fn existing_tracks(present: &Vec<String>) -> (r: Vec<String>)
    ensures
        views(r@) == existing_tracks_spec(views(present@)),
{
    let ghost p = views(present@);
    let mut r: Vec<String> = Vec::new();
    let m = listed(present, "mic.wav");
    if m {
        r.push(string_of("mic.wav"));
    }
    proof {
        assert(views(r@) =~= kept(p, "mic.wav"@));
    }
    let ghost r1 = r@;
    let s = listed(present, "system.wav");
    if s {
        let x = string_of("system.wav");
        r.push(x);
        proof {
            lemma_views_push(r1, x);
        }
    }
    proof {
        assert(views(r@) =~= kept(p, "mic.wav"@) + kept(p, "system.wav"@));
    }
    let ghost r2 = r@;
    let a = listed(present, "audio.wav");
    if a {
        let x = string_of("audio.wav");
        r.push(x);
        proof {
            lemma_views_push(r2, x);
        }
    }
    proof {
        assert(views(r@) =~= existing_tracks_spec(p));
    }
    r
}

/// The state of a meeting's audio editor for the interface.
#[derive(Debug, Clone, PartialEq)]
pub struct AudioEditState {
    /// The meeting's existing tracks (see [`TRACK_FILES`]).
    pub tracks: Vec<String>,
    /// Whether the original before the edits is kept, so the edit can be
    /// undone.
    pub has_original: bool,
}

/// Which tracks a meeting has and whether a backup of the original exists,
/// from the file names of its folder.
pub fn audio_edit_state(id: &str, present: &Vec<String>) -> (r: AppResult<AudioEditState>)
    ensures
        !valid_id(id@) ==> (r matches Err(AppError::InvalidInput(m)) && m@
            == "invalid meeting id: "@ + id@),
        valid_id(id@) ==> (r matches Ok(st) && views(st.tracks@) == existing_tracks_spec(
            views(present@),
        ) && st.has_original == exists|i: int|
            0 <= i < 3 && views(present@).contains(#[trigger] orig_name_spec(track_files()[i]))),
{
    match validate_id(id) {
        Ok(()) => {},
        Err(e) => {
            return Err(e);
        },
    }
    let tracks = existing_tracks(present);
    let o0 = orig_name("mic.wav");
    let o1 = orig_name("system.wav");
    let o2 = orig_name("audio.wav");
    let has_original = listed(present, o0.as_str()) || listed(present, o1.as_str()) || listed(
        present,
        o2.as_str(),
    );
    proof {
        let tf = track_files();
        assert(tf[0] == "mic.wav"@);
        assert(tf[1] == "system.wav"@);
        assert(tf[2] == "audio.wav"@);
        if has_original {
            if views(present@).contains(o0@) {
                assert(views(present@).contains(orig_name_spec(tf[0])));
            } else if views(present@).contains(o1@) {
                assert(views(present@).contains(orig_name_spec(tf[1])));
            } else {
                assert(views(present@).contains(orig_name_spec(tf[2])));
            }
        }
    }
    Ok(AudioEditState { tracks, has_original })
}

/// The checks before cutting a meeting's audio: something must be cut, and
/// the meeting must have a track.
pub fn check_audio_edit(id: &str, n_cuts: usize, tracks: &Vec<String>) -> (r: AppResult<()>)
    ensures
        !valid_id(id@) ==> (r matches Err(AppError::InvalidInput(m)) && m@
            == "invalid meeting id: "@ + id@),
        valid_id(id@) && n_cuts == 0 ==> (r matches Err(AppError::InvalidInput(m)) && m@
            == "не выбрано, что вырезать из записи"@),
        valid_id(id@) && n_cuts > 0 && tracks@.len() == 0 ==> (r matches Err(AppError::NotFound(m))
            && m@ == "аудио встречи "@ + id@),
        valid_id(id@) && n_cuts > 0 && tracks@.len() > 0 ==> r is Ok,
{
    match validate_id(id) {
        Ok(()) => {},
        Err(e) => {
            return Err(e);
        },
    }
    if n_cuts == 0 {
        return Err(AppError::InvalidInput(string_of("не выбрано, что вырезать из записи")));
    }
    if tracks.len() == 0 {
        return Err(AppError::NotFound(concat("аудио встречи ", id)));
    }
    Ok(())
}

/// The temporary file that a track is cut into before it replaces the
/// track: `<track>.edit.tmp`.
pub fn edit_tmp_name(track_file: &str) -> (r: String)
    ensures
        r@ == track_file@ + ".edit.tmp"@,
{
    concat(track_file, ".edit.tmp")
}

/// The outcome of restoring the backed-up tracks: restoring nothing means that
/// there was no edit.
pub fn check_reverted(restored: usize) -> (r: AppResult<()>)
    ensures
        restored == 0 ==> (r matches Err(AppError::InvalidState(m)) && m@
            == "оригинал не сохранён — правок аудио не было"@),
        restored > 0 ==> r is Ok,
{
    if restored == 0 {
        return Err(AppError::InvalidState(string_of("оригинал не сохранён — правок аудио не было")));
    }
    Ok(())
}

} // verus!
