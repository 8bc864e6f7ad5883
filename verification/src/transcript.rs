//! Transcript model: speaker ids, their human labels, and the assembly of a
//! speaker-tagged transcript from recognised segments.
//!
//! Times are carried as a type parameter `T` (seconds; the application uses
//! `f64`): nothing here compares or computes with them, they are copied from
//! the recognised segments to the transcript unchanged.
use vstd::prelude::*;

use crate::text::{
    chars_of, decimal, is_blank, is_blank_str, parse_usize, parse_usize_range, push_decimal, starts_with,
    str_eq, string_of,
};

verus! {

/// Speaker id of the microphone track ("me").
pub const ME: &'static str = "me";

/// Speaker id of the system-audio track (the other side).
pub const THEM: &'static str = "them";

/// A raw recognised segment of one track.
#[derive(Debug, Clone, PartialEq)]
pub struct Segment<T> {
    pub start_secs: T,
    pub end_secs: T,
    pub text: String,
}

/// A segment of the final transcript, with the id of its speaker.
#[derive(Debug, Clone, PartialEq)]
pub struct TranscriptSegment<T> {
    pub speaker: String,
    pub start_secs: T,
    pub end_secs: T,
    pub text: String,
}

/// A diarization segment: an interval and a raw speaker (cluster) number.
#[derive(Debug, Clone, PartialEq)]
pub struct DiarSegment<T> {
    pub start_secs: T,
    pub end_secs: T,
    pub speaker: u32,
}

/// The full transcript of a meeting.
#[derive(Debug, Clone, PartialEq)]
pub struct Transcript<T> {
    pub segments: Vec<TranscriptSegment<T>>,
}

impl<T> View for TranscriptSegment<T> {
    type V = (Seq<char>, T, T, Seq<char>);

    open spec fn view(&self) -> (Seq<char>, T, T, Seq<char>) {
        (self.speaker@, self.start_secs, self.end_secs, self.text@)
    }
}

/// The segments of a transcript, each by its view.
pub open spec fn segment_views<T>(v: Seq<TranscriptSegment<T>>) -> Seq<(Seq<char>, T, T, Seq<char>)> {
    v.map_values(|s: TranscriptSegment<T>| s@)
}

/// The number that a speaker id `spk<n>` carries, if it has that form.
pub open spec fn spk_number(id: Seq<char>) -> Option<usize> {
    if starts_with(id, "spk"@) {
        parse_usize(id.skip(3))
    } else {
        None
    }
}

/// Ids whose label can be formed: all but `spk<usize::MAX>`, whose label
/// number would overflow.
pub open spec fn labelable(id: Seq<char>) -> bool {
    spk_number(id) != Some(usize::MAX)
}

/// The human label of a speaker id: "Я" for `me`, "Собеседник" for `them`,
/// "Спикер n+1" for `spk<n>`, and the id itself otherwise.
pub open spec fn speaker_label_of(id: Seq<char>) -> Seq<char> {
    if id == "me"@ {
        "Я"@
    } else if id == "them"@ {
        "Собеседник"@
    } else {
        match spk_number(id) {
            Some(n) => "Спикер "@ + decimal(n as nat + 1),
            None => id,
        }
    }
}

/// Whether `v` starts with the three characters of `spk`.
fn has_spk_prefix(v: &Vec<char>) -> (r: bool)
    ensures
        r == starts_with(v@, "spk"@),
{
    proof {
        reveal_strlit("spk");
    }
    if v.len() < 3 {
        return false;
    }
    let r = v[0] == 's' && v[1] == 'p' && v[2] == 'k';
    proof {
        if r {
            assert(v@.take(3) =~= "spk"@);
        } else {
            assert(v@.take(3) != "spk"@) by {
                if v@.take(3) == "spk"@ {
                    assert(v@.take(3)[0] == 's');
                    assert(v@.take(3)[1] == 'p');
                    assert(v@.take(3)[2] == 'k');
                }
            }
        }
    }
    r
}

/// The number of a `spk<n>` id, if it has that form.
pub fn speaker_number(id: &str) -> (r: Option<usize>)
    ensures
        r == spk_number(id@),
{
    let v = chars_of(id);
    proof {
        reveal_strlit("spk");
    }
    if !has_spk_prefix(&v) {
        return None;
    }
    let r = parse_usize_range(&v, 3, v.len());
    proof {
        assert(v@.subrange(3, v@.len() as int) =~= id@.skip(3));
    }
    r
}

/// Human-readable label of a speaker by its id.
pub fn speaker_label(id: &str) -> (r: String)
    requires
        labelable(id@),
    ensures
        r@ == speaker_label_of(id@),
{
    if str_eq(id, ME) {
        return string_of("Я");
    }
    if str_eq(id, THEM) {
        return string_of("Собеседник");
    }
    match speaker_number(id) {
        Some(n) => {
            let mut r = string_of("Спикер ");
            push_decimal(&mut r, n + 1);
            r
        },
        None => string_of(id),
    }
}

/// The transcript views of the non-blank segments of one track, all
/// attributed to `speaker`, in their order.
pub open spec fn tag_track<T>(segs: Seq<Segment<T>>, speaker: Seq<char>) -> Seq<
    (Seq<char>, T, T, Seq<char>),
>
    decreases segs.len(),
{
    if segs.len() == 0 {
        seq![]
    } else {
        let rest = tag_track(segs.drop_last(), speaker);
        let s = segs.last();
        if is_blank(s.text@) {
            rest
        } else {
            rest.push((speaker, s.start_secs, s.end_secs, s.text@))
        }
    }
}

/// Appends the non-blank segments of `segs`, attributed to `speaker`, to `out`.
fn push_tagged<T: Copy>(out: &mut Vec<TranscriptSegment<T>>, segs: &Vec<Segment<T>>, speaker: &str)
    ensures
        segment_views(final(out)@) == segment_views(old(out)@) + tag_track(segs@, speaker@),
{
    let ghost base = segment_views(out@);
    let mut i: usize = 0;
    while i < segs.len()
        invariant
            i <= segs@.len(),
            segment_views(out@) == base + tag_track(segs@.take(i as int), speaker@),
        decreases segs@.len() - i,
    {
        let s = &segs[i];
        proof {
            assert(segs@.take(i + 1).drop_last() =~= segs@.take(i as int));
            assert(segs@.take(i + 1).last() == segs@[i as int]);
        }
        if !is_blank_str(s.text.as_str()) {
            let seg = TranscriptSegment {
                speaker: string_of(speaker),
                start_secs: s.start_secs,
                end_secs: s.end_secs,
                text: s.text.clone(),
            };
            let ghost before = out@;
            let ghost sv = seg@;
            out.push(seg);
            proof {
                assert(segment_views(out@) =~= segment_views(before).push(sv));
                assert(sv == (speaker@, segs@[i as int].start_secs, segs@[i as int].end_secs,
                    segs@[i as int].text@));
                assert(segment_views(out@) =~= base + tag_track(segs@.take(i + 1), speaker@));
            }
        }
        i = i + 1;
    }
    proof {
        assert(segs@.take(segs@.len() as int) =~= segs@);
    }
}

/// Tags the microphone segments as "me" and the system segments as "them",
/// dropping blank texts: microphone segments first, each track in its own
/// order. Ordering the result by start time is left to the caller, which
/// owns the time type (a stable sort keeps "me" before "them" on ties).
pub fn tag_tracks<T: Copy>(mic: &Vec<Segment<T>>, system: &Vec<Segment<T>>) -> (r: Vec<
    TranscriptSegment<T>,
>)
    ensures
        segment_views(r@) == tag_track(mic@, "me"@) + tag_track(system@, "them"@),
{
    let mut out: Vec<TranscriptSegment<T>> = Vec::new();
    proof {
        assert(segment_views(out@) =~= Seq::empty());
    }
    push_tagged(&mut out, mic, ME);
    push_tagged(&mut out, system, THEM);
    proof {
        assert(segment_views(out@) =~= tag_track(mic@, "me"@) + tag_track(system@, "them"@));
    }
    out
}

/// Builds a transcript of ONE track: every non-blank segment gets the
/// speaker `speaker`, in their order.
pub fn single_speaker<T: Copy>(segments: Vec<Segment<T>>, speaker: &str) -> (r: Transcript<T>)
    ensures
        segment_views(r.segments@) == tag_track(segments@, speaker@),
{
    let mut out: Vec<TranscriptSegment<T>> = Vec::new();
    proof {
        assert(segment_views(out@) =~= Seq::empty());
    }
    push_tagged(&mut out, &segments, speaker);
    proof {
        assert(segment_views(out@) =~= tag_track(segments@, speaker@));
    }
    Transcript { segments: out }
}

/// First position of `x` in `order`, or `order.len()` when absent.
pub open spec fn position_of(order: Seq<u32>, x: u32) -> nat
    decreases order.len(),
{
    if order.len() == 0 {
        0
    } else if order[0] == x {
        0
    } else {
        1 + position_of(order.drop_first(), x)
    }
}

/// The speaker id `spk<n>`.
pub open spec fn spk_id(n: nat) -> Seq<char> {
    "spk"@ + decimal(n)
}

/// Speaker assignment over the recognised segments: blank texts are
/// dropped; a segment whose best raw speaker is `Some(raw)` gets
/// `spk<k>`, `k` being the rank of `raw` in the order of first appearance;
/// one without any (`None`) gets `spk0`. Also yields that order.
pub open spec fn assign_fold<T>(segs: Seq<Segment<T>>, best: Seq<Option<u32>>) -> (
    Seq<(Seq<char>, T, T, Seq<char>)>,
    Seq<u32>,
)
    decreases segs.len(),
{
    if segs.len() == 0 {
        (seq![], seq![])
    } else {
        let prev = assign_fold(segs.drop_last(), best.drop_last());
        let s = segs.last();
        if is_blank(s.text@) {
            prev
        } else {
            match best.last() {
                Some(raw) => {
                    let k = position_of(prev.1, raw);
                    let order = if k < prev.1.len() {
                        prev.1
                    } else {
                        prev.1.push(raw)
                    };
                    (prev.0.push((spk_id(k), s.start_secs, s.end_secs, s.text@)), order)
                },
                None => (prev.0.push((spk_id(0), s.start_secs, s.end_secs, s.text@)), prev.1),
            }
        }
    }
}

pub(crate) proof fn lemma_position_bound(order: Seq<u32>, x: u32)
    ensures
        position_of(order, x) <= order.len(),
        position_of(order, x) < order.len() ==> order[position_of(order, x) as int] == x,
        position_of(order, x) == order.len() ==> !order.contains(x),
        position_of(order.push(x), x) == position_of(order, x),
    decreases order.len(),
{
    if order.len() > 0 {
        lemma_position_bound(order.drop_first(), x);
        assert(order.push(x).drop_first() =~= order.drop_first().push(x));
        if order[0] != x && position_of(order, x) == order.len() {
            assert forall|i: int| 0 <= i < order.len() implies order[i] != x by {
                if i > 0 {
                    assert(order[i] == order.drop_first()[i - 1]);
                }
            }
        }
    }
}

/// Rank of `x` in `order` (its first position), or `order.len()`.
pub(crate) fn find_rank(order: &Vec<u32>, x: u32) -> (r: usize)
    ensures
        r == position_of(order@, x),
{
    let mut i: usize = 0;
    proof {
        assert(order@.skip(0) =~= order@);
    }
    while i < order.len()
        invariant
            i <= order@.len(),
            position_of(order@, x) == i + position_of(order@.skip(i as int), x),
        decreases order@.len() - i,
    {
        proof {
            assert(order@.skip(i as int).drop_first() =~= order@.skip(i + 1));
        }
        if order[i] == x {
            return i;
        }
        i = i + 1;
    }
    i
}

/// The speaker id `spk<n>` as a `String`.
fn spk_string(n: usize) -> (r: String)
    ensures
        r@ == spk_id(n as nat),
{
    let mut r = string_of("spk");
    push_decimal(&mut r, n);
    r
}

/// Attributes each recognised segment to a speaker from diarization.
///
/// `best[i]` is the raw speaker that overlaps `whisper[i]` the most (or the
/// nearest one), `None` when diarization found nobody; choosing it compares
/// times and is left to the caller. Blank segments are dropped; raw speaker
/// numbers are renumbered `spk0`, `spk1`, … in the order of first
/// appearance, and a segment without a raw speaker gets `spk0`.
pub fn assign_speakers_with<T: Copy>(whisper: Vec<Segment<T>>, best: Vec<Option<u32>>) -> (r:
    Transcript<T>)
    requires
        best@.len() == whisper@.len(),
    ensures
        segment_views(r.segments@) == assign_fold(whisper@, best@).0,
{
    let mut out: Vec<TranscriptSegment<T>> = Vec::new();
    let mut order: Vec<u32> = Vec::new();
    let mut i: usize = 0;
    proof {
        assert(segment_views(out@) =~= Seq::empty());
        assert(whisper@.take(0) =~= Seq::<Segment<T>>::empty());
    }
    while i < whisper.len()
        invariant
            i <= whisper@.len(),
            best@.len() == whisper@.len(),
            order@.len() <= i,
            (segment_views(out@), order@) == assign_fold(whisper@.take(i as int), best@.take(
                i as int,
            )),
        decreases whisper@.len() - i,
    {
        let s = &whisper[i];
        proof {
            assert(whisper@.take(i + 1).drop_last() =~= whisper@.take(i as int));
            assert(best@.take(i + 1).drop_last() =~= best@.take(i as int));
            assert(whisper@.take(i + 1).last() == whisper@[i as int]);
            assert(best@.take(i + 1).last() == best@[i as int]);
        }
        if !is_blank_str(s.text.as_str()) {
            let speaker = match best[i] {
                Some(raw) => {
                    let k = find_rank(&order, raw);
                    proof {
                        lemma_position_bound(order@, raw);
                    }
                    if k == order.len() {
                        order.push(raw);
                    }
                    spk_string(k)
                },
                None => spk_string(0),
            };
            let seg = TranscriptSegment {
                speaker,
                start_secs: s.start_secs,
                end_secs: s.end_secs,
                text: s.text.clone(),
            };
            let ghost before = out@;
            let ghost sv = seg@;
            out.push(seg);
            proof {
                assert(segment_views(out@) =~= segment_views(before).push(sv));
            }
        }
        i = i + 1;
    }
    proof {
        assert(whisper@.take(whisper@.len() as int) =~= whisper@);
        assert(best@.take(best@.len() as int) =~= best@);
    }
    Transcript { segments: out }
}

/// The raw speakers of the segments that the assignment keeps (the
/// non-blank ones), in order.
pub open spec fn assign_raws<T>(segs: Seq<Segment<T>>, best: Seq<Option<u32>>) -> Seq<Option<u32>>
    decreases segs.len(),
{
    if segs.len() == 0 {
        seq![]
    } else {
        let prev = assign_raws(segs.drop_last(), best.drop_last());
        if is_blank(segs.last().text@) {
            prev
        } else {
            prev.push(best.last())
        }
    }
}

proof fn lemma_position_push_other(order: Seq<u32>, x: u32, y: u32)
    requires
        order.contains(y),
    ensures
        position_of(order.push(x), y) == position_of(order, y),
    decreases order.len(),
{
    if order[0] != y {
        let k = choose|k: int| 0 <= k < order.len() && order[k] == y;
        assert(order.drop_first()[k - 1] == y);
        lemma_position_push_other(order.drop_first(), x, y);
        assert(order.push(x).drop_first() =~= order.drop_first().push(x));
    }
}

proof fn lemma_decimal_injective(a: nat, b: nat)
    requires
        decimal(a) == decimal(b),
    ensures
        a == b,
{
    crate::text::lemma_decimal_digits(a);
    crate::text::lemma_decimal_digits(b);
}

proof fn lemma_spk_id_injective(a: nat, b: nat)
    requires
        spk_id(a) == spk_id(b),
    ensures
        a == b,
{
    reveal_strlit("spk");
    assert(spk_id(a).skip(3) =~= decimal(a));
    assert(spk_id(b).skip(3) =~= decimal(b));
    lemma_decimal_injective(a, b);
}

proof fn lemma_assign_fold<T>(segs: Seq<Segment<T>>, best: Seq<Option<u32>>)
    requires
        best.len() == segs.len(),
    ensures
        ({
            let (out, order) = assign_fold(segs, best);
            let raws = assign_raws(segs, best);
            &&& out.len() == raws.len()
            &&& order.no_duplicates()
            &&& forall|k: int|
                0 <= k < out.len() ==> match #[trigger] raws[k] {
                    Some(r) => order.contains(r) && out[k].0 == spk_id(position_of(order, r)),
                    None => out[k].0 == spk_id(0),
                }
        }),
    decreases segs.len(),
{
    if segs.len() > 0 {
        let ps = segs.drop_last();
        let pb = best.drop_last();
        lemma_assign_fold(ps, pb);
        let (pout, porder) = assign_fold(ps, pb);
        let praws = assign_raws(ps, pb);
        let s = segs.last();
        if !is_blank(s.text@) {
            let (out, order) = assign_fold(segs, best);
            let raws = assign_raws(segs, best);
            assert(raws == praws.push(best.last()));
            match best.last() {
                Some(raw) => {
                    let k = position_of(porder, raw);
                    lemma_position_bound(porder, raw);
                    if k < porder.len() {
                        assert(order == porder);
                        assert(porder.contains(raw));
                    } else {
                        assert(order == porder.push(raw));
                        assert(order.no_duplicates()) by {
                            assert forall|a: int, b: int| 0 <= a < b < order.len() implies order[a]
                                != order[b] by {
                                if b == order.len() - 1 {
                                    assert(order[a] == porder[a]);
                                    assert(porder.contains(order[a]));
                                }
                            }
                        }
                        assert(order[porder.len() as int] == raw);
                        assert(order.contains(raw));
                        assert forall|j: int| 0 <= j < pout.len() implies match #[trigger] raws[j] {
                            Some(r) => order.contains(r) && out[j].0 == spk_id(position_of(order, r)),
                            None => out[j].0 == spk_id(0),
                        } by {
                            assert(raws[j] == praws[j]);
                            assert(out[j] == pout[j]);
                            match praws[j] {
                                Some(r) => {
                                    lemma_position_push_other(porder, raw, r);
                                    let i = choose|i: int| 0 <= i < porder.len() && porder[i] == r;
                                    assert(order[i] == r);
                                },
                                None => {},
                            }
                        }
                    }
                    assert(position_of(order, raw) == k) by {
                        if k >= porder.len() {
                            lemma_position_bound(porder, raw);
                        }
                    }
                    assert forall|j: int| 0 <= j < out.len() implies match #[trigger] raws[j] {
                        Some(r) => order.contains(r) && out[j].0 == spk_id(position_of(order, r)),
                        None => out[j].0 == spk_id(0),
                    } by {
                        if j < pout.len() {
                            assert(raws[j] == praws[j]);
                            assert(out[j] == pout[j]);
                        }
                    }
                },
                None => {
                    assert forall|j: int| 0 <= j < out.len() implies match #[trigger] raws[j] {
                        Some(r) => order.contains(r) && out[j].0 == spk_id(position_of(order, r)),
                        None => out[j].0 == spk_id(0),
                    } by {
                        if j < pout.len() {
                            assert(raws[j] == praws[j]);
                            assert(out[j] == pout[j]);
                        }
                    }
                },
            }
        }
    }
}

/// How many different raw speakers `raws` names (`None` counts for none).
pub open spec fn distinct_raws(raws: Seq<Option<u32>>) -> nat
    decreases raws.len(),
{
    if raws.len() == 0 {
        0
    } else {
        let prev = distinct_raws(raws.drop_last());
        match raws.last() {
            Some(r) => if raws.drop_last().contains(Some(r)) {
                prev
            } else {
                prev + 1
            },
            None => prev,
        }
    }
}

proof fn lemma_assign_order<T>(segs: Seq<Segment<T>>, best: Seq<Option<u32>>)
    requires
        best.len() == segs.len(),
    ensures
        ({
            let (out, order) = assign_fold(segs, best);
            let raws = assign_raws(segs, best);
            &&& order.len() == distinct_raws(raws)
            &&& forall|r: u32| order.contains(r) <==> raws.contains(Some(r))
            &&& forall|j: int|
                0 <= j < out.len() && (#[trigger] raws[j]) is Some && !raws.take(j).contains(raws[j])
                    ==> out[j].0 == spk_id(distinct_raws(raws.take(j)))
        }),
    decreases segs.len(),
{
    lemma_assign_fold(segs, best);
    if segs.len() > 0 {
        let ps = segs.drop_last();
        let pb = best.drop_last();
        lemma_assign_order(ps, pb);
        lemma_assign_fold(ps, pb);
        let (pout, porder) = assign_fold(ps, pb);
        let praws = assign_raws(ps, pb);
        let (out, order) = assign_fold(segs, best);
        let raws = assign_raws(segs, best);
        let s = segs.last();
        if !is_blank(s.text@) {
            assert(raws == praws.push(best.last()));
            assert(raws.drop_last() =~= praws);
            assert(raws.take(praws.len() as int) =~= praws);
            assert forall|j: int| 0 <= j < praws.len() implies raws.take(j) =~= praws.take(j) by {}
            match best.last() {
                Some(raw) => {
                    lemma_position_bound(porder, raw);
                    let k = position_of(porder, raw);
                    if k < porder.len() {
                        assert(porder.contains(raw));
                        assert(order == porder);
                    } else {
                        assert(order == porder.push(raw));
                        assert(order[porder.len() as int] == raw);
                    }
                    assert forall|r: u32| order.contains(r) <==> raws.contains(Some(r)) by {
                        if order.contains(r) && r != raw {
                            let i = choose|i: int| 0 <= i < order.len() && order[i] == r;
                            assert(i < porder.len());
                            assert(porder[i] == r);
                            assert(porder.contains(r));
                            assert(praws.contains(Some(r)));
                            let a = choose|a: int| 0 <= a < praws.len() && praws[a] == Some(r);
                            assert(raws[a] == praws[a]);
                            assert(raws[a] == Some(r));
                        }
                        if order.contains(r) && r == raw {
                            assert(raws[praws.len() as int] == Some(r));
                        }
                        if raws.contains(Some(r)) {
                            let a = choose|a: int| 0 <= a < raws.len() && raws[a] == Some(r);
                            if a < praws.len() {
                                assert(praws[a] == Some(r));
                                assert(porder.contains(r));
                                let i = choose|i: int| 0 <= i < porder.len() && porder[i] == r;
                                if k >= porder.len() {
                                    assert(order[i] == r);
                                }
                            } else {
                                assert(r == raw);
                                if k >= porder.len() {
                                    assert(order[porder.len() as int] == r);
                                }
                            }
                        }
                    }
                    assert forall|j: int|
                        0 <= j < out.len() && (#[trigger] raws[j]) is Some && !raws.take(j).contains(raws[j])
                            implies out[j].0 == spk_id(distinct_raws(raws.take(j))) by {
                        if j < pout.len() {
                            assert(raws[j] == praws[j]);
                            assert(out[j] == pout[j]);
                            assert(raws.take(j) == praws.take(j));
                        } else {
                            assert(j == praws.len());
                            assert(raws.take(j) == praws);
                            assert(!praws.contains(Some(raw)));
                            assert(!porder.contains(raw));
                            assert(k == porder.len());
                        }
                    }
                },
                None => {
                    assert(order == porder);
                    assert forall|r: u32| order.contains(r) <==> raws.contains(Some(r)) by {
                        if raws.contains(Some(r)) {
                            let a = choose|a: int| 0 <= a < raws.len() && raws[a] == Some(r);
                            assert(a < praws.len());
                            assert(praws[a] == Some(r));
                        }
                        if praws.contains(Some(r)) {
                            let a = choose|a: int| 0 <= a < praws.len() && praws[a] == Some(r);
                            assert(raws[a] == Some(r));
                        }
                    }
                    assert forall|j: int|
                        0 <= j < out.len() && (#[trigger] raws[j]) is Some && !raws.take(j).contains(raws[j])
                            implies out[j].0 == spk_id(distinct_raws(raws.take(j))) by {
                        if j < pout.len() {
                            assert(raws[j] == praws[j]);
                            assert(out[j] == pout[j]);
                            assert(raws.take(j) == praws.take(j));
                        }
                    }
                },
            }
        } else {
            assert(raws == praws);
            assert(out == pout);
            assert(order == porder);
        }
    }
}

/// Speakers are numbered by their first appearance among the kept
/// (non-blank) segments: a kept segment whose raw speaker no earlier kept
/// segment had gets `spk<k>`, `k` being the number of different raw
/// speakers among the kept segments before it; so the first kept segment
/// with a raw speaker gets `spk0`, the next new one `spk1`, and so on.
/// Dropped blank segments take no number.
pub proof fn lemma_assign_speakers_first_appearance<T>(segs: Seq<Segment<T>>, best: Seq<Option<u32>>)
    requires
        best.len() == segs.len(),
    ensures
        ({
            let out = assign_fold(segs, best).0;
            let raws = assign_raws(segs, best);
            &&& out.len() == raws.len()
            &&& forall|j: int|
                0 <= j < out.len() && (#[trigger] raws[j]) is Some && !raws.take(j).contains(raws[j])
                    ==> out[j].0 == spk_id(distinct_raws(raws.take(j)))
        }),
{
    lemma_assign_fold(segs, best);
    lemma_assign_order(segs, best);
}

/// The kept segments are the non-blank ones, in order, with the raw
/// speaker chosen for each: blank segments leave no trace.
pub proof fn lemma_assign_raws_keep_non_blank<T>(segs: Seq<Segment<T>>, best: Seq<Option<u32>>)
    requires
        best.len() == segs.len(),
    ensures
        (forall|i: int| 0 <= i < segs.len() ==> is_blank(#[trigger] segs[i].text@)) ==> assign_raws(
            segs,
            best,
        ).len() == 0,
        (forall|i: int| 0 <= i < segs.len() ==> !is_blank(#[trigger] segs[i].text@)) ==> assign_raws(
            segs,
            best,
        ) == best,
    decreases segs.len(),
{
    if segs.len() > 0 {
        let ps = segs.drop_last();
        let pb = best.drop_last();
        assert forall|i: int| 0 <= i < ps.len() implies ps[i] == segs[i] by {}
        lemma_assign_raws_keep_non_blank(ps, pb);
        assert(segs.last() == segs[segs.len() - 1]);
        if forall|i: int| 0 <= i < segs.len() ==> !is_blank(#[trigger] segs[i].text@) {
            assert(forall|i: int| 0 <= i < ps.len() ==> !is_blank(#[trigger] ps[i].text@));
            assert(pb.push(best.last()) =~= best);
        }
        if forall|i: int| 0 <= i < segs.len() ==> is_blank(#[trigger] segs[i].text@) {
            assert(forall|i: int| 0 <= i < ps.len() ==> is_blank(#[trigger] ps[i].text@));
        }
    }
}

/// Renumbering keeps speakers apart and together: two kept segments that
/// diarization gave raw speakers get the same speaker id exactly when
/// their raw speakers are the same; a segment without a raw speaker gets
/// `spk0`; the assignment keeps one segment per non-blank recognised one.
pub proof fn lemma_assign_speakers_consistent<T>(segs: Seq<Segment<T>>, best: Seq<Option<u32>>)
    requires
        best.len() == segs.len(),
    ensures
        ({
            let out = assign_fold(segs, best).0;
            let raws = assign_raws(segs, best);
            &&& out.len() == raws.len()
            &&& forall|a: int, b: int|
                0 <= a < out.len() && 0 <= b < out.len() && #[trigger] raws[a] is Some
                    && #[trigger] raws[b] is Some ==> (out[a].0 == out[b].0 <==> raws[a] == raws[b])
            &&& forall|a: int| 0 <= a < out.len() && #[trigger] raws[a] is None ==> out[a].0 == spk_id(0)
        }),
{
    lemma_assign_fold(segs, best);
    let (out, order) = assign_fold(segs, best);
    let raws = assign_raws(segs, best);
    assert forall|a: int, b: int|
        0 <= a < out.len() && 0 <= b < out.len() && #[trigger] raws[a] is Some
            && #[trigger] raws[b] is Some implies (out[a].0 == out[b].0 <==> raws[a] == raws[b]) by {
        let ra = raws[a]->0;
        let rb = raws[b]->0;
        assert(order.contains(ra) && out[a].0 == spk_id(position_of(order, ra)));
        assert(order.contains(rb) && out[b].0 == spk_id(position_of(order, rb)));
        if out[a].0 == out[b].0 {
            lemma_spk_id_injective(position_of(order, ra), position_of(order, rb));
            lemma_position_bound(order, ra);
            lemma_position_bound(order, rb);
        }
    }
    assert forall|a: int| 0 <= a < out.len() && #[trigger] raws[a] is None implies out[a].0 == spk_id(0) by {
        assert(match raws[a] {
            Some(r) => order.contains(r) && out[a].0 == spk_id(position_of(order, r)),
            None => out[a].0 == spk_id(0),
        });
    }
}

} // verus!
