//! Talking to an OpenAI-compatible chat model: which model to use, how the
//! server check is reported, how a reply is cleaned, how a long transcript
//! is cut into parts, which prompts the reports use and how requests are
//! driven through a [`ChatBackend`].
use vstd::prelude::*;

use crate::error::{error_detail, error_prefix, AppError, AppResult};
use crate::prompts::{
    ANALYSIS_MERGE_SYSTEM, ANALYSIS_PART_SYSTEM, ANALYZE_SYSTEM, ANSWER_SYSTEM,
    BRIEF_DIGEST_SYSTEM, BRIEF_SYSTEM, LITERARY_PART_SYSTEM, LITERARY_SYSTEM, METADATA_CTX_SYSTEM,
    METADATA_SYSTEM, NOTES_SYSTEM, PROMPT_AGENT, PROMPT_ANALYSIS, SUMMARY_MERGE_SYSTEM,
    SUMMARY_PART_SYSTEM,
    PROMPT_FOLLOWUP, PROMPT_LITERARY, PROMPT_SUMMARY, PROMPT_TASKS, RULES, SUMMARIZE_SYSTEM,
};
use crate::transcript::{labelable, speaker_label, speaker_label_of, Transcript, TranscriptSegment};
use crate::text::{
    chars_of, find_at, find_char, is_blank, is_ws, lemma_find_at_drop_first, lemma_find_at_drop_last,
    lemma_trim_idempotent, starts_with, trim_end, trim_start, find_char_from, find_char_in, find_from, lemma_find_at_some,
    lemma_find_char, rfind_char,
    rfind_char_in, str_eq, string_from_chars, string_from_range, string_of, trim, trim_bounds,
    trim_string, views, opt_view, concat, push_str, push_char, push_decimal, decimal, join,
    join_strings, is_blank_str, contains, contains_seq, lowercase, to_lowercase, lemma_views_push,
    ends_with,
};

verus! {

/// Access to an OpenAI-compatible chat server.
#[derive(Debug, Clone, PartialEq)]
pub struct AiConfig {
    pub base_url: String,
    pub api_key: String,
    pub model: String,
}

/// Meeting metadata proposed by the model.
#[derive(Debug, Clone, PartialEq, Default)]
pub struct MetadataSuggestion {
    pub title: String,
    pub participants: String,
    pub topic: String,
}

/// Outcome of a connection check of the chat server.
#[derive(Debug, Clone, PartialEq, Default)]
pub struct AiCheck {
    pub ok: bool,
    /// The models that the server lists.
    pub models: Vec<String>,
    /// The model to use (one that the server has).
    pub model: String,
    /// The configured model is gone from the server and another was chosen.
    pub changed: bool,
    pub latency_ms: u64,
    pub error: Option<String>,
}

/// ASCII-case-insensitive equality of two characters
/// (`char::eq_ignore_ascii_case`).
pub open spec fn eq_ignore_ascii_case(a: char, b: char) -> bool {
    ||| a == b
    ||| ('A' <= a && a <= 'Z' && a as int + 32 == b as int)
    ||| ('A' <= b && b <= 'Z' && b as int + 32 == a as int)
}

/// Length of the longest common prefix of `a` and `b`, ignoring ASCII case.
pub open spec fn common_prefix(a: Seq<char>, b: Seq<char>) -> nat
    decreases a.len(),
{
    if a.len() == 0 || b.len() == 0 || !eq_ignore_ascii_case(a[0], b[0]) {
        0
    } else {
        1 + common_prefix(a.drop_first(), b.drop_first())
    }
}

/// Among `av[0..n]`, the index of the last name with the longest common
/// prefix with `want` (what `Iterator::max_by_key` picks).
pub open spec fn closest_index(want: Seq<char>, av: Seq<Seq<char>>, n: int) -> int
    decreases n,
{
    if n <= 1 {
        0
    } else {
        let i = closest_index(want, av, n - 1);
        if common_prefix(want, av[n - 1]) >= common_prefix(want, av[i]) {
            n - 1
        } else {
            i
        }
    }
}

/// Whether a configured model name asks for a specific model (not blank,
/// not `auto`).
pub open spec fn names_model(want: Seq<char>) -> bool {
    want.len() > 0 && want != "auto"@
}

/// The model to use: the configured one if the server lists it; else the
/// listed one closest by name (longest common prefix, at least three
/// characters, the last of equals); else the first listed. `None` when the
/// server lists nothing.
pub open spec fn pick_model_spec(configured: Seq<char>, av: Seq<Seq<char>>) -> Option<Seq<char>> {
    let want = trim(configured);
    let c = closest_index(want, av, av.len() as int);
    if av.len() == 0 {
        None
    } else if names_model(want) && av.contains(want) {
        Some(want)
    } else if names_model(want) && common_prefix(want, av[c]) >= 3 {
        Some(av[c])
    } else {
        Some(av[0])
    }
}

proof fn lemma_closest_index_bound(want: Seq<char>, av: Seq<Seq<char>>, n: int)
    requires
        n >= 1,
    ensures
        0 <= closest_index(want, av, n) < n,
    decreases n,
{
    if n > 1 {
        lemma_closest_index_bound(want, av, n - 1);
    }
}

/// Whether `want` names a specific model.
fn names_model_str(want: &str) -> (r: bool)
    ensures
        r == names_model(want@),
{
    let w = chars_of(want);
    w.len() > 0 && !str_eq(want, "auto")
}

/// The model picked is always one that the server lists, and one is
/// picked whenever the server lists any.
pub proof fn lemma_pick_model_listed(configured: Seq<char>, av: Seq<Seq<char>>)
    ensures
        pick_model_spec(configured, av) is Some <==> av.len() > 0,
        pick_model_spec(configured, av) matches Some(m) ==> av.contains(m),
{
    if av.len() > 0 {
        let want = trim(configured);
        let c = closest_index(want, av, av.len() as int);
        lemma_closest_index_bound(want, av, av.len() as int);
        assert(av[c] == av[c]);
        assert(av.contains(av[0]));
        assert(av.contains(av[c]));
    }
}

/// The configured model wins when the server lists it: if the trimmed
/// configured name names a model (not blank, not `auto`) and is among the
/// listed names, exactly that name is picked, whatever else is listed.
pub proof fn lemma_pick_model_prefers_configured(configured: Seq<char>, av: Seq<Seq<char>>)
    requires
        trim(configured).len() > 0,
        trim(configured) != "auto"@,
        av.contains(trim(configured)),
    ensures
        pick_model_spec(configured, av) == Some(trim(configured)),
{
}

proof fn lemma_closest_index_max(want: Seq<char>, av: Seq<Seq<char>>, n: int)
    requires
        1 <= n <= av.len(),
    ensures
        0 <= closest_index(want, av, n) < n,
        forall|i: int| 0 <= i < n ==> common_prefix(want, #[trigger] av[i]) <= common_prefix(
            want,
            av[closest_index(want, av, n)],
        ),
        forall|i: int|
            closest_index(want, av, n) < i < n ==> common_prefix(want, #[trigger] av[i])
                < common_prefix(want, av[closest_index(want, av, n)]),
    decreases n,
{
    if n > 1 {
        lemma_closest_index_max(want, av, n - 1);
    }
}

/// When the configured model is not listed, the closest listed one is
/// taken: one sharing the longest case-insensitive prefix with the
/// configured name (the last of such), provided the prefix has at least
/// three characters; otherwise the first listed model.
pub proof fn lemma_pick_model_closest(configured: Seq<char>, av: Seq<Seq<char>>)
    requires
        av.len() > 0,
        trim(configured).len() > 0,
        trim(configured) != "auto"@,
        !av.contains(trim(configured)),
    ensures
        ({
            let want = trim(configured);
            let best = common_prefix(want, av[closest_index(want, av, av.len() as int)]);
            let m = pick_model_spec(configured, av)->0;
            &&& pick_model_spec(configured, av) is Some
            &&& best >= 3 ==> {
                &&& common_prefix(want, m) == best
                &&& forall|i: int| 0 <= i < av.len() ==> common_prefix(want, #[trigger] av[i]) <= best
                &&& exists|j: int| 0 <= j < av.len() && av[j] == m && forall|i: int|
                    j < i < av.len() ==> common_prefix(want, #[trigger] av[i]) < best
            }
            &&& best < 3 ==> m == av[0] && forall|i: int|
                0 <= i < av.len() ==> common_prefix(want, #[trigger] av[i]) < 3
        }),
{
    let want = trim(configured);
    let c = closest_index(want, av, av.len() as int);
    lemma_closest_index_max(want, av, av.len() as int);
    assert(av[c] == av[c]);
}

/// Without a usable configured name (blank or `auto`) the first listed
/// model is picked.
pub proof fn lemma_pick_model_auto_takes_first(configured: Seq<char>, av: Seq<Seq<char>>)
    requires
        av.len() > 0,
        trim(configured).len() == 0 || trim(configured) == "auto"@,
    ensures
        pick_model_spec(configured, av) == Some(av[0]),
{
}

/// ASCII-case-insensitive character equality.
fn chars_eq_ic(a: char, b: char) -> (r: bool)
    ensures
        r == eq_ignore_ascii_case(a, b),
{
    a == b || ('A' <= a && a <= 'Z' && a as u32 + 32 == b as u32) || ('A' <= b && b <= 'Z'
        && b as u32 + 32 == a as u32)
}

/// Length of the ASCII-case-insensitive common prefix of `a` and `b`.
fn common_prefix_len(a: &Vec<char>, b: &Vec<char>) -> (n: usize)
    ensures
        n == common_prefix(a@, b@),
{
    let mut i: usize = 0;
    proof {
        assert(a@.skip(0) =~= a@);
        assert(b@.skip(0) =~= b@);
    }
    while i < a.len() && i < b.len() && chars_eq_ic(a[i], b[i])
        invariant
            i <= a@.len(),
            i <= b@.len(),
            common_prefix(a@, b@) == i + common_prefix(a@.skip(i as int), b@.skip(i as int)),
        decreases a@.len() - i,
    {
        proof {
            assert(a@.skip(i as int).drop_first() =~= a@.skip(i + 1));
            assert(b@.skip(i as int).drop_first() =~= b@.skip(i + 1));
        }
        i = i + 1;
    }
    i
}

/// Which model to use: the configured one if the server lists it; else the
/// closest listed by name (longest common prefix, e.g. `qwen3.5-27b` →
/// `qwen3.6-27b`), and without a match the first. `None` when the server
/// lists nothing.
pub fn pick_model(configured: &str, available: &[String]) -> (r: Option<String>)
    ensures
        opt_view(r) == pick_model_spec(configured@, views(available@)),
{
    let ghost av = views(available@);
    let want = trim_string(configured);
    if available.len() == 0 {
        return None;
    }
    if names_model_str(want.as_str()) {
        let mut i: usize = 0;
        while i < available.len()
            invariant
                i <= available@.len(),
                av == views(available@),
                want@ == trim(configured@),
                names_model(want@),
                forall|k: int| 0 <= k < i ==> av[k] != want@,
            decreases available@.len() - i,
        {
            if str_eq(available[i].as_str(), want.as_str()) {
                proof {
                    assert(av[i as int] == want@);
                    assert(av.contains(want@));
                }
                return Some(want);
            }
            i = i + 1;
        }
        proof {
            assert(!av.contains(want@));
        }
        let w = chars_of(want.as_str());
        let mut best: usize = 0;
        let first = chars_of(available[0].as_str());
        let mut best_n = common_prefix_len(&w, &first);
        let mut j: usize = 1;
        while j < available.len()
            invariant
                1 <= j <= available@.len(),
                av == views(available@),
                w@ == want@,
                best == closest_index(want@, av, j as int),
                best < j,
                best_n == common_prefix(want@, av[best as int]),
            decreases available@.len() - j,
        {
            let m = chars_of(available[j].as_str());
            let n = common_prefix_len(&w, &m);
            if n >= best_n {
                best = j;
                best_n = n;
            }
            j = j + 1;
        }
        if best_n >= 3 {
            return Some(string_of(available[best].as_str()));
        }
    }
    Some(string_of(available[0].as_str()))
}

/// `ids` without repetitions, each kept where it first occurs.
pub open spec fn dedup_spec(ids: Seq<Seq<char>>) -> Seq<Seq<char>>
    decreases ids.len(),
{
    if ids.len() == 0 {
        seq![]
    } else {
        let prev = dedup_spec(ids.drop_last());
        if prev.contains(ids.last()) {
            prev
        } else {
            prev.push(ids.last())
        }
    }
}

/// The model names a server listed, in order, each once (a name listed
/// under both `data` and `models` counts once).
pub fn distinct_models(ids: Vec<String>) -> (r: Vec<String>)
    ensures
        views(r@) == dedup_spec(views(ids@)),
{
    let mut out: Vec<String> = Vec::new();
    let mut i: usize = 0;
    proof {
        assert(views(ids@).take(0) =~= Seq::<Seq<char>>::empty());
        assert(views(out@) =~= Seq::<Seq<char>>::empty());
    }
    while i < ids.len()
        invariant
            i <= ids@.len(),
            views(out@) == dedup_spec(views(ids@).take(i as int)),
        decreases ids@.len() - i,
    {
        proof {
            assert(views(ids@).take(i + 1).drop_last() =~= views(ids@).take(i as int));
            assert(views(ids@).take(i + 1).last() == ids@[i as int]@);
        }
        let mut seen = false;
        let mut k: usize = 0;
        while k < out.len()
            invariant
                k <= out@.len(),
                seen == exists|j: int| 0 <= j < k && views(out@)[j] == ids@[i as int]@,
                i < ids@.len(),
            decreases out@.len() - k,
        {
            proof {
                assert(views(out@)[k as int] == out@[k as int]@);
            }
            if str_eq(out[k].as_str(), ids[i].as_str()) {
                seen = true;
            }
            k = k + 1;
        }
        proof {
            if seen {
                let j = choose|j: int| 0 <= j < out@.len() && views(out@)[j] == ids@[i as int]@;
                assert(views(out@).contains(ids@[i as int]@));
            } else {
                assert(!views(out@).contains(ids@[i as int]@));
            }
        }
        if !seen {
            let x = string_of(ids[i].as_str());
            let ghost before = out@;
            out.push(x);
            proof {
                lemma_views_push(before, x);
            }
        }
        i = i + 1;
    }
    proof {
        assert(views(ids@).take(ids@.len() as int) =~= views(ids@));
    }
    out
}

/// The message of an error, as `Display` writes it.
pub open spec fn error_message(e: AppError) -> Seq<char> {
    error_prefix(e) + error_detail(e)
}

/// Checks the chat server from what listing its models gave (`listed`)
/// and how long that took: whether it answers, which models it has and
/// which one to use.
pub fn check(config: &AiConfig, listed: AppResult<Vec<String>>, latency_ms: u64) -> (r: AiCheck)
    ensures
        r.latency_ms == latency_ms,
        match listed {
            Ok(models) => {
                &&& r.ok
                &&& r.models@ == models@
                &&& r.error is None
                &&& r.model@ == (match pick_model_spec(config.model@, views(models@)) {
                    Some(m) => m,
                    None => config.model@,
                })
                &&& r.changed == (models@.len() > 0 && names_model(trim(config.model@))
                    && r.model@ != trim(config.model@))
            },
            Err(e) => {
                &&& !r.ok
                &&& r.models@.len() == 0
                &&& r.model@ == config.model@
                &&& !r.changed
                &&& r.error matches Some(m) && m@ == error_message(e)
            },
        },
{
    match listed {
        Ok(models) => {
            let model = match pick_model(config.model.as_str(), models.as_slice()) {
                Some(m) => m,
                None => config.model.clone(),
            };
            let want = trim_string(config.model.as_str());
            let changed = models.len() > 0 && names_model_str(want.as_str()) && !str_eq(
                model.as_str(),
                want.as_str(),
            );
            AiCheck { ok: true, models, model, changed, latency_ms, error: None }
        },
        Err(e) => AiCheck {
            ok: false,
            models: Vec::new(),
            model: config.model.clone(),
            changed: false,
            latency_ms,
            error: Some(e.message()),
        },
    }
}

/// The tag that opens a reasoning block.
pub open spec fn open_tag() -> Seq<char> {
    seq!['<', 't', 'h', 'i', 'n', 'k', '>']
}

/// The tag that closes a reasoning block.
pub open spec fn close_tag() -> Seq<char> {
    seq!['<', '/', 't', 'h', 'i', 'n', 'k', '>']
}

/// `s` with its reasoning blocks cut out: while the first `<think>` comes
/// before the first `</think>`, the text from it to the end of that
/// `</think>` is removed.
pub open spec fn strip_blocks(s: Seq<char>) -> Seq<char>
    decreases s.len(),
{
    match (find_at(s, open_tag(), 0), find_at(s, close_tag(), 0)) {
        (Some(a), Some(b)) => {
            if b >= a {
                proof {
                    lemma_find_at_some(s, open_tag(), 0);
                    lemma_find_at_some(s, close_tag(), 0);
                }
                strip_blocks(s.take(a) + s.skip(b + 8))
            } else {
                s
            }
        },
        _ => s,
    }
}

/// Whether `s` still holds a reasoning block: its first `<think>` comes no
/// later than its first `</think>`.
pub open spec fn has_block(s: Seq<char>) -> bool {
    find_at(s, open_tag(), 0) matches Some(a) && find_at(s, close_tag(), 0) matches Some(b)
        && b >= a
}

/// Cutting the blocks out leaves no block, and a text without a block is
/// left as it is.
proof fn lemma_strip_blocks_done(s: Seq<char>)
    ensures
        !has_block(strip_blocks(s)),
        !has_block(s) ==> strip_blocks(s) == s,
    decreases s.len(),
{
    if has_block(s) {
        let a = find_at(s, open_tag(), 0)->0;
        let b = find_at(s, close_tag(), 0)->0;
        lemma_find_at_some(s, open_tag(), 0);
        lemma_find_at_some(s, close_tag(), 0);
        lemma_strip_blocks_done(s.take(a) + s.skip(b + 8));
    }
}

/// Leading whitespace hides no block: a text without one keeps having none
/// once it is cut off.
proof fn lemma_trim_start_no_block(s: Seq<char>)
    requires
        !has_block(s),
    ensures
        !has_block(trim_start(s)),
    decreases s.len(),
{
    if s.len() > 0 && is_ws(s[0]) {
        let d = s.drop_first();
        assert(!starts_with(s.skip(0), open_tag())) by {
            assert(s.skip(0)[0] == s[0]);
            if starts_with(s.skip(0), open_tag()) {
                assert(s.skip(0).take(7)[0] == s[0]);
            }
        }
        assert(!starts_with(s.skip(0), close_tag())) by {
            if starts_with(s.skip(0), close_tag()) {
                assert(s.skip(0).take(8)[0] == s[0]);
            }
        }
        lemma_find_at_drop_first(s, open_tag(), 0);
        lemma_find_at_drop_first(s, close_tag(), 0);
        lemma_trim_start_no_block(d);
    }
}

/// Trailing whitespace hides no block either.
proof fn lemma_trim_end_no_block(s: Seq<char>)
    requires
        !has_block(s),
    ensures
        !has_block(trim_end(s)),
    decreases s.len(),
{
    if s.len() > 0 && is_ws(s.last()) {
        lemma_find_at_drop_last(s, open_tag(), 0);
        lemma_find_at_drop_last(s, close_tag(), 0);
        lemma_trim_end_no_block(s.drop_last());
    }
}

/// Cleaning a reply twice is cleaning it once; a clean reply holds no
/// reasoning block and no surrounding whitespace; a reply without any
/// `<think>` is only trimmed.
pub proof fn lemma_strip_think_idempotent(s: Seq<char>)
    ensures
        trim(strip_blocks(trim(strip_blocks(s)))) == trim(strip_blocks(s)),
        !has_block(trim(strip_blocks(s))),
        trim(trim(strip_blocks(s))) == trim(strip_blocks(s)),
        find_at(s, open_tag(), 0) is None ==> trim(strip_blocks(s)) == trim(s),
{
    let t = strip_blocks(s);
    lemma_strip_blocks_done(s);
    lemma_trim_start_no_block(t);
    lemma_trim_end_no_block(trim_start(t));
    let u = trim(t);
    lemma_strip_blocks_done(u);
    lemma_trim_idempotent(t);
}

/// `v` without the characters `v[a..e]`.
fn cut_out(v: &Vec<char>, a: usize, e: usize) -> (r: Vec<char>)
    requires
        a <= e <= v@.len(),
    ensures
        r@ == v@.take(a as int) + v@.skip(e as int),
{
    let mut r: Vec<char> = Vec::new();
    let mut i: usize = 0;
    while i < a
        invariant
            i <= a <= e <= v@.len(),
            r@ == v@.take(i as int),
        decreases a - i,
    {
        r.push(v[i]);
        i = i + 1;
        proof {
            assert(r@ =~= v@.take(i as int));
        }
    }
    let mut j: usize = e;
    while j < v.len()
        invariant
            a <= e <= j <= v@.len(),
            r@ == v@.take(a as int) + v@.subrange(e as int, j as int),
        decreases v@.len() - j,
    {
        r.push(v[j]);
        j = j + 1;
        proof {
            assert(r@ =~= v@.take(a as int) + v@.subrange(e as int, j as int));
        }
    }
    proof {
        assert(v@.subrange(e as int, v@.len() as int) =~= v@.skip(e as int));
    }
    r
}

/// Removes the reasoning block `<think>…</think>` of reasoning models
/// (Qwen3, DeepSeek-R1 and others), then trims: the user needs the answer.
pub fn strip_think(s: &str) -> (r: String)
    ensures
        r@ == trim(strip_blocks(s@)),
{
    let open = chars_of("<think>");
    let close = chars_of("</think>");
    proof {
        reveal_strlit("<think>");
        reveal_strlit("</think>");
        assert(open@ =~= open_tag());
        assert(close@ =~= close_tag());
    }
    let mut out = chars_of(s);
    loop
        invariant
            open@ == open_tag(),
            close@ == close_tag(),
            strip_blocks(out@) == strip_blocks(s@),
        ensures
            strip_blocks(out@) == strip_blocks(s@),
            strip_blocks(out@) == out@,
        decreases out@.len(),
    {
        let a = find_from(&out, &open, 0);
        let b = find_from(&out, &close, 0);
        match (a, b) {
            (Some(a), Some(b)) => {
                if b < a {
                    break;
                }
                proof {
                    lemma_find_at_some(out@, close@, 0);
                    assert(find_at(out@, close@, 0) == Some(b as int));
                    assert(close@.len() == 8);
                    assert(b + 8 <= out@.len());
                }
                let n = out.len();
                assert(b + 8 <= n);
                let next = cut_out(&out, a, b + 8);
                out = next;
            },
            _ => {
                break;
            },
        }
    }
    let (x, y) = trim_bounds(&out);
    string_from_range(&out, x, y)
}

/// The first JSON object in a text: from the first `{` to the last `}`
/// when that comes after it; otherwise the whole text.
pub open spec fn extract_json_spec(s: Seq<char>) -> Seq<char> {
    match (find_char(s, '{'), rfind_char(s, '}')) {
        (Some(a), Some(b)) => if b >= a {
            s.subrange(a, b + 1)
        } else {
            s
        },
        _ => s,
    }
}

/// Pulls the first JSON object out of a reply (the model may add words
/// around it or wrap it in a fenced block).
pub fn extract_json(s: &str) -> (r: String)
    ensures
        r@ == extract_json_spec(s@),
{
    let v = chars_of(s);
    match (find_char_in(&v, '{'), rfind_char_in(&v, '}')) {
        (Some(a), Some(b)) => {
            let n = v.len();
            assert(b < n);
            if b >= a {
                string_from_range(&v, a, b + 1)
            } else {
                string_from_chars(&v)
            }
        },
        _ => string_from_chars(&v),
    }
}

/// Bytes that `c` takes in UTF-8.
pub open spec fn utf8_width(c: char) -> nat {
    if (c as u32) < 0x80 {
        1
    } else if (c as u32) < 0x800 {
        2
    } else if (c as u32) < 0x10000 {
        3
    } else {
        4
    }
}

/// Length of `s` in UTF-8 bytes (`str::len`).
pub open spec fn utf8_len(s: Seq<char>) -> nat
    decreases s.len(),
{
    if s.len() == 0 {
        0
    } else {
        utf8_len(s.drop_last()) + utf8_width(s.last())
    }
}

/// `t` without one trailing carriage return.
pub open spec fn strip_cr(t: Seq<char>) -> Seq<char> {
    if t.len() > 0 && t.last() == '\r' {
        t.drop_last()
    } else {
        t
    }
}

/// The lines of `s` as `str::lines` yields them: split at each `\n`, a
/// line that a `\n` ends loses one `\r` before it, and a final line
/// ending adds no empty line.
pub open spec fn lines_of(s: Seq<char>) -> Seq<Seq<char>>
    decreases s.len(),
{
    if s.len() == 0 {
        seq![]
    } else {
        match find_char(s, '\n') {
            Some(i) => {
                proof {
                    lemma_find_char(s, '\n');
                }
                seq![strip_cr(s.take(i))] + lines_of(s.skip(i + 1))
            },
            None => seq![s],
        }
    }
}

/// One step of cutting lines into chunks of at most `max` bytes: the
/// current chunk is closed if the line would not fit after a newline; the
/// line is appended (after a newline when the chunk is not empty); a chunk
/// that reached `max` bytes is closed.
pub open spec fn add_line(st: (Seq<Seq<char>>, Seq<char>), line: Seq<char>, max: nat) -> (
    Seq<Seq<char>>,
    Seq<char>,
) {
    let chunks = st.0;
    let cur = st.1;
    let flush = cur.len() > 0 && utf8_len(cur) + utf8_len(line) + 1 > max;
    let chunks1 = if flush {
        chunks.push(cur)
    } else {
        chunks
    };
    let cur1 = if flush {
        Seq::<char>::empty()
    } else {
        cur
    };
    let cur2 = if cur1.len() > 0 {
        cur1.push('\n') + line
    } else {
        line
    };
    if utf8_len(cur2) >= max {
        (chunks1.push(cur2), Seq::<char>::empty())
    } else {
        (chunks1, cur2)
    }
}

/// The closed chunks and the open one after adding `lines` in order.
pub open spec fn chunk_fold(lines: Seq<Seq<char>>, max: nat) -> (Seq<Seq<char>>, Seq<char>)
    decreases lines.len(),
{
    if lines.len() == 0 {
        (seq![], seq![])
    } else {
        add_line(chunk_fold(lines.drop_last(), max), lines.last(), max)
    }
}

/// `text` cut at line boundaries into chunks of at most `max` bytes (a
/// single longer line makes a chunk of its own).
pub open spec fn split_chunks_spec(text: Seq<char>, max: nat) -> Seq<Seq<char>> {
    let st = chunk_fold(lines_of(text), max);
    if st.1.len() > 0 {
        st.0.push(st.1)
    } else {
        st.0
    }
}

proof fn lemma_utf8_len_bound(s: Seq<char>)
    ensures
        utf8_len(s) <= 4 * s.len(),
    decreases s.len(),
{
    if s.len() > 0 {
        lemma_utf8_len_bound(s.drop_last());
    }
}

proof fn lemma_utf8_len_concat(a: Seq<char>, b: Seq<char>)
    ensures
        utf8_len(a + b) == utf8_len(a) + utf8_len(b),
    decreases b.len(),
{
    if b.len() == 0 {
        assert(a + b =~= a);
    } else {
        lemma_utf8_len_concat(a, b.drop_last());
        assert((a + b).drop_last() =~= a + b.drop_last());
    }
}

/// Whether `s` holds no line feed.
pub open spec fn one_line(s: Seq<char>) -> bool {
    forall|i: int| 0 <= i < s.len() ==> s[i] != '\n'
}

proof fn lemma_lines_one_line(s: Seq<char>)
    ensures
        forall|i: int| 0 <= i < lines_of(s).len() ==> one_line(#[trigger] lines_of(s)[i]),
    decreases s.len(),
{
    if s.len() > 0 {
        lemma_find_char(s, '\n');
        match find_char(s, '\n') {
            Some(k) => {
                lemma_lines_one_line(s.skip(k + 1));
                let head = strip_cr(s.take(k));
                assert(one_line(head)) by {
                    assert forall|i: int| 0 <= i < head.len() implies head[i] != '\n' by {
                        assert(head[i] == s[i]);
                    }
                }
                let ls = lines_of(s);
                assert(ls == seq![head] + lines_of(s.skip(k + 1)));
                assert forall|i: int| 0 <= i < ls.len() implies one_line(#[trigger] ls[i]) by {
                    if i > 0 {
                        assert(ls[i] == lines_of(s.skip(k + 1))[i - 1]);
                    }
                }
            },
            None => {
                assert(one_line(s));
                assert(lines_of(s) == seq![s]);
            },
        }
    }
}

/// A chunk is small enough: at most `max` bytes, or a single line.
pub open spec fn chunk_ok(c: Seq<char>, max: nat) -> bool {
    utf8_len(c) <= max || one_line(c)
}

proof fn lemma_chunk_fold_ok(lines: Seq<Seq<char>>, max: nat)
    requires
        forall|i: int| 0 <= i < lines.len() ==> one_line(#[trigger] lines[i]),
    ensures
        forall|i: int|
            0 <= i < chunk_fold(lines, max).0.len() ==> chunk_ok(#[trigger] chunk_fold(lines, max).0[i], max),
        chunk_fold(lines, max).1.len() > 0 ==> utf8_len(chunk_fold(lines, max).1) < max,
        max > 0 ==> forall|i: int|
            0 <= i < chunk_fold(lines, max).0.len() ==> (#[trigger] chunk_fold(lines, max).0[i]).len() > 0,
    decreases lines.len(),
{
    if lines.len() > 0 {
        let prev = lines.drop_last();
        assert forall|i: int| 0 <= i < prev.len() implies one_line(#[trigger] prev[i]) by {
            assert(prev[i] == lines[i]);
        }
        lemma_chunk_fold_ok(prev, max);
        let st = chunk_fold(prev, max);
        let line = lines.last();
        assert(one_line(line)) by {
            assert(line == lines[lines.len() - 1]);
        }
        let cur = st.1;
        let flush = cur.len() > 0 && utf8_len(cur) + utf8_len(line) + 1 > max;
        let chunks1 = if flush { st.0.push(cur) } else { st.0 };
        let cur1 = if flush { Seq::<char>::empty() } else { cur };
        let cur2 = if cur1.len() > 0 { cur1.push('\n') + line } else { line };
        if cur1.len() > 0 {
            lemma_utf8_len_push(cur1, '\n');
            lemma_utf8_len_concat(cur1.push('\n'), line);
            assert(utf8_len(cur2) <= max);
            assert(cur2.len() > 0);
        }
        assert forall|i: int| 0 <= i < chunks1.len() implies chunk_ok(#[trigger] chunks1[i], max) by {
            if i < st.0.len() {
                assert(chunks1[i] == st.0[i]);
            }
        }
        if max > 0 {
            assert forall|i: int| 0 <= i < chunks1.len() implies (#[trigger] chunks1[i]).len() > 0 by {
                if i < st.0.len() {
                    assert(chunks1[i] == st.0[i]);
                }
            }
            if utf8_len(cur2) >= max {
                assert(cur2.len() > 0) by {
                    if cur2.len() == 0 {
                        assert(utf8_len(cur2) == 0);
                    }
                }
            }
        }
        assert(chunk_ok(cur2, max));
        let r = add_line(st, line, max);
        assert(r == chunk_fold(lines, max));
        if utf8_len(cur2) >= max {
            assert(r.0 == chunks1.push(cur2));
            assert forall|i: int| 0 <= i < r.0.len() implies chunk_ok(#[trigger] r.0[i], max) by {
                if i < chunks1.len() {
                    assert(r.0[i] == chunks1[i]);
                }
            }
            if max > 0 {
                assert forall|i: int| 0 <= i < r.0.len() implies (#[trigger] r.0[i]).len() > 0 by {
                    if i < chunks1.len() {
                        assert(r.0[i] == chunks1[i]);
                    }
                }
            }
        }
    }
}

/// Every chunk of a text is at most `max` bytes long, unless it is one
/// line that is longer by itself; with a positive `max`, no chunk is empty.
pub proof fn lemma_split_chunks_sizes(text: Seq<char>, max: nat)
    ensures
        forall|i: int|
            0 <= i < split_chunks_spec(text, max).len() ==> chunk_ok(#[trigger] split_chunks_spec(text, max)[i], max),
        max > 0 ==> forall|i: int|
            0 <= i < split_chunks_spec(text, max).len() ==> (#[trigger] split_chunks_spec(text, max)[i]).len() > 0,
{
    lemma_lines_one_line(text);
    lemma_chunk_fold_ok(lines_of(text), max);
    let st = chunk_fold(lines_of(text), max);
    let r = split_chunks_spec(text, max);
    if st.1.len() > 0 {
        assert(r == st.0.push(st.1));
        assert forall|i: int| 0 <= i < r.len() implies chunk_ok(#[trigger] r[i], max) by {
            if i < st.0.len() {
                assert(r[i] == st.0[i]);
            }
        }
        if max > 0 {
            assert forall|i: int| 0 <= i < r.len() implies (#[trigger] r[i]).len() > 0 by {
                if i < st.0.len() {
                    assert(r[i] == st.0[i]);
                }
            }
        }
    }
}

/// The chunks that a cutting state stands for: the closed ones, then the
/// open one when it is not empty.
pub open spec fn chunks_of_state(st: (Seq<Seq<char>>, Seq<char>)) -> Seq<Seq<char>> {
    if st.1.len() > 0 {
        st.0.push(st.1)
    } else {
        st.0
    }
}

proof fn lemma_join_push(v: Seq<Seq<char>>, x: Seq<char>, sep: Seq<char>)
    ensures
        join(v.push(x), sep) == if v.len() == 0 {
            x
        } else {
            join(v, sep) + sep + x
        },
{
    assert(v.push(x).drop_last() =~= v);
    if v.len() == 0 {
        assert(v.push(x)[0] == x);
    }
}

proof fn lemma_fold_lossless(lines: Seq<Seq<char>>, max: nat)
    requires
        max > 0,
        forall|i: int| 0 <= i < lines.len() ==> (#[trigger] lines[i]).len() > 0,
    ensures
        join(chunks_of_state(chunk_fold(lines, max)), seq!['\n']) == join(lines, seq!['\n']),
        lines.len() > 0 ==> chunks_of_state(chunk_fold(lines, max)).len() > 0,
    decreases lines.len(),
{
    let nl = seq!['\n'];
    if lines.len() > 0 {
        let prev = lines.drop_last();
        assert forall|i: int| 0 <= i < prev.len() implies (#[trigger] prev[i]).len() > 0 by {
            assert(prev[i] == lines[i]);
        }
        lemma_fold_lossless(prev, max);
        let st = chunk_fold(prev, max);
        let line = lines.last();
        assert(line.len() > 0) by {
            assert(line == lines[lines.len() - 1]);
        }
        assert(lines =~= prev.push(line));
        lemma_join_push(prev, line, nl);
        let cur = st.1;
        let flush = cur.len() > 0 && utf8_len(cur) + utf8_len(line) + 1 > max;
        let chunks1 = if flush { st.0.push(cur) } else { st.0 };
        let cur1 = if flush { Seq::<char>::empty() } else { cur };
        let cur2 = if cur1.len() > 0 { cur1.push('\n') + line } else { line };
        // The state after the first flush stands for the same chunks.
        assert(chunks_of_state((chunks1, cur1)) == chunks_of_state(st));
        let before = chunks_of_state(st);
        let after = chunks_of_state((chunks1, cur2));
        if cur1.len() > 0 {
            assert(before == chunks1.push(cur1));
            assert(after == chunks1.push(cur2));
            lemma_join_push(chunks1, cur1, nl);
            lemma_join_push(chunks1, cur2, nl);
            assert(cur2 =~= cur1 + nl + line);
            assert(join(after, nl) =~= join(before, nl) + nl + line);
            assert(prev.len() > 0);
        } else {
            assert(before == chunks1);
            assert(after == chunks1.push(line));
            lemma_join_push(chunks1, line, nl);
            if chunks1.len() == 0 {
                if prev.len() > 0 {
                    assert(false);
                }
            } else {
                if prev.len() == 0 {
                    assert(chunk_fold(prev, max) == (Seq::<Seq<char>>::empty(), Seq::<char>::empty()));
                    assert(false);
                }
            }
        }
        assert(join(after, nl) == join(lines, nl));
        let r = add_line(st, line, max);
        assert(r == chunk_fold(lines, max));
        if utf8_len(cur2) >= max {
            assert(r == (chunks1.push(cur2), Seq::<char>::empty()));
            assert(cur2.len() > 0);
            assert(chunks_of_state(r) == after);
        } else {
            assert(r == (chunks1, cur2));
            assert(cur2.len() > 0);
            assert(chunks_of_state(r) == after);
        }
    }
}

/// With a positive size and no empty line, cutting loses nothing: the
/// chunks joined by line feeds are the lines joined by line feeds.
pub proof fn lemma_split_chunks_lossless(text: Seq<char>, max: nat)
    requires
        max > 0,
        forall|i: int| 0 <= i < lines_of(text).len() ==> (#[trigger] lines_of(text)[i]).len() > 0,
    ensures
        join(split_chunks_spec(text, max), seq!['\n']) == join(lines_of(text), seq!['\n']),
{
    lemma_fold_lossless(lines_of(text), max);
    assert(split_chunks_spec(text, max) == chunks_of_state(chunk_fold(lines_of(text), max)));
}

/// The pieces of `c` between its line feeds (`str::split('\n')`): one
/// more piece than there are line feeds.
pub open spec fn split_nl(c: Seq<char>) -> Seq<Seq<char>>
    decreases c.len(),
{
    if c.len() == 0 {
        seq![seq![]]
    } else if c.last() == '\n' {
        split_nl(c.drop_last()).push(seq![])
    } else {
        let s = split_nl(c.drop_last());
        s.update(s.len() - 1, s.last().push(c.last()))
    }
}

/// The lines of the chunks, chunk after chunk.
pub open spec fn lines_in(chunks: Seq<Seq<char>>) -> Seq<Seq<char>>
    decreases chunks.len(),
{
    if chunks.len() == 0 {
        seq![]
    } else {
        lines_in(chunks.drop_last()) + split_nl(chunks.last())
    }
}

/// `ls` without its empty lines.
pub open spec fn drop_empty(ls: Seq<Seq<char>>) -> Seq<Seq<char>>
    decreases ls.len(),
{
    if ls.len() == 0 {
        seq![]
    } else if ls.last().len() > 0 {
        drop_empty(ls.drop_last()).push(ls.last())
    } else {
        drop_empty(ls.drop_last())
    }
}

proof fn lemma_split_nl_len(c: Seq<char>)
    ensures
        split_nl(c).len() >= 1,
    decreases c.len(),
{
    if c.len() > 0 {
        lemma_split_nl_len(c.drop_last());
    }
}

/// A line feed then one line adds that line as a piece of its own.
proof fn lemma_split_nl_append(a: Seq<char>, b: Seq<char>)
    requires
        one_line(b),
    ensures
        split_nl(a.push('\n') + b) == split_nl(a).push(b),
    decreases b.len(),
{
    let c = a.push('\n') + b;
    if b.len() == 0 {
        assert(c =~= a.push('\n'));
        assert(c.drop_last() =~= a);
        assert(c.last() == '\n');
        assert(b =~= Seq::<char>::empty());
    } else {
        let b1 = b.drop_last();
        assert(one_line(b1)) by {
            assert forall|i: int| 0 <= i < b1.len() implies b1[i] != '\n' by {
                assert(b1[i] == b[i]);
            }
        }
        lemma_split_nl_append(a, b1);
        assert(c.drop_last() =~= a.push('\n') + b1);
        assert(c.last() == b.last());
        assert(b.last() == b[b.len() - 1]);
        assert(b1.push(b.last()) =~= b);
        assert(split_nl(c) =~= split_nl(a).push(b));
    }
}

/// A single line is a single piece.
proof fn lemma_split_nl_one(b: Seq<char>)
    requires
        one_line(b),
    ensures
        split_nl(b) == seq![b],
    decreases b.len(),
{
    if b.len() > 0 {
        let b1 = b.drop_last();
        assert(one_line(b1)) by {
            assert forall|i: int| 0 <= i < b1.len() implies b1[i] != '\n' by {
                assert(b1[i] == b[i]);
            }
        }
        lemma_split_nl_one(b1);
        assert(b.last() == b[b.len() - 1]);
        assert(b1.push(b.last()) =~= b);
        assert(split_nl(b) =~= seq![b]);
    } else {
        assert(b =~= Seq::<char>::empty());
    }
}

proof fn lemma_drop_empty_concat(a: Seq<Seq<char>>, b: Seq<Seq<char>>)
    ensures
        drop_empty(a + b) == drop_empty(a) + drop_empty(b),
    decreases b.len(),
{
    if b.len() == 0 {
        assert(a + b =~= a);
        assert(drop_empty(a) + drop_empty(b) =~= drop_empty(a));
    } else {
        lemma_drop_empty_concat(a, b.drop_last());
        assert((a + b).drop_last() =~= a + b.drop_last());
        assert((a + b).last() == b.last());
        if b.last().len() > 0 {
            assert(drop_empty(a) + drop_empty(b.drop_last()).push(b.last()) =~= (drop_empty(a)
                + drop_empty(b.drop_last())).push(b.last()));
        }
    }
}

/// The non-empty lines of one more chunk come after those of the others.
proof fn lemma_lines_in_push(cs: Seq<Seq<char>>, x: Seq<char>)
    ensures
        drop_empty(lines_in(cs.push(x))) == drop_empty(lines_in(cs)) + drop_empty(split_nl(x)),
{
    assert(cs.push(x).drop_last() =~= cs);
    lemma_drop_empty_concat(lines_in(cs), split_nl(x));
}

/// The non-empty pieces of one line: the line itself unless it is empty.
proof fn lemma_drop_empty_line(line: Seq<char>)
    requires
        one_line(line),
    ensures
        drop_empty(split_nl(line)) == if line.len() > 0 {
            seq![line]
        } else {
            Seq::<Seq<char>>::empty()
        },
{
    lemma_split_nl_one(line);
    let s = seq![line];
    assert(s.drop_last() =~= Seq::<Seq<char>>::empty());
    assert(s.last() == line);
    assert(s.len() == 1);
    assert(drop_empty(Seq::<Seq<char>>::empty()) == Seq::<Seq<char>>::empty());
    assert(drop_empty(s.drop_last()) == Seq::<Seq<char>>::empty());
    if line.len() > 0 {
        assert(drop_empty(s) =~= seq![line]);
    } else {
        assert(drop_empty(s) =~= Seq::<Seq<char>>::empty());
    }
}

proof fn lemma_fold_keeps_lines(lines: Seq<Seq<char>>, max: nat)
    requires
        forall|i: int| 0 <= i < lines.len() ==> one_line(#[trigger] lines[i]),
    ensures
        drop_empty(lines_in(chunks_of_state(chunk_fold(lines, max)))) == drop_empty(lines),
    decreases lines.len(),
{
    if lines.len() > 0 {
        let prev = lines.drop_last();
        assert forall|i: int| 0 <= i < prev.len() implies one_line(#[trigger] prev[i]) by {
            assert(prev[i] == lines[i]);
        }
        lemma_fold_keeps_lines(prev, max);
        let st = chunk_fold(prev, max);
        let line = lines.last();
        assert(one_line(line)) by {
            assert(line == lines[lines.len() - 1]);
        }
        let cur = st.1;
        let flush = cur.len() > 0 && utf8_len(cur) + utf8_len(line) + 1 > max;
        let chunks1 = if flush { st.0.push(cur) } else { st.0 };
        let cur1 = if flush { Seq::<char>::empty() } else { cur };
        let cur2 = if cur1.len() > 0 { cur1.push('\n') + line } else { line };
        let r = add_line(st, line, max);
        assert(r == chunk_fold(lines, max));
        let dl = drop_empty(split_nl(line));
        lemma_drop_empty_line(line);
        // What the final state stands for: the chunks so far, then `cur2`.
        lemma_lines_in_push(chunks1, cur2);
        assert(drop_empty(lines_in(chunks_of_state(r))) == drop_empty(lines_in(chunks1))
            + drop_empty(split_nl(cur2))) by {
            if utf8_len(cur2) < max && cur2.len() == 0 {
                assert(cur2 =~= Seq::<char>::empty());
                assert(split_nl(cur2) =~= seq![Seq::<char>::empty()]);
                assert(seq![Seq::<char>::empty()].drop_last() =~= Seq::<Seq<char>>::empty());
                assert(drop_empty(split_nl(cur2)) =~= Seq::<Seq<char>>::empty());
                assert(drop_empty(lines_in(chunks1)) + drop_empty(split_nl(cur2)) =~= drop_empty(
                    lines_in(chunks1),
                ));
            }
        }
        lemma_split_nl_one(line);
        assert(drop_empty(seq![line]) == dl);
        if cur1.len() > 0 {
            lemma_split_nl_append(cur1, line);
            assert(split_nl(cur1).push(line) =~= split_nl(cur1) + seq![line]);
            lemma_drop_empty_concat(split_nl(cur1), seq![line]);
            assert(chunks1 == st.0);
            assert(chunks_of_state(st) == st.0.push(cur));
            lemma_lines_in_push(st.0, cur);
            assert(drop_empty(lines_in(chunks_of_state(r))) == drop_empty(prev) + dl);
        } else if flush {
            assert(chunks_of_state(st) == st.0.push(cur));
            assert(cur2 == line);
            assert(drop_empty(lines_in(chunks_of_state(r))) == drop_empty(prev) + dl);
        } else {
            assert(chunks_of_state(st) == st.0);
            assert(cur2 == line);
            assert(drop_empty(lines_in(chunks_of_state(r))) == drop_empty(prev) + dl);
        }
        assert(lines =~= prev + seq![line]);
        lemma_drop_empty_concat(prev, seq![line]);
        assert(drop_empty(lines_in(chunks_of_state(r))) =~= drop_empty(lines));
    }
}

/// Cutting loses and reorders no line with text in it: the non-empty
/// lines of the chunks, in order, are the non-empty lines of the text
/// (for any text and any size; only empty lines at a chunk's edge go).
pub proof fn lemma_split_chunks_keeps_lines(text: Seq<char>, max: nat)
    ensures
        drop_empty(lines_in(split_chunks_spec(text, max))) == drop_empty(lines_of(text)),
{
    lemma_lines_one_line(text);
    lemma_fold_keeps_lines(lines_of(text), max);
    assert(split_chunks_spec(text, max) == chunks_of_state(chunk_fold(lines_of(text), max)));
}

/// Bytes that `c` takes in UTF-8.
fn utf8_width_of(c: char) -> (w: u128)
    ensures
        w == utf8_width(c),
{
    if (c as u32) < 0x80 {
        1
    } else if (c as u32) < 0x800 {
        2
    } else if (c as u32) < 0x10000 {
        3
    } else {
        4
    }
}

/// UTF-8 length of the characters of `v`.
fn utf8_len_of(v: &Vec<char>) -> (n: u128)
    ensures
        n == utf8_len(v@),
        n <= 4 * v@.len(),
{
    let mut n: u128 = 0;
    let mut i: usize = 0;
    while i < v.len()
        invariant
            i <= v@.len(),
            n == utf8_len(v@.take(i as int)),
            n <= 4 * i,
        decreases v@.len() - i,
    {
        proof {
            assert(v@.take(i + 1).drop_last() =~= v@.take(i as int));
        }
        n = n + utf8_width_of(v[i]);
        i = i + 1;
    }
    proof {
        assert(v@.take(v@.len() as int) =~= v@);
    }
    n
}

/// Appends the characters of `b` to `a`.
fn append_chars(a: &mut Vec<char>, b: &Vec<char>)
    ensures
        final(a)@ == old(a)@ + b@,
{
    let ghost a0 = a@;
    let mut i: usize = 0;
    while i < b.len()
        invariant
            i <= b@.len(),
            a@ == a0 + b@.take(i as int),
        decreases b@.len() - i,
    {
        a.push(b[i]);
        i = i + 1;
        proof {
            assert(a@ =~= a0 + b@.take(i as int));
        }
    }
    proof {
        assert(b@.take(b@.len() as int) =~= b@);
    }
}

/// The characters `v[from..to]`, without one trailing carriage return
/// when `strip` holds.
fn line_at(v: &Vec<char>, from: usize, to: usize, strip: bool) -> (r: Vec<char>)
    requires
        from <= to <= v@.len(),
    ensures
        r@ == (if strip {
            strip_cr(v@.subrange(from as int, to as int))
        } else {
            v@.subrange(from as int, to as int)
        }),
{
    let end = if strip && to > from && v[to - 1] == '\r' {
        to - 1
    } else {
        to
    };
    let mut r: Vec<char> = Vec::new();
    let mut i = from;
    while i < end
        invariant
            from <= i <= end <= to <= v@.len(),
            r@ == v@.subrange(from as int, i as int),
        decreases end - i,
    {
        r.push(v[i]);
        i = i + 1;
        proof {
            assert(r@ =~= v@.subrange(from as int, i as int));
        }
    }
    proof {
        if to > from {
            assert(v@.subrange(from as int, to as int).drop_last() =~= v@.subrange(
                from as int,
                to - 1,
            ));
        }
    }
    r
}

proof fn lemma_utf8_len_push(s: Seq<char>, c: char)
    ensures
        utf8_len(s.push(c)) == utf8_len(s) + utf8_width(c),
{
    assert(s.push(c).drop_last() =~= s);
}

/// When no line is longer than `max` bytes, no chunk is either.
proof fn lemma_chunk_fold_within(lines: Seq<Seq<char>>, max: nat)
    requires
        forall|i: int| 0 <= i < lines.len() ==> utf8_len(#[trigger] lines[i]) <= max,
    ensures
        forall|i: int|
            0 <= i < chunk_fold(lines, max).0.len() ==> utf8_len(#[trigger] chunk_fold(lines, max).0[i]) <= max,
        utf8_len(chunk_fold(lines, max).1) <= max,
    decreases lines.len(),
{
    if lines.len() > 0 {
        let prev = lines.drop_last();
        assert forall|i: int| 0 <= i < prev.len() implies utf8_len(#[trigger] prev[i]) <= max by {
            assert(prev[i] == lines[i]);
        }
        lemma_chunk_fold_within(prev, max);
        let st = chunk_fold(prev, max);
        let line = lines.last();
        assert(utf8_len(line) <= max) by {
            assert(line == lines[lines.len() - 1]);
        }
        let cur = st.1;
        let flush = cur.len() > 0 && utf8_len(cur) + utf8_len(line) + 1 > max;
        let chunks1 = if flush { st.0.push(cur) } else { st.0 };
        let cur1 = if flush { Seq::<char>::empty() } else { cur };
        let cur2 = if cur1.len() > 0 { cur1.push('\n') + line } else { line };
        if cur1.len() > 0 {
            lemma_utf8_len_push(cur1, '\n');
            lemma_utf8_len_concat(cur1.push('\n'), line);
        }
        assert(utf8_len(cur2) <= max);
        assert forall|i: int| 0 <= i < chunks1.len() implies utf8_len(#[trigger] chunks1[i]) <= max by {
            if i < st.0.len() {
                assert(chunks1[i] == st.0[i]);
            }
        }
        let r = add_line(st, line, max);
        assert(r == chunk_fold(lines, max));
        if utf8_len(cur2) >= max {
            assert forall|i: int| 0 <= i < r.0.len() implies utf8_len(#[trigger] r.0[i]) <= max by {
                if i < chunks1.len() {
                    assert(r.0[i] == chunks1[i]);
                }
            }
            assert(utf8_len(r.1) == 0);
        }
    }
}

/// The chunk law: with a positive size and no line longer than it, every
/// chunk is non-empty and at most `max` bytes, and the non-empty lines of
/// the text are all kept, in order.
pub proof fn lemma_split_chunks_law(text: Seq<char>, max: nat)
    requires
        max > 0,
        forall|i: int| 0 <= i < lines_of(text).len() ==> utf8_len(#[trigger] lines_of(text)[i]) <= max,
    ensures
        forall|i: int| 0 <= i < split_chunks_spec(text, max).len() ==> {
            let c = #[trigger] split_chunks_spec(text, max)[i];
            c.len() > 0 && utf8_len(c) <= max
        },
        drop_empty(lines_in(split_chunks_spec(text, max))) == drop_empty(lines_of(text)),
{
    lemma_split_chunks_sizes(text, max);
    lemma_split_chunks_keeps_lines(text, max);
    lemma_chunk_fold_within(lines_of(text), max);
    let st = chunk_fold(lines_of(text), max);
    let r = split_chunks_spec(text, max);
    assert forall|i: int| 0 <= i < r.len() implies utf8_len(#[trigger] r[i]) <= max by {
        if i < st.0.len() {
            assert(r[i] == st.0[i]);
        }
    }
}


/// Cuts `text` at line boundaries into chunks of at most `max` UTF-8 bytes
/// (a single longer line becomes a chunk of its own).
pub fn split_chunks(text: &str, max: usize) -> (r: Vec<String>)
    ensures
        views(r@) == split_chunks_spec(text@, max as nat),
{
    let v = chars_of(text);
    let mut chunks: Vec<String> = Vec::new();
    let mut cur: Vec<char> = Vec::new();
    let mut cur_bytes: u128 = 0;
    let mut p: usize = 0;
    let ghost mut done: Seq<Seq<char>> = seq![];
    proof {
        assert(v@.skip(0) =~= v@);
        assert(views(chunks@) =~= Seq::<Seq<char>>::empty());
    }
    while p < v.len()
        invariant
            p <= v@.len(),
            v@ == text@,
            lines_of(text@) == done + lines_of(v@.skip(p as int)),
            (views(chunks@), cur@) == chunk_fold(done, max as nat),
            cur_bytes == utf8_len(cur@),
            cur_bytes <= max,
        decreases v@.len() - p,
    {
        let ghost rest = v@.skip(p as int);
        proof {
            lemma_find_char(rest, '\n');
        }
        let q = match find_char_from(&v, '\n', p) {
            Some(q) => q,
            None => v.len(),
        };
        let line = line_at(&v, p, q, q < v.len());
        proof {
            assert(v@.subrange(p as int, q as int) =~= rest.take(q - p));
            assert(rest.len() > 0);
            if q < v@.len() {
                assert(rest.skip(q - p + 1) =~= v@.skip(q + 1));
            } else {
                assert(rest.take(q - p) =~= rest);
            }
            assert(lines_of(rest) == seq![line@] + (if q < v@.len() {
                lines_of(v@.skip(q + 1))
            } else {
                seq![]
            }));
        }
        let line_bytes = utf8_len_of(&line);
        let ghost st = chunk_fold(done, max as nat);
        let ghost done2 = done.push(line@);
        let ghost flush = st.1.len() > 0 && utf8_len(st.1) + utf8_len(line@) + 1 > max;
        proof {
            assert(done2.drop_last() =~= done);
            assert(chunk_fold(done2, max as nat) == add_line(st, line@, max as nat));
        }
        if cur.len() > 0 && cur_bytes + line_bytes + 1 > max as u128 {
            let closed = string_from_chars(&cur);
            let ghost c0 = chunks@;
            chunks.push(closed);
            proof {
                lemma_views_push(c0, closed);
            }
            cur = Vec::new();
            cur_bytes = 0;
        }
        let ghost chunks1 = views(chunks@);
        let ghost cur1 = cur@;
        proof {
            assert(chunks1 == (if flush { st.0.push(st.1) } else { st.0 }));
            assert(cur1 == (if flush { Seq::<char>::empty() } else { st.1 }));
        }
        if cur.len() > 0 {
            let ghost c0 = cur@;
            cur.push('\n');
            proof {
                lemma_utf8_len_push(c0, '\n');
            }
            cur_bytes = cur_bytes + 1;
        }
        let ghost before = cur@;
        append_chars(&mut cur, &line);
        proof {
            lemma_utf8_len_concat(before, line@);
            lemma_utf8_len_bound(line@);
            if cur1.len() == 0 {
                assert(cur@ =~= line@);
            }
        }
        cur_bytes = cur_bytes + line_bytes;
        if cur_bytes >= max as u128 {
            let closed = string_from_chars(&cur);
            let ghost c0 = chunks@;
            chunks.push(closed);
            proof {
                lemma_views_push(c0, closed);
            }
            cur = Vec::new();
            cur_bytes = 0;
        }
        proof {
            done = done2;
            assert(lines_of(text@) == done + lines_of(v@.skip(if q < v@.len() { q + 1 } else { q as int })));
        }
        p = if q < v.len() {
            q + 1
        } else {
            v.len()
        };
    }
    if cur.len() > 0 {
        chunks.push(string_from_chars(&cur));
    }
    chunks
}

/// "Ask a chat model": a system prompt and a user message in, the text of
/// the reply out.
pub trait ChatBackend {
    /// Whether `reply` is an outcome that this backend may give for the
    /// system prompt `system` and the user message `user`.
    open spec fn replies(&self, system: Seq<char>, user: Seq<char>, reply: AppResult<String>) -> bool {
        true
    }

    /// Sends one request and returns the text of the reply.
    fn chat(&self, system: &str, user: &str) -> (r: AppResult<String>)
        ensures
            self.replies(system@, user@, r),
    ;
}

/// A one-pass structured summary of a conversation.
pub fn summarize<B: ChatBackend>(backend: &B, transcript_text: &str) -> (r: AppResult<String>)
    ensures
        backend.replies(SUMMARIZE_SYSTEM@, transcript_text@, r),
{
    backend.chat(SUMMARIZE_SYSTEM, transcript_text)
}

/// A brief summary (TL;DR) in a few sentences, in one pass.
pub fn brief_summary<B: ChatBackend>(backend: &B, transcript_text: &str) -> (r: AppResult<String>)
    ensures
        backend.replies(BRIEF_SYSTEM@, transcript_text@, r),
{
    backend.chat(BRIEF_SYSTEM, transcript_text)
}

/// An analysis of the conversation, in one pass.
pub fn analyze<B: ChatBackend>(backend: &B, transcript_text: &str) -> (r: AppResult<String>)
    ensures
        backend.replies(ANALYZE_SYSTEM@, transcript_text@, r),
{
    backend.chat(ANALYZE_SYSTEM, transcript_text)
}

/// The transcript rewritten as coherent prose, in one pass.
pub fn to_literary_text<B: ChatBackend>(backend: &B, transcript_text: &str) -> (r: AppResult<
    String,
>)
    ensures
        backend.replies(LITERARY_SYSTEM@, transcript_text@, r),
{
    backend.chat(LITERARY_SYSTEM, transcript_text)
}

/// The user message of a question about a transcript.
pub open spec fn question_message(transcript_text: Seq<char>, question: Seq<char>) -> Seq<char> {
    "Расшифровка:\n"@ + transcript_text + "\n\nВопрос: "@ + question
}

/// The answer to a user's question about the transcript.
pub fn answer_question<B: ChatBackend>(backend: &B, transcript_text: &str, question: &str) -> (r:
    AppResult<String>)
    ensures
        backend.replies(ANSWER_SYSTEM@, question_message(transcript_text@, question@), r),
{
    let mut user = string_of("Расшифровка:\n");
    push_str(&mut user, transcript_text);
    push_str(&mut user, "\n\nВопрос: ");
    push_str(&mut user, question);
    proof {
        assert(user@ =~= question_message(transcript_text@, question@));
    }
    backend.chat(ANSWER_SYSTEM, user.as_str())
}

/// The body of the prompt of report kind `kind`, if the kind is known.
pub open spec fn report_body(kind: Seq<char>) -> Option<Seq<char>> {
    if kind == "summary"@ {
        Some(PROMPT_SUMMARY@)
    } else if kind == "tasks"@ {
        Some(PROMPT_TASKS@)
    } else if kind == "analysis"@ {
        Some(PROMPT_ANALYSIS@)
    } else if kind == "literary"@ {
        Some(PROMPT_LITERARY@)
    } else if kind == "followup"@ {
        Some(PROMPT_FOLLOWUP@)
    } else if kind == "agent"@ {
        Some(PROMPT_AGENT@)
    } else {
        None
    }
}

/// The system prompt of report kind `kind`: its body, a blank line, then
/// the rules shared by all reports.
pub open spec fn report_prompt_spec(kind: Seq<char>) -> Option<Seq<char>> {
    match report_body(kind) {
        Some(body) => Some(body + "\n\n"@ + RULES@),
        None => None,
    }
}

/// Every known report kind has a prompt, and every report prompt ends
/// with the rules shared by all reports (rely only on the transcript,
/// invent nothing); `brief` is no report kind of its own.
pub proof fn lemma_report_prompts_carry_rules(kind: Seq<char>)
    ensures
        report_prompt_spec(kind) matches Some(p) ==> ends_with(p, RULES@),
        (kind == "summary"@ || kind == "tasks"@ || kind == "analysis"@ || kind == "literary"@
            || kind == "followup"@ || kind == "agent"@) ==> report_prompt_spec(kind) is Some,
{
    if let Some(p) = report_prompt_spec(kind) {
        let body = report_body(kind)->0;
        assert(p == body + "\n\n"@ + RULES@);
        assert(p.skip(p.len() - RULES@.len()) =~= RULES@);
    }
}

/// The system prompt of report kind `kind`, or `None` for an unknown kind.
pub fn report_prompt(kind: &str) -> (r: Option<String>)
    ensures
        opt_view(r) == report_prompt_spec(kind@),
{
    let body: &str = if str_eq(kind, "summary") {
        PROMPT_SUMMARY
    } else if str_eq(kind, "tasks") {
        PROMPT_TASKS
    } else if str_eq(kind, "analysis") {
        PROMPT_ANALYSIS
    } else if str_eq(kind, "literary") {
        PROMPT_LITERARY
    } else if str_eq(kind, "followup") {
        PROMPT_FOLLOWUP
    } else if str_eq(kind, "agent") {
        PROMPT_AGENT
    } else {
        return None;
    };
    let mut r = string_of(body);
    push_str(&mut r, "\n\n");
    push_str(&mut r, RULES);
    proof {
        assert(r@ =~= body@ + "\n\n"@ + RULES@);
    }
    Some(r)
}

/// The human title of report kind `kind` (for export headings and errors).
pub open spec fn report_title_spec(kind: Seq<char>) -> Seq<char> {
    if kind == "summary"@ {
        "Итоги встречи"@
    } else if kind == "tasks"@ {
        "Задачи"@
    } else if kind == "analysis"@ {
        "Разбор разговора"@
    } else if kind == "literary"@ {
        "Чистовой текст"@
    } else if kind == "followup"@ {
        "Письмо по итогам"@
    } else if kind == "agent"@ {
        "Инструкция для ИИ"@
    } else if kind == "brief"@ {
        "Краткое резюме"@
    } else {
        "Отчёт"@
    }
}

/// The human title of a report kind.
pub fn report_title(kind: &str) -> (r: &'static str)
    ensures
        r@ == report_title_spec(kind@),
{
    if str_eq(kind, "summary") {
        "Итоги встречи"
    } else if str_eq(kind, "tasks") {
        "Задачи"
    } else if str_eq(kind, "analysis") {
        "Разбор разговора"
    } else if str_eq(kind, "literary") {
        "Чистовой текст"
    } else if str_eq(kind, "followup") {
        "Письмо по итогам"
    } else if str_eq(kind, "agent") {
        "Инструкция для ИИ"
    } else if str_eq(kind, "brief") {
        "Краткое резюме"
    } else {
        "Отчёт"
    }
}

/// Meeting context for the model: its title and participants (when set)
/// and the speaker names that the user gave.
#[derive(Debug, Clone, Default, PartialEq)]
pub struct MeetingContext {
    pub title: String,
    pub participants: String,
    /// Speaker names set by the user: id ("me", "spk0", …) and name; for
    /// an id given twice the first pair counts.
    pub names: Vec<(String, String)>,
}

/// A header line `label value` when the trimmed value is not empty.
pub open spec fn header_line(label: Seq<char>, value: Seq<char>) -> Seq<char> {
    if trim(value).len() > 0 {
        label + trim(value) + "\n"@
    } else {
        seq![]
    }
}

impl MeetingContext {
    /// The header that the context puts before a request.
    pub open spec fn header_spec(&self) -> Seq<char> {
        header_line("Встреча: "@, self.title@) + header_line("Участники: "@, self.participants@)
    }

    /// The header lines "Встреча: …" and "Участники: …" for the fields
    /// that are set.
    pub fn header(&self) -> (r: String)
        ensures
            r@ == self.header_spec(),
    {
        let mut h = String::new();
        let t = trim_string(self.title.as_str());
        if !is_blank_str(t.as_str()) {
            push_str(&mut h, "Встреча: ");
            push_str(&mut h, t.as_str());
            push_str(&mut h, "\n");
        }
        let p = trim_string(self.participants.as_str());
        if !is_blank_str(p.as_str()) {
            push_str(&mut h, "Участники: ");
            push_str(&mut h, p.as_str());
            push_str(&mut h, "\n");
        }
        proof {
            crate::text::lemma_trim_empty_iff_blank(t@);
            crate::text::lemma_trim_empty_iff_blank(p@);
            crate::text::lemma_trim_idempotent(self.title@);
            crate::text::lemma_trim_idempotent(self.participants@);
            assert(h@ =~= self.header_spec());
        }
        h
    }
}

/// The line of one segment: the speaker's label, a colon, the text.
pub open spec fn segment_line<T>(s: TranscriptSegment<T>) -> Seq<char> {
    speaker_label_of(s.speaker@) + ": "@ + s.text@
}

/// Whether every speaker of the segments has a label.
pub open spec fn all_labelable<T>(segs: Seq<TranscriptSegment<T>>) -> bool {
    forall|i: int| 0 <= i < segs.len() ==> labelable(#[trigger] segs[i].speaker@)
}

/// The transcript as plain text for the model: one "label: text" line
/// per segment.
pub fn transcript_to_text<T>(transcript: &Transcript<T>) -> (r: String)
    requires
        all_labelable(transcript.segments@),
    ensures
        r@ == join(transcript.segments@.map_values(|s: TranscriptSegment<T>| segment_line(s)), "\n"@),
{
    let segs = &transcript.segments;
    let ghost lines = segs@.map_values(|s: TranscriptSegment<T>| segment_line(s));
    let mut r = String::new();
    let mut i: usize = 0;
    while i < segs.len()
        invariant
            i <= segs@.len(),
            lines == segs@.map_values(|s: TranscriptSegment<T>| segment_line(s)),
            all_labelable(segs@),
            r@ == join(lines.take(i as int), "\n"@),
        decreases segs@.len() - i,
    {
        proof {
            assert(lines.take(i + 1).drop_last() =~= lines.take(i as int));
            assert(labelable(segs@[i as int].speaker@));
        }
        if i > 0 {
            push_str(&mut r, "\n");
        }
        let label = speaker_label(segs[i].speaker.as_str());
        push_str(&mut r, label.as_str());
        push_str(&mut r, ": ");
        push_str(&mut r, segs[i].text.as_str());
        i = i + 1;
        proof {
            assert(r@ =~= join(lines.take(i as int), "\n"@));
        }
    }
    proof {
        assert(lines.take(segs@.len() as int) =~= lines);
    }
    r
}


/// The name given to speaker `id` in `names` (the first pair with that id).
pub open spec fn lookup_name(names: Seq<(String, String)>, id: Seq<char>) -> Option<Seq<char>>
    decreases names.len(),
{
    if names.len() == 0 {
        None
    } else if names[0].0@ == id {
        Some(names[0].1@)
    } else {
        lookup_name(names.drop_first(), id)
    }
}

/// How speaker `id` is shown: the user's name for it when that is not
/// blank (trimmed), else its label.
pub open spec fn display_name(names: Seq<(String, String)>, id: Seq<char>) -> Seq<char> {
    match lookup_name(names, id) {
        Some(n) => if trim(n).len() > 0 {
            trim(n)
        } else {
            speaker_label_of(id)
        },
        None => speaker_label_of(id),
    }
}

/// The lines of the named text of `segs` and the speaker of the last line:
/// blank texts are skipped, a text of the same speaker as the line before
/// is appended to it after a space, any other starts a line "name: text".
pub open spec fn named_fold<T>(segs: Seq<TranscriptSegment<T>>, names: Seq<(String, String)>) -> (
    Seq<Seq<char>>,
    Option<Seq<char>>,
)
    decreases segs.len(),
{
    if segs.len() == 0 {
        (seq![], None)
    } else {
        let prev = named_fold(segs.drop_last(), names);
        let s = segs.last();
        let text = trim(s.text@);
        if text.len() == 0 {
            prev
        } else if prev.1 == Some(s.speaker@) && prev.0.len() > 0 {
            (prev.0.update(prev.0.len() - 1, prev.0.last() + " "@ + text), prev.1)
        } else {
            (prev.0.push(display_name(names, s.speaker@) + ": "@ + text), Some(s.speaker@))
        }
    }
}

proof fn lemma_lookup_first(names: Seq<(String, String)>, id: Seq<char>, i: int)
    requires
        0 <= i < names.len(),
        names[i].0@ == id,
        forall|k: int| 0 <= k < i ==> (#[trigger] names[k]).0@ != id,
    ensures
        lookup_name(names, id) == Some(names[i].1@),
    decreases i,
{
    if i > 0 {
        let d = names.drop_first();
        assert forall|k: int| 0 <= k < i - 1 implies (#[trigger] d[k]).0@ != id by {
            assert(d[k] == names[k + 1]);
        }
        assert(names[0].0@ != id);
        lemma_lookup_first(d, id, i - 1);
    }
}

proof fn lemma_lookup_none(names: Seq<(String, String)>, id: Seq<char>)
    requires
        forall|k: int| 0 <= k < names.len() ==> (#[trigger] names[k]).0@ != id,
    ensures
        lookup_name(names, id) is None,
    decreases names.len(),
{
    if names.len() > 0 {
        let d = names.drop_first();
        assert forall|k: int| 0 <= k < d.len() implies (#[trigger] d[k]).0@ != id by {
            assert(d[k] == names[k + 1]);
        }
        assert(names[0].0@ != id);
        lemma_lookup_none(d, id);
    }
}

/// How a speaker is named in the text for the model: by the first pair of
/// `names` with its id, trimmed, unless that name is blank; by its label
/// when the name is blank or there is none. A speaker with an id is never
/// shown without a name.
pub proof fn lemma_display_name(names: Seq<(String, String)>, id: Seq<char>, i: int)
    ensures
        0 <= i < names.len() && names[i].0@ == id && (forall|k: int|
            0 <= k < i ==> (#[trigger] names[k]).0@ != id) ==> display_name(names, id) == if is_blank(
            names[i].1@,
        ) {
            speaker_label_of(id)
        } else {
            trim(names[i].1@)
        },
        (forall|k: int| 0 <= k < names.len() ==> (#[trigger] names[k]).0@ != id) ==> display_name(
            names,
            id,
        ) == speaker_label_of(id),
        id.len() > 0 ==> display_name(names, id).len() > 0,
{
    if 0 <= i < names.len() && names[i].0@ == id && (forall|k: int|
        0 <= k < i ==> (#[trigger] names[k]).0@ != id) {
        lemma_lookup_first(names, id, i);
        crate::text::lemma_trim_empty_iff_blank(names[i].1@);
    }
    if forall|k: int| 0 <= k < names.len() ==> (#[trigger] names[k]).0@ != id {
        lemma_lookup_none(names, id);
    }
    if id.len() > 0 {
        reveal_strlit("Я");
        reveal_strlit("Собеседник");
        reveal_strlit("Спикер ");
        assert(speaker_label_of(id).len() > 0);
    }
}

/// The display name of speaker `id`.
fn name_of(names: &Vec<(String, String)>, id: &str) -> (r: String)
    requires
        labelable(id@),
    ensures
        r@ == display_name(names@, id@),
{
    let mut i: usize = 0;
    proof {
        assert(names@.skip(0) =~= names@);
    }
    while i < names.len()
        invariant
            i <= names@.len(),
            labelable(id@),
            lookup_name(names@, id@) == lookup_name(names@.skip(i as int), id@),
        decreases names@.len() - i,
    {
        proof {
            assert(names@.skip(i as int).drop_first() =~= names@.skip(i + 1));
        }
        if str_eq(names[i].0.as_str(), id) {
            let n = trim_string(names[i].1.as_str());
            if !is_blank_str(n.as_str()) {
                proof {
                    crate::text::lemma_trim_empty_iff_blank(n@);
                    crate::text::lemma_trim_idempotent(names@[i as int].1@);
                }
                return n;
            }
            proof {
                crate::text::lemma_trim_empty_iff_blank(n@);
                crate::text::lemma_trim_idempotent(names@[i as int].1@);
            }
            return speaker_label(id);
        }
        i = i + 1;
    }
    speaker_label(id)
}

/// The transcript as text for the model: consecutive lines of one speaker
/// are merged, speakers are shown by the user's names (else "Я",
/// "Спикер 2", …).
///
/// The names are id–name pairs looked up in order: when an id occurs in
/// more than one pair, the first one wins. (A name map, as the desktop
/// window keeps them, has each id once, so it gives the same text.) The
/// pairs are a `Vec` because a map keyed by `String` carries no
/// specification that a contract here could state its lookups by.
pub fn transcript_to_named_text<T>(transcript: &Transcript<T>, names: &Vec<(String, String)>) -> (r:
    String)
    requires
        all_labelable(transcript.segments@),
    ensures
        r@ == join(named_fold(transcript.segments@, names@).0, "\n"@),
{
    let segs = &transcript.segments;
    let mut out: Vec<String> = Vec::new();
    let mut last: Option<String> = None;
    let mut i: usize = 0;
    proof {
        assert(segs@.take(0) =~= Seq::<TranscriptSegment<T>>::empty());
        assert(views(out@) =~= Seq::<Seq<char>>::empty());
    }
    while i < segs.len()
        invariant
            i <= segs@.len(),
            all_labelable(segs@),
            (views(out@), opt_view(last)) == named_fold(segs@.take(i as int), names@),
        decreases segs@.len() - i,
    {
        let ghost prev = named_fold(segs@.take(i as int), names@);
        proof {
            assert(segs@.take(i + 1).drop_last() =~= segs@.take(i as int));
            assert(segs@.take(i + 1).last() == segs@[i as int]);
            assert(labelable(segs@[i as int].speaker@));
        }
        let s = &segs[i];
        let text = trim_string(s.text.as_str());
        proof {
            crate::text::lemma_trim_idempotent(s.text@);
        }
        if is_blank_str(text.as_str()) {
            proof {
                crate::text::lemma_trim_empty_iff_blank(text@);
                assert(text@.len() == 0);
            }
            i = i + 1;
            continue;
        }
        proof {
            crate::text::lemma_trim_empty_iff_blank(text@);
        }
        let same = match &last {
            Some(l) => str_eq(l.as_str(), s.speaker.as_str()),
            None => false,
        };
        if same && out.len() > 0 {
            let ghost before = out@;
            let mut l = out.pop().unwrap();
            proof {
                assert(l == before.last());
                assert(out@ == before.drop_last());
            }
            push_char(&mut l, ' ');
            push_str(&mut l, text.as_str());
            let ghost mid = out@;
            proof {
                reveal_strlit(" ");
                assert(l@ =~= before.last()@ + " "@ + text@);
            }
            out.push(l);
            proof {
                assert(views(before).last() == before.last()@);
                assert(views(out@) =~= views(before).update(views(before).len() - 1, views(
                    before,
                ).last() + " "@ + text@));
                assert(views(out@) =~= prev.0.update(prev.0.len() - 1, prev.0.last() + " "@
                    + text@));
            }
        } else {
            let mut line = name_of(names, s.speaker.as_str());
            push_str(&mut line, ": ");
            push_str(&mut line, text.as_str());
            let ghost before = out@;
            out.push(line);
            proof {
                assert(views(out@) =~= views(before).push(line@));
            }
            last = Some(string_of(s.speaker.as_str()));
        }
        i = i + 1;
    }
    proof {
        assert(segs@.take(segs@.len() as int) =~= segs@);
    }
    join_strings(&out, "\n")
}

/// Length (in UTF-8 bytes) up to which a conversation is sent in one
/// request; longer ones are cut into parts of at most this size. Chosen
/// conservatively for models with a context of about 130k tokens.
pub const SUMMARY_CHUNK_CHARS: usize = 60000;

/// Separator between the partial results that are merged again.
pub const PART_SEPARATOR: &'static str = "\n\n---\n\n";

/// A numbered request about part `i` of `total`: `prefix`, `before`, the
/// number, a slash, the total, `after`, then the part.
pub open spec fn numbered(
    prefix: Seq<char>,
    before: Seq<char>,
    after: Seq<char>,
    i: nat,
    total: nat,
    part: Seq<char>,
) -> Seq<char> {
    prefix + before + decimal(i) + "/"@ + decimal(total) + after + part
}

/// The numbered requests about each of `parts`, counted from 1.
pub open spec fn numbered_requests(
    prefix: Seq<char>,
    before: Seq<char>,
    after: Seq<char>,
    parts: Seq<Seq<char>>,
) -> Seq<Seq<char>> {
    Seq::new(parts.len(), |i: int| numbered(prefix, before, after, (i + 1) as nat, parts.len(), parts[i]))
}

/// Builds the numbered requests about each of `parts`.
fn build_requests(prefix: &str, before: &str, after: &str, parts: &Vec<String>) -> (r: Vec<String>)
    ensures
        views(r@) == numbered_requests(prefix@, before@, after@, views(parts@)),
{
    let total = parts.len();
    let ghost want = numbered_requests(prefix@, before@, after@, views(parts@));
    let mut r: Vec<String> = Vec::new();
    let mut i: usize = 0;
    while i < total
        invariant
            i <= total == parts@.len(),
            want == numbered_requests(prefix@, before@, after@, views(parts@)),
            views(r@) == want.take(i as int),
        decreases total - i,
    {
        let mut m = string_of(prefix);
        push_str(&mut m, before);
        push_decimal(&mut m, i + 1);
        push_str(&mut m, "/");
        push_decimal(&mut m, total);
        push_str(&mut m, after);
        push_str(&mut m, parts[i].as_str());
        let ghost before_r = r@;
        r.push(m);
        i = i + 1;
        proof {
            assert(m@ =~= want[i - 1]);
            lemma_views_push(before_r, m);
            assert(views(r@) =~= want.take(i as int));
        }
    }
    proof {
        assert(want.take(total as int) =~= want);
    }
    r
}

/// Every request of `reqs` got a reply: `replies[i]` for `reqs[i]`.
pub open spec fn answered_all<B: ChatBackend>(
    b: &B,
    system: Seq<char>,
    reqs: Seq<Seq<char>>,
    replies: Seq<String>,
) -> bool {
    &&& replies.len() == reqs.len()
    &&& forall|i: int| 0 <= i < reqs.len() ==> #[trigger] b.replies(system, reqs[i], Ok(replies[i]))
}

/// The requests before some `reqs[k]` got replies and `reqs[k]` failed
/// with `e`.
pub open spec fn failed_at<B: ChatBackend>(
    b: &B,
    system: Seq<char>,
    reqs: Seq<Seq<char>>,
    e: AppError,
) -> bool {
    exists|k: int, prev: Seq<String>|
        #![trigger answered_all(b, system, reqs.take(k), prev)]
        0 <= k < reqs.len() && answered_all(b, system, reqs.take(k), prev) && b.replies(
            system,
            reqs[k],
            Err(e),
        )
}

/// Sends each request in order with the same system prompt and collects
/// the replies; stops at the first error.
fn chat_each<B: ChatBackend>(backend: &B, system: &str, requests: &Vec<String>) -> (r: AppResult<
    Vec<String>,
>)
    ensures
        match r {
            Ok(replies) => answered_all(backend, system@, views(requests@), replies@),
            Err(e) => failed_at(backend, system@, views(requests@), e),
        },
{
    let ghost reqs = views(requests@);
    let mut out: Vec<String> = Vec::new();
    let mut i: usize = 0;
    while i < requests.len()
        invariant
            i <= requests@.len(),
            reqs == views(requests@),
            answered_all(backend, system@, reqs.take(i as int), out@),
        decreases requests@.len() - i,
    {
        match backend.chat(system, requests[i].as_str()) {
            Ok(reply) => {
                let ghost prev = out@;
                out.push(reply);
                proof {
                    assert forall|k: int| 0 <= k < i + 1 implies #[trigger] backend.replies(
                        system@,
                        reqs.take(i + 1)[k],
                        Ok(out@[k]),
                    ) by {
                        if k < i {
                            assert(reqs.take(i + 1)[k] == reqs.take(i as int)[k]);
                        }
                    }
                }
            },
            Err(e) => {
                proof {
                    assert(answered_all(backend, system@, reqs.take(i as int), out@));
                }
                return Err(e);
            },
        }
        i = i + 1;
    }
    proof {
        assert(reqs.take(requests@.len() as int) =~= reqs);
    }
    Ok(out)
}

/// Either every request got a reply and `r` holds them joined by `sep`,
/// or `r` is the error at which the requests stopped.
pub open spec fn parts_joined<B: ChatBackend>(
    b: &B,
    system: Seq<char>,
    reqs: Seq<Seq<char>>,
    sep: Seq<char>,
    r: AppResult<String>,
) -> bool {
    match r {
        Ok(out) => exists|parts: Seq<String>|
            #[trigger] answered_all(b, system, reqs, parts) && out@ == join(views(parts), sep),
        Err(e) => failed_at(b, system, reqs, e),
    }
}

/// Whether a conversation is long enough to be cut into parts.
pub open spec fn is_long(text: Seq<char>) -> bool {
    utf8_len(text) > SUMMARY_CHUNK_CHARS
}

/// Whether `text` is longer than one request takes.
pub fn long_text(text: &str) -> (r: bool)
    ensures
        r == is_long(text@),
{
    let v = chars_of(text);
    utf8_len_of(&v) > SUMMARY_CHUNK_CHARS as u128
}

/// The prose rewrite of a conversation of any length. A short one is
/// rewritten in one pass; a long one part by part, and the parts are
/// joined (not condensed) so that nothing is lost.
pub fn to_literary_long<B: ChatBackend>(backend: &B, transcript_text: &str) -> (r: AppResult<
    String,
>)
    ensures
        !is_long(transcript_text@) ==> backend.replies(LITERARY_SYSTEM@, transcript_text@, r),
        is_long(transcript_text@) ==> parts_joined(
            backend,
            LITERARY_PART_SYSTEM@,
            numbered_requests(
                ""@,
                "Часть "@,
                " разговора:\n\n"@,
                split_chunks_spec(transcript_text@, SUMMARY_CHUNK_CHARS as nat),
            ),
            "\n\n"@,
            r,
        ),
{
    if !long_text(transcript_text) {
        return to_literary_text(backend, transcript_text);
    }
    let chunks = split_chunks(transcript_text, SUMMARY_CHUNK_CHARS);
    let requests = build_requests("", "Часть ", " разговора:\n\n", &chunks);
    match chat_each(backend, LITERARY_PART_SYSTEM, &requests) {
        Ok(parts) => {
            let out = join_strings(&parts, "\n\n");
            proof {
                assert(answered_all(backend, LITERARY_PART_SYSTEM@, views(requests@), parts@));
            }
            Ok(out)
        },
        Err(e) => Err(e),
    }
}

/// The system prompt of the working notes on one part of a long talk.
pub open spec fn notes_system() -> Seq<char> {
    NOTES_SYSTEM@ + "\n\n"@ + RULES@
}

/// The user message that asks for the report from the collected notes.
pub open spec fn notes_report_message(header: Seq<char>, notes: Seq<char>) -> Seq<char> {
    header
        + "Ниже — заметки по частям одного длинного разговора (по порядку). Собери по ним единый отчёт, без повторов.\n\n"@
        + notes
}

/// One round of condensing notes `c`: they are too long, they cut into
/// more than one part, and each part got a reply in `replies`.
pub open spec fn condense_round<B: ChatBackend>(
    b: &B,
    ns: Seq<char>,
    c: Seq<char>,
    replies: Seq<String>,
) -> bool {
    &&& is_long(c)
    &&& split_chunks_spec(c, SUMMARY_CHUNK_CHARS as nat).len() > 1
    &&& answered_all(b, ns, split_chunks_spec(c, SUMMARY_CHUNK_CHARS as nat), replies)
}

/// A round that turned notes `c` into the shorter notes `next`.
pub open spec fn condense_step<B: ChatBackend>(
    b: &B,
    ns: Seq<char>,
    c: Seq<char>,
    next: Seq<char>,
) -> bool {
    exists|replies: Seq<String>|
        #[trigger] condense_round(b, ns, c, replies) && next == join(views(replies), PART_SEPARATOR@)
            && utf8_len(next) < utf8_len(c)
}

/// Condensing stops at notes `c`: they fit, or they do not cut into parts,
/// or a round would not make them shorter.
pub open spec fn condense_stop<B: ChatBackend>(b: &B, ns: Seq<char>, c: Seq<char>) -> bool {
    ||| !is_long(c)
    ||| split_chunks_spec(c, SUMMARY_CHUNK_CHARS as nat).len() <= 1
    ||| exists|replies: Seq<String>|
        #[trigger] condense_round(b, ns, c, replies) && utf8_len(join(views(replies), PART_SEPARATOR@))
            >= utf8_len(c)
}

/// Round `i` of a condensing chain turned `steps[i]` into `steps[i + 1]`.
pub open spec fn condense_link<B: ChatBackend>(
    b: &B,
    ns: Seq<char>,
    steps: Seq<Seq<char>>,
    i: int,
) -> bool {
    condense_step(b, ns, steps[i], steps[i + 1])
}

/// Rounds of condensing lead from `steps[0]` through each of `steps` in
/// turn.
pub open spec fn condense_chain<B: ChatBackend>(
    b: &B,
    ns: Seq<char>,
    steps: Seq<Seq<char>>,
) -> bool {
    &&& steps.len() >= 1
    &&& forall|i: int| 0 <= i < steps.len() - 1 ==> #[trigger] condense_link(b, ns, steps, i)
}

/// A round of condensing notes `c` failed with `e`.
pub open spec fn condense_fails<B: ChatBackend>(
    b: &B,
    ns: Seq<char>,
    c: Seq<char>,
    e: AppError,
) -> bool {
    &&& is_long(c)
    &&& split_chunks_spec(c, SUMMARY_CHUNK_CHARS as nat).len() > 1
    &&& failed_at(b, ns, split_chunks_spec(c, SUMMARY_CHUNK_CHARS as nat), e)
}

/// The outcome of a report built from notes: notes are taken on every
/// part (`reqs`), condensed while they are too long, and the report is
/// asked from the final notes; or one of those requests failed.
pub open spec fn notes_outcome<B: ChatBackend>(
    b: &B,
    system: Seq<char>,
    header: Seq<char>,
    reqs: Seq<Seq<char>>,
    r: AppResult<String>,
) -> bool {
    let ns = notes_system();
    let reported = exists|notes: Seq<String>, steps: Seq<Seq<char>>|
        #![trigger answered_all(b, ns, reqs, notes), condense_chain(b, ns, steps)]
        answered_all(b, ns, reqs, notes) && condense_chain(b, ns, steps) && steps[0] == join(
            views(notes),
            PART_SEPARATOR@,
        ) && condense_stop(b, ns, steps.last()) && b.replies(
            system,
            notes_report_message(header, steps.last()),
            r,
        );
    match r {
        Ok(_) => reported,
        Err(e) => {
            ||| failed_at(b, ns, reqs, e)
            ||| reported
            ||| exists|notes: Seq<String>, steps: Seq<Seq<char>>|
                #![trigger answered_all(b, ns, reqs, notes), condense_chain(b, ns, steps)]
                answered_all(b, ns, reqs, notes) && condense_chain(b, ns, steps) && steps[0]
                    == join(views(notes), PART_SEPARATOR@) && condense_fails(
                    b,
                    ns,
                    steps.last(),
                    e,
                )
        },
    }
}

/// The user message of a report on a short conversation.
pub open spec fn report_message(header: Seq<char>, text: Seq<char>) -> Seq<char> {
    header + "\nРасшифровка:\n"@ + text
}

/// What a report request leads to, for report kind `kind` on `text`
/// with the context header `header`.
pub open spec fn report_outcome<B: ChatBackend>(
    b: &B,
    kind: Seq<char>,
    text: Seq<char>,
    header: Seq<char>,
    r: AppResult<String>,
) -> bool {
    match report_prompt_spec(kind) {
        None => r matches Err(AppError::InvalidInput(m)) && m@ == "unknown report kind: "@ + kind,
        Some(system) => {
            let chunks = split_chunks_spec(text, SUMMARY_CHUNK_CHARS as nat);
            if !is_long(text) {
                b.replies(system, report_message(header, text), r)
            } else if kind == "literary"@ {
                parts_joined(
                    b,
                    system,
                    numbered_requests(
                        header,
                        "Это часть "@,
                        " длинного разговора. Перепиши ТОЛЬКО эту часть, без вступлений и выводов.\n\n"@,
                        chunks,
                    ),
                    "\n\n"@,
                    r,
                )
            } else {
                notes_outcome(
                    b,
                    system,
                    header,
                    numbered_requests(header, "Часть "@, " разговора:\n\n"@, chunks),
                    r,
                )
            }
        },
    }
}

/// Builds a report of kind `kind` on a conversation of any length. A short
/// one takes one request. A long one: `literary` is rewritten part by part
/// and joined (nothing is lost); the others take detailed working notes on
/// each part (facts, decisions, tasks with owners and dates, quotes),
/// condense the notes while they are too long, and build the report from
/// the notes with the same prompt.
pub fn generate_report<B: ChatBackend>(
    backend: &B,
    kind: &str,
    transcript_text: &str,
    ctx: &MeetingContext,
) -> (r: AppResult<String>)
    ensures
        report_outcome(backend, kind@, transcript_text@, ctx.header_spec(), r),
{
    let system = match report_prompt(kind) {
        Some(p) => p,
        None => {
            let m = concat("unknown report kind: ", kind);
            return Err(AppError::InvalidInput(m));
        },
    };
    let header = ctx.header();
    if !long_text(transcript_text) {
        let mut user = string_of(header.as_str());
        push_str(&mut user, "\nРасшифровка:\n");
        push_str(&mut user, transcript_text);
        proof {
            assert(user@ =~= report_message(header@, transcript_text@));
        }
        return backend.chat(system.as_str(), user.as_str());
    }
    let chunks = split_chunks(transcript_text, SUMMARY_CHUNK_CHARS);
    if str_eq(kind, "literary") {
        let requests = build_requests(
            header.as_str(),
            "Это часть ",
            " длинного разговора. Перепиши ТОЛЬКО эту часть, без вступлений и выводов.\n\n",
            &chunks,
        );
        return match chat_each(backend, system.as_str(), &requests) {
            Ok(parts) => {
                let out = join_strings(&parts, "\n\n");
                proof {
                    assert(answered_all(backend, system@, views(requests@), parts@));
                }
                Ok(out)
            },
            Err(e) => Err(e),
        };
    }
    let mut notes_system = string_of(NOTES_SYSTEM);
    push_str(&mut notes_system, "\n\n");
    push_str(&mut notes_system, RULES);
    proof {
        assert(notes_system@ =~= crate::ai::notes_system());
    }
    let ghost ns = notes_system@;
    let requests = build_requests(header.as_str(), "Часть ", " разговора:\n\n", &chunks);
    let ghost reqs = views(requests@);
    let notes = match chat_each(backend, notes_system.as_str(), &requests) {
        Ok(n) => n,
        Err(e) => {
            return Err(e);
        },
    };
    let mut combined = join_strings(&notes, PART_SEPARATOR);
    let ghost c0 = combined@;
    let ghost mut steps: Seq<Seq<char>> = seq![c0];
    loop
        invariant
            ns == crate::ai::notes_system(),
            notes_system@ == ns,
            reqs == views(requests@),
            answered_all(backend, ns, reqs, notes@),
            c0 == join(views(notes@), PART_SEPARATOR@),
            condense_chain(backend, ns, steps),
            steps[0] == c0,
            steps.last() == combined@,
            report_prompt_spec(kind@) == Some(system@),
            header@ == ctx.header_spec(),
            is_long(transcript_text@),
            kind@ != "literary"@,
            reqs == numbered_requests(
                header@,
                "Часть "@,
                " разговора:\n\n"@,
                split_chunks_spec(transcript_text@, SUMMARY_CHUNK_CHARS as nat),
            ),
        ensures
            condense_chain(backend, ns, steps),
            steps[0] == c0,
            steps.last() == combined@,
            condense_stop(backend, ns, combined@),
        decreases utf8_len(combined@),
    {
        if !long_text(combined.as_str()) {
            break;
        }
        let parts = split_chunks(combined.as_str(), SUMMARY_CHUNK_CHARS);
        if parts.len() <= 1 {
            break;
        }
        match chat_each(backend, notes_system.as_str(), &parts) {
            Ok(next) => {
                let joined = join_strings(&next, PART_SEPARATOR);
                proof {
                    assert(views(parts@).len() == parts@.len());
                    assert(condense_round(backend, ns, combined@, next@));
                }
                let jv = chars_of(joined.as_str());
                let cv = chars_of(combined.as_str());
                if utf8_len_of(&jv) >= utf8_len_of(&cv) {
                    break;
                }
                proof {
                    assert(condense_step(backend, ns, combined@, joined@));
                    let old_steps = steps;
                    steps = steps.push(joined@);
                    assert forall|i: int| 0 <= i < steps.len() - 1 implies #[trigger] condense_link(
                        backend,
                        ns,
                        steps,
                        i,
                    ) by {
                        if i < old_steps.len() - 1 {
                            assert(condense_link(backend, ns, old_steps, i));
                        }
                    }
                }
                combined = joined;
            },
            Err(e) => {
                proof {
                    assert(condense_fails(backend, ns, combined@, e));
                    assert(answered_all(backend, ns, reqs, notes@));
                    assert(condense_chain(backend, ns, steps));
                }
                return Err(e);
            },
        }
    }
    let mut user = string_of(header.as_str());
    push_str(
        &mut user,
        "Ниже — заметки по частям одного длинного разговора (по порядку). Собери по ним единый отчёт, без повторов.\n\n",
    );
    push_str(&mut user, combined.as_str());
    proof {
        assert(user@ =~= notes_report_message(header@, combined@));
    }
    let r = backend.chat(system.as_str(), user.as_str());
    proof {
        assert(answered_all(backend, ns, reqs, notes@));
        assert(condense_chain(backend, ns, steps));
    }
    r
}

/// Whether an error message reads like "the server has no such model":
/// an HTTP 404, 400 or 422 that mentions a model.
pub open spec fn model_missing_spec(message: Seq<char>) -> bool {
    let s = lowercase(message);
    (contains_seq(s, "http 404"@) || contains_seq(s, "http 400"@) || contains_seq(s, "http 422"@))
        && contains_seq(s, "model"@)
}

/// Whether `e` reads like "the server has no such model".
pub fn is_model_missing(e: &AppError) -> (r: bool)
    ensures
        r == model_missing_spec(error_message(*e)),
{
    let m = e.message();
    let low = to_lowercase(m.as_str());
    let v = chars_of(low.as_str());
    let p404 = chars_of("http 404");
    let p400 = chars_of("http 400");
    let p422 = chars_of("http 422");
    let pm = chars_of("model");
    (contains(&v, &p404) || contains(&v, &p400) || contains(&v, &p422)) && contains(&v, &pm)
}

/// The message of an HTTP error status: the code and at most the first
/// 400 characters of the body, which usually says what went wrong.
pub open spec fn http_status_message(code: u16, body: Seq<char>) -> Seq<char> {
    "HTTP "@ + decimal(code as nat) + ": "@ + body.take(if body.len() < 400 { body.len() as int } else { 400 })
}

/// The error of an HTTP status reply with body `body`.
pub fn http_status_error(code: u16, body: &str) -> (r: AppError)
    ensures
        r matches AppError::Http(m) && m@ == http_status_message(code, body@),
{
    let v = chars_of(body);
    let n = if v.len() < 400 {
        v.len()
    } else {
        400
    };
    let mut m = string_of("HTTP ");
    push_decimal(&mut m, code as usize);
    push_str(&mut m, ": ");
    let b = string_from_range(&v, 0, n);
    push_str(&mut m, b.as_str());
    proof {
        assert(v@.subrange(0, n as int) =~= body@.take(n as int));
        assert(m@ =~= http_status_message(code, body@));
    }
    AppError::Http(m)
}

/// What a chat request does after the first answer from the chosen model.
pub enum ChatNext {
    /// The outcome stands.
    Done(AppResult<String>),
    /// The server no longer has the model: its models are listed again and
    /// the request is repeated once with the closest one; when that listing
    /// fails, this error is the outcome.
    Relist(AppError),
}

/// The step after the first request: an error that reads "no such model"
/// leads to listing the models again; any other outcome stands.
pub fn after_post(r: AppResult<String>) -> (next: ChatNext)
    ensures
        match r {
            Ok(s) => next matches ChatNext::Done(d) && d == Ok::<String, AppError>(s),
            Err(e) => if model_missing_spec(error_message(e)) {
                next matches ChatNext::Relist(x) && x == e
            } else {
                next matches ChatNext::Done(d) && d == Err::<String, AppError>(e)
            },
        },
{
    match r {
        Ok(s) => ChatNext::Done(Ok(s)),
        Err(e) => {
            if is_model_missing(&e) {
                ChatNext::Relist(e)
            } else {
                ChatNext::Done(Err(e))
            }
        },
    }
}

/// The models listed again after `first` ("no such model"): the list, or,
/// when listing failed, `first` itself.
pub fn relisted(first: AppError, listed: AppResult<Vec<String>>) -> (r: AppResult<Vec<String>>)
    ensures
        match listed {
            Ok(v) => r matches Ok(w) && w@ == v@,
            Err(_) => r == Err::<Vec<String>, AppError>(first),
        },
{
    match listed {
        Ok(v) => Ok(v),
        Err(_) => Err(first),
    }
}

/// The chat server reached over HTTP (`{base_url}/chat/completions`,
/// OpenAI-compatible), with the model it actually answers with.
///
/// The model on the user's server may change (a new version rolls out and
/// the name changes). So: a blank or `auto` model takes the one that the
/// server lists; if the server answers "no such model", the list is read
/// again once, the closest current model is taken and the request is
/// repeated. The requests themselves are sent by the application; this
/// type holds the state and makes the choices.
pub struct HttpChatBackend {
    config: AiConfig,
    /// The model that the server actually answers with, once chosen.
    model: Option<String>,
}

impl HttpChatBackend {
    /// The configuration the backend was made with.
    pub closed spec fn config_spec(&self) -> AiConfig {
        self.config
    }

    /// The model chosen for the server, if one was.
    pub closed spec fn chosen(&self) -> Option<Seq<char>> {
        opt_view(self.model)
    }

    /// A backend for `config` that has chosen no model yet.
    pub fn new(config: AiConfig) -> (r: Self)
        ensures
            r.config_spec() == config,
            r.chosen() is None,
    {
        HttpChatBackend { config, model: None }
    }

    /// The configuration the backend was made with.
    pub fn config(&self) -> (r: &AiConfig)
        ensures
            *r == self.config_spec(),
    {
        &self.config
    }

    /// The model that the requests actually went to (after an automatic
    /// choice), if it was chosen.
    pub fn used_model(&self) -> (r: Option<String>)
        ensures
            opt_view(r) == self.chosen(),
    {
        match &self.model {
            Some(m) => Some(string_of(m.as_str())),
            None => None,
        }
    }

    /// The model to send a request to without asking the server: the one
    /// chosen before, else the configured one when it names a model. `None`
    /// means that the server's list decides ([`Self::choose_listed`]).
    pub fn known_model(&self) -> (r: Option<String>)
        ensures
            opt_view(r) == (match self.chosen() {
                Some(m) => Some(m),
                None => if names_model(trim(self.config_spec().model@)) {
                    Some(trim(self.config_spec().model@))
                } else {
                    None
                },
            }),
    {
        if let Some(m) = &self.model {
            return Some(string_of(m.as_str()));
        }
        let want = trim_string(self.config.model.as_str());
        if names_model_str(want.as_str()) {
            Some(want)
        } else {
            None
        }
    }

    /// Chooses the model from the server's list when none is configured
    /// and remembers it; an empty list is an error.
    pub fn choose_listed(&mut self, listed: &[String]) -> (r: AppResult<String>)
        ensures
            final(self).config_spec() == old(self).config_spec(),
            match pick_model_spec(old(self).config_spec().model@, views(listed@)) {
                Some(m) => r matches Ok(s) && s@ == m && final(self).chosen() == Some(m),
                None => r matches Err(AppError::Http(msg)) && msg@
                    == "сервер ИИ не отдаёт ни одной модели"@ && final(self).chosen()
                    == old(self).chosen(),
            },
    {
        match pick_model(self.config.model.as_str(), listed) {
            Some(m) => {
                self.model = Some(string_of(m.as_str()));
                Ok(m)
            },
            None => Err(AppError::Http(string_of("сервер ИИ не отдаёт ни одной модели"))),
        }
    }

    /// After the server said that `current` is missing: takes the closest
    /// model of the new list when it differs from `current` and remembers
    /// it; otherwise the model is unavailable.
    pub fn retry_model(&mut self, current: &str, listed: &[String]) -> (r: AppResult<String>)
        ensures
            final(self).config_spec() == old(self).config_spec(),
            match pick_model_spec(current@, views(listed@)) {
                Some(m) => if m != current@ {
                    r matches Ok(s) && s@ == m && final(self).chosen() == Some(m)
                } else {
                    r matches Err(AppError::Http(msg)) && msg@ == unavailable_message(current@)
                        && final(self).chosen() == old(self).chosen()
                },
                None => r matches Err(AppError::Http(msg)) && msg@ == unavailable_message(
                    current@,
                ) && final(self).chosen() == old(self).chosen(),
            },
    {
        match pick_model(current, listed) {
            Some(m) => {
                if !str_eq(m.as_str(), current) {
                    self.model = Some(string_of(m.as_str()));
                    return Ok(m);
                }
            },
            None => {},
        }
        let mut msg = string_of("модель «");
        push_str(&mut msg, current);
        push_str(&mut msg, "» недоступна на сервере");
        proof {
            assert(msg@ =~= unavailable_message(current@));
        }
        Err(AppError::Http(msg))
    }
}

/// The message of a model that the server no longer has.
pub open spec fn unavailable_message(model: Seq<char>) -> Seq<char> {
    "модель «"@ + model + "» недоступна на сервере"@
}

/// One round of a map-reduce over a long conversation: either the final
/// text, or the merged partial results that are still too long and go
/// through another round.
#[derive(Debug, Clone, PartialEq)]
pub enum LongStep {
    Done(String),
    Again(String),
}

/// The outcome of one round of a map-reduce on `text`: a short text takes
/// one request with `single`; a long one is cut into parts, each part is
/// sent with `part`, the replies are joined; joined results that are still
/// long go to another round (`Again`), others are merged with `merge`.
pub open spec fn long_step_outcome<B: ChatBackend>(
    b: &B,
    single: Seq<char>,
    part: Seq<char>,
    merge: Seq<char>,
    text: Seq<char>,
    r: AppResult<LongStep>,
) -> bool {
    let reqs = numbered_requests(
        ""@,
        "Часть "@,
        " разговора:\n\n"@,
        split_chunks_spec(text, SUMMARY_CHUNK_CHARS as nat),
    );
    if !is_long(text) {
        match r {
            Ok(LongStep::Done(s)) => b.replies(single, text, Ok(s)),
            Ok(LongStep::Again(_)) => false,
            Err(e) => b.replies(single, text, Err(e)),
        }
    } else {
        match r {
            Ok(LongStep::Again(c)) => exists|parts: Seq<String>|
                #[trigger] answered_all(b, part, reqs, parts) && c@ == join(
                    views(parts),
                    PART_SEPARATOR@,
                ) && is_long(c@),
            Ok(LongStep::Done(s)) => exists|parts: Seq<String>|
                #[trigger] answered_all(b, part, reqs, parts) && !is_long(
                    join(views(parts), PART_SEPARATOR@),
                ) && b.replies(merge, join(views(parts), PART_SEPARATOR@), Ok(s)),
            Err(e) => failed_at(b, part, reqs, e) || exists|parts: Seq<String>|
                #[trigger] answered_all(b, part, reqs, parts) && !is_long(
                    join(views(parts), PART_SEPARATOR@),
                ) && b.replies(merge, join(views(parts), PART_SEPARATOR@), Err(e)),
        }
    }
}

/// One round of a map-reduce with the given prompts.
fn long_step<B: ChatBackend>(
    backend: &B,
    single: &str,
    part: &str,
    merge: &str,
    transcript_text: &str,
) -> (r: AppResult<LongStep>)
    ensures
        long_step_outcome(backend, single@, part@, merge@, transcript_text@, r),
{
    if !long_text(transcript_text) {
        return match backend.chat(single, transcript_text) {
            Ok(s) => Ok(LongStep::Done(s)),
            Err(e) => Err(e),
        };
    }
    let chunks = split_chunks(transcript_text, SUMMARY_CHUNK_CHARS);
    let requests = build_requests("", "Часть ", " разговора:\n\n", &chunks);
    let partials = match chat_each(backend, part, &requests) {
        Ok(p) => p,
        Err(e) => {
            return Err(e);
        },
    };
    let combined = join_strings(&partials, PART_SEPARATOR);
    proof {
        assert(answered_all(backend, part@, views(requests@), partials@));
    }
    if long_text(combined.as_str()) {
        return Ok(LongStep::Again(combined));
    }
    match backend.chat(merge, combined.as_str()) {
        Ok(s) => Ok(LongStep::Done(s)),
        Err(e) => Err(e),
    }
}

/// One round of the summary of a conversation of any length: a short one
/// in one pass; a long one part by part, then the partial summaries are
/// merged — or, when they are still too long, summarized again in another
/// round (`Again`), which the caller runs.
pub fn summarize_long_step<B: ChatBackend>(backend: &B, transcript_text: &str) -> (r: AppResult<
    LongStep,
>)
    ensures
        long_step_outcome(
            backend,
            SUMMARIZE_SYSTEM@,
            SUMMARY_PART_SYSTEM@,
            SUMMARY_MERGE_SYSTEM@,
            transcript_text@,
            r,
        ),
{
    long_step(backend, SUMMARIZE_SYSTEM, SUMMARY_PART_SYSTEM, SUMMARY_MERGE_SYSTEM, transcript_text)
}

/// One round of the analysis of a conversation of any length (map-reduce,
/// as the summary).
pub fn analyze_long_step<B: ChatBackend>(backend: &B, transcript_text: &str) -> (r: AppResult<
    LongStep,
>)
    ensures
        long_step_outcome(
            backend,
            ANALYZE_SYSTEM@,
            ANALYSIS_PART_SYSTEM@,
            ANALYSIS_MERGE_SYSTEM@,
            transcript_text@,
            r,
        ),
{
    long_step(backend, ANALYZE_SYSTEM, ANALYSIS_PART_SYSTEM, ANALYSIS_MERGE_SYSTEM, transcript_text)
}

/// Condenses the summary `digest` of a long conversation into a brief
/// summary of a few sentences.
pub fn brief_from_digest<B: ChatBackend>(backend: &B, digest: &str) -> (r: AppResult<String>)
    ensures
        backend.replies(BRIEF_DIGEST_SYSTEM@, digest@, r),
{
    backend.chat(BRIEF_DIGEST_SYSTEM, digest)
}

/// Asks the model for the metadata of a conversation and takes the JSON
/// object out of its reply (parsing it belongs to the caller).
pub fn suggest_metadata_json<B: ChatBackend>(backend: &B, transcript_text: &str) -> (r: AppResult<
    String,
>)
    ensures
        match r {
            Ok(j) => exists|c: String| #[trigger] backend.replies(METADATA_SYSTEM@, transcript_text@, Ok(c)) && j@
                == extract_json_spec(c@),
            Err(e) => backend.replies(METADATA_SYSTEM@, transcript_text@, Err(e)),
        },
{
    match backend.chat(METADATA_SYSTEM, transcript_text) {
        Ok(c) => {
            let j = extract_json(c.as_str());
            proof {
                assert(backend.replies(METADATA_SYSTEM@, transcript_text@, Ok(c)));
            }
            Ok(j)
        },
        Err(e) => Err(e),
    }
}

/// The text that the title request sees: a long conversation is cut to its
/// first 40000 and last 20000 characters (a title needs its start and end).
pub open spec fn metadata_text(text: Seq<char>) -> Seq<char> {
    if is_long(text) {
        let tail_from = if text.len() >= 20000 { text.len() - 20000 } else { 0 };
        text.take(if text.len() < 40000 { text.len() as int } else { 40000 }) + "\n…\n"@
            + text.skip(tail_from)
    } else {
        text
    }
}

/// Asks for the title, participants and topic of a conversation of any
/// length (start and end of a long one) and takes the JSON object out of
/// the reply.
pub fn suggest_metadata_ctx_json<B: ChatBackend>(backend: &B, transcript_text: &str) -> (r:
    AppResult<String>)
    ensures
        match r {
            Ok(j) => exists|c: String| #[trigger] backend.replies(
                METADATA_CTX_SYSTEM@,
                metadata_text(transcript_text@),
                Ok(c),
            ) && j@ == extract_json_spec(c@),
            Err(e) => backend.replies(METADATA_CTX_SYSTEM@, metadata_text(transcript_text@), Err(e)),
        },
{
    let text = if long_text(transcript_text) {
        let v = chars_of(transcript_text);
        let head_end = if v.len() < 40000 {
            v.len()
        } else {
            40000
        };
        let tail_from = if v.len() >= 20000 {
            v.len() - 20000
        } else {
            0
        };
        let mut t = string_from_range(&v, 0, head_end);
        push_str(&mut t, "\n…\n");
        let tail = string_from_range(&v, tail_from, v.len());
        push_str(&mut t, tail.as_str());
        proof {
            assert(v@.subrange(0, head_end as int) =~= transcript_text@.take(head_end as int));
            assert(v@.subrange(tail_from as int, v@.len() as int) =~= transcript_text@.skip(
                tail_from as int,
            ));
            assert(t@ =~= metadata_text(transcript_text@));
        }
        t
    } else {
        string_of(transcript_text)
    };
    match backend.chat(METADATA_CTX_SYSTEM, text.as_str()) {
        Ok(c) => {
            let j = extract_json(c.as_str());
            proof {
                assert(backend.replies(METADATA_CTX_SYSTEM@, metadata_text(transcript_text@), Ok(c)));
            }
            Ok(j)
        },
        Err(e) => Err(e),
    }
}

/// A quote character that a proposed title may be wrapped in.
pub open spec fn is_title_quote(c: char) -> bool {
    c == '"' || c == '«' || c == '»'
}

/// `s` without the quote characters at both ends (`str::trim_matches`).
pub open spec fn trim_quotes(s: Seq<char>) -> Seq<char>
    decreases s.len(),
{
    if s.len() > 0 && is_title_quote(s[0]) {
        trim_quotes(s.drop_first())
    } else if s.len() > 0 && is_title_quote(s.last()) {
        trim_quotes(s.drop_last())
    } else {
        s
    }
}

/// A proposed title cleaned up: trimmed, quotes removed at both ends,
/// trimmed again.
pub fn clean_title(title: &str) -> (r: String)
    ensures
        r@ == trim(trim_quotes(trim(title@))),
{
    let t = trim_string(title);
    let v = chars_of(t.as_str());
    let mut a: usize = 0;
    let mut b: usize = v.len();
    proof {
        assert(v@.subrange(0, v@.len() as int) =~= v@);
    }
    while a < b && (v[a] == '"' || v[a] == '«' || v[a] == '»' || v[b - 1] == '"' || v[b - 1]
        == '«' || v[b - 1] == '»')
        invariant
            a <= b <= v@.len(),
            trim_quotes(v@) == trim_quotes(v@.subrange(a as int, b as int)),
        decreases b - a,
    {
        let ghost s = v@.subrange(a as int, b as int);
        if v[a] == '"' || v[a] == '«' || v[a] == '»' {
            proof {
                assert(s[0] == v@[a as int]);
                assert(s.drop_first() =~= v@.subrange(a + 1, b as int));
            }
            a = a + 1;
        } else {
            proof {
                assert(s[0] == v@[a as int]);
                assert(s.last() == v@[b - 1]);
                assert(s.drop_last() =~= v@.subrange(a as int, b - 1));
            }
            b = b - 1;
        }
    }
    proof {
        let s = v@.subrange(a as int, b as int);
        if a < b {
            assert(s[0] == v@[a as int]);
            assert(s.last() == v@[b - 1]);
        }
        assert(trim_quotes(s) == s);
    }
    let q = string_from_range(&v, a, b);
    trim_string(q.as_str())
}

} // verus!
