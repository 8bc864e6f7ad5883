//! Recognition through a locally installed whisper command-line tool: which
//! tool family a binary is, which arguments it gets, where its JSON lands
//! and how its failure reads. Running it and parsing the JSON belong to the
//! application.
use vstd::prelude::*;

use crate::error::{AppError, AppResult};
use crate::text::{
    chars_of, is_blank_str, join_path, path_join, push_str, str_eq, string_from_range,
    string_of, trim, trim_string, views,
};
use crate::transcript::Segment;

verus! {

/// User overrides for the whisper command line.
#[derive(Debug, Clone, Default)]
pub struct TranscribeOptions {
    /// Absolute path to the whisper binary; found on `PATH` when absent.
    pub whisper_path: Option<String>,
    /// Model path (whisper.cpp) or model name / alias (openai-whisper).
    pub model: Option<String>,
    /// Language code, e.g. "ru", "en"; whisper detects it when absent.
    pub language: Option<String>,
}

/// Whether the options name a whisper binary (a path that is not empty):
/// then that command line does the recognition rather than the built-in
/// engine.
pub fn names_binary(opts: &TranscribeOptions) -> (r: bool)
    ensures
        r == (opts.whisper_path matches Some(p) && p@.len() > 0),
{
    match &opts.whisper_path {
        Some(p) => chars_of(p.as_str()).len() > 0,
        None => false,
    }
}

/// Which whisper command-line family is used; it decides the arguments.
#[derive(Debug, Clone, Copy, PartialEq, Eq)]
pub enum Flavor {
    WhisperCpp,
    OpenAiWhisper,
    FasterWhisper,
}

/// The flavor of a binary by its file stem.
pub open spec fn flavor_spec(stem: Seq<char>) -> Flavor {
    if stem == "whisper-cli"@ || stem == "main"@ {
        Flavor::WhisperCpp
    } else if stem == "whisper-ctranslate2"@ {
        Flavor::FasterWhisper
    } else {
        Flavor::OpenAiWhisper
    }
}

/// Infers the flavor from a binary's file stem.
pub fn flavor_from_stem(stem: &str) -> (r: Flavor)
    ensures
        r == flavor_spec(stem@),
{
    if str_eq(stem, "whisper-cli") || str_eq(stem, "main") {
        Flavor::WhisperCpp
    } else if str_eq(stem, "whisper-ctranslate2") {
        Flavor::FasterWhisper
    } else {
        Flavor::OpenAiWhisper
    }
}

/// `c` with an ASCII capital turned into its small letter.
pub open spec fn ascii_lower(c: char) -> char {
    if 'A' <= c && c <= 'Z' {
        ((c as u32) + 32) as char
    } else {
        c
    }
}

/// `str::to_ascii_lowercase`.
pub fn to_ascii_lowercase(s: &str) -> (r: String)
    ensures
        r@ == s@.map_values(|c: char| ascii_lower(c)),
{
    let v = chars_of(s);
    let mut out: Vec<char> = Vec::new();
    let mut i: usize = 0;
    while i < v.len()
        invariant
            i <= v@.len(),
            v@ == s@,
            out@ == v@.take(i as int).map_values(|c: char| ascii_lower(c)),
        decreases v@.len() - i,
    {
        let c = v[i];
        let d = if 'A' <= c && c <= 'Z' {
            ((c as u8) + 32) as char
        } else {
            c
        };
        out.push(d);
        i = i + 1;
        proof {
            assert(out@ =~= v@.take(i as int).map_values(|c: char| ascii_lower(c)));
        }
    }
    proof {
        assert(v@.take(v@.len() as int) =~= v@);
    }
    crate::text::string_from_chars(&out)
}

/// The flavor of a binary by its file stem, compared in ASCII lowercase.
pub fn flavor_of_binary(stem: &str) -> (r: Flavor)
    ensures
        r == flavor_spec(stem@.map_values(|c: char| ascii_lower(c))),
{
    let low = to_ascii_lowercase(stem);
    flavor_from_stem(low.as_str())
}

/// The binary names looked for on `PATH`, in order of preference.
pub fn discovery_candidates() -> (r: Vec<&'static str>)
    ensures
        r@.map_values(|s: &'static str| s@) == seq![
            "whisper-cli"@,
            "whisper-ctranslate2"@,
            "whisper"@,
            "main"@,
        ],
{
    let r = vec!["whisper-cli", "whisper-ctranslate2", "whisper", "main"];
    proof {
        assert(r@.map_values(|s: &'static str| s@) =~= seq![
            "whisper-cli"@,
            "whisper-ctranslate2"@,
            "whisper"@,
            "main"@,
        ]);
    }
    r
}

/// Transcriber that runs a locally installed whisper command line.
pub struct CliTranscriber {
    opts: TranscribeOptions,
}

impl CliTranscriber {
    /// The options it was made with.
    pub closed spec fn options(&self) -> TranscribeOptions {
        self.opts
    }

    /// A transcriber with the user's overrides `opts`.
    pub fn new(opts: TranscribeOptions) -> (r: Self)
        ensures
            r.options() == opts,
    {
        CliTranscriber { opts }
    }

    /// The user's overrides.
    pub fn opts(&self) -> (r: &TranscribeOptions)
        ensures
            *r == self.options(),
    {
        &self.opts
    }
}

/// The text of an optional `String`.
pub open spec fn opt_text(o: Option<String>) -> Option<Seq<char>> {
    match o {
        Some(s) => Some(s@),
        None => None,
    }
}

/// The arguments of a run of the whisper tool on `wav` with its JSON
/// written into `out_dir`: whisper.cpp needs a model path; the others take
/// the model name (default `small`) and the language when one is set.
pub open spec fn whisper_args_spec(
    flavor: Flavor,
    model: Option<Seq<char>>,
    language: Option<Seq<char>>,
    wav: Seq<char>,
    out_dir: Seq<char>,
) -> Option<Seq<Seq<char>>> {
    match flavor {
        Flavor::WhisperCpp => match model {
            Some(m) => Some(
                seq!["-m"@, m, "-f"@, wav, "-oj"@, "-of"@, join_path(out_dir, "out"@)],
            ),
            None => None,
        },
        _ => {
            let m = match model {
                Some(m) => m,
                None => "small"@,
            };
            let base = seq![
                wav,
                "--model"@,
                m,
                "--output_format"@,
                "json"@,
                "--output_dir"@,
                out_dir,
                "--task"@,
                "transcribe"@,
            ];
            match language {
                Some(l) => Some(base + seq!["--language"@, l]),
                None => Some(base),
            }
        },
    }
}

/// The arguments of a whisper run, or the error of a whisper.cpp binary
/// without a model.
pub fn whisper_args(flavor: Flavor, opts: &TranscribeOptions, wav: &str, out_dir: &str) -> (r:
    AppResult<Vec<String>>)
    ensures
        match whisper_args_spec(flavor, opt_text(opts.model), opt_text(opts.language), wav@, out_dir@) {
            Some(a) => r matches Ok(v) && views(v@) == a,
            None => r matches Err(AppError::Audio(m)) && m@
                == "whisper.cpp needs a model path — set it in Settings"@,
        },
{
    let mut v: Vec<String> = Vec::new();
    match flavor {
        Flavor::WhisperCpp => {
            match &opts.model {
                Some(m) => {
                    v.push(string_of("-m"));
                    v.push(string_of(m.as_str()));
                    v.push(string_of("-f"));
                    v.push(string_of(wav));
                    v.push(string_of("-oj"));
                    v.push(string_of("-of"));
                    v.push(path_join(out_dir, "out"));
                },
                None => {
                    return Err(
                        AppError::Audio(
                            string_of("whisper.cpp needs a model path — set it in Settings"),
                        ),
                    );
                },
            }
        },
        _ => {
            let m = match &opts.model {
                Some(m) => string_of(m.as_str()),
                None => string_of("small"),
            };
            v.push(string_of(wav));
            v.push(string_of("--model"));
            v.push(m);
            v.push(string_of("--output_format"));
            v.push(string_of("json"));
            v.push(string_of("--output_dir"));
            v.push(string_of(out_dir));
            v.push(string_of("--task"));
            v.push(string_of("transcribe"));
            match &opts.language {
                Some(l) => {
                    v.push(string_of("--language"));
                    v.push(string_of(l.as_str()));
                },
                None => {},
            }
        },
    }
    proof {
        assert(views(v@) =~= whisper_args_spec(
            flavor,
            opt_text(opts.model),
            opt_text(opts.language),
            wav@,
            out_dir@,
        ).unwrap());
    }
    Ok(v)
}

/// The JSON file that the tool writes: `out.json` for whisper.cpp, else
/// the audio file's stem (`audio` when it has none) with `.json`.
pub open spec fn output_json_spec(flavor: Flavor, out_dir: Seq<char>, wav_stem: Option<Seq<char>>) -> Seq<char> {
    match flavor {
        Flavor::WhisperCpp => join_path(out_dir, "out.json"@),
        _ => join_path(
            out_dir,
            (match wav_stem {
                Some(s) => s,
                None => "audio"@,
            }) + ".json"@,
        ),
    }
}

/// Where the tool's JSON output lands.
pub fn output_json(flavor: Flavor, out_dir: &str, wav_stem: Option<&str>) -> (r: String)
    ensures
        r@ == output_json_spec(
            flavor,
            out_dir@,
            match wav_stem {
                Some(s) => Some(s@),
                None => None,
            },
        ),
{
    match flavor {
        Flavor::WhisperCpp => path_join(out_dir, "out.json"),
        _ => {
            let mut name = match wav_stem {
                Some(s) => string_of(s),
                None => string_of("audio"),
            };
            push_str(&mut name, ".json");
            path_join(out_dir, name.as_str())
        },
    }
}

/// The error of a failed run: the first 500 characters of its stderr.
pub fn cli_failure(stderr: &str) -> (r: AppError)
    ensures
        r matches AppError::Audio(m) && m@ == "whisper CLI failed: "@ + stderr@.take(
            if stderr@.len() < 500 {
                stderr@.len() as int
            } else {
                500
            },
        ),
{
    let v = chars_of(stderr);
    let n = if v.len() < 500 {
        v.len()
    } else {
        500
    };
    let mut m = string_of("whisper CLI failed: ");
    let t = string_from_range(&v, 0, n);
    push_str(&mut m, t.as_str());
    proof {
        assert(v@.subrange(0, n as int) =~= stderr@.take(n as int));
    }
    AppError::Audio(m)
}

/// The segments of the recognised entries `(start, end, text)` whose
/// trimmed text is not empty, with the text trimmed.
pub open spec fn spoken_segments<T>(entries: Seq<(T, T, String)>) -> Seq<(T, T, Seq<char>)>
    decreases entries.len(),
{
    if entries.len() == 0 {
        seq![]
    } else {
        let rest = spoken_segments(entries.drop_last());
        let e = entries.last();
        if trim(e.2@).len() == 0 {
            rest
        } else {
            rest.push((e.0, e.1, trim(e.2@)))
        }
    }
}

/// Keeps the recognised entries with text, trimmed, as segments.
pub fn keep_spoken<T: Copy>(entries: &Vec<(T, T, String)>) -> (r: Vec<Segment<T>>)
    ensures
        r@.map_values(|s: Segment<T>| (s.start_secs, s.end_secs, s.text@)) == spoken_segments(
            entries@,
        ),
{
    let mut out: Vec<Segment<T>> = Vec::new();
    let mut i: usize = 0;
    while i < entries.len()
        invariant
            i <= entries@.len(),
            out@.map_values(|s: Segment<T>| (s.start_secs, s.end_secs, s.text@))
                == spoken_segments(entries@.take(i as int)),
        decreases entries@.len() - i,
    {
        proof {
            assert(entries@.take(i + 1).drop_last() =~= entries@.take(i as int));
        }
        let e = &entries[i];
        let t = trim_string(e.2.as_str());
        proof {
            crate::text::lemma_trim_empty_iff_blank(t@);
            crate::text::lemma_trim_idempotent(e.2@);
        }
        if !is_blank_str(t.as_str()) {
            let ghost before = out@;
            out.push(Segment { start_secs: e.0, end_secs: e.1, text: t });
            proof {
                assert(out@.map_values(|s: Segment<T>| (s.start_secs, s.end_secs, s.text@))
                    =~= before.map_values(|s: Segment<T>| (s.start_secs, s.end_secs, s.text@)).push(
                    (entries@[i as int].0, entries@[i as int].1, trim(entries@[i as int].2@)),
                ));
            }
        }
        i = i + 1;
    }
    proof {
        assert(entries@.take(entries@.len() as int) =~= entries@);
    }
    out
}

} // verus!
