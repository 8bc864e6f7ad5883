//! Local speech-recognition models: which one to use, where their files lie
//! and which names are safe to download or delete.
//!
//! Models are downloaded once into `<data_dir>/models` and used offline
//! afterwards. File sizes and downloads belong to the application; the
//! decisions on them are here.
use vstd::prelude::*;

use crate::error::{AppError, AppResult};
use crate::text::{
    chars_of, concat, contains_seq, is_blank_str, join_path, lowercase, path_join,
    push_str, str_eq, string_of, to_lowercase, trim, trim_string,
};

verus! {

/// A Whisper recognition model (ggml, whisper.cpp).
#[derive(Debug, Clone, Copy, PartialEq, Eq)]
pub struct WhisperModel {
    /// Identifier (also the size in the settings): "large-v3-turbo-q8_0" etc.
    pub id: &'static str,
    /// Approximate file size in bytes (for the interface).
    pub approx_bytes: u64,
}

/// The default Whisper model: large-v3-turbo, 8-bit: large-v3 quality for
/// Russian at a speed and size below medium (~0.9 GB).
pub const DEFAULT_WHISPER: &'static str = "large-v3-turbo-q8_0";

/// The NVIDIA Parakeet TDT 0.6B v3 model (ONNX, int8), a separate engine.
pub const PARAKEET: &'static str = "parakeet-tdt-0.6b-v3";

/// The default recognition model: Parakeet v3.
pub const DEFAULT_MODEL: &'static str = PARAKEET;

/// The supported Whisper models, in the order of the interface.
pub open spec fn whisper_models_spec() -> Seq<(Seq<char>, u64)> {
    seq![
        ("large-v3-turbo-q8_0"@, 874_000_000u64),
        ("large-v3-turbo"@, 1_620_000_000u64),
        ("large-v3"@, 3_100_000_000u64),
        ("medium"@, 1_530_000_000u64),
        ("small"@, 488_000_000u64),
        ("base"@, 148_000_000u64),
    ]
}

/// The catalogue of supported Whisper models (order as in the interface).
pub fn whisper_models() -> (r: Vec<WhisperModel>)
    ensures
        r@.map_values(|m: WhisperModel| (m.id@, m.approx_bytes)) == whisper_models_spec(),
{
    let r = vec![
        WhisperModel { id: "large-v3-turbo-q8_0", approx_bytes: 874_000_000 },
        WhisperModel { id: "large-v3-turbo", approx_bytes: 1_620_000_000 },
        WhisperModel { id: "large-v3", approx_bytes: 3_100_000_000 },
        WhisperModel { id: "medium", approx_bytes: 1_530_000_000 },
        WhisperModel { id: "small", approx_bytes: 488_000_000 },
        WhisperModel { id: "base", approx_bytes: 148_000_000 },
    ];
    proof {
        assert(r@.map_values(|m: WhisperModel| (m.id@, m.approx_bytes)) =~= whisper_models_spec());
    }
    r
}

/// The languages of Parakeet v3 (25 European ones); the others go to Whisper.
pub open spec fn is_parakeet_lang(l: Seq<char>) -> bool {
    ||| l == "bg"@ ||| l == "hr"@ ||| l == "cs"@ ||| l == "da"@ ||| l == "nl"@
    ||| l == "en"@ ||| l == "et"@ ||| l == "fi"@ ||| l == "fr"@ ||| l == "de"@
    ||| l == "el"@ ||| l == "hu"@ ||| l == "it"@ ||| l == "lv"@ ||| l == "lt"@
    ||| l == "mt"@ ||| l == "pl"@ ||| l == "pt"@ ||| l == "ro"@ ||| l == "sk"@
    ||| l == "sl"@ ||| l == "es"@ ||| l == "sv"@ ||| l == "ru"@ ||| l == "uk"@
}

/// The 25 European languages of Parakeet v3, by their codes.
pub open spec fn parakeet_langs() -> Seq<Seq<char>> {
    seq![
        "bg"@, "hr"@, "cs"@, "da"@, "nl"@, "en"@, "et"@, "fi"@, "fr"@, "de"@, "el"@, "hu"@,
        "it"@, "lv"@, "lt"@, "mt"@, "pl"@, "pt"@, "ro"@, "sk"@, "sl"@, "es"@, "sv"@, "ru"@,
        "uk"@,
    ]
}

/// Parakeet knows exactly the 25 languages of its list.
pub proof fn lemma_parakeet_knows_its_languages(l: Seq<char>)
    ensures
        is_parakeet_lang(l) <==> parakeet_langs().contains(l),
        parakeet_langs().len() == 25,
{
    let ls = parakeet_langs();
    if is_parakeet_lang(l) {
        if l == "bg"@ { assert(ls[0] == l); } else if l == "hr"@ { assert(ls[1] == l); }
        else if l == "cs"@ { assert(ls[2] == l); } else if l == "da"@ { assert(ls[3] == l); }
        else if l == "nl"@ { assert(ls[4] == l); } else if l == "en"@ { assert(ls[5] == l); }
        else if l == "et"@ { assert(ls[6] == l); } else if l == "fi"@ { assert(ls[7] == l); }
        else if l == "fr"@ { assert(ls[8] == l); } else if l == "de"@ { assert(ls[9] == l); }
        else if l == "el"@ { assert(ls[10] == l); } else if l == "hu"@ { assert(ls[11] == l); }
        else if l == "it"@ { assert(ls[12] == l); } else if l == "lv"@ { assert(ls[13] == l); }
        else if l == "lt"@ { assert(ls[14] == l); } else if l == "mt"@ { assert(ls[15] == l); }
        else if l == "pl"@ { assert(ls[16] == l); } else if l == "pt"@ { assert(ls[17] == l); }
        else if l == "ro"@ { assert(ls[18] == l); } else if l == "sk"@ { assert(ls[19] == l); }
        else if l == "sl"@ { assert(ls[20] == l); } else if l == "es"@ { assert(ls[21] == l); }
        else if l == "sv"@ { assert(ls[22] == l); } else if l == "ru"@ { assert(ls[23] == l); }
        else { assert(ls[24] == l); }
    }
    if ls.contains(l) {
        let i = choose|i: int| 0 <= i < ls.len() && ls[i] == l;
        assert(is_parakeet_lang(ls[i]));
    }
}

/// Parakeet is kept, when chosen, for every language of its list (the
/// language trimmed and lowercased), and when no language is given.
pub proof fn lemma_pick_model_keeps_parakeet(model: Option<Seq<char>>, language: Option<Seq<char>>)
    requires
        chosen_or(model, DEFAULT_MODEL@) == PARAKEET@,
        match language {
            Some(l) => parakeet_langs().contains(lowercase(trim(l))),
            None => true,
        },
    ensures
        pick_model_spec(model, language) == PARAKEET@,
{
    if let Some(l) = language {
        lemma_parakeet_knows_its_languages(lowercase(trim(l)));
    }
}

/// Whether Parakeet knows language `l`.
pub fn parakeet_knows(l: &str) -> (r: bool)
    ensures
        r == is_parakeet_lang(l@),
{
    str_eq(l, "bg") || str_eq(l, "hr") || str_eq(l, "cs") || str_eq(l, "da") || str_eq(l, "nl")
        || str_eq(l, "en") || str_eq(l, "et") || str_eq(l, "fi") || str_eq(l, "fr") || str_eq(
        l,
        "de",
    ) || str_eq(l, "el") || str_eq(l, "hu") || str_eq(l, "it") || str_eq(l, "lv") || str_eq(
        l,
        "lt",
    ) || str_eq(l, "mt") || str_eq(l, "pl") || str_eq(l, "pt") || str_eq(l, "ro") || str_eq(
        l,
        "sk",
    ) || str_eq(l, "sl") || str_eq(l, "es") || str_eq(l, "sv") || str_eq(l, "ru") || str_eq(
        l,
        "uk",
    )
}

/// The user's choice, trimmed, or `default` when it is absent or blank.
pub open spec fn chosen_or(choice: Option<Seq<char>>, default: Seq<char>) -> Seq<char> {
    match choice {
        Some(m) => if trim(m).len() > 0 {
            trim(m)
        } else {
            default
        },
        None => default,
    }
}

/// The text of an optional string slice.
pub open spec fn opt_str(o: Option<&str>) -> Option<Seq<char>> {
    match o {
        Some(s) => Some(s@),
        None => None,
    }
}

/// The model to really use: the user's choice (blank → the default), but
/// Whisper's default when Parakeet is chosen for a language it does not know.
pub open spec fn pick_model_spec(model: Option<Seq<char>>, language: Option<Seq<char>>) -> Seq<
    char,
> {
    let chosen = chosen_or(model, DEFAULT_MODEL@);
    let lang = match language {
        Some(l) => lowercase(trim(l)),
        None => seq![],
    };
    if chosen == PARAKEET@ && !(lang.len() == 0 || lang == "auto"@ || is_parakeet_lang(lang)) {
        DEFAULT_WHISPER@
    } else {
        chosen
    }
}

/// The user's choice trimmed, or `default` when absent or blank.
fn choice_or(choice: Option<&str>, default: &str) -> (r: String)
    ensures
        r@ == chosen_or(opt_str(choice), default@),
{
    match choice {
        Some(m) => {
            let t = trim_string(m);
            if !is_blank_str(t.as_str()) {
                proof {
                    crate::text::lemma_trim_empty_iff_blank(t@);
                    crate::text::lemma_trim_idempotent(m@);
                }
                t
            } else {
                proof {
                    crate::text::lemma_trim_empty_iff_blank(t@);
                    crate::text::lemma_trim_idempotent(m@);
                }
                string_of(default)
            }
        },
        None => string_of(default),
    }
}

/// Which model to really use: the user's choice (blank → the default), but
/// when Parakeet is chosen and the language is unknown to it — Whisper.
pub fn pick_model(model: Option<&str>, language: Option<&str>) -> (r: String)
    ensures
        r@ == pick_model_spec(opt_str(model), opt_str(language)),
{
    let chosen = choice_or(model, DEFAULT_MODEL);
    if is_parakeet(chosen.as_str()) {
        let lang = match language {
            Some(l) => {
                let t = trim_string(l);
                to_lowercase(t.as_str())
            },
            None => String::new(),
        };
        let lv = chars_of(lang.as_str());
        let known = lv.len() == 0 || str_eq(lang.as_str(), "auto") || parakeet_knows(
            lang.as_str(),
        );
        if !known {
            return string_of(DEFAULT_WHISPER);
        }
    }
    chosen
}

/// Whether `id` is Parakeet rather than a Whisper model.
pub fn is_parakeet(id: &str) -> (r: bool)
    ensures
        r == (id@ == PARAKEET@),
{
    str_eq(id, PARAKEET)
}

/// The user's Whisper model, trimmed; blank or absent → the default.
pub fn whisper_id(size: Option<&str>) -> (r: String)
    ensures
        r@ == chosen_or(opt_str(size), DEFAULT_WHISPER@),
{
    choice_or(size, DEFAULT_WHISPER)
}

/// The models directory of a data directory.
pub fn models_dir(data_dir: &str) -> (r: String)
    ensures
        r@ == join_path(data_dir@, "models"@),
{
    path_join(data_dir, "models")
}

/// The directory of the Parakeet model.
pub fn parakeet_dir(data_dir: &str) -> (r: String)
    ensures
        r@ == join_path(join_path(data_dir@, "models"@), PARAKEET@),
{
    let m = models_dir(data_dir);
    path_join(m.as_str(), PARAKEET)
}

/// Whether a file of size `size` (`None`: missing) is larger than `min`
/// bytes.
pub open spec fn size_over(size: Option<u64>, min: u64) -> bool {
    match size {
        Some(n) => n > min,
        None => false,
    }
}

/// The files of the Parakeet model in its directory.
pub open spec fn parakeet_files() -> Seq<Seq<char>> {
    seq!["encoder.int8.onnx"@, "decoder.int8.onnx"@, "joiner.int8.onnx"@, "tokens.txt"@]
}

/// The files of the Parakeet model, in order.
pub fn parakeet_file_names() -> (r: Vec<&'static str>)
    ensures
        r@.map_values(|s: &'static str| s@) == parakeet_files(),
{
    let r = vec!["encoder.int8.onnx", "decoder.int8.onnx", "joiner.int8.onnx", "tokens.txt"];
    proof {
        assert(r@.map_values(|s: &'static str| s@) =~= parakeet_files());
    }
    r
}

/// Whether the Parakeet model is fully downloaded, from the sizes of its
/// files (in the order of [`parakeet_file_names`], `None` for a missing
/// one): every file is not empty and the encoder is over 100 MB.
pub fn parakeet_present(sizes: &[Option<u64>]) -> (r: bool)
    requires
        sizes@.len() == 4,
    ensures
        r == ((forall|i: int| 0 <= i < 4 ==> size_over(#[trigger] sizes@[i], 0)) && size_over(
            sizes@[0],
            100_000_000,
        )),
{
    let mut i: usize = 0;
    while i < 4
        invariant
            i <= 4,
            sizes@.len() == 4,
            forall|k: int| 0 <= k < i ==> size_over(#[trigger] sizes@[k], 0),
        decreases 4 - i,
    {
        match sizes[i] {
            Some(n) => {
                if n == 0 {
                    return false;
                }
            },
            None => {
                return false;
            },
        }
        i = i + 1;
    }
    match sizes[0] {
        Some(n) => n > 100_000_000,
        None => false,
    }
}

/// The file name of Whisper model `id`.
pub open spec fn whisper_file(id: Seq<char>) -> Seq<char> {
    "ggml-"@ + id + ".bin"@
}

/// The file of Whisper model `id`.
pub fn whisper_path(data_dir: &str, id: &str) -> (r: String)
    ensures
        r@ == join_path(join_path(data_dir@, "models"@), whisper_file(id@)),
{
    let m = models_dir(data_dir);
    let mut f = string_of("ggml-");
    push_str(&mut f, id);
    push_str(&mut f, ".bin");
    proof {
        assert(f@ =~= whisper_file(id@));
    }
    path_join(m.as_str(), f.as_str())
}

/// The URL of Whisper model `id` (the official whisper.cpp files).
pub fn whisper_url(id: &str) -> (r: String)
    ensures
        r@ == "https://huggingface.co/ggerganov/whisper.cpp/resolve/main/"@ + whisper_file(id@),
{
    let mut r = string_of("https://huggingface.co/ggerganov/whisper.cpp/resolve/main/ggml-");
    push_str(&mut r, id);
    push_str(&mut r, ".bin");
    proof {
        reveal_strlit("https://huggingface.co/ggerganov/whisper.cpp/resolve/main/ggml-");
        reveal_strlit("https://huggingface.co/ggerganov/whisper.cpp/resolve/main/");
        reveal_strlit("ggml-");
        assert(r@ =~= "https://huggingface.co/ggerganov/whisper.cpp/resolve/main/"@ + whisper_file(
            id@,
        ));
    }
    r
}

/// Whether a Whisper model file of size `size` (`None`: missing) is
/// fully downloaded (over 1 MB, not a broken `.part`).
pub fn whisper_present(size: Option<u64>) -> (r: bool)
    ensures
        r == size_over(size, 1_000_000),
{
    match size {
        Some(n) => n > 1_000_000,
        None => false,
    }
}

/// A character allowed in a model id.
pub open spec fn id_char(c: char) -> bool {
    ('a' <= c && c <= 'z') || ('A' <= c && c <= 'Z') || ('0' <= c && c <= '9') || c == '-' || c
        == '_' || c == '.'
}

/// A model id that names a file in the models directory and nothing else:
/// not empty, only ASCII letters, digits, `-`, `_`, `.`, and no `..`.
pub open spec fn valid_model_id(id: Seq<char>) -> bool {
    &&& id.len() > 0
    &&& forall|i: int| 0 <= i < id.len() ==> id_char(#[trigger] id[i])
    &&& !contains_seq(id, ".."@)
}

/// Checks a model id so that no arbitrary path is downloaded or deleted.
pub fn validate_model_id(id: &str) -> (r: AppResult<()>)
    ensures
        valid_model_id(id@) ==> r is Ok,
        !valid_model_id(id@) ==> (r matches Err(AppError::InvalidInput(m)) && m@
            == "bad model id: "@ + id@),
{
    let v = chars_of(id);
    let mut ok = v.len() > 0;
    let mut i: usize = 0;
    while i < v.len()
        invariant
            i <= v@.len(),
            v@ == id@,
            ok == (v@.len() > 0 && forall|k: int| 0 <= k < i ==> id_char(#[trigger] v@[k])),
        decreases v@.len() - i,
    {
        let c = v[i];
        let good = ('a' <= c && c <= 'z') || ('A' <= c && c <= 'Z') || ('0' <= c && c <= '9')
            || c == '-' || c == '_' || c == '.';
        if !good {
            ok = false;
        }
        i = i + 1;
    }
    let dots = chars_of("..");
    if ok && !crate::text::contains(&v, &dots) {
        Ok(())
    } else {
        Err(AppError::InvalidInput(concat("bad model id: ", id)))
    }
}

/// Status of one model for the "Models" screen.
#[derive(Debug, Clone, PartialEq)]
pub struct ModelInfo {
    pub id: String,
    /// "whisper" | "parakeet" | "diarize".
    pub kind: String,
    pub installed: bool,
    /// Size on disk (when downloaded) or the approximate download size, bytes.
    pub bytes: u64,
}

/// The approximate download size of the Parakeet archive, bytes.
pub const PARAKEET_APPROX_BYTES: u64 = 490_000_000;

/// The approximate download size of the voice models, bytes.
pub const VOICES_APPROX_BYTES: u64 = 33_000_000;

/// A model's status as plain values: id, kind, installed, bytes.
pub open spec fn info_view(m: ModelInfo) -> (Seq<char>, Seq<char>, bool, u64) {
    (m.id@, m.kind@, m.installed, m.bytes)
}

/// The total size of the files that exist (`None`: missing).
pub open spec fn total_size(sizes: Seq<Option<u64>>) -> nat
    decreases sizes.len(),
{
    if sizes.len() == 0 {
        0
    } else {
        total_size(sizes.drop_last()) + match sizes.last() {
            Some(n) => n as nat,
            None => 0,
        }
    }
}

/// Whether the Parakeet model is fully downloaded, by the sizes of its
/// files: every file is not empty and the encoder is over 100 MB.
pub open spec fn parakeet_installed(sizes: Seq<Option<u64>>) -> bool {
    (forall|i: int| 0 <= i < 4 ==> size_over(#[trigger] sizes[i], 0)) && size_over(
        sizes[0],
        100_000_000,
    )
}

/// Whether the voice models are downloaded, by the sizes of their files.
pub open spec fn voices_installed(seg_size: Option<u64>, emb_size: Option<u64>) -> bool {
    size_over(seg_size, crate::diarize::SEG_MIN_BYTES) && size_over(
        emb_size,
        crate::diarize::EMB_MIN_BYTES,
    )
}

/// The status of Whisper model `m` (id, approximate size) whose file has
/// size `size`: installed when over 1 MB, and then its real size.
pub open spec fn whisper_info(m: (Seq<char>, u64), size: Option<u64>) -> (Seq<char>, Seq<char>, bool, u64) {
    let installed = size_over(size, 1_000_000);
    (m.0, "whisper"@, installed, if installed { size->0 } else { m.1 })
}

/// The "Models" screen: Parakeet first, then the Whisper catalogue in its
/// order, then the voice models; each installed one with its size on disk,
/// the others with their approximate download size.
pub open spec fn status_spec(
    whisper_sizes: Seq<Option<u64>>,
    parakeet_sizes: Seq<Option<u64>>,
    seg_size: Option<u64>,
    emb_size: Option<u64>,
) -> Seq<(Seq<char>, Seq<char>, bool, u64)> {
    let pk = parakeet_installed(parakeet_sizes);
    let vi = voices_installed(seg_size, emb_size);
    seq![
        (
            PARAKEET@,
            "parakeet"@,
            pk,
            if pk {
                total_size(parakeet_sizes) as u64
            } else {
                PARAKEET_APPROX_BYTES
            },
        ),
    ] + Seq::new(6, |i: int| whisper_info(whisper_models_spec()[i], whisper_sizes[i])) + seq![
        (
            "voices"@,
            "diarize"@,
            vi,
            if vi {
                total_size(seq![seg_size, emb_size]) as u64
            } else {
                VOICES_APPROX_BYTES
            },
        ),
    ]
}

/// The total size of the files that exist.
fn sum_sizes(sizes: &[Option<u64>]) -> (r: u64)
    requires
        total_size(sizes@) <= u64::MAX,
    ensures
        r == total_size(sizes@),
{
    let mut total: u64 = 0;
    let mut i: usize = 0;
    while i < sizes.len()
        invariant
            i <= sizes@.len(),
            total == total_size(sizes@.take(i as int)),
            total_size(sizes@) <= u64::MAX,
        decreases sizes@.len() - i,
    {
        proof {
            assert(sizes@.take(i + 1).drop_last() =~= sizes@.take(i as int));
            lemma_total_size_prefix(sizes@, i + 1);
        }
        match sizes[i] {
            Some(n) => {
                total = total + n;
            },
            None => {},
        }
        i = i + 1;
    }
    proof {
        assert(sizes@.take(sizes@.len() as int) =~= sizes@);
    }
    total
}

/// A prefix of the sizes adds up to no more than all of them.
proof fn lemma_total_size_prefix(sizes: Seq<Option<u64>>, n: int)
    requires
        0 <= n <= sizes.len(),
    ensures
        total_size(sizes.take(n)) <= total_size(sizes),
    decreases sizes.len(),
{
    if n < sizes.len() {
        assert(sizes.drop_last().take(n) =~= sizes.take(n));
        lemma_total_size_prefix(sizes.drop_last(), n);
    } else {
        assert(sizes.take(n) =~= sizes);
    }
}

/// The status of all models for the "Models" screen, from the sizes of
/// their files (`None`: missing): of the Whisper catalogue in its order, of
/// the Parakeet files in the order of [`parakeet_file_names`], and of the
/// two voice models.
pub fn models_status(
    whisper_sizes: &[Option<u64>],
    parakeet_sizes: &[Option<u64>],
    seg_size: Option<u64>,
    emb_size: Option<u64>,
) -> (r: Vec<ModelInfo>)
    requires
        whisper_sizes@.len() == 6,
        parakeet_sizes@.len() == 4,
        parakeet_installed(parakeet_sizes@) ==> total_size(parakeet_sizes@) <= u64::MAX,
        voices_installed(seg_size, emb_size) ==> total_size(seq![seg_size, emb_size]) <= u64::MAX,
    ensures
        r@.map_values(|m: ModelInfo| info_view(m)) == status_spec(
            whisper_sizes@,
            parakeet_sizes@,
            seg_size,
            emb_size,
        ),
{
    let ghost spec = status_spec(whisper_sizes@, parakeet_sizes@, seg_size, emb_size);
    let mut out: Vec<ModelInfo> = Vec::new();
    let pk = parakeet_present(parakeet_sizes);
    let pbytes = if pk {
        sum_sizes(parakeet_sizes)
    } else {
        PARAKEET_APPROX_BYTES
    };
    out.push(
        ModelInfo {
            id: string_of(PARAKEET),
            kind: string_of("parakeet"),
            installed: pk,
            bytes: pbytes,
        },
    );
    let catalogue = whisper_models();
    proof {
        assert(catalogue@.len() == catalogue@.map_values(
            |m: WhisperModel| (m.id@, m.approx_bytes),
        ).len());
    }
    let mut i: usize = 0;
    while i < 6
        invariant
            i <= 6,
            catalogue@.map_values(|m: WhisperModel| (m.id@, m.approx_bytes)) == whisper_models_spec(),
            catalogue@.len() == 6,
            whisper_sizes@.len() == 6,
            spec == status_spec(whisper_sizes@, parakeet_sizes@, seg_size, emb_size),
            out@.len() == i + 1,
            forall|k: int| 0 <= k < i + 1 ==> info_view(#[trigger] out@[k]) == spec[k],
        decreases 6 - i,
    {
        let m = catalogue[i];
        proof {
            assert(catalogue@.map_values(|m: WhisperModel| (m.id@, m.approx_bytes))[i as int]
                == (m.id@, m.approx_bytes));
        }
        let installed = whisper_present(whisper_sizes[i]);
        let bytes = if installed {
            match whisper_sizes[i] {
                Some(n) => n,
                None => m.approx_bytes,
            }
        } else {
            m.approx_bytes
        };
        out.push(
            ModelInfo {
                id: string_of(m.id),
                kind: string_of("whisper"),
                installed,
                bytes,
            },
        );
        i = i + 1;
    }
    let vi = crate::diarize::models_present(seg_size, emb_size);
    let vbytes = if vi {
        let both = [seg_size, emb_size];
        proof {
            assert(both@ =~= seq![seg_size, emb_size]);
        }
        sum_sizes(&both)
    } else {
        VOICES_APPROX_BYTES
    };
    out.push(
        ModelInfo {
            id: string_of("voices"),
            kind: string_of("diarize"),
            installed: vi,
            bytes: vbytes,
        },
    );
    proof {
        assert(out@.map_values(|m: ModelInfo| info_view(m)) =~= spec);
    }
    out
}

} // verus!
