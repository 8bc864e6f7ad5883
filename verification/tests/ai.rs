use std::cell::RefCell;

use auris_core::ai::{
    check, extract_json, generate_report, pick_model, report_prompt, report_title, split_chunks,
    strip_think, summarize, to_literary_long, transcript_to_named_text, transcript_to_text,
    answer_question, AiConfig, ChatBackend, HttpChatBackend, MeetingContext, SUMMARY_CHUNK_CHARS,
};
use auris_core::error::{AppError, AppResult};
use auris_core::transcript::{tag_tracks, Segment, Transcript};

/// A backend that answers every request with the same text and records
/// the requests.
struct MockChatBackend {
    response: String,
    last: RefCell<Option<(String, String)>>,
    calls: RefCell<usize>,
}

impl MockChatBackend {
    fn new(response: &str) -> Self {
        Self { response: response.into(), last: RefCell::new(None), calls: RefCell::new(0) }
    }
}

impl ChatBackend for MockChatBackend {
    fn chat(&self, system: &str, user: &str) -> AppResult<String> {
        *self.last.borrow_mut() = Some((system.into(), user.into()));
        *self.calls.borrow_mut() += 1;
        Ok(self.response.clone())
    }
}

fn seg(start: f64, end: f64, text: &str) -> Segment<f64> {
    Segment { start_secs: start, end_secs: end, text: text.into() }
}

// A copy of the application's `merge_tracks` (f64 ordering), which tests
// cannot name; it only feeds the verified text functions below.
fn merged(mic: Vec<Segment<f64>>, system: Vec<Segment<f64>>) -> Transcript<f64> {
    let mut segments = tag_tracks(&mic, &system);
    segments.sort_by(|a, b| a.start_secs.partial_cmp(&b.start_secs).unwrap());
    Transcript { segments }
}

#[test]
fn every_preset_has_prompt_and_title() {
    for k in ["summary", "tasks", "analysis", "literary", "followup", "agent"] {
        let p = report_prompt(k).unwrap();
        assert!(p.contains("ничего не выдумывай"), "{k}");
        assert_ne!(report_title(k), "Отчёт");
    }
    assert!(report_prompt("brief").is_none());
    assert!(report_prompt("../x").is_none());
}

#[test]
fn pick_model_prefers_configured_then_closest() {
    let av = vec!["qwen3.6-27b-q4".to_string(), "llama-3.1-8b".to_string()];
    assert_eq!(pick_model("llama-3.1-8b", &av).as_deref(), Some("llama-3.1-8b"));
    assert_eq!(pick_model("qwen3.5-27b-q4", &av).as_deref(), Some("qwen3.6-27b-q4"));
    assert_eq!(pick_model("", &av).as_deref(), Some("qwen3.6-27b-q4"));
    assert_eq!(pick_model("auto", &av).as_deref(), Some("qwen3.6-27b-q4"));
    assert_eq!(pick_model("zzz", &av).as_deref(), Some("qwen3.6-27b-q4"));
    assert_eq!(pick_model("x", &[]), None);
}

#[test]
fn strip_think_removes_reasoning() {
    assert_eq!(strip_think("<think>hmm\nплан</think>\n\n## Итоги"), "## Итоги");
    assert_eq!(strip_think("просто ответ"), "просто ответ");
}

#[test]
fn summarize_and_answer_pass_through_backend() {
    let b = MockChatBackend::new("краткая выжимка");
    assert_eq!(summarize(&b, "текст").unwrap(), "краткая выжимка");
    let last = b.last.borrow().clone().unwrap();
    assert!(last.1.contains("текст"));

    let b2 = MockChatBackend::new("ответ");
    assert_eq!(answer_question(&b2, "разговор", "вопрос?").unwrap(), "ответ");
    let last2 = b2.last.borrow().clone().unwrap();
    assert!(last2.1.contains("разговор") && last2.1.contains("вопрос?"));
}

#[test]
fn literary_short_is_single_pass() {
    let b = MockChatBackend::new("связный текст");
    let out = to_literary_long(&b, "Я: привет\nСобеседник: здравствуй").unwrap();
    assert_eq!(out, "связный текст");
    assert_eq!(*b.calls.borrow(), 1);
}

#[test]
fn literary_long_rewrites_each_chunk_and_joins() {
    let line = "Я: довольно длинная строка разговора для проверки разбиения\n";
    let big = line.repeat((SUMMARY_CHUNK_CHARS / line.len()) * 2 + 10);
    let b = MockChatBackend::new("часть");
    let out = to_literary_long(&b, &big).unwrap();
    assert!(out.contains("часть\n\nчасть"), "joined output: {out:?}");
    assert!(*b.calls.borrow() >= 2);
}

#[test]
fn transcript_to_text_formats_speakers() {
    let t = merged(vec![seg(0.0, 1.0, "привет")], vec![seg(1.0, 2.0, "хай")]);
    assert_eq!(transcript_to_text(&t), "Я: привет\nСобеседник: хай");
}

#[test]
fn generate_report_short_single_pass_with_context() {
    let b = MockChatBackend::new("## Коротко\nок");
    let ctx = MeetingContext { title: "Бюджет".into(), participants: "Иван".into(), names: Vec::new() };
    let out = generate_report(&b, "summary", "Иван: привет", &ctx).unwrap();
    assert_eq!(out, "## Коротко\nок");
    assert_eq!(*b.calls.borrow(), 1);
    let (sys, user) = b.last.borrow().clone().unwrap();
    assert!(sys.contains("## Решения"));
    assert!(user.contains("Встреча: Бюджет") && user.contains("Иван: привет"));
    assert!(generate_report(&b, "nope", "x", &ctx).is_err());
}

#[test]
fn generate_report_long_uses_notes_then_reduce() {
    let line = "Я: довольно длинная строка разговора для проверки разбиения\n";
    let big = line.repeat((SUMMARY_CHUNK_CHARS / line.len()) * 2 + 10);
    let b = MockChatBackend::new("заметки");
    let out = generate_report(&b, "tasks", &big, &MeetingContext::default()).unwrap();
    assert_eq!(out, "заметки");
    assert!(*b.calls.borrow() >= 3);
    let (sys, user) = b.last.borrow().clone().unwrap();
    assert!(sys.contains("Ответственный"));
    assert!(user.contains("заметки по частям"));

    let lit = MockChatBackend::new("часть");
    let out = generate_report(&lit, "literary", &big, &MeetingContext::default()).unwrap();
    assert!(out.contains("часть\n\nчасть"));
}

#[test]
fn named_text_uses_labels_and_merges_runs() {
    let t = merged(
        vec![seg(0.0, 1.0, "привет"), seg(1.0, 2.0, "как ты")],
        vec![seg(3.0, 4.0, "норм")],
    );
    let names = vec![("them".to_string(), "Олег".to_string())];
    assert_eq!(transcript_to_named_text(&t, &names), "Я: привет как ты\nОлег: норм");
}

#[test]
fn extract_json_takes_outer_braces() {
    assert_eq!(extract_json("Вот:\n```json\n{\"a\":{\"b\":1}}\n```"), "{\"a\":{\"b\":1}}");
    assert_eq!(extract_json("нет json"), "нет json");
    assert_eq!(extract_json("} наоборот {"), "} наоборот {");
}

#[test]
fn split_chunks_cuts_at_lines_by_bytes() {
    // "ab" is 2 bytes, "вг" is 4 bytes.
    assert_eq!(split_chunks("ab\ncd\nef", 5), vec!["ab\ncd".to_string(), "ef".to_string()]);
    assert_eq!(split_chunks("вг\nде", 5), vec!["вг".to_string(), "де".to_string()]);
    assert_eq!(split_chunks("a\r\nb\r", 10), vec!["a\nb\r".to_string()]);
    assert_eq!(split_chunks("", 10), Vec::<String>::new());
    assert_eq!(split_chunks("длинная строка", 4), vec!["длинная строка".to_string()]);
}

#[test]
fn check_reports_listing_and_change() {
    let cfg = AiConfig { base_url: "http://x".into(), api_key: "k".into(), model: "old".into() };
    let c = check(&cfg, Ok(vec!["new-2".to_string()]), 12);
    assert!(c.ok && c.changed);
    assert_eq!(c.model, "new-2");
    assert_eq!(c.models, vec!["new-2".to_string()]);
    assert_eq!(c.latency_ms, 12);
    let bad = check(&cfg, Err(AppError::Http("connection refused".into())), 3);
    assert!(!bad.ok && bad.error.as_deref() == Some("http error: connection refused"));
    assert_eq!(bad.model, "old");
}

#[test]
fn backend_remembers_chosen_model() {
    let mut b = HttpChatBackend::new(AiConfig { base_url: "u".into(), api_key: "k".into(), model: "".into() });
    assert_eq!(b.known_model(), None);
    assert_eq!(b.choose_listed(&["new-2".to_string()]).unwrap(), "new-2");
    assert_eq!(b.used_model().as_deref(), Some("new-2"));
    assert_eq!(b.known_model().as_deref(), Some("new-2"));
    assert!(b.choose_listed(&[]).is_err());
    let mut o = HttpChatBackend::new(AiConfig { base_url: "u".into(), api_key: "k".into(), model: "old".into() });
    assert_eq!(o.known_model().as_deref(), Some("old"));
    assert_eq!(o.retry_model("old", &["new-2".to_string()]).unwrap(), "new-2");
    assert!(o.retry_model("new-2", &["new-2".to_string()]).is_err());
}

use auris_core::prompts::RULES;
use auris_core::ai::{
    analyze, analyze_long_step, distinct_models, brief_from_digest, brief_summary, clean_title, http_status_error,
    is_model_missing, suggest_metadata_ctx_json, suggest_metadata_json, summarize_long_step,
    to_literary_text, LongStep, after_post, relisted, long_text, ChatNext,
};
use auris_core::text::join_strings;

// The three drivers below are copies of the application's loops in
// app/ai.rs, which tests cannot name. The tests that use them exercise
// these copies around the verified round functions (`summarize_long_step`,
// `analyze_long_step`, `long_text`, `brief_from_digest`), not the shipped
// application code.
fn summarize_long<B: ChatBackend>(b: &B, text: &str) -> AppResult<String> {
    let mut t = text.to_string();
    loop {
        match summarize_long_step(b, &t)? {
            LongStep::Done(s) => return Ok(s),
            LongStep::Again(c) => t = c,
        }
    }
}

fn analyze_long<B: ChatBackend>(b: &B, text: &str) -> AppResult<String> {
    let mut t = text.to_string();
    loop {
        match analyze_long_step(b, &t)? {
            LongStep::Done(s) => return Ok(s),
            LongStep::Again(c) => t = c,
        }
    }
}

fn brief_summary_long<B: ChatBackend>(b: &B, text: &str) -> AppResult<String> {
    if !long_text(text) {
        return brief_summary(b, text);
    }
    let digest = summarize_long(b, text)?;
    brief_from_digest(b, &digest)
}

/// A backend that fails every request.
struct FailingBackend;

impl ChatBackend for FailingBackend {
    fn chat(&self, _system: &str, _user: &str) -> AppResult<String> {
        Err(AppError::Http("HTTP 500: down".into()))
    }
}

#[test]
fn summarize_long_short_input_is_single_pass() {
    let b = MockChatBackend::new("итог");
    let out = summarize_long(&b, "короткий разговор").unwrap();
    assert_eq!(out, "итог");
    assert_eq!(*b.calls.borrow(), 1);
}

#[test]
fn summarize_long_chunks_then_reduces() {
    let line = "Я: довольно длинная строка разговора для проверки разбиения\n";
    let big = line.repeat((SUMMARY_CHUNK_CHARS / line.len()) * 3 + 10);
    let b = MockChatBackend::new("короткий конспект");
    let out = summarize_long(&b, &big).unwrap();
    assert_eq!(out, "короткий конспект");
    assert!(*b.calls.borrow() >= 4, "calls={}", *b.calls.borrow());
}

#[test]
fn brief_and_analyze_short_are_single_pass() {
    let b = MockChatBackend::new("кратко");
    assert_eq!(brief_summary_long(&b, "короткий разговор").unwrap(), "кратко");
    assert_eq!(*b.calls.borrow(), 1);

    let a = MockChatBackend::new("анализ");
    assert_eq!(analyze_long(&a, "короткий разговор").unwrap(), "анализ");
    assert_eq!(*a.calls.borrow(), 1);
}

#[test]
fn long_step_asks_again_when_parts_stay_long() {
    let line = "Я: довольно длинная строка разговора для проверки разбиения\n";
    let big = line.repeat((SUMMARY_CHUNK_CHARS / line.len()) * 2 + 10);
    let part = "x".repeat(40_000);
    let b = MockChatBackend::new(&part);
    match summarize_long_step(&b, &big).unwrap() {
        LongStep::Again(c) => assert!(c.len() > SUMMARY_CHUNK_CHARS && c.contains("\n\n---\n\n")),
        LongStep::Done(_) => panic!("the merged parts are still long"),
    }
}

#[test]
fn errors_of_the_backend_come_through() {
    assert!(matches!(summarize(&FailingBackend, "t"), Err(AppError::Http(_))));
    assert!(matches!(to_literary_text(&FailingBackend, "t"), Err(AppError::Http(_))));
    assert!(matches!(analyze(&FailingBackend, "t"), Err(AppError::Http(_))));
    let line = "Я: довольно длинная строка разговора для проверки разбиения\n";
    let big = line.repeat((SUMMARY_CHUNK_CHARS / line.len()) * 2 + 10);
    assert!(matches!(generate_report(&FailingBackend, "tasks", &big, &MeetingContext::default()), Err(AppError::Http(_))));
    assert!(matches!(generate_report(&FailingBackend, "nope", "x", &MeetingContext::default()), Err(AppError::InvalidInput(m)) if m == "unknown report kind: nope"));
}

#[test]
fn model_missing_is_recognised_in_any_case() {
    assert!(is_model_missing(&AppError::Http("HTTP 404: {\"error\":\"Model 'old' not found\"}".into())));
    assert!(is_model_missing(&http_status_error(422, "unknown MODEL")));
    assert!(!is_model_missing(&AppError::Http("HTTP 500: model crashed".into())));
    assert!(!is_model_missing(&AppError::Http("HTTP 404: page".into())));
    let long = "я".repeat(450);
    assert!(matches!(http_status_error(400, &long), AppError::Http(m) if m.chars().count() == "HTTP 400: ".len() + 400));
}

#[test]
fn suggest_metadata_takes_json_out_of_reply() {
    let b = MockChatBackend::new("Вот результат:\n```json\n{\"title\":\"X\",\"participants\":\"A\",\"topic\":\"Y\"}\n```\nГотово.");
    assert_eq!(suggest_metadata_json(&b, "t").unwrap(), "{\"title\":\"X\",\"participants\":\"A\",\"topic\":\"Y\"}");
    let c = MockChatBackend::new("{}");
    let big = "а".repeat(70_000);
    assert_eq!(suggest_metadata_ctx_json(&c, &big).unwrap(), "{}");
    let (_, user) = c.last.borrow().clone().unwrap();
    assert_eq!(user.chars().count(), 40_000 + 3 + 20_000);
}

#[test]
fn suggest_metadata_ctx_strips_quotes() {
    assert_eq!(clean_title(" «Бюджет на Q3» "), "Бюджет на Q3");
    assert_eq!(clean_title("\"«Тема»\""), "Тема");
    assert_eq!(clean_title("«»"), "");
}

#[test]
fn strip_think_keeps_unmatched_tags() {
    assert_eq!(strip_think("</think> ответ <think>"), "</think> ответ <think>");
    assert_eq!(strip_think("a<think>1</think>b<think>2</think>c"), "abc");
}

#[test]
fn split_chunks_parts_fit_or_are_single_lines() {
    let text = "строка один\nдва\nочень-очень длинная строка без переносов\nи ещё";
    for c in split_chunks(text, 20) {
        assert!(c.len() <= 20 || !c.contains('\n'), "{c:?}");
        assert!(!c.is_empty());
    }
}

#[test]
fn listed_models_are_kept_once_in_order() {
    let ids = vec!["b".to_string(), "a".to_string(), "b".to_string(), "c".to_string(), "a".to_string()];
    assert_eq!(distinct_models(ids), vec!["b".to_string(), "a".to_string(), "c".to_string()]);
}

#[test]
fn report_prompts_end_with_the_rules() {
    for k in ["summary", "tasks", "analysis", "literary", "followup", "agent"] {
        assert!(report_prompt(k).unwrap().ends_with(RULES), "{k}");
    }
}

#[test]
fn split_chunks_loses_no_line() {
    let text = "первая строка\nвторая\nтретья строка подлиннее\nчетвёртая";
    for max in [1usize, 10, 30, 1000] {
        let joined = split_chunks(text, max).join("\n");
        assert_eq!(joined, text, "max={max}");
    }
}

#[test]
fn strip_think_twice_is_once() {
    for s in [
        "  <think>a</think> ответ <think>b</think>  ",
        "</think> x <think> y",
        "<think>\n</think>\n\n  ",
        "  просто текст  ",
    ] {
        let once = strip_think(s);
        assert_eq!(strip_think(&once), once);
    }
    assert_eq!(strip_think("  без рассуждений \n"), "без рассуждений");
}

#[test]
fn split_chunks_keeps_every_non_empty_line_in_order() {
    assert_eq!(split_chunks("a\n\nb", 1), vec!["a".to_string(), "b".to_string()]);
    let text = "one\n\ntwo\nthree\n\n\nfour";
    for max in [0usize, 1, 4, 8, 100] {
        let chunks = split_chunks(text, max);
        let kept: Vec<String> = chunks
            .iter()
            .flat_map(|c| c.split('\n').map(|l| l.to_string()).collect::<Vec<_>>())
            .filter(|l| !l.is_empty())
            .collect();
        assert_eq!(kept, vec!["one", "two", "three", "four"]);
    }
}

#[test]
fn chat_relists_only_when_the_model_is_missing() {
    assert!(matches!(after_post(Ok("hi".into())), ChatNext::Done(Ok(ref s)) if s == "hi"));
    let missing = AppError::Http("HTTP 404: model not found".into());
    assert!(matches!(after_post(Err(missing.clone())), ChatNext::Relist(ref e) if *e == missing));
    let down = AppError::Http("HTTP 500: down".into());
    assert!(matches!(after_post(Err(down.clone())), ChatNext::Done(Err(ref e)) if *e == down));
    assert_eq!(relisted(missing.clone(), Err(down.clone())), Err(missing.clone()));
    assert_eq!(relisted(missing, Ok(vec!["m".to_string()])), Ok(vec!["m".to_string()]));
}

#[test]
fn metadata_array_field_is_joined_by_commas() {
    let parts = vec!["Анна".to_string(), "Борис".to_string()];
    assert_eq!(join_strings(&parts, ", "), "Анна, Борис");
    assert_eq!(join_strings(&Vec::new(), ", "), "");
}

#[test]
fn long_text_is_over_the_chunk_size_in_bytes() {
    assert!(!long_text(&"a".repeat(SUMMARY_CHUNK_CHARS)));
    assert!(long_text(&"a".repeat(SUMMARY_CHUNK_CHARS + 1)));
    assert!(long_text(&"я".repeat(SUMMARY_CHUNK_CHARS / 2 + 1)));
}
