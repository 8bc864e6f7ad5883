use auris_core::models::{
    is_parakeet, parakeet_dir, parakeet_present, pick_model, validate_model_id, whisper_id,
    whisper_models, whisper_path, whisper_present, whisper_url, models_dir, models_status, ModelInfo,
    DEFAULT_WHISPER, PARAKEET,
};
use auris_core::error::AppError;

#[test]
fn default_and_blank_map_to_turbo() {
    assert_eq!(whisper_id(None), DEFAULT_WHISPER);
    assert_eq!(whisper_id(Some("  ")), DEFAULT_WHISPER);
    assert_eq!(whisper_id(Some("medium")), "medium");
    assert!(whisper_models().iter().any(|m| m.id == DEFAULT_WHISPER));
}

#[test]
fn picks_parakeet_by_default_and_whisper_for_other_languages() {
    assert_eq!(pick_model(None, Some("ru")), PARAKEET);
    assert_eq!(pick_model(Some(""), None), PARAKEET);
    assert_eq!(pick_model(Some(PARAKEET), Some("auto")), PARAKEET);
    assert_eq!(pick_model(Some(PARAKEET), Some("kk")), DEFAULT_WHISPER);
    assert_eq!(pick_model(Some("medium"), Some("kk")), "medium");
}

#[test]
fn rejects_bad_model_ids() {
    assert!(validate_model_id("../x").is_err());
    assert!(validate_model_id("a/b").is_err());
    assert!(validate_model_id("").is_err());
    assert!(validate_model_id("large-v3-turbo-q8_0").is_ok());
    assert!(matches!(validate_model_id("a..b"), Err(AppError::InvalidInput(m)) if m == "bad model id: a..b"));
}

#[test]
fn language_is_trimmed_and_lowercased() {
    assert_eq!(pick_model(None, Some(" RU ")), PARAKEET);
    assert_eq!(pick_model(Some("  base "), Some("kk")), "base");
    assert!(is_parakeet(PARAKEET));
    assert!(!is_parakeet("base"));
}

#[test]
fn model_files_and_urls() {
    assert_eq!(models_dir("/data"), "/data/models");
    assert_eq!(models_dir("/data/"), "/data/models");
    assert_eq!(whisper_path("/data", "base"), "/data/models/ggml-base.bin");
    assert_eq!(parakeet_dir("/data"), "/data/models/parakeet-tdt-0.6b-v3");
    assert_eq!(
        whisper_url("small"),
        "https://huggingface.co/ggerganov/whisper.cpp/resolve/main/ggml-small.bin"
    );
}

#[test]
fn presence_needs_full_downloads() {
    assert!(!whisper_present(None));
    assert!(!whisper_present(Some(1_000_000)));
    assert!(whisper_present(Some(1_000_001)));
    assert!(!parakeet_present(&[Some(1), Some(1), Some(1), Some(1)]));
    assert!(!parakeet_present(&[Some(200_000_000), None, Some(1), Some(1)]));
    assert!(parakeet_present(&[Some(200_000_000), Some(1), Some(1), Some(1)]));
}

fn info(id: &str, kind: &str, installed: bool, bytes: u64) -> ModelInfo {
    ModelInfo { id: id.to_string(), kind: kind.to_string(), installed, bytes }
}

#[test]
fn status_lists_parakeet_whisper_and_voices_with_real_or_approximate_sizes() {
    let whisper = [None, Some(2_000_000), Some(500), None, None, None];
    let parakeet = [Some(200_000_000), Some(10), Some(20), Some(30)];
    let st = models_status(&whisper, &parakeet, Some(6_000_000), Some(26_000_000));
    assert_eq!(
        st,
        vec![
            info(PARAKEET, "parakeet", true, 200_000_060),
            info("large-v3-turbo-q8_0", "whisper", false, 874_000_000),
            info("large-v3-turbo", "whisper", true, 2_000_000),
            info("large-v3", "whisper", false, 3_100_000_000),
            info("medium", "whisper", false, 1_530_000_000),
            info("small", "whisper", false, 488_000_000),
            info("base", "whisper", false, 148_000_000),
            info("voices", "diarize", true, 32_000_000),
        ]
    );
    let none = models_status(&[None; 6], &[None; 4], None, Some(26_000_000));
    assert_eq!(none[0], info(PARAKEET, "parakeet", false, 490_000_000));
    assert_eq!(none[7], info("voices", "diarize", false, 33_000_000));
}
