//! Verified core of the Auris meeting recorder: speaker labels, transcript
//! assembly, AI request planning, model selection and meeting-folder rules.
pub mod ai;
pub mod autorecord;
pub mod call_detector;
pub mod capture;
pub mod cli_transcriber;
pub mod cluster;
pub mod diarize;
pub mod edit;
pub mod error;
pub mod model;
pub mod models;
pub mod nemo_mel;
pub mod prompts;
pub mod recorder;
pub mod service;
pub mod text;
pub mod transcript;
