//! Speaker diarization: where its models lie and whether they are there.
use vstd::prelude::*;

use crate::error::AppResult;
use crate::text::{join_path, path_join};
use crate::transcript::DiarSegment;

verus! {

/// The least size of the segmentation model (a guard against a broken
/// download); it really is about 5.9 MB.
pub const SEG_MIN_BYTES: u64 = 5000000;

/// The least size of the embedding model; it really is about 26.5 MB.
pub const EMB_MIN_BYTES: u64 = 25000000;

/// The directory of the diarization models: `<data_dir>/models/diarize`.
pub open spec fn diarize_dir(data_dir: Seq<char>) -> Seq<char> {
    join_path(join_path(data_dir, "models"@), "diarize"@)
}

/// The directory of the diarization models.
pub fn models_dir(data_dir: &str) -> (r: String)
    ensures
        r@ == diarize_dir(data_dir@),
{
    let m = path_join(data_dir, "models");
    path_join(m.as_str(), "diarize")
}

/// The model files (ONNX): the segmentation and the voice embedding.
pub fn model_paths(data_dir: &str) -> (r: (String, String))
    ensures
        r.0@ == join_path(diarize_dir(data_dir@), "segmentation-3.0.onnx"@),
        r.1@ == join_path(diarize_dir(data_dir@), "wespeaker-resnet34.onnx"@),
{
    let dir = models_dir(data_dir);
    (path_join(dir.as_str(), "segmentation-3.0.onnx"), path_join(dir.as_str(), "wespeaker-resnet34.onnx"))
}

/// Whether a file of this size (`None`: missing) is a whole download: it
/// is there and over `min_bytes`.
pub fn file_ok(size: Option<u64>, min_bytes: u64) -> (r: bool)
    ensures
        r == (size matches Some(s) && s > min_bytes),
{
    match size {
        Some(s) => s > min_bytes,
        None => false,
    }
}

/// Whether the diarization models are downloaded, from the sizes of their
/// files (`None`: missing): each is over its least size.
pub fn models_present(seg_size: Option<u64>, emb_size: Option<u64>) -> (r: bool)
    ensures
        r == (seg_size matches Some(s) && s > SEG_MIN_BYTES && (emb_size matches Some(e) && e
            > EMB_MIN_BYTES)),
{
    file_ok(seg_size, SEG_MIN_BYTES) && file_ok(emb_size, EMB_MIN_BYTES)
}

/// A diarizer that finds nobody.
pub struct MockDiarizer;

impl MockDiarizer {
    /// No speaker segments, whatever the audio.
    pub fn diarize<T>(&self, _wav_16k_mono: &str) -> (r: AppResult<Vec<DiarSegment<T>>>)
        ensures
            r matches Ok(v) && v@.len() == 0,
    {
        Ok(Vec::new())
    }
}

} // verus!
