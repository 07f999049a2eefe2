//! ASR data model: audio sources, time ranges, annotation payloads,
//! character error rate metrics and the evaluation accumulators.

pub mod annotation;
pub mod assignment;
pub mod audio;
pub mod cer;
pub mod chars;
pub mod dataset;
pub mod db;
pub mod display;
pub mod doc;
pub mod evaluation;
pub mod evaluator;
pub mod evaluator_laws;
pub mod extract;
pub mod fasr;
pub mod frames;
pub mod ids;
pub mod legacy;
pub mod optimum;
pub mod ordered;
pub mod probe;
pub mod repr;
pub mod speaker;
pub mod speaker_laws;
pub mod speaker_dataset;
pub mod stream;
pub mod text;
pub mod time;
pub mod timeline;
pub mod tn;
pub mod unicode;

pub use time::{DurationMs, SampleIndex, TimeRange};
