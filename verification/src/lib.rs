//! A batch engine for time-lapse processing: keyframe interpolation of
//! photographic parameters, crop resolution, a per-pixel adjustment
//! transform, RAW-fallback ingestion, frame-range selection, output
//! resolution planning, run bookkeeping and encoder-invocation
//! arguments.  Parameters are fixed-point milli-units throughout.
pub mod adjust;
pub mod crop;
pub mod fixed;
pub mod frame;
pub mod ingest;
pub mod monitor;
pub mod process;
pub mod range;
pub mod resolution;
pub mod settings;
pub mod strutil;
pub mod timeline;
pub mod video;
