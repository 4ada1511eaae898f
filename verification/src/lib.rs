//! Duplicate-file detection core: a three-stage pipeline that narrows
//! candidates first by byte size, then by a run-seeded 128-bit content
//! fingerprint, together with the rendering of the final report.

pub mod fingerprint;
pub mod formatter;
pub mod hashwise;
pub mod params;
pub mod pipeline;
pub mod record;
pub mod sizewise;

pub use record::FileRecord;
