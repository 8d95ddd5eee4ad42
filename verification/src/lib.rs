//! Out-of-core helpers for corpus statistics: a tolerant streaming reader of
//! archived web records, a codec for dense matrix files, and the planning
//! behind a sharded, chunked sum of many such files.

pub mod decimal;
pub mod errors;
pub mod farm;
pub mod grammar;
pub mod grammar_laws;
pub mod numpy;
pub mod numpy_laws;
pub mod reducer;
pub mod text;
pub mod warc;
pub mod warc_laws;
