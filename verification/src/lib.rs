//! Per-chunk column statistics (null count, minimum, maximum) for a columnar
//! table format, together with the fragment model the statistics are keyed by.

pub mod collector;
pub mod columns;
pub mod fragment;
pub mod limits;
pub mod pb;
pub mod statistics;
pub mod truncate;
pub mod value;
