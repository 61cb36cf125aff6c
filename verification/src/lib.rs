//! Verified core of a small command-line downloader: file naming, batch URL
//! patterns, download planning and the progress/summary text it prints.

pub mod batch;
pub mod binary64;
pub mod mirror;
pub mod plan;
pub mod text;
pub mod utils;
