//! Verified core of the teamim tools: job-state bookkeeping, text search,
//! box-file checks, Masoretic-text extraction and OCR diff distribution.

pub mod boxes;
pub mod boxfile;
pub mod bytes;
pub mod html;
pub mod job;
pub mod mam;
pub mod mam_laws;
pub mod mam_output;
pub mod numbers;
pub mod pieces;
pub mod poll;
pub mod remap;
pub mod scroll;
pub mod search;
pub mod training;
pub mod utf8;
pub mod words;
