//! A single-pass extractor that turns a free-form text blob holding embedded
//! multiple-choice questions into structured question records.

pub mod text;
pub mod block;
pub mod question;
pub mod quiz;
pub mod study_plan;
pub mod grade;
