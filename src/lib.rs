//! Reading and writing constraint-grammar cohort streams: each token line
//! `"<WORD>" TAGS` starts a cohort, and the indented `"BASE" TAGS` lines
//! below it are its readings.
pub mod classify;
pub mod cohort;
pub mod laws;
pub mod parse;
pub mod text;

pub use cohort::{to_cg3_string, Cohort, Reading};
pub use parse::from_string;
