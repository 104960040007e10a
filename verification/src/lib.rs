//! An incremental lint cache: which files changed since the last run, which
//! of them pass their chain of linters, and the index of content hashes that
//! lets the next run skip what is already known to be clean.

pub mod chain;
pub mod config;
pub mod detect;
pub mod digest;
pub mod index;
pub mod lint;
pub mod run;
pub mod seqs;
pub mod text;
pub mod walk;
