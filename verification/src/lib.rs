//! Locating source projects on disk: the verified decision logic.

pub mod text;
pub mod time;
pub mod string_set;
pub mod discovery;
pub mod cli;
pub mod version;
pub mod whole_run;
