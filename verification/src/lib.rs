//! Source positions for compiler diagnostics: a line index over a source
//! file, and the lookup from a byte offset to the 1-based line and column
//! (counted in UTF-16 code units) that editors show. Beside it, the
//! decisions of the test runner that compares programs compiled by Kira with
//! reference builds.

pub mod encoding;
pub mod output;
pub mod position;
pub mod runner;
pub mod search;
pub mod source_file;
pub mod suite;

pub use output::filter_timer_lines;
pub use runner::{check_run, outputs_agree, wait_action, Args, ArgsError, CliRequest, RunMismatch, WaitAction};
pub use source_file::SourceFile;
pub use suite::{is_c_file_name, is_test_source_name, select_cases, summarize};
