//! Rules, scanning decisions, analysis and cleaning decisions of a disk
//! cleaner for leftover caches, logs and development artefacts.
//!
//! The library decides; the file system is read and changed by whoever
//! drives it. A scan is a `ScanSession` that asks for what it needs to know
//! (does a directory exist, what is the next entry of a walk, how large is
//! an entry) and records what its rules find. A clean names the paths to
//! move to the trash and turns what moving them gave into results.

pub mod analyzer;
pub mod builtins;
pub mod cleaner;
pub mod order;
pub mod report;
pub mod rules;
pub mod scanner;
pub mod selection;
pub mod text;

pub use analyzer::{format_size, AnalysisReport, Analyzer, CategorySummary};
pub use builtins::macos_builtin_rules;
pub use cleaner::{CleanMode, CleanResult, Cleaner};
pub use report::{CleanDecision, ReportTable};
pub use rules::{Category, Rule, RuleSet, SafetyLevel};
pub use scanner::{ScanAction, ScanEvent, ScanItem, ScanSession, Scanner};
pub use selection::filter_rules;
