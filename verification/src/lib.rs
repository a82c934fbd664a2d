//! Log security analyzer: loads regular-expression detection rules from
//! TOML configuration files (with recursive, cycle-checked includes) and
//! scans log lines for matches, ranked by severity.

pub mod config;
pub mod rules;
pub mod scanner;
pub mod severity;

pub use rules::LoadAction;
pub use rules::LoadError;
pub use rules::Loader;
pub use rules::Rule;
pub use scanner::Match;
pub use scanner::rule_fires;
pub use scanner::scan_lines;
pub use scanner::sort_matches;
pub use severity::Severity;
