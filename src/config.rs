//! Settings read once per operation.
use vstd::prelude::*;
use vstd::string::StringExecFns;

verus! {

/// Where the log is, how dates are shown, how deep notes go, and how many
/// trailing lines a scan reads.
#[derive(Clone, Debug)]
pub struct Config {
    pub log_path: String,
    pub date_format: String,
    pub note_indent: usize,
    pub scan_window_lines: usize,
}

/// Note indent of a fresh configuration.
pub const DEFAULT_NOTE_INDENT: usize = 6;

/// Scan window of a fresh configuration.
pub const DEFAULT_SCAN_WINDOW: usize = 5000;

impl Config {
    /// The default settings with the given log path.
    pub fn with_log_path(log_path: &str) -> (r: Config)
        ensures
            r.log_path@ == log_path@,
            r.date_format@ == "DD/MM/YYYY"@,
            r.note_indent == DEFAULT_NOTE_INDENT,
            r.scan_window_lines == DEFAULT_SCAN_WINDOW,
    {
        Config {
            log_path: String::from_str(log_path),
            date_format: String::from_str("DD/MM/YYYY"),
            note_indent: DEFAULT_NOTE_INDENT,
            scan_window_lines: DEFAULT_SCAN_WINDOW,
        }
    }
}

impl Default for Config {
    fn default() -> (r: Config)
        ensures
            r.log_path@ == "~/.config/tl/log.md"@,
            r.date_format@ == "DD/MM/YYYY"@,
            r.note_indent == DEFAULT_NOTE_INDENT,
            r.scan_window_lines == DEFAULT_SCAN_WINDOW,
    {
        Config::with_log_path("~/.config/tl/log.md")
    }
}

} // verus!
