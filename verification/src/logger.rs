//! Verbosity control for the surrounding program.
//!
//! The logger decides, from its level, which messages come out and how they
//! are prefixed; the decisions and the line composition are verified, only
//! the writes to the terminal are trusted. The program around the library
//! keeps the single shared instance.

use std::io::Write;
use vstd::prelude::*;
use vstd::string::StringExecFns;
use crate::text::{dec_digits, string_from_chars, push_u64_digits};

verus! {

/// Verbosity level for controlling output.
#[derive(Debug, Clone, Copy, PartialEq, Eq, Structural)]
pub enum VerbosityLevel {
    /// Only file paths come out.
    Quiet,
    /// Progress messages without prefixes.
    Normal,
    /// Timestamped logs with details.
    Verbose,
}

/// Controls what the program prints.
#[derive(Debug)]
pub struct Logger {
    /// How much to print.
    pub level: VerbosityLevel,
    /// Whether color escape codes are added.
    pub colors_enabled: bool,
    /// When the program started, for the timestamps of verbose mode.
    pub start: Option<std::time::Instant>,
}

/// The timestamps rely on `std::time::Instant`, declared here because the
/// logger stores the program's start time.
#[verifier::external_type_specification]
#[verifier::external_body]
pub struct ExInstant(std::time::Instant);

/// Relies on `Instant::elapsed` and `Duration::as_millis` for the wall time
/// since `start`; nothing is assumed of the value.
#[verifier::external_body]
fn elapsed_ms(start: &std::time::Instant) -> u64 {
    start.elapsed().as_millis() as u64
}

/// Relies on `writeln!` to `std::io::stdout` to put one line on standard
/// output.
#[verifier::external_body]
fn print_stdout_line(s: &String) {
    let mut out = std::io::stdout();
    writeln!(out, "{}", s).ok();
}

/// Relies on `writeln!` to `std::io::stderr` to put one line on standard
/// error.
#[verifier::external_body]
fn print_stderr_line(s: &String) {
    let mut err = std::io::stderr();
    writeln!(err, "{}", s).ok();
}

/// Relies on `write!` to `std::io::stdout`, flushed, to put text on
/// standard output without a newline.
#[verifier::external_body]
fn print_stdout_raw(s: &String) {
    let mut out = std::io::stdout();
    write!(out, "{}", s).ok();
    std::io::Write::flush(&mut out).ok();
}

/// The timestamp text of an elapsed time: whole seconds, a dot, and
/// hundredths, rounded to the nearest hundredth.
pub open spec fn stamp_chars(ms: int) -> Seq<char> {
    let cs = (ms + 5) / 10;
    dec_digits(cs / 100) + seq!['.'] + dec_digits((cs % 100) / 10) + seq![
        crate::text::digit_of(cs % 10),
    ]
}

/// The elapsed-seconds stamp, e.g. `12.03`.
fn format_stamp(ms: u64) -> (r: String)
    ensures
        r@ == stamp_chars(ms as int),
{
    let cs = ms / 10 + (ms % 10 + 5) / 10;
    proof {
        vstd::arithmetic::div_mod::lemma_hoist_over_denominator(
            ms as int % 10 + 5,
            ms as int / 10,
            10,
        );
        vstd::arithmetic::div_mod::lemma_fundamental_div_mod(ms as int, 10);
        assert(cs as int == (ms as int + 5) / 10);
    }
    let mut v: Vec<char> = Vec::new();
    push_u64_digits(cs / 100, &mut v);
    v.push('.');
    push_u64_digits((cs % 100) / 10, &mut v);
    v.push(crate::text::digit_char(cs % 10));
    proof {
        assert(v@ =~= stamp_chars(ms as int));
    }
    string_from_chars(&v)
}

impl Logger {
    /// Builds a logger; the surrounding program keeps one instance.
    pub fn new(level: VerbosityLevel, colors_enabled: bool, start: Option<std::time::Instant>) -> (r: Logger)
        ensures
            r.level == level,
            r.colors_enabled == colors_enabled,
    {
        Logger { level, colors_enabled, start }
    }

    /// Milliseconds since the start the logger was built with; zero when
    /// none was set.
    fn elapsed(&self) -> u64 {
        match &self.start {
            Option::Some(t) => elapsed_ms(t),
            Option::None => 0,
        }
    }

    /// True if verbose mode is enabled.
    pub fn is_verbose(&self) -> (r: bool)
        ensures
            r == (self.level == VerbosityLevel::Verbose),
    {
        self.level == VerbosityLevel::Verbose
    }

    /// True if quiet mode is enabled.
    pub fn is_quiet(&self) -> (r: bool)
        ensures
            r == (self.level == VerbosityLevel::Quiet),
    {
        self.level == VerbosityLevel::Quiet
    }

    /// The current verbosity level.
    pub fn level(&self) -> (r: VerbosityLevel)
        ensures
            r == self.level,
    {
        self.level
    }

    /// One verbose-mode line: a timestamp, the level tag, the message,
    /// colored when colors are on.
    fn log_with_level(&self, level: &str, msg: &str) {
        let stamp = format_stamp(self.elapsed());
        if self.colors_enabled {
            let color = self.level_color(level);
            let line = "\x1b[90m[".to_owned().concat(stamp.as_str()).concat(
                "s]\x1b[0m ",
            ).concat(color).concat("[").concat(level).concat("]\x1b[0m ").concat(msg);
            print_stdout_line(&line);
        } else {
            let line = "[".to_owned().concat(stamp.as_str()).concat("s] [").concat(level).concat(
                "] ",
            ).concat(msg);
            print_stdout_line(&line);
        }
    }

    /// The escape code of a level tag, told apart by first letter and
    /// length: ERROR red, WARN yellow, INFO blue, DEBUG gray.
    fn level_color(&self, level: &str) -> &'static str {
        let b = level.as_bytes();
        if b.len() == 5 && b[0] == 69u8 {
            "\x1b[31m"
        } else if b.len() == 4 && b[0] == 87u8 {
            "\x1b[33m"
        } else if b.len() == 4 && b[0] == 73u8 {
            "\x1b[34m"
        } else if b.len() == 5 && b[0] == 68u8 {
            "\x1b[90m"
        } else {
            ""
        }
    }

    /// An error message; always displayed, on standard error.
    pub fn error(&self, msg: &str) {
        if self.level == VerbosityLevel::Verbose {
            let stamp = format_stamp(self.elapsed());
            if self.colors_enabled {
                let line = "\x1b[90m[".to_owned().concat(stamp.as_str()).concat(
                    "s]\x1b[0m \x1b[31m[ERROR]\x1b[0m ",
                ).concat(msg);
                print_stderr_line(&line);
            } else {
                let line = "[".to_owned().concat(stamp.as_str()).concat("s] [ERROR] ").concat(msg);
                print_stderr_line(&line);
            }
        } else {
            let line = "Error: ".to_owned().concat(msg);
            print_stderr_line(&line);
        }
    }

    /// A warning; shown in normal and verbose modes.
    pub fn warn(&self, msg: &str) {
        match self.level {
            VerbosityLevel::Quiet => {},
            VerbosityLevel::Normal => print_stdout_line(&msg.to_owned()),
            VerbosityLevel::Verbose => self.log_with_level("WARN", msg),
        }
    }

    /// An output path: bare in quiet mode, prefixed otherwise.
    pub fn output(&self, path: &str) {
        match self.level {
            VerbosityLevel::Quiet => print_stdout_line(&path.to_owned()),
            VerbosityLevel::Normal => print_stdout_line(&"Saved: ".to_owned().concat(path)),
            VerbosityLevel::Verbose => self.log_with_level(
                "INFO",
                "Saved: ".to_owned().concat(path).as_str(),
            ),
        }
    }

    /// An info message; shown in normal and verbose modes.
    pub fn info(&self, msg: &str) {
        match self.level {
            VerbosityLevel::Quiet => {},
            VerbosityLevel::Normal => print_stdout_line(&msg.to_owned()),
            VerbosityLevel::Verbose => self.log_with_level("INFO", msg),
        }
    }

    /// A debug message; shown only in verbose mode.
    pub fn debug(&self, msg: &str) {
        if self.level == VerbosityLevel::Verbose {
            self.log_with_level("DEBUG", msg);
        }
    }

    /// Raw text without a newline, for progress displays; normal mode only.
    pub fn write(&self, msg: &str) {
        if self.level == VerbosityLevel::Normal {
            print_stdout_raw(&msg.to_owned());
        }
    }
}

/// Logs an error through the given logger.
pub fn error(logger: &Logger, msg: &str) {
    logger.error(msg);
}

/// Logs a warning through the given logger.
pub fn warn(logger: &Logger, msg: &str) {
    logger.warn(msg);
}

/// Prints an output path through the given logger.
pub fn output(logger: &Logger, path: &str) {
    logger.output(path);
}

/// Logs an info message through the given logger.
pub fn info(logger: &Logger, msg: &str) {
    logger.info(msg);
}

/// Logs a debug message through the given logger.
pub fn debug(logger: &Logger, msg: &str) {
    logger.debug(msg);
}

/// True if the given logger is in verbose mode.
pub fn is_verbose(logger: &Logger) -> (r: bool)
    ensures
        r == (logger.level == VerbosityLevel::Verbose),
{
    logger.is_verbose()
}

/// True if the given logger is in quiet mode.
pub fn is_quiet(logger: &Logger) -> (r: bool)
    ensures
        r == (logger.level == VerbosityLevel::Quiet),
{
    logger.is_quiet()
}

} // verus!
