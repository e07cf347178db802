//! Process-wide helpers: the wall clock and a small tagged logger.
//!
//! Both sit at the boundary of the verified core: the clock value is
//! environment-dependent and nothing is promised of it, and the logger only
//! writes tagged lines to standard output.

use vstd::prelude::*;

use colored::Colorize;
use std::io::Write;

verus! {

/// Log severities, in increasing order of urgency.
#[derive(Clone, Copy, Debug, PartialEq, Eq, Structural)]
pub enum Severity {
    DEBUG,
    LOG,
    WARN,
    ERROR,
}

/// Relies on `std::time::SystemTime::now`: the nanoseconds elapsed since the
/// Unix epoch, or 0 if the clock reads earlier than the epoch. The result
/// depends on the machine's clock, so nothing is promised of it.
#[verifier::external_body]
pub fn get_nano_time() -> u128 {
    match std::time::SystemTime::now().duration_since(std::time::UNIX_EPOCH) {
        Ok(d) => d.as_nanos(),
        Err(_) => 0,
    }
}

/// Relies on `colored::Colorize::green` for the tag colour; writes the tagged
/// line to standard output.
#[verifier::external_body]
fn print_debug_line(log_obj: &str) {
    let _ = writeln!(std::io::stdout(), "{} {}", "[-]".green(), log_obj);
}

/// Relies on `colored::Colorize::white` for the tag colour; writes the tagged
/// line to standard output.
#[verifier::external_body]
fn print_log_line(log_obj: &str) {
    let _ = writeln!(std::io::stdout(), "{} {}", "[+]".white(), log_obj);
}

/// Relies on `colored::Colorize::yellow` and `colored::Colorize::bold` for the
/// tag style; writes the tagged line to standard output.
#[verifier::external_body]
fn print_warn_line(log_obj: &str) {
    let _ = writeln!(std::io::stdout(), "{} {}", "[*]".yellow().bold(), log_obj);
}

/// Relies on `colored::Colorize::red` and `colored::Colorize::bold` for the
/// tag style; writes the tagged line to standard output.
#[verifier::external_body]
fn print_error_line(log_obj: &str) {
    let _ = writeln!(std::io::stdout(), "{} {}", "[!]".red().bold(), log_obj);
}

/// Writes one line with the tag that belongs to `severity`.
fn l(log_obj: &str, severity: &Severity) {
    match severity {
        Severity::DEBUG => print_debug_line(log_obj),
        Severity::LOG => print_log_line(log_obj),
        Severity::WARN => print_warn_line(log_obj),
        Severity::ERROR => print_error_line(log_obj),
    }
}

/// Logs a line at `DEBUG` severity.
pub fn debug(log_obj: &str) {
    l(log_obj, &Severity::DEBUG);
}

/// Logs a line at `LOG` severity.
pub fn log(log_obj: &str) {
    l(log_obj, &Severity::LOG);
}

/// Logs a line at `WARN` severity.
pub fn warn(log_obj: &str) {
    l(log_obj, &Severity::WARN);
}

/// Logs a line at `ERROR` severity.
pub fn error(log_obj: &str) {
    l(log_obj, &Severity::ERROR);
}

} // verus!
