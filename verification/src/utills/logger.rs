//! Log lines: a severity, a local timestamp and a message, written plain to
//! the log file and coloured to the console.

use vstd::prelude::*;
use vstd::string::StringExecFns;

verus! {

/// How serious a log line is.
#[derive(Clone, Copy, PartialEq, Eq, Structural, Debug)]
pub enum Level {
    Log,
    Warning,
    Error,
}

/// The name a level is written under.
pub open spec fn level_name(level: Level) -> Seq<char> {
    match level {
        Level::Log => "LOG"@,
        Level::Warning => "WARNING"@,
        Level::Error => "ERROR"@,
    }
}

/// The console colour escape of a level: grey, yellow, red.
pub open spec fn level_color(level: Level) -> Seq<char> {
    match level {
        Level::Log => "\x1b[90m"@,
        Level::Warning => "\x1b[33m"@,
        Level::Error => "\x1b[31m"@,
    }
}

/// The escape that resets the console colour.
pub open spec fn reset_color() -> Seq<char> {
    "\x1b[0m"@
}

impl Level {
    pub fn as_str(&self) -> (res: &'static str)
        ensures
            res@ == level_name(*self),
    {
        match self {
            Level::Log => "LOG",
            Level::Warning => "WARNING",
            Level::Error => "ERROR",
        }
    }

    pub fn color(&self) -> (res: &'static str)
        ensures
            res@ == level_color(*self),
    {
        match self {
            Level::Log => "\x1b[90m",
            Level::Warning => "\x1b[33m",
            Level::Error => "\x1b[31m",
        }
    }
}

/// The layout of a timestamp on a log line.
pub open spec fn timestamp_format() -> Seq<char> {
    "%Y-%m-%d %H:%M:%S"@
}

/// The layout of the date in a log file's name.
pub open spec fn date_format() -> Seq<char> {
    "%Y-%m-%d"@
}

/// A decimal digit.
pub open spec fn is_digit(c: char) -> bool {
    '0' <= c && c <= '9'
}

/// How chrono writes a year under `%Y`: four digits for the years 0 to 9999,
/// otherwise a sign followed by at least four digits.
pub open spec fn is_year_text(y: Seq<char>) -> bool {
    ||| y.len() == 4 && forall|i: int| 0 <= i < 4 ==> is_digit(#[trigger] y[i])
    ||| y.len() >= 5 && (y[0] == '+' || y[0] == '-') && forall|i: int|
        1 <= i < y.len() ==> is_digit(#[trigger] y[i])
}

/// A date as `%Y-%m-%d` writes it: a year, then `-MM-DD`.
pub open spec fn is_date_text(s: Seq<char>) -> bool {
    let n = s.len();
    &&& n >= 10
    &&& is_year_text(s.take(n - 6))
    &&& s[n - 6] == '-'
    &&& is_digit(s[n - 5]) && is_digit(s[n - 4])
    &&& s[n - 3] == '-'
    &&& is_digit(s[n - 2]) && is_digit(s[n - 1])
}

/// A timestamp as `%Y-%m-%d %H:%M:%S` writes it: a date, then ` HH:MM:SS`.
pub open spec fn is_timestamp_text(s: Seq<char>) -> bool {
    let n = s.len();
    &&& n >= 19
    &&& is_date_text(s.take(n - 9))
    &&& s[n - 9] == ' '
    &&& is_digit(s[n - 8]) && is_digit(s[n - 7])
    &&& s[n - 6] == ':'
    &&& is_digit(s[n - 5]) && is_digit(s[n - 4])
    &&& s[n - 3] == ':'
    &&& is_digit(s[n - 2]) && is_digit(s[n - 1])
}

/// `chrono::Local::now()` formatted with `format` (`DateTime::format`, then
/// `to_string`). Only the two layouts the logger uses are admitted (an invalid
/// layout would make `to_string` panic). Claimed: the text has the layout
/// chrono writes for them (`%Y` four digits, or a sign and at least four
/// digits outside 0..=9999; `%m %d %H %M %S` two zero-padded digits each).
/// Which moment it shows depends on the clock and the time zone and is not
/// claimed.
#[verifier::external_body]
fn local_now_formatted(format: &str) -> (res: String)
    requires
        format@ == timestamp_format() || format@ == date_format(),
    ensures
        format@ == date_format() ==> is_date_text(res@),
        format@ == timestamp_format() ==> is_timestamp_text(res@),
{
    chrono::Local::now().format(format).to_string()
}

/// One line to log.
pub struct LogEntry {
    pub level: Level,
    pub timestamp: String,
    pub message: String,
}

/// The line as written to the log file.
pub open spec fn plain_text(level: Level, timestamp: Seq<char>, message: Seq<char>) -> Seq<char> {
    "["@ + timestamp + "]["@ + level_name(level) + "] "@ + message + "\n"@
}

/// The line as printed to the console.
pub open spec fn colored_text(level: Level, timestamp: Seq<char>, message: Seq<char>) -> Seq<char> {
    level_color(level) + "["@ + timestamp + "]["@ + level_name(level) + "] "@ + message
        + reset_color()
}

impl LogEntry {
    /// An entry for `message` at `level`, stamped `timestamp`.
    pub fn new(level: Level, timestamp: &str, message: &str) -> (e: LogEntry)
        ensures
            e.level == level,
            e.timestamp@ == timestamp@,
            e.message@ == message@,
    {
        LogEntry { level, timestamp: String::from_str(timestamp), message: String::from_str(message) }
    }

    /// `[timestamp][LEVEL] message` and a line break.
    pub fn plain_line(&self) -> (res: String)
        ensures
            res@ == plain_text(self.level, self.timestamp@, self.message@),
    {
        String::from_str("[").concat(self.timestamp.as_str()).concat("][").concat(
            self.level.as_str(),
        ).concat("] ").concat(self.message.as_str()).concat("\n")
    }

    /// The colour escape, `[timestamp][LEVEL] message`, and the reset escape.
    pub fn colored_line(&self) -> (res: String)
        ensures
            res@ == colored_text(self.level, self.timestamp@, self.message@),
    {
        String::from_str(self.level.color()).concat("[").concat(self.timestamp.as_str()).concat(
            "][",
        ).concat(self.level.as_str()).concat("] ").concat(self.message.as_str()).concat(
            "\x1b[0m",
        )
    }

    /// Errors go to the error stream, the rest to standard output.
    pub fn to_stderr(&self) -> (res: bool)
        ensures
            res == (self.level == Level::Error),
    {
        match self.level {
            Level::Error => true,
            _ => false,
        }
    }
}

/// An entry for `message` at `level`, stamped with the current local time.
pub fn write_line(level: Level, message: &str) -> (e: LogEntry)
    ensures
        e.level == level,
        e.message@ == message@,
        is_timestamp_text(e.timestamp@),
{
    let timestamp = local_now_formatted("%Y-%m-%d %H:%M:%S");

    LogEntry::new(level, timestamp.as_str(), message)
}

/// A routine log entry.
pub fn log(message: &str) -> (e: LogEntry)
    ensures
        e.level == Level::Log,
        e.message@ == message@,
        is_timestamp_text(e.timestamp@),
{
    write_line(Level::Log, message)
}

/// A warning entry.
pub fn warning(message: &str) -> (e: LogEntry)
    ensures
        e.level == Level::Warning,
        e.message@ == message@,
        is_timestamp_text(e.timestamp@),
{
    write_line(Level::Warning, message)
}

/// An error entry.
pub fn error(message: &str) -> (e: LogEntry)
    ensures
        e.level == Level::Error,
        e.message@ == message@,
        is_timestamp_text(e.timestamp@),
{
    write_line(Level::Error, message)
}

/// The name of the log file for the day `date`.
pub open spec fn log_file_name(date: Seq<char>) -> Seq<char> {
    "Backend_logs_"@ + date + ".txt"@
}

/// `Backend_logs_{date}.txt`.
pub fn file_name_for_date(date: &str) -> (res: String)
    ensures
        res@ == log_file_name(date@),
{
    String::from_str("Backend_logs_").concat(date).concat(".txt")
}

/// The name of today's log file.
pub fn file_name_for_today() -> (res: String)
    ensures
        exists|date: Seq<char>| is_date_text(date) && res@ == log_file_name(date),
{
    let date = local_now_formatted("%Y-%m-%d");
    file_name_for_date(date.as_str())
}

} // verus!
