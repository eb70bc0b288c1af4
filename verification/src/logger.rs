//! Log lines of the daemon and the client.

use vstd::prelude::*;

verus! {

/// How important a log line is, with the word that names it.
pub enum Level {
    Info(&'static str),
    Error(&'static str),
    Debug(&'static str),
}

/// The word of a level.
pub open spec fn level_text(level: Level) -> Seq<char> {
    match level {
        Level::Info(s) => s@,
        Level::Error(s) => s@,
        Level::Debug(s) => s@,
    }
}

impl Level {
    /// The informational level, `INFO`.
    pub fn info() -> (level: Level)
        ensures
            level matches Level::Info(s) && s@ == "INFO"@,
    {
        Level::Info("INFO")
    }

    /// The debugging level, `DEBUG`.
    pub fn debug() -> (level: Level)
        ensures
            level matches Level::Debug(s) && s@ == "DEBUG"@,
    {
        Level::Debug("DEBUG")
    }

    /// The error level, `ERROR`.
    pub fn error() -> (level: Level)
        ensures
            level matches Level::Error(s) && s@ == "ERROR"@,
    {
        Level::Error("ERROR")
    }

    /// The word of the level.
    pub fn as_str(&self) -> (s: &'static str)
        ensures
            s@ == level_text(*self),
    {
        match self {
            Level::Info(s) => s,
            Level::Debug(s) => s,
            Level::Error(s) => s,
        }
    }
}

/// Writes log lines for one service, either compact (a one-letter level mark
/// and the service) or verbose (the service, the local time and the level).
pub struct Logger {
    service: &'static str,
    compact: bool,
}

/// The mark of a level in a compact line: `d` for debugging, `e` for errors,
/// nothing for information.
pub open spec fn compact_prefix(level: Level) -> Seq<char> {
    match level {
        Level::Debug(_) => "d"@,
        Level::Error(_) => "e"@,
        Level::Info(_) => Seq::<char>::empty(),
    }
}

/// A log line of `service` at `level` for `msg`, written at `timestamp`.
pub open spec fn spec_message(
    service: Seq<char>,
    compact: bool,
    level: Level,
    timestamp: Seq<char>,
    msg: Seq<char>,
) -> Seq<char> {
    if compact {
        compact_prefix(level) + "["@ + service + "] "@ + msg
    } else {
        "["@ + service + "] "@ + timestamp + " "@ + level_text(level) + ": "@ + msg
    }
}

/// A decimal digit.
pub open spec fn is_digit(c: char) -> bool {
    '0' <= c <= '9'
}

/// The shape of a time written as `%Y-%m-%d %H:%M:%S`: a year of at least
/// four digits, with a sign before it when it has more or is negative, then
/// `-MM-DD hh:mm:ss` in two-digit fields.
pub open spec fn timestamp_shape(s: Seq<char>) -> bool {
    let n = s.len() as int;
    &&& n >= 19
    &&& forall|i: int|
        0 <= i < n - 15 ==> is_digit(#[trigger] s[i]) || (i == 0 && n > 19 && (s[i] == '+' || s[i]
            == '-'))
    &&& s[n - 15] == '-' && is_digit(s[n - 14]) && is_digit(s[n - 13])
    &&& s[n - 12] == '-' && is_digit(s[n - 11]) && is_digit(s[n - 10])
    &&& s[n - 9] == ' ' && is_digit(s[n - 8]) && is_digit(s[n - 7])
    &&& s[n - 6] == ':' && is_digit(s[n - 5]) && is_digit(s[n - 4])
    &&& s[n - 3] == ':' && is_digit(s[n - 2]) && is_digit(s[n - 1])
}

/// The local time as `%Y-%m-%d %H:%M:%S`, by chrono's `Local::now` and
/// `format`. Only the shape of the text is claimed: chrono writes the year
/// with at least four digits (a sign first when it lies outside `0..10000`)
/// and every other field as two zero-padded digits. Which time it shows
/// depends on the clock and the time zone, and is not claimed.
#[verifier::external_body]
fn local_timestamp() -> (stamp: String)
    ensures
        timestamp_shape(stamp@),
{
    chrono::Local::now().format("%Y-%m-%d %H:%M:%S").to_string()
}

impl Logger {
    /// The name of the service.
    pub closed spec fn spec_service(&self) -> Seq<char> {
        self.service@
    }

    /// Whether lines are compact.
    pub closed spec fn spec_compact(&self) -> bool {
        self.compact
    }

    /// A logger of verbose lines.
    pub fn verbose(service: &'static str) -> (logger: Logger)
        ensures
            logger.spec_service() == service@,
            !logger.spec_compact(),
    {
        Logger { service, compact: false }
    }

    /// A logger of compact lines.
    pub fn compact(service: &'static str) -> (logger: Logger)
        ensures
            logger.spec_service() == service@,
            logger.spec_compact(),
    {
        Logger { service, compact: true }
    }

    /// The line for `msg` at `level`, written at `timestamp`.
    pub fn format_message(&self, level: &Level, timestamp: &str, msg: &str) -> (line: String)
        ensures
            line@ == spec_message(self.spec_service(), self.spec_compact(), *level, timestamp@, msg@),
    {
        if self.compact {
            let mut line = match level {
                Level::Debug(_) => String::from_str("d"),
                Level::Error(_) => String::from_str("e"),
                _ => String::new(),
            };
            line.append("[");
            line.append(self.service);
            line.append("] ");
            line.append(msg);
            line
        } else {
            let mut line = String::from_str("[");
            line.append(self.service);
            line.append("] ");
            line.append(timestamp);
            line.append(" ");
            line.append(level.as_str());
            line.append(": ");
            line.append(msg);
            line
        }
    }

    /// The line for `msg` at `level`; a verbose line carries the local time.
    pub fn create_message(&self, level: Level, msg: &str) -> (line: String)
        ensures
            self.spec_compact() ==> line@ == spec_message(
                self.spec_service(),
                true,
                level,
                Seq::<char>::empty(),
                msg@,
            ),
            !self.spec_compact() ==> exists|timestamp: Seq<char>|
                timestamp_shape(timestamp) && line@ == spec_message(
                    self.spec_service(),
                    self.spec_compact(),
                    level,
                    timestamp,
                    msg@,
                ),
    {
        if self.compact {
            let line = self.format_message(&level, "", msg);
            proof {
                assert(spec_message(self.spec_service(), true, level, ""@, msg@) == line@);
            }
            line
        } else {
            let stamp = local_timestamp();
            let line = self.format_message(&level, stamp.as_str(), msg);
            proof {
                assert(line@ == spec_message(self.spec_service(), self.spec_compact(), level, stamp@, msg@));
            }
            line
        }
    }
}

} // verus!
