//! The lines of the archiver's log and the choice of the file they go to.

use vstd::prelude::*;

use crate::clock::{is_timestamp, is_timestamp_char, lemma_timestamp_chars};
use crate::text::{chars_of, push_all, string_of};

verus! {

/// Where the configuration file is looked for.
pub const CONFIG_FILE_PATH: &'static str = "./config/config.yml";

/// The log file used while no configuration file exists.
pub const INITIAL_LOG_PATH: &'static str = "./initial_status.log";

/// A log line: `<timestamp> [<level>] <message>`.
pub open spec fn log_line(timestamp: Seq<char>, level: Seq<char>, message: Seq<char>) -> Seq<char> {
    timestamp + seq![' ', '['] + level + seq![']', ' '] + message
}

/// Returns the log line for `message` at `log_level`, stamped with
/// `timestamp`.
pub fn format_log_message(timestamp: &str, log_level: &str, message: &str) -> (line: String)
    ensures
        line@ == log_line(timestamp@, log_level@, message@),
{
    let mut cs = chars_of(timestamp);
    cs.push(' ');
    cs.push('[');
    push_all(&mut cs, &chars_of(log_level));
    cs.push(']');
    cs.push(' ');
    push_all(&mut cs, &chars_of(message));
    assert(cs@ =~= log_line(timestamp@, log_level@, message@));
    string_of(&cs)
}

/// The log line that records `message` as information, stamped with
/// `timestamp`.
pub fn info(timestamp: &str, message: &str) -> (line: String)
    ensures
        line@ == log_line(timestamp@, "INFO"@, message@),
{
    format_log_message(timestamp, "INFO", message)
}

/// The log line that records `message` as a warning, stamped with
/// `timestamp`.
pub fn warn(timestamp: &str, message: &str) -> (line: String)
    ensures
        line@ == log_line(timestamp@, "WARN"@, message@),
{
    format_log_message(timestamp, "WARN", message)
}

/// The log line that records `message` as an error, stamped with
/// `timestamp`.
pub fn error(timestamp: &str, message: &str) -> (line: String)
    ensures
        line@ == log_line(timestamp@, "ERROR"@, message@),
{
    format_log_message(timestamp, "ERROR", message)
}

/// A log line gives back its timestamp, level and message: two lines with
/// RFC 3339 timestamps (as chrono writes them) and levels free of `]` are
/// equal only when all three parts are.
pub proof fn lemma_log_line_unambiguous(
    ts1: Seq<char>,
    level1: Seq<char>,
    msg1: Seq<char>,
    ts2: Seq<char>,
    level2: Seq<char>,
    msg2: Seq<char>,
)
    requires
        is_timestamp(ts1),
        is_timestamp(ts2),
        !level1.contains(']'),
        !level2.contains(']'),
        log_line(ts1, level1, msg1) == log_line(ts2, level2, msg2),
    ensures
        ts1 == ts2,
        level1 == level2,
        msg1 == msg2,
{
    lemma_timestamp_chars(ts1);
    lemma_timestamp_chars(ts2);
    let line = log_line(ts1, level1, msg1);
    let n1 = ts1.len() as int;
    let n2 = ts2.len() as int;
    assert(line[n1] == ' ');
    assert(log_line(ts2, level2, msg2)[n2] == ' ');
    if n1 < n2 {
        assert(log_line(ts2, level2, msg2)[n1] == ts2[n1]);
        assert(is_timestamp_char(ts2[n1]));
        assert(false);
    }
    if n2 < n1 {
        assert(line[n2] == ts1[n2]);
        assert(is_timestamp_char(ts1[n2]));
        assert(false);
    }
    assert(n1 == n2);
    assert forall|i: int| 0 <= i < n1 implies ts1[i] == ts2[i] by {
        assert(line[i] == ts1[i]);
        assert(log_line(ts2, level2, msg2)[i] == ts2[i]);
    }
    assert(ts1 =~= ts2);
    let l1 = level1.len() as int;
    let l2 = level2.len() as int;
    assert(line[n1 + 2 + l1] == ']');
    assert(log_line(ts2, level2, msg2)[n1 + 2 + l2] == ']');
    if l1 < l2 {
        assert(log_line(ts2, level2, msg2)[n1 + 2 + l1] == level2[l1]);
        assert(level2.contains(']'));
    }
    if l2 < l1 {
        assert(line[n1 + 2 + l2] == level1[l2]);
        assert(level1.contains(']'));
    }
    assert(l1 == l2);
    assert forall|i: int| 0 <= i < l1 implies level1[i] == level2[i] by {
        assert(line[n1 + 2 + i] == level1[i]);
        assert(log_line(ts2, level2, msg2)[n1 + 2 + i] == level2[i]);
    }
    assert(level1 =~= level2);
    assert(line.len() == n1 + 4 + l1 + msg1.len());
    assert(log_line(ts2, level2, msg2).len() == n1 + 4 + l1 + msg2.len());
    assert(msg1.len() == msg2.len());
    assert forall|i: int| 0 <= i < msg1.len() implies msg1[i] == msg2[i] by {
        assert(line[n1 + 4 + l1 + i] == msg1[i]);
        assert(log_line(ts2, level2, msg2)[n1 + 4 + l1 + i] == msg2[i]);
    }
    assert(msg1 =~= msg2);
}

/// The configured log file and whether it exists yet.
pub struct ConfiguredLog {
    pub path: String,
    pub exists: bool,
}

/// The file a log line is appended to.
#[derive(Debug, PartialEq, Eq)]
pub enum LogDestination {
    /// The log file named by the configuration; when `create_first` holds
    /// it does not exist yet and is created, folders included, first.
    Configured { path: String, create_first: bool },
    /// The initial log file, which does not exist yet and is created first.
    CreateInitial,
    /// The initial log file, which exists.
    ExistingInitial,
}

/// Chooses where a log line goes: while a configuration exists
/// (`configured` is its log file), to the configured log, created when
/// missing; otherwise to the initial log, created when missing.
pub fn plan_log_destination(configured: Option<ConfiguredLog>, initial_exists: bool) -> (dest:
    LogDestination)
    ensures
        match configured {
            Some(c) => dest matches LogDestination::Configured { path, create_first } && path@
                == c.path@ && create_first == !c.exists,
            None => if initial_exists {
                dest is ExistingInitial
            } else {
                dest is CreateInitial
            },
        },
{
    match configured {
        Some(c) => LogDestination::Configured { path: c.path, create_first: !c.exists },
        None => {
            if initial_exists {
                LogDestination::ExistingInitial
            } else {
                LogDestination::CreateInitial
            }
        },
    }
}

} // verus!
