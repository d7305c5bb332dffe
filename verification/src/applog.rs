//! The log of a session: where it lies, what its lines look like, and the file
//! in which it is handed to whoever troubleshoots.

use crate::calendar;
use crate::calendar::Civil;
use crate::clock;
use crate::library::{DATA_DIR, NO_HOME};
use crate::paths;
use crate::setup::LOGFILE;
use crate::text;
use vstd::prelude::*;

verus! {

/// The stamp that a file name carries, as in `20260804-231502`.
pub open spec fn filename_stamp(c: Civil) -> Seq<char> {
    text::padded(c.0 as int, 4) + text::padded(c.1 as int, 2) + text::padded(c.2 as int, 2)
        + seq!['-'] + text::padded(c.3 as int, 2) + text::padded(c.4 as int, 2) + text::padded(
        c.5 as int,
        2,
    )
}

/// The stamp that a line of the log carries, as in `2026-08-04 23:15:02`.
pub open spec fn log_stamp(c: Civil) -> Seq<char> {
    text::padded(c.0 as int, 4) + seq!['-'] + text::padded(c.1 as int, 2) + seq!['-']
        + text::padded(c.2 as int, 2) + seq![' '] + text::padded(c.3 as int, 2) + seq![':']
        + text::padded(c.4 as int, 2) + seq![':'] + text::padded(c.5 as int, 2)
}

/// Whether a file name can hold this character everywhere: a digit, or a dash.
pub open spec fn is_safe(c: char) -> bool {
    '0' <= c <= '9' || c == '-'
}

/// A padded number holds digits and at most a dash.
proof fn lemma_padded_is_safe(n: int, width: int)
    ensures
        forall|i: int| 0 <= i < text::padded(n, width).len() ==> is_safe(#[trigger] text::padded(n, width)[i]),
{
    let digits = if n < 0 { text::decimal(-n) } else { text::decimal(n) };
    text::lemma_decimal_reads_back(if n < 0 { -n } else { n });
    let fill = text::zeros(if n < 0 { width - 1 - digits.len() } else { width - digits.len() });
    let s = text::padded(n, width);
    let sign: Seq<char> = if n < 0 { seq!['-'] } else { Seq::empty() };
    assert(s == sign + fill + digits);
    assert forall|i: int| 0 <= i < s.len() implies is_safe(#[trigger] s[i]) by {
        if i < sign.len() {
            assert(s[i] == sign[i]);
        } else if i < sign.len() + fill.len() {
            assert(s[i] == fill[i - sign.len()]);
        } else {
            assert(s[i] == digits[i - sign.len() - fill.len()]);
        }
    }
}

/// A stamp can stand in the name of a file: it holds digits and dashes alone.
pub proof fn law_stamp_is_safe_in_file_names(c: Civil)
    ensures
        forall|i: int| 0 <= i < filename_stamp(c).len() ==> is_safe(#[trigger] filename_stamp(c)[i]),
{
    let year = text::padded(c.0 as int, 4);
    let month = text::padded(c.1 as int, 2);
    let day = text::padded(c.2 as int, 2);
    let hour = text::padded(c.3 as int, 2);
    let minute = text::padded(c.4 as int, 2);
    let second = text::padded(c.5 as int, 2);
    lemma_padded_is_safe(c.0 as int, 4);
    lemma_padded_is_safe(c.1 as int, 2);
    lemma_padded_is_safe(c.2 as int, 2);
    lemma_padded_is_safe(c.3 as int, 2);
    lemma_padded_is_safe(c.4 as int, 2);
    lemma_padded_is_safe(c.5 as int, 2);
    lemma_safe_together(year, month);
    lemma_safe_together(year + month, day);
    lemma_safe_together(year + month + day, seq!['-']);
    lemma_safe_together(year + month + day + seq!['-'], hour);
    lemma_safe_together(year + month + day + seq!['-'] + hour, minute);
    lemma_safe_together(year + month + day + seq!['-'] + hour + minute, second);
}

/// Two safe texts are safe together.
proof fn lemma_safe_together(a: Seq<char>, b: Seq<char>)
    requires
        forall|i: int| 0 <= i < a.len() ==> is_safe(#[trigger] a[i]),
        forall|i: int| 0 <= i < b.len() ==> is_safe(#[trigger] b[i]),
    ensures
        forall|i: int| 0 <= i < (a + b).len() ==> is_safe(#[trigger] (a + b)[i]),
{
    assert forall|i: int| 0 <= i < (a + b).len() implies is_safe(#[trigger] (a + b)[i]) by {
        if i < a.len() {
            assert((a + b)[i] == a[i]);
        } else {
            assert((a + b)[i] == b[i - a.len()]);
        }
    }
}

/// The stamp that a file name carries for the second `unix`.
pub fn filename_timestamp_at(unix: i64) -> (stamp: String)
    ensures
        exists|c: Civil|
            calendar::is_civil(c) && calendar::unix_of(c) == unix && stamp@ == #[trigger] filename_stamp(
                c,
            ),
{
    let c = calendar::civil_from_unix(unix);
    let mut stamp = String::new();
    text::push_padded(&mut stamp, c.0, 4);
    text::push_padded(&mut stamp, c.1 as i64, 2);
    text::push_padded(&mut stamp, c.2 as i64, 2);
    stamp.push('-');
    text::push_padded(&mut stamp, c.3 as i64, 2);
    text::push_padded(&mut stamp, c.4 as i64, 2);
    text::push_padded(&mut stamp, c.5 as i64, 2);
    assert(stamp@ == filename_stamp(c));
    stamp
}

/// A stamp of this moment, by a reading of the system clock, that a file name can
/// carry, as in `20260804-231502`.
pub fn filename_timestamp() -> (stamp: String)
    ensures
        exists|reading: std::time::SystemTime, c: Civil|
            calendar::is_civil(c) && calendar::unix_of(c)
                == #[trigger] clock::timestamp_of_reading(reading) && stamp@
                == #[trigger] filename_stamp(c),
{
    filename_timestamp_at(clock::unix_now())
}

/// The stamp that a line of the log carries for the second `unix`.
pub fn timestamp_at(unix: i64) -> (stamp: String)
    ensures
        exists|c: Civil|
            calendar::is_civil(c) && calendar::unix_of(c) == unix && stamp@ == #[trigger] log_stamp(c),
{
    let c = calendar::civil_from_unix(unix);
    let mut stamp = String::new();
    text::push_padded(&mut stamp, c.0, 4);
    stamp.push('-');
    text::push_padded(&mut stamp, c.1 as i64, 2);
    stamp.push('-');
    text::push_padded(&mut stamp, c.2 as i64, 2);
    stamp.push(' ');
    text::push_padded(&mut stamp, c.3 as i64, 2);
    stamp.push(':');
    text::push_padded(&mut stamp, c.4 as i64, 2);
    stamp.push(':');
    text::push_padded(&mut stamp, c.5 as i64, 2);
    assert(stamp@ == log_stamp(c));
    stamp
}

/// The stamp of this moment, by a reading of the system clock, that a line of
/// the log carries.
pub fn timestamp() -> (stamp: String)
    ensures
        exists|reading: std::time::SystemTime, c: Civil|
            calendar::is_civil(c) && calendar::unix_of(c)
                == #[trigger] clock::timestamp_of_reading(reading) && stamp@
                == #[trigger] log_stamp(c),
{
    timestamp_at(clock::unix_now())
}

/// The name of the log in the data directory.
pub const LOG_NAME: &'static str = "steam-punk.log";

/// Where the log lies: in the data directory, which is looked for below `/tmp`
/// where there is no home directory.
pub fn log_path(home: Option<&str>) -> (path: String)
    ensures
        path@ == paths::joined_path(
            paths::joined_path(
                match home {
                    Some(dir) => dir@,
                    None => NO_HOME@,
                },
                DATA_DIR@,
            ),
            LOG_NAME@,
        ),
        home matches Some(dir) ==> path@ == paths::joined_path(
            paths::joined_path(dir@, ".local/share/steampunk"@),
            "steam-punk.log"@,
        ),
        home is None ==> path@ == paths::joined_path(
            paths::joined_path("/tmp"@, ".local/share/steampunk"@),
            "steam-punk.log"@,
        ),
{
    let base = match home {
        Some(dir) => dir,
        None => NO_HOME,
    };
    paths::join_path(&paths::join_path(base, DATA_DIR), LOG_NAME)
}

/// A line of the log: its stamp in brackets, and what it says.
pub fn log_line(stamp: &str, message: &str) -> (line: String)
    ensures
        line@ == seq!['['] + stamp@ + seq![']', ' '] + message@ + seq!['\n'],
{
    let mut line = String::new();
    line.push('[');
    line.push_str(stamp);
    line.push(']');
    line.push(' ');
    line.push_str(message);
    line.push('\n');
    assert(line@ == seq!['['] + stamp@ + seq![']', ' '] + message@ + seq!['\n']);
    line
}

pub const START_NAME: &'static str = "Steam Punk v";

pub const START_NOTE: &'static str = " starting (timestamps below are UTC)";

/// What the first line of a log says.
pub fn start_message(version: &str) -> (message: String)
    ensures
        message@ == START_NAME@ + version@ + START_NOTE@,
        message@ == "Steam Punk v"@ + version@ + " starting (timestamps below are UTC)"@,
{
    let mut message = String::new();
    message.push_str(START_NAME);
    message.push_str(version);
    message.push_str(START_NOTE);
    message
}

pub const EXPORT_APP: &'static str = "==== Steam Punk app log ====\n";

pub const EXPORT_SETUP_OPEN: &'static str = "\n==== privileged setup log (";

pub const EXPORT_SETUP_CLOSE: &'static str = ") ====\n";

pub const UNREADABLE: &'static str = "(could not read: ";

pub const UNAVAILABLE: &'static str = "(not available: ";

pub const NOTE_CLOSE: &'static str = ")\n";

/// A log in the export: what it holds, or why it could not be read.
pub open spec fn exported_log(log: Result<&str, &str>, why: Seq<char>) -> Seq<char> {
    match log {
        Ok(held) => held@,
        Err(reason) => why + reason@ + NOTE_CLOSE@,
    }
}

/// Puts a log, or why it could not be read, behind `out`.
fn push_log(out: &mut String, log: Result<&str, &str>, why: &str)
    ensures
        final(out)@ == old(out)@ + exported_log(log, why@),
{
    match log {
        Ok(held) => {
            out.push_str(held);
        },
        Err(reason) => {
            let ghost before = out@;
            out.push_str(why);
            out.push_str(reason);
            out.push_str(NOTE_CLOSE);
            assert(out@ == before + (why@ + reason@ + NOTE_CLOSE@));
        },
    }
}

/// The log of the application and that of the privileged setup in one text.
/// Each is what was read, or the reason why it could not be read: the second
/// belongs to root, and not every user can read it.
pub fn export_text(app_log: Result<&str, &str>, setup_log: Result<&str, &str>) -> (out: String)
    ensures
        out@ == EXPORT_APP@ + exported_log(app_log, UNREADABLE@) + EXPORT_SETUP_OPEN@ + LOGFILE@
            + EXPORT_SETUP_CLOSE@ + exported_log(setup_log, UNAVAILABLE@),
        ({
            let app = match app_log {
                Ok(held) => held@,
                Err(reason) => "(could not read: "@ + reason@ + ")\n"@,
            };
            let setup = match setup_log {
                Ok(held) => held@,
                Err(reason) => "(not available: "@ + reason@ + ")\n"@,
            };
            out@ == "==== Steam Punk app log ====\n"@ + app + "\n==== privileged setup log ("@
                + "/var/log/steampunk.log"@ + ") ====\n"@ + setup
        }),
{
    let mut out = String::new();
    out.push_str(EXPORT_APP);
    push_log(&mut out, app_log, UNREADABLE);
    out.push_str(EXPORT_SETUP_OPEN);
    out.push_str(LOGFILE);
    out.push_str(EXPORT_SETUP_CLOSE);
    push_log(&mut out, setup_log, UNAVAILABLE);
    out
}

pub const EXPORT_NAME_OPEN: &'static str = "steampunk-log-";

pub const EXPORT_NAME_CLOSE: &'static str = ".txt";

/// The name that an export is offered under.
pub fn export_name(stamp: &str) -> (name: String)
    ensures
        name@ == EXPORT_NAME_OPEN@ + stamp@ + EXPORT_NAME_CLOSE@,
        name@ == "steampunk-log-"@ + stamp@ + ".txt"@,
{
    let mut name = EXPORT_NAME_OPEN.to_owned();
    name.push_str(stamp);
    name.push_str(EXPORT_NAME_CLOSE);
    name
}

/// A number that has no more digits than asked for is as wide as asked for.
proof fn lemma_padded_width(n: int, width: int)
    requires
        width == 2 && 0 <= n <= 99 || width == 4 && 0 <= n <= 9999,
    ensures
        text::padded(n, width).len() == width,
        text::digits_value(text::padded(n, width), 10) == Some(n),
{
    text::law_padded(n, width);
    reveal_with_fuel(text::decimal, 5);
    lemma_zeros_count(width - text::decimal(n).len());
}

/// So many zeros are as many as were asked for.
proof fn lemma_zeros_count(count: int)
    ensures
        text::zeros(count).len() == if count > 0 {
            count
        } else {
            0
        },
    decreases count,
{
    if count > 0 {
        lemma_zeros_count(count - 1);
    }
}

/// The stamp in a file name is the year in four digits, the month and the day in
/// two each, a dash, and the hour, the minute and the second in two each.
pub proof fn law_filename_stamp_reads_back(c: Civil, stamp: Seq<char>)
    requires
        stamp == filename_stamp(c),
        calendar::is_civil(c),
        0 <= c.0 <= 9999,
    ensures
        stamp.len() == 15,
        text::digits_value(stamp.subrange(0, 4), 10) == Some(c.0 as int),
        text::digits_value(stamp.subrange(4, 6), 10) == Some(c.1 as int),
        text::digits_value(stamp.subrange(6, 8), 10) == Some(c.2 as int),
        stamp[8] == '-',
        text::digits_value(stamp.subrange(9, 11), 10) == Some(c.3 as int),
        text::digits_value(stamp.subrange(11, 13), 10) == Some(c.4 as int),
        text::digits_value(stamp.subrange(13, 15), 10) == Some(c.5 as int),
{
    lemma_padded_width(c.0 as int, 4);
    lemma_padded_width(c.1 as int, 2);
    lemma_padded_width(c.2 as int, 2);
    lemma_padded_width(c.3 as int, 2);
    lemma_padded_width(c.4 as int, 2);
    lemma_padded_width(c.5 as int, 2);
    assert(stamp.subrange(0, 4) == text::padded(c.0 as int, 4));
    assert(stamp.subrange(4, 6) == text::padded(c.1 as int, 2));
    assert(stamp.subrange(6, 8) == text::padded(c.2 as int, 2));
    assert(stamp.subrange(9, 11) == text::padded(c.3 as int, 2));
    assert(stamp.subrange(11, 13) == text::padded(c.4 as int, 2));
    assert(stamp.subrange(13, 15) == text::padded(c.5 as int, 2));
}

/// The stamp in the log is the year in four digits, the month and the day in two
/// each, with dashes between them, a space, and the hour, the minute and the
/// second in two each, with colons between them.
pub proof fn law_log_stamp_reads_back(c: Civil, stamp: Seq<char>)
    requires
        stamp == log_stamp(c),
        calendar::is_civil(c),
        0 <= c.0 <= 9999,
    ensures
        stamp.len() == 19,
        text::digits_value(stamp.subrange(0, 4), 10) == Some(c.0 as int),
        stamp[4] == '-',
        text::digits_value(stamp.subrange(5, 7), 10) == Some(c.1 as int),
        stamp[7] == '-',
        text::digits_value(stamp.subrange(8, 10), 10) == Some(c.2 as int),
        stamp[10] == ' ',
        text::digits_value(stamp.subrange(11, 13), 10) == Some(c.3 as int),
        stamp[13] == ':',
        text::digits_value(stamp.subrange(14, 16), 10) == Some(c.4 as int),
        stamp[16] == ':',
        text::digits_value(stamp.subrange(17, 19), 10) == Some(c.5 as int),
{
    lemma_padded_width(c.0 as int, 4);
    lemma_padded_width(c.1 as int, 2);
    lemma_padded_width(c.2 as int, 2);
    lemma_padded_width(c.3 as int, 2);
    lemma_padded_width(c.4 as int, 2);
    lemma_padded_width(c.5 as int, 2);
    assert(stamp.subrange(0, 4) == text::padded(c.0 as int, 4));
    assert(stamp.subrange(5, 7) == text::padded(c.1 as int, 2));
    assert(stamp.subrange(8, 10) == text::padded(c.2 as int, 2));
    assert(stamp.subrange(11, 13) == text::padded(c.3 as int, 2));
    assert(stamp.subrange(14, 16) == text::padded(c.4 as int, 2));
    assert(stamp.subrange(17, 19) == text::padded(c.5 as int, 2));
}

} // verus!
