//! The functions that PostgreSQL clients call for the time and the version.

use chrono::{Datelike, NaiveDate, Timelike, Utc};
use vstd::prelude::*;

use crate::numerals;
use crate::text;
use crate::value::{Value, ValueModel};

verus! {

/// The form of a timestamp: date and time of day, down to milliseconds.
pub const TIMESTAMP_FORMAT: &'static str = "%Y-%m-%d %H:%M:%S%.3f";

/// What a function of this module computes.
#[derive(Debug, Clone, Copy, PartialEq, Eq, Structural)]
pub enum AliasFunction {
    Now,
    Version,
}

/// A function under the name by which it is called, with all that is handed to
/// the host to register it.
#[derive(Debug, Clone, Copy)]
pub struct Alias {
    pub name: &'static str,
    /// How many arguments it takes; any number where this is negative.
    pub args: i32,
    /// Whether the same arguments always give the same answer.
    pub deterministic: bool,
    /// What else the host is to know of it, as bits.
    pub flags: u32,
    pub function: AliasFunction,
    /// A handle that the host passes to the function with each call.
    pub user_data: Option<usize>,
    /// A handle by which the host gives the first one up.
    pub destructor: Option<usize>,
}

/// Whether an alias has a name and stands for a function, takes any number of
/// arguments, is not deterministic, and has neither flags nor handles.
pub open spec fn stands_for(a: Alias, name: Seq<char>, function: AliasFunction) -> bool {
    &&& a.name@ == name
    &&& a.args == -1
    &&& !a.deterministic
    &&& a.flags == 0
    &&& a.function == function
    &&& a.user_data is None
    &&& a.destructor is None
}

/// The functions to register, each under its name.
pub fn pg_functions() -> (r: Vec<Alias>)
    ensures
        r@.len() == 5,
        stands_for(r@[0], "now"@, AliasFunction::Now),
        stands_for(r@[1], "clock_timestamp"@, AliasFunction::Now),
        stands_for(r@[2], "transaction_timestamp"@, AliasFunction::Now),
        stands_for(r@[3], "statement_timestamp"@, AliasFunction::Now),
        stands_for(r@[4], "version"@, AliasFunction::Version),
{
    let mut r: Vec<Alias> = Vec::new();
    r.push(alias("now", AliasFunction::Now));
    r.push(alias("clock_timestamp", AliasFunction::Now));
    r.push(alias("transaction_timestamp", AliasFunction::Now));
    r.push(alias("statement_timestamp", AliasFunction::Now));
    r.push(alias("version", AliasFunction::Version));
    r
}

/// A function of any number of arguments under a name.
fn alias(name: &'static str, function: AliasFunction) -> (r: Alias)
    ensures
        stands_for(r, name@, function),
{
    Alias {
        name,
        args: -1,
        deterministic: false,
        flags: 0,
        function,
        user_data: None,
        destructor: None,
    }
}

/// A moment by its date and its time of day.
#[derive(Debug, Clone, Copy)]
pub struct Moment {
    pub year: i32,
    pub month: u32,
    pub day: u32,
    pub hour: u32,
    pub minute: u32,
    pub second: u32,
    /// A second that is the 59th may go on for another, as a leap second.
    pub nanosecond: u32,
}

/// Whether a year has a 29th of February.
pub open spec fn is_leap(year: int) -> bool {
    year % 4 == 0 && (year % 100 != 0 || year % 400 == 0)
}

/// The number of days of a month.
pub open spec fn month_days(year: int, month: int) -> int {
    if month == 2 {
        if is_leap(year) {
            29
        } else {
            28
        }
    } else if month == 4 || month == 6 || month == 9 || month == 11 {
        30
    } else {
        31
    }
}

/// Whether there is such a moment, in the years that can be told.
pub open spec fn is_moment(m: Moment) -> bool {
    &&& -262143 <= m.year <= 262142
    &&& 1 <= m.month <= 12
    &&& 1 <= m.day <= month_days(m.year as int, m.month as int)
    &&& m.hour < 24
    &&& m.minute < 60
    &&& m.second < 60
    &&& m.nanosecond < 1_000_000_000 || (m.second == 59 && m.nanosecond < 2_000_000_000)
}

/// Whether a clock can show a moment: it is in 1970 or later, and not in a leap
/// second.
pub open spec fn is_present(m: Moment) -> bool {
    is_moment(m) && m.year >= 1970 && m.nanosecond < 1_000_000_000
}

/// A year with four digits at least, and with a sign where it has more or is
/// before the year zero.
pub open spec fn year_text(year: int) -> Seq<char> {
    if year < 0 {
        seq!['-'] + numerals::padded((-year) as nat, 4)
    } else if year < 10_000 {
        numerals::padded(year as nat, 4)
    } else {
        seq!['+'] + numerals::decimal(year as nat)
    }
}

/// Two digits.
pub open spec fn two_digits(n: int) -> Seq<char> {
    numerals::padded(n as nat, 2)
}

/// The text of a moment.
pub open spec fn moment_text(m: Moment) -> Seq<char> {
    year_text(m.year as int) + seq!['-'] + two_digits(m.month as int) + seq!['-'] + two_digits(
        m.day as int,
    ) + seq![' '] + two_digits(m.hour as int) + seq![':'] + two_digits(m.minute as int) + seq![':']
        + two_digits(m.second + m.nanosecond as int / 1_000_000_000) + seq!['.'] + numerals::padded(
        (m.nanosecond as int / 1_000_000 % 1000) as nat,
        3,
    )
}

/// Writes a moment with `chrono::DateTime::format`. A moment that there is not
/// is refused by `NaiveDate::from_ymd_opt` or `NaiveDate::and_hms_nano_opt`,
/// which bring it into chrono's type. The claim is for one form alone: the year
/// with a sign outside of the years 0 to 9999, two digits for the other parts,
/// where a leap second is the second 60, and three digits of the fraction, cut
/// off and not rounded.
#[verifier::external_body]
fn format_moment(m: &Moment, form: &str) -> (r: Option<String>)
    requires
        form@ == TIMESTAMP_FORMAT@,
    ensures
        match r {
            Some(s) => is_moment(*m) && s@ == moment_text(*m),
            None => !is_moment(*m),
        },
{
    let date = NaiveDate::from_ymd_opt(m.year, m.month, m.day)?;
    let moment = date.and_hms_nano_opt(m.hour, m.minute, m.second, m.nanosecond)?;
    Some(moment.and_utc().format(form).to_string())
}

/// Reads the clock with `chrono::Utc::now`, which gives the present moment in
/// UTC. Which one that is depends on the machine, and nothing is claimed of it
/// but that it is a moment, in 1970 or later, and none in a leap second: the
/// clock counts the seconds since 1970, as a number that fits into 64 bits with
/// a sign, and a fraction below one. The call panics on a machine whose clock
/// stands before 1970 or after the last year that chrono can tell.
#[verifier::external_body]
fn utc_now() -> (r: Moment)
    ensures
        is_present(r),
{
    let now = Utc::now();
    Moment {
        year: now.year(),
        month: now.month(),
        day: now.day(),
        hour: now.hour(),
        minute: now.minute(),
        second: now.second(),
        nanosecond: now.nanosecond(),
    }
}

/// The text of a moment, if there is such a moment.
pub fn timestamp_text(m: &Moment) -> (r: Option<String>)
    ensures
        match r {
            Some(s) => is_moment(*m) && s@ == moment_text(*m),
            None => !is_moment(*m),
        },
{
    format_moment(m, TIMESTAMP_FORMAT)
}

/// The present moment, in UTC, by the clock of the machine.
pub fn present_moment() -> (m: Moment)
    ensures
        is_present(m),
{
    utc_now()
}

/// The present moment, in UTC, as a text. The arguments are not looked at.
pub fn postgres_frontend_now(_args: &[Value]) -> (r: Value)
    ensures
        exists|m: Moment| #[trigger]
            call_ensures(present_moment, (), m) && is_present(m) && r@ == ValueModel::Text(
                moment_text(m),
            ),
{
    let now = present_moment();
    match timestamp_text(&now) {
        Some(s) => Value::Text(s),
        None => Value::Null,
    }
}

/// The major and the minor version in a version number, which holds the major
/// in ten thousands and the minor below; both have the sign of the number.
pub open spec fn version_parts(n: int) -> (int, int) {
    if n >= 0 {
        (n / 10_000, n % 10_000)
    } else {
        (-(-n / 10_000), -(-n % 10_000))
    }
}

/// The parts of a version number make up the number.
pub proof fn law_version_parts(n: int)
    ensures
        ({
            let (major, minor) = version_parts(n);
            major * 10_000 + minor == n && -10_000 < minor < 10_000
        }),
{
}

/// The major and the minor version of the PostgreSQL grammar, from the version
/// number that its parser gives with what it parses. Zero where it gave none.
pub fn embedded_postgres_version(version_num: Option<i32>) -> (r: (i32, i32))
    ensures
        (r.0 as int, r.1 as int) == version_parts(
            match version_num {
                Some(n) => n as int,
                None => 0,
            },
        ),
{
    let n: i64 = match version_num {
        Some(n) => n as i64,
        None => 0,
    };
    if n >= 0 {
        ((n / 10_000) as i32, (n % 10_000) as i32)
    } else {
        (-((-n / 10_000) as i32), -((-n % 10_000) as i32))
    }
}

/// The text that a server of this package gives as its version.
pub open spec fn version_text(major: int, minor: int, package_version: Seq<char>) -> Seq<char> {
    "PostgreSQL "@ + numerals::integer_text(major) + "."@ + numerals::integer_text(minor)
        + " on Turso "@ + package_version
}

/// The version as a text: that of the PostgreSQL grammar, from the version
/// number of its parser, and that of the package. The arguments are not looked
/// at.
pub fn postgres_frontend_version(
    _args: &[Value],
    version_num: Option<i32>,
    package_version: &str,
) -> (r: Value)
    ensures
        ({
            let (major, minor) = version_parts(
                match version_num {
                    Some(n) => n as int,
                    None => 0,
                },
            );
            r@ == ValueModel::Text(version_text(major, minor, package_version@))
        }),
{
    let (major, minor) = embedded_postgres_version(version_num);
    let mut s = "PostgreSQL ".to_owned();
    s.append(text::string_of(numerals::write_integer(major as i64).as_slice()).as_str());
    s.append(".");
    s.append(text::string_of(numerals::write_integer(minor as i64).as_slice()).as_str());
    s.append(" on Turso ");
    s.append(package_version);
    Value::Text(s)
}

} // verus!
