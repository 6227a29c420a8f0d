//! The dashboard state: a rolling log window and the figures shown in the
//! header and footer, with the text the terminal draws for them.
use std::collections::VecDeque;
use vstd::prelude::*;
use vstd::string::*;

use crate::text::{decimal_digits, push_decimal, owned};

verus! {

broadcast use vstd::std_specs::vecdeque::group_vec_dequeue_axioms;

/// How many log lines the dashboard keeps.
pub const LOG_CAPACITY: usize = 50usize;

/// One line of the dashboard log.
#[derive(Debug, Clone)]
pub struct AppLog {
    pub level: String,
    pub msg: String,
    pub timestamp: String,
}

/// Everything the dashboard shows.
#[derive(Debug)]
pub struct AppState {
    pub logs: VecDeque<AppLog>,
    pub balance: String,
    pub shard: String,
    pub active_arbs: usize,
    pub total_profit: String,
    pub events_processed: u64,
}

/// `s[at..at + 2]` are two ASCII digits whose number is below `bound`.
pub open spec fn two_digits_below(s: Seq<char>, at: int, bound: int) -> bool {
    &&& '0' <= s[at] <= '9'
    &&& '0' <= s[at + 1] <= '9'
    &&& (s[at] as int - 48) * 10 + (s[at + 1] as int - 48) < bound
}

/// A wall-clock time written `HH:MM:SS` (hours below 24, minutes below 60,
/// seconds below 61 to admit a leap second).
pub open spec fn is_clock_text(s: Seq<char>) -> bool {
    &&& s.len() == 8
    &&& s[2] == ':'
    &&& s[5] == ':'
    &&& two_digits_below(s, 0, 24)
    &&& two_digits_below(s, 3, 60)
    &&& two_digits_below(s, 6, 61)
}

/// Calls `chrono::Local::now().format("%H:%M:%S").to_string()`. The time
/// itself is not stated, only its shape: chrono documents `%H` as 00 to 23,
/// `%M` as 00 to 59 and `%S` as 00 to 60, each zero-padded to two digits.
#[verifier::external_body]
fn local_clock_text() -> (s: String)
    ensures
        is_clock_text(s@),
{
    chrono::Local::now().format("%H:%M:%S").to_string()
}

/// The log window after one more line: the oldest line leaves when the
/// window already holds `LOG_CAPACITY` lines.
pub open spec fn kept_logs(logs: Seq<AppLog>) -> Seq<AppLog> {
    if logs.len() >= LOG_CAPACITY {
        logs.drop_first()
    } else {
        logs
    }
}

impl AppState {
    /// The state before anything happened.
    pub fn new() -> (s: Self)
        ensures
            s.logs@.len() == 0,
            s.balance@ == "Loading..."@,
            s.shard@ == "Unknown"@,
            s.active_arbs == 0,
            s.total_profit@ == "$0.00"@,
            s.events_processed == 0,
    {
        AppState {
            logs: VecDeque::with_capacity(100),
            balance: owned("Loading..."),
            shard: owned("Unknown"),
            active_arbs: 0,
            total_profit: owned("$0.00"),
            events_processed: 0,
        }
    }

    /// Appends a log line stamped with the local time, dropping the oldest
    /// line when the window is full.
    pub fn add_log(&mut self, level: String, msg: String)
        ensures
            final(self).logs@.len() == kept_logs(old(self).logs@).len() + 1,
            final(self).logs@.drop_last() == kept_logs(old(self).logs@),
            final(self).logs@.last().level == level,
            final(self).logs@.last().msg == msg,
            is_clock_text(final(self).logs@.last().timestamp@),
            old(self).logs@.len() <= LOG_CAPACITY ==> final(self).logs@.len() <= LOG_CAPACITY,
            final(self).balance == old(self).balance,
            final(self).shard == old(self).shard,
            final(self).active_arbs == old(self).active_arbs,
            final(self).total_profit == old(self).total_profit,
            final(self).events_processed == old(self).events_processed,
    {
        if self.logs.len() >= LOG_CAPACITY {
            self.logs.pop_front();
        }
        let timestamp = local_clock_text();
        self.logs.push_back(AppLog { level, msg, timestamp });
        proof {
            assert(final(self).logs@.drop_last() =~= kept_logs(old(self).logs@));
        }
    }
}

/// The colour a log line is drawn in.
#[derive(Debug, Clone, Copy, PartialEq, Eq, Structural)]
pub enum LogColor {
    Red,
    Yellow,
    White,
    Green,
}

/// The colour of a log level.
pub open spec fn level_color_spec(level: Seq<char>) -> LogColor {
    if level == "ERROR"@ {
        LogColor::Red
    } else if level == "WARN"@ {
        LogColor::Yellow
    } else if level == "INFO"@ {
        LogColor::White
    } else if level == "ARBITRAGE"@ {
        LogColor::Green
    } else {
        LogColor::White
    }
}

/// The colour a log line of this level is drawn in.
pub fn level_color(level: &String) -> (c: LogColor)
    ensures
        c == level_color_spec(level@),
{
    if *level == owned("ERROR") {
        LogColor::Red
    } else if *level == owned("WARN") {
        LogColor::Yellow
    } else if *level == owned("INFO") {
        LogColor::White
    } else if *level == owned("ARBITRAGE") {
        LogColor::Green
    } else {
        LogColor::White
    }
}

/// `" POLYBOT SWARM | SHARD: {shard} | BALANCE: {balance} | EVENTS: {events}"`.
pub open spec fn header_text_spec(state: &AppState) -> Seq<char> {
    " POLYBOT SWARM | SHARD: "@ + state.shard@ + " | BALANCE: "@ + state.balance@
        + " | EVENTS: "@ + decimal_digits(state.events_processed as nat)
}

/// The dashboard header line.
pub fn header_text(state: &AppState) -> (s: String)
    ensures
        s@ == header_text_spec(state),
{
    let mut s = String::new();
    s.append(" POLYBOT SWARM | SHARD: ");
    s.append(state.shard.as_str());
    s.append(" | BALANCE: ");
    s.append(state.balance.as_str());
    s.append(" | EVENTS: ");
    push_decimal(&mut s, state.events_processed);
    s
}

/// `"{timestamp} [{level}] {msg}"`.
pub open spec fn log_line_spec(log: &AppLog) -> Seq<char> {
    log.timestamp@ + " ["@ + log.level@ + "] "@ + log.msg@
}

/// The text of one dashboard log line.
pub fn log_line(log: &AppLog) -> (s: String)
    ensures
        s@ == log_line_spec(log),
{
    let mut s = String::new();
    s.append(log.timestamp.as_str());
    s.append(" [");
    s.append(log.level.as_str());
    s.append("] ");
    s.append(log.msg.as_str());
    s
}

/// `"Active Arbitrages: {n}\nTotal Profit (Est): {profit}"`.
pub open spec fn stats_text_spec(state: &AppState) -> Seq<char> {
    "Active Arbitrages: "@ + decimal_digits(state.active_arbs as nat) + "\nTotal Profit (Est): "@
        + state.total_profit@
}

/// The dashboard footer text.
pub fn stats_text(state: &AppState) -> (s: String)
    ensures
        s@ == stats_text_spec(state),
{
    let mut s = String::new();
    s.append("Active Arbitrages: ");
    push_decimal(&mut s, state.active_arbs as u64);
    s.append("\nTotal Profit (Est): ");
    s.append(state.total_profit.as_str());
    s
}

/// The key that closes the dashboard.
pub fn is_quit_key(key: char) -> (b: bool)
    ensures
        b == (key == 'q'),
{
    key == 'q'
}

} // verus!
