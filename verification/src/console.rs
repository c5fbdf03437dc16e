//! The panel that shows what a debug adapter printed.
use crate::text::{chars, has_prefix, starts_with};
use vstd::prelude::*;

verus! {

pub const OUTPUT_TITLE: &'static str = " Debug Output ";

pub const WAITING: &'static str = "Waiting for debug adapter...";

/// Shows the output of a debug adapter during startup, in a dismissible overlay.
#[derive(Debug)]
pub struct DebugOutputPanel {
    /// Number of log lines last frame.
    pub last_len: usize,
    /// When true, auto-close on successful init. False for manual `:debug-log`.
    pub auto_close: bool,
    /// Tracks whether the panel has already seen an inactive session (prevents
    /// immediate close if a prior session was still active).
    pub seen_inactive: bool,
}

/// A line that the adapter printed as an error.
pub open spec fn is_error(line: Seq<char>) -> bool {
    starts_with(line, "[stderr]"@)
}

pub open spec fn has_errors(log: Seq<String>) -> bool {
    exists|i: int| 0 <= i < log.len() && is_error((#[trigger] log[i])@)
}

/// Whether a line is shown as an error.
pub fn error_line(line: &str) -> (r: bool)
    ensures
        r == is_error(line@),
{
    has_prefix(&chars(line), "[stderr]")
}

fn any_error(log: &Vec<String>) -> (r: bool)
    ensures
        r == has_errors(log@),
{
    let mut i: usize = 0;
    while i < log.len()
        invariant
            i <= log@.len(),
            forall|k: int| 0 <= k < i ==> !is_error((#[trigger] log@[k])@),
        decreases log@.len() - i,
    {
        if error_line(&log[i]) {
            assert(is_error(log@[i as int]@));
            return true;
        }
        i += 1;
    }
    false
}

impl DebugOutputPanel {
    /// Panel opened during startup — will auto-close on success.
    pub fn for_startup() -> (r: DebugOutputPanel)
        ensures
            r.last_len == 0,
            r.auto_close,
            r.seen_inactive,
    {
        DebugOutputPanel { last_len: 0, auto_close: true, seen_inactive: true }
    }

    /// Panel opened manually via `:debug-log` — stays open.
    pub fn manual() -> (r: DebugOutputPanel)
        ensures
            r.last_len == 0,
            !r.auto_close,
            r.seen_inactive,
    {
        DebugOutputPanel { last_len: 0, auto_close: false, seen_inactive: true }
    }

    /// The panel is about to be drawn: answers whether it closes now. It does so
    /// once, when a session became active and nothing was printed as an error.
    pub fn observe(&mut self, log: &Vec<String>, active: bool) -> (r: bool)
        ensures
            r == (old(self).auto_close && active && old(self).seen_inactive && !has_errors(log@)),
            final(self).auto_close == (old(self).auto_close && !r),
            final(self).seen_inactive == (old(self).seen_inactive || (old(self).auto_close
                && !active)),
            final(self).last_len == log@.len(),
    {
        let mut close = false;
        if self.auto_close {
            if !active {
                self.seen_inactive = true;
            }
            if active && self.seen_inactive && !any_error(log) {
                close = true;
                self.auto_close = false;
            }
        }
        self.last_len = log.len();
        close
    }
}

/// The first line that is shown: the panel always shows the end of the log.
pub fn first_shown(lines: usize, rows: usize) -> (r: usize)
    ensures
        r == (if lines > rows {
            lines - rows
        } else {
            0
        }),
{
    if lines > rows {
        lines - rows
    } else {
        0
    }
}

pub fn footer(active: bool) -> (r: &'static str)
    ensures
        r@ == (if active {
            "esc close | session running"@
        } else {
            "esc close | starting..."@
        }),
{
    if active {
        "esc close | session running"
    } else {
        "esc close | starting..."
    }
}

} // verus!
