//! Diagnostics produced by compilation, and their text form.
use crate::text::{push_char, push_decimal, push_str};
use vstd::prelude::*;

verus! {

/// The level of a compilation log.
#[derive(Debug, Clone, Copy, PartialEq, Eq, Structural)]
pub enum LogLevel {
    /// An error.
    Error,
    /// A warning.
    Warning,
    /// An information.
    Info,
}

/// A reference to the source code.
#[derive(Debug)]
pub struct LogLocation {
    /// The file path.
    pub path: String,
    /// The source code.
    pub code: String,
    /// The reference span, in characters (not bytes) of `code`.
    pub span: std::ops::Range<usize>,
}

/// A compilation inner log.
#[derive(Debug)]
pub struct LogInner {
    /// The log level.
    pub level: LogLevel,
    /// The log message.
    pub message: String,
    /// A reference to the source code.
    pub location: Option<LogLocation>,
}

/// A compilation log.
#[derive(Debug)]
pub struct Log {
    /// The log level.
    pub level: LogLevel,
    /// The log message.
    pub message: String,
    /// A reference to the source code.
    pub location: Option<LogLocation>,
    /// Inner logs.
    pub inner: Vec<LogInner>,
}

pub open spec fn level_text(level: LogLevel) -> Seq<char> {
    match level {
        LogLevel::Error => seq!['e', 'r', 'r', 'o', 'r'],
        LogLevel::Warning => seq!['w', 'a', 'r', 'n', 'i', 'n', 'g'],
        LogLevel::Info => seq!['i', 'n', 'f', 'o'],
    }
}

/// Line and column (both from 1) reached after the first `k` characters of `code`.
pub open spec fn line_column(code: Seq<char>, k: nat) -> (nat, nat)
    decreases k,
{
    if k == 0 {
        (1, 1)
    } else {
        let (line, column) = line_column(code, (k - 1) as nat);
        if code[k - 1] == '\n' {
            (line + 1, 1)
        } else {
            (line, column + 1)
        }
    }
}

/// Line and column of the character at `offset`, or after the last one if `offset` is past
/// the end.
pub open spec fn position_of(code: Seq<char>, offset: nat) -> (nat, nat) {
    line_column(code, if offset <= code.len() { offset } else { code.len() })
}

/// `<path>:<line>:<column>`.
pub open spec fn location_text(loc: LogLocation) -> Seq<char> {
    let (line, column) = position_of(loc.code@, loc.span.start as nat);
    loc.path@ + seq![':'] + crate::text::decimal(line) + seq![':'] + crate::text::decimal(column)
}

pub open spec fn suffix_text(location: Option<LogLocation>) -> Seq<char> {
    match location {
        Some(loc) => seq![' ', '(', 'a', 't', ' '] + location_text(loc) + seq![')'],
        None => Seq::empty(),
    }
}

/// `  --> <level>: <message>[ (at <location>)]` and a line break.
pub open spec fn inner_text(log: LogInner) -> Seq<char> {
    seq![' ', ' ', '-', '-', '>', ' '] + level_text(log.level) + seq![':', ' '] + log.message@
        + suffix_text(log.location) + seq!['\n']
}

pub open spec fn inners_text(inner: Seq<LogInner>) -> Seq<char>
    decreases inner.len(),
{
    if inner.len() == 0 {
        Seq::empty()
    } else {
        inners_text(inner.drop_last()) + inner_text(inner.last())
    }
}

/// `<level>: <message>[ (at <location>)]`, a line break, then each inner log.
pub open spec fn log_text(log: Log) -> Seq<char> {
    level_text(log.level) + seq![':', ' '] + log.message@ + suffix_text(log.location)
        + seq!['\n'] + inners_text(log.inner@)
}

fn push_level(s: &mut String, level: LogLevel)
    ensures
        final(s)@ == old(s)@ + level_text(level),
{
    let ghost start = s@;
    match level {
        LogLevel::Error => {
            push_char(s, 'e');
            push_char(s, 'r');
            push_char(s, 'r');
            push_char(s, 'o');
            push_char(s, 'r');
        },
        LogLevel::Warning => {
            push_char(s, 'w');
            push_char(s, 'a');
            push_char(s, 'r');
            push_char(s, 'n');
            push_char(s, 'i');
            push_char(s, 'n');
            push_char(s, 'g');
        },
        LogLevel::Info => {
            push_char(s, 'i');
            push_char(s, 'n');
            push_char(s, 'f');
            push_char(s, 'o');
        },
    }
    assert(s@ =~= start + level_text(level));
}

impl LogLocation {
    /// Line and column of the start of the span.
    pub fn line_column(&self) -> (r: (u128, u128))
        ensures
            r.0 as nat == position_of(self.code@, self.span.start as nat).0,
            r.1 as nat == position_of(self.code@, self.span.start as nat).1,
    {
        let code = crate::text::chars_of(self.code.as_str());
        let end: usize = if self.span.start <= code.len() {
            self.span.start
        } else {
            code.len()
        };
        let mut line: u128 = 1;
        let mut column: u128 = 1;
        let mut k: usize = 0;
        while k < end
            invariant
                k <= end <= code@.len(),
                code@ == self.code@,
                (line as nat, column as nat) == line_column(code@, k as nat),
                line <= k + 1,
                column <= k + 1,
            decreases end - k,
        {
            if code[k] == '\n' {
                line = line + 1;
                column = 1;
            } else {
                column = column + 1;
            }
            k = k + 1;
        }
        (line, column)
    }

    /// `<path>:<line>:<column>`.
    pub fn to_string(&self) -> (r: String)
        ensures
            r@ == location_text(*self),
    {
        let (line, column) = self.line_column();
        let mut r = String::new();
        push_str(&mut r, self.path.as_str());
        push_char(&mut r, ':');
        push_decimal(&mut r, line);
        push_char(&mut r, ':');
        push_decimal(&mut r, column);
        assert(r@ =~= location_text(*self));
        r
    }
}

fn push_suffix(s: &mut String, location: &Option<LogLocation>)
    ensures
        final(s)@ == old(s)@ + suffix_text(*location),
{
    let ghost start = s@;
    if let Some(loc) = location {
        push_char(s, ' ');
        push_char(s, '(');
        push_char(s, 'a');
        push_char(s, 't');
        push_char(s, ' ');
        let t = loc.to_string();
        push_str(s, t.as_str());
        push_char(s, ')');
    }
    assert(s@ =~= start + suffix_text(*location));
}

impl LogInner {
    /// The text of this inner log: `  --> <level>: <message>[ (at <location>)]` and a line
    /// break.
    pub fn to_string(&self) -> (r: String)
        ensures
            r@ == inner_text(*self),
    {
        let mut r = String::new();
        push_char(&mut r, ' ');
        push_char(&mut r, ' ');
        push_char(&mut r, '-');
        push_char(&mut r, '-');
        push_char(&mut r, '>');
        push_char(&mut r, ' ');
        push_level(&mut r, self.level);
        push_char(&mut r, ':');
        push_char(&mut r, ' ');
        push_str(&mut r, self.message.as_str());
        push_suffix(&mut r, &self.location);
        push_char(&mut r, '\n');
        assert(r@ =~= inner_text(*self));
        r
    }
}

impl Log {
    /// A log that reports a failed read or write of `path`:
    /// `<prefix> "<path>": <error>`, with no location.
    pub fn from_io_error(error: &str, path: &str, message_prefix: &str) -> (r: Log)
        ensures
            r.level == LogLevel::Error,
            r.message@ == message_prefix@ + seq![' ', '"'] + path@ + seq!['"', ':', ' ']
                + error@,
            r.location is None,
            r.inner@.len() == 0,
    {
        let mut message = String::new();
        push_str(&mut message, message_prefix);
        push_char(&mut message, ' ');
        push_char(&mut message, '"');
        push_str(&mut message, path);
        push_char(&mut message, '"');
        push_char(&mut message, ':');
        push_char(&mut message, ' ');
        push_str(&mut message, error);
        assert(message@ =~= message_prefix@ + seq![' ', '"'] + path@ + seq!['"', ':', ' ']
            + error@);
        Log { level: LogLevel::Error, message, location: None, inner: Vec::new() }
    }

    /// The text of this log: `<level>: <message>[ (at <location>)]`, a line break, then
    /// the text of each inner log.
    pub fn to_string(&self) -> (r: String)
        ensures
            r@ == log_text(*self),
    {
        let mut r = String::new();
        push_level(&mut r, self.level);
        push_char(&mut r, ':');
        push_char(&mut r, ' ');
        push_str(&mut r, self.message.as_str());
        push_suffix(&mut r, &self.location);
        push_char(&mut r, '\n');
        let ghost head = r@;
        let mut i: usize = 0;
        while i < self.inner.len()
            invariant
                i <= self.inner@.len(),
                r@ == head + inners_text(self.inner@.take(i as int)),
            decreases self.inner.len() - i,
        {
            let t = self.inner[i].to_string();
            push_str(&mut r, t.as_str());
            i = i + 1;
            assert(self.inner@.take(i as int).drop_last() =~= self.inner@.take(i - 1));
        }
        assert(self.inner@.take(i as int) =~= self.inner@);
        assert(r@ =~= log_text(*self));
        r
    }
}

} // verus!
