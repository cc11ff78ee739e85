//! The text of diagnostics and where they point.
use crate::lexer::{token_label, Token};
use crate::logs::{Log, LogInner, LogLevel, LogLocation};
use crate::parser::{ParseError, Span};
use crate::project::SourceFile;
use crate::text::{push_chars, push_str};
use vstd::prelude::*;

verus! {

/// The label of the `i`-th expected token, with the separator before it.
pub open spec fn expected_item(ts: Seq<Token>, i: int) -> Seq<char> {
    if i == 0 {
        token_label(ts[i])
    } else if i == ts.len() - 1 {
        seq![' ', 'o', 'r', ' '] + token_label(ts[i])
    } else {
        seq![',', ' '] + token_label(ts[i])
    }
}

/// The labels of the first `n` expected tokens: `a`, `a or b`, `a, b or c`, ...
pub open spec fn expected_list(ts: Seq<Token>, n: int) -> Seq<char>
    decreases n,
{
    if n <= 0 {
        Seq::empty()
    } else {
        expected_list(ts, n - 1) + expected_item(ts, n - 1)
    }
}

/// `log` reports `err`, a syntax error in `file`.
pub open spec fn syntax_log(log: Log, file: SourceFile, err: (int, Seq<Token>)) -> bool {
    &&& log.level == LogLevel::Error
    &&& log.message@ == "expected "@ + expected_list(err.1, err.1.len() as int)
    &&& log.location matches Some(loc) && loc.path == file.fs_path && loc.code == file.content
        && loc.span.start as int == err.0 && loc.span.end as int == (if err.0 < usize::MAX { err.0 + 1 } else { err.0 })
    &&& log.inner@.len() == 0
}

/// Where `span` points in `file`.
pub fn location(file: &SourceFile, span: Span) -> (r: LogLocation)
    ensures
        r.path == file.fs_path,
        r.code == file.content,
        r.span.start == span.start,
        r.span.end == span.end,
{
    LogLocation {
        path: file.fs_path.clone(),
        code: file.content.clone(),
        span: std::ops::Range { start: span.start, end: span.end },
    }
}

/// `expected <tokens>` at the offset where parsing stopped.
pub fn syntax_error(e: &ParseError, file: &SourceFile) -> (log: Log)
    ensures
        log.level == LogLevel::Error,
        log.message@ == "expected "@ + expected_list(e.expected@, e.expected@.len() as int),
        log.location matches Some(loc) && loc.path == file.fs_path && loc.code == file.content
            && loc.span.start == e.offset && loc.span.end as int == (if e.offset < usize::MAX { e.offset + 1 } else { e.offset as int }),
        log.inner@.len() == 0,
{
    let mut message = String::new();
    push_str(&mut message, "expected ");
    let ghost head = message@;
    let n = e.expected.len();
    let mut i: usize = 0;
    while i < n
        invariant
            n == e.expected@.len(),
            i <= n,
            message@ == head + expected_list(e.expected@, i as int),
        decreases n - i,
    {
        if i == 0 {
        } else if i == n - 1 {
            push_str(&mut message, " or ");
            proof { reveal_strlit(" or "); }
        } else {
            push_str(&mut message, ", ");
            proof { reveal_strlit(", "); }
        }
        let label = e.expected[i].label();
        push_chars(&mut message, &label);
        i = i + 1;
        assert(message@ =~= head + expected_list(e.expected@, i as int));
    }
    let end = if e.offset < usize::MAX {
        e.offset + 1
    } else {
        e.offset
    };
    let location = location(file, Span { file: 0, start: e.offset, end });
    Log { level: LogLevel::Error, message, location: Some(location), inner: Vec::new() }
}

} // verus!
