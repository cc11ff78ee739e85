//! Diagnostics of a resolved project: imports first, then every definition of the files
//! whose imports are sound.
use crate::deps::{chain, first_return, span_lt, is_reported, lemma_chain_in_range, on_cycle, reports_cycle, stack_matches, walk};
use crate::literal::{literal_i32, parse_i32};
use crate::logs::{Log, LogInner, LogLevel, LogLocation};
use crate::messages::location;
use crate::parser::{DefinitionKind, Expr, Segment, Span, definition_ok, expr_span};
use crate::paths::same_chars;
use crate::project::{FileImport, Index, Project, SourceFile};
use crate::text::{push_char, push_chars, push_str};
use vstd::prelude::*;

verus! {

/// The project is indexed and its files are the given ones.
pub open spec fn context_ok(p: &Project, idx: &Index, files: Seq<SourceFile>) -> bool {
    &&& p.arena_ok()
    &&& p.index_ok(*idx)
    &&& p.file_count() == files.len()
}

/// `` `<name>`<rest> ``.
fn backquoted(name: &Vec<char>, rest: &str) -> (r: String)
    ensures
        r@ == seq!['`'] + name@ + rest@,
{
    let mut r = String::new();
    push_char(&mut r, '`');
    push_chars(&mut r, name);
    push_str(&mut r, rest);
    assert(r@ =~= seq!['`'] + name@ + rest@);
    r
}

fn text(s: &str) -> (r: String)
    ensures
        r@ == s@,
{
    let mut r = String::new();
    push_str(&mut r, s);
    assert(r@ =~= s@);
    r
}

fn span_location(files: &Vec<SourceFile>, span: Span) -> (r: LogLocation)
    requires
        span.file < files@.len(),
    ensures
        located(Some(r), files@, span),
{
    location(&files[span.file], span)
}

/// The location points at `span` in its file.
pub open spec fn located(loc: Option<LogLocation>, files: Seq<SourceFile>, span: Span) -> bool {
    loc matches Some(l) && 0 <= span.file < files.len() && l.path == files[span.file as int].fs_path
        && l.code == files[span.file as int].content && l.span.start == span.start && l.span.end == span.end
}

/// An inner information log with the message, at `span`.
pub open spec fn info_at(log: LogInner, message: Seq<char>, files: Seq<SourceFile>, span: Span) -> bool {
    log.level == LogLevel::Info && log.message@ == message && located(log.location, files, span)
}

/// The spans of the references met when following references from `d` for `m` steps.
pub open spec fn cycle_spans(p: &Project, b: Seq<Option<usize>>, d: int, m: nat) -> Seq<Span> {
    Seq::new(m, |i: int| expr_span(p.defs@[chain(b, d, i as nat)->Some_0].value))
}

/// `d` depends on itself and is the definition that reports that cycle.
pub open spec fn cycle_reported(p: &Project, b: Seq<Option<usize>>, d: int) -> bool {
    exists|m: nat| first_return(b, d, m) && reports_cycle(cycle_spans(p, b, d, m))
}

/// The log was appended, or nothing was.
pub open spec fn appended(before: Seq<Log>, after: Seq<Log>, cond: bool, level: LogLevel) -> bool {
    if cond {
        after.len() == before.len() + 1 && after.drop_last() == before && after.last().level == level
    } else {
        after == before
    }
}

proof fn lemma_first_return_unique(b: Seq<Option<usize>>, d: int, m1: nat, m2: nat)
    requires
        first_return(b, d, m1),
        first_return(b, d, m2),
    ensures
        m1 == m2,
{
}

/// Fails when `j` depends on itself; reports it only from the definition whose own reference
/// comes first, so that a cycle is reported once.
pub fn check_circular_dependencies(
    p: &Project,
    idx: &Index,
    files: &Vec<SourceFile>,
    j: usize,
    logs: &mut Vec<Log>,
) -> (r: bool)
    requires
        context_ok(p, idx, files@),
        j < p.defs@.len(),
    ensures
        r == !on_cycle(idx.bindings@, j as int),
        appended(old(logs)@, final(logs)@, cycle_reported(p, idx.bindings@, j as int), LogLevel::Error),
        cycle_reported(p, idx.bindings@, j as int) ==> final(logs)@.last().message@ == seq!['`']
            + p.defs@[j as int].name@ + "` item has circular dependencies"@,
        cycle_reported(p, idx.bindings@, j as int) ==> {
            let log = final(logs)@.last();
            let n = log.inner@.len();
            &&& located(log.location, files@, p.defs@[j as int].name_span)
            &&& first_return(idx.bindings@, j as int, n as nat)
            &&& forall|i: int| #![trigger log.inner@[i]] 0 <= i < n ==> info_at(
                log.inner@[i],
                if i == n - 1 { "depends on itself"@ } else { "depends on this item"@ },
                files@,
                cycle_spans(p, idx.bindings@, j as int, n as nat)[i],
            )
        },
{
    match walk(&p.defs, &idx.bindings, j) {
        Ok(_) => {
            proof {
                if cycle_reported(p, idx.bindings@, j as int) {
                    let m = choose|m: nat| first_return(idx.bindings@, j as int, m) && reports_cycle(cycle_spans(p, idx.bindings@, j as int, m));
                    assert(chain(idx.bindings@, j as int, m) == Some(j as int));
                    assert(on_cycle(idx.bindings@, j as int));
                }
                assert(!cycle_reported(p, idx.bindings@, j as int));
            }
            true
        },
        Err(stack) => {
            let ghost b = idx.bindings@;
            let ghost m = stack@.len() as nat;
            proof {
                assert(stack@ =~= cycle_spans(p, b, j as int, m)) by {
                    assert forall|i: int| 0 <= i < m implies #[trigger] stack@[i] == cycle_spans(p, b, j as int, m)[i] by {
                        assert(stack_matches(b, p.defs@, j as int, stack@));
                        let ii = i as nat;
                        assert(stack@[ii as int] == expr_span(p.defs@[chain(b, j as int, ii)->Some_0].value));
                    }
                }
                if reports_cycle(stack@) {
                    assert(first_return(b, j as int, m) && reports_cycle(cycle_spans(p, b, j as int, m)));
                }
                if cycle_reported(p, b, j as int) {
                    let m2 = choose|m2: nat| first_return(b, j as int, m2) && reports_cycle(cycle_spans(p, b, j as int, m2));
                    lemma_first_return_unique(b, j as int, m, m2);
                }
                assert(cycle_reported(p, b, j as int) == reports_cycle(stack@));
            }
            if is_reported(&stack) {
                let name = &p.defs[j].name;
                let message = backquoted(name, "` item has circular dependencies");
                let name_span = p.defs[j].name_span;
                let mut inner: Vec<LogInner> = Vec::new();
                let mut i: usize = 0;
                while i < stack.len()
                    invariant
                        context_ok(p, idx, files@),
                        b == idx.bindings@,
                        j < p.defs@.len(),
                        stack_matches(b, p.defs@, j as int, stack@),
                        i <= stack@.len(),
                        inner@.len() == i,
                        forall|k: int| #![trigger inner@[k]] 0 <= k < i ==> info_at(
                            inner@[k],
                            if k == stack@.len() - 1 { "depends on itself"@ } else { "depends on this item"@ },
                            files@,
                            stack@[k],
                        ),
                    decreases stack.len() - i,
                {
                    proof {
                        let ii = i as nat;
                        assert(stack@[ii as int] == stack@[i as int]);
                        let x = chain(b, j as int, ii)->Some_0;
                        lemma_chain_in_range(b, j as int, ii);
                        assert(p.defs@[x] == p.defs@[x]);
                    }
                    let message = if i == stack.len() - 1 {
                        text("depends on itself")
                    } else {
                        text("depends on this item")
                    };
                    let ghost before = inner@;
                    inner.push(LogInner {
                        level: LogLevel::Info,
                        message,
                        location: Some(span_location(files, stack[i])),
                    });
                    proof {
                        assert forall|k: int| #![trigger inner@[k]] 0 <= k < i + 1 implies info_at(
                            inner@[k],
                            if k == stack@.len() - 1 { "depends on itself"@ } else { "depends on this item"@ },
                            files@,
                            stack@[k],
                        ) by {
                            if k < i {
                                assert(inner@[k] == before[k]);
                            }
                        }
                    }
                    i = i + 1;
                }
                assert(p.defs@[j as int] == p.defs@[j as int]);
                logs.push(Log {
                    level: LogLevel::Error,
                    message,
                    location: Some(span_location(files, name_span)),
                    inner,
                });
                assert(logs@.drop_last() =~= old(logs)@);
            }
            false
        },
    }
}

fn push_log(
    logs: &mut Vec<Log>,
    level: LogLevel,
    message: String,
    location: Option<LogLocation>,
    inner: Vec<LogInner>,
)
    ensures
        final(logs)@.len() == old(logs)@.len() + 1,
        final(logs)@.drop_last() == old(logs)@,
        final(logs)@.last().level == level,
        final(logs)@.last().message == message,
        final(logs)@.last().location == location,
        final(logs)@.last().inner == inner,
{
    logs.push(Log { level, message, location, inner });
    assert(logs@.drop_last() =~= old(logs)@);
}

/// An earlier definition of file `f` has the name of definition `j`.
pub open spec fn earlier_namesake(p: &Project, f: int, j: int) -> bool {
    exists|k: int| p.starts@[f] <= k < j && #[trigger] p.defs@[k].name@ == p.defs@[j].name@
}

/// Fails when an earlier definition of the same file has the same name.
pub fn check_unique_definition(
    p: &Project,
    idx: &Index,
    files: &Vec<SourceFile>,
    f: usize,
    j: usize,
    logs: &mut Vec<Log>,
) -> (r: bool)
    requires
        context_ok(p, idx, files@),
        p.in_file(j as int, f as int),
    ensures
        r == !earlier_namesake(p, f as int, j as int),
        appended(old(logs)@, final(logs)@, !r, LogLevel::Error),
        !r ==> final(logs)@.last().message@ == seq!['`'] + p.defs@[j as int].name@
            + "` item defined multiple times"@,
        !r ==> located(final(logs)@.last().location, files@, p.defs@[j as int].name_span),
        !r ==> final(logs)@.last().inner@.len() == 1 && exists|k: int| p.starts@[f as int] <= k < j
            && #[trigger] p.defs@[k].name@ == p.defs@[j as int].name@
            && (forall|k2: int| k < k2 < j ==> #[trigger] p.defs@[k2].name@ != p.defs@[j as int].name@)
            && info_at(final(logs)@.last().inner@[0], "item also defined here"@, files@, p.defs@[k].name_span),
{
    // reading the length bounds the file index below it, for `f + 1`
    let start_count = p.starts.len();
    let lo = p.starts[f];
    let mut k = j;
    while k > lo
        invariant
            context_ok(p, idx, files@),
            p.in_file(j as int, f as int),
            lo == p.starts@[f as int],
            lo <= k <= j,
            logs@ == old(logs)@,
            forall|k2: int| k <= k2 < j ==> #[trigger] p.defs@[k2].name@ != p.defs@[j as int].name@,
        decreases k,
    {
        k = k - 1;
        assert(p.defs@[j as int] == p.defs@[j as int]);
        assert(p.in_file(k as int, f as int));
        assert(p.starts@[f + 1] <= p.starts@[p.file_count() as int]);
        if same_chars(&p.defs[k].name, &p.defs[j].name) {
            assert(p.defs@[k as int] == p.defs@[k as int]);
            let message = backquoted(&p.defs[j].name, "` item defined multiple times");
            let also = LogInner {
                level: LogLevel::Info,
                message: text("item also defined here"),
                location: Some(span_location(files, p.defs[k].name_span)),
            };
            let location = Some(span_location(files, p.defs[j].name_span));
            let inner = vec![also];
            assert(inner@[0] == also);
            push_log(logs, LogLevel::Error, message, location, inner);
            return false;
        }
    }
    true
}

pub open spec fn starts_with_underscore(name: Seq<char>) -> bool {
    name.len() > 0 && name[0] == '_'
}

/// Never referenced, and not marked as such by a leading `_`.
pub open spec fn unused_value(p: &Project, idx: &Index, j: int) -> bool {
    idx.first_use@[j] is None && !starts_with_underscore(p.defs@[j].name@)
}

/// Referenced, though marked unused by a leading `_`.
pub open spec fn used_underscore(p: &Project, idx: &Index, j: int) -> bool {
    idx.first_use@[j] is Some && starts_with_underscore(p.defs@[j].name@)
}

/// Warns when a definition is never used and its name does not start with `_`, or is used
/// though its name does.
pub fn check_usage(p: &Project, idx: &Index, files: &Vec<SourceFile>, j: usize, logs: &mut Vec<Log>)
    requires
        context_ok(p, idx, files@),
        j < p.defs@.len(),
    ensures
        appended(old(logs)@, final(logs)@, unused_value(p, idx, j as int) || used_underscore(p, idx, j as int), LogLevel::Warning),
        unused_value(p, idx, j as int) ==> final(logs)@.last().message@ == seq!['`'] + p.defs@[j as int].name@ + "` value unused"@,
        unused_value(p, idx, j as int) || used_underscore(p, idx, j as int) ==> located(final(logs)@.last().location, files@, p.defs@[j as int].name_span),
        unused_value(p, idx, j as int) ==> final(logs)@.last().inner@.len() == 0,
        used_underscore(p, idx, j as int) ==> {
            let log = final(logs)@.last();
            &&& log.message@ == seq!['`'] + p.defs@[j as int].name@ + "` value used but name starting with `_`"@
            &&& log.inner@.len() == 1
            &&& info_at(log.inner@[0], "value used here"@, files@, idx.first_use@[j as int]->Some_0)
        },
{
    assert(p.defs@[j as int] == p.defs@[j as int]);
    let name = &p.defs[j].name;
    let underscore = name.len() > 0 && name[0] == '_';
    let location = span_location(files, p.defs[j].name_span);
    match idx.first_use[j] {
        None => {
            if !underscore {
                let message = backquoted(name, "` value unused");
                push_log(logs, LogLevel::Warning, message, Some(location), Vec::new());
            }
        },
        Some(use_span) => {
            if underscore {
                let message = backquoted(name, "` value used but name starting with `_`");
                proof {
                    lemma_first_ref_some(p, idx.bindings@, j as int);
                    let x = choose|x: int| 0 <= x < idx.bindings@.len() && idx.bindings@[x] == Some(j) && crate::project::first_ref(p, idx.bindings@, j as int) == Some(crate::project::ref_span(p, x));
                    assert(p.defs@[x] == p.defs@[x]);
                    assert(idx.first_use@[j as int] == crate::project::first_ref(p, idx.bindings@, j as int));
                }
                let used_at = LogInner {
                    level: LogLevel::Info,
                    message: text("value used here"),
                    location: Some(span_location(files, use_span)),
                };
                let inner = vec![used_at];
                assert(inner@[0] == used_at);
                push_log(logs, LogLevel::Warning, message, Some(location), inner);
            }
        },
    }
}

proof fn lemma_first_ref_some(p: &Project, b: Seq<Option<usize>>, t: int)
    requires
        crate::project::first_ref(p, b, t) is Some,
        b.len() <= p.defs@.len(),
    ensures
        exists|x: int| 0 <= x < b.len() && b[x] == Some(t as usize) && crate::project::first_ref(p, b, t) == Some(crate::project::ref_span(p, x)),
    decreases b.len(),
{
    if crate::project::first_ref(p, b.drop_last(), t) is Some {
        lemma_first_ref_some(p, b.drop_last(), t);
        let x = choose|x: int| 0 <= x < b.drop_last().len() && b.drop_last()[x] == Some(t as usize) && crate::project::first_ref(p, b.drop_last(), t) == Some(crate::project::ref_span(p, x));
        assert(b[x] == b.drop_last()[x]);
    } else {
        assert(b[b.len() - 1] == Some(t as usize));
    }
}

/// Lower case letters, digits and `_` only.
pub open spec fn is_snake_case(name: Seq<char>) -> bool {
    forall|i: int| 0 <= i < name.len() ==> ('a' <= #[trigger] name[i] <= 'z' || '0' <= name[i] <= '9' || name[i] == '_')
}

/// Upper case letters, digits and `_` only.
pub open spec fn is_screaming_snake_case(name: Seq<char>) -> bool {
    forall|i: int| 0 <= i < name.len() ==> ('A' <= #[trigger] name[i] <= 'Z' || '0' <= name[i] <= '9' || name[i] == '_')
}

/// One character long, and not `_`.
pub open spec fn is_single_char(name: Seq<char>) -> bool {
    name.len() == 1 && name[0] != '_'
}

pub fn snake_case(name: &Vec<char>) -> (r: bool)
    ensures
        r == is_snake_case(name@),
{
    let mut i: usize = 0;
    while i < name.len()
        invariant
            i <= name@.len(),
            forall|k: int| 0 <= k < i ==> ('a' <= #[trigger] name@[k] <= 'z' || '0' <= name@[k] <= '9' || name@[k] == '_'),
        decreases name.len() - i,
    {
        let c = name[i];
        if !(('a' <= c && c <= 'z') || ('0' <= c && c <= '9') || c == '_') {
            return false;
        }
        i = i + 1;
    }
    true
}

pub fn screaming_snake_case(name: &Vec<char>) -> (r: bool)
    ensures
        r == is_screaming_snake_case(name@),
{
    let mut i: usize = 0;
    while i < name.len()
        invariant
            i <= name@.len(),
            forall|k: int| 0 <= k < i ==> ('A' <= #[trigger] name@[k] <= 'Z' || '0' <= name@[k] <= '9' || name@[k] == '_'),
        decreases name.len() - i,
    {
        let c = name[i];
        if !(('A' <= c && c <= 'Z') || ('0' <= c && c <= '9') || c == '_') {
            return false;
        }
        i = i + 1;
    }
    true
}

/// Warns when a name is a single character other than `_`.
pub fn check_char_count(files: &Vec<SourceFile>, name: &Vec<char>, span: Span, logs: &mut Vec<Log>)
    requires
        span.file < files@.len(),
    ensures
        appended(old(logs)@, final(logs)@, is_single_char(name@), LogLevel::Warning),
        is_single_char(name@) ==> final(logs)@.last().message@ == seq!['`'] + name@ + "` identifier is single character"@,
{
    if name.len() == 1 && name[0] != '_' {
        let message = backquoted(name, "` identifier is single character");
        push_log(logs, LogLevel::Warning, message, Some(span_location(files, span)), Vec::new());
    }
}

/// Warns when a name is not in snake_case.
pub fn check_snake_case(files: &Vec<SourceFile>, name: &Vec<char>, span: Span, logs: &mut Vec<Log>)
    requires
        span.file < files@.len(),
    ensures
        appended(old(logs)@, final(logs)@, !is_snake_case(name@), LogLevel::Warning),
        !is_snake_case(name@) ==> final(logs)@.last().message@ == seq!['`'] + name@ + "` identifier not in snake_case"@,
{
    if !snake_case(name) {
        let message = backquoted(name, "` identifier not in snake_case");
        push_log(logs, LogLevel::Warning, message, Some(span_location(files, span)), Vec::new());
    }
}

/// Warns when a name is not in SCREAMING_SNAKE_CASE.
pub fn check_screaming_snake_case(files: &Vec<SourceFile>, name: &Vec<char>, span: Span, logs: &mut Vec<Log>)
    requires
        span.file < files@.len(),
    ensures
        appended(old(logs)@, final(logs)@, !is_screaming_snake_case(name@), LogLevel::Warning),
        !is_screaming_snake_case(name@) ==> final(logs)@.last().message@ == seq!['`'] + name@ + "` identifier not in SCREAMING_SNAKE_CASE"@,
{
    if !screaming_snake_case(name) {
        let message = backquoted(name, "` identifier not in SCREAMING_SNAKE_CASE");
        push_log(logs, LogLevel::Warning, message, Some(span_location(files, span)), Vec::new());
    }
}

/// The value of definition `j` is wrong: a literal that is no `i32`, a name that resolves to
/// nothing, or, in a constant, a name that resolves to a variable.
pub open spec fn value_error(p: &Project, idx: &Index, j: int) -> bool {
    match p.defs@[j].value {
        Expr::Literal(l) => literal_i32(l.cleaned@) is None,
        Expr::Reference(_) => match idx.bindings@[j] {
            None => true,
            Some(t) => p.defs@[j].kind == DefinitionKind::Constant && p.defs@[t as int].kind
                == DefinitionKind::Variable,
        },
    }
}

/// Checks the value of definition `j`.
pub fn check_value(p: &Project, idx: &Index, files: &Vec<SourceFile>, j: usize, logs: &mut Vec<Log>)
    requires
        context_ok(p, idx, files@),
        j < p.defs@.len(),
    ensures
        appended(old(logs)@, final(logs)@, value_error(p, idx, j as int), LogLevel::Error),
        value_error(p, idx, j as int) ==> {
            let log = final(logs)@.last();
            match p.defs@[j as int].value {
                Expr::Literal(l) => log.message@ == "`i32` literal out of bounds"@ && located(log.location, files@, l.span)
                    && log.inner@.len() == 0,
                Expr::Reference(r) => located(log.location, files@, r.span) && if idx.bindings@[j as int] is None {
                    log.message@ == seq!['`'] + r.name@ + "` value not found"@ && log.inner@.len() == 0
                } else {
                    &&& log.message@ == "expression not constant"@
                    &&& log.inner@.len() == 1
                    &&& info_at(log.inner@[0], "expression must be constant"@, files@, p.defs@[j as int].keyword)
                },
            }
        },
{
    assert(p.defs@[j as int] == p.defs@[j as int]);
    let d = &p.defs[j];
    match &d.value {
        Expr::Literal(l) => {
            if parse_i32(&l.cleaned).is_none() {
                let message = text("`i32` literal out of bounds");
                push_log(logs, LogLevel::Error, message, Some(span_location(files, l.span)), Vec::new());
            }
        },
        Expr::Reference(r) => {
            match idx.bindings[j] {
                None => {
                    let message = backquoted(&r.name, "` value not found");
                    push_log(logs, LogLevel::Error, message, Some(span_location(files, r.span)), Vec::new());
                },
                Some(t) => {
                    if d.kind == DefinitionKind::Constant && p.defs[t].kind == DefinitionKind::Variable {
                        let must = LogInner {
                            level: LogLevel::Info,
                            message: text("expression must be constant"),
                            location: Some(span_location(files, d.keyword)),
                        };
                        let message = text("expression not constant");
                        let inner = vec![must];
                        assert(inner@[0] == must);
                        push_log(logs, LogLevel::Error, message, Some(span_location(files, r.span)), inner);
                    }
                },
            }
        },
    }
}

/// Some log of `logs` has the level.
pub open spec fn has_level(logs: Seq<Log>, level: LogLevel) -> bool {
    exists|i: int| 0 <= i < logs.len() && #[trigger] logs[i].level == level
}

/// Definition `j` gets an error: it reports a cycle it is on, or it is on no cycle and is
/// defined twice or has a wrong value.
pub open spec fn definition_error(p: &Project, idx: &Index, f: int, j: int) -> bool {
    if on_cycle(idx.bindings@, j) {
        cycle_reported(p, idx.bindings@, j)
    } else {
        earlier_namesake(p, f, j) || value_error(p, idx, j)
    }
}

/// Definition `j` gets a warning: it is on no cycle, not defined twice, and is unused, used
/// despite a leading `_`, named by one character or not in its case.
pub open spec fn definition_warning(p: &Project, idx: &Index, f: int, j: int) -> bool {
    &&& !on_cycle(idx.bindings@, j)
    &&& !earlier_namesake(p, f, j)
    &&& {
        ||| unused_value(p, idx, j)
        ||| used_underscore(p, idx, j)
        ||| is_single_char(p.defs@[j].name@)
        ||| (p.defs@[j].kind == DefinitionKind::Variable && !is_snake_case(p.defs@[j].name@))
        ||| (p.defs@[j].kind == DefinitionKind::Constant && !is_screaming_snake_case(p.defs@[j].name@))
    }
}

proof fn lemma_appended_levels(a: Seq<Log>, b: Seq<Log>, cond: bool, level: LogLevel, base: int)
    requires
        appended(a, b, cond, level),
        0 <= base <= a.len(),
    ensures
        b.take(base) == a.take(base),
        has_level(b.skip(base), LogLevel::Error) == (has_level(a.skip(base), LogLevel::Error) || (cond && level == LogLevel::Error)),
        has_level(b.skip(base), LogLevel::Warning) == (has_level(a.skip(base), LogLevel::Warning) || (cond && level == LogLevel::Warning)),
{
    if cond {
        assert(b.skip(base).drop_last() =~= a.skip(base));
        assert(b.take(base) =~= a.take(base));
        let bs = b.skip(base);
        assert(bs.last() == b.last());
        assert forall|lv: LogLevel| has_level(bs, lv) == (has_level(a.skip(base), lv) || lv == level) by {
            if has_level(bs, lv) {
                let i = choose|i: int| 0 <= i < bs.len() && #[trigger] bs[i].level == lv;
                if i < bs.len() - 1 {
                    assert(a.skip(base)[i] == bs[i]);
                }
            }
            if has_level(a.skip(base), lv) {
                let i = choose|i: int| 0 <= i < a.skip(base).len() && #[trigger] a.skip(base)[i].level == lv;
                assert(bs[i] == a.skip(base)[i]);
            }
            if lv == level {
                assert(bs[bs.len() - 1].level == lv);
            }
        }
    }
}

/// Validates one definition of file `f`: stops after a cycle or a second definition, then
/// checks its use, its name and its value.
pub fn validate_definition(p: &Project, idx: &Index, files: &Vec<SourceFile>, f: usize, j: usize, logs: &mut Vec<Log>)
    requires
        context_ok(p, idx, files@),
        p.in_file(j as int, f as int),
    ensures
        final(logs)@.len() >= old(logs)@.len(),
        final(logs)@.take(old(logs)@.len() as int) == old(logs)@,
        has_level(final(logs)@.skip(old(logs)@.len() as int), LogLevel::Error) == definition_error(p, idx, f as int, j as int),
        has_level(final(logs)@.skip(old(logs)@.len() as int), LogLevel::Warning) == definition_warning(p, idx, f as int, j as int),
{
    let ghost base = old(logs)@.len() as int;
    assert(old(logs)@.skip(base).len() == 0);
    assert(old(logs)@.take(base) =~= old(logs)@);
    assert(!has_level(old(logs)@.skip(base), LogLevel::Error));
    assert(!has_level(old(logs)@.skip(base), LogLevel::Warning));
    assert(p.starts@[f + 1] <= p.starts@[p.file_count() as int]);
    assert(p.defs@[j as int] == p.defs@[j as int]);
    let ghost l0 = logs@;
    if !check_circular_dependencies(p, idx, files, j, logs) {
        proof { lemma_appended_levels(l0, logs@, cycle_reported(p, idx.bindings@, j as int), LogLevel::Error, base); }
        return;
    }
    proof { lemma_appended_levels(l0, logs@, cycle_reported(p, idx.bindings@, j as int), LogLevel::Error, base); }
    let ghost l1 = logs@;
    if !check_unique_definition(p, idx, files, f, j, logs) {
        proof { lemma_appended_levels(l1, logs@, true, LogLevel::Error, base); }
        return;
    }
    proof { lemma_appended_levels(l1, logs@, false, LogLevel::Error, base); }
    let ghost l2 = logs@;
    check_usage(p, idx, files, j, logs);
    proof { lemma_appended_levels(l2, logs@, unused_value(p, idx, j as int) || used_underscore(p, idx, j as int), LogLevel::Warning, base); }
    let d = &p.defs[j];
    let ghost l3 = logs@;
    check_char_count(files, &d.name, d.name_span, logs);
    proof { lemma_appended_levels(l3, logs@, is_single_char(d.name@), LogLevel::Warning, base); }
    let ghost l4 = logs@;
    if d.kind == DefinitionKind::Variable {
        check_snake_case(files, &d.name, d.name_span, logs);
        proof { lemma_appended_levels(l4, logs@, !is_snake_case(d.name@), LogLevel::Warning, base); }
    } else {
        check_screaming_snake_case(files, &d.name, d.name_span, logs);
        proof { lemma_appended_levels(l4, logs@, !is_screaming_snake_case(d.name@), LogLevel::Warning, base); }
    }
    let ghost l5 = logs@;
    check_value(p, idx, files, j, logs);
    proof { lemma_appended_levels(l5, logs@, value_error(p, idx, j as int), LogLevel::Error, base); }
}

/// The import is unsound: it names no file, or follows another kind of item.
pub open spec fn import_error(p: &Project, f: int, k: int) -> bool {
    p.imports@[f]@[k].target is None || !p.imports@[f]@[k].is_top
}

/// A reference of file `f` resolved in a file reached through its import `k`.
pub open spec fn import_used(idx: &Index, f: int, k: int) -> bool {
    exists|e: int| 0 <= e < idx.reach@[f]@.len() && idx.reach@[f]@[e].source == Some(k as usize)
        && #[trigger] idx.used@[f]@[e]
}

pub open spec fn names_snake_case(segs: Seq<Segment>) -> bool {
    forall|i: int| 0 <= i < segs.len() ==> (#[trigger] segs[i] matches Segment::Name(_, name) ==> is_snake_case(name@))
}

/// The import is sound but imports its own file, is private and unused, or has a name not
/// in snake_case.
pub open spec fn import_warning(p: &Project, idx: &Index, f: int, k: int) -> bool {
    let imp = p.imports@[f]@[k];
    &&& !import_error(p, f, k)
    &&& {
        ||| imp.target == Some(f as usize)
        ||| (!imp.import.is_public && !import_used(idx, f, k))
        ||| !names_snake_case(imp.import.segments@)
    }
}

proof fn lemma_skip_levels(x: Seq<Log>, base: int, mid: int, lv: LogLevel)
    requires
        0 <= base <= mid <= x.len(),
    ensures
        has_level(x.skip(base), lv) == (has_level(x.subrange(base, mid), lv) || has_level(x.skip(mid), lv)),
{
    let a = x.skip(base);
    let l = x.subrange(base, mid);
    let r = x.skip(mid);
    if has_level(a, lv) {
        let i = choose|i: int| 0 <= i < a.len() && #[trigger] a[i].level == lv;
        if i < mid - base {
            assert(l[i] == a[i]);
        } else {
            assert(r[i - (mid - base)] == a[i]);
        }
    }
    if has_level(l, lv) {
        let i = choose|i: int| 0 <= i < l.len() && #[trigger] l[i].level == lv;
        assert(a[i] == l[i]);
    }
    if has_level(r, lv) {
        let i = choose|i: int| 0 <= i < r.len() && #[trigger] r[i].level == lv;
        assert(a[i + (mid - base)] == r[i]);
    }
}

/// The text of a segment: `~` or its name.
pub open spec fn segment_text(seg: Segment) -> Seq<char> {
    match seg {
        Segment::Parent(_) => seq!['~'],
        Segment::Name(_, name) => name@,
    }
}

/// The texts of the first `k` segments joined with `.`.
pub open spec fn dotted_segments(segs: Seq<Segment>, k: int) -> Seq<char>
    decreases k,
{
    if k <= 0 {
        Seq::empty()
    } else if k == 1 {
        segment_text(segs[0])
    } else {
        dotted_segments(segs, k - 1) + seq!['.'] + segment_text(segs[k - 1])
    }
}

/// `/<segment>` for each of the first `k` segments, a parent being `..`.
pub open spec fn path_segments(segs: Seq<Segment>, k: int) -> Seq<char>
    decreases k,
{
    if k <= 0 {
        Seq::empty()
    } else {
        path_segments(segs, k - 1) + seq!['/'] + match segs[k - 1] {
            Segment::Parent(_) => seq!['.', '.'],
            Segment::Name(_, name) => name@,
        }
    }
}

/// `` `<a.b.c>` `` for the segments of an import, `~` for a parent.
fn import_name(imp: &crate::parser::Import) -> (r: Vec<char>)
    ensures
        r@ == seq!['`'] + dotted_segments(imp.segments@, imp.segments@.len() as int) + seq!['`'],
{
    let mut r: Vec<char> = vec!['`'];
    let mut i: usize = 0;
    while i < imp.segments.len()
        invariant
            i <= imp.segments@.len(),
            r@ == seq!['`'] + dotted_segments(imp.segments@, i as int),
        decreases imp.segments.len() - i,
    {
        let ghost before = r@;
        if i > 0 {
            r.push('.');
        }
        let ghost mid = r@;
        match &imp.segments[i] {
            Segment::Parent(_) => r.push('~'),
            Segment::Name(_, name) => {
                let mut c: usize = 0;
                while c < name.len()
                    invariant
                        c <= name@.len(),
                        r@ == mid + name@.take(c as int),
                    decreases name.len() - c,
                {
                    r.push(name[c]);
                    c = c + 1;
                    assert(name@.take(c as int) =~= name@.take(c - 1).push(name@[c - 1]));
                }
                assert(name@.take(c as int) =~= name@);
            },
        }
        assert(r@ =~= mid + segment_text(imp.segments@[i as int]));
        i = i + 1;
        assert(r@ =~= seq!['`'] + dotted_segments(imp.segments@, i as int));
    }
    r.push('`');
    r
}

/// `cannot read "<root>/<a>/<b>.gpex"`, a parent being `..`.
fn import_file_message(root: &str, imp: &crate::parser::Import) -> (r: String)
    ensures
        r@ == "cannot read \""@ + root@ + path_segments(imp.segments@, imp.segments@.len() as int) + ".gpex\""@,
{
    let mut r = String::new();
    push_str(&mut r, "cannot read \"");
    push_str(&mut r, root);
    let ghost head = r@;
    let mut i: usize = 0;
    while i < imp.segments.len()
        invariant
            i <= imp.segments@.len(),
            r@ == head + path_segments(imp.segments@, i as int),
        decreases imp.segments.len() - i,
    {
        let ghost before = r@;
        push_char(&mut r, '/');
        match &imp.segments[i] {
            Segment::Parent(_) => {
                push_char(&mut r, '.');
                push_char(&mut r, '.');
            },
            Segment::Name(_, name) => push_chars(&mut r, name),
        }
        i = i + 1;
        assert(r@ =~= head + path_segments(imp.segments@, i as int));
    }
    push_str(&mut r, ".gpex\"");
    assert(r@ =~= "cannot read \""@ + root@ + path_segments(imp.segments@, imp.segments@.len() as int) + ".gpex\""@);
    r
}

/// From the start of the first segment to the end of the last.
pub open spec fn segments_span(imp: crate::parser::Import) -> Span {
    let n = imp.segments@.len();
    if n == 0 {
        imp.span
    } else {
        Span {
            file: imp.span.file,
            start: crate::parser::segment_span(imp.segments@[0]).start,
            end: crate::parser::segment_span(imp.segments@[n - 1]).end,
        }
    }
}

fn import_span(imp: &crate::parser::Import) -> (r: Span)
    ensures
        r == segments_span(*imp),
{
    let n = imp.segments.len();
    if n == 0 {
        return imp.span;
    }
    let first = match &imp.segments[0] {
        Segment::Parent(s) => *s,
        Segment::Name(s, _) => *s,
    };
    let last = match &imp.segments[n - 1] {
        Segment::Parent(s) => *s,
        Segment::Name(s, _) => *s,
    };
    Span { file: imp.span.file, start: first.start, end: last.end }
}

fn is_import_used(idx: &Index, f: usize, k: usize) -> (r: bool)
    requires
        f < idx.reach@.len(),
        f < idx.used@.len(),
        idx.used@[f as int]@.len() == idx.reach@[f as int]@.len(),
    ensures
        r == import_used(idx, f as int, k as int),
{
    let row = &idx.reach[f];
    let mut e: usize = 0;
    while e < row.len()
        invariant
            row@ == idx.reach@[f as int]@,
            f < idx.used@.len(),
            idx.used@[f as int]@.len() == row@.len(),
            e <= row@.len(),
            forall|e2: int| 0 <= e2 < e ==> !(row@[e2].source == Some(k) && #[trigger] idx.used@[f as int]@[e2]),
        decreases row.len() - e,
    {
        if row[e].source == Some(k) && idx.used[f][e] {
            return true;
        }
        e = e + 1;
    }
    false
}

/// Validates import `k` of file `f`; fails when it is unsound.
pub fn validate_import(p: &Project, idx: &Index, files: &Vec<SourceFile>, root: &str, f: usize, k: usize, logs: &mut Vec<Log>) -> (r: bool)
    requires
        context_ok(p, idx, files@),
        f < p.file_count(),
        k < p.imports@[f as int]@.len(),
        forall|s: int| 0 <= s < p.imports@[f as int]@[k as int].import.segments@.len()
            ==> (#[trigger] p.imports@[f as int]@[k as int].import.segments@[s] matches Segment::Name(span, _) ==> span.file == f),
        p.imports@[f as int]@[k as int].import.span.file == f,
    ensures
        r == !import_error(p, f as int, k as int),
        final(logs)@.len() >= old(logs)@.len(),
        final(logs)@.take(old(logs)@.len() as int) == old(logs)@,
        has_level(final(logs)@.skip(old(logs)@.len() as int), LogLevel::Error) == import_error(p, f as int, k as int),
        has_level(final(logs)@.skip(old(logs)@.len() as int), LogLevel::Warning) == import_warning(p, idx, f as int, k as int),
        ({
            let imp = p.imports@[f as int]@[k as int];
            let log = final(logs)@[old(logs)@.len() as int];
            &&& imp.target is None ==> {
                &&& final(logs)@.len() == old(logs)@.len() + 1
                &&& log.message@ == seq!['`'] + dotted_segments(imp.import.segments@, imp.import.segments@.len() as int) + seq!['`']
                    + " module not found"@
                &&& located(log.location, files@, segments_span(imp.import))
                &&& log.inner@.len() == 1
                &&& log.inner@[0].level == LogLevel::Info
                &&& log.inner@[0].message@ == "cannot read \""@ + root@ + path_segments(imp.import.segments@, imp.import.segments@.len() as int) + ".gpex\""@
                &&& log.inner@[0].location is None
            }
            &&& (imp.target is Some && !imp.is_top) ==> {
                &&& final(logs)@.len() == old(logs)@.len() + 1
                &&& log.message@ == "`import` statement not at the top of the module"@
                &&& located(log.location, files@, imp.import.span)
                &&& log.inner@.len() == 1
                &&& log.inner@[0].level == LogLevel::Info
                &&& log.inner@[0].message@ == "`import` statements should appear before anything else"@
                &&& log.inner@[0].location is None
            }
        }),
{
    let ghost base = old(logs)@.len() as int;
    assert(old(logs)@.skip(base).len() == 0);
    assert(old(logs)@.take(base) =~= old(logs)@);
    let fi = &p.imports[f][k];
    let imp = &fi.import;
    if fi.target.is_none() {
        let name = import_name(imp);
        let mut message = String::new();
        push_chars(&mut message, &name);
        push_str(&mut message, " module not found");
        let cannot = LogInner { level: LogLevel::Info, message: import_file_message(root, imp), location: None };
        let ghost l0 = logs@;
        let inner = vec![cannot];
        assert(inner@[0] == cannot);
        push_log(logs, LogLevel::Error, message, Some(span_location(files, import_span(imp))), inner);
        assert(logs@[base] == logs@.last());
        proof { lemma_appended_levels(l0, logs@, true, LogLevel::Error, base); }
        return false;
    }
    if !fi.is_top {
        let notice = LogInner {
            level: LogLevel::Info,
            message: text("`import` statements should appear before anything else"),
            location: None,
        };
        let message = text("`import` statement not at the top of the module");
        let ghost l0 = logs@;
        let inner = vec![notice];
        assert(inner@[0] == notice);
        push_log(logs, LogLevel::Error, message, Some(span_location(files, imp.span)), inner);
        assert(logs@[base] == logs@.last());
        proof { lemma_appended_levels(l0, logs@, true, LogLevel::Error, base); }
        return false;
    }
    let ghost l0 = logs@;
    let is_self = fi.target == Some(f);
    let unused = !imp.is_public && !is_import_used(idx, f, k);
    if is_self || unused {
        let name = import_name(imp);
        let mut message = String::new();
        push_chars(&mut message, &name);
        if is_self {
            push_str(&mut message, " module imports itself");
        } else {
            push_str(&mut message, " import unused");
        }
        push_log(logs, LogLevel::Warning, message, Some(span_location(files, imp.span)), Vec::new());
    }
    proof { lemma_appended_levels(l0, logs@, is_self || unused, LogLevel::Warning, base); }
    let mut i: usize = 0;
    while i < imp.segments.len()
        invariant
            context_ok(p, idx, files@),
            *imp == p.imports@[f as int]@[k as int].import,
            f < files@.len(),
            forall|s: int| 0 <= s < imp.segments@.len()
                ==> (#[trigger] imp.segments@[s] matches Segment::Name(span, _) ==> span.file == f),
            i <= imp.segments@.len(),
            0 <= base,
            logs@.len() >= base,
            logs@.take(base) == old(logs)@,
            !has_level(logs@.skip(base), LogLevel::Error),
            has_level(logs@.skip(base), LogLevel::Warning) == ((is_self || unused) || exists|s: int| 0 <= s < i && (#[trigger] imp.segments@[s] matches Segment::Name(_, name) && !is_snake_case(name@))),
        decreases imp.segments.len() - i,
    {
        let ghost li = logs@;
        match &imp.segments[i] {
            Segment::Parent(_) => {
                proof { lemma_appended_levels(li, logs@, false, LogLevel::Warning, base); }
            },
            Segment::Name(span, name) => {
                check_snake_case(files, name, *span, logs);
                proof { lemma_appended_levels(li, logs@, !is_snake_case(name@), LogLevel::Warning, base); }
            },
        }
        i = i + 1;
        proof {
            assert forall|s: int| 0 <= s < i implies #[trigger] imp.segments@[s] == imp.segments@[s] by {}
        }
    }
    proof {
        let segs = imp.segments@;
        if !names_snake_case(segs) {
            let s = choose|s: int| 0 <= s < segs.len() && !(#[trigger] segs[s] matches Segment::Name(_, name) ==> is_snake_case(name@));
            assert(segs[s] matches Segment::Name(_, name) && !is_snake_case(name@));
        }
        assert(unused == (!imp.is_public && !import_used(idx, f as int, k as int)));
    }
    true
}

/// `cuts` split `logs` from `cuts[0]` to its end into consecutive segments.
pub open spec fn cuts_ok(logs: Seq<Log>, cuts: Seq<int>) -> bool {
    &&& cuts.len() > 0
    &&& 0 <= cuts[0]
    &&& cuts.last() == logs.len()
    &&& forall|i: int| 0 <= i < cuts.len() - 1 ==> #[trigger] cuts[i] <= cuts[i + 1]
}

/// The `i`-th segment.
pub open spec fn segment(logs: Seq<Log>, cuts: Seq<int>, i: int) -> Seq<Log> {
    logs.subrange(cuts[i], cuts[i + 1])
}

proof fn lemma_extend_cuts(before: Seq<Log>, after: Seq<Log>, cuts: Seq<int>)
    requires
        cuts_ok(before, cuts),
        after.len() >= before.len(),
        after.take(before.len() as int) == before,
    ensures
        cuts_ok(after, cuts.push(after.len() as int)),
        forall|i: int| 0 <= i < cuts.len() - 1 ==> #[trigger] segment(after, cuts.push(after.len() as int), i) == segment(before, cuts, i),
        segment(after, cuts.push(after.len() as int), cuts.len() - 1) == after.skip(before.len() as int),
{
    let c2 = cuts.push(after.len() as int);
    assert forall|i: int| 0 <= i < c2.len() - 1 implies #[trigger] c2[i] <= c2[i + 1] by {
        if i < cuts.len() - 1 {
            assert(cuts[i] <= cuts[i + 1]);
        } else {
            assert(c2[i] == before.len());
        }
    }
    lemma_cuts_bounded(cuts, before.len() as int);
    assert forall|i: int| 0 <= i < cuts.len() - 1 implies #[trigger] segment(after, c2, i) == segment(before, cuts, i) by {
        assert(cuts[i + 1] <= before.len());
        assert(0 <= cuts[0] <= cuts[i] <= cuts[i + 1]);
        assert(c2[i] == cuts[i] && c2[i + 1] == cuts[i + 1]);
        assert(segment(after, c2, i) =~= segment(before, cuts, i)) by {
            assert forall|x: int| 0 <= x < cuts[i + 1] - cuts[i] implies #[trigger] after[cuts[i] + x] == before[cuts[i] + x] by {
                assert(after.take(before.len() as int)[cuts[i] + x] == after[cuts[i] + x]);
            }
        }
    }
    assert(segment(after, c2, cuts.len() - 1) =~= after.skip(before.len() as int));
}

proof fn lemma_cuts_bounded(cuts: Seq<int>, end: int)
    requires
        cuts.len() > 0,
        cuts.last() == end,
        forall|i: int| 0 <= i < cuts.len() - 1 ==> #[trigger] cuts[i] <= cuts[i + 1],
    ensures
        forall|i: int| 0 <= i < cuts.len() ==> cuts[0] <= #[trigger] cuts[i] <= end,
    decreases cuts.len(),
{
    if cuts.len() > 1 {
        let c = cuts.drop_last();
        assert(cuts[cuts.len() - 2] <= end);
        assert forall|i: int| 0 <= i < c.len() - 1 implies #[trigger] c[i] <= c[i + 1] by {
            assert(cuts[i] <= cuts[i + 1]);
        }
        lemma_cuts_bounded(c, cuts[cuts.len() - 2]);
        assert forall|i: int| 0 <= i < cuts.len() implies cuts[0] <= #[trigger] cuts[i] <= end by {
            if i < cuts.len() - 1 {
                assert(c[i] <= cuts[cuts.len() - 2]);
                assert(c[0] <= c[i]);
            } else {
                assert(c[0] <= c[c.len() - 1]);
            }
        }
    }
}

/// Some import of file `f` is unsound.
pub open spec fn some_import_error(p: &Project, f: int) -> bool {
    exists|k: int| 0 <= k < p.imports@[f]@.len() && #[trigger] import_error(p, f, k)
}

/// The logs of file `f`, from `cuts[0]`, are one segment per import, then, when its imports
/// are sound, one segment per definition, in order; each with the error and warning levels
/// that import or definition gets.
pub open spec fn file_segments(p: &Project, idx: &Index, f: int, logs: Seq<Log>, cuts: Seq<int>) -> bool {
    let n = p.imports@[f]@.len() as int;
    let lo = p.starts@[f] as int;
    let m = if some_import_error(p, f) { 0 } else { p.starts@[f + 1] - lo };
    &&& cuts_ok(logs, cuts)
    &&& cuts.len() == 1 + n + m
    &&& forall|k: int| 0 <= k < n ==> has_level(#[trigger] segment(logs, cuts, k), LogLevel::Error) == import_error(p, f, k)
        && has_level(segment(logs, cuts, k), LogLevel::Warning) == import_warning(p, idx, f, k)
    &&& forall|t: int| 0 <= t < m ==> has_level(#[trigger] segment(logs, cuts, n + t), LogLevel::Error) == definition_error(p, idx, f, lo + t)
        && has_level(segment(logs, cuts, n + t), LogLevel::Warning) == definition_warning(p, idx, f, lo + t)
}

/// File `f` gets an error: one of its imports is unsound, or one of its definitions gets one.
pub open spec fn file_error(p: &Project, idx: &Index, f: int) -> bool {
    ||| exists|k: int| 0 <= k < p.imports@[f]@.len() && #[trigger] import_error(p, f, k)
    ||| exists|j: int| p.in_file(j, f) && #[trigger] definition_error(p, idx, f, j)
}

/// File `f` gets a warning: from an import, or, when its imports are sound, from a
/// definition.
pub open spec fn file_warning(p: &Project, idx: &Index, f: int) -> bool {
    ||| exists|k: int| 0 <= k < p.imports@[f]@.len() && #[trigger] import_warning(p, idx, f, k)
    ||| ((forall|k: int| 0 <= k < p.imports@[f]@.len() ==> !#[trigger] import_error(p, f, k))
        && exists|j: int| p.in_file(j, f) && #[trigger] definition_warning(p, idx, f, j))
}

/// Validates the imports of file `f`, then, if they are sound, each of its definitions.
pub fn validate_file(p: &Project, idx: &Index, files: &Vec<SourceFile>, root: &str, f: usize, logs: &mut Vec<Log>)
    requires
        context_ok(p, idx, files@),
        f < p.file_count(),
    ensures
        final(logs)@.len() >= old(logs)@.len(),
        final(logs)@.take(old(logs)@.len() as int) == old(logs)@,
        has_level(final(logs)@.skip(old(logs)@.len() as int), LogLevel::Error) == file_error(p, idx, f as int),
        has_level(final(logs)@.skip(old(logs)@.len() as int), LogLevel::Warning) == file_warning(p, idx, f as int),
        exists|cuts: Seq<int>| cuts[0] == old(logs)@.len() && #[trigger] file_segments(p, idx, f as int, final(logs)@, cuts),
{
    let ghost base = old(logs)@.len() as int;
    assert(old(logs)@.skip(base).len() == 0);
    assert(old(logs)@.take(base) =~= old(logs)@);
    let ghost mut cuts: Seq<int> = seq![base];
    let n = p.imports[f].len();
    let mut valid = true;
    let mut k: usize = 0;
    while k < n
        invariant
            context_ok(p, idx, files@),
            f < p.file_count(),
            n == p.imports@[f as int]@.len(),
            k <= n,
            0 <= base <= logs@.len(),
            logs@.take(base) == old(logs)@,
            valid == forall|k2: int| 0 <= k2 < k ==> !#[trigger] import_error(p, f as int, k2),
            has_level(logs@.skip(base), LogLevel::Error) == exists|k2: int| 0 <= k2 < k && #[trigger] import_error(p, f as int, k2),
            has_level(logs@.skip(base), LogLevel::Warning) == exists|k2: int| 0 <= k2 < k && #[trigger] import_warning(p, idx, f as int, k2),
            cuts_ok(logs@, cuts),
            cuts[0] == base,
            cuts.len() == k + 1,
            forall|i: int| 0 <= i < k ==> has_level(#[trigger] segment(logs@, cuts, i), LogLevel::Error) == import_error(p, f as int, i)
                && has_level(segment(logs@, cuts, i), LogLevel::Warning) == import_warning(p, idx, f as int, i),
        decreases n - k,
    {
        let ghost mid = logs@.len() as int;
        let ghost before = logs@;
        assert(p.imports@[f as int]@[k as int] == p.imports@[f as int]@[k as int]);
        let ok = validate_import(p, idx, files, root, f, k, logs);
        if !ok {
            valid = false;
        }
        proof {
            let old_cuts = cuts;
            lemma_extend_cuts(before, logs@, old_cuts);
            cuts = old_cuts.push(logs@.len() as int);
            assert forall|i: int| 0 <= i < k + 1 implies has_level(#[trigger] segment(logs@, cuts, i), LogLevel::Error) == import_error(p, f as int, i)
                && has_level(segment(logs@, cuts, i), LogLevel::Warning) == import_warning(p, idx, f as int, i) by {
                if i < k {
                    assert(segment(logs@, cuts, i) == segment(before, old_cuts, i));
                }
            }
            lemma_skip_levels(logs@, base, mid, LogLevel::Error);
            lemma_skip_levels(logs@, base, mid, LogLevel::Warning);
            assert(logs@.subrange(base, mid) =~= before.skip(base));
            assert(logs@.take(base) =~= before.take(base));
        }
        k = k + 1;
    }
    let ghost imports_done = logs@;
    if valid {
        // reading the length bounds the file index below it, for `f + 1`
        let start_count = p.starts.len();
        let lo = p.starts[f];
        let hi = p.starts[f + 1];
        let mut j = lo;
        while j < hi
            invariant
                context_ok(p, idx, files@),
                f < p.file_count(),
                lo == p.starts@[f as int],
                hi == p.starts@[f + 1],
                lo <= j <= hi,
                0 <= base <= logs@.len(),
                logs@.take(base) == old(logs)@,
                forall|k2: int| 0 <= k2 < n ==> !#[trigger] import_error(p, f as int, k2),
                n == p.imports@[f as int]@.len(),
                has_level(logs@.skip(base), LogLevel::Error) == exists|j2: int| lo <= j2 < j && #[trigger] definition_error(p, idx, f as int, j2),
                has_level(logs@.skip(base), LogLevel::Warning) == ((exists|k2: int| 0 <= k2 < n && #[trigger] import_warning(p, idx, f as int, k2))
                    || exists|j2: int| lo <= j2 < j && #[trigger] definition_warning(p, idx, f as int, j2)),
                cuts_ok(logs@, cuts),
                cuts[0] == base,
                cuts.len() == 1 + n + (j - lo),
                forall|i: int| 0 <= i < n ==> has_level(#[trigger] segment(logs@, cuts, i), LogLevel::Error) == import_error(p, f as int, i)
                    && has_level(segment(logs@, cuts, i), LogLevel::Warning) == import_warning(p, idx, f as int, i),
                forall|t: int| 0 <= t < j - lo ==> has_level(#[trigger] segment(logs@, cuts, n + t), LogLevel::Error) == definition_error(p, idx, f as int, lo + t)
                    && has_level(segment(logs@, cuts, n + t), LogLevel::Warning) == definition_warning(p, idx, f as int, lo + t),
            decreases hi - j,
        {
            let ghost mid = logs@.len() as int;
            let ghost before = logs@;
            validate_definition(p, idx, files, f, j, logs);
            proof {
                let old_cuts = cuts;
                lemma_extend_cuts(before, logs@, old_cuts);
                cuts = old_cuts.push(logs@.len() as int);
                assert forall|i: int| 0 <= i < n implies has_level(#[trigger] segment(logs@, cuts, i), LogLevel::Error) == import_error(p, f as int, i)
                    && has_level(segment(logs@, cuts, i), LogLevel::Warning) == import_warning(p, idx, f as int, i) by {
                    assert(segment(logs@, cuts, i) == segment(before, old_cuts, i));
                }
                assert forall|t: int| 0 <= t < j + 1 - lo implies has_level(#[trigger] segment(logs@, cuts, n + t), LogLevel::Error) == definition_error(p, idx, f as int, lo + t)
                    && has_level(segment(logs@, cuts, n + t), LogLevel::Warning) == definition_warning(p, idx, f as int, lo + t) by {
                    if t < j - lo {
                        assert(segment(logs@, cuts, n + t) == segment(before, old_cuts, n + t));
                    }
                }
                lemma_skip_levels(logs@, base, mid, LogLevel::Error);
                lemma_skip_levels(logs@, base, mid, LogLevel::Warning);
                assert(logs@.subrange(base, mid) =~= before.skip(base));
                assert(logs@.take(base) =~= before.take(base));
            }
            j = j + 1;
        }
        proof {
            assert(!some_import_error(p, f as int));
            assert(file_segments(p, idx, f as int, logs@, cuts));
        }
    } else {
        proof {
            assert(some_import_error(p, f as int));
            assert(file_segments(p, idx, f as int, logs@, cuts));
        }
    }
}

/// The logs of file `g` are its segment of `logs`: it has the levels the file gets, and it
/// splits into the file's own segments.
pub open spec fn file_logs(p: &Project, idx: &Index, g: int, logs: Seq<Log>, cuts: Seq<int>) -> bool {
    &&& has_level(segment(logs, cuts, g), LogLevel::Error) == file_error(p, idx, g)
    &&& has_level(segment(logs, cuts, g), LogLevel::Warning) == file_warning(p, idx, g)
    &&& exists|fc: Seq<int>| fc[0] == cuts[g] && #[trigger] file_segments(p, idx, g, logs.take(cuts[g + 1]), fc)
}

/// The logs are those of each file in turn.
pub open spec fn project_segments(p: &Project, idx: &Index, logs: Seq<Log>, cuts: Seq<int>) -> bool {
    &&& cuts_ok(logs, cuts)
    &&& cuts[0] == 0
    &&& cuts.len() == p.file_count() + 1
    &&& forall|g: int| 0 <= g < p.file_count() ==> #[trigger] file_logs(p, idx, g, logs, cuts)
}

proof fn lemma_project_step(p: &Project, idx: &Index, before: Seq<Log>, after: Seq<Log>, old_cuts: Seq<int>, f: int)
    requires
        cuts_ok(before, old_cuts),
        old_cuts.len() == f + 1,
        old_cuts[0] == 0,
        forall|g: int| 0 <= g < f ==> file_logs(p, idx, g, before, old_cuts),
        after.len() >= before.len(),
        after.take(before.len() as int) == before,
        has_level(after.skip(before.len() as int), LogLevel::Error) == file_error(p, idx, f),
        has_level(after.skip(before.len() as int), LogLevel::Warning) == file_warning(p, idx, f),
        exists|fc: Seq<int>| fc[0] == before.len() && #[trigger] file_segments(p, idx, f, after, fc),
    ensures
        forall|g: int| 0 <= g < f + 1 ==> file_logs(p, idx, g, after, old_cuts.push(after.len() as int)),
{
    let cuts = old_cuts.push(after.len() as int);
    lemma_extend_cuts(before, after, old_cuts);
    lemma_cuts_bounded(old_cuts, before.len() as int);
    assert forall|g: int| 0 <= g < f + 1 implies file_logs(p, idx, g, after, cuts) by {
        if g < f {
            assert(segment(after, cuts, g) == segment(before, old_cuts, g));
            assert(cuts[g] == old_cuts[g] && cuts[g + 1] == old_cuts[g + 1]);
            assert(0 <= old_cuts[g + 1] <= before.len());
            assert(after.take(cuts[g + 1]) =~= before.take(old_cuts[g + 1])) by {
                assert forall|x: int| 0 <= x < cuts[g + 1] implies #[trigger] after[x] == before[x] by {
                    assert(after.take(before.len() as int)[x] == after[x]);
                }
            }
            assert(file_logs(p, idx, g, before, old_cuts));
            let fc = choose|fc: Seq<int>| fc[0] == old_cuts[g] && #[trigger] file_segments(p, idx, g, before.take(old_cuts[g + 1]), fc);
            assert(file_segments(p, idx, g, after.take(cuts[g + 1]), fc));
        } else {
            assert(after.take(cuts[g + 1]) =~= after);
            let fc = choose|fc: Seq<int>| fc[0] == before.len() && #[trigger] file_segments(p, idx, f, after, fc);
            assert(cuts[g] == before.len());
            assert(file_segments(p, idx, g, after.take(cuts[g + 1]), fc));
        }
    }
}

/// Validates every file, in order. The result holds an error exactly when some file gets
/// one, and a warning exactly when some file gets one.
pub fn validate_project(p: &Project, idx: &Index, files: &Vec<SourceFile>, root: &str) -> (logs: Vec<Log>)
    requires
        context_ok(p, idx, files@),
    ensures
        has_level(logs@, LogLevel::Error) == exists|f: int| 0 <= f < p.file_count() && #[trigger] file_error(p, idx, f),
        has_level(logs@, LogLevel::Warning) == exists|f: int| 0 <= f < p.file_count() && #[trigger] file_warning(p, idx, f),
        exists|cuts: Seq<int>| #[trigger] project_segments(p, idx, logs@, cuts),
{
    let mut logs: Vec<Log> = Vec::new();
    let ghost mut cuts: Seq<int> = seq![0];
    let n = p.codes.len();
    let mut f: usize = 0;
    while f < n
        invariant
            context_ok(p, idx, files@),
            n == p.file_count(),
            f <= n,
            has_level(logs@, LogLevel::Error) == exists|f2: int| 0 <= f2 < f && #[trigger] file_error(p, idx, f2),
            has_level(logs@, LogLevel::Warning) == exists|f2: int| 0 <= f2 < f && #[trigger] file_warning(p, idx, f2),
            cuts_ok(logs@, cuts),
            cuts[0] == 0,
            cuts.len() == f + 1,
            forall|g: int| 0 <= g < f ==> file_logs(p, idx, g, logs@, cuts),
        decreases n - f,
    {
        let ghost mid = logs@.len() as int;
        let ghost before = logs@;
        validate_file(p, idx, files, root, f, &mut logs);
        proof {
            let old_cuts = cuts;
            lemma_extend_cuts(before, logs@, old_cuts);
            cuts = old_cuts.push(logs@.len() as int);
            lemma_project_step(p, idx, before, logs@, old_cuts, f as int);
            lemma_skip_levels(logs@, 0, mid, LogLevel::Error);
            lemma_skip_levels(logs@, 0, mid, LogLevel::Warning);
            assert(logs@.subrange(0, mid) =~= before);
            assert(logs@.skip(0) =~= logs@);
        }
        f = f + 1;
    }
    assert(project_segments(p, idx, logs@, cuts));
    logs
}

proof fn lemma_chain_add(b: Seq<Option<usize>>, d: int, i: nat, x: int, k: nat)
    requires
        chain(b, d, i) == Some(x),
    ensures
        chain(b, x, k) == chain(b, d, i + k),
    decreases k,
{
    if k > 0 {
        lemma_chain_add(b, d, i, x, (k - 1) as nat);
        assert((i + k - 1) as nat + 1 == i + k);
    }
}

/// The `a`-th definition of the cycle from `d`.
pub open spec fn member(b: Seq<Option<usize>>, d: int, a: int) -> int {
    chain(b, d, a as nat)->Some_0
}

proof fn lemma_member(b: Seq<Option<usize>>, d: int, m: nat, a: int, k: int)
    requires
        first_return(b, d, m),
        0 <= a < m,
        0 <= k < m,
    ensures
        chain(b, d, a as nat) is Some,
        chain(b, member(b, d, a), k as nat) == Some(member(b, d, if a + k < m { a + k } else { a + k - m })),
        chain(b, d, (if a + k < m { a + k } else { a + k - m }) as nat) is Some,
{
    lemma_chain_some(b, d, m, a as nat);
    let x = member(b, d, a);
    lemma_chain_add(b, d, a as nat, x, k as nat);
    if a + k < m {
        lemma_chain_some(b, d, m, (a + k) as nat);
    } else {
        lemma_chain_add(b, d, m, d, (a + k - m) as nat);
        assert(m + (a + k - m) as nat == (a + k) as nat);
        lemma_chain_some(b, d, m, (a + k - m) as nat);
    }
}

proof fn lemma_chain_some(b: Seq<Option<usize>>, d: int, m: nat, a: nat)
    requires
        first_return(b, d, m),
        a <= m,
    ensures
        chain(b, d, a) is Some,
    decreases m - a,
{
    if a < m {
        lemma_chain_some(b, d, m, a + 1);
        if chain(b, d, a) is None {
            crate::deps::lemma_chain_none_after(b, d, a, m);
        }
    }
}

proof fn lemma_members_distinct(b: Seq<Option<usize>>, d: int, m: nat, i: int, j: int)
    requires
        first_return(b, d, m),
        0 <= i < j < m,
    ensures
        member(b, d, i) != member(b, d, j),
{
    lemma_member(b, d, m, i, (m - j) as int);
    lemma_member(b, d, m, j, (m - j) as int);
    if member(b, d, i) == member(b, d, j) {
        assert(chain(b, d, m) == Some(d));
        assert(chain(b, member(b, d, j), (m - j) as nat) == Some(member(b, d, 0)));
        lemma_chain_some(b, d, m, 0);
        assert(member(b, d, 0) == d);
        let r = (i + m - j) as nat;
        assert(1 <= r < m);
        assert(chain(b, d, r) == Some(d));
    }
}

/// The spans of the references of two definitions differ.
proof fn lemma_spans_distinct(p: &Project, x: int, y: int)
    requires
        p.arena_ok(),
        0 <= x < p.defs@.len(),
        0 <= y < p.defs@.len(),
        x != y,
    ensures
        crate::project::ref_span(p, x) != crate::project::ref_span(p, y),
{
    assert(p.defs@[x] == p.defs@[x]);
    assert(p.defs@[y] == p.defs@[y]);
    if x < y {
        assert(p.defs@[x] == p.defs@[x] && p.defs@[y] == p.defs@[y]);
    } else {
        assert(p.defs@[y] == p.defs@[y] && p.defs@[x] == p.defs@[x]);
    }
}

/// An index of the cycle from `d` whose reference comes first among the first `upto`.
proof fn lemma_first_member(p: &Project, b: Seq<Option<usize>>, d: int, m: nat, upto: int) -> (i: int)
    requires
        first_return(b, d, m),
        1 <= upto <= m,
    ensures
        0 <= i < upto,
        forall|k: int| 0 <= k < upto ==> !span_lt(crate::project::ref_span(p, member(b, d, k)), crate::project::ref_span(p, member(b, d, i))),
    decreases upto,
{
    if upto == 1 {
        0
    } else {
        let i = lemma_first_member(p, b, d, m, upto - 1);
        let last = upto - 1;
        let si = crate::project::ref_span(p, member(b, d, i));
        let sl = crate::project::ref_span(p, member(b, d, last));
        if span_lt(sl, si) {
            last
        } else {
            i
        }
    }
}

/// Of the definitions on a cycle, exactly one reports it: the one whose own reference comes
/// first in the sources.
#[verifier::rlimit(100)]
pub proof fn cycle_reported_once(p: &Project, idx: &Index, d: int, m: nat)
    requires
        p.arena_ok(),
        p.index_ok(*idx),
        0 <= d < p.defs@.len(),
        first_return(idx.bindings@, d, m),
    ensures
        exists|i: int| 0 <= i < m && cycle_reported(p, idx.bindings@, member(idx.bindings@, d, i))
            && forall|j: int| 0 <= j < m && j != i ==> !cycle_reported(p, idx.bindings@, #[trigger] member(idx.bindings@, d, j)),
{
    let b = idx.bindings@;
    let n = p.defs@.len();
    assert forall|j: int| 0 <= j < b.len() implies (#[trigger] b[j] matches Some(t) ==> t < b.len()) by {}
    assert forall|a: int| 0 <= a < m implies 0 <= #[trigger] member(b, d, a) < n by {
        lemma_chain_some(b, d, m, a as nat);
        lemma_chain_in_range(b, d, a as nat);
    }
    let i = lemma_first_member(p, b, d, m, m as int);
    let xi = member(b, d, i);
    // the member with the first reference reports the cycle
    assert(first_return(b, xi, m)) by {
        lemma_member(b, d, m, i, 0);
        lemma_member(b, d, m, i, (m - 1) as int);
        assert forall|k: nat| 1 <= k < m implies chain(b, xi, k) != Some(xi) by {
            lemma_member(b, d, m, i, k as int);
            let t = if i + k < m { i + k } else { i + k - m };
            if t < i {
                lemma_members_distinct(b, d, m, t, i);
            } else {
                lemma_members_distinct(b, d, m, i, t);
            }
        }
        let t2 = if i + m - 1 < m { i + m - 1 } else { i - 1 };
        assert(chain(b, xi, (m - 1) as nat) == Some(member(b, d, t2)));
        lemma_chain_some(b, d, m, t2 as nat);
        lemma_chain_in_range(b, d, t2 as nat);
        let y = member(b, d, t2);
        lemma_chain_add(b, xi, (m - 1) as nat, y, 1);
        lemma_chain_add(b, d, t2 as nat, y, 1);
        if t2 + 1 < m {
            assert(t2 + 1 == i);
            assert(chain(b, d, (t2 + 1) as nat) == Some(xi)) by {
                lemma_chain_some(b, d, m, i as nat);
            }
        } else {
            assert(i == 0);
            lemma_chain_some(b, d, m, 0);
        }
        assert(chain(b, xi, m) == Some(xi));
    }
    assert(reports_cycle(cycle_spans(p, b, xi, m))) by {
        assert forall|k: int| 0 <= k < m implies !span_lt(#[trigger] cycle_spans(p, b, xi, m)[k], cycle_spans(p, b, xi, m)[0]) by {
            lemma_member(b, d, m, i, k);
            lemma_member(b, d, m, i, 0);
            let t = if i + k < m { i + k } else { i + k - m };
            assert(cycle_spans(p, b, xi, m)[k] == crate::project::ref_span(p, member(b, d, t)));
        }
    }
    assert(cycle_reported(p, b, xi));
    // no other member does
    assert forall|j: int| 0 <= j < m && j != i implies !cycle_reported(p, b, #[trigger] member(b, d, j)) by {
        let xj = member(b, d, j);
        if cycle_reported(p, b, xj) {
            let m2 = choose|m2: nat| first_return(b, xj, m2) && reports_cycle(cycle_spans(p, b, xj, m2));
            let k = if i > j { i - j } else { i + m - j };
            lemma_member(b, d, m, j, k);
            lemma_member(b, d, m, j, 0);
            assert(chain(b, xj, k as nat) == Some(xi));
            if k >= m2 {
                // the cycle from xj comes back before reaching xi: impossible on the cycle from d
                assert forall|kk: nat| 1 <= kk < m implies chain(b, xj, kk) != Some(xj) by {
                    lemma_member(b, d, m, j, kk as int);
                    let t = if j + kk < m { j + kk } else { j + kk - m };
                    if t < j {
                        lemma_members_distinct(b, d, m, t, j);
                    } else {
                        lemma_members_distinct(b, d, m, j, t);
                    }
                }
                assert(false);
            }
            let sj = cycle_spans(p, b, xj, m2);
            assert(sj[k] == crate::project::ref_span(p, xi));
            assert(sj[0] == crate::project::ref_span(p, xj));
            if i < j {
                lemma_members_distinct(b, d, m, i, j);
            } else {
                lemma_members_distinct(b, d, m, j, i);
            }
            lemma_spans_distinct(p, xi, xj);
            assert(!span_lt(sj[k], sj[0]));
            assert(!span_lt(crate::project::ref_span(p, xj), crate::project::ref_span(p, xi)));
        }
    }
}

} // verus!
