//! Recursive-descent parser with backtracking, building one module per source file and
//! giving every scope-introducing node an identity that grows across files.
use crate::lexer::{
    starts_with_at,
    i32_literal_pattern, identifier_parts, identifier_pattern, is_keyword, is_word, keyword,
    lemma_parts_end_bounds, lemma_trivia_end_bounds, literal_parts, match_parts, next_is_word,
    next_word, parts_end, pattern_match, run_len, skip_trivia, starts_with, symbol_match,
    token_text, trivia_end, is_word_text, Pattern, PatternPart, Token,
};
use vstd::prelude::*;

verus! {

/// A located slice of source text. Offsets count characters (Unicode scalar values) of the
/// file's content, not bytes: the text is read as a sequence of `char`.
#[derive(Debug, Clone, Copy, PartialEq, Eq, Structural)]
pub struct Span {
    pub file: usize,
    pub start: usize,
    pub end: usize,
}

/// A failed parse: where it stopped and what could have come there.
#[derive(Debug)]
pub struct ParseError {
    pub offset: usize,
    pub expected: Vec<Token>,
}

/// The position of a parse in one file, small enough to be copied for backtracking.
#[derive(Debug)]
pub struct Cursor {
    pub offset: usize,
    pub next_id: u64,
    pub scope: Vec<u64>,
}

/// An integer literal, with its `_` removed.
#[derive(Debug)]
pub struct Literal {
    pub id: u64,
    pub span: Span,
    pub cleaned: Vec<char>,
}

/// A use of a name.
#[derive(Debug)]
pub struct Reference {
    pub id: u64,
    pub scope: Vec<u64>,
    pub span: Span,
    pub name: Vec<char>,
}

#[derive(Debug)]
pub enum Expr {
    Literal(Literal),
    Reference(Reference),
}

#[derive(Debug, Clone, Copy, PartialEq, Eq, Structural)]
pub enum DefinitionKind {
    Variable,
    Constant,
}

/// `[pub] var <name> = <expr>;` or `const <name> = <expr>;`.
#[derive(Debug)]
pub struct Definition {
    pub id: u64,
    pub scope: Vec<u64>,
    pub kind: DefinitionKind,
    pub is_public: bool,
    /// The `var` or `const` keyword.
    pub keyword: Span,
    pub name_span: Span,
    pub name: Vec<char>,
    pub value: Expr,
}

/// One step of an import path: `~` (the parent) or a name.
#[derive(Debug)]
pub enum Segment {
    Parent(Span),
    Name(Span, Vec<char>),
}

/// `[pub] import [~.~.]a.b.c;`.
#[derive(Debug)]
pub struct Import {
    pub span: Span,
    pub is_public: bool,
    pub segments: Vec<Segment>,
}

#[derive(Debug)]
pub enum Item {
    Import(Import),
    Definition(Definition),
}

/// The items of one source file, in order.
#[derive(Debug)]
pub struct Module {
    pub items: Vec<Item>,
}

/// The highest offset among `errors`.
pub open spec fn max_offset(errors: Seq<ParseError>) -> int
    decreases errors.len(),
{
    if errors.len() == 0 {
        0
    } else {
        let m = max_offset(errors.drop_last());
        if errors.last().offset > m {
            errors.last().offset as int
        } else {
            m
        }
    }
}

/// The expected tokens of the errors at `offset`, in order.
pub open spec fn expected_at(errors: Seq<ParseError>, offset: int) -> Seq<Token>
    decreases errors.len(),
{
    if errors.len() == 0 {
        Seq::empty()
    } else {
        expected_at(errors.drop_last(), offset) + if errors.last().offset == offset {
            errors.last().expected@
        } else {
            Seq::empty()
        }
    }
}

proof fn lemma_max_offset_bound(errors: Seq<ParseError>)
    ensures
        forall|i: int| 0 <= i < errors.len() ==> errors[i].offset <= max_offset(errors),
        errors.len() > 0 ==> exists|i: int|
            0 <= i < errors.len() && errors[i].offset == max_offset(errors),
        0 <= max_offset(errors),
    decreases errors.len(),
{
    if errors.len() > 0 {
        lemma_max_offset_bound(errors.drop_last());
        assert forall|i: int| 0 <= i < errors.len() implies errors[i].offset <= max_offset(
            errors,
        ) by {
            if i < errors.len() - 1 {
                assert(errors[i] == errors.drop_last()[i]);
            }
        }
        if errors.len() > 1 && errors.last().offset <= max_offset(errors.drop_last()) {
            let i = choose|i: int|
                0 <= i < errors.drop_last().len() && errors.drop_last()[i].offset == max_offset(
                    errors.drop_last(),
                );
            assert(errors[i] == errors.drop_last()[i]);
        } else {
            assert(errors[errors.len() - 1].offset == max_offset(errors));
        }
    }
}

impl ParseError {
    /// Merges the errors of failed alternatives: keeps the furthest offset reached and the
    /// expected tokens of the alternatives that reached it, in order.
    pub fn merge(errors: &Vec<ParseError>) -> (r: ParseError)
        requires
            errors@.len() > 0,
        ensures
            r.offset == max_offset(errors@),
            r.expected@ == expected_at(errors@, max_offset(errors@)),
            exists|i: int| 0 <= i < errors@.len() && errors@[i].offset == r.offset,
            forall|i: int| 0 <= i < errors@.len() ==> errors@[i].offset <= r.offset,
    {
        proof {
            lemma_max_offset_bound(errors@);
        }
        let mut max: usize = 0;
        let mut i: usize = 0;
        while i < errors.len()
            invariant
                i <= errors@.len(),
                max == max_offset(errors@.take(i as int)),
            decreases errors.len() - i,
        {
            if errors[i].offset > max {
                max = errors[i].offset;
            }
            i = i + 1;
            assert(errors@.take(i as int).drop_last() =~= errors@.take(i - 1));
        }
        assert(errors@.take(i as int) =~= errors@);
        let mut expected: Vec<Token> = Vec::new();
        let mut i: usize = 0;
        while i < errors.len()
            invariant
                i <= errors@.len(),
                expected@ == expected_at(errors@.take(i as int), max as int),
            decreases errors.len() - i,
        {
            let ghost before = expected@;
            if errors[i].offset == max {
                let mut j: usize = 0;
                while j < errors[i].expected.len()
                    invariant
                        i < errors@.len(),
                        j <= errors@[i as int].expected@.len(),
                        expected@ == before + errors@[i as int].expected@.take(j as int),
                    decreases errors[i as int].expected@.len() - j,
                {
                    expected.push(errors[i].expected[j]);
                    j = j + 1;
                    assert(errors@[i as int].expected@.take(j as int)
                        =~= errors@[i as int].expected@.take(j - 1).push(
                        errors@[i as int].expected@[j - 1],
                    ));
                }
                assert(errors@[i as int].expected@.take(j as int)
                    =~= errors@[i as int].expected@);
            }
            i = i + 1;
            assert(errors@.take(i as int).drop_last() =~= errors@.take(i - 1));
            assert(expected@ =~= expected_at(errors@.take(i as int), max as int));
        }
        assert(errors@.take(i as int) =~= errors@);
        ParseError { offset: max, expected }
    }
}

/// The cursor lies in the code, and the identities left to give out cannot overflow.
pub open spec fn cursor_ok(code: Seq<char>, c: Cursor) -> bool {
    c.offset <= code.len() && c.next_id + (code.len() - c.offset) + 2 <= u64::MAX
}

/// From `a` to `b`, no more identities were given out than characters consumed.
pub open spec fn spent(a: Cursor, b: Cursor) -> bool {
    a.offset <= b.offset && a.next_id <= b.next_id && b.next_id - a.next_id <= b.offset - a.offset
}

pub open spec fn is_symbol(t: Token) -> bool {
    t != Token::Identifier && t != Token::I32Literal
}

/// The slice of `code` under `span`.
pub open spec fn slice(code: Seq<char>, span: Span) -> Seq<char> {
    code.subrange(span.start as int, span.end as int)
}

/// `s` without its `_`.
pub open spec fn without_underscores(s: Seq<char>) -> Seq<char>
    decreases s.len(),
{
    if s.len() == 0 {
        s
    } else if s.last() == '_' {
        without_underscores(s.drop_last())
    } else {
        without_underscores(s.drop_last()).push(s.last())
    }
}

pub open spec fn expr_id(e: Expr) -> u64 {
    match e {
        Expr::Literal(l) => l.id,
        Expr::Reference(r) => r.id,
    }
}

pub fn expr_span_of(e: &Expr) -> (r: Span)
    ensures
        r == expr_span(*e),
{
    match e {
        Expr::Literal(l) => l.span,
        Expr::Reference(r) => r.span,
    }
}

pub open spec fn expr_span(e: Expr) -> Span {
    match e {
        Expr::Literal(l) => l.span,
        Expr::Reference(r) => r.span,
    }
}

/// A definition parsed in `code`: its name is the slice under its name span, its
/// identity precedes that of its value, and its value's reference (if any) sits in its scope.
pub open spec fn definition_ok(code: Seq<char>, file: usize, d: Definition) -> bool {
    &&& d.name_span.file == file
    &&& d.name_span.start < d.name_span.end <= code.len()
    &&& d.name@ == slice(code, d.name_span)
    &&& d.id < expr_id(d.value)
    &&& d.scope@.len() > 0 && d.scope@.last() == d.id
    &&& d.keyword.file == file
    &&& expr_span(d.value).file == file
    &&& expr_span(d.value).start < expr_span(d.value).end <= code.len()
    &&& d.name_span.end <= expr_span(d.value).start
    &&& match d.value {
        Expr::Reference(r) => r.scope@ == d.scope@ && r.name@ == slice(code, r.span),
        Expr::Literal(l) => l.cleaned@ == without_underscores(slice(code, l.span)),
    }
}

pub open spec fn import_ok(code: Seq<char>, file: usize, imp: Import) -> bool {
    &&& imp.span.file == file
    &&& imp.segments@.len() > 0
    &&& forall|i: int| #![trigger imp.segments@[i]] 0 <= i < imp.segments@.len() ==> match imp.segments@[i] {
        Segment::Name(span, name) => span.file == file && span.start <= span.end <= code.len()
            && name@ == slice(code, span),
        Segment::Parent(span) => span.file == file,
    }
}

/// The identities of the items lie in `[lo, hi)`, in the order of the items.
pub open spec fn items_ok(code: Seq<char>, file: usize, items: Seq<Item>, lo: int, hi: int) -> bool {
    &&& forall|i: int| #![trigger items[i]] 0 <= i < items.len() ==> match items[i] {
        Item::Definition(d) => definition_ok(code, file, d) && lo <= d.id && expr_id(d.value) < hi,
        Item::Import(imp) => import_ok(code, file, imp),
    }
    &&& forall|i: int, j: int|
        #![trigger items[i], items[j]]
        0 <= i < j < items.len() && items[i] is Definition && items[j] is Definition ==> expr_id(
            items[i]->Definition_0.value,
        ) < items[j]->Definition_0.id && expr_span(items[i]->Definition_0.value).end <= expr_span(
            items[j]->Definition_0.value,
        ).start && expr_span(items[i]->Definition_0.value).end <= items[j]->Definition_0.name_span.start
}

fn copy_ids(v: &Vec<u64>) -> (r: Vec<u64>)
    ensures
        r@ == v@,
{
    let mut r: Vec<u64> = Vec::new();
    let mut i: usize = 0;
    while i < v.len()
        invariant
            i <= v@.len(),
            r@ == v@.take(i as int),
        decreases v.len() - i,
    {
        r.push(v[i]);
        i = i + 1;
        assert(v@.take(i as int) =~= v@.take(i - 1).push(v@[i - 1]));
    }
    assert(v@.take(i as int) =~= v@);
    r
}

/// The characters of `code` from `s` to `e`.
pub fn slice_chars(code: &Vec<char>, s: usize, e: usize) -> (r: Vec<char>)
    requires
        s <= e <= code@.len(),
    ensures
        r@ == code@.subrange(s as int, e as int),
{
    let mut r: Vec<char> = Vec::new();
    let mut i: usize = s;
    while i < e
        invariant
            s <= i <= e <= code@.len(),
            r@ == code@.subrange(s as int, i as int),
        decreases e - i,
    {
        r.push(code[i]);
        i = i + 1;
        assert(code@.subrange(s as int, i as int) =~= code@.subrange(s as int, i - 1).push(
            code@[i - 1],
        ));
    }
    r
}

/// The characters of `t` but `_`.
pub fn remove_underscores(t: &Vec<char>) -> (r: Vec<char>)
    ensures
        r@ == without_underscores(t@),
{
    let mut r: Vec<char> = Vec::new();
    let mut i: usize = 0;
    while i < t.len()
        invariant
            i <= t@.len(),
            r@ == without_underscores(t@.take(i as int)),
        decreases t.len() - i,
    {
        if t[i] != '_' {
            r.push(t[i]);
        }
        i = i + 1;
        assert(t@.take(i as int).drop_last() =~= t@.take(i - 1));
    }
    assert(t@.take(i as int) =~= t@);
    r
}

impl Cursor {
    /// A cursor at the start of a file.
    pub fn new(next_id: u64) -> (r: Cursor)
        ensures
            r.offset == 0,
            r.next_id == next_id,
            r.scope@.len() == 0,
    {
        Cursor { offset: 0, next_id, scope: Vec::new() }
    }

    /// A copy, kept to backtrack to.
    pub fn snapshot(&self) -> (r: Cursor)
        ensures
            r.offset == self.offset,
            r.next_id == self.next_id,
            r.scope@ == self.scope@,
    {
        Cursor { offset: self.offset, next_id: self.next_id, scope: copy_ids(&self.scope) }
    }
}

/// Parses a fixed symbol after whitespace and comments.
pub fn parse_symbol(code: &Vec<char>, file: usize, cur: &mut Cursor, t: Token) -> (r: Result<
    Span,
    ParseError,
>)
    requires
        old(cur).offset <= code@.len(),
        is_symbol(t),
    ensures
        final(cur).next_id == old(cur).next_id,
        final(cur).scope@ == old(cur).scope@,
        old(cur).offset <= final(cur).offset <= code@.len(),
        match r {
            Ok(span) => {
                &&& symbol_match(code@, old(cur).offset as int, token_text(t)) == Some(span.end as int)
                &&& span.file == file
                &&& span.start as int == trivia_end(code@, old(cur).offset as int)
                &&& old(cur).offset <= span.start
                &&& final(cur).offset == span.end
                &&& span.end == span.start + token_text(t).len()
            },
            Err(e) => {
                &&& symbol_match(code@, old(cur).offset as int, token_text(t)) is None
                &&& e.offset == trivia_end(code@, old(cur).offset as int)
                &&& e.expected@ == seq![t]
                &&& final(cur).offset == old(cur).offset
            },
        },
{
    let s = skip_trivia(code, cur.offset);
    let text = t.text();
    if starts_with(code, s, &text) {
        let e = s + text.len();
        if !(is_word_text(&text) && next_word(code, e)) {
            cur.offset = e;
            return Ok(Span { file, start: s, end: e });
        }
    }
    let expected = vec![t];
    assert(expected@ =~= seq![t]);
    Err(ParseError { offset: s, expected })
}

/// Parses a pattern after whitespace and comments.
pub fn parse_pattern(code: &Vec<char>, file: usize, cur: &mut Cursor, p: &Pattern) -> (r: Result<
    Span,
    ParseError,
>)
    requires
        old(cur).offset <= code@.len(),
    ensures
        final(cur).next_id == old(cur).next_id,
        final(cur).scope@ == old(cur).scope@,
        old(cur).offset <= final(cur).offset <= code@.len(),
        match r {
            Ok(span) => {
                &&& pattern_match(code@, old(cur).offset as int, p.excludes_keywords, p.parts@)
                    == Some(span.end as int)
                &&& span.file == file
                &&& span.start as int == trivia_end(code@, old(cur).offset as int)
                &&& old(cur).offset <= span.start
                &&& parts_end(code@, span.start as int, p.parts@) == Some(span.end as int)
                &&& span.start <= span.end
                &&& final(cur).offset == span.end
            },
            Err(e) => {
                &&& pattern_match(code@, old(cur).offset as int, p.excludes_keywords, p.parts@) is None
                &&& e.offset == trivia_end(code@, old(cur).offset as int)
                &&& e.expected@ == seq![p.token]
                &&& final(cur).offset == old(cur).offset
            },
        },
{
    let s = skip_trivia(code, cur.offset);
    let expected = vec![p.token];
    assert(expected@ =~= seq![p.token]);
    match match_parts(code, s, &p.parts) {
        Some(e) => {
            if (p.excludes_keywords && keyword(code, s, e)) || next_word(code, e) {
                Err(ParseError { offset: s, expected })
            } else {
                cur.offset = e;
                Ok(Span { file, start: s, end: e })
            }
        },
        None => Err(ParseError { offset: s, expected }),
    }
}

proof fn lemma_identifier_progress(code: Seq<char>, s: int, e: int)
    requires
        0 <= s <= code.len(),
        parts_end(code, s, identifier_parts()) == Some(e),
    ensures
        s < e <= code.len(),
{
    let parts = identifier_parts();
    let n = run_len(code, s, parts[0].class, parts[0].max_count as nat);
    crate::lexer::lemma_run_len_bounds(code, s, parts[0].class, parts[0].max_count as nat);
    assert(n >= 1);
    lemma_parts_end_bounds(code, s + n, parts.drop_first());
}

proof fn lemma_literal_progress(code: Seq<char>, s: int, e: int)
    requires
        0 <= s <= code.len(),
        parts_end(code, s, literal_parts()) == Some(e),
    ensures
        s < e <= code.len(),
{
    let parts = literal_parts();
    let n = run_len(code, s, parts[0].class, parts[0].max_count as nat);
    crate::lexer::lemma_run_len_bounds(code, s, parts[0].class, parts[0].max_count as nat);
    let rest = parts.drop_first();
    assert(parts_end(code, s + n, rest) == Some(e));
    let m = run_len(code, s + n, rest[0].class, rest[0].max_count as nat);
    assert(rest[0].min_count == 1);
    assert(m >= 1);
    crate::lexer::lemma_run_len_bounds(code, s + n, rest[0].class, rest[0].max_count as nat);
    lemma_parts_end_bounds(code, s + n + m, rest.drop_first());
}

/// The outcome of parsing an expression at `o`: a literal, a name, or neither.
pub open spec fn expression_outcome(code: Seq<char>, o: int) -> Option<(bool, int)> {
    match pattern_match(code, o, false, literal_parts()) {
        Some(e) => Some((true, e)),
        None => match pattern_match(code, o, true, identifier_parts()) {
            Some(e) => Some((false, e)),
            None => None,
        },
    }
}

/// Parses `IntLiteral | Name`; the literal is tried first.
pub fn parse_expression(code: &Vec<char>, file: usize, cur: &mut Cursor) -> (r: Result<
    Expr,
    ParseError,
>)
    requires
        cursor_ok(code@, *old(cur)),
    ensures
        final(cur).scope@ == old(cur).scope@,
        match r {
            Ok(expr) => {
                let s = trivia_end(code@, old(cur).offset as int);
                &&& spent(*old(cur), *final(cur))
                &&& expr_id(expr) == old(cur).next_id
                &&& final(cur).next_id == old(cur).next_id + 1
                &&& expr_span(expr).file == file
                &&& expr_span(expr).start as int == s
                &&& expr_span(expr).end == final(cur).offset
                &&& s < final(cur).offset <= code@.len()
                &&& match expr {
                    Expr::Literal(l) => {
                        &&& expression_outcome(code@, old(cur).offset as int) == Some((true, l.span.end as int))
                        &&& l.cleaned@ == without_underscores(slice(code@, l.span))
                    },
                    Expr::Reference(x) => {
                        &&& expression_outcome(code@, old(cur).offset as int) == Some((false, x.span.end as int))
                        &&& x.name@ == slice(code@, x.span)
                        &&& x.scope@ == old(cur).scope@
                    },
                }
            },
            Err(e) => {
                &&& expression_outcome(code@, old(cur).offset as int) is None
                &&& final(cur).offset == old(cur).offset
                &&& final(cur).next_id == old(cur).next_id
                &&& e.offset == trivia_end(code@, old(cur).offset as int)
                &&& e.expected@ == seq![Token::I32Literal, Token::Identifier]
            },
        },
{
    proof {
        lemma_trivia_end_bounds(code@, cur.offset as int);
    }
    let literal = i32_literal_pattern();
    let first = match parse_pattern(code, file, cur, &literal) {
        Ok(span) => {
            proof {
                lemma_literal_progress(code@, span.start as int, span.end as int);
            }
            let text = slice_chars(code, span.start, span.end);
            let id = cur.next_id;
            cur.next_id = cur.next_id + 1;
            let r = Expr::Literal(Literal { id, span, cleaned: remove_underscores(&text) });
            assert(expression_outcome(code@, old(cur).offset as int) == Some((true, span.end as int)));
            assert(old(cur).offset <= span.start);
            assert(span.start < span.end);
            assert(cur.offset == span.end);
            assert(cur.next_id == old(cur).next_id + 1);
            assert(spent(*old(cur), *cur));
            return Ok(r);
        },
        Err(e) => e,
    };
    let identifier = identifier_pattern();
    match parse_pattern(code, file, cur, &identifier) {
        Ok(span) => {
            proof {
                lemma_identifier_progress(code@, span.start as int, span.end as int);
            }
            let id = cur.next_id;
            cur.next_id = cur.next_id + 1;
            Ok(
                Expr::Reference(
                    Reference {
                        id,
                        scope: copy_ids(&cur.scope),
                        span,
                        name: slice_chars(code, span.start, span.end),
                    },
                ),
            )
        },
        Err(second) => {
            let errors = vec![first, second];
            let r = ParseError::merge(&errors);
            proof {
                let es = errors@;
                assert(es.drop_last().drop_last().len() == 0);
                assert(max_offset(es) == es[0].offset);
                assert(es[0].expected@ == seq![Token::I32Literal]);
                assert(es[1].expected@ == seq![Token::Identifier]);
                assert(es.drop_last().drop_last().len() == 0);
                assert(es.drop_last().last() == es[0]);
                assert(expected_at(es.drop_last().drop_last(), es[0].offset as int) =~= Seq::empty());
                assert(expected_at(es.drop_last(), es[0].offset as int) =~= seq![Token::I32Literal]);
                assert(r.expected@ =~= seq![Token::I32Literal, Token::Identifier]);
            }
            Err(r)
        },
    }
}

#[verifier::rlimit(60)]
fn definition_body(
    code: &Vec<char>,
    file: usize,
    cur: &mut Cursor,
    kind: DefinitionKind,
    id: u64,
) -> (r: Result<Definition, ParseError>)
    requires
        old(cur).offset <= code@.len(),
        old(cur).next_id + (code@.len() - old(cur).offset) + 1 <= u64::MAX,
        old(cur).next_id == id + 1,
        old(cur).scope@.len() > 0,
        old(cur).scope@.last() == id,
    ensures
        final(cur).scope@ == old(cur).scope@,
        match r {
            Ok(d) => {
                &&& old(cur).offset + 6 <= final(cur).offset <= code@.len()
                &&& final(cur).next_id == old(cur).next_id + 1
                &&& definition_ok(code@, file, d)
                &&& d.id == id
                &&& expr_id(d.value) == old(cur).next_id
                &&& d.scope@ == old(cur).scope@
                &&& d.kind == kind
                &&& (kind == DefinitionKind::Constant ==> !d.is_public)
                &&& old(cur).offset <= expr_span(d.value).start
                &&& old(cur).offset <= d.name_span.start
                &&& expr_span(d.value).end <= final(cur).offset
                &&& crate::grammar::definition_outcome(code@, old(cur).offset as int, kind) == Ok::<int, (int, Seq<Token>)>(final(cur).offset as int)
                &&& crate::grammar::definition_parsed(code@, old(cur).offset as int, d)
            },
            Err(e) => crate::grammar::definition_outcome(code@, old(cur).offset as int, kind) == Err::<int, (int, Seq<Token>)>(error_view(e)),
        },
{
    let start = cur.offset;
    let mut is_public = false;
    if kind == DefinitionKind::Variable {
        match parse_symbol(code, file, cur, Token::Pub) {
            Ok(_) => {
                is_public = true;
            },
            Err(_) => {},
        }
    }
    let keyword_token = if kind == DefinitionKind::Variable {
        Token::Var
    } else {
        Token::Const
    };
    let keyword = match parse_symbol(code, file, cur, keyword_token) {
        Ok(span) => span,
        Err(e) => {
            return Err(e);
        },
    };
    assert(token_text(keyword_token).len() == 3 || token_text(keyword_token).len() == 5);
    let identifier = identifier_pattern();
    let name_span = match parse_pattern(code, file, cur, &identifier) {
        Ok(span) => span,
        Err(e) => {
            return Err(e);
        },
    };
    proof {
        lemma_identifier_progress(code@, name_span.start as int, name_span.end as int);
    }
    match parse_symbol(code, file, cur, Token::Equal) {
        Ok(_) => {},
        Err(e) => {
            return Err(e);
        },
    }
    assert(cur.offset >= start + 5);
    proof {
        lemma_trivia_end_bounds(code@, cur.offset as int);
    }
    let value = match parse_expression(code, file, cur) {
        Ok(value) => value,
        Err(e) => {
            return Err(e);
        },
    };
    match parse_symbol(code, file, cur, Token::Semicolon) {
        Ok(_) => {},
        Err(e) => {
            return Err(e);
        },
    }
    Ok(
        Definition {
            id,
            scope: copy_ids(&cur.scope),
            kind,
            is_public,
            keyword,
            name_span,
            name: slice_chars(code, name_span.start, name_span.end),
            value,
        },
    )
}

/// Parses `['pub'] 'var' Name '=' Expr ';'` or `'const' Name '=' Expr ';'`, inside a scope
/// of its own whose identity is the definition's.
pub fn parse_definition(code: &Vec<char>, file: usize, cur: &mut Cursor, kind: DefinitionKind) -> (r:
    Result<Definition, ParseError>)
    requires
        cursor_ok(code@, *old(cur)),
    ensures
        final(cur).scope@ == old(cur).scope@,
        match r {
            Ok(d) => {
                &&& spent(*old(cur), *final(cur))
                &&& old(cur).offset < final(cur).offset <= code@.len()
                &&& final(cur).next_id == old(cur).next_id + 2
                &&& definition_ok(code@, file, d)
                &&& d.id == old(cur).next_id
                &&& expr_id(d.value) == old(cur).next_id + 1
                &&& d.scope@ == old(cur).scope@.push(d.id)
                &&& d.kind == kind
                &&& (kind == DefinitionKind::Constant ==> !d.is_public)
                &&& old(cur).offset <= expr_span(d.value).start
                &&& old(cur).offset <= d.name_span.start
                &&& expr_span(d.value).end <= final(cur).offset
                &&& crate::grammar::definition_outcome(code@, old(cur).offset as int, kind) == Ok::<int, (int, Seq<Token>)>(final(cur).offset as int)
                &&& crate::grammar::definition_parsed(code@, old(cur).offset as int, d)
            },
            Err(e) => {
                &&& crate::grammar::definition_outcome(code@, old(cur).offset as int, kind) == Err::<int, (int, Seq<Token>)>(error_view(e))
                &&& final(cur).offset == old(cur).offset
                &&& final(cur).next_id == old(cur).next_id
            },
        },
{
    let start = cur.offset;
    let id = cur.next_id;
    cur.next_id = cur.next_id + 1;
    cur.scope.push(id);
    let r = definition_body(code, file, cur, kind, id);
    cur.scope.pop();
    assert(cur.scope@ =~= old(cur).scope@);
    if r.is_err() {
        cur.offset = start;
        cur.next_id = id;
    }
    r
}

pub open spec fn segment_span(s: Segment) -> Span {
    match s {
        Segment::Parent(span) => span,
        Segment::Name(span, _) => span,
    }
}

/// The (start, end) of each segment.
pub open spec fn segment_pairs(segs: Seq<Segment>) -> Seq<(int, int)> {
    Seq::new(segs.len(), |i: int| (segment_span(segs[i]).start as int, segment_span(segs[i]).end as int))
}

/// What a list holds: a fixed symbol, or names.
#[derive(Debug, Clone, Copy)]
pub enum ListItem {
    Symbol(Token),
    Name,
}

/// The (start, end) of each span.
pub open spec fn span_pairs(spans: Seq<Span>) -> Seq<(int, int)> {
    Seq::new(spans.len(), |i: int| (spans[i].start as int, spans[i].end as int))
}

pub open spec fn error_view(e: ParseError) -> (int, Seq<Token>) {
    (e.offset as int, e.expected@)
}

/// Parses one list item at the cursor.
fn parse_list_item(code: &Vec<char>, file: usize, cur: &mut Cursor, what: ListItem, identifier: &Pattern) -> (r: Result<Span, ParseError>)
    requires
        old(cur).offset <= code@.len(),
        identifier.parts@ == identifier_parts(),
        identifier.excludes_keywords,
        identifier.token == Token::Identifier,
        what matches ListItem::Symbol(t) ==> is_symbol(t),
    ensures
        final(cur).scope@ == old(cur).scope@,
        final(cur).next_id == old(cur).next_id,
        match r {
            Ok(span) => {
                &&& crate::grammar::item_match(code@, old(cur).offset as int, what) == Some((span.start as int, span.end as int))
                &&& span.file == file
                &&& old(cur).offset <= span.start < span.end <= code@.len()
                &&& final(cur).offset == span.end
            },
            Err(e) => {
                &&& crate::grammar::item_match(code@, old(cur).offset as int, what) is None
                &&& error_view(e) == crate::grammar::sym_err(code@, old(cur).offset as int, crate::grammar::item_token(what))
                &&& final(cur).offset == old(cur).offset
            },
        },
{
    let r = match what {
        ListItem::Symbol(t) => parse_symbol(code, file, cur, t),
        ListItem::Name => parse_pattern(code, file, cur, identifier),
    };
    match &r {
        Ok(span) => {
            proof {
                match what {
                    ListItem::Symbol(t) => {
                        assert(token_text(t).len() > 0);
                    },
                    ListItem::Name => {
                        lemma_identifier_progress(code@, span.start as int, span.end as int);
                    },
                }
            }
        },
        Err(e) => {
            assert(e.expected@ =~= seq![crate::grammar::item_token(what)]);
        },
    }
    r
}

/// Parses items separated by `.`, until one (or its separator) fails. Fails, with the error
/// that ended the list, when fewer than `min` items were read; otherwise returns them with
/// that error, the cursor after the last item.
pub fn parse_many(code: &Vec<char>, file: usize, cur: &mut Cursor, what: ListItem, min: usize) -> (r: Result<
    (Vec<Span>, ParseError),
    ParseError,
>)
    requires
        old(cur).offset <= code@.len(),
        what matches ListItem::Symbol(t) ==> is_symbol(t),
    ensures
        final(cur).scope@ == old(cur).scope@,
        final(cur).next_id == old(cur).next_id,
        old(cur).offset <= final(cur).offset <= code@.len(),
        match r {
            Ok((spans, e)) => {
                &&& crate::grammar::list_outcome(code@, old(cur).offset as int, what, min as nat) is Ok
                &&& crate::grammar::list_outcome(code@, old(cur).offset as int, what, min as nat)->Ok_0
                    == (span_pairs(spans@), error_view(e), final(cur).offset as int)
                &&& (spans@.len() > 0 ==> old(cur).offset < final(cur).offset)
                &&& forall|i: int| #![trigger spans@[i]] 0 <= i < spans@.len() ==> {
                    &&& spans@[i].file == file
                    &&& spans@[i].start <= spans@[i].end <= code@.len()
                }
            },
            Err(e) => {
                &&& crate::grammar::list_outcome(code@, old(cur).offset as int, what, min as nat) is Err
                &&& crate::grammar::list_outcome(code@, old(cur).offset as int, what, min as nat)->Err_0 == error_view(e)
                &&& final(cur).offset == old(cur).offset
            },
        },
{
    let identifier = identifier_pattern();
    let start = cur.offset;
    let mut spans: Vec<Span> = Vec::new();
    let first = match parse_list_item(code, file, cur, what, &identifier) {
        Ok(span) => span,
        Err(e) => {
            assert(span_pairs(spans@) =~= Seq::<(int, int)>::empty());
            if 0 < min {
                return Err(e);
            }
            return Ok((spans, e));
        },
    };
    spans.push(first);
    let ghost o0 = old(cur).offset as int;
    let ghost whole = crate::grammar::list_outcome(code@, o0, what, 0);
    assert(span_pairs(spans@) =~= seq![(first.start as int, first.end as int)]);
    loop
        invariant
            identifier.parts@ == identifier_parts(),
            identifier.excludes_keywords,
            identifier.token == Token::Identifier,
            what matches ListItem::Symbol(t) ==> is_symbol(t),
            o0 == old(cur).offset,
            start == o0,
            whole == crate::grammar::list_outcome(code@, o0, what, 0),
            o0 < cur.offset <= code@.len(),
            cur.next_id == old(cur).next_id,
            cur.scope@ == old(cur).scope@,
            spans@.len() > 0,
            whole->Ok_0 == ({
                let t = crate::grammar::list_tail(code@, cur.offset as int, what);
                (span_pairs(spans@) + t.0, t.1, t.2)
            }),
            forall|i: int| #![trigger spans@[i]] 0 <= i < spans@.len() ==> {
                &&& spans@[i].file == file
                &&& spans@[i].start <= spans@[i].end <= code@.len()
            },
        decreases code@.len() - cur.offset,
    {
        let saved = cur.offset;
        let stop = match parse_symbol(code, file, cur, Token::Dot) {
            Ok(_) => match parse_list_item(code, file, cur, what, &identifier) {
                Ok(span) => {
                    let ghost before = span_pairs(spans@);
                    spans.push(span);
                    assert(span_pairs(spans@) =~= before + seq![(span.start as int, span.end as int)]);
                    None
                },
                Err(e) => Some(e),
            },
            Err(e) => {
                assert(e.expected@ =~= seq![Token::Dot]);
                Some(e)
            },
        };
        match stop {
            None => {},
            Some(e) => {
                cur.offset = saved;
                assert(span_pairs(spans@) + Seq::<(int, int)>::empty() =~= span_pairs(spans@));
                assert(whole->Ok_0.0 == span_pairs(spans@));
                assert(whole->Ok_0.1 == error_view(e));
                assert(span_pairs(spans@).len() == spans@.len());
                if spans.len() < min {
                    assert(crate::grammar::list_outcome(code@, o0, what, min as nat) is Err);
                    cur.offset = start;
                    return Err(e);
                }
                return Ok((spans, e));
            },
        }
    }
}

/// The segments of an import: its `~`, then its names.
fn make_segments(code: &Vec<char>, file: usize, parents: &Vec<Span>, names: &Vec<Span>) -> (segments: Vec<Segment>)
    requires
        names@.len() > 0,
        forall|k: int| #![trigger names@[k]] 0 <= k < names@.len() ==> names@[k].file == file && names@[k].start <= names@[k].end <= code@.len(),
        forall|k: int| #![trigger parents@[k]] 0 <= k < parents@.len() ==> parents@[k].file == file,
    ensures
        segments@.len() == parents@.len() + names@.len(),
        segment_pairs(segments@) == span_pairs(parents@) + span_pairs(names@),
        forall|k: int| #![trigger segments@[k]] 0 <= k < segments@.len() ==> (segments@[k] is Parent <==> k < parents@.len()),
        forall|k: int| #![trigger segments@[k]] 0 <= k < segments@.len() ==> match segments@[k] {
            Segment::Name(span, name) => span.file == file && span.start <= span.end
                <= code@.len() && name@ == slice(code@, span),
            Segment::Parent(span) => span.file == file,
        },
{
    let mut segments: Vec<Segment> = Vec::new();
    let mut i: usize = 0;
    while i < parents.len()
        invariant
            i <= parents@.len(),
            segments@.len() == i,
            forall|k: int| #![trigger parents@[k]] 0 <= k < parents@.len() ==> parents@[k].file == file,
            forall|k: int| #![trigger parents@[k]] 0 <= k < parents@.len() ==> parents@[k].file == file,
            forall|k: int| #![trigger segments@[k]] 0 <= k < segments@.len() ==> segments@[k] == Segment::Parent(parents@[k]),
            segment_pairs(segments@) == span_pairs(parents@).take(i as int),
        decreases parents.len() - i,
    {
        segments.push(Segment::Parent(parents[i]));
        i = i + 1;
        assert(segment_pairs(segments@) =~= span_pairs(parents@).take(i as int));
    }
    assert(span_pairs(parents@).take(i as int) =~= span_pairs(parents@));
    let mut i: usize = 0;
    while i < names.len()
        invariant
            i <= names@.len(),
            names@.len() > 0,
            segments@.len() == parents@.len() + i,
            forall|k: int| #![trigger names@[k]] 0 <= k < names@.len() ==> names@[k].file == file && names@[k].start <= names@[k].end <= code@.len(),
            forall|k: int| #![trigger parents@[k]] 0 <= k < parents@.len() ==> parents@[k].file == file,
            forall|k: int| #![trigger segments@[k]] 0 <= k < segments@.len() ==> match segments@[k] {
                Segment::Name(span, name) => span.file == file && span.start <= span.end
                    <= code@.len() && name@ == slice(code@, span),
                Segment::Parent(span) => span.file == file,
            },
            segment_pairs(segments@) == span_pairs(parents@) + span_pairs(names@).take(i as int),
            forall|k: int| #![trigger segments@[k]] 0 <= k < segments@.len() ==> (segments@[k] is Parent <==> k < parents@.len()),
        decreases names.len() - i,
    {
        let span = names[i];
        let ghost old_segs = segments@;
        segments.push(Segment::Name(span, slice_chars(code, span.start, span.end)));
        i = i + 1;
        assert(segment_pairs(segments@) =~= segment_pairs(old_segs).push((span.start as int, span.end as int)));
        assert(span_pairs(names@).take(i as int) =~= span_pairs(names@).take(i - 1).push((span.start as int, span.end as int)));
        assert(segment_pairs(segments@) =~= span_pairs(parents@) + span_pairs(names@).take(i as int));
    }
    assert(span_pairs(names@).take(i as int) =~= span_pairs(names@));
    segments
}

/// Parses `['pub'] 'import' ('~' ('.' '~')* '.')? Name ('.' Name)* ';'`.
pub fn parse_import(code: &Vec<char>, file: usize, cur: &mut Cursor) -> (r: Result<
    Import,
    ParseError,
>)
    requires
        old(cur).offset <= code@.len(),
    ensures
        final(cur).scope@ == old(cur).scope@,
        final(cur).next_id == old(cur).next_id,
        old(cur).offset <= final(cur).offset <= code@.len(),
        match r {
            Ok(imp) => {
                &&& import_ok(code@, file, imp)
                &&& old(cur).offset < final(cur).offset
                &&& crate::grammar::import_outcome(code@, old(cur).offset as int) == Ok::<int, (int, Seq<Token>)>(final(cur).offset as int)
                &&& imp.is_public == symbol_match(code@, old(cur).offset as int, token_text(Token::Pub)) is Some
                &&& imp.span.start as int == trivia_end(code@, old(cur).offset as int)
                &&& imp.span.end == final(cur).offset
                &&& segment_pairs(imp.segments@) == crate::grammar::import_parents(code@, old(cur).offset as int).0
                    + crate::grammar::list_outcome(code@, crate::grammar::import_names_at(code@, old(cur).offset as int)->Some_0, ListItem::Name, 1)->Ok_0.0
                &&& forall|k: int| #![trigger imp.segments@[k]] 0 <= k < imp.segments@.len() ==> (imp.segments@[k] is Parent
                    <==> k < crate::grammar::import_parents(code@, old(cur).offset as int).0.len())
                &&& crate::grammar::import_parsed(code@, old(cur).offset as int, imp)
            },
            Err(e) => crate::grammar::import_outcome(code@, old(cur).offset as int) == Err::<int, (int, Seq<Token>)>(error_view(e)),
        },
{
    let mut is_public = false;
    let mut start: usize = 0;
    match parse_symbol(code, file, cur, Token::Pub) {
        Ok(span) => {
            is_public = true;
            start = span.start;
        },
        Err(_) => {},
    }
    match parse_symbol(code, file, cur, Token::Import) {
        Ok(span) => {
            if !is_public {
                start = span.start;
            }
        },
        Err(e) => {
            return Err(e);
        },
    }
    let (parents, _) = match parse_many(code, file, cur, ListItem::Symbol(Token::Tilde), 0) {
        Ok(list) => list,
        Err(e) => {
            return Err(e);
        },
    };
    if parents.len() > 0 {
        match parse_symbol(code, file, cur, Token::Dot) {
            Ok(_) => {},
            Err(e) => {
                return Err(e);
            },
        }
    }
    let (names, _) = match parse_many(code, file, cur, ListItem::Name, 1) {
        Ok(list) => list,
        Err(e) => {
            return Err(e);
        },
    };
    let segments = make_segments(code, file, &parents, &names);
    let end = match parse_symbol(code, file, cur, Token::Semicolon) {
        Ok(span) => span.end,
        Err(e) => {
            return Err(e);
        },
    };
    Ok(Import { span: Span { file, start, end }, is_public, segments })
}

pub open spec fn errors_view(es: Seq<ParseError>) -> Seq<(int, Seq<Token>)> {
    Seq::new(es.len(), |i: int| error_view(es[i]))
}

proof fn lemma_merge_view(es: Seq<ParseError>, off: int)
    ensures
        max_offset(es) == crate::grammar::errors_max(errors_view(es)),
        expected_at(es, off) == crate::grammar::errors_at(errors_view(es), off),
    decreases es.len(),
{
    if es.len() > 0 {
        lemma_merge_view(es.drop_last(), off);
        assert(errors_view(es).drop_last() =~= errors_view(es.drop_last()));
        assert(errors_view(es).last() == error_view(es.last()));
    }
}

/// Parses one item: an import, a variable or a constant. When all three fail, their errors
/// are merged.
pub fn parse_item(code: &Vec<char>, file: usize, cur: &mut Cursor) -> (r: Result<
    Item,
    ParseError,
>)
    requires
        cursor_ok(code@, *old(cur)),
    ensures
        final(cur).scope@ == old(cur).scope@,
        match r {
            Err(e) => {
                &&& final(cur).next_id == old(cur).next_id
                &&& final(cur).offset == old(cur).offset
                &&& crate::grammar::item_outcome(code@, old(cur).offset as int) == Err::<(int, int), (int, Seq<Token>)>(error_view(e))
            },
            Ok(item) => {
                &&& crate::grammar::item_outcome(code@, old(cur).offset as int) == Ok::<(int, int), (int, Seq<Token>)>((
                    match item {
                        Item::Import(_) => 0int,
                        Item::Definition(d) => if d.kind == DefinitionKind::Variable { 1int } else { 2int },
                    },
                    final(cur).offset as int,
                ))
                &&& spent(*old(cur), *final(cur))
                &&& old(cur).offset < final(cur).offset <= code@.len()
                &&& item_parsed(code@, old(cur).offset as int, item)
                &&& final(cur).next_id == old(cur).next_id + if item is Definition { 2int } else { 0int }
                &&& (item matches Item::Definition(d) ==> d.id == old(cur).next_id)
                &&& match item {
                    Item::Definition(d) => {
                        &&& definition_ok(code@, file, d)
                        &&& old(cur).next_id <= d.id
                        &&& expr_id(d.value) < final(cur).next_id
                        &&& d.scope@ == old(cur).scope@.push(d.id)
                        &&& old(cur).offset <= expr_span(d.value).start
                        &&& old(cur).offset <= d.name_span.start
                        &&& expr_span(d.value).end <= final(cur).offset
                    },
                    Item::Import(imp) => import_ok(code@, file, imp),
                }
            },
        },
{
    reveal(crate::grammar::item_outcome);
    let saved = cur.snapshot();
    let first = match parse_import(code, file, cur) {
        Ok(imp) => {
            return Ok(Item::Import(imp));
        },
        Err(e) => e,
    };
    *cur = saved;
    let saved = cur.snapshot();
    let second = match parse_definition(code, file, cur, DefinitionKind::Variable) {
        Ok(d) => {
            return Ok(Item::Definition(d));
        },
        Err(e) => e,
    };
    *cur = saved;
    let saved = cur.snapshot();
    let third = match parse_definition(code, file, cur, DefinitionKind::Constant) {
        Ok(d) => {
            return Ok(Item::Definition(d));
        },
        Err(e) => e,
    };
    *cur = saved;
    let errors = vec![first, second, third];
    let merged = ParseError::merge(&errors);
    proof {
        lemma_merge_view(errors@, merged.offset as int);
        assert(errors_view(errors@) =~= seq![error_view(errors@[0]), error_view(errors@[1]), error_view(errors@[2])]);
    }
    Err(merged)
}

/// The item is the one that the grammar finds at `o`.
pub open spec fn item_parsed(code: Seq<char>, o: int, item: Item) -> bool {
    match item {
        Item::Import(imp) => crate::grammar::import_parsed(code, o, imp),
        Item::Definition(d) => crate::grammar::definition_parsed(code, o, d),
    }
}

/// The number of definitions among the first `i` items.
pub open spec fn definitions_before(items: Seq<Item>, i: int) -> nat
    decreases i,
{
    if i <= 0 {
        0
    } else {
        definitions_before(items, i - 1) + if items[i - 1] is Definition {
            1nat
        } else {
            0nat
        }
    }
}

pub proof fn lemma_definitions_before_prefix(a: Seq<Item>, b: Seq<Item>, i: int)
    requires
        a.len() <= b.len(),
        forall|k: int| 0 <= k < a.len() ==> a[k] == b[k],
        0 <= i <= a.len(),
    ensures
        definitions_before(a, i) == definitions_before(b, i),
    decreases i,
{
    if i > 0 {
        lemma_definitions_before_prefix(a, b, i - 1);
    }
}

/// 0 for an import, 1 for a variable, 2 for a constant.
pub open spec fn item_kind(item: Item) -> int {
    match item {
        Item::Import(_) => 0,
        Item::Definition(d) => if d.kind == DefinitionKind::Variable { 1 } else { 2 },
    }
}

/// The items are, kind by kind, those that the grammar finds in the code.
/// Each definition takes two identities from `lo` on, in order.
#[verifier::opaque]
pub open spec fn items_match(code: Seq<char>, items: Seq<Item>, lo: int) -> bool {
    &&& items.len() == crate::grammar::module_items(code, 0).len()
    &&& forall|i: int| #![trigger items[i]] 0 <= i < items.len() ==> item_kind(items[i]) == crate::grammar::module_items(code, 0)[i].0
        && item_parsed(code, crate::grammar::module_items(code, 0)[i].1, items[i])
        && (items[i] matches Item::Definition(d) ==> d.id == lo + 2 * definitions_before(items, i))
}

/// Parses a whole file: items until only whitespace and comments remain. The first item
/// that fails ends the parse with its error. Also returns the next identity to give out.
pub fn parse_module(code: &Vec<char>, file: usize, next_id: u64) -> (r: (
    Result<Module, ParseError>,
    u64,
))
    requires
        next_id + code@.len() + 2 <= u64::MAX,
    ensures
        next_id <= r.1 <= next_id + code@.len(),
        r.0 is Ok <==> crate::grammar::module_outcome(code@, 0) is Ok,
        match r.0 {
            Ok(m) => {
                &&& items_ok(code@, file, m.items@, next_id as int, r.1 as int)
                &&& items_match(code@, m.items@, next_id as int)
                &&& r.1 == next_id + 2 * definitions_before(m.items@, m.items@.len() as int)
            },
            Err(e) => crate::grammar::module_outcome(code@, 0) == Err::<(), (int, Seq<Token>)>(error_view(e)),
        },
{
    reveal(crate::grammar::module_outcome);
    reveal(crate::grammar::module_items);
    let mut cur = Cursor::new(next_id);
    let ghost mut seen: Seq<(int, int, int)> = Seq::empty();
    assert(seen + crate::grammar::module_items(code@, 0) =~= crate::grammar::module_items(code@, 0));
    let mut items: Vec<Item> = Vec::new();
    loop
        invariant
            cursor_ok(code@, cur),
            cur.scope@.len() == 0,
            next_id <= cur.next_id,
            cur.next_id - next_id <= cur.offset,
            items_ok(code@, file, items@, next_id as int, cur.next_id as int),
            forall|i: int| #![trigger items@[i]] 0 <= i < items@.len() && items@[i] is Definition ==> expr_span(items@[i]->Definition_0.value).end <= cur.offset,
            crate::grammar::module_outcome(code@, 0) == crate::grammar::module_outcome(code@, cur.offset as int),
            crate::grammar::module_items(code@, 0) == seen + crate::grammar::module_items(code@, cur.offset as int),
            seen.len() == items@.len(),
            forall|i: int| #![trigger items@[i]] 0 <= i < items@.len() ==> item_kind(items@[i]) == seen[i].0
                && item_parsed(code@, seen[i].1, items@[i])
                && (items@[i] matches Item::Definition(d) ==> d.id == next_id + 2 * definitions_before(items@, i)),
            cur.next_id == next_id + 2 * definitions_before(items@, items@.len() as int),
        decreases code@.len() - cur.offset,
    {
        reveal(crate::grammar::module_outcome);
        reveal(crate::grammar::module_items);
        let ghost o = cur.offset as int;
        let s = skip_trivia(code, cur.offset);
        cur.offset = s;
        if s == code.len() {
            proof {
                assert(crate::grammar::module_items(code@, o).len() == 0);
                assert(seen + crate::grammar::module_items(code@, o) =~= seen);
                assert forall|i: int| #![trigger items@[i]] 0 <= i < items@.len() implies item_kind(items@[i]) == crate::grammar::module_items(code@, 0)[i].0
                    && item_parsed(code@, crate::grammar::module_items(code@, 0)[i].1, items@[i]) by {
                    assert(crate::grammar::module_items(code@, 0)[i] == seen[i]);
                }
            }
            proof {
                reveal(items_match);
            }
            return (Ok(Module { items }), cur.next_id);
        }
        let ghost before = cur;
        let ghost old_items = items@;
        match parse_item(code, file, &mut cur) {
            Ok(item) => {
                items.push(item);
                proof {
                    let mi = crate::grammar::module_items(code@, o);
                    let entry = (item_kind(item), s as int, cur.offset as int);
                    assert(mi == seq![entry] + crate::grammar::module_items(code@, cur.offset as int));
                    let old_seen = seen;
                    seen = seen.push(entry);
                    assert(seen + crate::grammar::module_items(code@, cur.offset as int) =~= old_seen + mi);
                    assert forall|i: int| #![trigger items@[i]] 0 <= i < items@.len() implies item_kind(items@[i]) == seen[i].0
                        && item_parsed(code@, seen[i].1, items@[i])
                        && (items@[i] matches Item::Definition(d) ==> d.id == next_id + 2 * definitions_before(items@, i)) by {
                        lemma_definitions_before_prefix(old_items, items@, i);
                        if i < old_items.len() {
                            assert(items@[i] == old_items[i]);
                        }
                    }
                    lemma_definitions_before_prefix(old_items, items@, old_items.len() as int);
                }
                proof {
                    assert forall|i: int| #![trigger items@[i]] 0 <= i < items@.len() implies match items@[i] {
                        Item::Definition(d) => definition_ok(code@, file, d) && next_id <= d.id
                            && expr_id(d.value) < cur.next_id,
                        Item::Import(imp) => import_ok(code@, file, imp),
                    } by {
                        if i < items@.len() - 1 {
                            assert(items@[i] == items@.drop_last()[i]);
                        }
                    }
                }
            },
            Err(e) => {
                return (Err(e), cur.next_id);
            },
        }
    }
}

/// A name of the grammar: a letter or `_`, then letters, digits and `_`.
pub open spec fn is_name(s: Seq<char>) -> bool {
    s.len() > 0 && crate::text::is_name_start(s[0]) && is_word(s)
}

proof fn lemma_word_run(s: Seq<char>, o: int, max: nat)
    requires
        0 <= o <= s.len(),
        is_word(s),
        max >= s.len() - o,
    ensures
        run_len(s, o, crate::lexer::CharClass::WordChar, max) == s.len() - o,
    decreases s.len() - o,
{
    if o < s.len() {
        lemma_word_run(s, o + 1, (max - 1) as nat);
    }
}

proof fn lemma_no_trivia(s: Seq<char>)
    requires
        s.len() > 0,
        crate::text::is_name_start(s[0]) || s[0] == '-' || crate::text::is_digit(s[0]),
    ensures
        trivia_end(s, 0) == 0,
{
    assert(!starts_with_at(s, 0, crate::lexer::comment_prefix())) by {
        if starts_with_at(s, 0, crate::lexer::comment_prefix()) {
            assert(s.subrange(0, 2)[0] == s[0]);
        }
    }
    assert(crate::lexer::white_space_end(s, 0) == 0);
}

/// A name that is not a keyword, parsed where an expression is expected, is read as a
/// reference to exactly that name: the whole text, and nothing else.
pub proof fn identifier_law(s: Seq<char>)
    requires
        is_name(s),
        !is_keyword(s),
        s.len() < usize::MAX,
    ensures
        trivia_end(s, 0) == 0,
        expression_outcome(s, 0) == Some((false, s.len() as int)),
{
    lemma_name_parts(s);
    assert(s.subrange(0, s.len() as int) =~= s);
    assert(!next_is_word(s, s.len() as int));
}

proof fn lemma_word_run_at(code: Seq<char>, o: int, e: int, max: nat)
    requires
        0 <= o <= e <= code.len(),
        forall|i: int| o <= i < e ==> crate::text::is_word_char(#[trigger] code[i]),
        !next_is_word(code, e),
        max >= e - o,
    ensures
        run_len(code, o, crate::lexer::CharClass::WordChar, max) == e - o,
    decreases e - o,
{
    if o < e {
        lemma_word_run_at(code, o + 1, e, (max - 1) as nat);
    }
}

/// Wherever an expression is expected, a name that is not a keyword and is not followed by a
/// word character is read as a reference to exactly that name.
pub proof fn identifier_law_at(code: Seq<char>, o: int, e: int)
    requires
        0 <= o <= code.len(),
        trivia_end(code, o) < e <= code.len(),
        is_name(code.subrange(trivia_end(code, o), e)),
        !is_keyword(code.subrange(trivia_end(code, o), e)),
        !next_is_word(code, e),
        code.len() < usize::MAX,
    ensures
        expression_outcome(code, o) == Some((false, e)),
{
    lemma_trivia_end_bounds(code, o);
    let s = trivia_end(code, o);
    let name = code.subrange(s, e);
    assert(code[s] == name[0]);
    let lit = literal_parts();
    assert(run_len(code, s, lit[0].class, lit[0].max_count as nat) == 0);
    assert(run_len(code, s, lit[1].class, lit[1].max_count as nat) == 0);
    assert(lit.drop_first()[0] == lit[1]);
    assert(parts_end(code, s, lit.drop_first()) is None);
    assert(parts_end(code, s, lit) is None);
    let id = identifier_parts();
    assert(run_len(code, s, id[0].class, id[0].max_count as nat) == 1) by {
        assert(run_len(code, s + 1, id[0].class, 0) == 0);
    }
    assert forall|i: int| s + 1 <= i < e implies crate::text::is_word_char(#[trigger] code[i]) by {
        assert(code[i] == name[i - s]);
    }
    lemma_word_run_at(code, s + 1, e, usize::MAX as nat);
    assert(id.drop_first()[0] == id[1]);
    assert(id[1].class == crate::lexer::CharClass::WordChar);
    assert(parts_end(code, e, id.drop_first().drop_first()) == Some(e));
    assert(parts_end(code, s + 1, id.drop_first()) == Some(e));
    assert(parts_end(code, s, id) == Some(e));
}

/// A keyword alone, parsed where an expression is expected, is rejected.
pub proof fn keyword_law(s: Seq<char>)
    requires
        is_keyword(s),
    ensures
        expression_outcome(s, 0) is None,
{
    assert(is_name(s)) by {
        assert forall|i: int| 0 <= i < s.len() implies crate::text::is_word_char(#[trigger] s[i]) by {
            assert('a' <= s[i] <= 'z');
        }
    }
    lemma_name_parts(s);
    assert(s.subrange(0, s.len() as int) =~= s);
}

/// A name matches no literal, and the parts of the identifier pattern match all of it.
proof fn lemma_name_parts(s: Seq<char>)
    requires
        is_name(s),
        s.len() < usize::MAX,
    ensures
        trivia_end(s, 0) == 0,
        pattern_match(s, 0, false, literal_parts()) is None,
        parts_end(s, 0, identifier_parts()) == Some(s.len() as int),
{
    lemma_no_trivia(s);
    let lit = literal_parts();
    assert(run_len(s, 0, lit[0].class, lit[0].max_count as nat) == 0);
    assert(run_len(s, 0, lit[1].class, lit[1].max_count as nat) == 0);
    assert(lit.drop_first()[0] == lit[1]);
    assert(parts_end(s, 0, lit.drop_first()) is None);
    assert(parts_end(s, 0, lit) is None);
    let id = identifier_parts();
    assert(run_len(s, 0, id[0].class, id[0].max_count as nat) == 1) by {
        assert(run_len(s, 1, id[0].class, 0) == 0);
    }
    lemma_word_run(s, 1, usize::MAX as nat);
    assert(id.drop_first()[0] == id[1]);
    assert(id.drop_first().drop_first().len() == 0);
    assert(id[1].class == crate::lexer::CharClass::WordChar);
    assert(parts_end(s, s.len() as int, id.drop_first().drop_first()) == Some(s.len() as int));
    assert(parts_end(s, 1, id.drop_first()) == Some(s.len() as int));
}

} // verus!
