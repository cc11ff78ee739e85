//! Character-level recognizers used on demand by the parser: fixed symbols and
//! character-class patterns, both preceded by whitespace and line comments.
use crate::text::{digit, is_digit, is_name_start, is_white_space, is_word_char, name_start, white_space, word_char};
use vstd::prelude::*;

verus! {

/// What the parser may expect at some point: a fixed symbol or a pattern.
#[derive(Debug, Clone, Copy, PartialEq, Eq, Structural)]
pub enum Token {
    Const,
    Import,
    Var,
    Pub,
    Dot,
    Equal,
    Semicolon,
    Tilde,
    Identifier,
    I32Literal,
}

/// The text of a fixed symbol (empty for a pattern).
pub open spec fn token_text(t: Token) -> Seq<char> {
    match t {
        Token::Const => seq!['c', 'o', 'n', 's', 't'],
        Token::Import => seq!['i', 'm', 'p', 'o', 'r', 't'],
        Token::Var => seq!['v', 'a', 'r'],
        Token::Pub => seq!['p', 'u', 'b'],
        Token::Dot => seq!['.'],
        Token::Equal => seq!['='],
        Token::Semicolon => seq![';'],
        Token::Tilde => seq!['~'],
        _ => Seq::empty(),
    }
}

/// The label of a token in a syntax error message.
pub open spec fn token_label(t: Token) -> Seq<char> {
    match t {
        Token::Identifier => seq!['i', 'd', 'e', 'n', 't', 'i', 'f', 'i', 'e', 'r'],
        Token::I32Literal => seq!['`', 'i', '3', '2', '`', ' ', 'l', 'i', 't', 'e', 'r', 'a', 'l'],
        _ => seq!['`'] + token_text(t) + seq!['`'],
    }
}

impl Token {
    pub fn text(self) -> (r: Vec<char>)
        ensures
            r@ == token_text(self),
    {
        let r = match self {
            Token::Const => vec!['c', 'o', 'n', 's', 't'],
            Token::Import => vec!['i', 'm', 'p', 'o', 'r', 't'],
            Token::Var => vec!['v', 'a', 'r'],
            Token::Pub => vec!['p', 'u', 'b'],
            Token::Dot => vec!['.'],
            Token::Equal => vec!['='],
            Token::Semicolon => vec![';'],
            Token::Tilde => vec!['~'],
            _ => Vec::new(),
        };
        assert(r@ =~= token_text(self));
        r
    }

    pub fn label(self) -> (r: Vec<char>)
        ensures
            r@ == token_label(self),
    {
        match self {
            Token::Identifier => {
                let r = vec!['i', 'd', 'e', 'n', 't', 'i', 'f', 'i', 'e', 'r'];
                assert(r@ =~= token_label(self));
                r
            },
            Token::I32Literal => {
                let r = vec!['`', 'i', '3', '2', '`', ' ', 'l', 'i', 't', 'e', 'r', 'a', 'l'];
                assert(r@ =~= token_label(self));
                r
            },
            _ => {
                let mut r = vec!['`'];
                let t = self.text();
                let mut i: usize = 0;
                while i < t.len()
                    invariant
                        i <= t@.len(),
                        r@ == seq!['`'] + t@.take(i as int),
                    decreases t.len() - i,
                {
                    r.push(t[i]);
                    i = i + 1;
                    assert(t@.take(i as int) =~= t@.take(i - 1).push(t@[i - 1]));
                }
                r.push('`');
                assert(t@.take(i as int) =~= t@);
                assert(r@ =~= token_label(self));
                r
            },
        }
    }
}

/// The words that no name may be.
pub open spec fn is_keyword(s: Seq<char>) -> bool {
    s == token_text(Token::Const) || s == token_text(Token::Import) || s == token_text(Token::Var)
}

/// Every character is a word character (a symbol shaped like a keyword).
pub open spec fn is_word(s: Seq<char>) -> bool {
    forall|i: int| 0 <= i < s.len() ==> is_word_char(#[trigger] s[i])
}

pub open spec fn starts_with_at(code: Seq<char>, o: int, t: Seq<char>) -> bool {
    0 <= o && o + t.len() <= code.len() && code.subrange(o, o + t.len()) == t
}

/// A word character stands at `e`.
pub open spec fn next_is_word(code: Seq<char>, e: int) -> bool {
    0 <= e < code.len() && is_word_char(code[e])
}

pub open spec fn comment_prefix() -> Seq<char> {
    seq!['/', '/']
}

/// The end of the run of whitespace that starts at `o`.
pub open spec fn white_space_end(code: Seq<char>, o: int) -> int
    decreases code.len() - o,
{
    if 0 <= o < code.len() && is_white_space(code[o]) {
        white_space_end(code, o + 1)
    } else {
        o
    }
}

/// The offset of the next line break at or after `o`, or the end of the code.
pub open spec fn line_end(code: Seq<char>, o: int) -> int
    decreases code.len() - o,
{
    if 0 <= o < code.len() && code[o] != '\n' {
        line_end(code, o + 1)
    } else {
        o
    }
}

/// The offset reached from `o` by skipping whitespace and line comments, in any order.
pub open spec fn trivia_end(code: Seq<char>, o: int) -> int
    decreases code.len() - o,
{
    let o1 = if starts_with_at(code, o, comment_prefix()) { line_end(code, o) } else { o };
    let o2 = white_space_end(code, o1);
    if o < o2 <= code.len() && starts_with_at(code, o2, comment_prefix()) {
        trivia_end(code, o2)
    } else {
        o2
    }
}

/// Where a fixed symbol that is tried at `o` ends, if it matches.
pub open spec fn symbol_match(code: Seq<char>, o: int, t: Seq<char>) -> Option<int> {
    let s = trivia_end(code, o);
    if starts_with_at(code, s, t) && !(is_word(t) && next_is_word(code, s + t.len())) {
        Some(s + t.len())
    } else {
        None
    }
}

/// A class of characters.
#[derive(Debug, Clone, Copy, PartialEq, Eq, Structural)]
pub enum CharClass {
    Minus,
    Digit,
    DigitOrUnderscore,
    NameStart,
    WordChar,
}

pub open spec fn in_class(class: CharClass, c: char) -> bool {
    match class {
        CharClass::Minus => c == '-',
        CharClass::Digit => is_digit(c),
        CharClass::DigitOrUnderscore => is_digit(c) || c == '_',
        CharClass::NameStart => is_name_start(c),
        CharClass::WordChar => is_word_char(c),
    }
}

pub fn class_contains(class: CharClass, c: char) -> (r: bool)
    ensures
        r == in_class(class, c),
{
    match class {
        CharClass::Minus => c == '-',
        CharClass::Digit => digit(c),
        CharClass::DigitOrUnderscore => digit(c) || c == '_',
        CharClass::NameStart => name_start(c),
        CharClass::WordChar => word_char(c),
    }
}

/// One part of a pattern: between `min_count` and `max_count` characters of a class.
#[derive(Debug, Clone, Copy)]
pub struct PatternPart {
    pub class: CharClass,
    pub min_count: usize,
    pub max_count: usize,
}

/// A sequence of parts, each matched greedily; `excludes_keywords` rejects a match that is
/// a keyword.
#[derive(Debug)]
pub struct Pattern {
    pub token: Token,
    pub excludes_keywords: bool,
    pub parts: Vec<PatternPart>,
}

/// Length of the run of characters of `class` from `o`, at most `max`.
pub open spec fn run_len(code: Seq<char>, o: int, class: CharClass, max: nat) -> nat
    decreases code.len() - o,
{
    if max > 0 && 0 <= o < code.len() && in_class(class, code[o]) {
        1 + run_len(code, o + 1, class, (max - 1) as nat)
    } else {
        0
    }
}

/// Where the parts, matched greedily one after the other from `o`, end.
pub open spec fn parts_end(code: Seq<char>, o: int, parts: Seq<PatternPart>) -> Option<int>
    decreases parts.len(),
{
    if parts.len() == 0 {
        Some(o)
    } else {
        let n = run_len(code, o, parts[0].class, parts[0].max_count as nat);
        if n < parts[0].min_count {
            None
        } else {
            parts_end(code, o + n, parts.drop_first())
        }
    }
}

/// Where a pattern that is tried at `o` ends, if it matches.
pub open spec fn pattern_match(
    code: Seq<char>,
    o: int,
    excludes_keywords: bool,
    parts: Seq<PatternPart>,
) -> Option<int> {
    let s = trivia_end(code, o);
    match parts_end(code, s, parts) {
        Some(e) => if (excludes_keywords && is_keyword(code.subrange(s, e))) || next_is_word(
            code,
            e,
        ) {
            None
        } else {
            Some(e)
        },
        None => None,
    }
}

/// A name: a letter or `_`, then letters, digits and `_`, and no keyword.
pub fn identifier_pattern() -> (p: Pattern)
    ensures
        p.token == Token::Identifier,
        p.excludes_keywords,
        p.parts@ == identifier_parts(),
{
    let p = Pattern {
        token: Token::Identifier,
        excludes_keywords: true,
        parts: vec![
            PatternPart { class: CharClass::NameStart, min_count: 1, max_count: 1 },
            PatternPart { class: CharClass::WordChar, min_count: 0, max_count: usize::MAX },
        ],
    };
    assert(p.parts@ =~= identifier_parts());
    p
}

pub open spec fn identifier_parts() -> Seq<PatternPart> {
    seq![
        PatternPart { class: CharClass::NameStart, min_count: 1, max_count: 1 },
        PatternPart { class: CharClass::WordChar, min_count: 0, max_count: usize::MAX },
    ]
}

/// An integer literal: an optional `-`, a digit, then digits and `_`.
pub fn i32_literal_pattern() -> (p: Pattern)
    ensures
        p.token == Token::I32Literal,
        !p.excludes_keywords,
        p.parts@ == literal_parts(),
{
    let p = Pattern {
        token: Token::I32Literal,
        excludes_keywords: false,
        parts: vec![
            PatternPart { class: CharClass::Minus, min_count: 0, max_count: 1 },
            PatternPart { class: CharClass::Digit, min_count: 1, max_count: 1 },
            PatternPart { class: CharClass::DigitOrUnderscore, min_count: 0, max_count: usize::MAX },
        ],
    };
    assert(p.parts@ =~= literal_parts());
    p
}

pub open spec fn literal_parts() -> Seq<PatternPart> {
    seq![
        PatternPart { class: CharClass::Minus, min_count: 0, max_count: 1 },
        PatternPart { class: CharClass::Digit, min_count: 1, max_count: 1 },
        PatternPart { class: CharClass::DigitOrUnderscore, min_count: 0, max_count: usize::MAX },
    ]
}

proof fn lemma_white_space_end_bounds(code: Seq<char>, o: int)
    requires
        0 <= o <= code.len(),
    ensures
        o <= white_space_end(code, o) <= code.len(),
    decreases code.len() - o,
{
    if o < code.len() && is_white_space(code[o]) {
        lemma_white_space_end_bounds(code, o + 1);
    }
}

proof fn lemma_line_end_bounds(code: Seq<char>, o: int)
    requires
        0 <= o <= code.len(),
    ensures
        o <= line_end(code, o) <= code.len(),
    decreases code.len() - o,
{
    if o < code.len() && code[o] != '\n' {
        lemma_line_end_bounds(code, o + 1);
    }
}

pub proof fn lemma_trivia_end_bounds(code: Seq<char>, o: int)
    requires
        0 <= o <= code.len(),
    ensures
        o <= trivia_end(code, o) <= code.len(),
    decreases code.len() - o,
{
    let o1 = if starts_with_at(code, o, comment_prefix()) { line_end(code, o) } else { o };
    lemma_line_end_bounds(code, o);
    lemma_white_space_end_bounds(code, o1);
    let o2 = white_space_end(code, o1);
    if o < o2 <= code.len() && starts_with_at(code, o2, comment_prefix()) {
        lemma_trivia_end_bounds(code, o2);
    }
}

pub proof fn lemma_run_len_bounds(code: Seq<char>, o: int, class: CharClass, max: nat)
    requires
        0 <= o <= code.len(),
    ensures
        o + run_len(code, o, class, max) <= code.len(),
        run_len(code, o, class, max) <= max,
    decreases code.len() - o,
{
    if max > 0 && 0 <= o < code.len() && in_class(class, code[o]) {
        lemma_run_len_bounds(code, o + 1, class, (max - 1) as nat);
    }
}

pub proof fn lemma_parts_end_bounds(code: Seq<char>, o: int, parts: Seq<PatternPart>)
    requires
        0 <= o <= code.len(),
    ensures
        parts_end(code, o, parts) matches Some(e) ==> o <= e <= code.len(),
    decreases parts.len(),
{
    if parts.len() > 0 {
        let n = run_len(code, o, parts[0].class, parts[0].max_count as nat);
        lemma_run_len_bounds(code, o, parts[0].class, parts[0].max_count as nat);
        if n >= parts[0].min_count {
            lemma_parts_end_bounds(code, o + n, parts.drop_first());
        }
    }
}

/// Skips whitespace and line comments from `o`.
pub fn skip_trivia(code: &Vec<char>, o: usize) -> (r: usize)
    requires
        o <= code@.len(),
    ensures
        r == trivia_end(code@, o as int),
        o <= r <= code@.len(),
        code@.len() <= usize::MAX,
    decreases code@.len() - o,
{
    proof {
        lemma_trivia_end_bounds(code@, o as int);
    }
    let mut o1 = o;
    if starts_with(code, o, &comment_text()) {
        while o1 < code.len() && code[o1] != '\n'
            invariant
                o <= o1 <= code@.len(),
                line_end(code@, o1 as int) == line_end(code@, o as int),
            decreases code@.len() - o1,
        {
            o1 = o1 + 1;
        }
    }
    let mut o2 = o1;
    while o2 < code.len() && white_space(code[o2])
        invariant
            o1 <= o2 <= code@.len(),
            white_space_end(code@, o2 as int) == white_space_end(code@, o1 as int),
        decreases code@.len() - o2,
    {
        o2 = o2 + 1;
    }
    if o < o2 && starts_with(code, o2, &comment_text()) {
        skip_trivia(code, o2)
    } else {
        o2
    }
}

fn comment_text() -> (r: Vec<char>)
    ensures
        r@ == comment_prefix(),
{
    let r = vec!['/', '/'];
    assert(r@ =~= comment_prefix());
    r
}

/// Whether `t` stands in `code` at `o`.
pub fn starts_with(code: &Vec<char>, o: usize, t: &Vec<char>) -> (r: bool)
    ensures
        r == starts_with_at(code@, o as int, t@),
{
    if o > code.len() || t.len() > code.len() - o {
        return false;
    }
    let mut i: usize = 0;
    while i < t.len()
        invariant
            i <= t@.len(),
            o + t.len() <= code.len(),
            forall|j: int| 0 <= j < i ==> code@[o + j] == t@[j],
        decreases t.len() - i,
    {
        if code[o + i] != t[i] {
            assert(code@.subrange(o as int, o + t@.len())[i as int] != t@[i as int]);
            return false;
        }
        i = i + 1;
    }
    assert(code@.subrange(o as int, o + t@.len()) =~= t@);
    true
}

pub fn is_word_text(t: &Vec<char>) -> (r: bool)
    ensures
        r == is_word(t@),
{
    let mut i: usize = 0;
    while i < t.len()
        invariant
            i <= t@.len(),
            forall|j: int| 0 <= j < i ==> is_word_char(#[trigger] t@[j]),
        decreases t.len() - i,
    {
        if !word_char(t[i]) {
            return false;
        }
        i = i + 1;
    }
    true
}

pub fn next_word(code: &Vec<char>, e: usize) -> (r: bool)
    ensures
        r == next_is_word(code@, e as int),
{
    e < code.len() && word_char(code[e])
}

pub fn keyword(code: &Vec<char>, s: usize, e: usize) -> (r: bool)
    requires
        s <= e <= code@.len(),
    ensures
        r == is_keyword(code@.subrange(s as int, e as int)),
{
    let c = Token::Const.text();
    let i = Token::Import.text();
    let v = Token::Var.text();
    proof {
        let sub = code@.subrange(s as int, e as int);
        if sub == c@ {
            assert(starts_with_at(code@, s as int, c@));
        }
        if sub == i@ {
            assert(starts_with_at(code@, s as int, i@));
        }
        if sub == v@ {
            assert(starts_with_at(code@, s as int, v@));
        }
    }
    (e - s == c.len() && starts_with(code, s, &c)) || (e - s == i.len() && starts_with(code, s, &i))
        || (e - s == v.len() && starts_with(code, s, &v))
}

/// Where the run of characters of `class` from `o`, at most `max` long, ends.
fn run_end(code: &Vec<char>, o: usize, class: CharClass, max: usize) -> (r: usize)
    requires
        o <= code@.len(),
    ensures
        r == o + run_len(code@, o as int, class, max as nat),
{
    proof {
        lemma_run_len_bounds(code@, o as int, class, max as nat);
    }
    let mut e = o;
    let mut left = max;
    while left > 0 && e < code.len() && class_contains(class, code[e])
        invariant
            o <= e <= code@.len(),
            left <= max,
            e - o + left == max,
            o + run_len(code@, o as int, class, max as nat) == e + run_len(
                code@,
                e as int,
                class,
                left as nat,
            ),
        decreases code@.len() - e,
    {
        e = e + 1;
        left = left - 1;
    }
    e
}

/// Where `parts`, matched greedily from `o`, end.
pub fn match_parts(code: &Vec<char>, o: usize, parts: &Vec<PatternPart>) -> (r: Option<usize>)
    requires
        o <= code@.len(),
    ensures
        match r {
            Some(e) => parts_end(code@, o as int, parts@) == Some(e as int) && o <= e <= code@.len(),
            None => parts_end(code@, o as int, parts@) is None,
        },
{
    let mut e = o;
    let mut i: usize = 0;
    assert(parts@.skip(0) =~= parts@);
    while i < parts.len()
        invariant
            i <= parts@.len(),
            o <= e <= code@.len(),
            parts_end(code@, o as int, parts@) == parts_end(code@, e as int, parts@.skip(i as int)),
        decreases parts.len() - i,
    {
        let part = parts[i];
        let n = run_end(code, e, part.class, part.max_count);
        proof {
            lemma_run_len_bounds(code@, e as int, part.class, part.max_count as nat);
            assert(parts@.skip(i as int)[0] == part);
            assert(parts@.skip(i as int).drop_first() =~= parts@.skip(i + 1));
        }
        if n - e < part.min_count {
            return None;
        }
        e = n;
        i = i + 1;
    }
    assert(parts@.skip(i as int).len() == 0);
    Some(e)
}

} // verus!
