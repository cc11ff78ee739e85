//! The grammar as spec functions: where each construct that is tried at an offset ends, or
//! the error that stops it.
use crate::lexer::{identifier_parts, pattern_match, symbol_match, token_text, trivia_end, Token};
use crate::parser::{expression_outcome, expr_span, segment_pairs, Definition, DefinitionKind, Expr, Import, ListItem};
use vstd::prelude::*;

verus! {

/// A syntax error: an offset and the tokens expected there.
pub open spec fn sym_err(code: Seq<char>, o: int, t: Token) -> (int, Seq<Token>) {
    (trivia_end(code, o), seq![t])
}

/// Past an optional `pub`.
pub open spec fn after_pub(code: Seq<char>, o: int) -> int {
    match symbol_match(code, o, token_text(Token::Pub)) {
        Some(e) => e,
        None => o,
    }
}

pub open spec fn keyword_of(kind: DefinitionKind) -> Token {
    if kind == DefinitionKind::Variable {
        Token::Var
    } else {
        Token::Const
    }
}

/// Where a definition tried at `o` starts its keyword (after an optional `pub` for a
/// variable).
pub open spec fn definition_keyword_at(code: Seq<char>, o: int, kind: DefinitionKind) -> int {
    if kind == DefinitionKind::Variable {
        after_pub(code, o)
    } else {
        o
    }
}

/// `['pub'] 'var' Name '=' Expr ';'` or `'const' Name '=' Expr ';'` tried at `o`: where it
/// ends, or its error.
pub open spec fn definition_outcome(code: Seq<char>, o: int, kind: DefinitionKind) -> Result<int, (int, Seq<Token>)> {
    let o1 = definition_keyword_at(code, o, kind);
    match symbol_match(code, o1, token_text(keyword_of(kind))) {
        None => Err(sym_err(code, o1, keyword_of(kind))),
        Some(o2) => match pattern_match(code, o2, true, identifier_parts()) {
            None => Err(sym_err(code, o2, Token::Identifier)),
            Some(o3) => match symbol_match(code, o3, token_text(Token::Equal)) {
                None => Err(sym_err(code, o3, Token::Equal)),
                Some(o4) => match expression_outcome(code, o4) {
                    None => Err((trivia_end(code, o4), seq![Token::I32Literal, Token::Identifier])),
                    Some((_, o5)) => match symbol_match(code, o5, token_text(Token::Semicolon)) {
                        None => Err(sym_err(code, o5, Token::Semicolon)),
                        Some(o6) => Ok(o6),
                    },
                },
            },
        },
    }
}

pub open spec fn item_token(what: ListItem) -> Token {
    match what {
        ListItem::Symbol(t) => t,
        ListItem::Name => Token::Identifier,
    }
}

/// The span (start, end) of one list item tried at `o`.
pub open spec fn item_match(code: Seq<char>, o: int, what: ListItem) -> Option<(int, int)> {
    let found = match what {
        ListItem::Symbol(t) => symbol_match(code, o, token_text(t)),
        ListItem::Name => pattern_match(code, o, true, identifier_parts()),
    };
    match found {
        Some(e) => Some((trivia_end(code, o), e)),
        None => None,
    }
}

/// After an item that ends at `o`: the items that follow, each after a `.`, the error that
/// ends the list, and where the list ends.
pub open spec fn list_tail(code: Seq<char>, o: int, what: ListItem) -> (Seq<(int, int)>, (int, Seq<Token>), int)
    decreases code.len() - o,
{
    match symbol_match(code, o, token_text(Token::Dot)) {
        None => (Seq::empty(), sym_err(code, o, Token::Dot), o),
        Some(d) => match item_match(code, d, what) {
            None => (Seq::empty(), sym_err(code, d, item_token(what)), o),
            Some((s, e)) => if o < e <= code.len() {
                let rest = list_tail(code, e, what);
                (seq![(s, e)] + rest.0, rest.1, rest.2)
            } else {
                (seq![(s, e)], sym_err(code, e, Token::Dot), e)
            },
        },
    }
}

/// Items separated by `.` tried at `o`: the items, the error that ends the list and where it
/// ends; or, with fewer than `min` items, that error.
pub open spec fn list_outcome(code: Seq<char>, o: int, what: ListItem, min: nat) -> Result<
    (Seq<(int, int)>, (int, Seq<Token>), int),
    (int, Seq<Token>),
> {
    let all = match item_match(code, o, what) {
        None => (Seq::empty(), sym_err(code, o, item_token(what)), o),
        Some((s, e)) => {
            let rest = list_tail(code, e, what);
            (seq![(s, e)] + rest.0, rest.1, rest.2)
        },
    };
    if all.0.len() < min {
        Err(all.1)
    } else {
        Ok(all)
    }
}

/// The `~` of an import tried at `o`, and where they end.
pub open spec fn import_parents(code: Seq<char>, o: int) -> (Seq<(int, int)>, (int, Seq<Token>), int) {
    list_outcome(code, symbol_match(code, after_pub(code, o), token_text(Token::Import))->Some_0, ListItem::Symbol(Token::Tilde), 0)->Ok_0
}

/// Where the names of an import tried at `o` start, if the `.` after its `~` (if any) is there.
pub open spec fn import_names_at(code: Seq<char>, o: int) -> Option<int> {
    let parents = import_parents(code, o);
    if parents.0.len() > 0 {
        symbol_match(code, parents.2, token_text(Token::Dot))
    } else {
        Some(parents.2)
    }
}

/// `['pub'] 'import' ('~' ('.' '~')* '.')? Name ('.' Name)* ';'` tried at `o`: where it
/// ends, or its error.
pub open spec fn import_outcome(code: Seq<char>, o: int) -> Result<int, (int, Seq<Token>)> {
    let o1 = after_pub(code, o);
    match symbol_match(code, o1, token_text(Token::Import)) {
        None => Err(sym_err(code, o1, Token::Import)),
        Some(_) => match import_names_at(code, o) {
            None => Err(sym_err(code, import_parents(code, o).2, Token::Dot)),
            Some(o4) => match list_outcome(code, o4, ListItem::Name, 1) {
                Err(e) => Err(e),
                Ok(names) => match symbol_match(code, names.2, token_text(Token::Semicolon)) {
                    None => Err(sym_err(code, names.2, Token::Semicolon)),
                    Some(o5) => Ok(o5),
                },
            },
        },
    }
}

/// The highest offset among the errors.
pub open spec fn errors_max(errs: Seq<(int, Seq<Token>)>) -> int
    decreases errs.len(),
{
    if errs.len() == 0 {
        0
    } else if errs.last().0 > errors_max(errs.drop_last()) {
        errs.last().0
    } else {
        errors_max(errs.drop_last())
    }
}

/// The expected tokens of the errors at `offset`, in order.
pub open spec fn errors_at(errs: Seq<(int, Seq<Token>)>, offset: int) -> Seq<Token>
    decreases errs.len(),
{
    if errs.len() == 0 {
        Seq::empty()
    } else {
        errors_at(errs.drop_last(), offset) + if errs.last().0 == offset {
            errs.last().1
        } else {
            Seq::empty()
        }
    }
}

/// Errors of alternatives, merged: the furthest offset, with what was expected there.
pub open spec fn merged(errs: Seq<(int, Seq<Token>)>) -> (int, Seq<Token>) {
    (errors_max(errs), errors_at(errs, errors_max(errs)))
}

/// An item tried at `o`: the first of import (0), variable (1) and constant (2) that
/// matches, and where it ends; or the merge of the three errors.
#[verifier::opaque]
pub open spec fn item_outcome(code: Seq<char>, o: int) -> Result<(int, int), (int, Seq<Token>)> {
    match import_outcome(code, o) {
        Ok(e) => Ok((0, e)),
        Err(e1) => match definition_outcome(code, o, DefinitionKind::Variable) {
            Ok(e) => Ok((1, e)),
            Err(e2) => match definition_outcome(code, o, DefinitionKind::Constant) {
                Ok(e) => Ok((2, e)),
                Err(e3) => Err(merged(seq![e1, e2, e3])),
            },
        },
    }
}

/// A module from `o`: items up to the end of the code, or the error of the first item that
/// fails.
#[verifier::opaque]
pub open spec fn module_outcome(code: Seq<char>, o: int) -> Result<(), (int, Seq<Token>)>
    decreases code.len() - o,
{
    let s = trivia_end(code, o);
    if s >= code.len() {
        Ok(())
    } else {
        match item_outcome(code, s) {
            Err(e) => Err(e),
            Ok((_, e)) => if o < e <= code.len() {
                module_outcome(code, e)
            } else {
                Ok(())
            },
        }
    }
}

/// The items of a module from `o`, up to the first that fails: for each, which kind it is
/// (0 import, 1 variable, 2 constant), where it starts and where it ends.
#[verifier::opaque]
pub open spec fn module_items(code: Seq<char>, o: int) -> Seq<(int, int, int)>
    decreases code.len() - o,
{
    let s = trivia_end(code, o);
    if s >= code.len() {
        Seq::empty()
    } else {
        match item_outcome(code, s) {
            Err(_) => Seq::empty(),
            Ok((k, e)) => if o < e <= code.len() {
                seq![(k, s, e)] + module_items(code, e)
            } else {
                Seq::empty()
            },
        }
    }
}

/// Where the keyword of a definition tried at `o` ends.
pub open spec fn definition_keyword_end(code: Seq<char>, o: int, kind: DefinitionKind) -> int {
    symbol_match(code, definition_keyword_at(code, o, kind), token_text(keyword_of(kind)))->Some_0
}

/// Where the name of a definition tried at `o` ends.
pub open spec fn definition_name_end(code: Seq<char>, o: int, kind: DefinitionKind) -> int {
    pattern_match(code, definition_keyword_end(code, o, kind), true, identifier_parts())->Some_0
}

/// Where the `=` of a definition tried at `o` ends.
pub open spec fn definition_equal_end(code: Seq<char>, o: int, kind: DefinitionKind) -> int {
    symbol_match(code, definition_name_end(code, o, kind), token_text(Token::Equal))->Some_0
}

/// `d` is the definition that the grammar finds at `o`: its keyword, name and value are
/// where the grammar puts them, its value a literal when the grammar reads one, and it is
/// public when a variable starts with `pub`.
pub open spec fn definition_parsed(code: Seq<char>, o: int, d: Definition) -> bool {
    let kind = d.kind;
    let o1 = definition_keyword_at(code, o, kind);
    let o2 = definition_keyword_end(code, o, kind);
    let o3 = definition_name_end(code, o, kind);
    let o4 = definition_equal_end(code, o, kind);
    let value = expression_outcome(code, o4)->Some_0;
    &&& definition_outcome(code, o, kind) is Ok
    &&& d.is_public == (kind == DefinitionKind::Variable && symbol_match(code, o, token_text(Token::Pub)) is Some)
    &&& d.keyword.start == trivia_end(code, o1) && d.keyword.end == o2
    &&& d.name_span.start == trivia_end(code, o2) && d.name_span.end == o3
    &&& expr_span(d.value).start == trivia_end(code, o4) && expr_span(d.value).end == value.1
    &&& (d.value is Literal) == value.0
}

/// `imp` is the import that the grammar finds at `o`: public when it starts with `pub`, its
/// span from its first keyword to its `;`, its segments the `~` then the names the grammar
/// finds.
pub open spec fn import_parsed(code: Seq<char>, o: int, imp: Import) -> bool {
    let parents = import_parents(code, o).0;
    let names = list_outcome(code, import_names_at(code, o)->Some_0, ListItem::Name, 1)->Ok_0.0;
    &&& import_outcome(code, o) is Ok
    &&& imp.is_public == symbol_match(code, o, token_text(Token::Pub)) is Some
    &&& imp.span.start as int == trivia_end(code, o)
    &&& imp.span.end as int == import_outcome(code, o)->Ok_0
    &&& segment_pairs(imp.segments@) == parents + names
    &&& forall|k: int| #![trigger imp.segments@[k]] 0 <= k < imp.segments@.len() ==> (imp.segments@[k] is Parent
        <==> k < parents.len())
}

} // verus!
