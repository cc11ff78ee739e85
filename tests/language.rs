use gpex::lexer::Token;
use gpex::parser::{parse_expression, parse_many, Cursor, Expr, ListItem, ParseError};
use gpex::{compile, Log, LogLevel, SourceFile};

fn source(relative: &str, content: &str) -> SourceFile {
    SourceFile {
        content: content.to_string(),
        fs_path: format!("project/{relative}"),
        dot_path: relative.trim_end_matches(".gpex").replace('/', "."),
    }
}

fn logs_of(files: &[SourceFile]) -> Vec<Log> {
    match compile("project", &files.to_vec_files(), false) {
        Ok((_, logs)) => logs,
        Err(logs) => logs,
    }
}

trait ToVecFiles {
    fn to_vec_files(&self) -> Vec<SourceFile>;
}

impl ToVecFiles for [SourceFile] {
    fn to_vec_files(&self) -> Vec<SourceFile> {
        self.iter()
            .map(|f| SourceFile {
                content: f.content.clone(),
                fs_path: f.fs_path.clone(),
                dot_path: f.dot_path.clone(),
            })
            .collect()
    }
}

fn messages(logs: &[Log]) -> Vec<String> {
    logs.iter().map(|log| log.message.clone()).collect()
}

fn parse_name(text: &str) -> Result<Expr, ParseError> {
    let code: Vec<char> = text.chars().collect();
    let mut cursor = Cursor::new(0);
    parse_expression(&code, 0, &mut cursor)
}

#[test]
fn identifier_in_expression_position() {
    for name in ["constant", "variable", "_", "a1_b", "pub", "Value"] {
        match parse_name(name) {
            Ok(Expr::Reference(reference)) => {
                assert_eq!(reference.name.iter().collect::<String>(), name);
                assert_eq!(reference.span.start, 0);
                assert_eq!(reference.span.end, name.len());
            }
            other => panic!("`{name}` not parsed as a name: {other:?}"),
        }
    }
}

#[test]
fn keywords_rejected_in_expression_position() {
    for keyword in ["const", "import", "var"] {
        let code: Vec<char> = keyword.chars().collect();
        let mut cursor = Cursor::new(0);
        let error = parse_expression(&code, 0, &mut cursor).expect_err("keyword accepted");
        assert_eq!(cursor.offset, 0);
        assert_eq!(error.offset, 0);
        assert_eq!(error.expected, vec![Token::I32Literal, Token::Identifier]);
    }
}

#[test]
fn literal_in_expression_position() {
    match parse_name("  -1_000 ") {
        Ok(Expr::Literal(literal)) => {
            assert_eq!(literal.cleaned.iter().collect::<String>(), "-1000");
            assert_eq!(literal.span.start, 2);
            assert_eq!(literal.span.end, 8);
        }
        other => panic!("literal not parsed: {other:?}"),
    }
}

#[test]
fn merge_keeps_furthest_errors() {
    let errors = vec![
        ParseError { offset: 3, expected: vec![Token::Identifier] },
        ParseError { offset: 7, expected: vec![Token::Semicolon] },
    ];
    let merged = ParseError::merge(&errors);
    assert_eq!(merged.offset, 7);
    assert_eq!(merged.expected, vec![Token::Semicolon]);
}

#[test]
fn merge_lists_all_errors_at_the_same_offset() {
    let errors = vec![
        ParseError { offset: 4, expected: vec![Token::Import] },
        ParseError { offset: 4, expected: vec![Token::Var] },
        ParseError { offset: 0, expected: vec![Token::Const] },
    ];
    let merged = ParseError::merge(&errors);
    assert_eq!(merged.offset, 4);
    assert_eq!(merged.expected, vec![Token::Import, Token::Var]);
}

#[test]
fn syntax_error_message() {
    let logs = logs_of(&[source("main.gpex", "pub x = 1;\n")]);
    assert_eq!(logs.len(), 1);
    assert_eq!(logs[0].level, LogLevel::Error);
    assert_eq!(logs[0].to_string(), "error: expected `import` or `var` (at project/main.gpex:1:5)\n");
}

#[test]
fn syntax_error_lists_three_tokens() {
    let logs = logs_of(&[source("main.gpex", "// comment\n  x\n")]);
    assert_eq!(messages(&logs), vec!["expected `import`, `var` or `const`".to_string()]);
    assert_eq!(logs[0].to_string(), "error: expected `import`, `var` or `const` (at project/main.gpex:2:3)\n");
}

#[test]
fn keyword_prefix_is_not_a_keyword() {
    let logs = logs_of(&[source("main.gpex", "variable = 1;\n")]);
    assert_eq!(messages(&logs), vec!["expected `import`, `var` or `const`".to_string()]);
}

#[test]
fn cycle_reported_once() {
    let files = [
        source("a.gpex", "import b;\npub var a_a = b_b;\n"),
        source("b.gpex", "import c;\npub var b_b = c_c;\n"),
        source("c.gpex", "import a;\npub var c_c = a_a;\n"),
    ];
    let logs = logs_of(&files);
    let cycles: Vec<&Log> = logs
        .iter()
        .filter(|log| log.message.ends_with("item has circular dependencies"))
        .collect();
    assert_eq!(cycles.len(), 1);
    assert_eq!(cycles[0].level, LogLevel::Error);
    assert_eq!(cycles[0].message, "`a_a` item has circular dependencies");
    assert_eq!(cycles[0].inner.len(), 3);
    assert_eq!(cycles[0].inner[2].message, "depends on itself");
    assert_eq!(logs.len(), 1);
}

#[test]
fn forward_reference_is_not_found() {
    let logs = logs_of(&[source("main.gpex", "var _a = b_b;\nvar b_b = 1;\n")]);
    assert_eq!(messages(&logs), vec!["`b_b` value not found".to_string(), "`b_b` value unused".to_string()]);
}

#[test]
fn self_reference_is_not_found() {
    let logs = logs_of(&[source("main.gpex", "var _v = _v;\n")]);
    assert_eq!(messages(&logs), vec!["`_v` value not found".to_string()]);
}

#[test]
fn unused_warning_suppressed_by_underscore() {
    let logs = logs_of(&[source("main.gpex", "var _x = 1;\n")]);
    assert!(logs.is_empty());
}

#[test]
fn unused_warning_for_private_variable() {
    let logs = logs_of(&[source("main.gpex", "var x = 1;\n")]);
    let unused: Vec<&Log> = logs.iter().filter(|log| log.message == "`x` value unused").collect();
    assert_eq!(unused.len(), 1);
    assert_eq!(unused[0].level, LogLevel::Warning);
    let logs = logs_of(&[source("main.gpex", "var value = 1;\n")]);
    assert_eq!(messages(&logs), vec!["`value` value unused".to_string()]);
}

#[test]
fn unused_warning_gone_once_referenced() {
    let logs = logs_of(&[source("main.gpex", "var value = 1;\nvar _other = value;\n")]);
    assert!(logs.is_empty());
}

#[test]
fn used_value_with_underscore() {
    let logs = logs_of(&[source("main.gpex", "var _value = 1;\nvar _other = _value;\n")]);
    assert_eq!(messages(&logs), vec!["`_value` value used but name starting with `_`".to_string()]);
    assert_eq!(logs[0].inner[0].message, "value used here");
}

#[test]
fn import_makes_public_value_visible() {
    let files = [
        source("a.gpex", "pub var shared = 1;\n"),
        source("b.gpex", "import a;\nvar _b_value = shared;\n"),
    ];
    let logs = logs_of(&files);
    assert!(logs.is_empty(), "{:?}", messages(&logs));
}

#[test]
fn private_import_is_not_transitive() {
    let files = [
        source("a.gpex", "pub var shared = 1;\n"),
        source("b.gpex", "import a;\npub var b_value = shared;\n"),
        source("c.gpex", "import b;\nvar _c_value = shared;\nvar _c_other = b_value;\n"),
    ];
    let logs = logs_of(&files);
    assert_eq!(messages(&logs), vec!["`shared` value not found".to_string()]);
    assert_eq!(logs[0].level, LogLevel::Error);
}

#[test]
fn public_import_is_transitive() {
    let files = [
        source("a.gpex", "pub var shared = 1;\n"),
        source("b.gpex", "pub import a;\npub var b_value = shared;\n"),
        source("c.gpex", "import b;\nvar _c_value = shared;\nvar _c_other = b_value;\n"),
    ];
    let logs = logs_of(&files);
    assert!(logs.is_empty(), "{:?}", messages(&logs));
}

#[test]
fn private_value_is_not_visible() {
    let files = [
        source("a.gpex", "var _hidden = 1;\n"),
        source("b.gpex", "import a;\nvar _b_value = _hidden;\n"),
    ];
    let logs = logs_of(&files);
    assert!(messages(&logs).contains(&"`_hidden` value not found".to_string()));
}

#[test]
fn parent_import() {
    let files = [
        source("inner/deep/x.gpex", "import ~.~.y;\nimport ~.z;\nvar _v = from_y;\nvar _w = from_z;\n"),
        source("inner/deep/z.gpex", "pub var from_z = 4;\n"),
        source("inner/y.gpex", "pub var from_y = 3;\n"),
    ];
    let logs = logs_of(&files);
    assert!(logs.is_empty(), "{:?}", messages(&logs));
}

#[test]
fn missing_module() {
    let logs = logs_of(&[source("main.gpex", "import nowhere.module;\nvar _v = 1;\n")]);
    assert_eq!(messages(&logs), vec!["`nowhere.module` module not found".to_string()]);
    assert_eq!(logs[0].inner[0].message, "cannot read \"project/nowhere/module.gpex\"");
}

#[test]
fn import_after_definition() {
    let files = [
        source("a.gpex", "pub var _shared = 1;\n"),
        source("b.gpex", "var _v = 1;\nimport a;\n"),
    ];
    let logs = logs_of(&files);
    assert_eq!(messages(&logs), vec!["`import` statement not at the top of the module".to_string()]);
}

#[test]
fn unused_and_self_imports() {
    let files = [
        source("a.gpex", "pub var _shared = 1;\n"),
        source("b.gpex", "import a;\nimport b;\n"),
    ];
    let logs = logs_of(&files);
    assert_eq!(
        messages(&logs),
        vec!["`a` import unused".to_string(), "`b` module imports itself".to_string()]
    );
    assert!(logs.iter().all(|log| log.level == LogLevel::Warning));
}

#[test]
fn duplicate_definition() {
    let logs = logs_of(&[source("main.gpex", "var _v = 1;\nvar _v = 2;\n")]);
    assert_eq!(messages(&logs), vec!["`_v` item defined multiple times".to_string()]);
    assert_eq!(logs[0].inner[0].message, "item also defined here");
}

#[test]
fn same_name_in_other_file_is_allowed() {
    let files = [
        source("a.gpex", "pub var value = 1;\n"),
        source("b.gpex", "import a;\nvar value = 2;\nvar _v = value;\n"),
    ];
    let logs = logs_of(&files);
    assert_eq!(messages(&logs), vec!["`value` value unused".to_string(), "`a` import unused".to_string()]);
}

#[test]
fn literal_bounds() {
    let logs = logs_of(&[source("main.gpex", "var _big = 2_147_483_648;\n")]);
    assert_eq!(messages(&logs), vec!["`i32` literal out of bounds".to_string()]);
    let logs = logs_of(&[source("main.gpex", "var _low = -2147483648;\nvar _high = 2147483647;\n")]);
    assert!(logs.is_empty());
    let logs = logs_of(&[source("main.gpex", "var _low = -2147483649;\n")]);
    assert_eq!(messages(&logs), vec!["`i32` literal out of bounds".to_string()]);
}

#[test]
fn constant_from_variable() {
    let logs = logs_of(&[source("main.gpex", "var value = 1;\nconst _C = value;\n")]);
    assert_eq!(messages(&logs), vec!["expression not constant".to_string()]);
    assert_eq!(logs[0].inner[0].message, "expression must be constant");
}

#[test]
fn naming_warnings() {
    let logs = logs_of(&[source("main.gpex", "var _Value = 1;\nconst _lower = 2;\nvar _ = 3;\nconst Z = 4;\nvar _v = Z;\n")]);
    assert_eq!(
        messages(&logs),
        vec![
            "`_Value` identifier not in snake_case".to_string(),
            "`_lower` identifier not in SCREAMING_SNAKE_CASE".to_string(),
            "`Z` identifier is single character".to_string(),
        ]
    );
}

#[test]
fn warnings_fail_only_when_asked() {
    let files = vec![source("main.gpex", "var value = 1;\n")];
    assert!(compile("project", &files, false).is_ok());
    assert!(compile("project", &files, true).is_err());
}

#[test]
fn log_text_with_inner_logs() {
    let logs = logs_of(&[source("main.gpex", "var _v = 1;\n  var _v = 2;\n")]);
    assert_eq!(logs.len(), 1);
    assert_eq!(
        logs[0].to_string(),
        "error: `_v` item defined multiple times (at project/main.gpex:2:7)\n  --> info: item also defined here (at project/main.gpex:1:5)\n"
    );
}

#[test]
fn errors_in_every_file_are_reported() {
    let files = [
        source("a.gpex", "var _a = 99999999999;\n"),
        source("b.gpex", "var _b = nothing;\n"),
    ];
    let logs = logs_of(&files);
    assert_eq!(
        messages(&logs),
        vec!["`i32` literal out of bounds".to_string(), "`nothing` value not found".to_string()]
    );
}

#[test]
fn syntax_errors_of_every_file() {
    let files = [
        source("a.gpex", "var _a = ;\n"),
        source("b.gpex", "const _B = 1\n"),
    ];
    let logs = logs_of(&files);
    assert_eq!(
        messages(&logs),
        vec!["expected `i32` literal or identifier".to_string(), "expected `;`".to_string()]
    );
}

#[test]
fn list_of_names() {
    let code: Vec<char> = "a.b . c;".chars().collect();
    let mut cursor = Cursor::new(0);
    let (spans, error) = parse_many(&code, 0, &mut cursor, ListItem::Name, 1).expect("names");
    assert_eq!(spans.iter().map(|s| (s.start, s.end)).collect::<Vec<_>>(), vec![(0, 1), (2, 3), (6, 7)]);
    assert_eq!(error.offset, 7);
    assert_eq!(error.expected, vec![Token::Dot]);
    assert_eq!(cursor.offset, 7);
    let mut cursor = Cursor::new(0);
    let error = parse_many(&code, 0, &mut cursor, ListItem::Name, 4).expect_err("too few names");
    assert_eq!(error.offset, 7);
    assert_eq!(cursor.offset, 0);
    let code: Vec<char> = "a.;".chars().collect();
    let mut cursor = Cursor::new(0);
    let (spans, error) = parse_many(&code, 0, &mut cursor, ListItem::Name, 0).expect("names");
    assert_eq!(spans.len(), 1);
    assert_eq!(error.offset, 2);
    assert_eq!(error.expected, vec![Token::Identifier]);
    assert_eq!(cursor.offset, 1);
}
