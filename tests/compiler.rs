use gpex::{compile, Log, LogLevel, SourceFile};

fn source(root: &str, relative: &str, content: &str) -> SourceFile {
    let dot_path = relative.trim_end_matches(".gpex").replace('/', ".");
    SourceFile {
        content: content.to_string(),
        fs_path: format!("{root}/{relative}"),
        dot_path,
    }
}

fn valid_project() -> Vec<SourceFile> {
    vec![
        source("tests/lib/valid", "inner/inner2/inner.gpex", "var _inner_value = 1;\n"),
        source("tests/lib/valid", "root.gpex", "pub var _root_value = 2;\n"),
    ]
}

fn warning_project() -> Vec<SourceFile> {
    vec![source("tests/lib/warning", "main.gpex", "var unused_value = 1;\n")]
}

fn error_project() -> Vec<SourceFile> {
    vec![source("tests/lib/error", "main.gpex", "var _value = missing;\n")]
}

#[test]
fn compile_valid_project() -> Result<(), Vec<Log>> {
    let (program, logs) = compile("tests/lib/valid", &valid_project(), false)?;
    assert!(logs.is_empty());
    assert_eq!(program.buffer.size, 8);
    let fields = &program.buffer.fields;
    assert_eq!(fields.len(), 2);
    assert!(fields.contains_key("root:_root_value"));
    assert!(fields.contains_key("inner.inner2.inner:_inner_value"));
    Ok(())
}

#[test]
fn compile_with_warning() -> Result<(), Vec<Log>> {
    let (_, logs) = compile("tests/lib/warning", &warning_project(), false)?;
    assert_eq!(logs.len(), 1);
    assert_eq!(logs[0].level, LogLevel::Warning);
    Ok(())
}

#[test]
fn compile_with_warning_as_error() {
    let result = compile("tests/lib/warning", &warning_project(), true);
    let errors = result.expect_err("compilation should generate logs");
    assert_eq!(errors.len(), 1);
    assert_eq!(errors[0].level, LogLevel::Warning);
}

#[test]
fn compile_with_error() {
    let result = compile("tests/lib/error", &error_project(), false);
    let errors = result.expect_err("compilation should generate logs");
    assert_eq!(errors.len(), 1);
    assert_eq!(errors[0].level, LogLevel::Error);
}

#[test]
fn compile_missing_folder() {
    // reading the folder is left to the caller, which reports the failure with this log
    let errors = vec![Log::from_io_error(
        "No such file or directory (os error 2)",
        "tests/lib/missing",
        "cannot read",
    )];
    assert_eq!(errors.len(), 1);
    assert_eq!(errors[0].level, LogLevel::Error);
    assert!(errors[0].location.is_none());
    assert_eq!(errors[0].inner.len(), 0);
    assert!(
        errors[0]
            .to_string()
            .starts_with("error: cannot read \"tests/lib/missing\": ")
    );
}
