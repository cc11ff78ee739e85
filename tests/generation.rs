use gpex::{compile, BufferField, GpuValue, Program, SourceFile};

fn source(relative: &str, content: &str) -> SourceFile {
    SourceFile {
        content: content.to_string(),
        fs_path: format!("project/{relative}"),
        dot_path: relative.trim_end_matches(".gpex").replace('/', "."),
    }
}

fn program_of(files: Vec<SourceFile>) -> Program {
    match compile("project", &files, false) {
        Ok((program, _)) => program,
        Err(logs) => panic!("{:?}", logs.iter().map(|log| log.message.clone()).collect::<Vec<_>>()),
    }
}

#[test]
fn end_to_end_layout_and_shader() {
    let program = program_of(vec![
        source("inner/inner2/inner.gpex", "var _inner_value = 1;\n"),
        source("root.gpex", "pub var _root_value = 2;\n"),
    ]);
    assert_eq!(program.buffer.size, 8);
    assert_eq!(program.buffer.fields.len(), 2);
    assert_eq!(
        program.buffer.fields.get("inner.inner2.inner:_inner_value"),
        Some(BufferField { size: 4, offset: 0 })
    );
    assert_eq!(program.buffer.fields.get("root:_root_value"), Some(BufferField { size: 4, offset: 4 }));
    let shader = &program.init_shader;
    assert!(shader.starts_with(
        "struct Buffer { v0: i32, v2: i32, } @group(0) @binding(0) var<storage, read_write> b: Buffer; @compute @workgroup_size(1, 1, 1) fn main() { "
    ));
    assert!(shader.contains("b.v0 = i32(1); "));
    assert!(shader.contains("b.v2 = i32(2); "));
    assert!(shader.ends_with("}"));
}

#[test]
fn dependencies_are_assigned_first() {
    let program = program_of(vec![
        source("a.gpex", "import b;\npub var _first = second;\n"),
        source("b.gpex", "pub var second = 5;\n"),
    ]);
    let shader = &program.init_shader;
    let second = shader.find("b.v2 = i32(5); ").expect("second assigned");
    let first = shader.find("b.v0 = b.v2; ").expect("first assigned");
    assert!(second < first);
}

#[test]
fn constants_are_inlined() {
    let program = program_of(vec![source(
        "main.gpex",
        "const BASE = -7;\nconst ALIAS = BASE;\nvar _value = ALIAS;\n",
    )]);
    assert_eq!(program.buffer.size, 4);
    assert_eq!(program.buffer.fields.len(), 1);
    assert!(program.init_shader.contains("struct Buffer { v4: i32, }"));
    assert!(program.init_shader.contains("b.v4 = i32(-7); "));
}

#[test]
fn empty_project() {
    let program = program_of(vec![source("main.gpex", "// nothing here\n")]);
    assert_eq!(program.buffer.size, 0);
    assert_eq!(program.buffer.fields.len(), 0);
    assert_eq!(
        program.init_shader,
        "struct Buffer { } @group(0) @binding(0) var<storage, read_write> b: Buffer; @compute @workgroup_size(1, 1, 1) fn main() { }"
    );
}

#[test]
fn read_values_from_buffer() {
    let program = program_of(vec![
        source("inner/inner2/inner.gpex", "var _inner_value = 1;\n"),
        source("root.gpex", "pub var _root_value = 2;\n"),
    ]);
    let bytes = vec![1, 0, 0, 0, 254, 255, 255, 255];
    assert_eq!(program.read_value("inner.inner2.inner:_inner_value", &bytes), Some(GpuValue::I32(1)));
    assert_eq!(program.read_value("root:_root_value", &bytes), Some(GpuValue::I32(-2)));
    assert_eq!(program.read_value("module:invalid", &bytes), None);
    assert_eq!(program.read_value("root:_root_value", &vec![0, 0, 0, 0]), None);
}

#[test]
fn gpu_value_text() {
    assert_eq!(GpuValue::I32(-42).to_string(), "-42");
    assert_eq!(GpuValue::I32(2147483647).to_string(), "2147483647");
    assert_eq!(GpuValue::I32(0).to_string(), "0");
}

#[test]
fn buffer_fields_replace_same_name() {
    let mut fields = gpex::BufferFields::new();
    fields.insert("m:a".to_string(), BufferField { size: 4, offset: 0 });
    fields.insert("m:b".to_string(), BufferField { size: 4, offset: 4 });
    fields.insert("m:a".to_string(), BufferField { size: 4, offset: 8 });
    assert_eq!(fields.len(), 2);
    assert_eq!(fields.get("m:a"), Some(BufferField { size: 4, offset: 8 }));
    assert!(fields.contains_key("m:b"));
    assert!(!fields.contains_key("m:c"));
    assert_eq!(fields.entries().len(), 2);
}

fn to_json(program: &Program) -> String {
    let mut fields = serde_json::Map::new();
    for entry in program.buffer.fields.entries() {
        let mut field = serde_json::Map::new();
        field.insert("size".to_string(), serde_json::Value::from(entry.field.size));
        field.insert("offset".to_string(), serde_json::Value::from(entry.field.offset));
        fields.insert(entry.key.clone(), serde_json::Value::Object(field));
    }
    let mut buffer = serde_json::Map::new();
    buffer.insert("size".to_string(), serde_json::Value::from(program.buffer.size));
    buffer.insert("fields".to_string(), serde_json::Value::Object(fields));
    let mut root = serde_json::Map::new();
    root.insert("buffer".to_string(), serde_json::Value::Object(buffer));
    root.insert("init_shader".to_string(), serde_json::Value::from(program.init_shader.clone()));
    serde_json::Value::Object(root).to_string()
}

fn from_json(text: &str) -> Program {
    let value: serde_json::Value = serde_json::from_str(text).expect("valid JSON");
    let buffer = &value["buffer"];
    let mut fields = gpex::BufferFields::new();
    for (key, field) in buffer["fields"].as_object().expect("fields") {
        let size = field["size"].as_u64().expect("size") as u32;
        let offset = field["offset"].as_u64().expect("offset") as u32;
        fields.insert(key.clone(), BufferField { size, offset });
    }
    Program {
        buffer: gpex::Buffer { size: buffer["size"].as_u64().expect("size") as u32, fields },
        init_shader: value["init_shader"].as_str().expect("shader").to_string(),
    }
}

#[test]
fn program_round_trip() {
    let program = program_of(vec![
        source("a.gpex", "import b;\npub var _first = second;\n"),
        source("b.gpex", "pub var second = 5;\nconst _C = 3;\n"),
    ]);
    let loaded = from_json(&to_json(&program));
    assert_eq!(loaded.buffer.size, program.buffer.size);
    assert_eq!(loaded.init_shader, program.init_shader);
    assert_eq!(loaded.buffer.fields.len(), program.buffer.fields.len());
    for entry in program.buffer.fields.entries() {
        assert_eq!(loaded.buffer.fields.get(&entry.key), Some(entry.field));
    }
}

#[test]
fn same_sources_give_same_program() {
    let files = || {
        vec![
            source("a.gpex", "import b;\npub var _first = second;\nvar _third = second;\n"),
            source("b.gpex", "pub var second = 5;\n"),
        ]
    };
    let one = program_of(files());
    let two = program_of(files());
    assert_eq!(one.init_shader, two.init_shader);
    assert_eq!(one.buffer.size, two.buffer.size);
    for entry in one.buffer.fields.entries() {
        assert_eq!(two.buffer.fields.get(&entry.key), Some(entry.field));
    }
}
