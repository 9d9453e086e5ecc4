use confset::compiler::{
    answers_match, assemble, check_fields, declare, Builtin, CompileFault, Field, FormatFile, Plan, Schema, Step,
    StepAnswer, Value,
};
use confset::config::Inputs;
use confset::path::{path_string, FsPath};

fn path(text: &str) -> FsPath {
    let mut parts = vec!["/".to_string()];
    for piece in text.split('/').filter(|piece| !piece.is_empty()) {
        parts.push(piece.to_string());
    }
    FsPath { parts }
}

fn object(members: Vec<(&str, Value)>) -> Value {
    Value::Object(members.into_iter().map(|(name, value)| Field { name: name.to_string(), value }).collect())
}

fn text(s: &str) -> Value {
    Value::String(s.to_string())
}

fn builtin(id: &str, default: &str, formats: &[(&str, &str)], alternatives: &[&str], manifest_key: Option<&str>) -> Builtin {
    Builtin {
        id: id.to_string(),
        default: default.to_string(),
        formats: formats
            .iter()
            .map(|(format, filename)| FormatFile { format: format.to_string(), filename: filename.to_string() })
            .collect(),
        alternatives: alternatives.iter().map(|a| a.to_string()).collect(),
        manifest_key: manifest_key.map(str::to_string),
    }
}

fn catalog() -> Vec<Builtin> {
    vec![
        builtin("oxlint", "json", &[("json", ".oxlintrc.json")], &[".oxlintrc.json", "oxlint.json"], None),
        builtin(
            "prettier",
            "json",
            &[("json", ".prettierrc.json"), ("yaml", ".prettierrc.yaml"), ("toml", ".prettierrc.toml")],
            &[".prettierrc.json", ".prettierrc.yaml", ".prettierrc"],
            Some("prettier"),
        ),
        builtin("shfmt", "ini", &[("ini", ".editorconfig")], &[], None),
    ]
}

/// Compiles a document, answering every render with `rendered` and every
/// manifest read with `manifest`.
fn compile(doc: &Value, manifest: Option<&[u8]>) -> Result<Plan, CompileFault> {
    compile_with(doc, manifest, false)
}

fn compile_with(doc: &Value, manifest: Option<&[u8]>, fold_case: bool) -> Result<Plan, CompileFault> {
    let root = path("/project");
    let source = path("/project/confset.pkl");
    let books = catalog();
    let declared = declare(&root, doc, &books);
    let answers: Vec<StepAnswer> = declared
        .steps
        .iter()
        .map(|step| match step {
            Step::Manifest { .. } => StepAnswer::Manifest(Ok(manifest.map(|b| b.to_vec()))),
            Step::Render { .. } => StepAnswer::Render { outside: Ok("{}\n".to_string()), canonical: None },
        })
        .collect();
    assert!(answers_match(&declared.steps, &answers));
    let mut inputs = Inputs::empty();
    inputs.note_read(&source, Some(b"source"));
    assemble(&root, &source, declared, &answers, inputs, fold_case)
}

fn files(entries: Vec<(&str, &str)>) -> Value {
    object(vec![(
        "files",
        object(
            entries
                .into_iter()
                .map(|(name, p)| (name, object(vec![("path", text(p)), ("config", object(vec![]))])))
                .collect(),
        ),
    )])
}

#[test]
fn builtins_write_their_native_filenames() {
    let doc = object(vec![(
        "tools",
        object(vec![
            ("lint", object(vec![("builtin", text("oxlint")), ("config", object(vec![]))])),
            ("format", object(vec![("builtin", text("prettier")), ("format", text("yaml")), ("config", object(vec![]))])),
        ]),
    )]);
    let plan = compile(&doc, None).ok().unwrap();
    let outputs: Vec<(String, String, String)> = plan
        .outputs()
        .iter()
        .map(|o| (path_string(o.path()), o.label().to_string(), o.format().to_string()))
        .collect();
    assert_eq!(
        outputs,
        vec![
            ("/project/.oxlintrc.json".to_string(), "lint/.oxlintrc.json".to_string(), "json".to_string()),
            ("/project/.prettierrc.yaml".to_string(), "format/.prettierrc.yaml".to_string(), "yaml".to_string()),
        ]
    );
    assert_eq!(plan.outputs()[0].bytes(), b"{}\n");
    let alternatives: Vec<String> = plan.alternatives().iter().map(path_string).collect();
    assert_eq!(
        alternatives,
        vec!["/project/.prettierrc", "/project/.prettierrc.json", "/project/oxlint.json"]
    );
    let read: Vec<String> = plan.inputs().paths().iter().map(path_string).collect();
    assert_eq!(read, vec!["/project/confset.pkl", "/project/package.json"]);
}

#[test]
fn ini_outputs_are_rendered_by_the_library() {
    let doc = object(vec![(
        "tools",
        object(vec![(
            "shell",
            object(vec![
                ("builtin", text("shfmt")),
                ("config", object(vec![("root", Value::Bool(true)), ("**/generated/**", object(vec![("ignore", Value::Bool(true))]))])),
            ]),
        )]),
    )]);
    let plan = compile(&doc, None).ok().unwrap();
    assert_eq!(path_string(plan.outputs()[0].path()), "/project/.editorconfig");
    assert_eq!(plan.outputs()[0].bytes(), b"root = true\n\n[**/generated/**]\nignore = true\n");
}

#[test]
fn duplicate_and_input_destinations_fail_before_writing() {
    match compile(&files(vec![("a", "same.json"), ("b", "same.json")]), None) {
        Err(CompileFault::Duplicate { label, previous, path: p }) => {
            assert_eq!(label, "files/b");
            assert_eq!(previous, "files/a");
            assert_eq!(path_string(&p), "/project/same.json");
        }
        _ => panic!("expected a duplicate"),
    }
    assert!(matches!(compile(&files(vec![("source", "confset.pkl")]), None), Err(CompileFault::InputCollision(_))));
    assert!(matches!(compile(&files(vec![("state", ".confset/state.json")]), None), Err(CompileFault::StateCollision(_))));
    assert!(matches!(compile(&files(vec![("stage", "d/.confset-stage-x")]), None), Err(CompileFault::ReservedName(_))));
}

#[test]
fn output_files_cannot_also_be_parent_directories_or_old_inputs() {
    match compile(&files(vec![("dir", "dir"), ("inner", "dir/x.json")]), None) {
        Err(CompileFault::FileAndDirectory(p)) => assert_eq!(path_string(&p), "/project/dir"),
        _ => panic!("expected a file and directory collision"),
    }
}

#[test]
fn a_conflicting_package_manifest_is_reported() {
    let doc = object(vec![("tools", object(vec![("prettier", object(vec![("builtin", text("prettier")), ("config", object(vec![]))]))]))]);
    match compile(&doc, Some(br#"{"prettier":{"semi":false}}"#)) {
        Err(CompileFault::InTool { name, reason }) => {
            assert_eq!(name, "prettier");
            assert!(matches!(*reason, CompileFault::ManifestConflict { ref key, .. } if key == "prettier"));
        }
        _ => panic!("expected a manifest conflict"),
    }
    assert!(compile(&doc, Some(br#"{"name":"x"}"#)).is_ok());
    assert!(matches!(
        compile(&doc, Some(b"not json")),
        Err(CompileFault::InTool { reason, .. }) if matches!(*reason, CompileFault::ManifestUnreadable(_))
    ));
}

#[test]
fn declarations_report_their_faults_in_tool_context() {
    let unknown = object(vec![("tools", object(vec![("x", object(vec![("builtin", text("nope")), ("config", object(vec![]))]))]))]);
    assert!(matches!(compile(&unknown, None), Err(CompileFault::InTool { reason, .. }) if matches!(*reason, CompileFault::UnknownBuiltin(_))));
    let unsupported = object(vec![(
        "tools",
        object(vec![("x", object(vec![("builtin", text("oxlint")), ("format", text("yaml")), ("config", object(vec![]))]))]),
    )]);
    match compile(&unsupported, None) {
        Err(CompileFault::InTool { reason, .. }) => match *reason {
            CompileFault::UnsupportedFormat { builtin, format, supported } => {
                assert_eq!((builtin.as_str(), format.as_str()), ("oxlint", "yaml"));
                assert_eq!(supported, vec!["json".to_string()]);
            }
            _ => panic!("expected an unsupported format"),
        },
        _ => panic!("expected a tool fault"),
    }
    let renamed = object(vec![(
        "tools",
        object(vec![("x", object(vec![("builtin", text("oxlint")), ("path", text("lint.json")), ("config", object(vec![]))]))]),
    )]);
    assert!(matches!(compile(&renamed, None), Err(CompileFault::InTool { reason, .. }) if matches!(*reason, CompileFault::NativeFilename { .. })));
    let custom = object(vec![("tools", object(vec![("x", object(vec![("path", text("a.json")), ("config", object(vec![]))]))]))]);
    assert!(matches!(compile(&custom, None), Err(CompileFault::InTool { reason, .. }) if matches!(*reason, CompileFault::CustomWithoutFormat)));
    let empty = object(vec![("tools", object(vec![("x", object(vec![]))]))]);
    assert!(matches!(compile(&empty, None), Err(CompileFault::InTool { reason, .. }) if matches!(*reason, CompileFault::NothingToGenerate)));
    let unknown_field = object(vec![("extra", object(vec![]))]);
    assert!(matches!(compile(&unknown_field, None), Err(CompileFault::UnknownField(name)) if name == "extra"));
}

#[test]
fn custom_tools_and_tool_files_are_relative_to_the_tool_directory() {
    let doc = object(vec![(
        "tools",
        object(vec![(
            "web",
            object(vec![
                ("directory", text("web")),
                ("path", text("settings.yaml")),
                ("format", text("yaml")),
                ("config", object(vec![])),
                ("files", object(vec![("ignore", object(vec![("path", text(".ignore")), ("format", text("text")), ("config", text("a/\n"))]))])),
            ]),
        )]),
    )]);
    let plan = compile(&doc, None).ok().unwrap();
    let outputs: Vec<(String, String)> = plan.outputs().iter().map(|o| (path_string(o.path()), o.label().to_string())).collect();
    assert_eq!(
        outputs,
        vec![
            ("/project/web/.ignore".to_string(), "web/ignore".to_string()),
            ("/project/web/settings.yaml".to_string(), "web/settings.yaml".to_string()),
        ]
    );
    assert_eq!(plan.outputs()[0].bytes(), b"a/\n");
}

#[test]
fn schemas_accept_only_their_members() {
    assert!(check_fields(&object(vec![("tools", object(vec![]))]), Schema::Document).is_none());
    assert!(matches!(check_fields(&Value::Null, Schema::File), Some(CompileFault::ExpectedObject)));
    assert!(matches!(check_fields(&object(vec![("path", text("x")), ("mode", text("y"))]), Schema::File), Some(CompileFault::UnknownField(n)) if n == "mode"));
}

fn compile_rendering(doc: &Value, toml_fails: bool) -> Result<Plan, CompileFault> {
    let root = path("/project");
    let source = path("/project/confset.pkl");
    let books = catalog();
    let declared = declare(&root, doc, &books);
    let answers: Vec<StepAnswer> = declared
        .steps
        .iter()
        .map(|step| match step {
            Step::Manifest { .. } => StepAnswer::Manifest(Ok(None)),
            Step::Render { format, .. } => StepAnswer::Render {
                outside: if toml_fails && format == "toml" {
                    Err(confset::Failure { message: "value is not representable in TOML".to_string() })
                } else {
                    Ok("rendered\n".to_string())
                },
                canonical: None,
            },
        })
        .collect();
    assemble(&root, &source, declared, &answers, Inputs::empty(), false)
}

#[test]
fn compilation_failure_never_partially_updates_outputs() {
    let doc = object(vec![
        ("tools", object(vec![("lint", object(vec![("builtin", text("oxlint")), ("config", object(vec![]))]))])),
        (
            "files",
            object(vec![(
                "bad",
                object(vec![("path", text("rustfmt.toml")), ("format", text("toml")), ("config", object(vec![("max_width", Value::Null)]))]),
            )]),
        ),
    ]);
    match compile_rendering(&doc, true) {
        Err(CompileFault::Render { label, format, cause }) => {
            assert_eq!(label, "files/bad");
            assert_eq!(format, "toml");
            assert!(matches!(cause, confset::compiler::RenderFault::Outside(f) if f.message.contains("TOML")));
        }
        _ => panic!("expected a render fault"),
    }
    assert!(compile_rendering(&doc, false).is_ok());
}

#[test]
fn nested_output_directories_and_absolute_destinations_work() {
    let doc = object(vec![
        (
            "tools",
            object(vec![("nested", object(vec![("builtin", text("oxlint")), ("directory", text("packages/web")), ("config", object(vec![]))]))]),
        ),
        (
            "files",
            object(vec![("elsewhere", object(vec![("path", text("/tmp/elsewhere/config.yaml")), ("format", text("yaml")), ("config", object(vec![]))]))]),
        ),
    ]);
    let plan = compile_rendering(&doc, false).ok().unwrap();
    let outputs: Vec<String> = plan.outputs().iter().map(|o| path_string(o.path())).collect();
    assert_eq!(outputs, vec!["/project/packages/web/.oxlintrc.json", "/tmp/elsewhere/config.yaml"]);
    let alternatives: Vec<String> = plan.alternatives().iter().map(path_string).collect();
    assert_eq!(alternatives, vec!["/project/packages/web/oxlint.json"]);
}

#[test]
fn functions_amendments_and_comprehensions_compute_custom_formats() {
    let doc = object(vec![(
        "files",
        object(vec![
            (
                "xml",
                object(vec![
                    ("path", text("users.xml")),
                    ("format", text("text")),
                    ("config", text("<users><user>alice</user><user>bob</user></users>\n")),
                ]),
            ),
            (
                "ignore",
                object(vec![
                    ("path", text(".customignore")),
                    ("format", text("text")),
                    ("config", text("alice/\nbob/\n")),
                ]),
            ),
        ]),
    )]);
    let plan = compile(&doc, None).ok().unwrap();
    let written: Vec<(String, Vec<u8>)> =
        plan.outputs().iter().map(|o| (path_string(o.path()), o.bytes().to_vec())).collect();
    assert_eq!(
        written,
        vec![
            ("/project/.customignore".to_string(), b"alice/\nbob/\n".to_vec()),
            ("/project/users.xml".to_string(), b"<users><user>alice</user><user>bob</user></users>\n".to_vec()),
        ]
    );
}

#[test]
fn paths_differing_only_in_case_collide_where_case_is_ignored() {
    let doc = files(vec![("upper", "Foo.json"), ("lower", "foo.json")]);
    assert_eq!(compile_with(&doc, None, false).ok().unwrap().outputs().len(), 2);
    match compile_with(&doc, None, true) {
        Err(CompileFault::Duplicate { label, previous, path: p }) => {
            assert_eq!(label, "files/lower");
            assert_eq!(previous, "files/upper");
            assert_eq!(path_string(&p), "/project/foo.json");
        }
        _ => panic!("expected a duplicate"),
    }
    let state = files(vec![("state", ".Confset/x.json")]);
    assert!(compile_with(&state, None, false).is_ok());
    assert!(matches!(compile_with(&state, None, true), Err(CompileFault::StateCollision(_))));
    let nested = files(vec![("dir", "A"), ("file", "a/b.json")]);
    assert!(compile_with(&nested, None, false).is_ok());
    match compile_with(&nested, None, true) {
        Err(CompileFault::FileAndDirectory(a)) => assert_eq!(path_string(&a), "/project/a"),
        _ => panic!("expected a file that is also a directory"),
    }
}

#[test]
fn an_output_that_links_to_a_read_input_is_refused() {
    let root = path("/project");
    let source = path("/project/confset.pkl");
    let books = catalog();
    let doc = files(vec![("alias", "alias.json")]);
    let declared = declare(&root, &doc, &books);
    let answer = |target: &str| -> Vec<StepAnswer> {
        declared
            .steps
            .iter()
            .map(|step| match step {
                Step::Manifest { .. } => StepAnswer::Manifest(Ok(None)),
                Step::Render { .. } => {
                    StepAnswer::Render { outside: Ok("{}\n".to_string()), canonical: Some(path(target)) }
                }
            })
            .collect()
    };
    let mut inputs = Inputs::empty();
    inputs.note_read(&source, Some(b"source"));
    let linked = answer("/project/confset.pkl");
    match assemble(&root, &source, declare(&root, &doc, &books), &linked, inputs, false) {
        Err(CompileFault::InputCollision(p)) => assert_eq!(path_string(&p), "/project/alias.json"),
        _ => panic!("expected an input collision"),
    }
    let mut inputs = Inputs::empty();
    inputs.note_read(&source, Some(b"source"));
    let plain = answer("/project/alias.json");
    assert!(assemble(&root, &source, declare(&root, &doc, &books), &plain, inputs, false).is_ok());
}
