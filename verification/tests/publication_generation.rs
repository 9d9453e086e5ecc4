use confset::compiler::{Output, Plan};
use confset::config::{digest, Inputs};
use confset::path::{path_string, FsPath};
use confset::publication::{
    plan_generation, plan_ignore_block, preflight, snapshot_of, validate, Facts, Identity, Owned, Probe, PublishFault,
    Record, Snapshot, State, STATE_VERSION,
};
use confset::Failure;

fn path(text: &str) -> FsPath {
    let mut parts = vec!["/".to_string()];
    for piece in text.split('/').filter(|piece| !piece.is_empty()) {
        parts.push(piece.to_string());
    }
    FsPath { parts }
}

fn snap(bytes: &[u8]) -> Snapshot {
    snapshot_of(bytes, Identity { device: 1, file: 1 }, 0o644)
}

fn output(p: &str, bytes: &[u8]) -> Output {
    Output { path: path(p), label: format!("tool/{p}"), format: "json".into(), bytes: bytes.to_vec() }
}

fn plan_of(outputs: Vec<Output>, alternatives: Vec<FsPath>) -> Plan {
    Plan { outputs, alternatives, inputs: Inputs::empty() }
}

fn probe(current: Option<&[u8]>) -> Probe {
    Probe { canonical: None, ancestors: Ok(()), current: Ok(current.map(snap)) }
}

fn owning(entries: &[(&str, &[u8])]) -> State {
    State {
        version: STATE_VERSION,
        root: path("/p"),
        generation: "g".into(),
        outputs: entries
            .iter()
            .map(|(p, bytes)| Owned { path: path(p), record: Record { hash: digest(bytes) } })
            .collect(),
    }
}

fn no_ignore() -> Result<Option<Snapshot>, Failure> {
    Ok(None)
}

#[test]
fn repeated_generation_preserves_timestamps() {
    let bytes = b"{}\n";
    let plan = plan_of(vec![output("/p/.oxlintrc.json", bytes)], vec![]);
    let state = owning(&[("/p/.oxlintrc.json", bytes)]);
    let facts = Facts { owned: vec![probe(Some(bytes))], outputs: vec![probe(Some(bytes))], alternatives: vec![] };
    let generation = plan_generation(&path("/p"), &plan, &state, &facts, &no_ignore()).ok().unwrap();
    assert!(generation.changes.is_empty());
    assert!(!generation.manage_ignore);
    assert_eq!(generation.state.outputs.len(), 1);
    assert_eq!(generation.state.outputs[0].record.hash, digest(bytes));
}

#[test]
fn format_change_removes_the_owned_alternative() {
    let old = b"{\"semi\":false}\n";
    let new = b"semi: false\n";
    let plan = plan_of(vec![output("/p/.prettierrc.yaml", new)], vec![path("/p/.prettierrc.json")]);
    let state = owning(&[("/p/.prettierrc.json", old)]);
    let facts = Facts { owned: vec![probe(Some(old))], outputs: vec![probe(None)], alternatives: vec![Ok(true)] };
    let generation = plan_generation(&path("/p"), &plan, &state, &facts, &no_ignore()).ok().unwrap();
    assert_eq!(generation.changes.len(), 2);
    assert_eq!(path_string(&generation.changes[0].path), "/p/.prettierrc.json");
    assert!(generation.changes[0].content.is_none());
    assert!(generation.changes[0].before.is_some());
    assert_eq!(path_string(&generation.changes[1].path), "/p/.prettierrc.yaml");
    assert_eq!(generation.changes[1].content.as_deref(), Some(&new[..]));
    assert!(generation.changes[1].before.is_none());
    assert_eq!(path_string(&generation.state.outputs[0].path), "/p/.prettierrc.yaml");
}

#[test]
fn removed_outputs_are_deleted_and_clean_works_with_broken_pkl() {
    let bytes = b"{}\n";
    let plan = plan_of(vec![], vec![]);
    let state = owning(&[("/p/.oxlintrc.json", bytes)]);
    let facts = Facts { owned: vec![probe(Some(bytes))], outputs: vec![], alternatives: vec![] };
    let generation = plan_generation(&path("/p"), &plan, &state, &facts, &no_ignore()).ok().unwrap();
    assert_eq!(generation.changes.len(), 1);
    assert!(generation.changes[0].content.is_none());
    assert!(generation.state.outputs.is_empty());
}

#[test]
fn unowned_alternatives_and_invalid_native_filenames_fail() {
    let plan = plan_of(vec![output("/p/.oxlintrc.json", b"{}\n")], vec![path("/p/oxlint.config.ts")]);
    let state = owning(&[]);
    let facts = Facts { owned: vec![], outputs: vec![probe(None)], alternatives: vec![Ok(true)] };
    match preflight(&plan, &state, &facts) {
        Err(PublishFault::AlternativeExists(p)) => assert_eq!(path_string(&p), "/p/oxlint.config.ts"),
        _ => panic!("expected a competing configuration"),
    }
    let absent = Facts { owned: vec![], outputs: vec![probe(None)], alternatives: vec![Ok(false)] };
    assert!(preflight(&plan, &state, &absent).is_ok());
}

#[test]
fn unowned_and_edited_destinations_refuse_generation() {
    let plan = plan_of(vec![output("/p/.oxlintrc.json", b"{}\n")], vec![]);
    let handwritten = Facts { owned: vec![], outputs: vec![probe(Some(b"{\"handwritten\":true}"))], alternatives: vec![] };
    assert!(matches!(preflight(&plan, &owning(&[]), &handwritten), Err(PublishFault::Unowned(_))));
    let state = owning(&[("/p/.oxlintrc.json", b"{}\n")]);
    let edited = Facts { owned: vec![probe(Some(b"{\"edited\":true}"))], outputs: vec![probe(Some(b"{\"edited\":true}"))], alternatives: vec![] };
    assert!(matches!(preflight(&plan, &state, &edited), Err(PublishFault::Modified(_))));
}

#[test]
fn symlink_destinations_and_parent_directories_are_preserved() {
    let plan = plan_of(vec![output("/p/link/out.json", b"{}\n")], vec![]);
    let facts = Facts {
        owned: vec![],
        outputs: vec![Probe {
            canonical: None,
            ancestors: Err(Failure { message: "refusing symlink or reparse point /p/link".into() }),
            current: Ok(None),
        }],
        alternatives: vec![],
    };
    match preflight(&plan, &owning(&[]), &facts) {
        Err(PublishFault::Io(f)) => assert!(f.message.contains("symlink")),
        _ => panic!("expected the ancestor check to refuse"),
    }
}

#[test]
fn validation_and_listing_do_not_materialize_outputs() {
    let plan = plan_of(vec![output("/p/.oxlintrc.json", b"{}\n")], vec![]);
    let facts = Facts { owned: vec![], outputs: vec![probe(None)], alternatives: vec![] };
    let outside = validate(&path("/p"), &plan, &owning(&[]), &facts, false, &no_ignore()).ok().unwrap();
    assert!(outside.is_empty());
    assert!(matches!(
        validate(&path("/p"), &plan, &owning(&[]), &facts, true, &no_ignore()),
        Err(PublishFault::RecoveryPending)
    ));
}

#[test]
fn initialization_does_not_generate_or_replace_source() {
    let plan = plan_of(vec![output("/p/.oxlintrc.json", b"{}\n")], vec![]);
    let (change, outside) = plan_ignore_block(&path("/p"), &plan, &no_ignore()).ok().unwrap();
    let change = change.unwrap();
    assert_eq!(path_string(&change.path), "/p/.gitignore");
    let text = String::from_utf8(change.content.unwrap()).unwrap();
    assert!(text.contains("/.oxlintrc.json\n"));
    assert!(outside.is_empty());
    let ignore_output = plan_of(vec![output("/p/.gitignore", b"x\n")], vec![]);
    assert!(matches!(plan_ignore_block(&path("/p"), &ignore_output, &no_ignore()), Err(PublishFault::IgnoreIsOutput)));
}

#[test]
fn a_managed_ignore_block_follows_the_outputs() {
    let bytes = b"{}\n";
    let plan = plan_of(vec![output("/p/.oxlintrc.json", bytes)], vec![]);
    let facts = Facts { owned: vec![], outputs: vec![probe(None)], alternatives: vec![] };
    let block = b"# BEGIN CONFSET GENERATED FILES\n# END CONFSET GENERATED FILES\n";
    let current: Result<Option<Snapshot>, Failure> = Ok(Some(snap(block)));
    let generation = plan_generation(&path("/p"), &plan, &owning(&[]), &facts, &current).ok().unwrap();
    assert!(generation.manage_ignore);
    assert_eq!(generation.changes.len(), 2);
    assert_eq!(path_string(&generation.changes[1].path), "/p/.gitignore");
    let text = String::from_utf8(generation.changes[1].content.clone().unwrap()).unwrap();
    assert_eq!(
        text,
        "# BEGIN CONFSET GENERATED FILES\n.confset-stage-*\n/.oxlintrc.json\n/.confset/\n# END CONFSET GENERATED FILES\n"
    );
}
