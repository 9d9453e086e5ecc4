use confset::config::{
    digest, env_flag, explicit_path, explicit_source, fallback, package_uri, resolve_source_path, search, starter_source,
    AncestorProbe, DiscoverFault, Discovery, EnvValue, FileProbe, GlobRecord, Inputs, Resolution, ResolveFault, Source,
    UserProbe,
};
use confset::path::{absolute, path_string, FsPath};
use confset::Failure;

fn path(text: &str) -> FsPath {
    let mut parts = vec!["/".to_string()];
    for piece in text.split('/').filter(|piece| !piece.is_empty()) {
        parts.push(piece.to_string());
    }
    FsPath { parts }
}

fn failure(message: &str) -> Failure {
    Failure { message: message.to_string() }
}

#[test]
fn digests_are_lowercase_sha256() {
    assert_eq!(digest(b""), "e3b0c44298fc1c149afbf4c8996fb92427ae41e4649b934ca495991b7852b855");
    assert_eq!(digest(b"abc"), "ba7816bf8f01cfea414140de5dae2223b00361a396177a9cb410ff61f20015ad");
}

#[test]
fn the_package_uri_names_the_release_twice() {
    assert_eq!(
        package_uri("0.1.0"),
        "package://github.com/mathematic-inc/confset/releases/download/v0.1.0/confset@0.1.0"
    );
}

#[test]
fn switches_accept_only_known_spellings() {
    assert_eq!(env_flag(&EnvValue::Missing), Some(false));
    assert_eq!(env_flag(&EnvValue::Text("1".into())), Some(true));
    assert_eq!(env_flag(&EnvValue::Text("true".into())), Some(true));
    assert_eq!(env_flag(&EnvValue::Text("0".into())), Some(false));
    assert_eq!(env_flag(&EnvValue::Text("false".into())), Some(false));
    assert_eq!(env_flag(&EnvValue::Text("".into())), Some(false));
    assert_eq!(env_flag(&EnvValue::Text("yes".into())), None);
    assert_eq!(env_flag(&EnvValue::NotUnicode), None);
}

#[test]
fn resolution_keeps_the_missing_tail() {
    let source = path("/work/new/dir/confset.pkl");
    let resolutions = vec![Resolution::NotFound, Resolution::NotFound, Resolution::Real(path("/real/work"))];
    let resolved = resolve_source_path(&source, &resolutions).ok().unwrap();
    assert_eq!(path_string(&resolved), "/real/work/new/dir/confset.pkl");
}

#[test]
fn resolution_stops_at_a_failure() {
    let source = path("/work/confset.pkl");
    let resolutions = vec![Resolution::Failed(failure("denied"))];
    match resolve_source_path(&source, &resolutions) {
        Err(ResolveFault::Failed { path: p, failure: f }) => {
            assert_eq!(path_string(&p), "/work/confset.pkl");
            assert_eq!(f.message, "denied");
        }
        _ => panic!("expected a failure"),
    }
    assert!(matches!(resolve_source_path(&path("/confset.pkl"), &vec![Resolution::NotFound]), Err(ResolveFault::Unresolved(_))));
    assert!(matches!(resolve_source_path(&FsPath::root(), &vec![]), Err(ResolveFault::NoParent)));
}

#[test]
fn ancestor_discovery_and_explicit_override_are_distinct() {
    let cwd = path("/project/sub/directory");
    let probes = vec![
        AncestorProbe { source: Ok(false), state_file: false },
        AncestorProbe { source: Ok(false), state_file: false },
        AncestorProbe { source: Ok(true), state_file: false },
    ];
    let found: Source = search(&cwd, Discovery::Existing, &probes).unwrap().ok().unwrap();
    assert_eq!(path_string(found.path()), "/project/confset.pkl");
    assert_eq!(path_string(found.root()), "/project");
    let other = explicit_path(&path("/project"), "other.pkl").ok().unwrap();
    let explicit = explicit_source(other, Discovery::Existing, true).ok().unwrap();
    assert_eq!(path_string(explicit.path()), "/project/other.pkl");
    assert_eq!(path_string(explicit.root()), "/project");
    let missing = explicit_path(&path("/project"), "missing.pkl").ok().unwrap();
    assert!(matches!(explicit_source(missing, Discovery::Existing, false), Err(DiscoverFault::Missing(_))));
    assert!(matches!(explicit_path(&path("/project"), ""), Err(DiscoverFault::EmptyExplicit)));
}

#[test]
fn cleanup_stops_at_a_state_directory() {
    let cwd = path("/project/sub");
    let probes = vec![
        AncestorProbe { source: Ok(false), state_file: false },
        AncestorProbe { source: Ok(false), state_file: true },
    ];
    assert!(search(&cwd, Discovery::Existing, &probes).is_none());
    let found = search(&cwd, Discovery::Cleanup, &probes).unwrap().ok().unwrap();
    assert_eq!(path_string(found.root()), "/project");
    assert_eq!(path_string(found.path()), "/project/confset.pkl");
    let failing = vec![AncestorProbe { source: Err(failure("denied")), state_file: false }];
    assert!(matches!(search(&cwd, Discovery::Existing, &failing), Some(Err(DiscoverFault::Inspect { .. }))));
}

#[test]
fn user_fallback_renders_in_the_callers_directory() {
    let cwd = path("/work");
    let user = UserProbe { resolved: Ok(path("/home/me/.config/confset/config.pkl")), exists: Ok(true) };
    let found = fallback(&cwd, Discovery::Existing, Some(user)).ok().unwrap();
    assert_eq!(path_string(found.path()), "/home/me/.config/confset/config.pkl");
    assert_eq!(path_string(found.root()), "/work");
    let absent = UserProbe { resolved: Ok(path("/home/me/.config/confset/config.pkl")), exists: Ok(false) };
    assert!(matches!(fallback(&cwd, Discovery::Existing, Some(absent)), Err(DiscoverFault::NotFound)));
    let init = fallback(&cwd, Discovery::Initialize, None).ok().unwrap();
    assert_eq!(path_string(init.path()), "/work/confset.pkl");
}

#[test]
fn recorded_reads_replace_earlier_ones() {
    let mut inputs = Inputs::empty();
    let a = path("/project/a.pkl");
    inputs.note_read(&a, None);
    assert!(inputs.contains(&a, None));
    assert!(inputs.files[0].hash.is_none());
    inputs.note_read(&a, Some(b"abc"));
    assert_eq!(inputs.files.len(), 1);
    assert_eq!(inputs.files[0].hash.as_deref(), Some(digest(b"abc").as_str()));
    assert!(!inputs.contains(&path("/project/b.pkl"), None));
    assert!(inputs.contains(&path("/project/link.pkl"), Some(&a)));
    let listed: Vec<String> = inputs.paths().iter().map(path_string).collect();
    assert_eq!(listed, vec!["/project/a.pkl"]);
}

#[test]
fn changes_are_detected_from_fresh_fingerprints() {
    let mut inputs = Inputs::empty();
    inputs.note_read(&path("/project/a.pkl"), Some(b"abc"));
    inputs.note_read(&path("/project/missing.pkl"), None);
    let same = vec![FileProbe::Read(digest(b"abc")), FileProbe::Unreadable(Some(false))];
    assert!(!inputs.changed(&same, &vec![]));
    let edited = vec![FileProbe::Read(digest(b"abd")), FileProbe::Unreadable(Some(false))];
    assert!(inputs.changed(&edited, &vec![]));
    let appeared = vec![FileProbe::Read(digest(b"abc")), FileProbe::Unreadable(None)];
    assert!(inputs.changed(&appeared, &vec![]));
}

#[test]
fn glob_results_outside_exclusions_are_compared() {
    let mut inputs = Inputs::empty();
    inputs.excluded.push(path("/cache"));
    inputs.globs.push(GlobRecord { base: path("/project"), pattern: "*.pkl".into(), matches: vec![path("/project/a.pkl")] });
    inputs.directories.push(path("/project"));
    assert!(!inputs.changed(&vec![], &vec![Some(vec![path("/project/a.pkl"), path("/cache/x.pkl")])]));
    assert!(inputs.changed(&vec![], &vec![Some(vec![path("/project/a.pkl"), path("/project/b.pkl")])]));
    assert!(inputs.changed(&vec![], &vec![None]));
    assert!(inputs.ignores(&path("/cache/deep/file")));
    assert_eq!(inputs.directories().len(), 1);
}

#[test]
fn explicit_initialization_creates_parents_and_preserves_existing_source() {
    let cwd = path("/project");
    let requested = explicit_path(&cwd, "nested/settings.pkl").ok().unwrap();
    assert_eq!(path_string(&requested), "/project/nested/settings.pkl");
    let first = explicit_source(requested.duplicate(), Discovery::Initialize, false).ok().unwrap();
    assert_eq!(path_string(first.path()), "/project/nested/settings.pkl");
    assert_eq!(path_string(first.root()), "/project/nested");
    let again = explicit_source(requested, Discovery::Initialize, true).ok().unwrap();
    assert_eq!(path_string(again.path()), "/project/nested/settings.pkl");
    assert_eq!(path_string(again.root()), "/project/nested");
}

#[test]
fn environment_override_uses_the_configuration_directory() {
    let cwd = path("/project");
    let selected = explicit_path(&cwd, "nested/settings.pkl").ok().unwrap();
    let source = explicit_source(selected, Discovery::Existing, true).ok().unwrap();
    assert_eq!(path_string(source.root()), "/project/nested");
    let destination = absolute(source.root(), ".oxfmtrc.json").unwrap();
    assert_eq!(path_string(&destination), "/project/nested/.oxfmtrc.json");
}

#[test]
fn a_nested_project_selects_its_own_nearest_entrypoint() {
    let cwd = path("/project/packages/web/src");
    let probes = vec![
        AncestorProbe { source: Ok(false), state_file: false },
        AncestorProbe { source: Ok(true), state_file: false },
        AncestorProbe { source: Ok(false), state_file: false },
        AncestorProbe { source: Ok(true), state_file: false },
    ];
    let found = search(&cwd, Discovery::Existing, &probes).unwrap().ok().unwrap();
    assert_eq!(path_string(found.path()), "/project/packages/web/confset.pkl");
    assert_eq!(path_string(found.root()), "/project/packages/web");
}

#[test]
fn the_starter_amends_the_release_package() {
    assert_eq!(
        starter_source("0.1.0"),
        "amends \"package://github.com/mathematic-inc/confset/releases/download/v0.1.0/confset@0.1.0#/Config.pkl\"\n\n\
         import \"package://github.com/mathematic-inc/confset/releases/download/v0.1.0/confset@0.1.0#/Builtins.pkl\"\n\n\
         // Enable and amend the configurations your project uses.\ntools {}\n"
    );
}

#[test]
fn glob_records_are_replaced_and_leave_out_the_cache() {
    let mut inputs = Inputs::empty();
    let base = path("/project/fragments");
    let cache = path("/project/fragments/.cache");
    let found = vec![path("/project/fragments/one.pkl"), path("/project/fragments/.cache/pkg.pkl")];
    let kept: Vec<String> = inputs.note_glob(&base, "*.pkl", &found, &cache).iter().map(path_string).collect();
    assert_eq!(kept, vec!["/project/fragments/one.pkl"]);
    let again = vec![path("/project/fragments/one.pkl"), path("/project/fragments/two.pkl")];
    assert_eq!(inputs.note_glob(&base, "*.pkl", &again, &cache).len(), 2);
    inputs.note_glob(&base, "*.json", &vec![], &cache);
    let dirs: Vec<String> = inputs.directories().iter().map(path_string).collect();
    assert_eq!(dirs, vec!["/project/fragments"]);
    assert_eq!(inputs.globs.len(), 2);
    assert_eq!(inputs.globs[0].pattern, "*.pkl");
    assert_eq!(inputs.globs[0].matches.len(), 2);
    assert_eq!(inputs.globs[1].pattern, "*.json");
}

#[test]
fn reads_record_the_real_path_and_skip_the_cache() {
    let mut inputs = Inputs::empty();
    let cache = path("/project/.cache");
    inputs.note_input(&path("/project/.cache/pkg.pkl"), None, Some(b"x"), &cache);
    assert!(inputs.files.is_empty());
    let real = path("/project/real.pkl");
    inputs.note_input(&path("/project/link.pkl"), Some(&real), Some(b"abc"), &cache);
    let listed: Vec<String> = inputs.paths().iter().map(path_string).collect();
    assert_eq!(listed, vec!["/project/link.pkl", "/project/real.pkl"]);
    assert_eq!(inputs.files[1].hash.as_deref(), Some(digest(b"abc").as_str()));
}
