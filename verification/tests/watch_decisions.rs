use confset::config::{Inputs, Source};
use confset::path::{path_string, FsPath};
use confset::watch::{plan_watches, relevant, Watch, WatchAction, WatchState};

fn path(text: &str) -> FsPath {
    let mut parts = vec!["/".to_string()];
    for piece in text.split('/').filter(|piece| !piece.is_empty()) {
        parts.push(piece.to_string());
    }
    FsPath { parts }
}

fn source() -> Source {
    Source { path: path("/project/confset.pkl"), root: path("/project") }
}

fn inputs() -> Inputs {
    let mut inputs = Inputs::empty();
    inputs.note_read(&path("/project/config/shared.pkl"), Some(b"x"));
    inputs.directories.push(path("/project/globbed"));
    inputs.excluded.push(path("/project/.cache"));
    inputs
}

#[test]
fn only_relevant_paths_trigger_generation() {
    let outputs = vec![path("/project/.oxlintrc.json")];
    let check = |p: &str| relevant(false, &vec![path(p)], &source(), &inputs(), &outputs);
    assert!(check("/project/confset.pkl"));
    assert!(check("/project/config/shared.pkl"));
    assert!(check("/project/config"));
    assert!(check("/project/globbed/new.pkl"));
    assert!(!check("/project/.oxlintrc.json"));
    assert!(!check("/project/.confset/state.json"));
    assert!(!check("/project/config/.confset-stage-x"));
    assert!(!check("/project/.cache/package.pkl"));
    assert!(!check("/project/unrelated.txt"));
    assert!(!relevant(true, &vec![path("/project/confset.pkl")], &source(), &inputs(), &outputs));
}

#[test]
fn a_project_local_package_cache_does_not_trigger_regeneration() {
    let mut recorded = inputs();
    recorded.excluded.push(path("/project/globbed/cache"));
    assert!(!relevant(false, &vec![path("/project/globbed/cache/pkg.zip")], &source(), &recorded, &vec![]));
}

#[test]
fn recursive_watches_cover_nested_directories() {
    let files = vec![path("/project"), path("/project/globbed/sub"), path("/other")];
    let recursive = vec![path("/project/globbed")];
    let watched = vec![
        Watch { dir: path("/other"), recursive: true },
        Watch { dir: path("/stale"), recursive: false },
    ];
    let planned = plan_watches(&files, &recursive, &watched);
    let desired: Vec<(String, bool)> = planned.desired.iter().map(|w| (path_string(&w.dir), w.recursive)).collect();
    assert_eq!(
        desired,
        vec![("/other".to_string(), false), ("/project".to_string(), false), ("/project/globbed".to_string(), true)]
    );
    let actions: Vec<String> = planned
        .actions
        .iter()
        .map(|a| match a {
            WatchAction::Watch { dir, recursive } => format!("watch {} {}", path_string(dir), recursive),
            WatchAction::Unwatch(dir) => format!("unwatch {}", path_string(dir)),
        })
        .collect();
    assert_eq!(
        actions,
        vec![
            "unwatch /other",
            "watch /other false",
            "watch /project false",
            "watch /project/globbed true",
            "unwatch /stale",
        ]
    );
}

#[test]
fn bursts_of_saves_are_coalesced() {
    let mut state = WatchState::new(1000);
    assert_eq!(state.wait_until(), Some(1000));
    assert!(!state.start_due(999));
    assert!(state.start_due(1000));
    assert_eq!(state.wait_until(), None);
    state.on_change(1100);
    assert!(!state.start_due(2000));
    assert!(!state.on_compiled(false, 1200));
    assert_eq!(state.deadline, Some(1250));
    assert!(!state.start_due(1249));
    assert!(state.start_due(1250));
    assert!(state.on_compiled(false, 1300));
    assert_eq!(state.deadline, None);
}

#[test]
fn atomic_saves_and_import_changes_keep_the_last_valid_generation() {
    let mut state = WatchState::new(0);
    assert!(state.start_due(0));
    assert!(!state.on_compiled(true, 10));
    assert_eq!(state.deadline, Some(160));
    assert!(state.start_due(160));
    assert!(state.on_compiled(false, 200));
    assert!(state.on_failure(false, 210));
    assert_eq!(state.deadline, None);
    assert!(!state.on_failure(true, 220));
    assert_eq!(state.deadline, Some(370));
}

#[test]
fn initially_invalid_configuration_can_be_fixed_without_restarting() {
    let mut state = WatchState::new(0);
    assert!(state.start_due(0));
    assert!(state.on_compiled(false, 10));
    assert!(state.on_failure(false, 10));
    assert_eq!(state.wait_until(), None);
    let nothing_read = Inputs::empty();
    assert!(relevant(false, &vec![path("/project/confset.pkl")], &source(), &nothing_read, &vec![]));
    state.on_change(20);
    assert_eq!(state.wait_until(), Some(170));
    assert!(!state.start_due(169));
    assert!(state.start_due(170));
    assert!(state.on_compiled(false, 200));
}

#[test]
fn glob_imports_detect_additions_and_bursts_publish_the_latest_value() {
    let mut recorded = Inputs::empty();
    recorded.note_read(&path("/project/fragments/one.pkl"), Some(b"width = 80\n"));
    recorded.directories.push(path("/project/fragments"));
    let outputs = vec![path("/project/out.json")];
    assert!(relevant(false, &vec![path("/project/fragments/two.pkl")], &source(), &recorded, &outputs));
    assert!(!relevant(false, &vec![path("/project/out.json")], &source(), &recorded, &outputs));
    let mut state = WatchState::new(0);
    assert!(state.start_due(0));
    assert!(state.on_compiled(false, 50));
    let mut starts = 0;
    for now in 300..320u64 {
        state.on_change(now);
        if state.start_due(now) {
            starts += 1;
        }
    }
    assert_eq!(starts, 0);
    assert_eq!(state.wait_until(), Some(469));
    assert!(state.start_due(469));
    assert!(state.on_compiled(false, 500));
    assert_eq!(state.wait_until(), None);
}

#[test]
fn nested_amendments_are_watched_through_multiple_levels() {
    let mut recorded = Inputs::empty();
    recorded.note_read(&path("/project/confset.pkl"), Some(b"amends"));
    recorded.note_read(&path("/project/config/project.pkl"), Some(b"amends"));
    recorded.note_read(&path("/project/config/shared/base.pkl"), Some(b"tools"));
    assert!(relevant(false, &vec![path("/project/config/shared/base.pkl")], &source(), &recorded, &vec![]));
    let files = vec![path("/project"), path("/project/config"), path("/project/config/shared")];
    let planned = plan_watches(&files, &vec![], &vec![]);
    let desired: Vec<(String, bool)> = planned.desired.iter().map(|w| (path_string(&w.dir), w.recursive)).collect();
    assert_eq!(
        desired,
        vec![
            ("/project".to_string(), false),
            ("/project/config".to_string(), false),
            ("/project/config/shared".to_string(), false),
        ]
    );
}
