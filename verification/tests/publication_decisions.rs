use confset::config::digest;
use confset::path::{path_string, FsPath};
use confset::publication::{
    check_journal, check_state, interrupted, owned_snapshot, plan_clean, publish_action, recovery_action, same_content, snapshot_of,
    stage_action, status, verify_current, Change, ContentFault, Identity, Journal, JournalFault, OwnershipFault, Owned,
    PublishAction, Record, RecoveryAction, Snapshot, StageAction, State, StateFault, Status, STATE_VERSION,
};
use confset::Failure;

fn path(text: &str) -> FsPath {
    let mut parts = vec!["/".to_string()];
    for piece in text.split('/').filter(|piece| !piece.is_empty()) {
        parts.push(piece.to_string());
    }
    FsPath { parts }
}

fn snap(bytes: &[u8], file: u64) -> Snapshot {
    snapshot_of(bytes, Identity { device: 1, file }, 0o644)
}

fn state_owning(p: &FsPath, bytes: &[u8]) -> State {
    State {
        version: STATE_VERSION,
        root: path("/project"),
        generation: "previous".into(),
        outputs: vec![Owned { path: p.duplicate(), record: Record { hash: digest(bytes) } }],
    }
}

fn staged(p: &FsPath, before: Option<Snapshot>, after: &Snapshot) -> Change {
    Change {
        path: p.duplicate(),
        before,
        after: Some(after.duplicate()),
        stage: Some(path("/project/.confset-stage-abc")),
    }
}

#[test]
fn snapshots_round_trip_their_bytes() {
    let s = snap(b"hello", 7);
    assert_eq!(s.content, "aGVsbG8=");
    assert_eq!(s.hash, digest(b"hello"));
    assert_eq!(s.bytes().unwrap(), b"hello");
    let mut bad = s.duplicate();
    bad.content = "***".into();
    assert_eq!(bad.bytes(), Err(ContentFault::InvalidContent));
    let mut mismatch = s.duplicate();
    mismatch.hash = digest(b"other");
    assert_eq!(mismatch.bytes(), Err(ContentFault::HashMismatch));
}

#[test]
fn interrupted_replacement_restores_the_previous_generation() {
    let p = path("/project/config.json");
    let next = snap(b"next", 2);
    let change = staged(&p, Some(snap(b"previous", 1)), &next);
    assert_eq!(recovery_action(&change, Some(&snap(b"next", 2))), RecoveryAction::Restore { replace: true });
    assert_eq!(stage_action(&change, None), StageAction::Nothing);
}

#[test]
fn committed_generation_is_kept_after_interrupted_journal_cleanup() {
    let p = path("/project/config.json");
    let mut state = state_owning(&p, b"next");
    let journal = Journal { version: STATE_VERSION, root: path("/project"), generation: "interrupted".into(), changes: vec![] };
    assert!(interrupted(&state, &journal));
    state.generation = "interrupted".into();
    assert!(!interrupted(&state, &journal));
}

#[test]
fn interrupted_creation_removes_only_the_file_written_by_this_generation() {
    let p = path("/project/config.json");
    let new = snap(b"new", 3);
    let change = staged(&p, None, &new);
    assert_eq!(recovery_action(&change, Some(&snap(b"new", 3))), RecoveryAction::Remove);
    assert_eq!(recovery_action(&change, None), RecoveryAction::Keep);
}

#[test]
fn losing_an_exclusive_creation_race_preserves_the_foreign_file() {
    let p = path("/project/config.json");
    let change = staged(&p, None, &snap(b"same content", 3));
    assert_eq!(recovery_action(&change, Some(&snap(b"same content", 9))), RecoveryAction::PreserveForeign);
}

#[test]
fn recovery_preserves_an_external_edit_to_a_previously_owned_file() {
    let p = path("/project/config.json");
    let change = staged(&p, Some(snap(b"previous", 1)), &snap(b"next", 2));
    assert_eq!(recovery_action(&change, Some(&snap(b"edited outside Confset", 2))), RecoveryAction::Conflict);
}

#[test]
fn interrupted_obsolete_file_removal_restores_the_file() {
    let p = path("/project/config.json");
    let change = Change { path: p.duplicate(), before: Some(snap(b"previous", 1)), after: None, stage: None };
    assert_eq!(recovery_action(&change, None), RecoveryAction::Restore { replace: false });
    assert_eq!(publish_action(&change), PublishAction::Remove);
}

#[test]
fn a_corrupt_journal_cannot_target_internal_state() {
    let root = path("/project");
    let state_dir = path("/project/.confset");
    let target = path("/project/.confset/write.lock");
    let mut change = staged(&target, Some(snap(b"previous", 1)), &snap(b"next", 2));
    change.stage = Some(path("/project/.confset/.confset-stage-x"));
    let journal = Journal { version: STATE_VERSION, root: root.duplicate(), generation: "g".into(), changes: vec![change] };
    assert_eq!(check_journal(&journal, &root, &state_dir), Err(JournalFault::InvalidDestination));
    let foreign = Journal { version: STATE_VERSION, root: path("/elsewhere"), generation: "g".into(), changes: vec![] };
    assert_eq!(check_journal(&foreign, &root, &state_dir), Err(JournalFault::Foreign));
}

#[test]
fn journals_need_staging_beside_each_destination() {
    let root = path("/project");
    let state_dir = path("/project/.confset");
    let p = path("/project/config.json");
    let good = Journal { version: STATE_VERSION, root: root.duplicate(), generation: "g".into(), changes: vec![staged(&p, None, &snap(b"x", 1))] };
    assert_eq!(check_journal(&good, &root, &state_dir), Ok(()));
    let mut elsewhere = staged(&p, None, &snap(b"x", 1));
    elsewhere.stage = Some(path("/tmp/.confset-stage-abc"));
    let bad = Journal { version: STATE_VERSION, root: root.duplicate(), generation: "g".into(), changes: vec![elsewhere] };
    assert_eq!(check_journal(&bad, &root, &state_dir), Err(JournalFault::InvalidStage));
    let mut unstaged = staged(&p, None, &snap(b"x", 1));
    unstaged.stage = None;
    let incomplete = Journal { version: STATE_VERSION, root: root.duplicate(), generation: "g".into(), changes: vec![unstaged] };
    assert_eq!(check_journal(&incomplete, &root, &state_dir), Err(JournalFault::IncompleteStaging));
}

#[test]
fn staged_files_are_removed_only_when_unchanged() {
    let p = path("/project/config.json");
    let after = snap(b"next", 2);
    let change = staged(&p, None, &after);
    assert_eq!(stage_action(&change, Some(&snap(b"next", 2))), StageAction::Remove);
    assert_eq!(stage_action(&change, Some(&snap(b"next", 5))), StageAction::Conflict);
    assert_eq!(publish_action(&change), PublishAction::Create);
    let replace = staged(&p, Some(snap(b"old", 1)), &after);
    assert_eq!(publish_action(&replace), PublishAction::Replace);
}

#[test]
fn statuses_follow_the_ownership_record() {
    let p = path("/project/config.json");
    let state = state_owning(&p, b"generated");
    assert_eq!(status(&state, &p, None), Status::Missing);
    assert_eq!(status(&state, &p, Some(&snap(b"generated", 1))), Status::Managed);
    assert_eq!(status(&state, &p, Some(&snap(b"edited", 1))), Status::Modified);
    assert_eq!(status(&state, &path("/project/other.json"), Some(&snap(b"x", 1))), Status::Unowned);
    let words: Vec<&str> =
        [Status::Missing, Status::Unowned, Status::Managed, Status::Modified].iter().map(|s| s.label()).collect();
    assert_eq!(words, vec!["missing", "unowned", "managed", "modified"]);
}

#[test]
fn unowned_and_externally_edited_files_are_preserved() {
    let p = path("/project/config.json");
    let state = state_owning(&p, b"generated");
    assert!(matches!(owned_snapshot(&state, &p, None), Ok(None)));
    assert!(matches!(owned_snapshot(&state, &p, Some(snap(b"generated", 1))), Ok(Some(_))));
    assert!(matches!(owned_snapshot(&state, &p, Some(snap(b"edited", 1))), Err(OwnershipFault::Modified(_))));
    assert!(matches!(owned_snapshot(&state, &path("/project/x"), Some(snap(b"x", 1))), Err(OwnershipFault::Unowned(_))));
}

#[test]
fn concurrent_replacements_are_noticed() {
    let expected = snap(b"same", 1);
    assert!(verify_current(Some(&snap(b"same", 1)), Some(&expected)));
    assert!(!verify_current(Some(&snap(b"same", 2)), Some(&expected)));
    assert!(!verify_current(None, Some(&expected)));
    assert!(verify_current(None, None));
    assert!(same_content(Some(&snap(b"same", 2)), Some(&expected)));
    assert!(!same_content(None, Some(&expected)));
}

#[test]
fn a_replaced_owned_output_is_not_deleted_by_clean() {
    let kept = path("/project/edited.json");
    let removed = path("/project/clean.json");
    let gone = path("/project/gone.json");
    let state = State {
        version: STATE_VERSION,
        root: path("/project"),
        generation: "g".into(),
        outputs: vec![
            Owned { path: kept.duplicate(), record: Record { hash: digest(b"generated") } },
            Owned { path: removed.duplicate(), record: Record { hash: digest(b"generated") } },
            Owned { path: gone.duplicate(), record: Record { hash: digest(b"generated") } },
        ],
    };
    let currents = vec![Ok(Some(snap(b"edited", 1))), Ok(Some(snap(b"generated", 2))), Ok(None)];
    let cleanup = plan_clean(&state, &path("/project/confset.pkl"), &currents);
    assert_eq!(cleanup.changes.len(), 1);
    assert_eq!(path_string(&cleanup.changes[0].path), "/project/clean.json");
    assert!(cleanup.changes[0].content.is_none());
    let preserved: Vec<String> = cleanup.preserved.iter().map(path_string).collect();
    assert_eq!(preserved, vec!["/project/edited.json"]);
    assert_eq!(cleanup.state.outputs.len(), 1);
    assert_eq!(path_string(&cleanup.state.outputs[0].path), "/project/edited.json");
}

#[test]
fn clean_uses_the_project_state_when_source_was_deleted() {
    let source = path("/project/confset.pkl");
    let out = path("/project/out.json");
    let mut state = state_owning(&out, b"generated");
    state.outputs.push(Owned { path: source.duplicate(), record: Record { hash: digest(b"source") } });
    let currents = vec![Ok(Some(snap(b"generated", 1))), Err(Failure { message: "unreadable".into() })];
    let cleanup = plan_clean(&state, &source, &currents);
    assert_eq!(cleanup.changes.len(), 1);
    assert_eq!(path_string(&cleanup.changes[0].path), "/project/out.json");
    let preserved: Vec<String> = cleanup.preserved.iter().map(path_string).collect();
    assert_eq!(preserved, vec!["/project/confset.pkl"]);
}

#[test]
fn a_state_is_accepted_only_for_this_project_with_sound_paths() {
    let root = path("/project");
    let state_dir = path("/project/.confset");
    let p = path("/project/a.json");
    assert!(check_state(state_owning(&p, b"x"), &root, &state_dir).is_ok());
    let mut twice = state_owning(&p, b"x");
    twice.outputs.push(Owned { path: p.duplicate(), record: Record { hash: digest(b"y") } });
    assert_eq!(check_state(twice, &root, &state_dir).err(), Some(StateFault::InvalidPath));
    let inside = state_owning(&path("/project/.confset/x"), b"x");
    assert_eq!(check_state(inside, &root, &state_dir).err(), Some(StateFault::InvalidPath));
    let foreign = state_owning(&p, b"x");
    assert_eq!(check_state(foreign, &path("/other"), &state_dir).err(), Some(StateFault::Foreign));
}
