use confset::ignore::{block, enabled, pattern, tracked_outputs, update, BlockFault, IgnoreFault, PatternFault};
use confset::path::{path_string, FsPath};

fn path(text: &str) -> FsPath {
    let mut parts = vec!["/".to_string()];
    for piece in text.split('/').filter(|piece| !piece.is_empty()) {
        parts.push(piece.to_string());
    }
    FsPath { parts }
}

fn names(text: &[&str]) -> Vec<String> {
    text.iter().map(|name| name.to_string()).collect()
}

const BLOCK: &str = "# BEGIN CONFSET GENERATED FILES\n.confset-stage-*\n/.oxfmtrc.json\n/.oxlintrc.json\n/.confset/\n# END CONFSET GENERATED FILES\n";

#[test]
fn patterns_are_anchored_and_escaped() {
    assert_eq!(pattern(&names(&[".oxlintrc.json"])).unwrap(), "/.oxlintrc.json");
    assert_eq!(
        pattern(&names(&["nested", "[one] space!.json"])).unwrap(),
        "/nested/\\[one\\]\\ space\\!.json"
    );
    assert_eq!(pattern(&names(&["a*b?#c"])).unwrap(), "/a\\*b\\?\\#c");
}

#[test]
fn patterns_refuse_paths_git_cannot_name() {
    assert_eq!(pattern(&names(&[])), Err(PatternFault::ProjectRoot));
    assert_eq!(pattern(&names(&["..", "x"])), Err(PatternFault::OutsideProject));
    assert_eq!(pattern(&names(&["a\nb"])), Err(PatternFault::LineBreak));
}

#[test]
fn the_block_is_found_between_its_markers() {
    let text: Vec<char> = format!("# mine\n{BLOCK}tail\n").chars().collect();
    let found = block(&text).unwrap().unwrap();
    assert_eq!(found, (7, 7 + BLOCK.chars().count()));
    let none: Vec<char> = "# mine\n".chars().collect();
    assert_eq!(block(&none).unwrap(), None);
}

#[test]
fn incomplete_and_repeated_markers_are_refused() {
    let incomplete: Vec<char> = "# BEGIN CONFSET GENERATED FILES\nhandwritten\n".chars().collect();
    assert_eq!(block(&incomplete), Err(BlockFault::Incomplete));
    let twice: Vec<char> = format!("{BLOCK}{BLOCK}").chars().collect();
    assert!(block(&twice).is_err());
}

#[test]
fn management_is_opt_in() {
    assert_eq!(enabled(None), Ok(false));
    assert_eq!(enabled(Some(b"# mine\n")), Ok(false));
    assert_eq!(enabled(Some(BLOCK.as_bytes())), Ok(true));
    assert_eq!(enabled(Some(b"# native comment \xff\nbuild/\n")), Ok(false));
    let mut broken = b"\xff\n".to_vec();
    broken.extend_from_slice(BLOCK.as_bytes());
    assert_eq!(enabled(Some(&broken)), Err(IgnoreFault::NotUtf8));
}

#[test]
fn ignore_management_is_opt_in_and_rejects_ambiguous_markers() {
    assert_eq!(enabled(Some(b"# mine\n")), Ok(false));
    let ambiguous = b"# BEGIN CONFSET GENERATED FILES\nhandwritten\n";
    assert_eq!(enabled(Some(ambiguous)), Err(IgnoreFault::Block(BlockFault::Incomplete)));
    let root = path("/project");
    let outputs = vec![path("/project/.oxlintrc.json")];
    assert!(matches!(
        update(&root, &outputs, Some(ambiguous)),
        Err(IgnoreFault::Block(BlockFault::Incomplete))
    ));
}

#[test]
fn a_new_block_is_sorted_and_follows_a_blank_line() {
    let root = path("/project");
    let outputs = vec![path("/project/.oxlintrc.json"), path("/project/.oxfmtrc.json"), path("/project/.oxlintrc.json")];
    let updated = update(&root, &outputs, Some(b"# mine\nnode_modules/")).unwrap();
    let text = String::from_utf8(updated.bytes).unwrap();
    assert_eq!(text, format!("# mine\nnode_modules/\n\n{BLOCK}"));
    assert!(updated.outside.is_empty());
}

#[test]
fn ignore_updates_preserve_manual_content_and_remove_obsolete_entries() {
    let root = path("/project");
    let first = update(&root, &vec![path("/project/.oxlintrc.json")], Some(b"# My rules\r\nnode_modules/\r\n")).unwrap();
    let before = String::from_utf8(first.bytes.clone()).unwrap();
    assert!(before.starts_with("# My rules\r\nnode_modules/\r\n"));
    assert!(before.contains("/.oxlintrc.json\r\n"));
    let again = update(&root, &vec![path("/project/.oxlintrc.json")], Some(&first.bytes)).unwrap();
    assert_eq!(again.bytes, first.bytes);
    let after = update(&root, &vec![path("/project/.prettierrc.json")], Some(&first.bytes)).unwrap();
    let after = String::from_utf8(after.bytes).unwrap();
    assert!(after.starts_with("# My rules\r\nnode_modules/\r\n"));
    assert!(!after.contains("/.oxlintrc.json"));
    assert!(after.contains("/.prettierrc.json\r\n"));
}

#[test]
fn unmanaged_bytes_and_other_managed_blocks_are_preserved() {
    let root = path("/project");
    let other = "# BEGIN ANOTHER TOOL\nother/\n# END ANOTHER TOOL\n";
    let updated = update(&root, &vec![path("/project/.oxlintrc.json")], Some(other.as_bytes())).unwrap();
    assert!(String::from_utf8(updated.bytes).unwrap().starts_with(other));
    assert_eq!(
        update(&root, &vec![], Some(b"# native comment \xff\nbuild/\n")).err(),
        Some(IgnoreFault::NotUtf8)
    );
}

#[test]
fn destinations_outside_the_project_are_reported() {
    let root = path("/project");
    let updated = update(&root, &vec![path("/elsewhere/tool.toml"), path("/project/a.json")], None).unwrap();
    let outside: Vec<String> = updated.outside.iter().map(path_string).collect();
    assert_eq!(outside, vec!["/elsewhere/tool.toml"]);
    let text = String::from_utf8(updated.bytes).unwrap();
    assert!(text.contains("/a.json\n"));
    assert!(!text.contains("tool.toml"));
}

#[test]
fn generated_glob_characters_are_literal_to_git() {
    let root = path("/project");
    let updated = update(&root, &vec![path("/project/nested/[one] space!.json")], None).unwrap();
    let text = String::from_utf8(updated.bytes).unwrap();
    assert!(text.contains("/nested/\\[one\\]\\ space\\!.json\n"));
}

#[test]
fn an_updated_file_keeps_its_block_enabled() {
    let root = path("/project");
    for original in [None, Some(&b"# mine"[..]), Some(&b"a\r\nb\r\n"[..]), Some(BLOCK.as_bytes())] {
        let updated = update(&root, &vec![path("/project/x.json")], original).unwrap();
        assert_eq!(enabled(Some(&updated.bytes)), Ok(true));
        let again = update(&root, &vec![path("/project/x.json")], Some(&updated.bytes)).unwrap();
        assert_eq!(again.bytes, updated.bytes);
    }
}

#[test]
fn a_last_line_ending_in_a_carriage_return_still_yields_a_block() {
    let root = path("/project");
    let updated = update(&root, &vec![path("/project/x.json")], Some(&b"keep\r"[..])).unwrap();
    assert!(updated.bytes.starts_with(b"keep\r\n\n# BEGIN CONFSET GENERATED FILES\n"));
    assert_eq!(enabled(Some(&updated.bytes)), Ok(true));
}

#[test]
fn a_lone_carriage_return_makes_the_next_update_follow_crlf() {
    let root = path("/project");
    let paths = vec![path("/project/x.json")];
    let once = update(&root, &paths, Some(&b"keep\r"[..])).unwrap();
    let twice = update(&root, &paths, Some(&once.bytes)).unwrap();
    assert_ne!(twice.bytes, once.bytes);
    let text = String::from_utf8(twice.bytes.clone()).unwrap();
    assert!(text.starts_with("keep\r\n\n# BEGIN CONFSET GENERATED FILES\r\n"));
    let thrice = update(&root, &paths, Some(&twice.bytes)).unwrap();
    assert_eq!(thrice.bytes, twice.bytes);
}

#[test]
fn tracked_outputs_are_reported_without_changing_the_index() {
    let root = path("/repo/project");
    let outputs = vec![path("/repo/project/.oxlintrc.json"), path("/repo/project/nested/a.json"), path("/elsewhere/x.json")];
    let listing = b"README.md\0project/.oxlintrc.json\0project/nested/b.json\0";
    let found: Vec<String> = tracked_outputs(&root, &outputs, listing, "project/").iter().map(path_string).collect();
    assert_eq!(found, vec!["/repo/project/.oxlintrc.json"]);
    assert!(tracked_outputs(&root, &outputs, listing, "").is_empty());
    assert!(tracked_outputs(&root, &outputs, b"project/.oxlintrc.json", "project/").len() == 1);
    assert!(tracked_outputs(&root, &outputs, b"xproject/.oxlintrc.json\0", "project/").is_empty());
}

#[test]
fn backslashes_in_names_are_compared_as_slashes() {
    let root = path("/project");
    let outputs = vec![path("/project/a\\b.json")];
    let found = tracked_outputs(&root, &outputs, b"a/b.json\0", "");
    assert_eq!(found.len(), 1);
}

#[test]
fn the_block_lists_staging_first_then_outputs_then_state() {
    let updated = update(&path("/p"), &vec![path("/p/.oxlintrc.json"), path("/p/.oxfmtrc.json")], None).unwrap();
    assert_eq!(
        updated.bytes,
        b"# BEGIN CONFSET GENERATED FILES\n.confset-stage-*\n/.oxfmtrc.json\n/.oxlintrc.json\n/.confset/\n# END CONFSET GENERATED FILES\n".to_vec()
    );
}
