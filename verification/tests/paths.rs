use confset::path::{absolute, path_key, path_string, sort_paths, FsPath};

fn path(text: &str) -> FsPath {
    let mut parts = vec!["/".to_string()];
    for piece in text.split('/').filter(|piece| !piece.is_empty()) {
        parts.push(piece.to_string());
    }
    FsPath { parts }
}

fn parts(p: &FsPath) -> Vec<String> {
    p.parts.clone()
}

#[test]
fn relative_text_joins_the_base() {
    let base = path("/project");
    let joined = absolute(&base, "config/web.json").ok().unwrap();
    assert_eq!(parts(&joined), parts(&path("/project/config/web.json")));
}

#[test]
fn absolute_text_ignores_the_base() {
    let base = path("/project");
    let joined = absolute(&base, "/etc/tool.toml").ok().unwrap();
    assert_eq!(parts(&joined), parts(&path("/etc/tool.toml")));
}

#[test]
fn dots_and_empty_pieces_are_normalized() {
    let base = path("/project/sub");
    let joined = absolute(&base, "./a//b/../c.json").ok().unwrap();
    assert_eq!(parts(&joined), parts(&path("/project/sub/a/c.json")));
    let up = absolute(&base, "../../x").ok().unwrap();
    assert_eq!(parts(&up), parts(&path("/x")));
}

#[test]
fn escaping_the_root_fails() {
    let base = path("/project");
    assert!(absolute(&base, "../../outside").is_err());
    assert!(absolute(&base, "/..").is_err());
}

#[test]
fn path_keys_are_the_display_text() {
    assert_eq!(path_string(&path("/a/b.json")), "/a/b.json");
    assert_eq!(path_string(&FsPath::root()), "/");
    let relative = FsPath { parts: vec!["a".to_string(), "b".to_string()] };
    assert_eq!(path_string(&relative), "a/b");
}

#[test]
fn sorted_paths_drop_repeats() {
    let input = vec![path("/b"), path("/a/z"), path("/b"), path("/a")];
    let sorted = sort_paths(&input);
    let keys: Vec<String> = sorted.iter().map(path_string).collect();
    assert_eq!(keys, vec!["/a", "/a/z", "/b"]);
}

#[test]
fn path_keys_fold_case_only_when_asked() {
    let p = path("/Project/Foo.JSON");
    assert_eq!(path_key(&p, false), "/Project/Foo.JSON");
    assert_eq!(path_key(&p, true), "/project/foo.json");
}

#[test]
fn absolute_results_are_fixed_points_and_rooted_texts_ignore_the_base() {
    let base = path("/project/sub");
    let r = absolute(&base, "../x/./y//z").unwrap();
    assert_eq!(path_string(&r), "/project/x/y/z");
    let again = absolute(&path("/elsewhere"), &path_string(&r)).unwrap();
    assert_eq!(path_string(&again), "/project/x/y/z");
    let one = absolute(&base, "/a/../b").unwrap();
    let two = absolute(&path("/other/place"), "/a/../b").unwrap();
    assert_eq!(path_string(&one), path_string(&two));
    assert_eq!(path_string(&absolute(&base, "/").unwrap()), "/");
}

#[test]
fn any_base_is_accepted_and_a_relative_result_is_refused() {
    let relative = FsPath { parts: vec!["rel".to_string(), "dir".to_string()] };
    assert!(absolute(&relative, "x.json").is_err());
    assert_eq!(path_string(&absolute(&relative, "/etc/x.json").unwrap()), "/etc/x.json");
    let empty = FsPath { parts: vec![] };
    assert!(absolute(&empty, "x.json").is_err());
    let unnormalized = FsPath { parts: vec!["/".to_string(), "a".to_string(), "..".to_string(), ".".to_string()] };
    assert_eq!(path_string(&absolute(&unnormalized, "b").unwrap()), "/b");
}
