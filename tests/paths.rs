use blobshare::{canonicalized_path_to_string, import_names, PathComponent, ShareError, WalkEntry};

fn normal(s: &str) -> PathComponent {
    PathComponent::Normal(Some(s.to_string()))
}

fn file(parts: &[&str]) -> WalkEntry {
    WalkEntry { components: parts.iter().map(|p| normal(p)).collect(), is_file: true }
}

#[test]
fn relative_segments_joined_with_slash() {
    let p = vec![normal("docs"), normal("sub"), normal("c.txt")];
    assert_eq!(canonicalized_path_to_string(&p, true), Ok("docs/sub/c.txt".to_string()));
}

#[test]
fn single_file_keeps_its_name() {
    let p = vec![normal("a.txt")];
    assert_eq!(canonicalized_path_to_string(&p, true), Ok("a.txt".to_string()));
}

#[test]
fn empty_path_gives_empty_name() {
    assert_eq!(canonicalized_path_to_string(&[], true), Ok(String::new()));
}

#[test]
fn absolute_path_allowed_when_not_relative() {
    let p = vec![PathComponent::RootDir, normal("tmp"), normal("x")];
    assert_eq!(canonicalized_path_to_string(&p, false), Ok("/tmp/x".to_string()));
}

#[test]
fn root_rejected_when_relative_required() {
    let p = vec![PathComponent::RootDir, normal("tmp")];
    assert_eq!(canonicalized_path_to_string(&p, true), Err(ShareError::InvalidPathComponent));
}

#[test]
fn parent_and_current_dir_rejected() {
    let p = vec![normal("a"), PathComponent::ParentDir, normal("b")];
    assert_eq!(canonicalized_path_to_string(&p, false), Err(ShareError::InvalidPathComponent));
    let q = vec![PathComponent::CurDir, normal("b")];
    assert_eq!(canonicalized_path_to_string(&q, false), Err(ShareError::InvalidPathComponent));
    let r = vec![PathComponent::Prefix, normal("b")];
    assert_eq!(canonicalized_path_to_string(&r, false), Err(ShareError::InvalidPathComponent));
}

#[test]
fn separator_inside_segment_rejected() {
    let p = vec![normal("docs"), normal("a/b.txt")];
    assert_eq!(canonicalized_path_to_string(&p, true), Err(ShareError::InvalidPathComponent));
    let q = vec![normal("docs"), normal("a\\b.txt")];
    assert_eq!(canonicalized_path_to_string(&q, true), Err(ShareError::InvalidPathComponent));
}

#[test]
fn non_utf8_segment_rejected() {
    let p = vec![normal("docs"), PathComponent::Normal(None)];
    assert_eq!(canonicalized_path_to_string(&p, true), Err(ShareError::InvalidPathComponent));
}

#[test]
fn unicode_segments_kept() {
    let p = vec![normal("données"), normal("é.txt")];
    assert_eq!(canonicalized_path_to_string(&p, true), Ok("données/é.txt".to_string()));
}

#[test]
fn three_file_tree_names() {
    let entries = vec![
        WalkEntry { components: vec![normal("docs")], is_file: false },
        file(&["docs", "a.txt"]),
        file(&["docs", "b.txt"]),
        WalkEntry { components: vec![normal("docs"), normal("sub")], is_file: false },
        file(&["docs", "sub", "c.txt"]),
    ];
    let names = import_names(&entries).unwrap();
    assert_eq!(names, vec!["docs/a.txt", "docs/b.txt", "docs/sub/c.txt"]);
}

#[test]
fn import_skips_non_files_even_with_bad_names() {
    let entries = vec![
        WalkEntry { components: vec![normal("docs"), PathComponent::Normal(None)], is_file: false },
        file(&["docs", "a.txt"]),
    ];
    assert_eq!(import_names(&entries).unwrap(), vec!["docs/a.txt"]);
}

#[test]
fn import_with_separator_in_file_name_fails() {
    let entries = vec![file(&["docs", "a.txt"]), file(&["docs", "x\\y.txt"])];
    assert_eq!(import_names(&entries), Err(ShareError::InvalidPathComponent));
}

#[test]
fn import_of_empty_walk_is_empty() {
    assert_eq!(import_names(&[]).unwrap(), Vec::<String>::new());
}
