use blobshare::{digest, import_names, name_less, name_segments, Manifest, PathComponent, ShareError, WalkEntry};

fn sample() -> Manifest {
    let mut m = Manifest::new();
    assert!(m.insert("docs/sub/c.txt".to_string(), digest(b"c")));
    assert!(m.insert("docs/a.txt".to_string(), digest(b"a")));
    assert!(m.insert("docs/b.txt".to_string(), digest(b"a")));
    m
}

#[test]
fn entries_kept_in_name_order() {
    let m = sample();
    assert_eq!(m.len(), 3);
    let names: Vec<&str> = (0..m.len()).map(|i| m.entry(i).0).collect();
    assert_eq!(names, vec!["docs/a.txt", "docs/b.txt", "docs/sub/c.txt"]);
    assert_eq!(m.entry(0).1, digest(b"a"));
    assert_eq!(m.entry(1).1, digest(b"a"));
}

#[test]
fn duplicate_name_is_refused() {
    let mut m = sample();
    assert!(!m.insert("docs/a.txt".to_string(), digest(b"other")));
    assert_eq!(m.len(), 3);
    assert_eq!(m.entry(0).1, digest(b"a"));
}

#[test]
fn insertion_order_does_not_change_bytes_or_id() {
    let mut m = Manifest::new();
    m.insert("docs/b.txt".to_string(), digest(b"a"));
    m.insert("docs/sub/c.txt".to_string(), digest(b"c"));
    m.insert("docs/a.txt".to_string(), digest(b"a"));
    assert_eq!(m.to_bytes(), sample().to_bytes());
    assert_eq!(m.id(), sample().id());
    assert_eq!(m.id(), digest(&m.to_bytes()));
}

#[test]
fn manifest_bytes_layout() {
    let mut m = Manifest::new();
    m.insert("é".to_string(), [7u8; 32]);
    let mut want = vec![2u8, 0, 0, 0, 0xc3, 0xa9];
    want.extend_from_slice(&[7u8; 32]);
    assert_eq!(m.to_bytes(), want);
    assert_eq!(Manifest::new().to_bytes(), Vec::<u8>::new());
}

#[test]
fn manifest_round_trips() {
    let m = sample();
    let back = Manifest::from_bytes(&m.to_bytes()).unwrap();
    assert_eq!(back.len(), 3);
    for i in 0..3 {
        assert_eq!(back.entry(i), m.entry(i));
    }
    assert_eq!(Manifest::from_bytes(&[]).unwrap().len(), 0);
}

#[test]
fn malformed_manifest_bytes_rejected() {
    let bytes = sample().to_bytes();
    assert_eq!(Manifest::from_bytes(&bytes[..bytes.len() - 1]).err(), Some(ShareError::IntegrityMismatch));
    assert_eq!(Manifest::from_bytes(&[1, 0, 0]).err(), Some(ShareError::IntegrityMismatch));
    let mut bad_utf8 = vec![1u8, 0, 0, 0, 0xff];
    bad_utf8.extend_from_slice(&[0u8; 32]);
    assert_eq!(Manifest::from_bytes(&bad_utf8).err(), Some(ShareError::IntegrityMismatch));
    let mut unordered = Vec::new();
    for name in ["b", "a"] {
        unordered.extend_from_slice(&[1, 0, 0, 0]);
        unordered.extend_from_slice(name.as_bytes());
        unordered.extend_from_slice(&[0u8; 32]);
    }
    assert_eq!(Manifest::from_bytes(&unordered).err(), Some(ShareError::IntegrityMismatch));
}

#[test]
fn name_order_is_lexicographic() {
    assert!(name_less("a", "b"));
    assert!(name_less("a", "ab"));
    assert!(name_less("", "a"));
    assert!(!name_less("b", "ab"));
    assert!(!name_less("same", "same"));
    assert!(name_less("docs/a.txt", "docs/sub/c.txt"));
}

#[test]
fn name_segments_split_on_slash() {
    assert_eq!(name_segments("docs/sub/c.txt").unwrap(), vec!["docs", "sub", "c.txt"]);
    assert_eq!(name_segments("a.txt").unwrap(), vec!["a.txt"]);
    assert_eq!(name_segments("..."), Ok(vec!["...".to_string()]));
}

#[test]
fn escaping_names_rejected() {
    for bad in ["", "/etc/passwd", "docs/../../x", "./a", "a//b", "a/", "a\\b", ".."] {
        assert_eq!(name_segments(bad), Err(ShareError::InvalidPathComponent), "{}", bad);
    }
}

#[test]
fn tree_names_survive_manifest_round_trip() {
    let tree: Vec<Vec<&str>> = vec![vec!["docs", "a.txt"], vec!["docs", "b.txt"], vec!["docs", "sub", "c.txt"]];
    let entries: Vec<WalkEntry> = tree
        .iter()
        .map(|p| WalkEntry {
            components: p.iter().map(|s| PathComponent::Normal(Some(s.to_string()))).collect(),
            is_file: true,
        })
        .collect();
    let names = import_names(&entries).unwrap();
    let mut m = Manifest::new();
    for (i, n) in names.into_iter().enumerate() {
        assert!(m.insert(n, digest(&[i as u8 % 2])));
    }
    let back = Manifest::from_bytes(&m.to_bytes()).unwrap();
    for (i, p) in tree.iter().enumerate() {
        let (name, hash) = back.entry(i);
        assert_eq!(name_segments(name).unwrap(), *p);
        assert_eq!(hash, digest(&[i as u8 % 2]));
    }
}
