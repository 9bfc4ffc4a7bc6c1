use blobshare::{
    digest, import_names, name_segments, BlobStore, ContentKind, Manifest, PathComponent, ShareError,
    Ticket, WalkEntry,
};

#[test]
fn put_then_get_returns_bytes() {
    let mut s = BlobStore::new();
    let id = s.put(b"hello".to_vec());
    assert_eq!(id, digest(b"hello"));
    assert!(s.contains(&id));
    assert_eq!(s.get(&id).unwrap(), &b"hello".to_vec());
}

#[test]
fn unknown_id_not_found() {
    let mut s = BlobStore::new();
    assert_eq!(s.get(&digest(b"x")), Err(ShareError::NotFound));
    s.put(b"y".to_vec());
    assert_eq!(s.get(&digest(b"x")), Err(ShareError::NotFound));
    assert!(!s.contains(&digest(b"x")));
}

#[test]
fn identical_content_is_stored_once() {
    let mut s = BlobStore::new();
    let a = s.put(b"same".to_vec());
    let other = s.put(b"other".to_vec());
    let b = s.put(b"same".to_vec());
    assert_eq!(a, b);
    assert_ne!(a, other);
    assert_eq!(s.get(&a).unwrap(), &b"same".to_vec());
    assert_eq!(s.get(&other).unwrap(), &b"other".to_vec());
}

#[test]
fn empty_content_has_its_own_id() {
    let mut s = BlobStore::new();
    let id = s.put(Vec::new());
    assert_eq!(id, digest(b""));
    assert_eq!(s.get(&id).unwrap(), &Vec::<u8>::new());
}

#[test]
fn corrupted_fetch_leaves_store_untouched() {
    let mut s = BlobStore::new();
    let expected = digest(b"payload");
    assert_eq!(s.put_fetched(&expected, b"paylaod".to_vec()), Err(ShareError::IntegrityMismatch));
    assert_eq!(s.get(&expected), Err(ShareError::NotFound));
    assert!(!s.contains(&digest(b"paylaod")));
    assert_eq!(s.put_fetched(&expected, b"payload".to_vec()), Ok(()));
    assert_eq!(s.get(&expected).unwrap(), &b"payload".to_vec());
}

#[test]
fn three_file_tree_moves_between_stores() {
    let files: Vec<(Vec<&str>, &[u8])> = vec![
        (vec!["docs", "a.txt"], b"alpha"),
        (vec!["docs", "b.txt"], b"alpha"),
        (vec!["docs", "sub", "c.txt"], b"gamma\n"),
    ];
    let entries: Vec<WalkEntry> = files
        .iter()
        .map(|(p, _)| WalkEntry {
            components: p.iter().map(|s| PathComponent::Normal(Some(s.to_string()))).collect(),
            is_file: true,
        })
        .collect();
    let mut sender = BlobStore::new();
    let mut manifest = Manifest::new();
    for (name, (_, bytes)) in import_names(&entries).unwrap().into_iter().zip(&files) {
        let id = sender.put(bytes.to_vec());
        assert!(manifest.insert(name, id));
    }
    let root = sender.put(manifest.to_bytes());
    let node = *iroh_base::SecretKey::from_bytes(&[9; 32]).public().as_bytes();
    let text = Ticket::new(node, root, ContentKind::Manifest).unwrap().encode();

    let ticket = Ticket::decode(&text).unwrap();
    assert_eq!(ticket.kind, ContentKind::Manifest);
    let mut receiver = BlobStore::new();
    let fetched = sender.get(&ticket.hash).unwrap().clone();
    receiver.put_fetched(&ticket.hash, fetched).unwrap();
    let got = Manifest::from_bytes(receiver.get(&ticket.hash).unwrap()).unwrap();
    assert_eq!(got.len(), 3);
    for i in 0..got.len() {
        let (name, id) = got.entry(i);
        receiver.put_fetched(&id, sender.get(&id).unwrap().clone()).unwrap();
        let segments = name_segments(name).unwrap();
        let (path, bytes) = &files[i];
        assert_eq!(segments, *path);
        assert_eq!(receiver.get(&id).unwrap().as_slice(), *bytes);
    }
}
