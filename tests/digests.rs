use blobshare::{check_digest, digest, digest_stream, same_id, verify_content, ShareError};

fn hex(b: &[u8]) -> String {
    b.iter().map(|x| format!("{:02x}", x)).collect()
}

#[test]
fn digest_of_empty_input() {
    assert_eq!(
        hex(&digest(b"")),
        "af1349b9f5f9a1a6a0404dea36dcc9499bcb25c9adc112b7cc9a93cae41f3262"
    );
}

#[test]
fn digest_is_deterministic() {
    assert_eq!(digest(b"hello world"), digest(b"hello world"));
}

#[test]
fn distinct_inputs_have_distinct_digests() {
    let mut seen = std::collections::HashSet::new();
    for i in 0u32..2000 {
        assert!(seen.insert(digest(&i.to_le_bytes())));
    }
    assert_ne!(digest(b"a"), digest(b"b"));
    assert_ne!(digest(b""), digest(&[0u8]));
}

#[test]
fn stream_digest_matches_whole_digest() {
    let chunks = vec![b"hel".to_vec(), Vec::new(), b"lo wor".to_vec(), b"ld".to_vec()];
    assert_eq!(digest_stream(&chunks), digest(b"hello world"));
    assert_eq!(digest_stream(&Vec::new()), digest(b""));
}

#[test]
fn same_id_compares_all_bytes() {
    let a = [1u8; 32];
    let mut b = a;
    assert!(same_id(&a, &b));
    b[31] = 2;
    assert!(!same_id(&a, &b));
}

#[test]
fn intact_content_accepted() {
    let data = b"content of a.txt".to_vec();
    let id = digest(&data);
    assert_eq!(verify_content(&id, &data), Ok(()));
    assert_eq!(check_digest(&id, &digest(&data)), Ok(()));
}

#[test]
fn corrupted_content_rejected() {
    let data = b"content of a.txt".to_vec();
    let id = digest(&data);
    let mut bad = data.clone();
    bad[0] ^= 1;
    assert_eq!(verify_content(&id, &bad), Err(ShareError::IntegrityMismatch));
    assert_eq!(check_digest(&id, &digest(&bad)), Err(ShareError::IntegrityMismatch));
}
