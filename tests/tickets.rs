use blobshare::{digest, ContentKind, ShareError, Ticket};

fn node_key(seed: u8) -> [u8; 32] {
    *iroh_base::SecretKey::from_bytes(&[seed; 32]).public().as_bytes()
}

fn invalid_key() -> [u8; 32] {
    (0u8..=255)
        .map(|i| {
            let mut k = [0u8; 32];
            k[0] = i;
            k[1] = 0x7f;
            k
        })
        .find(|k| iroh_base::PublicKey::from_bytes(k).is_err())
        .unwrap()
}

#[test]
fn ticket_round_trips() {
    for (seed, kind) in [(1u8, ContentKind::Blob), (2, ContentKind::Manifest), (200, ContentKind::Blob)] {
        let t = Ticket::new(node_key(seed), digest(&[seed]), kind).unwrap();
        assert_eq!(Ticket::decode(&t.encode()), Ok(t));
    }
}

#[test]
fn ticket_text_shape() {
    let t = Ticket::new(node_key(3), [0xab; 32], ContentKind::Manifest).unwrap();
    let s = t.encode();
    assert_eq!(s.len(), 138);
    assert!(s.starts_with("blob"));
    assert!(s.chars().all(|c| c.is_ascii_alphanumeric()));
    assert!(s[4..].contains(&"ab".repeat(32)));
    assert_eq!(&s[132..134], "01");
}

#[test]
fn invalid_node_key_rejected() {
    assert_eq!(
        Ticket::new(invalid_key(), [0; 32], ContentKind::Blob),
        Err(ShareError::MalformedTicket)
    );
}

#[test]
fn decode_rejects_bad_texts() {
    let t = Ticket::new(node_key(4), digest(b"x"), ContentKind::Blob).unwrap();
    let s = t.encode();
    let bad = |x: &str| assert_eq!(Ticket::decode(x), Err(ShareError::MalformedTicket));
    bad("");
    bad(&s[..137]);
    bad(&format!("{}0", s));
    bad(&format!("blab{}", &s[4..]));
    bad(&s.to_uppercase());
    let mut flipped: Vec<char> = s.chars().collect();
    flipped[40] = if flipped[40] == '0' { '1' } else { '0' };
    bad(&flipped.iter().collect::<String>());
    let mut kind: Vec<char> = s.chars().collect();
    kind[133] = '2';
    kind[137] = std::char::from_digit((kind[137].to_digit(16).unwrap() + 1) % 16, 16).unwrap();
    bad(&kind.iter().collect::<String>());
}
