use meshcore::pairing::PairingBook;

#[test]
fn token_is_single_use() {
    let mut b = PairingBook::new("mesh-1");
    let o = b.offer("192.168.1.2", 7070);
    assert_eq!(o.token.len(), 32);
    assert!(b.redeem(o.token.as_bytes(), "phone-1", "POCO F5"));
    assert!(!b.redeem(o.token.as_bytes(), "phone-2", "again"));
    assert!(b.is_paired("phone-1"));
    assert!(!b.redeem(b"00000000000000000000000000000000", "phone-3", "bogus"));
}

#[test]
fn offer_with_a_known_token_and_expiry() {
    let mut b = PairingBook::new("mesh-2");
    assert_eq!(b.mesh_id(), "mesh-2");
    let raw = [0xabu8; 16];
    let o = b.offer_with("10.0.0.1", 7070, &raw, 1_000);
    assert_eq!(o.token, "abababababababababababababababab");
    assert_eq!(o.mesh_id, "mesh-2");
    assert_eq!(o.host, "10.0.0.1");
    // Ten minutes later the token is gone.
    assert!(!b.redeem_at(o.token.as_bytes(), "late", "Late", 1_000 + 600_000));
    let o = b.offer_with("10.0.0.1", 7070, &raw, 2_000);
    // The raw bytes work too, and upper-case hex is accepted.
    assert!(b.redeem_at(&raw, "raw", "Raw", 2_500));
    b.offer_with("10.0.0.1", 7070, &raw, 3_000);
    assert!(b.redeem_at(o.token.to_uppercase().as_bytes(), "up", "Up", 3_001));
    assert!(b.is_paired("raw") && b.is_paired("up"));
    assert_eq!(b.paired().len(), 2);
    b.forget("raw");
    assert!(!b.is_paired("raw"));
    assert!(!b.redeem_at(b"short", "x", "x", 3_002));
}

#[test]
fn re_pairing_renames_the_device() {
    let mut b = PairingBook::new("m");
    let raw1 = [1u8; 16];
    let raw2 = [2u8; 16];
    b.offer_with("h", 1, &raw1, 0);
    b.offer_with("h", 1, &raw2, 0);
    assert!(b.redeem_at(&raw1, "d", "first", 1));
    assert!(b.redeem_at(&raw2, "d", "second", 2));
    assert_eq!(b.paired().len(), 1);
    assert_eq!(b.paired()[0].1, "second");
}
