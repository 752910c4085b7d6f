use salvo_admin::error::AdminError;
use salvo_admin::token::{issue, verify, Identity};
use salvo_admin::wire::{hex_decode_from, hex_encode, hex_text};

fn identity() -> Identity {
    Identity {
        user_id: 42,
        username: "ada lovelace é".to_string(),
        permissions: vec!["/api/menu_list".to_string(), "/api/user_save".to_string()],
    }
}

fn same(a: &Identity, b: &Identity) -> bool {
    a.user_id == b.user_id && a.username == b.username && a.permissions == b.permissions
}

#[test]
fn token_round_trip() {
    let secret = b"configured secret".to_vec();
    let id = identity();
    let token = issue(&id, &secret, 1_000, 60).unwrap();
    let back = verify(&token, &secret, 1_059).unwrap();
    assert!(same(&back, &id));
}

#[test]
fn token_round_trip_negative_id_and_empty_lists() {
    let secret = Vec::new();
    let id = Identity { user_id: -7, username: String::new(), permissions: vec![] };
    let token = issue(&id, &secret, 0, 1).unwrap();
    let back = verify(&token, &secret, 0).unwrap();
    assert!(same(&back, &id));
}

#[test]
fn token_expires() {
    let secret = b"k".to_vec();
    let token = issue(&identity(), &secret, 1_000, 60).unwrap();
    assert_eq!(verify(&token, &secret, 1_060).err(), Some(AdminError::TokenExpired));
    assert_eq!(verify(&token, &secret, u64::MAX).err(), Some(AdminError::TokenExpired));
}

#[test]
fn expiry_out_of_range_fails_signing() {
    let secret = b"k".to_vec();
    assert_eq!(issue(&identity(), &secret, u64::MAX - 5, 6).err(), Some(AdminError::SigningFailed));
    assert!(issue(&identity(), &secret, u64::MAX - 5, 5).is_ok());
}

#[test]
fn flipping_any_byte_is_rejected() {
    let secret = b"configured secret".to_vec();
    let token = issue(&identity(), &secret, 1_000, 60).unwrap();
    for i in 0..token.len() {
        for mask in [0x01u8, 0x80u8, 0xffu8] {
            let mut t = token.clone();
            t[i] ^= mask;
            assert_eq!(verify(&t, &secret, 1_001).err(), Some(AdminError::InvalidToken), "byte {}", i);
        }
    }
}

#[test]
fn other_secret_is_rejected() {
    let token = issue(&identity(), &b"one".to_vec(), 1_000, 60).unwrap();
    assert_eq!(verify(&token, &b"two".to_vec(), 1_001).err(), Some(AdminError::InvalidToken));
}

#[test]
fn tag_depends_on_secret_and_payload() {
    let id = identity();
    let a = issue(&id, &b"one".to_vec(), 1_000, 60).unwrap();
    let b = issue(&id, &b"two".to_vec(), 1_000, 60).unwrap();
    assert_eq!(a.len(), b.len());
    assert_ne!(a, b);
    let payload_len = a.len() - 32;
    assert_eq!(a[..payload_len], b[..payload_len]);
}

#[test]
fn truncated_and_empty_tokens_are_rejected() {
    let secret = b"k".to_vec();
    let token = issue(&identity(), &secret, 1_000, 60).unwrap();
    assert_eq!(verify(&token[..token.len() - 1].to_vec(), &secret, 1_001).err(), Some(AdminError::InvalidToken));
    assert_eq!(verify(&Vec::new(), &secret, 1_001).err(), Some(AdminError::InvalidToken));
    let mut longer = token.clone();
    longer.push(0);
    assert_eq!(verify(&longer, &secret, 1_001).err(), Some(AdminError::InvalidToken));
}

#[test]
fn hex_encoding() {
    assert_eq!(hex_encode(&vec![0x00, 0xab, 0x1f]), b"00ab1f".to_vec());
    assert_eq!(hex_text(&vec![0xde, 0xad]), "dead");
    assert_eq!(hex_decode_from(&b"xx00ab1f".to_vec(), 2), Some(vec![0x00, 0xab, 0x1f]));
    assert_eq!(hex_decode_from(&b"0g".to_vec(), 0), None);
    assert_eq!(hex_decode_from(&b"abc".to_vec(), 0), None);
    assert_eq!(hex_decode_from(&b"AB".to_vec(), 0), None);
}
