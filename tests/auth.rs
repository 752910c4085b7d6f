use salvo_admin::auth::{authenticate, authorize_login, login, UserAccount};
use salvo_admin::error::AdminError;
use salvo_admin::model::{MenuNode, MenuStatus, MenuStore, MenuType, RoleMenu, UserRole};
use salvo_admin::token::{issue, verify, Identity};
use salvo_admin::wire::{hex_decode_from, hex_text};

fn node(id: i64, parent_id: i64, menu_type: MenuType, api_url: &str) -> MenuNode {
    MenuNode {
        id,
        parent_id,
        name: format!("node{}", id),
        icon: String::new(),
        api_url: api_url.to_string(),
        menu_type,
        path: String::new(),
        status: MenuStatus::Enabled,
        sort: id as i32,
    }
}

fn store() -> MenuStore {
    MenuStore {
        menus: vec![node(1, 0, MenuType::Directory, ""), node(10, 1, MenuType::Menu, "/a")],
        user_roles: vec![UserRole { user_id: 5, role_id: 2 }],
        role_menus: vec![RoleMenu { role_id: 2, menu_id: 10 }],
    }
}

fn account(id: i64) -> UserAccount {
    UserAccount {
        id,
        mobile: "13800000000".to_string(),
        user_name: "admin".to_string(),
        password: "pw".to_string(),
    }
}

#[test]
fn login_unknown_user_is_mismatch() {
    let r = authorize_login(&None, &"pw".to_string(), &store());
    assert_eq!(r.err(), Some(AdminError::CredentialMismatch));
}

#[test]
fn login_wrong_password_is_mismatch() {
    let r = authorize_login(&Some(account(5)), &"other".to_string(), &store());
    assert_eq!(r.err(), Some(AdminError::CredentialMismatch));
}

#[test]
fn login_without_permissions_fails() {
    let r = authorize_login(&Some(account(6)), &"pw".to_string(), &store());
    assert_eq!(r.err(), Some(AdminError::NoAssignedPermissions));
    let t = login(&Some(account(6)), &"pw".to_string(), &store(), &b"k".to_vec(), 0, 10);
    assert_eq!(t.err(), Some(AdminError::NoAssignedPermissions));
}

#[test]
fn login_grants_identity() {
    let id = authorize_login(&Some(account(5)), &"pw".to_string(), &store()).unwrap();
    assert_eq!(id.user_id, 5);
    assert_eq!(id.username, "admin");
    assert_eq!(id.permissions, vec!["/a".to_string()]);
}

#[test]
fn login_token_verifies() {
    let secret = b"k".to_vec();
    let text = login(&Some(account(5)), &"pw".to_string(), &store(), &secret, 100, 10).unwrap();
    assert!(text.bytes().all(|c| c.is_ascii_hexdigit()));
    let token = hex_decode_from(&text.as_bytes().to_vec(), 0).unwrap();
    let id = verify(&token, &secret, 105).unwrap();
    assert_eq!(id.user_id, 5);
    assert_eq!(id.permissions, vec!["/a".to_string()]);
    let header = format!("Bearer {}", text);
    let id = authenticate(Some(header.as_str()), &secret, 105).unwrap();
    assert_eq!(id.username, "admin");
}

#[test]
fn login_expiry_out_of_range() {
    let r = login(&Some(account(5)), &"pw".to_string(), &store(), &b"k".to_vec(), u64::MAX, 1);
    assert_eq!(r.err(), Some(AdminError::SigningFailed));
}

#[test]
fn gate_rejects_missing_token() {
    let secret = b"k".to_vec();
    assert_eq!(authenticate(None, &secret, 0).err(), Some(AdminError::MissingToken));
    assert_eq!(authenticate(Some(""), &secret, 0).err(), Some(AdminError::MissingToken));
    assert_eq!(authenticate(Some("Bearer "), &secret, 0).err(), Some(AdminError::MissingToken));
}

#[test]
fn gate_rejects_bad_text_and_expired_tokens() {
    let secret = b"k".to_vec();
    assert_eq!(authenticate(Some("Bearer zz"), &secret, 0).err(), Some(AdminError::InvalidToken));
    assert_eq!(authenticate(Some("Bearer 00"), &secret, 0).err(), Some(AdminError::InvalidToken));
    let id = Identity { user_id: 1, username: "u".to_string(), permissions: vec![] };
    let text = hex_text(&issue(&id, &secret, 10, 5).unwrap());
    assert_eq!(authenticate(Some(text.as_str()), &secret, 15).err(), Some(AdminError::TokenExpired));
    let back = authenticate(Some(text.as_str()), &secret, 14).unwrap();
    assert_eq!(back.user_id, 1);
}
