use crate::error::AdminError;
use crate::model::MenuStore;
use crate::resolver::{grants, is_button_url, is_included, is_privileged, resolve_user_permissions, string_views};
use crate::token::{Identity, claims_of, issue, signed_token, verify, verify_post};
use crate::wire::{bearer_prefix, hex_decode_from, hex_text, is_hex_of, token_start};
use vstd::prelude::*;
use vstd::slice::slice_to_vec;
use vstd::utf8::encode_utf8;

verus! {

/// A user account as the login flow reads it.
#[derive(Debug, Clone)]
pub struct UserAccount {
    pub id: i64,
    pub mobile: String,
    pub user_name: String,
    pub password: String,
}

/// The credential matches and the user's roles grant at least one route.
pub open spec fn login_allowed(found: Option<UserAccount>, password: Seq<char>, store: MenuStore) -> bool {
    found matches Some(u) && u.password@ == password && exists|url: Seq<char>| is_button_url(store, u.id, url)
}

/// The login decision for the account found by its identifier (if any): an
/// absent account or another password is a credential mismatch; a user
/// without routes has no assigned permissions; else the identity carries the
/// user's id, name and button urls.
pub open spec fn login_post(
    found: Option<UserAccount>,
    password: Seq<char>,
    store: MenuStore,
    r: Result<Identity, AdminError>,
) -> bool {
    match found {
        None => r == Err::<Identity, AdminError>(AdminError::CredentialMismatch),
        Some(u) => if u.password@ != password {
            r == Err::<Identity, AdminError>(AdminError::CredentialMismatch)
        } else if forall|url: Seq<char>| !#[trigger] is_button_url(store, u.id, url) {
            r == Err::<Identity, AdminError>(AdminError::NoAssignedPermissions)
        } else {
            r matches Ok(id) && id.user_id == u.id && id.username@ == u.user_name@ && string_views(
                id.permissions@,
            ).no_duplicates() && forall|url: Seq<char>|
                string_views(id.permissions@).contains(url) <==> #[trigger] is_button_url(store, u.id, url)
        },
    }
}

/// Decides a login for the account found by its identifier.
pub fn authorize_login(found: &Option<UserAccount>, password: &String, store: &MenuStore) -> (r: Result<Identity, AdminError>)
    ensures
        login_post(*found, password@, *store, r),
{
    match found {
        None => Err(AdminError::CredentialMismatch),
        Some(user) => {
            if user.password != *password {
                return Err(AdminError::CredentialMismatch);
            }
            let p = resolve_user_permissions(store, user.id);
            if p.button_urls.len() == 0 {
                proof {
                    assert forall|url: Seq<char>| !#[trigger] is_button_url(*store, user.id, url) by {
                        if is_button_url(*store, user.id, url) {
                            assert(string_views(p.button_urls@).contains(url));
                        }
                    }
                }
                return Err(AdminError::NoAssignedPermissions);
            }
            proof {
                let url = string_views(p.button_urls@)[0];
                assert(string_views(p.button_urls@).contains(url));
                assert(is_button_url(*store, user.id, url));
            }
            Ok(Identity { user_id: user.id, username: user.user_name.clone(), permissions: p.button_urls })
        },
    }
}

/// Logs in: decides as `authorize_login` does, then issues a token for the
/// identity at `now`, valid for `ttl` seconds, as hexadecimal text.
pub fn login(
    found: &Option<UserAccount>,
    password: &String,
    store: &MenuStore,
    secret: &Vec<u8>,
    now: u64,
    ttl: u64,
) -> (r: Result<String, AdminError>)
    ensures
        !login_allowed(*found, password@, *store) ==> exists|e: AdminError|
            login_post(*found, password@, *store, Err(e)) && r == Err::<String, AdminError>(e),
        login_allowed(*found, password@, *store) && now + ttl > u64::MAX ==> r == Err::<String, AdminError>(
            AdminError::SigningFailed,
        ),
        login_allowed(*found, password@, *store) && now + ttl <= u64::MAX ==> (r matches Ok(text) && exists|id: Identity|
            login_post(*found, password@, *store, Ok(id)) && is_hex_of(
                encode_utf8(text@),
                signed_token(secret@, claims_of(id@, now, (now + ttl) as u64)),
            )),
{
    let decision = authorize_login(found, password, store);
    match decision {
        Err(e) => Err(e),
        Ok(identity) => {
            let issued = issue(&identity, secret, now, ttl);
            match issued {
                Err(e) => Err(e),
                Ok(token) => Ok(hex_text(&token)),
            }
        },
    }
}

/// The outcome for a request's authorization header: no header or
/// an empty token is a missing token; text that is not a token's hexadecimal
/// form is an invalid token; else the token is verified.
pub open spec fn authentication_post(header: Option<Seq<char>>, secret: Seq<u8>, now: u64, r: Result<Identity, AdminError>) -> bool {
    match header {
        None => r == Err::<Identity, AdminError>(AdminError::MissingToken),
        Some(h) => {
            let b = encode_utf8(h);
            let body = b.subrange(token_start(b), b.len() as int);
            &&& body.len() == 0 ==> r == Err::<Identity, AdminError>(AdminError::MissingToken)
            &&& body.len() > 0 && (forall|t: Seq<u8>| !#[trigger] is_hex_of(body, t))
                ==> r == Err::<Identity, AdminError>(AdminError::InvalidToken)
            &&& body.len() > 0 ==> forall|t: Seq<u8>| #[trigger] is_hex_of(body, t) ==> verify_post(t, secret, now, r)
        },
    }
}

/// Checks a request's authorization header (optionally "Bearer " and the
/// token's hexadecimal text) and hands back the identity it speaks for.
pub fn authenticate(header: Option<&str>, secret: &Vec<u8>, now: u64) -> (r: Result<Identity, AdminError>)
    ensures
        authentication_post(
            match header {
                Some(h) => Some(h@),
                None => None,
            },
            secret@,
            now,
            r,
        ),
{
    let h = match header {
        None => {
            return Err(AdminError::MissingToken);
        },
        Some(h) => h,
    };
    let bytes = slice_to_vec(h.as_bytes());
    let n = bytes.len();
    let start: usize = if n >= 7 && bytes[0] == 66u8 && bytes[1] == 101u8 && bytes[2] == 97u8 && bytes[3] == 114u8
        && bytes[4] == 101u8 && bytes[5] == 114u8 && bytes[6] == 32u8 {
        7
    } else {
        0
    };
    proof {
        if n >= 7 {
            if bytes@.subrange(0, 7) == bearer_prefix() {
                assert(bytes@.subrange(0, 7)[0] == 66u8);
                assert(bytes@.subrange(0, 7)[6] == 32u8);
                assert(bytes@.subrange(0, 7)[1] == 101u8);
                assert(bytes@.subrange(0, 7)[2] == 97u8);
                assert(bytes@.subrange(0, 7)[3] == 114u8);
                assert(bytes@.subrange(0, 7)[4] == 101u8);
                assert(bytes@.subrange(0, 7)[5] == 114u8);
            }
            if start == 7 {
                assert(bytes@.subrange(0, 7) =~= bearer_prefix());
            }
        }
        assert(start as int == token_start(bytes@));
    }
    if start == n {
        return Err(AdminError::MissingToken);
    }
    match hex_decode_from(&bytes, start) {
        None => Err(AdminError::InvalidToken),
        Some(token) => verify(&token, secret, now),
    }
}

/// A user who is not privileged and whose roles grant no node cannot log in:
/// with a matching credential the login fails for want of permissions.
pub proof fn lemma_no_grants_login_fails(
    store: MenuStore,
    user: UserAccount,
    password: Seq<char>,
    r: Result<Identity, AdminError>,
)
    requires
        !is_privileged(store, user.id),
        forall|id: i64| !grants(store.user_roles@, store.role_menus@, user.id, id),
        user.password@ == password,
        login_post(Some(user), password, store, r),
    ensures
        r == Err::<Identity, AdminError>(AdminError::NoAssignedPermissions),
{
    assert forall|id: i64| !is_included(store, user.id, id) by {}
    assert forall|url: Seq<char>| !#[trigger] is_button_url(store, user.id, url) by {}
}

} // verus!
