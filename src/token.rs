use crate::error::AdminError;
use crate::resolver::string_views;
use crate::wire::string_from_utf8;
use hmac::{Hmac, Mac};
use sha2::Sha256;
use vstd::prelude::*;
use vstd::utf8::{encode_utf8, encode_utf8_decode_utf8, encode_utf8_valid_utf8};

verus! {

/// Who a token speaks for: the user, the user's name, and the routes that
/// the user may call.
#[derive(Debug, Clone)]
pub struct Identity {
    pub user_id: i64,
    pub username: String,
    pub permissions: Vec<String>,
}

/// The mathematical value of an identity.
pub struct IdentityView {
    pub user_id: i64,
    pub username: Seq<char>,
    pub permissions: Seq<Seq<char>>,
}

impl View for Identity {
    type V = IdentityView;

    open spec fn view(&self) -> IdentityView {
        IdentityView {
            user_id: self.user_id,
            username: self.username@,
            permissions: string_views(self.permissions@),
        }
    }
}

/// What a token carries: an identity with its issue and expiry times (seconds).
pub struct TokenClaims {
    pub identity: IdentityView,
    pub issued_at: u64,
    pub expires_at: u64,
}

/// The HMAC-SHA256 tag of a message under a key.
pub uninterp spec fn hmac_sha256_of(key: Seq<u8>, msg: Seq<u8>) -> Seq<u8>;

/// Relies on hmac's `Hmac<Sha256>` (new_from_slice, update, finalize): the
/// HMAC-SHA256 tag of the message under the key, 32 bytes; any key length is
/// accepted.
#[verifier::external_body]
fn hmac_sha256(key: &[u8], msg: &[u8]) -> (r: Vec<u8>)
    ensures
        r@ == hmac_sha256_of(key@, msg@),
        r@.len() == 32,
{
    let mut mac = <Hmac<Sha256> as Mac>::new_from_slice(key).expect("HMAC takes a key of any length");
    mac.update(msg);
    mac.finalize().into_bytes().to_vec()
}

/// The eight big-endian bytes of a number.
pub open spec fn be_bytes(x: u64) -> Seq<u8> {
    seq![
        (x >> 56u64) as u8,
        (x >> 48u64) as u8,
        (x >> 40u64) as u8,
        (x >> 32u64) as u8,
        (x >> 24u64) as u8,
        (x >> 16u64) as u8,
        (x >> 8u64) as u8,
        x as u8,
    ]
}

/// A string as a field: its UTF-8 length, then its UTF-8 bytes.
pub open spec fn str_field(s: Seq<char>) -> Seq<u8> {
    be_bytes(encode_utf8(s).len() as u64) + encode_utf8(s)
}

/// A list of strings as the fields of its items, one after the other.
pub open spec fn list_field(ss: Seq<Seq<char>>) -> Seq<u8>
    decreases ss.len(),
{
    if ss.len() == 0 {
        seq![]
    } else {
        list_field(ss.drop_last()) + str_field(ss.last())
    }
}

/// The string's UTF-8 length fits the length field.
pub open spec fn str_fits(s: Seq<char>) -> bool {
    encode_utf8(s).len() <= u64::MAX
}

/// Every length in the claims fits its field.
pub open spec fn claims_fit(c: TokenClaims) -> bool {
    &&& str_fits(c.identity.username)
    &&& c.identity.permissions.len() <= u64::MAX
    &&& forall|i: int| 0 <= i < c.identity.permissions.len() ==> str_fits(#[trigger] c.identity.permissions[i])
}

/// The payload of a token: user id, issue time, expiry time, user name, the
/// number of permissions, and the permissions.
pub open spec fn encode_claims(c: TokenClaims) -> Seq<u8> {
    be_bytes(c.identity.user_id as u64) + be_bytes(c.issued_at) + be_bytes(c.expires_at) + str_field(
        c.identity.username,
    ) + be_bytes(c.identity.permissions.len() as u64) + list_field(c.identity.permissions)
}

/// A token: the payload followed by its tag under the secret.
pub open spec fn signed_token(secret: Seq<u8>, c: TokenClaims) -> Seq<u8> {
    encode_claims(c) + hmac_sha256_of(secret, encode_claims(c))
}

/// The bytes start with the claims' payload.
pub open spec fn starts_with_claims(b: Seq<u8>, c: TokenClaims) -> bool {
    encode_claims(c).len() <= b.len() && b.subrange(0, encode_claims(c).len() as int) == encode_claims(c)
}

proof fn lemma_be_bytes_injective(x: u64, y: u64)
    requires
        be_bytes(x) == be_bytes(y),
    ensures
        x == y,
{
    assert(be_bytes(x)[0] == be_bytes(y)[0]);
    assert(be_bytes(x)[1] == be_bytes(y)[1]);
    assert(be_bytes(x)[2] == be_bytes(y)[2]);
    assert(be_bytes(x)[3] == be_bytes(y)[3]);
    assert(be_bytes(x)[4] == be_bytes(y)[4]);
    assert(be_bytes(x)[5] == be_bytes(y)[5]);
    assert(be_bytes(x)[6] == be_bytes(y)[6]);
    assert(be_bytes(x)[7] == be_bytes(y)[7]);
    assert(((x >> 56u64) as u8 == (y >> 56u64) as u8 && (x >> 48u64) as u8 == (y >> 48u64) as u8
        && (x >> 40u64) as u8 == (y >> 40u64) as u8 && (x >> 32u64) as u8 == (y >> 32u64) as u8
        && (x >> 24u64) as u8 == (y >> 24u64) as u8 && (x >> 16u64) as u8 == (y >> 16u64) as u8
        && (x >> 8u64) as u8 == (y >> 8u64) as u8 && x as u8 == y as u8) ==> x == y) by (bit_vector);
}

fn put_u64(out: &mut Vec<u8>, x: u64)
    ensures
        final(out)@ == old(out)@ + be_bytes(x),
{
    out.push((x >> 56u64) as u8);
    out.push((x >> 48u64) as u8);
    out.push((x >> 40u64) as u8);
    out.push((x >> 32u64) as u8);
    out.push((x >> 24u64) as u8);
    out.push((x >> 16u64) as u8);
    out.push((x >> 8u64) as u8);
    out.push(x as u8);
    assert(final(out)@ =~= old(out)@ + be_bytes(x));
}

fn read_u64(b: &Vec<u8>, pos: usize) -> (r: Option<u64>)
    ensures
        r matches Some(x) ==> pos + 8 <= b@.len() && b@.subrange(pos as int, pos + 8) == be_bytes(x),
        pos + 8 <= b@.len() ==> r is Some,
{
    if pos > b.len() || b.len() - pos < 8 {
        return None;
    }
    let b0 = b[pos];
    let b1 = b[pos + 1];
    let b2 = b[pos + 2];
    let b3 = b[pos + 3];
    let b4 = b[pos + 4];
    let b5 = b[pos + 5];
    let b6 = b[pos + 6];
    let b7 = b[pos + 7];
    let x: u64 = (b0 as u64) << 56u64 | (b1 as u64) << 48u64 | (b2 as u64) << 40u64 | (b3 as u64) << 32u64
        | (b4 as u64) << 24u64 | (b5 as u64) << 16u64 | (b6 as u64) << 8u64 | (b7 as u64);
    assert((x >> 56u64) as u8 == b0 && (x >> 48u64) as u8 == b1 && (x >> 40u64) as u8 == b2
        && (x >> 32u64) as u8 == b3 && (x >> 24u64) as u8 == b4 && (x >> 16u64) as u8 == b5
        && (x >> 8u64) as u8 == b6 && x as u8 == b7) by (bit_vector)
        requires
            x == (b0 as u64) << 56u64 | (b1 as u64) << 48u64 | (b2 as u64) << 40u64 | (b3 as u64) << 32u64
                | (b4 as u64) << 24u64 | (b5 as u64) << 16u64 | (b6 as u64) << 8u64 | (b7 as u64),
    ;
    assert(b@.subrange(pos as int, pos + 8) =~= be_bytes(x));
    Some(x)
}

fn put_string(out: &mut Vec<u8>, s: &String)
    ensures
        final(out)@ == old(out)@ + str_field(s@),
        str_fits(s@),
{
    let bytes = s.as_str().as_bytes();
    let n = bytes.len();
    assert(bytes@ == encode_utf8(s@));
    put_u64(out, n as u64);
    let ghost start = out@;
    let mut i: usize = 0;
    while i < n
        invariant
            i <= n,
            n == bytes@.len(),
            out@ == start + bytes@.subrange(0, i as int),
        decreases n - i,
    {
        out.push(bytes[i]);
        assert(bytes@.subrange(0, i + 1) == bytes@.subrange(0, i as int).push(bytes@[i as int]));
        i = i + 1;
    }
    assert(bytes@.subrange(0, n as int) == bytes@);
}

fn read_string(b: &Vec<u8>, pos: usize) -> (r: Option<(String, usize)>)
    ensures
        r matches Some((s, e)) ==> pos <= e <= b@.len() && b@.subrange(pos as int, e as int) == str_field(s@)
            && str_fits(s@),
        forall|s: Seq<char>|
            str_fits(s) && pos + str_field(s).len() <= b@.len() && b@.subrange(pos as int, pos + str_field(s).len())
                == #[trigger] str_field(s) ==> (r matches Some((t, e)) && t@ == s && e == pos + str_field(s).len()),
{
    let blen = b.len();
    let len_field = read_u64(b, pos);
    let n = match len_field {
        Some(n) => n,
        None => {
            proof {
                assert forall|s: Seq<char>|
                    str_fits(s) && pos + str_field(s).len() <= b@.len() && b@.subrange(pos as int, pos + str_field(s).len())
                        == #[trigger] str_field(s) implies false by {}
            }
            return None;
        },
    };
    assert(pos + 8 <= blen);
    let start = pos + 8;
    if n > (blen - start) as u64 {
        proof {
            assert forall|s: Seq<char>|
                str_fits(s) && pos + str_field(s).len() <= b@.len() && b@.subrange(pos as int, pos + str_field(s).len())
                    == #[trigger] str_field(s) implies false by {
                assert(b@.subrange(pos as int, pos + 8) == str_field(s).subrange(0, 8));
                assert(str_field(s).subrange(0, 8) == be_bytes(encode_utf8(s).len() as u64));
                lemma_be_bytes_injective(n, encode_utf8(s).len() as u64);
            }
        }
        return None;
    }
    let end = start + n as usize;
    let mut bytes: Vec<u8> = Vec::new();
    let mut i: usize = start;
    while i < end
        invariant
            start <= i <= end,
            end <= b@.len(),
            bytes@ == b@.subrange(start as int, i as int),
        decreases end - i,
    {
        bytes.push(b[i]);
        assert(b@.subrange(start as int, i + 1) == b@.subrange(start as int, i as int).push(b@[i as int]));
        i = i + 1;
    }
    let ghost content = bytes@;
    match string_from_utf8(bytes) {
        Some(s) => {
            proof {
                assert(encode_utf8(s@).len() == n);
                assert(b@.subrange(pos as int, end as int) =~= b@.subrange(pos as int, start as int) + content);
                assert forall|t: Seq<char>|
                    str_fits(t) && pos + str_field(t).len() <= b@.len() && b@.subrange(pos as int, pos + str_field(t).len())
                        == #[trigger] str_field(t) implies s@ == t && end == pos + str_field(t).len() by {
                    assert(b@.subrange(pos as int, pos + 8) == str_field(t).subrange(0, 8));
                    assert(str_field(t).subrange(0, 8) == be_bytes(encode_utf8(t).len() as u64));
                    lemma_be_bytes_injective(n, encode_utf8(t).len() as u64);
                    assert(content == str_field(t).subrange(8, str_field(t).len() as int));
                    assert(content == encode_utf8(t));
                    encode_utf8_decode_utf8(t);
                    encode_utf8_decode_utf8(s@);
                }
            }
            Some((s, end))
        },
        None => {
            proof {
                assert forall|t: Seq<char>|
                    str_fits(t) && pos + str_field(t).len() <= b@.len() && b@.subrange(pos as int, pos + str_field(t).len())
                        == #[trigger] str_field(t) implies false by {
                    assert(b@.subrange(pos as int, pos + 8) == str_field(t).subrange(0, 8));
                    assert(str_field(t).subrange(0, 8) == be_bytes(encode_utf8(t).len() as u64));
                    lemma_be_bytes_injective(n, encode_utf8(t).len() as u64);
                    assert(content == str_field(t).subrange(8, str_field(t).len() as int));
                    assert(content == encode_utf8(t));
                    encode_utf8_valid_utf8(t);
                }
            }
            None
        },
    }
}

proof fn lemma_string_views_push(v: Seq<String>, s: String)
    ensures
        string_views(v.push(s)) == string_views(v).push(s@),
{
    assert(string_views(v.push(s)) =~= string_views(v).push(s@));
}

proof fn lemma_list_field_step(ss: Seq<Seq<char>>, i: int)
    requires
        0 <= i < ss.len(),
    ensures
        list_field(ss.take(i + 1)) == list_field(ss.take(i)) + str_field(ss[i]),
{
    assert(ss.take(i + 1).drop_last() == ss.take(i));
    assert(ss.take(i + 1).last() == ss[i]);
}

proof fn lemma_list_field_prefix(ss: Seq<Seq<char>>, i: int)
    requires
        0 <= i <= ss.len(),
    ensures
        list_field(ss.take(i)).len() <= list_field(ss).len(),
        list_field(ss).subrange(0, list_field(ss.take(i)).len() as int) == list_field(ss.take(i)),
    decreases ss.len(),
{
    if i == ss.len() {
        assert(ss.take(i) == ss);
    } else {
        let d = ss.drop_last();
        lemma_list_field_prefix(d, i);
        assert(d.take(i) == ss.take(i));
        assert(list_field(ss) == list_field(d) + str_field(ss.last()));
        assert(list_field(ss).subrange(0, list_field(d).len() as int) == list_field(d));
    }
}

fn put_list(out: &mut Vec<u8>, v: &Vec<String>)
    ensures
        final(out)@ == old(out)@ + list_field(string_views(v@)),
        forall|i: int| 0 <= i < v@.len() ==> str_fits(#[trigger] string_views(v@)[i]),
{
    let ghost start = out@;
    let mut i: usize = 0;
    while i < v.len()
        invariant
            i <= v@.len(),
            out@ == start + list_field(string_views(v@).take(i as int)),
            forall|k: int| 0 <= k < i ==> str_fits(#[trigger] string_views(v@)[k]),
        decreases v@.len() - i,
    {
        put_string(out, &v[i]);
        proof {
            lemma_list_field_step(string_views(v@), i as int);
        }
        i = i + 1;
    }
    assert(string_views(v@).take(v@.len() as int) == string_views(v@));
}

/// A list read back from bytes: `count` items from `pos` on.
pub open spec fn is_list_at(b: Seq<u8>, pos: int, count: u64, ss: Seq<Seq<char>>) -> bool {
    &&& ss.len() == count
    &&& forall|i: int| 0 <= i < ss.len() ==> str_fits(#[trigger] ss[i])
    &&& pos + list_field(ss).len() <= b.len()
    &&& b.subrange(pos, pos + list_field(ss).len()) == list_field(ss)
}

fn read_list(b: &Vec<u8>, pos: usize, count: u64) -> (r: Option<(Vec<String>, usize)>)
    requires
        pos <= b@.len(),
    ensures
        r matches Some((v, e)) ==> pos <= e <= b@.len() && is_list_at(b@, pos as int, count, string_views(v@))
            && e == pos + list_field(string_views(v@)).len(),
        forall|ss: Seq<Seq<char>>|
            #[trigger] is_list_at(b@, pos as int, count, ss) ==> (r matches Some((v, e)) && string_views(v@) == ss
                && e == pos + list_field(ss).len()),
{
    let mut out: Vec<String> = Vec::new();
    let mut cur: usize = pos;
    let mut i: u64 = 0;
    while i < count
        invariant
            pos <= cur <= b@.len(),
            i <= count,
            out@.len() == i,
            b@.subrange(pos as int, cur as int) == list_field(string_views(out@)),
            forall|k: int| 0 <= k < out@.len() ==> str_fits(#[trigger] string_views(out@)[k]),
            forall|ss: Seq<Seq<char>>|
                #[trigger] is_list_at(b@, pos as int, count, ss) ==> string_views(out@) == ss.take(i as int)
                    && cur == pos + list_field(ss.take(i as int)).len(),
        decreases count - i,
    {
        let item = read_string(b, cur);
        proof {
            assert forall|ss: Seq<Seq<char>>| #[trigger] is_list_at(b@, pos as int, count, ss) implies
                cur + str_field(ss[i as int]).len() <= b@.len()
                && b@.subrange(cur as int, cur + str_field(ss[i as int]).len()) == str_field(ss[i as int]) by {
                lemma_list_field_step(ss, i as int);
                lemma_list_field_prefix(ss, i + 1);
                let p1 = list_field(ss.take(i + 1));
                assert(b@.subrange(pos as int, pos + p1.len()) == p1);
                assert(b@.subrange(cur as int, cur + str_field(ss[i as int]).len())
                    == p1.subrange(list_field(ss.take(i as int)).len() as int, p1.len() as int));
            }
        }
        match item {
            Some((s, e)) => {
                let ghost prev = out@;
                out.push(s);
                proof {
                    lemma_string_views_push(prev, s);
                    assert(string_views(out@).drop_last() == string_views(prev));
                    assert(b@.subrange(pos as int, e as int) =~= b@.subrange(pos as int, cur as int) + b@.subrange(cur as int, e as int));
                    assert forall|ss: Seq<Seq<char>>| #[trigger] is_list_at(b@, pos as int, count, ss) implies
                        string_views(out@) == ss.take(i + 1) && e == pos + list_field(ss.take(i + 1)).len() by {
                        lemma_list_field_step(ss, i as int);
                        assert(ss.take(i + 1) == ss.take(i as int).push(ss[i as int]));
                    }
                }
                cur = e;
            },
            None => {
                return None;
            },
        }
        i = i + 1;
    }
    proof {
        assert forall|ss: Seq<Seq<char>>| #[trigger] is_list_at(b@, pos as int, count, ss) implies
            string_views(out@) == ss by {
            assert(ss.take(count as int) == ss);
        }
    }
    Some((out, cur))
}

proof fn lemma_i64_u64_round(x: i64, u: u64)
    ensures
        (x as u64) as i64 == x,
        (u as i64) as u64 == u,
{
    assert((x as u64) as i64 == x) by (bit_vector);
    assert((u as i64) as u64 == u) by (bit_vector);
}

/// The claims of an identity issued at one time and expiring at another.
pub open spec fn claims_of(identity: IdentityView, issued_at: u64, expires_at: u64) -> TokenClaims {
    TokenClaims { identity, issued_at, expires_at }
}

fn encode_payload(identity: &Identity, issued_at: u64, expires_at: u64) -> (r: Vec<u8>)
    ensures
        r@ == encode_claims(claims_of(identity@, issued_at, expires_at)),
        claims_fit(claims_of(identity@, issued_at, expires_at)),
{
    let mut out: Vec<u8> = Vec::new();
    put_u64(&mut out, identity.user_id as u64);
    put_u64(&mut out, issued_at);
    put_u64(&mut out, expires_at);
    put_string(&mut out, &identity.username);
    put_u64(&mut out, identity.permissions.len() as u64);
    put_list(&mut out, &identity.permissions);
    proof {
        let c = claims_of(identity@, issued_at, expires_at);
        assert(out@ =~= encode_claims(c));
    }
    out
}

#[verifier::rlimit(100)]
#[verifier::spinoff_prover]
fn decode_payload(b: &Vec<u8>) -> (r: Option<(Identity, u64, u64, usize)>)
    ensures
        r matches Some((id, iat, exp, e)) ==> claims_fit(claims_of(id@, iat, exp)) && starts_with_claims(
            b@,
            claims_of(id@, iat, exp),
        ) && e == encode_claims(claims_of(id@, iat, exp)).len(),
        forall|c: TokenClaims|
            claims_fit(c) && #[trigger] starts_with_claims(b@, c) ==> (r matches Some((id, iat, exp, e))
                && id@ == c.identity && iat == c.issued_at && exp == c.expires_at && e == encode_claims(c).len()),
{
    let blen = b.len();
    let f0 = read_u64(b, 0);
    let f1 = read_u64(b, 8);
    let f2 = read_u64(b, 16);
    if f0.is_none() || f1.is_none() || f2.is_none() {
        proof {
            assert forall|c: TokenClaims| claims_fit(c) && #[trigger] starts_with_claims(b@, c) implies false by {
                assert(encode_claims(c).len() >= 24);
            }
        }
        return None;
    }
    let uid = f0.unwrap();
    let issued_at = f1.unwrap();
    let expires_at = f2.unwrap();
    let name_field = read_string(b, 24);
    proof {
        assert forall|c: TokenClaims| claims_fit(c) && #[trigger] starts_with_claims(b@, c) implies
            24 + str_field(c.identity.username).len() <= b@.len()
            && b@.subrange(24, 24 + str_field(c.identity.username).len() as int) == str_field(c.identity.username)
            && uid == c.identity.user_id as u64 && issued_at == c.issued_at && expires_at == c.expires_at by {
            let e = encode_claims(c);
            let sf = str_field(c.identity.username);
            assert(b@.subrange(24, 24 + sf.len() as int) == e.subrange(24, 24 + sf.len() as int));
            assert(e.subrange(24, 24 + sf.len() as int) == sf);
            assert(b@.subrange(0, 8) == e.subrange(0, 8));
            assert(b@.subrange(8, 16) == e.subrange(8, 16));
            assert(b@.subrange(16, 24) == e.subrange(16, 24));
            assert(e.subrange(0, 8) == be_bytes(c.identity.user_id as u64));
            assert(e.subrange(8, 16) == be_bytes(c.issued_at));
            assert(e.subrange(16, 24) == be_bytes(c.expires_at));
            lemma_be_bytes_injective(uid, c.identity.user_id as u64);
            lemma_be_bytes_injective(issued_at, c.issued_at);
            lemma_be_bytes_injective(expires_at, c.expires_at);
        }
    }
    let (username, p1) = match name_field {
        Some(x) => x,
        None => {
            return None;
        },
    };
    let f3 = read_u64(b, p1);
    let count = match f3 {
        Some(n) => n,
        None => {
            proof {
                assert forall|c: TokenClaims| claims_fit(c) && #[trigger] starts_with_claims(b@, c) implies false by {
                    assert(encode_claims(c).len() >= 24 + str_field(c.identity.username).len() + 8);
                }
            }
            return None;
        },
    };
    assert(p1 + 8 <= blen);
    let p2 = p1 + 8;
    let list = read_list(b, p2, count);
    proof {
        assert forall|c: TokenClaims| claims_fit(c) && #[trigger] starts_with_claims(b@, c) implies
            is_list_at(b@, p2 as int, count, c.identity.permissions) by {
            let e = encode_claims(c);
            let ps = c.identity.permissions;
            assert(username@ == c.identity.username);
            assert(b@.subrange(p1 as int, p2 as int) == e.subrange(p1 as int, p2 as int));
            assert(e.subrange(p1 as int, p2 as int) == be_bytes(ps.len() as u64));
            lemma_be_bytes_injective(count, ps.len() as u64);
            assert(b@.subrange(p2 as int, p2 + list_field(ps).len()) == e.subrange(p2 as int, e.len() as int));
            assert(e.subrange(p2 as int, e.len() as int) == list_field(ps));
        }
    }
    let (permissions, end) = match list {
        Some(x) => x,
        None => {
            return None;
        },
    };
    proof {
        lemma_i64_u64_round(0, uid);
    }
    let identity = Identity { user_id: uid as i64, username, permissions };
    proof {
        let c = claims_of(identity@, issued_at, expires_at);
        assert(b@.subrange(0, end as int) =~= b@.subrange(0, 8) + b@.subrange(8, 16) + b@.subrange(16, 24)
            + b@.subrange(24, p1 as int) + b@.subrange(p1 as int, p2 as int) + b@.subrange(p2 as int, end as int));
        assert(b@.subrange(0, end as int) == encode_claims(c));
        assert forall|c2: TokenClaims| claims_fit(c2) && #[trigger] starts_with_claims(b@, c2) implies
            identity@ == c2.identity by {
            lemma_i64_u64_round(c2.identity.user_id, 0);
        }
    }
    Some((identity, issued_at, expires_at, end))
}

fn copy_range(b: &Vec<u8>, from: usize, to: usize) -> (r: Vec<u8>)
    requires
        from <= to <= b@.len(),
    ensures
        r@ == b@.subrange(from as int, to as int),
{
    let mut out: Vec<u8> = Vec::new();
    let mut i: usize = from;
    while i < to
        invariant
            from <= i <= to,
            to <= b@.len(),
            out@ == b@.subrange(from as int, i as int),
        decreases to - i,
    {
        out.push(b[i]);
        assert(b@.subrange(from as int, i + 1) == b@.subrange(from as int, i as int).push(b@[i as int]));
        i = i + 1;
    }
    out
}

/// Compares two byte strings, reading every byte of equal-length inputs.
fn bytes_equal(a: &Vec<u8>, b: &Vec<u8>) -> (r: bool)
    ensures
        r == (a@ == b@),
{
    if a.len() != b.len() {
        return false;
    }
    let mut same = true;
    let mut i: usize = 0;
    assert(a@.subrange(0, 0) =~= b@.subrange(0, 0));
    while i < a.len()
        invariant
            i <= a@.len(),
            a@.len() == b@.len(),
            same == (a@.subrange(0, i as int) == b@.subrange(0, i as int)),
        decreases a@.len() - i,
    {
        proof {
            assert(a@.subrange(0, i + 1) == a@.subrange(0, i as int).push(a@[i as int]));
            assert(b@.subrange(0, i + 1) == b@.subrange(0, i as int).push(b@[i as int]));
            if a@.subrange(0, i + 1) == b@.subrange(0, i + 1) {
                assert(a@.subrange(0, i + 1)[i as int] == b@.subrange(0, i + 1)[i as int]);
                assert(a@.subrange(0, i as int) == a@.subrange(0, i + 1).drop_last());
                assert(b@.subrange(0, i as int) == b@.subrange(0, i + 1).drop_last());
            }
        }
        same = same && a[i] == b[i];
        i = i + 1;
    }
    assert(a@.subrange(0, a@.len() as int) == a@);
    assert(b@.subrange(0, b@.len() as int) == b@);
    same
}

/// What issuing a token for the identity at `now`, valid for `ttl` seconds,
/// gives: the signed claims, or a signing failure when the expiry time is out
/// of range.
pub open spec fn issue_post(identity: IdentityView, secret: Seq<u8>, now: u64, ttl: u64, r: Result<Vec<u8>, AdminError>) -> bool {
    &&& now + ttl > u64::MAX ==> r == Err::<Vec<u8>, AdminError>(AdminError::SigningFailed)
    &&& now + ttl <= u64::MAX ==> (r matches Ok(t) && t@ == signed_token(secret, claims_of(identity, now, (now + ttl) as u64)))
}

/// What verifying a token at `now` gives: a token that does not start with
/// claims, or whose tag is not that of its claims, is invalid; one whose
/// expiry time has come is expired; else it speaks for its identity.
pub open spec fn verify_post(token: Seq<u8>, secret: Seq<u8>, now: u64, r: Result<Identity, AdminError>) -> bool {
    &&& (forall|c: TokenClaims| claims_fit(c) ==> !#[trigger] starts_with_claims(token, c))
        ==> r == Err::<Identity, AdminError>(AdminError::InvalidToken)
    &&& forall|c: TokenClaims| claims_fit(c) && #[trigger] starts_with_claims(token, c) ==> {
        let tag = token.subrange(encode_claims(c).len() as int, token.len() as int);
        &&& tag != hmac_sha256_of(secret, encode_claims(c)) ==> r == Err::<Identity, AdminError>(AdminError::InvalidToken)
        &&& tag == hmac_sha256_of(secret, encode_claims(c)) && now >= c.expires_at
            ==> r == Err::<Identity, AdminError>(AdminError::TokenExpired)
        &&& tag == hmac_sha256_of(secret, encode_claims(c)) && now < c.expires_at
            ==> (r matches Ok(id) && id@ == c.identity)
    }
}

/// Issues a token for the identity at `now` (seconds), valid for `ttl` seconds.
pub fn issue(identity: &Identity, secret: &Vec<u8>, now: u64, ttl: u64) -> (r: Result<Vec<u8>, AdminError>)
    ensures
        issue_post(identity@, secret@, now, ttl, r),
        now + ttl <= u64::MAX ==> claims_fit(claims_of(identity@, now, (now + ttl) as u64)),
{
    if ttl > u64::MAX - now {
        return Err(AdminError::SigningFailed);
    }
    let payload = encode_payload(identity, now, now + ttl);
    let tag = hmac_sha256(secret.as_slice(), payload.as_slice());
    let mut token = payload;
    let mut i: usize = 0;
    let ghost start = token@;
    while i < tag.len()
        invariant
            i <= tag@.len(),
            token@ == start + tag@.subrange(0, i as int),
        decreases tag@.len() - i,
    {
        token.push(tag[i]);
        assert(tag@.subrange(0, i + 1) == tag@.subrange(0, i as int).push(tag@[i as int]));
        i = i + 1;
    }
    assert(tag@.subrange(0, tag@.len() as int) == tag@);
    Ok(token)
}

/// Verifies a token at `now` (seconds) and hands back the identity it speaks for.
pub fn verify(token: &Vec<u8>, secret: &Vec<u8>, now: u64) -> (r: Result<Identity, AdminError>)
    ensures
        verify_post(token@, secret@, now, r),
{
    let decoded = decode_payload(token);
    let (identity, _issued_at, expires_at, end) = match decoded {
        Some(x) => x,
        None => {
            return Err(AdminError::InvalidToken);
        },
    };
    let payload = copy_range(token, 0, end);
    let tag = copy_range(token, end, token.len());
    let expected = hmac_sha256(secret.as_slice(), payload.as_slice());
    if !bytes_equal(&tag, &expected) {
        return Err(AdminError::InvalidToken);
    }
    if now >= expires_at {
        return Err(AdminError::TokenExpired);
    }
    Ok(identity)
}

/// A token issued for claims that fit speaks for their identity until its
/// expiry time, and is expired from then on.
pub proof fn lemma_token_round_trip(secret: Seq<u8>, c: TokenClaims, now: u64, r: Result<Identity, AdminError>)
    requires
        claims_fit(c),
        verify_post(signed_token(secret, c), secret, now, r),
    ensures
        now < c.expires_at ==> (r matches Ok(id) && id@ == c.identity),
        now >= c.expires_at ==> r == Err::<Identity, AdminError>(AdminError::TokenExpired),
{
    let t = signed_token(secret, c);
    let e = encode_claims(c);
    assert(t.subrange(0, e.len() as int) == e);
    assert(starts_with_claims(t, c));
    assert(t.subrange(e.len() as int, t.len() as int) == hmac_sha256_of(secret, e));
}

/// Changing any byte of the tag of an issued token makes it invalid.
pub proof fn lemma_tampered_tag_rejected(
    secret: Seq<u8>,
    c: TokenClaims,
    i: int,
    x: u8,
    now: u64,
    r: Result<Identity, AdminError>,
)
    requires
        claims_fit(c),
        encode_claims(c).len() <= i < signed_token(secret, c).len(),
        x != signed_token(secret, c)[i],
        verify_post(signed_token(secret, c).update(i, x), secret, now, r),
    ensures
        r == Err::<Identity, AdminError>(AdminError::InvalidToken),
{
    let t = signed_token(secret, c);
    let t2 = t.update(i, x);
    let e = encode_claims(c);
    assert(t2.subrange(0, e.len() as int) == e);
    assert(starts_with_claims(t2, c));
    let tag2 = t2.subrange(e.len() as int, t2.len() as int);
    assert(tag2[i - e.len()] == x);
    assert(t.subrange(e.len() as int, t.len() as int)[i - e.len()] == t[i]);
    assert(t.subrange(e.len() as int, t.len() as int) == hmac_sha256_of(secret, e));
}

/// A token is accepted only for the identity of the claims it starts with,
/// and only when its tag is the tag of those claims under the secret and
/// they have not expired: an altered token yields no other identity unless
/// its tag matches the altered claims.
pub proof fn lemma_accepted_token_is_authentic(token: Seq<u8>, secret: Seq<u8>, now: u64, r: Result<Identity, AdminError>)
    requires
        verify_post(token, secret, now, r),
        r is Ok,
    ensures
        exists|c: TokenClaims|
            claims_fit(c) && #[trigger] starts_with_claims(token, c) && c.identity == r->Ok_0@ && now < c.expires_at
                && token.subrange(encode_claims(c).len() as int, token.len() as int) == hmac_sha256_of(
                secret,
                encode_claims(c),
            ),
{
    let c = choose|c: TokenClaims| claims_fit(c) && #[trigger] starts_with_claims(token, c);
    assert(claims_fit(c) && starts_with_claims(token, c));
}

} // verus!
