use vstd::prelude::*;
use vstd::utf8::{encode_utf8, encode_utf8_valid_utf8, is_ascii_chars, is_ascii_chars_encode_utf8, valid_utf8};

verus! {

/// The lowercase hexadecimal digit of a value below sixteen, as an ASCII byte.
pub open spec fn hex_digit(v: u8) -> u8 {
    if v < 10 {
        (48 + v) as u8
    } else {
        (87 + v) as u8
    }
}

/// `s` is the lowercase hexadecimal text of `t`, two digits per byte, high first.
pub open spec fn is_hex_of(s: Seq<u8>, t: Seq<u8>) -> bool {
    &&& s.len() == 2 * t.len()
    &&& forall|i: int|
        0 <= i < t.len() ==> s[2 * i] == hex_digit(#[trigger] t[i] / 16) && s[2 * i + 1] == hex_digit(t[i] % 16)
}

/// The ASCII bytes of "Bearer ", the scheme that may precede a token.
pub open spec fn bearer_prefix() -> Seq<u8> {
    seq![66u8, 101u8, 97u8, 114u8, 101u8, 114u8, 32u8]
}

/// The position where the token starts: after the bearer scheme if the text
/// starts with it, else at the start.
pub open spec fn token_start(b: Seq<u8>) -> int {
    if b.len() >= 7 && b.subrange(0, 7) == bearer_prefix() {
        7
    } else {
        0
    }
}

/// Relies on `String::from_utf8`: succeeds exactly on valid UTF-8, and the
/// string then holds those bytes.
#[verifier::external_body]
pub(crate) fn string_from_utf8(bytes: Vec<u8>) -> (r: Option<String>)
    ensures
        r is Some <==> valid_utf8(bytes@),
        r matches Some(s) ==> encode_utf8(s@) == bytes@,
{
    String::from_utf8(bytes).ok()
}

proof fn lemma_hex_digit_injective(a: u8, b: u8)
    requires
        a < 16,
        b < 16,
        hex_digit(a) == hex_digit(b),
    ensures
        a == b,
{
}

fn digit_of(v: u8) -> (r: u8)
    requires
        v < 16,
    ensures
        r == hex_digit(v),
{
    if v < 10 {
        48 + v
    } else {
        87 + v
    }
}

fn value_of_digit(c: u8) -> (r: Option<u8>)
    ensures
        r matches Some(v) ==> v < 16 && hex_digit(v) == c,
        r is None ==> forall|v: u8| v < 16 ==> hex_digit(v) != c,
{
    if 48 <= c && c <= 57 {
        Some(c - 48)
    } else if 97 <= c && c <= 102 {
        Some(c - 87)
    } else {
        None
    }
}

/// The lowercase hexadecimal text of the bytes.
pub fn hex_encode(t: &Vec<u8>) -> (r: Vec<u8>)
    ensures
        is_hex_of(r@, t@),
{
    let mut out: Vec<u8> = Vec::new();
    let mut i: usize = 0;
    while i < t.len()
        invariant
            i <= t@.len(),
            out@.len() == 2 * i,
            forall|k: int|
                0 <= k < i ==> out@[2 * k] == hex_digit(#[trigger] t@[k] / 16) && out@[2 * k + 1] == hex_digit(
                    t@[k] % 16,
                ),
        decreases t@.len() - i,
    {
        let x = t[i];
        out.push(digit_of(x / 16));
        out.push(digit_of(x % 16));
        i = i + 1;
    }
    out
}

/// Decodes the lowercase hexadecimal text that runs from `start` to the end.
pub fn hex_decode_from(s: &Vec<u8>, start: usize) -> (r: Option<Vec<u8>>)
    requires
        start <= s@.len(),
    ensures
        r matches Some(t) ==> is_hex_of(s@.subrange(start as int, s@.len() as int), t@),
        forall|t: Seq<u8>| #[trigger] is_hex_of(s@.subrange(start as int, s@.len() as int), t) ==> (r matches Some(u) && u@ == t),
{
    let ghost body = s@.subrange(start as int, s@.len() as int);
    let n = s.len() - start;
    if n % 2 != 0 {
        return None;
    }
    let half = n / 2;
    let mut out: Vec<u8> = Vec::new();
    let mut i: usize = 0;
    while i < half
        invariant
            body == s@.subrange(start as int, s@.len() as int),
            n == body.len(),
            half * 2 == n,
            start + n == s@.len(),
            s@.len() <= usize::MAX,
            i <= half,
            out@.len() == i,
            forall|k: int|
                0 <= k < i ==> body[2 * k] == hex_digit(#[trigger] out@[k] / 16) && body[2 * k + 1] == hex_digit(
                    out@[k] % 16,
                ),
            forall|t: Seq<u8>| #[trigger] is_hex_of(body, t) ==> out@ == t.take(i as int),
        decreases half - i,
    {
        assert(2 * i + 2 <= 2 * half);
        assert(start + 2 * i + 1 < s@.len());
        let hi = value_of_digit(s[start + 2 * i]);
        let lo = value_of_digit(s[start + 2 * i + 1]);
        assert(s@[start + 2 * i] == body[2 * i]);
        assert(s@[start + 2 * i + 1] == body[2 * i + 1]);
        match (hi, lo) {
            (Some(h), Some(l)) => {
                let x: u8 = h * 16 + l;
                assert(x / 16 == h && x % 16 == l) by (nonlinear_arith)
                    requires
                        x == h * 16 + l,
                        h < 16,
                        l < 16,
                ;
                let ghost prev = out@;
                out.push(x);
                proof {
                    assert forall|t: Seq<u8>| #[trigger] is_hex_of(body, t) implies out@ == t.take(i + 1) by {
                        assert(body[2 * i] == hex_digit(t[i as int] / 16));
                        lemma_hex_digit_injective(h, t[i as int] / 16);
                        lemma_hex_digit_injective(l, t[i as int] % 16);
                        assert(t[i as int] == (t[i as int] / 16) * 16 + t[i as int] % 16);
                        assert(t.take(i + 1) == t.take(i as int).push(t[i as int]));
                    }
                }
            },
            _ => {
                proof {
                    assert forall|t: Seq<u8>| #[trigger] is_hex_of(body, t) implies false by {
                        assert(body[2 * i] == hex_digit(t[i as int] / 16));
                        assert(body[2 * i + 1] == hex_digit(t[i as int] % 16));
                    }
                }
                return None;
            },
        }
        i = i + 1;
    }
    proof {
        assert forall|t: Seq<u8>| #[trigger] is_hex_of(body, t) implies out@ == t by {
            assert(t.take(half as int) == t);
        }
    }
    Some(out)
}

/// The hexadecimal text of the bytes as a string.
pub fn hex_text(t: &Vec<u8>) -> (r: String)
    ensures
        is_hex_of(encode_utf8(r@), t@),
{
    let bytes = hex_encode(t);
    let ghost b = bytes@;
    proof {
        let chars = Seq::new(b.len(), |i: int| b[i] as char);
        assert forall|i: int| 0 <= i < b.len() implies b[i] < 128 by {
            let k = i / 2;
            if i % 2 == 0 {
                assert(b[2 * k] == hex_digit(t@[k] / 16));
            } else {
                assert(b[2 * k + 1] == hex_digit(t@[k] % 16));
            }
        }
        assert(is_ascii_chars(chars));
        is_ascii_chars_encode_utf8(chars);
        assert(encode_utf8(chars) =~= b);
        encode_utf8_valid_utf8(chars);
    }
    match string_from_utf8(bytes) {
        Some(s) => s,
        None => String::new(),
    }
}

} // verus!
