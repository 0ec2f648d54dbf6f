//! The token codec: issuing and verifying signed session tokens.
//!
//! A token is `base64url(header) . base64url(payload) . signature`, where the
//! header is the fixed JSON object naming the HMAC-SHA256 algorithm, the
//! payload carries the claims, and the signature is an HMAC-SHA256 over the
//! first two segments under a caller-supplied secret. Framing, encoding and
//! parsing are verified; only the two HMAC calls are trusted.

use vstd::prelude::*;
use vstd::utf8::decode_utf8;
use vstd::utf8::decode_utf8_encode_utf8;
use vstd::utf8::encode_utf8;
use vstd::utf8::encode_utf8_decode_utf8;
use vstd::utf8::encode_utf8_valid_utf8;
use vstd::utf8::is_ascii_chars;
use vstd::utf8::is_ascii_chars_encode_utf8;
use vstd::utf8::valid_utf8;

use crate::b64::b64_decode;
use crate::b64::b64_encode;
use crate::b64::b64_of;
use crate::b64::lemma_b64_of_chars;
use crate::b64::lemma_b64_of_len_mult3;
use crate::b64::lemma_b64_roundtrip;
use crate::b64::lemma_b64_sound;
use crate::payload::emit_payload;
use crate::payload::json_payload;
use crate::payload::lemma_payload_unambiguous;
use crate::payload::match_lit;
use crate::payload::parse_payload;

verus! {

/// The claim set carried inside a signed token: the subject (a principal
/// identifier such as a normalized email address), the issue and expiry
/// times in seconds since the epoch, and the subject's role code.
#[derive(Debug, PartialEq, Eq)]
pub struct Claims {
    pub sub: String,
    pub iat: u64,
    pub exp: u64,
    pub role: String,
}

/// The mathematical value of a claim set.
pub ghost struct ClaimsView {
    pub sub: Seq<char>,
    pub iat: u64,
    pub exp: u64,
    pub role: Seq<char>,
}

impl View for Claims {
    type V = ClaimsView;

    open spec fn view(&self) -> ClaimsView {
        ClaimsView { sub: self.sub@, iat: self.iat, exp: self.exp, role: self.role@ }
    }
}

impl Claims {
    /// Returns a copy of this claim set with the same field values.
    pub fn duplicate(&self) -> (r: Claims)
        ensures
            r@ == self@,
    {
        let r = Claims {
            sub: self.sub.clone(),
            iat: self.iat,
            exp: self.exp,
            role: self.role.clone(),
        };
        proof {
            assert(r@ == self@);
        }
        r
    }
}

/// Why a token was rejected. Verification distinguishes a token that cannot
/// be parsed, one whose signature does not match its content, and one whose
/// expiry has passed.
#[derive(Clone, Copy, Debug, PartialEq, Eq, Structural)]
pub enum TokenError {
    Malformed,
    SignatureInvalid,
    Expired,
}

/// The bytes `{"typ":"JWT","alg":"HS256"}`: the fixed token header.
pub open spec fn header_json() -> Seq<u8> {
    seq![
        123u8, 34u8, 116u8, 121u8, 112u8, 34u8, 58u8, 34u8, 74u8, 87u8, 84u8, 34u8, 44u8, 34u8,
        97u8, 108u8, 103u8, 34u8, 58u8, 34u8, 72u8, 83u8, 50u8, 53u8, 54u8, 34u8, 125u8,
    ]
}

fn header_json_exec() -> (r: Vec<u8>)
    ensures
        r@ == header_json(),
{
    let r: Vec<u8> = vec![
        123u8, 34u8, 116u8, 121u8, 112u8, 34u8, 58u8, 34u8, 74u8, 87u8, 84u8, 34u8, 44u8, 34u8,
        97u8, 108u8, 103u8, 34u8, 58u8, 34u8, 72u8, 83u8, 50u8, 53u8, 54u8, 34u8, 125u8,
    ];
    proof {
        assert(r@ =~= header_json());
    }
    r
}

/// The characters that a sequence of ASCII bytes spells.
pub open spec fn ascii_chars(b: Seq<u8>) -> Seq<char> {
    b.map_values(|x: u8| x as char)
}

/// The bytes of a sequence of ASCII characters.
pub open spec fn chars_bytes(s: Seq<char>) -> Seq<u8> {
    s.map_values(|c: char| c as u8)
}

/// The base64url signature string that HMAC-SHA256 produces for a message
/// under a key. The result of `jsonwebtoken::crypto::sign` with `HS256`
/// depends on the message and the key alone, so it is given a name here and
/// every contract speaks of that name.
pub uninterp spec fn hmac_sig(msg: Seq<u8>, key: Seq<u8>) -> Seq<char>;

/// The signing input of a token: the base64url header, a dot, and the
/// base64url payload.
pub open spec fn signing_bytes(c: ClaimsView) -> Seq<u8> {
    b64_of(header_json()) + seq![46u8] + b64_of(
        json_payload(encode_utf8(c.sub), c.iat, c.exp, encode_utf8(c.role)),
    )
}

/// The token issued for a claim set under a secret: the signing input as
/// text, a dot, and the signature.
pub open spec fn spec_token(c: ClaimsView, key: Seq<u8>) -> Seq<char> {
    ascii_chars(signing_bytes(c)) + seq!['.'] + hmac_sig(signing_bytes(c), key)
}

/// The two separator dots of a token text: `i` is the first dot, `j` the
/// first dot after it, and text remains after `j`. At most one pair of
/// positions splits a given text this way.
pub open spec fn token_split(t: Seq<char>, i: int, j: int) -> bool {
    &&& 0 <= i < j < t.len()
    &&& t[i] == '.'
    &&& t[j] == '.'
    &&& forall|q: int| 0 <= q < i ==> t[q] != '.'
    &&& forall|q: int| i < q < j ==> t[q] != '.'
}

/// Relies on `jsonwebtoken::crypto::sign` with `Algorithm::HS256`: it
/// computes the HMAC-SHA256 of the message under the secret and returns it
/// base64url-encoded without padding, a pure function of message and key.
/// Per the crate's source, signing with an HMAC key made by
/// `EncodingKey::from_secret` cannot fail, so the unwrap never fires.
#[verifier::external_body]
fn hmac_sign(message: &[u8], key: &[u8]) -> (r: String)
    ensures
        r@ == hmac_sig(message@, key@),
{
    jsonwebtoken::crypto::sign(
        message,
        &jsonwebtoken::EncodingKey::from_secret(key),
        jsonwebtoken::Algorithm::HS256,
    ).unwrap()
}

/// Relies on `jsonwebtoken::crypto::verify` with `Algorithm::HS256`: it
/// base64url-decodes `sig` (strictly: no padding, no stray trailing bits),
/// recomputes the HMAC-SHA256 of the message under the key, and compares.
/// Since that decoding accepts exactly the canonical encoding, the call
/// returns `true` exactly when `sig` is the signature string of the message;
/// a `sig` that is not even base64 makes the call fail, and `false` is
/// returned, which agrees with the contract.
#[verifier::external_body]
fn hmac_verify(sig: &str, message: &[u8], key: &[u8]) -> (r: bool)
    ensures
        r == (sig@ == hmac_sig(message@, key@)),
{
    jsonwebtoken::crypto::verify(
        sig,
        message,
        &jsonwebtoken::DecodingKey::from_secret(key),
        jsonwebtoken::Algorithm::HS256,
    ).unwrap_or(false)
}

/// Relies on `String::from_utf8`: it succeeds exactly on valid UTF-8 input
/// and returns the string those bytes spell.
#[verifier::external_body]
fn string_from_utf8(v: Vec<u8>) -> (r: Option<String>)
    ensures
        r is Some <==> valid_utf8(v@),
        r matches Some(s) ==> s@ == decode_utf8(v@),
{
    String::from_utf8(v).ok()
}

/// ASCII bytes and the characters they spell determine each other.
proof fn lemma_ascii_chars_bytes(b: Seq<u8>)
    requires
        forall|i: int| 0 <= i < b.len() ==> #[trigger] b[i] < 128,
    ensures
        is_ascii_chars(ascii_chars(b)),
        ascii_chars(b).len() == b.len(),
        encode_utf8(ascii_chars(b)) == b,
        valid_utf8(b),
        decode_utf8(b) == ascii_chars(b),
        chars_bytes(ascii_chars(b)) == b,
{
    let cs = ascii_chars(b);
    assert(cs.len() == b.len());
    assert forall|i: int| 0 <= i < cs.len() implies '\0' <= #[trigger] cs[i] <= '\u{7f}' by {
        assert(b[i] < 128);
        assert(cs[i] == b[i] as char);
    }
    assert(is_ascii_chars(cs));
    is_ascii_chars_encode_utf8(cs);
    assert forall|i: int| 0 <= i < b.len() implies encode_utf8(cs)[i] == b[i] by {
        assert(cs[i] == b[i] as char);
        assert(cs[i] as u8 == encode_utf8(cs)[i]);
    }
    assert(encode_utf8(cs) =~= b);
    encode_utf8_valid_utf8(cs);
    encode_utf8_decode_utf8(cs);
    assert(chars_bytes(cs) =~= b);
}

/// The bytes of an ASCII character sequence spell the sequence back.
proof fn lemma_chars_bytes_ascii(s: Seq<char>)
    requires
        is_ascii_chars(s),
    ensures
        chars_bytes(s).len() == s.len(),
        forall|i: int| 0 <= i < s.len() ==> #[trigger] chars_bytes(s)[i] < 128,
        ascii_chars(chars_bytes(s)) == s,
        encode_utf8(s) == chars_bytes(s),
{
    let b = chars_bytes(s);
    assert forall|i: int| 0 <= i < s.len() implies #[trigger] b[i] < 128 by {
        assert('\0' <= s[i] <= '\u{7f}');
        assert(b[i] == s[i] as u8);
    }
    lemma_ascii_chars_bytes(b);
    assert forall|i: int| 0 <= i < s.len() implies ascii_chars(b)[i] == s[i] by {
        assert(b[i] == s[i] as u8);
        assert('\0' <= s[i] <= '\u{7f}');
    }
    assert(ascii_chars(b) =~= s);
    is_ascii_chars_encode_utf8(s);
    assert(encode_utf8(s) =~= b);
}

/// Issues a signed session token for `claims` under `secret`. The expiry
/// must already be set by the caller; issuing never fails.
pub fn issue(claims: &Claims, secret: &[u8]) -> (t: String)
    ensures
        t@ == spec_token(claims@, secret@),
{
    let sub_b = claims.sub.as_str().as_bytes_vec();
    let role_b = claims.role.as_str().as_bytes_vec();
    let payload = emit_payload(sub_b.as_slice(), claims.iat, claims.exp, role_b.as_slice());
    let mut pb64 = b64_encode(payload.as_slice());
    let hj = header_json_exec();
    let mut msg = b64_encode(hj.as_slice());
    msg.push(46);
    msg.append(&mut pb64);
    proof {
        broadcast use vstd::string::group_string_axioms;

        assert(msg@ =~= signing_bytes(claims@));
        lemma_b64_of_chars(header_json());
        lemma_b64_of_chars(json_payload(
            encode_utf8(claims@.sub),
            claims@.iat,
            claims@.exp,
            encode_utf8(claims@.role),
        ));
        assert forall|i: int| 0 <= i < msg@.len() implies #[trigger] msg@[i] < 128 by {
            let h = b64_of(header_json());
            let p = b64_of(
                json_payload(
                    encode_utf8(claims@.sub),
                    claims@.iat,
                    claims@.exp,
                    encode_utf8(claims@.role),
                ),
            );
            if i < h.len() {
                assert(msg@[i] == h[i]);
            } else if i == h.len() {
                assert(msg@[i] == 46u8);
            } else {
                assert(msg@[i] == p[i - h.len() - 1]);
            }
        }
        lemma_ascii_chars_bytes(msg@);
    }
    let sig = hmac_sign(msg.as_slice(), secret);
    let prefix_opt = string_from_utf8(msg);
    let mut token = match prefix_opt {
        Some(s) => s,
        None => {
            proof {
                assert(false);
            }
            vstd::pervasive::unreached()
        },
    };
    token.append(".");
    token.append(sig.as_str());
    proof {
        broadcast use vstd::string::group_string_axioms;

        reveal_strlit(".");
        assert("."@ =~= seq!['.']);
        assert(token@ =~= spec_token(claims@, secret@));
    }
    token
}

/// The character layout of an issued token: the signing input spelled as
/// ASCII text, with its only dot at position 36 (after the header segment),
/// then a separating dot, then the signature.
proof fn lemma_token_shape(c: ClaimsView, key: Seq<u8>)
    ensures
        ({
            let sb = signing_bytes(c);
            let t = spec_token(c, key);
            let pb = b64_of(json_payload(encode_utf8(c.sub), c.iat, c.exp, encode_utf8(c.role)));
            &&& sb.len() == 37 + pb.len()
            &&& t.len() == sb.len() + 1 + hmac_sig(sb, key).len()
            &&& forall|q: int| 0 <= q < sb.len() ==> #[trigger] t[q] == (sb[q] as char)
            &&& forall|q: int| 0 <= q < sb.len() ==> #[trigger] sb[q] < 128
            &&& sb[36] == 46
            &&& forall|q: int| 0 <= q < sb.len() && q != 36 ==> #[trigger] sb[q] != 46
            &&& t[sb.len() as int] == '.'
            &&& t[36] == '.'
            &&& forall|q: int| 0 <= q < sb.len() && q != 36 ==> #[trigger] t[q] != '.'
            &&& sb.subrange(0, 36) == b64_of(header_json())
            &&& sb.skip(37) == pb
            &&& t.skip(sb.len() as int + 1) == hmac_sig(sb, key)
            &&& t.subrange(0, sb.len() as int) == ascii_chars(sb)
        }),
{
    let sb = signing_bytes(c);
    let t = spec_token(c, key);
    let hb = b64_of(header_json());
    let pb = b64_of(json_payload(encode_utf8(c.sub), c.iat, c.exp, encode_utf8(c.role)));
    lemma_b64_of_len_mult3(header_json());
    assert(hb.len() == 36);
    assert(sb.len() == 37 + pb.len());
    lemma_b64_of_chars(header_json());
    lemma_b64_of_chars(json_payload(encode_utf8(c.sub), c.iat, c.exp, encode_utf8(c.role)));
    assert(sb.subrange(0, 36) =~= hb);
    assert(sb.skip(37) =~= pb);
    assert(sb[36] == 46);
    assert forall|q: int| 0 <= q < sb.len() implies #[trigger] sb[q] < 128 && (q != 36 ==> sb[q]
        != 46) by {
        if q < 36 {
            assert(sb[q] == hb[q]);
        } else if q > 36 {
            assert(sb[q] == pb[q - 37]);
        }
    }
    assert forall|q: int| 0 <= q < sb.len() implies #[trigger] t[q] == (sb[q] as char) by {
        assert(t[q] == ascii_chars(sb)[q]);
    }
    assert(t[sb.len() as int] == '.');
    assert(('.' as u8) == 46);
    assert(t[36] == (sb[36] as char));
    assert((46u8 as char) == '.');
    assert(t[36] == '.');
    assert forall|q: int| 0 <= q < sb.len() && q != 36 implies #[trigger] t[q] != '.' by {
        assert(t[q] == (sb[q] as char));
        assert(sb[q] != 46 && sb[q] < 128);
        if t[q] == '.' {
            assert((sb[q] as char) as u8 == sb[q]);
            assert(('.' as u8) == 46);
        }
    }
    assert(t.skip(sb.len() as int + 1) =~= hmac_sig(sb, key));
    assert(t.subrange(0, sb.len() as int) =~= ascii_chars(sb));
}

/// Copies the bytes of `v` between `from` and `to` into a fresh vector.
fn copy_range(v: &[u8], from: usize, to: usize) -> (r: Vec<u8>)
    requires
        from <= to <= v@.len(),
    ensures
        r@ == v@.subrange(from as int, to as int),
{
    let mut r: Vec<u8> = Vec::new();
    let mut k = from;
    while k < to
        invariant
            from <= k <= to <= v@.len(),
            r@ == v@.subrange(from as int, k as int),
        decreases to - k,
    {
        r.push(v[k]);
        proof {
            assert(v@.subrange(from as int, k + 1) =~= v@.subrange(from as int, k as int).push(
                v@[k as int]));
        }
        k = k + 1;
    }
    r
}


/// Verifies a token under `secret` at time `now`. Returns the claims exactly
/// when the token is one that `issue` produces for them under this secret
/// and it has not expired; a token that cannot be parsed is `Malformed`, one
/// whose signature does not match is `SignatureInvalid`, and one past its
/// expiry is `Expired`. Expiry is checked against `now` alone: a token is
/// expired from the instant `now == exp` on.
#[verifier::rlimit(100)]
pub fn verify(token: &str, secret: &[u8], now: u64) -> (r: Result<Claims, TokenError>)
    ensures
        r matches Ok(c) ==> token@ == spec_token(c@, secret@) && now < c@.exp,
        forall|cv: ClaimsView| token@ == #[trigger] spec_token(cv, secret@) ==> (now >= cv.exp
            ==> r == Err::<Claims, TokenError>(TokenError::Expired)) && (now < cv.exp ==> r is Ok
            && r->Ok_0@ == cv),
        r == Err::<Claims, TokenError>(TokenError::Expired) ==> exists|cv: ClaimsView| token@ == #[trigger] spec_token(
            cv,
            secret@,
        ) && now >= cv.exp,
        r == Err::<Claims, TokenError>(TokenError::SignatureInvalid) <==> exists|a: int, b: int|
            #[trigger] token_split(token@, a, b) && is_ascii_chars(token@.subrange(0, b))
            && token@.skip(b + 1) != hmac_sig(chars_bytes(token@.subrange(0, b)), secret@),
{
    let len = token.unicode_len();
    let mut i: usize = 0;
    while i < len && token.get_char(i) != '.'
        invariant
            i <= len,
            len == token@.len(),
            forall|q: int| 0 <= q < i ==> token@[q] != '.',
        decreases len - i,
    {
        i = i + 1;
    }
    if i == len {
        proof {
            assert forall|cv: ClaimsView| token@ != spec_token(cv, secret@) by {
                if token@ == spec_token(cv, secret@) {
                    lemma_token_shape(cv, secret@);
                    assert(token@[36] == '.');
                }
            }
            assert forall|a: int, b: int| !token_split(token@, a, b) by {
                if token_split(token@, a, b) {
                    assert(token@[a] == '.');
                }
            }
        }
        return Err(TokenError::Malformed);
    }
    let mut j: usize = i + 1;
    while j < len && token.get_char(j) != '.'
        invariant
            i + 1 <= j <= len,
            len == token@.len(),
            forall|q: int| i + 1 <= q < j ==> token@[q] != '.',
        decreases len - j,
    {
        j = j + 1;
    }
    // for an issued token the first dot is at 36 and the second ends the
    // signing input
    proof {
        assert forall|cv: ClaimsView| token@ == #[trigger] spec_token(cv, secret@) implies i == 36
            && signing_bytes(cv).len() < token@.len() && j <= signing_bytes(cv).len() by {
            lemma_token_shape(cv, secret@);
            let sb = signing_bytes(cv);
            assert(token@[36] == '.');
            if i < 36 {
                assert(token@[i as int] == '.');
                assert(token@[i as int] != '.');
            }
            if i > 36 {
                assert(token@[36] != '.');
            }
            assert(token@[sb.len() as int] == '.');
            if j > sb.len() {
                assert(token@[sb.len() as int] != '.');
            }
        }
    }
    if j == len {
        proof {
            assert forall|cv: ClaimsView| token@ != spec_token(cv, secret@) by {
                if token@ == spec_token(cv, secret@) {
                    assert(j <= signing_bytes(cv).len() < len);
                }
            }
            assert forall|a: int, b: int| !token_split(token@, a, b) by {
                if token_split(token@, a, b) {
                    if a < i {
                        assert(token@[a] == '.');
                    }
                    if a > i {
                        assert(token@[i as int] != '.');
                    }
                    assert(token@[b] == '.');
                }
            }
        }
        return Err(TokenError::Malformed);
    }
    proof {
        assert forall|cv: ClaimsView| token@ == #[trigger] spec_token(cv, secret@) implies j
            == signing_bytes(cv).len() by {
            lemma_token_shape(cv, secret@);
            let sb = signing_bytes(cv);
            assert(token@[j as int] == '.');
            if j < sb.len() {
                assert(token@[j as int] != '.');
            }
        }
        // this split of the token is the only one
        assert(token_split(token@, i as int, j as int));
        assert forall|a: int, b: int| #[trigger] token_split(token@, a, b) implies a == i && b
            == j by {
            if a < i {
                assert(token@[a] == '.');
            }
            if a > i {
                assert(token@[i as int] != '.');
            }
            if b < j {
                assert(token@[b] == '.');
            }
            if b > j {
                assert(token@[j as int] != '.');
            }
        }
    }
    let prefix = token.substring_char(0, j);
    let sig_str = token.substring_char(j + 1, len);
    // for an issued token the prefix spells the signing input, which is
    // ASCII throughout
    proof {
        assert forall|cv: ClaimsView| token@ == #[trigger] spec_token(cv, secret@) implies prefix@
            == ascii_chars(signing_bytes(cv)) && sig_str@ == hmac_sig(
            signing_bytes(cv),
            secret@,
        ) && is_ascii_chars(prefix@) by {
            lemma_token_shape(cv, secret@);
            let sb = signing_bytes(cv);
            assert(prefix@ =~= token@.subrange(0, sb.len() as int));
            assert(sig_str@ =~= token@.skip(sb.len() as int + 1));
            lemma_ascii_chars_bytes(sb);
        }
    }
    if !prefix.is_ascii() {
        proof {
            assert forall|a: int, b: int| #[trigger] token_split(token@, a, b)
                implies !is_ascii_chars(token@.subrange(0, b)) by {
                assert(token@.subrange(0, b) == prefix@);
            }
        }
        return Err(TokenError::Malformed);
    }
    let msg = prefix.as_bytes_vec();
    proof {
        broadcast use vstd::string::group_string_axioms;

        lemma_chars_bytes_ascii(prefix@);
        assert(msg@ =~= chars_bytes(prefix@));
    }
    if !hmac_verify(sig_str, msg.as_slice(), secret) {
        proof {
            assert forall|cv: ClaimsView| token@ != spec_token(cv, secret@) by {
                if token@ == spec_token(cv, secret@) {
                    let sb = signing_bytes(cv);
                    lemma_token_shape(cv, secret@);
                    lemma_ascii_chars_bytes(sb);
                    assert(msg@ == chars_bytes(ascii_chars(sb)));
                    assert(sig_str@ == hmac_sig(msg@, secret@));
                }
            }
        }
        proof {
            assert(token@.subrange(0, j as int) == prefix@);
            assert(token@.skip(j as int + 1) =~= sig_str@);
            assert(token_split(token@, i as int, j as int) && is_ascii_chars(
                token@.subrange(0, j as int),
            ) && token@.skip(j as int + 1) != hmac_sig(
                chars_bytes(token@.subrange(0, j as int)),
                secret@,
            ));
        }
        return Err(TokenError::SignatureInvalid);
    }
    proof {
        assert forall|a: int, b: int| #[trigger] token_split(token@, a, b) implies token@.skip(
            b + 1,
        ) == hmac_sig(chars_bytes(token@.subrange(0, b)), secret@) by {
            assert(token@.subrange(0, b) == prefix@);
            assert(token@.skip(b + 1) =~= sig_str@);
        }
    }
    let hj = header_json_exec();
    let hb64 = b64_encode(hj.as_slice());
    proof {
        lemma_b64_of_len_mult3(header_json());
        assert forall|cv: ClaimsView| token@ == #[trigger] spec_token(cv, secret@) implies i
            == hb64@.len() && msg@.subrange(0, 36) == hb64@ && msg@.subrange(
            i + 1,
            j as int,
        ) == b64_of(json_payload(encode_utf8(cv.sub), cv.iat, cv.exp, encode_utf8(cv.role))) by {
            lemma_token_shape(cv, secret@);
            let sb = signing_bytes(cv);
            lemma_ascii_chars_bytes(sb);
            assert(msg@ == sb);
            assert(msg@.subrange(0, 36) =~= sb.subrange(0, 36));
            assert(msg@.subrange(37, sb.len() as int) =~= sb.skip(37));
        }
    }
    if i != hb64.len() || !match_lit(msg.as_slice(), 0, hb64.as_slice()) {
        proof {
            assert forall|cv: ClaimsView| token@ != spec_token(cv, secret@) by {
                if token@ == spec_token(cv, secret@) {
                    assert(msg@.len() == prefix@.len());
                    assert(msg@.subrange(0, 36) == hb64@);
                }
            }
        }
        return Err(TokenError::Malformed);
    }
    let pseg = copy_range(msg.as_slice(), i + 1, j);
    let payload = match b64_decode(pseg.as_slice()) {
        Some(p) => p,
        None => {
            proof {
                assert forall|cv: ClaimsView| token@ != spec_token(cv, secret@) by {
                    if token@ == spec_token(cv, secret@) {
                        let jp = json_payload(
                            encode_utf8(cv.sub),
                            cv.iat,
                            cv.exp,
                            encode_utf8(cv.role),
                        );
                        assert(pseg@ == b64_of(jp));
                        lemma_b64_roundtrip(jp);
                    }
                }
            }
            return Err(TokenError::Malformed);
        },
    };
    let parsed = match parse_payload(payload.as_slice()) {
        Some(p) => p,
        None => {
            proof {
                assert forall|cv: ClaimsView| token@ != spec_token(cv, secret@) by {
                    if token@ == spec_token(cv, secret@) {
                        let jp = json_payload(
                            encode_utf8(cv.sub),
                            cv.iat,
                            cv.exp,
                            encode_utf8(cv.role),
                        );
                        lemma_b64_roundtrip(jp);
                        assert(payload@ == jp);
                    }
                }
            }
            return Err(TokenError::Malformed);
        },
    };
    let (sub_b, iat, exp, role_b) = parsed;
    // for an issued token the parsed fields are the claim fields
    proof {
        assert forall|cv: ClaimsView| token@ == #[trigger] spec_token(cv, secret@) implies sub_b@
            == encode_utf8(cv.sub) && iat == cv.iat && exp == cv.exp && role_b@ == encode_utf8(
            cv.role,
        ) by {
            let jp = json_payload(encode_utf8(cv.sub), cv.iat, cv.exp, encode_utf8(cv.role));
            lemma_b64_roundtrip(jp);
            assert(payload@ == jp);
        }
    }
    let sub = match string_from_utf8(sub_b) {
        Some(s) => s,
        None => {
            proof {
                assert forall|cv: ClaimsView| token@ != spec_token(cv, secret@) by {
                    if token@ == spec_token(cv, secret@) {
                        encode_utf8_valid_utf8(cv.sub);
                    }
                }
            }
            return Err(TokenError::Malformed);
        },
    };
    let role = match string_from_utf8(role_b) {
        Some(s) => s,
        None => {
            proof {
                assert forall|cv: ClaimsView| token@ != spec_token(cv, secret@) by {
                    if token@ == spec_token(cv, secret@) {
                        encode_utf8_valid_utf8(cv.role);
                    }
                }
            }
            return Err(TokenError::Malformed);
        },
    };
    // the token is exactly the issued token for the parsed claims
    let ghost rc = ClaimsView { sub: sub@, iat, exp, role: role@ };
    proof {
        let ghost sub_bytes = sub_b@;
        let ghost role_bytes = role_b@;
        decode_utf8_encode_utf8(sub_bytes);
        decode_utf8_encode_utf8(role_bytes);
        assert(encode_utf8(rc.sub) == sub_bytes);
        assert(encode_utf8(rc.role) == role_bytes);
        let jp = json_payload(encode_utf8(rc.sub), rc.iat, rc.exp, encode_utf8(rc.role));
        assert(payload@ == jp);
        lemma_b64_sound(pseg@);
        assert(b64_of(jp) == pseg@);
        assert(msg@ =~= signing_bytes(rc)) by {
            assert(msg@.subrange(0, 36) == b64_of(header_json()));
            assert(msg@[36] == 46) by {
                assert(prefix@[i as int] == token@[i as int]);
                assert(token@[i as int] == '.');
                assert(msg@[36] == chars_bytes(prefix@)[36]);
            }
            assert(msg@.subrange(37, msg@.len() as int) == pseg@);
        }
        assert(sig_str@ == hmac_sig(msg@, secret@));
        assert(token@ =~= spec_token(rc, secret@)) by {
            lemma_chars_bytes_ascii(prefix@);
            assert(ascii_chars(signing_bytes(rc)) == prefix@);
            assert(prefix@ =~= token@.subrange(0, j as int));
            assert(sig_str@ =~= token@.skip(j as int + 1));
            assert(token@[j as int] == '.');
        }
        // and any claim set this token could have been issued for is `rc`
        assert forall|cv: ClaimsView| token@ == #[trigger] spec_token(cv, secret@) implies cv
            == rc by {
            encode_utf8_decode_utf8(cv.sub);
            encode_utf8_decode_utf8(cv.role);
            assert(sub@ == decode_utf8(sub_b@));
            assert(sub@ == cv.sub);
            assert(role@ == cv.role);
            assert(cv == ClaimsView { sub: cv.sub, iat: cv.iat, exp: cv.exp, role: cv.role });
        }
    }
    if now >= exp {
        proof {
            assert(token@ == spec_token(rc, secret@) && now >= rc.exp);
        }
        return Err(TokenError::Expired);
    }
    let c = Claims { sub, iat, exp, role };
    proof {
        assert(c@ == rc);
    }
    Ok(c)
}


/// How long an issued session lasts, in seconds: fifteen minutes. There is
/// no revocation, so a compromised token stays valid until natural expiry.
pub const TOKEN_TTL_SECS: u64 = 900;

/// Issues a session token for `subject` holding `role_code`, valid from
/// `now` for `TOKEN_TTL_SECS` seconds.
pub fn issue_session(subject: &str, role_code: &str, secret: &[u8], now: u64) -> (t: String)
    requires
        now + TOKEN_TTL_SECS <= u64::MAX,
    ensures
        t@ == spec_token(
            ClaimsView {
                sub: subject@,
                iat: now,
                exp: (now + TOKEN_TTL_SECS) as u64,
                role: role_code@,
            },
            secret@,
        ),
{
    let claims = Claims {
        sub: subject.to_owned(),
        iat: now,
        exp: now + TOKEN_TTL_SECS,
        role: role_code.to_owned(),
    };
    issue(&claims, secret)
}


/// Law: a token pins its claim set. Two claim sets that issue the same token
/// under the same secret are equal, so verification of an unexpired issued
/// token can only return the claim set it was issued for.
pub proof fn lemma_token_determines_claims(a: ClaimsView, b: ClaimsView, key: Seq<u8>)
    requires
        spec_token(a, key) == spec_token(b, key),
    ensures
        a == b,
{
    lemma_token_shape(a, key);
    lemma_token_shape(b, key);
    let t = spec_token(a, key);
    let sa = signing_bytes(a);
    let sb = signing_bytes(b);
    let pa = b64_of(json_payload(encode_utf8(a.sub), a.iat, a.exp, encode_utf8(a.role)));
    let pb = b64_of(json_payload(encode_utf8(b.sub), b.iat, b.exp, encode_utf8(b.role)));
    // the separating dot stands at the same place, so the signing inputs
    // have the same length
    if sa.len() < sb.len() {
        assert(t[sa.len() as int] == '.');
        assert(sa.len() != 36);
        assert(t[sa.len() as int] != '.');
    }
    if sb.len() < sa.len() {
        assert(t[sb.len() as int] == '.');
        assert(sb.len() != 36);
        assert(t[sb.len() as int] != '.');
    }
    assert(sa.len() == sb.len());
    assert forall|q: int| 0 <= q < sa.len() implies sa[q] == sb[q] by {
        assert(t[q] == (sa[q] as char));
        assert(t[q] == (sb[q] as char));
        assert((sa[q] as char) as u8 == sa[q]);
        assert((sb[q] as char) as u8 == sb[q]);
    }
    assert(sa =~= sb);
    assert(pa =~= sa.skip(37));
    assert(pb =~= sb.skip(37));
    let ja = json_payload(encode_utf8(a.sub), a.iat, a.exp, encode_utf8(a.role));
    let jb = json_payload(encode_utf8(b.sub), b.iat, b.exp, encode_utf8(b.role));
    lemma_b64_roundtrip(ja);
    lemma_b64_roundtrip(jb);
    assert(ja == jb);
    lemma_payload_unambiguous(
        encode_utf8(a.sub),
        a.iat,
        a.exp,
        encode_utf8(a.role),
        encode_utf8(b.sub),
        b.iat,
        b.exp,
        encode_utf8(b.role),
    );
    encode_utf8_decode_utf8(a.sub);
    encode_utf8_decode_utf8(b.sub);
    encode_utf8_decode_utf8(a.role);
    encode_utf8_decode_utf8(b.role);
    assert(a.sub == b.sub);
    assert(a.role == b.role);
    assert(a == ClaimsView { sub: a.sub, iat: a.iat, exp: a.exp, role: a.role });
    assert(b == ClaimsView { sub: b.sub, iat: b.iat, exp: b.exp, role: b.role });
}

} // verus!
