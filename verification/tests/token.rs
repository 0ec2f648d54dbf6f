use role_auth::b64::{b64_decode, b64_encode};
use role_auth::token::{issue, verify, Claims, TokenError};

const SECRET: &[u8] = b"a-test-signing-secret";

fn sample_claims() -> Claims {
    Claims {
        sub: String::from("user@example.com"),
        iat: 1_700_000_000,
        exp: 1_700_000_900,
        role: String::from("0001"),
    }
}

#[test]
fn b64_known_vectors() {
    assert_eq!(b64_encode(b""), b"");
    assert_eq!(b64_encode(b"f"), b"Zg");
    assert_eq!(b64_encode(b"fo"), b"Zm8");
    assert_eq!(b64_encode(b"foo"), b"Zm9v");
    assert_eq!(b64_encode(b"foob"), b"Zm9vYg");
    assert_eq!(b64_encode(b"fooba"), b"Zm9vYmE");
    assert_eq!(b64_encode(b"foobar"), b"Zm9vYmFy");
    assert_eq!(b64_encode(&[251, 255, 190]), b"-_--");
}

#[test]
fn b64_decode_inverts_encode() {
    let cases: Vec<Vec<u8>> = vec![
        vec![],
        vec![0],
        vec![255],
        vec![1, 2],
        vec![1, 2, 3],
        vec![1, 2, 3, 4],
        (0u8..=255).collect(),
    ];
    for c in cases {
        let enc = b64_encode(&c);
        assert_eq!(b64_decode(&enc), Some(c));
    }
}

#[test]
fn b64_decode_rejects_garbage() {
    assert_eq!(b64_decode(b"A"), None); // impossible length
    assert_eq!(b64_decode(b"Zg="), None); // padding is not accepted
    assert_eq!(b64_decode(b"Z!"), None); // byte outside the alphabet
    assert_eq!(b64_decode(b"Zh"), None); // non-canonical trailing bits
    assert_eq!(b64_decode(b"Zm9vY"), None); // impossible length
    assert_eq!(b64_decode(b"Zm+v"), None); // standard alphabet, not url-safe
}

#[test]
fn issued_token_verifies_to_the_same_claims() {
    let claims = sample_claims();
    let token = issue(&claims, SECRET);
    let got = verify(&token, SECRET, claims.iat).expect("fresh token must verify");
    assert_eq!(got.sub, claims.sub);
    assert_eq!(got.iat, claims.iat);
    assert_eq!(got.exp, claims.exp);
    assert_eq!(got.role, claims.role);
    // still valid one second before expiry
    assert!(verify(&token, SECRET, claims.exp - 1).is_ok());
}

#[test]
fn token_shape_is_three_dot_separated_segments() {
    let token = issue(&sample_claims(), SECRET);
    let parts: Vec<&str> = token.split('.').collect();
    assert_eq!(parts.len(), 3);
    assert_eq!(parts[0], "eyJ0eXAiOiJKV1QiLCJhbGciOiJIUzI1NiJ9");
    assert!(token.is_ascii());
}

#[test]
fn expiry_is_inclusive_at_the_boundary() {
    let claims = sample_claims();
    let token = issue(&claims, SECRET);
    assert_eq!(
        verify(&token, SECRET, claims.exp),
        Err(TokenError::Expired)
    );
    assert_eq!(
        verify(&token, SECRET, claims.exp + 12345),
        Err(TokenError::Expired)
    );
}

#[test]
fn wrong_secret_is_a_signature_failure() {
    let claims = sample_claims();
    let token = issue(&claims, SECRET);
    assert_eq!(
        verify(&token, b"another-secret", claims.iat),
        Err(TokenError::SignatureInvalid)
    );
}

#[test]
fn garbage_tokens_are_malformed() {
    assert_eq!(verify("", SECRET, 0), Err(TokenError::Malformed));
    assert_eq!(verify("abc", SECRET, 0), Err(TokenError::Malformed));
    assert_eq!(verify("a.b", SECRET, 0), Err(TokenError::Malformed));
    assert_eq!(
        verify("ab.cd.ef", SECRET, 0),
        Err(TokenError::SignatureInvalid)
    );
}

#[test]
fn every_single_bit_flip_invalidates_the_token() {
    let claims = sample_claims();
    let token = issue(&claims, SECRET);
    let bytes = token.as_bytes();
    let first_dot = token.find('.').unwrap();
    let second_dot = first_dot + 1 + token[first_dot + 1..].find('.').unwrap();
    for pos in 0..bytes.len() {
        for bit in 0..8 {
            let mut flipped = bytes.to_vec();
            flipped[pos] ^= 1u8 << bit;
            let Ok(text) = String::from_utf8(flipped) else {
                continue; // the flip left the bytes unreadable as text
            };
            let got = verify(&text, SECRET, claims.iat);
            assert!(got.is_err(), "flip at byte {pos} bit {bit} was accepted");
            if pos != first_dot && pos != second_dot {
                // a flip inside header, payload or signature content breaks
                // the signature before anything else is reported
                assert_eq!(
                    got,
                    Err(TokenError::SignatureInvalid),
                    "flip at byte {pos} bit {bit}"
                );
            }
        }
    }
}

#[test]
fn subjects_with_awkward_characters_round_trip() {
    let subjects = [
        "plain@example.com",
        "with \"quotes\" inside",
        "back\\slash",
        "tab\there",
        "new\nline",
        "null\u{0}byte",
        "accents évènement",
        "emoji 🙂 subject",
    ];
    for sub in subjects {
        let claims = Claims {
            sub: String::from(sub),
            iat: 10,
            exp: 20,
            role: String::from("0100"),
        };
        let token = issue(&claims, SECRET);
        let got = verify(&token, SECRET, 10).expect("token must verify");
        assert_eq!(got.sub, sub);
        assert_eq!(got.role, "0100");
    }
}

#[test]
fn timestamps_round_trip_at_the_extremes() {
    for (iat, exp) in [(0u64, 1u64), (0, u64::MAX), (u64::MAX - 1, u64::MAX)] {
        let claims = Claims {
            sub: String::from("s"),
            iat,
            exp,
            role: String::from("0000"),
        };
        let token = issue(&claims, SECRET);
        let got = verify(&token, SECRET, iat).expect("token must verify");
        assert_eq!(got.iat, iat);
        assert_eq!(got.exp, exp);
    }
}

#[test]
fn issued_tokens_decode_as_standard_jwts() {
    // far-future expiry, since the reference decoder checks it against the
    // real clock
    let claims = Claims {
        sub: String::from("user@example.com"),
        iat: 1_700_000_000,
        exp: 4_102_444_800,
        role: String::from("0011"),
    };
    let token = issue(&claims, SECRET);
    let validation = jsonwebtoken::Validation::new(jsonwebtoken::Algorithm::HS256);
    let decoded = jsonwebtoken::decode::<serde_json::Value>(
        &token,
        &jsonwebtoken::DecodingKey::from_secret(SECRET),
        &validation,
    )
    .expect("reference decoder must accept the token");
    assert_eq!(decoded.claims["sub"].as_str(), Some("user@example.com"));
    assert_eq!(decoded.claims["iat"].as_u64(), Some(1_700_000_000));
    assert_eq!(decoded.claims["exp"].as_u64(), Some(4_102_444_800));
    assert_eq!(decoded.claims["role"].as_str(), Some("0011"));

    let rejected = jsonwebtoken::decode::<serde_json::Value>(
        &token,
        &jsonwebtoken::DecodingKey::from_secret(b"another-secret"),
        &validation,
    );
    assert!(rejected.is_err());
}

#[test]
fn duplicate_copies_every_field() {
    let claims = sample_claims();
    let copy = claims.duplicate();
    assert_eq!(copy.sub, claims.sub);
    assert_eq!(copy.iat, claims.iat);
    assert_eq!(copy.exp, claims.exp);
    assert_eq!(copy.role, claims.role);
}

#[test]
fn long_subjects_round_trip() {
    let long_sub: String = "x@example.com/".repeat(1000);
    let claims = Claims {
        sub: long_sub.clone(),
        iat: 5,
        exp: 6,
        role: String::from("0001"),
    };
    let token = issue(&claims, SECRET);
    let got = verify(&token, SECRET, 5).expect("token must verify");
    assert_eq!(got.sub, long_sub);
}
