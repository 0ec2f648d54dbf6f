//! Base64url (no padding) over bytes: the segment encoding of session
//! tokens. Encoding and decoding are fully specified; decoding accepts
//! exactly the canonical encodings, so the two are mutually inverse.

use vstd::prelude::*;

verus! {

/// The base64url alphabet, as ASCII codes: `A`-`Z`, `a`-`z`, `0`-`9`,
/// `-`, `_`.
pub open spec fn b64_char(v: int) -> u8
    recommends
        0 <= v < 64,
{
    if v < 26 {
        (65 + v) as u8
    } else if v < 52 {
        (71 + v) as u8
    } else if v < 62 {
        (v - 4) as u8
    } else if v == 62 {
        45u8
    } else {
        95u8
    }
}

/// The value of an alphabet byte, or 64 for a byte outside the alphabet.
pub open spec fn b64_val(b: u8) -> int {
    if 65 <= b && b <= 90 {
        b - 65
    } else if 97 <= b && b <= 122 {
        b - 71
    } else if 48 <= b && b <= 57 {
        b + 4
    } else if b == 45 {
        62
    } else if b == 95 {
        63
    } else {
        64
    }
}

pub proof fn lemma_b64_char_val(v: int)
    requires
        0 <= v < 64,
    ensures
        b64_val(b64_char(v)) == v,
        b64_char(v) < 128,
        b64_char(v) != 46,
{
}

pub proof fn lemma_b64_val_char(b: u8)
    requires
        b64_val(b) < 64,
    ensures
        b64_char(b64_val(b)) == b,
{
}

/// Base64url encoding without padding: three input bytes become four
/// alphabet bytes; a final group of one or two bytes becomes two or three.
pub open spec fn b64_of(bytes: Seq<u8>) -> Seq<u8>
    decreases bytes.len(),
{
    if bytes.len() == 0 {
        Seq::empty()
    } else if bytes.len() == 1 {
        let b0 = bytes[0] as int;
        seq![b64_char(b0 / 4), b64_char((b0 % 4) * 16)]
    } else if bytes.len() == 2 {
        let b0 = bytes[0] as int;
        let b1 = bytes[1] as int;
        seq![b64_char(b0 / 4), b64_char((b0 % 4) * 16 + b1 / 16), b64_char((b1 % 16) * 4)]
    } else {
        let b0 = bytes[0] as int;
        let b1 = bytes[1] as int;
        let b2 = bytes[2] as int;
        seq![
            b64_char(b0 / 4),
            b64_char((b0 % 4) * 16 + b1 / 16),
            b64_char((b1 % 16) * 4 + b2 / 64),
            b64_char(b2 % 64),
        ] + b64_of(bytes.skip(3))
    }
}

/// Every byte of an encoding is in the alphabet; in particular it is ASCII
/// and is not `.` (46), the token separator.
pub proof fn lemma_b64_of_chars(bytes: Seq<u8>)
    ensures
        forall|i: int| 0 <= i < b64_of(bytes).len() ==> b64_val(#[trigger] b64_of(bytes)[i]) < 64,
        forall|i: int|
            0 <= i < b64_of(bytes).len() ==> #[trigger] b64_of(bytes)[i] < 128 && b64_of(bytes)[i]
                != 46,
    decreases bytes.len(),
{
    if bytes.len() == 0 {
    } else if bytes.len() <= 2 {
        assert forall|i: int| 0 <= i < b64_of(bytes).len() implies b64_val(
            #[trigger] b64_of(bytes)[i],
        ) < 64 && b64_of(bytes)[i] < 128 && b64_of(bytes)[i] != 46 by {
            let b0 = bytes[0] as int;
            lemma_b64_char_val(b0 / 4);
            lemma_b64_char_val((b0 % 4) * 16);
            if bytes.len() == 2 {
                let b1 = bytes[1] as int;
                lemma_b64_char_val((b0 % 4) * 16 + b1 / 16);
                lemma_b64_char_val((b1 % 16) * 4);
            }
        }
    } else {
        lemma_b64_of_chars(bytes.skip(3));
        assert forall|i: int| 0 <= i < b64_of(bytes).len() implies b64_val(
            #[trigger] b64_of(bytes)[i],
        ) < 64 && b64_of(bytes)[i] < 128 && b64_of(bytes)[i] != 46 by {
            let b0 = bytes[0] as int;
            let b1 = bytes[1] as int;
            let b2 = bytes[2] as int;
            lemma_b64_char_val(b0 / 4);
            lemma_b64_char_val((b0 % 4) * 16 + b1 / 16);
            lemma_b64_char_val((b1 % 16) * 4 + b2 / 64);
            lemma_b64_char_val(b2 % 64);
            if i >= 4 {
                assert(b64_of(bytes)[i] == b64_of(bytes.skip(3))[i - 4]);
            }
        }
    }
}

/// Encodes `bytes` as base64url without padding.
pub fn b64_encode(bytes: &[u8]) -> (r: Vec<u8>)
    ensures
        r@ == b64_of(bytes@),
{
    let n = bytes.len();
    let mut out: Vec<u8> = Vec::new();
    let mut i: usize = 0;
    proof {
        assert(bytes@.skip(0) == bytes@);
    }
    while n - i >= 3
        invariant
            i <= n,
            n == bytes@.len(),
            b64_of(bytes@) == out@ + b64_of(bytes@.skip(i as int)),
        decreases n - i,
    {
        let b0 = bytes[i];
        let b1 = bytes[i + 1];
        let b2 = bytes[i + 2];
        out.push(b64_char_of(b0 / 4));
        out.push(b64_char_of((b0 % 4) * 16 + b1 / 16));
        out.push(b64_char_of((b1 % 16) * 4 + b2 / 64));
        out.push(b64_char_of(b2 % 64));
        proof {
            assert(bytes@.skip(i as int).skip(3) == bytes@.skip(i + 3));
            assert(bytes@.skip(i as int)[0] == bytes@[i as int]);
            assert(bytes@.skip(i as int)[1] == bytes@[i + 1]);
            assert(bytes@.skip(i as int)[2] == bytes@[i + 2]);
        }
        i = i + 3;
    }
    if n - i == 1 {
        let b0 = bytes[i];
        out.push(b64_char_of(b0 / 4));
        out.push(b64_char_of((b0 % 4) * 16));
        proof {
            assert(bytes@.skip(i as int)[0] == bytes@[i as int]);
        }
    } else if n - i == 2 {
        let b0 = bytes[i];
        let b1 = bytes[i + 1];
        out.push(b64_char_of(b0 / 4));
        out.push(b64_char_of((b0 % 4) * 16 + b1 / 16));
        out.push(b64_char_of((b1 % 16) * 4));
        proof {
            assert(bytes@.skip(i as int)[0] == bytes@[i as int]);
            assert(bytes@.skip(i as int)[1] == bytes@[i + 1]);
        }
    } else {
        proof {
            assert(bytes@.skip(i as int) =~= Seq::<u8>::empty());
        }
    }
    proof {
        assert(out@ =~= b64_of(bytes@));
    }
    out
}

fn b64_char_of(v: u8) -> (c: u8)
    requires
        v < 64,
    ensures
        c as int == b64_char(v as int) as int,
{
    if v < 26 {
        65 + v
    } else if v < 52 {
        71 + v
    } else if v < 62 {
        v - 4
    } else if v == 62 {
        45
    } else {
        95
    }
}

fn b64_val_of(b: u8) -> (v: u8)
    ensures
        v as int == b64_val(b),
{
    if 65 <= b && b <= 90 {
        b - 65
    } else if 97 <= b && b <= 122 {
        b - 71
    } else if 48 <= b && b <= 57 {
        b + 4
    } else if b == 45 {
        62
    } else if b == 95 {
        63
    } else {
        64
    }
}

/// The decoding of a byte sequence: `Some` exactly on canonical base64url
/// encodings without padding, `None` otherwise.
pub open spec fn b64_decode_spec(s: Seq<u8>) -> Option<Seq<u8>>
    decreases s.len(),
{
    if s.len() == 0 {
        Some(Seq::empty())
    } else if s.len() == 1 {
        None
    } else if s.len() == 2 {
        let v0 = b64_val(s[0]);
        let v1 = b64_val(s[1]);
        if v0 < 64 && v1 < 64 && v1 % 16 == 0 {
            Some(seq![(v0 * 4 + v1 / 16) as u8])
        } else {
            None
        }
    } else if s.len() == 3 {
        let v0 = b64_val(s[0]);
        let v1 = b64_val(s[1]);
        let v2 = b64_val(s[2]);
        if v0 < 64 && v1 < 64 && v2 < 64 && v2 % 4 == 0 {
            Some(seq![(v0 * 4 + v1 / 16) as u8, ((v1 % 16) * 16 + v2 / 4) as u8])
        } else {
            None
        }
    } else {
        let v0 = b64_val(s[0]);
        let v1 = b64_val(s[1]);
        let v2 = b64_val(s[2]);
        let v3 = b64_val(s[3]);
        if v0 < 64 && v1 < 64 && v2 < 64 && v3 < 64 {
            match b64_decode_spec(s.skip(4)) {
                Some(rest) => Some(
                    seq![
                        (v0 * 4 + v1 / 16) as u8,
                        ((v1 % 16) * 16 + v2 / 4) as u8,
                        ((v2 % 4) * 64 + v3) as u8,
                    ] + rest,
                ),
                None => None,
            }
        } else {
            None
        }
    }
}

/// Law: decoding inverts encoding; every encoded sequence decodes back to
/// the bytes it came from.
pub proof fn lemma_b64_roundtrip(bytes: Seq<u8>)
    ensures
        b64_decode_spec(b64_of(bytes)) == Some(bytes),
    decreases bytes.len(),
{
    if bytes.len() == 0 {
        assert(b64_of(bytes) =~= Seq::<u8>::empty());
        assert(b64_decode_spec(b64_of(bytes)) == Some(Seq::<u8>::empty()));
        assert(bytes =~= Seq::<u8>::empty());
    } else if bytes.len() == 1 {
        let b0 = bytes[0] as int;
        lemma_b64_char_val(b0 / 4);
        lemma_b64_char_val((b0 % 4) * 16);
        assert(b64_decode_spec(b64_of(bytes)) == Some(seq![((b0 / 4) * 4 + ((b0 % 4) * 16) / 16) as u8]));
        assert(((b0 / 4) * 4 + ((b0 % 4) * 16) / 16) == b0);
        assert(Some(seq![(((b0 / 4) * 4 + ((b0 % 4) * 16) / 16)) as u8]) == Some(seq![bytes[0]]));
        assert(bytes =~= seq![bytes[0]]);
    } else if bytes.len() == 2 {
        let b0 = bytes[0] as int;
        let b1 = bytes[1] as int;
        lemma_b64_char_val(b0 / 4);
        lemma_b64_char_val((b0 % 4) * 16 + b1 / 16);
        lemma_b64_char_val((b1 % 16) * 4);
        let v0 = b0 / 4;
        let v1 = (b0 % 4) * 16 + b1 / 16;
        let v2 = (b1 % 16) * 4;
        assert(v2 % 4 == 0);
        assert(v0 * 4 + v1 / 16 == b0);
        assert((v1 % 16) * 16 + v2 / 4 == b1);
        assert(b64_decode_spec(b64_of(bytes)) == Some(seq![b0 as u8, b1 as u8]));
        assert(bytes =~= seq![b0 as u8, b1 as u8]);
    } else {
        let b0 = bytes[0] as int;
        let b1 = bytes[1] as int;
        let b2 = bytes[2] as int;
        lemma_b64_char_val(b0 / 4);
        lemma_b64_char_val((b0 % 4) * 16 + b1 / 16);
        lemma_b64_char_val((b1 % 16) * 4 + b2 / 64);
        lemma_b64_char_val(b2 % 64);
        lemma_b64_roundtrip(bytes.skip(3));
        let s = b64_of(bytes);
        assert(s.skip(4) =~= b64_of(bytes.skip(3)));
        let v0 = b0 / 4;
        let v1 = (b0 % 4) * 16 + b1 / 16;
        let v2 = (b1 % 16) * 4 + b2 / 64;
        let v3 = b2 % 64;
        assert(v0 * 4 + v1 / 16 == b0);
        assert((v1 % 16) * 16 + v2 / 4 == b1);
        assert((v2 % 4) * 64 + v3 == b2);
        assert(b64_decode_spec(s) == Some(seq![b0 as u8, b1 as u8, b2 as u8] + bytes.skip(3)));
        assert(bytes =~= seq![b0 as u8, b1 as u8, b2 as u8] + bytes.skip(3));
    }
}

/// Law: a successful decoding is canonical; encoding the result gives back
/// the input.
pub proof fn lemma_b64_sound(s: Seq<u8>)
    requires
        b64_decode_spec(s) is Some,
    ensures
        b64_of(b64_decode_spec(s)->Some_0) == s,
    decreases s.len(),
{
    let v = b64_decode_spec(s)->Some_0;
    if s.len() == 0 {
        assert(b64_of(v) =~= s);
    } else if s.len() == 2 {
        let v0 = b64_val(s[0]);
        let v1 = b64_val(s[1]);
        let b0 = v0 * 4 + v1 / 16;
        assert(b0 / 4 == v0);
        assert((b0 % 4) * 16 == v1);
        lemma_b64_val_char(s[0]);
        lemma_b64_val_char(s[1]);
        assert(b64_of(v) =~= s);
    } else if s.len() == 3 {
        let v0 = b64_val(s[0]);
        let v1 = b64_val(s[1]);
        let v2 = b64_val(s[2]);
        let b0 = v0 * 4 + v1 / 16;
        let b1 = (v1 % 16) * 16 + v2 / 4;
        assert(b0 / 4 == v0);
        assert((b0 % 4) * 16 + b1 / 16 == v1);
        assert((b1 % 16) * 4 == v2);
        lemma_b64_val_char(s[0]);
        lemma_b64_val_char(s[1]);
        lemma_b64_val_char(s[2]);
        assert(b64_of(v) =~= s);
    } else {
        let v0 = b64_val(s[0]);
        let v1 = b64_val(s[1]);
        let v2 = b64_val(s[2]);
        let v3 = b64_val(s[3]);
        let b0 = v0 * 4 + v1 / 16;
        let b1 = (v1 % 16) * 16 + v2 / 4;
        let b2 = (v2 % 4) * 64 + v3;
        lemma_b64_sound(s.skip(4));
        assert(b0 / 4 == v0);
        assert((b0 % 4) * 16 + b1 / 16 == v1);
        assert((b1 % 16) * 4 + b2 / 64 == v2);
        assert(b2 % 64 == v3);
        lemma_b64_val_char(s[0]);
        lemma_b64_val_char(s[1]);
        lemma_b64_val_char(s[2]);
        lemma_b64_val_char(s[3]);
        let rest = b64_decode_spec(s.skip(4))->Some_0;
        assert(v =~= seq![b0 as u8, b1 as u8, b2 as u8] + rest);
        assert(v.skip(3) =~= rest);
        assert(b64_of(v) =~= s);
    }
}

/// Decodes a base64url sequence without padding; returns `None` on any byte
/// outside the alphabet, an impossible length, or a non-canonical final
/// group.
pub fn b64_decode(s: &[u8]) -> (r: Option<Vec<u8>>)
    ensures
        r is Some <==> b64_decode_spec(s@) is Some,
        r matches Some(v) ==> Some(v@) == b64_decode_spec(s@),
{
    let n = s.len();
    let mut out: Vec<u8> = Vec::new();
    let mut i: usize = 0;
    proof {
        assert(s@.skip(0) == s@);
    }
    while n - i >= 4
        invariant
            i <= n,
            n == s@.len(),
            b64_decode_spec(s@) == match b64_decode_spec(s@.skip(i as int)) {
                Some(rest) => Some(out@ + rest),
                None => None::<Seq<u8>>,
            },
        decreases n - i,
    {
        let v0 = b64_val_of(s[i]);
        let v1 = b64_val_of(s[i + 1]);
        let v2 = b64_val_of(s[i + 2]);
        let v3 = b64_val_of(s[i + 3]);
        proof {
            assert(s@.skip(i as int)[0] == s@[i as int]);
            assert(s@.skip(i as int)[1] == s@[i + 1]);
            assert(s@.skip(i as int)[2] == s@[i + 2]);
            assert(s@.skip(i as int)[3] == s@[i + 3]);
            assert(s@.skip(i as int).skip(4) == s@.skip(i + 4));
        }
        if v0 >= 64 || v1 >= 64 || v2 >= 64 || v3 >= 64 {
            return None;
        }
        out.push(v0 * 4 + v1 / 16);
        out.push((v1 % 16) * 16 + v2 / 4);
        out.push((v2 % 4) * 64 + v3);
        i = i + 4;
    }
    if i == n {
        proof {
            assert(s@.skip(i as int) =~= Seq::<u8>::empty());
            assert(out@ + Seq::<u8>::empty() =~= out@);
        }
        Some(out)
    } else if n - i == 1 {
        None
    } else if n - i == 2 {
        let v0 = b64_val_of(s[i]);
        let v1 = b64_val_of(s[i + 1]);
        proof {
            assert(s@.skip(i as int)[0] == s@[i as int]);
            assert(s@.skip(i as int)[1] == s@[i + 1]);
        }
        if v0 >= 64 || v1 >= 64 || v1 % 16 != 0 {
            return None;
        }
        out.push(v0 * 4 + v1 / 16);
        proof {
            let rest = b64_decode_spec(s@.skip(i as int))->Some_0;
            assert(out@ =~= out@.drop_last() + rest);
        }
        Some(out)
    } else {
        let v0 = b64_val_of(s[i]);
        let v1 = b64_val_of(s[i + 1]);
        let v2 = b64_val_of(s[i + 2]);
        proof {
            assert(s@.skip(i as int)[0] == s@[i as int]);
            assert(s@.skip(i as int)[1] == s@[i + 1]);
            assert(s@.skip(i as int)[2] == s@[i + 2]);
        }
        if v0 >= 64 || v1 >= 64 || v2 >= 64 || v2 % 4 != 0 {
            return None;
        }
        out.push(v0 * 4 + v1 / 16);
        out.push((v1 % 16) * 16 + v2 / 4);
        proof {
            let rest = b64_decode_spec(s@.skip(i as int))->Some_0;
            assert(out@ =~= out@.drop_last().drop_last() + rest);
        }
        Some(out)
    }
}


/// The length of the encoding of a byte sequence whose length is a multiple
/// of three: four output bytes for every three input bytes.
pub proof fn lemma_b64_of_len_mult3(bytes: Seq<u8>)
    requires
        bytes.len() % 3 == 0,
    ensures
        b64_of(bytes).len() == bytes.len() / 3 * 4,
    decreases bytes.len(),
{
    if bytes.len() == 0 {
    } else {
        assert(bytes.len() >= 3);
        assert(bytes.skip(3).len() == bytes.len() - 3);
        assert((bytes.len() - 3) % 3 == 0);
        lemma_b64_of_len_mult3(bytes.skip(3));
        assert(bytes.len() as int / 3 == (bytes.len() - 3) / 3 + 1);
    }
}

} // verus!
