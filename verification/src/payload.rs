//! The claims payload carried inside a session token: a JSON object with the
//! fields `sub`, `iat`, `exp` and `role`, in that order, with no spaces.
//! Emission and parsing are fully specified and mutually inverse: parsing
//! accepts exactly the byte sequences the emitter produces.

use vstd::prelude::*;

verus! {

/// A hexadecimal digit as a lowercase ASCII byte.
pub open spec fn hex_digit(v: int) -> u8
    recommends
        0 <= v < 16,
{
    if v < 10 {
        (48 + v) as u8
    } else {
        (87 + v) as u8
    }
}

/// The JSON escaping of one byte of string content: `"` and `\` get a
/// backslash escape, control bytes become `\u00xx`, and every other byte
/// stands for itself.
pub open spec fn esc_byte(b: u8) -> Seq<u8> {
    if b == 34 {
        seq![92u8, 34u8]
    } else if b == 92 {
        seq![92u8, 92u8]
    } else if b < 32 {
        seq![92u8, 117u8, 48u8, 48u8, hex_digit(b as int / 16), hex_digit(b as int % 16)]
    } else {
        seq![b]
    }
}

/// The JSON escaping of string content, byte by byte.
pub open spec fn esc(s: Seq<u8>) -> Seq<u8>
    decreases s.len(),
{
    if s.len() == 0 {
        Seq::empty()
    } else {
        esc_byte(s[0]) + esc(s.skip(1))
    }
}

/// The canonical decimal digits of a non-negative number, most significant
/// first, without leading zeros.
pub open spec fn dec_of(n: int) -> Seq<u8>
    recommends
        n >= 0,
    decreases n,
{
    if n < 10 {
        seq![(48 + n) as u8]
    } else {
        dec_of(n / 10) + seq![(48 + n % 10) as u8]
    }
}

/// The value of a run of decimal digit bytes, most significant first.
pub open spec fn dec_val(ds: Seq<u8>) -> int
    decreases ds.len(),
{
    if ds.len() == 0 {
        0
    } else {
        dec_val(ds.drop_last()) * 10 + (ds.last() - 48)
    }
}

pub open spec fn is_digit(b: u8) -> bool {
    48 <= b <= 57
}

/// `{"sub":"`
pub open spec fn lit_sub() -> Seq<u8> {
    seq![123u8, 34u8, 115u8, 117u8, 98u8, 34u8, 58u8, 34u8]
}

/// `","iat":`
pub open spec fn lit_iat() -> Seq<u8> {
    seq![34u8, 44u8, 34u8, 105u8, 97u8, 116u8, 34u8, 58u8]
}

/// `,"exp":`
pub open spec fn lit_exp() -> Seq<u8> {
    seq![44u8, 34u8, 101u8, 120u8, 112u8, 34u8, 58u8]
}

/// `,"role":"`
pub open spec fn lit_role() -> Seq<u8> {
    seq![44u8, 34u8, 114u8, 111u8, 108u8, 101u8, 34u8, 58u8, 34u8]
}

/// `"}`
pub open spec fn lit_end() -> Seq<u8> {
    seq![34u8, 125u8]
}

/// The serialized claims payload for the given field values: subject and
/// role as escaped JSON strings, the two timestamps as decimal numbers.
pub open spec fn json_payload(sub: Seq<u8>, iat: u64, exp: u64, role: Seq<u8>) -> Seq<u8> {
    lit_sub() + esc(sub) + lit_iat() + dec_of(iat as int) + lit_exp() + dec_of(exp as int)
        + lit_role() + esc(role) + lit_end()
}

fn lit_sub_exec() -> (r: Vec<u8>)
    ensures
        r@ == lit_sub(),
{
    let r: Vec<u8> = vec![123u8, 34u8, 115u8, 117u8, 98u8, 34u8, 58u8, 34u8];
    proof {
        assert(r@ =~= lit_sub());
    }
    r
}

fn lit_iat_exec() -> (r: Vec<u8>)
    ensures
        r@ == lit_iat(),
{
    let r: Vec<u8> = vec![34u8, 44u8, 34u8, 105u8, 97u8, 116u8, 34u8, 58u8];
    proof {
        assert(r@ =~= lit_iat());
    }
    r
}

fn lit_exp_exec() -> (r: Vec<u8>)
    ensures
        r@ == lit_exp(),
{
    let r: Vec<u8> = vec![44u8, 34u8, 101u8, 120u8, 112u8, 34u8, 58u8];
    proof {
        assert(r@ =~= lit_exp());
    }
    r
}

fn lit_role_exec() -> (r: Vec<u8>)
    ensures
        r@ == lit_role(),
{
    let r: Vec<u8> = vec![44u8, 34u8, 114u8, 111u8, 108u8, 101u8, 34u8, 58u8, 34u8];
    proof {
        assert(r@ =~= lit_role());
    }
    r
}

fn lit_end_exec() -> (r: Vec<u8>)
    ensures
        r@ == lit_end(),
{
    let r: Vec<u8> = vec![34u8, 125u8];
    proof {
        assert(r@ =~= lit_end());
    }
    r
}

fn hex_digit_of(v: u8) -> (c: u8)
    requires
        v < 16,
    ensures
        c == hex_digit(v as int),
{
    if v < 10 {
        48 + v
    } else {
        87 + v
    }
}

/// Appends the JSON escaping of `s` to `out`.
fn push_esc(out: &mut Vec<u8>, s: &[u8])
    ensures
        final(out)@ == old(out)@ + esc(s@),
{
    let n = s.len();
    let mut i: usize = 0;
    proof {
        assert(s@.skip(0) == s@);
    }
    while i < n
        invariant
            i <= n,
            n == s@.len(),
            old(out)@ + esc(s@) == out@ + esc(s@.skip(i as int)),
        decreases n - i,
    {
        let b = s[i];
        proof {
            assert(s@.skip(i as int)[0] == s@[i as int]);
            assert(s@.skip(i as int).skip(1) == s@.skip(i + 1));
        }
        if b == 34 {
            out.push(92);
            out.push(34);
        } else if b == 92 {
            out.push(92);
            out.push(92);
        } else if b < 32 {
            out.push(92);
            out.push(117);
            out.push(48);
            out.push(48);
            out.push(hex_digit_of(b / 16));
            out.push(hex_digit_of(b % 16));
        } else {
            out.push(b);
        }
        i = i + 1;
    }
    proof {
        assert(esc(s@.skip(n as int)) =~= Seq::<u8>::empty());
        assert(out@ =~= old(out)@ + esc(s@));
    }
}

/// Appends the canonical decimal digits of `n` to `out`.
fn push_dec(out: &mut Vec<u8>, n: u64)
    ensures
        final(out)@ == old(out)@ + dec_of(n as int),
    decreases n,
{
    if n < 10 {
        out.push(48 + (n as u8));
    } else {
        push_dec(out, n / 10);
        out.push(48 + ((n % 10) as u8));
    }
}

/// Serializes the claim fields as the token payload.
pub fn emit_payload(sub: &[u8], iat: u64, exp: u64, role: &[u8]) -> (r: Vec<u8>)
    ensures
        r@ == json_payload(sub@, iat, exp, role@),
{
    let mut out: Vec<u8> = lit_sub_exec();
    push_esc(&mut out, sub);
    let mut piece = lit_iat_exec();
    out.append(&mut piece);
    push_dec(&mut out, iat);
    let mut piece = lit_exp_exec();
    out.append(&mut piece);
    push_dec(&mut out, exp);
    let mut piece = lit_role_exec();
    out.append(&mut piece);
    push_esc(&mut out, role);
    let mut piece = lit_end_exec();
    out.append(&mut piece);
    proof {
        assert(out@ =~= json_payload(sub@, iat, exp, role@));
    }
    out
}


/// The decimal digits of a number `n`, followed by `rest`, stand at `start`
/// in `v`, with `rest` not beginning with another digit.
pub open spec fn is_dec_at(v: Seq<u8>, start: int, n: u64, rest: Seq<u8>) -> bool {
    v.skip(start) == dec_of(n as int) + rest && (rest.len() == 0 || !is_digit(rest[0]))
}

pub proof fn lemma_dec_of_digits(n: int)
    requires
        n >= 0,
    ensures
        dec_of(n).len() >= 1,
        forall|i: int| 0 <= i < dec_of(n).len() ==> is_digit(#[trigger] dec_of(n)[i]),
        n >= 1 ==> dec_of(n)[0] != 48,
        n < 10 ==> dec_of(n).len() == 1,
    decreases n,
{
    if n < 10 {
    } else {
        lemma_dec_of_digits(n / 10);
    }
}

pub proof fn lemma_dec_val_dec_of(n: int)
    requires
        n >= 0,
    ensures
        dec_val(dec_of(n)) == n,
    decreases n,
{
    if n < 10 {
        assert(dec_val(Seq::<u8>::empty()) == 0);
        assert(dec_of(n).drop_last() =~= Seq::<u8>::empty());
        assert(dec_of(n).last() == (48 + n) as u8);
        assert(dec_val(dec_of(n)) == 0 * 10 + ((48 + n) as u8 - 48));
    } else {
        lemma_dec_val_dec_of(n / 10);
        assert(dec_of(n).drop_last() =~= dec_of(n / 10));
        assert(dec_of(n).last() == (48 + n % 10) as u8);
        assert(0 <= n % 10 < 10);
        assert(dec_val(dec_of(n)) == (n / 10) * 10 + n % 10);
        assert((n / 10) * 10 + n % 10 == n);
    }
}

pub proof fn lemma_dec_val_bounds(ds: Seq<u8>)
    requires
        forall|i: int| 0 <= i < ds.len() ==> is_digit(#[trigger] ds[i]),
    ensures
        dec_val(ds) >= 0,
        forall|k: int| 0 <= k <= ds.len() ==> 0 <= dec_val(#[trigger] ds.take(k)) <= dec_val(ds),
    decreases ds.len(),
{
    if ds.len() == 0 {
        assert(ds.take(0) =~= ds);
    } else {
        lemma_dec_val_bounds(ds.drop_last());
        assert(ds.take(ds.len() as int) =~= ds);
        assert forall|k: int| 0 <= k <= ds.len() implies 0 <= dec_val(#[trigger] ds.take(k))
            <= dec_val(ds) by {
            if k < ds.len() {
                assert(ds.take(k) =~= ds.drop_last().take(k));
                assert(dec_val(ds.drop_last()) * 10 >= dec_val(ds.drop_last())) by (nonlinear_arith)
                    requires dec_val(ds.drop_last()) >= 0;
            }
        }
    }
}

/// A canonical run of decimal digits is the decimal form of its own value.
pub proof fn lemma_digits_dec_of(ds: Seq<u8>)
    requires
        ds.len() >= 1,
        forall|i: int| 0 <= i < ds.len() ==> is_digit(#[trigger] ds[i]),
        ds[0] != 48 || ds.len() == 1,
    ensures
        dec_val(ds) >= 0,
        dec_of(dec_val(ds)) == ds,
        ds.len() >= 2 ==> dec_val(ds) >= 10,
    decreases ds.len(),
{
    if ds.len() == 1 {
        assert(dec_val(Seq::<u8>::empty()) == 0);
        assert(ds.drop_last() =~= Seq::<u8>::empty());
        assert(ds.last() == ds[0]);
        assert(dec_val(ds) == 0 * 10 + (ds[0] - 48));
        assert(0 <= dec_val(ds) < 10);
        assert(dec_of(dec_val(ds)) =~= ds);
    } else {
        let e = ds.drop_last();
        let d = ds.last() - 48;
        lemma_digits_dec_of(e);
        let ve = dec_val(e);
        if e.len() == 1 {
            assert(dec_val(Seq::<u8>::empty()) == 0);
            assert(e.drop_last() =~= Seq::<u8>::empty());
            assert(e.last() == e[0]);
            assert(ve == 0 * 10 + (e[0] - 48));
            assert(e[0] != 48 && is_digit(e[0]));
            assert(ve >= 1);
        }
        assert(ve >= 1);
        let vd = dec_val(ds);
        assert(vd == ve * 10 + d);
        assert(vd >= 10 && (vd / 10 == ve) && (vd % 10 == d)) by (nonlinear_arith)
            requires
                ve >= 1,
                0 <= d < 10,
                vd == ve * 10 + d,
        ;
        assert(dec_of(vd) == dec_of(ve) + seq![(48 + d) as u8]);
        assert((48 + d) as u8 == ds.last());
        assert(dec_of(vd) =~= ds);
    }
}

/// Parses a canonical decimal number at `start`: a non-empty digit run with
/// no leading zero whose value fits in a `u64`.
pub fn parse_u64(v: &[u8], start: usize) -> (r: Option<(u64, usize)>)
    requires
        start <= v@.len(),
    ensures
        r matches Some(p) ==> start < p.1 <= v@.len() && v@.subrange(start as int, p.1 as int)
            == dec_of(p.0 as int),
        forall|n: u64, rest: Seq<u8>| #[trigger] is_dec_at(v@, start as int, n, rest) ==> r is Some
            && r->Some_0.0 == n && r->Some_0.1 == start + dec_of(n as int).len(),
{
    let len = v.len();
    let mut j = start;
    while j < len && 48 <= v[j] && v[j] <= 57
        invariant
            start <= j <= len,
            len == v@.len(),
            forall|k: int| start <= k < j ==> is_digit(#[trigger] v@[k]),
        decreases len - j,
    {
        j = j + 1;
    }
    // j is the end of the maximal digit run at start
    assert(j == len || !is_digit(v@[j as int]));
    if j == start {
        proof {
            assert forall|n: u64, rest: Seq<u8>| !is_dec_at(v@, start as int, n, rest) by {
                if is_dec_at(v@, start as int, n, rest) {
                    lemma_dec_of_digits(n as int);
                    assert(v@.skip(start as int)[0] == dec_of(n as int)[0]);
                    assert(is_digit(v@[start as int]));
                }
            }
        }
        return None;
    }
    proof {
        assert forall|n: u64, rest: Seq<u8>| #[trigger] is_dec_at(v@, start as int, n, rest)
            implies v@.subrange(start as int, j as int) == dec_of(n as int) by {
            lemma_dec_of_digits(n as int);
            let dl = dec_of(n as int).len();
            // the run covers at least the digits of n
            if start + dl > len {
                assert(v@.skip(start as int).len() >= dl);
                assert(false);
            }
            assert forall|k: int| start <= k < start + dl implies is_digit(#[trigger] v@[k]) by {
                assert(v@.skip(start as int)[k - start] == dec_of(n as int)[k - start]);
            }
            if j < start + dl {
                assert(is_digit(v@[j as int]));
                assert(false);
            }
            // and no further: the byte after is rest[0], not a digit
            if j > start + dl {
                if rest.len() == 0 {
                    assert(v@.skip(start as int).len() == dl);
                    assert(len == start + dl);
                    assert(false);
                } else {
                    assert(v@.skip(start as int)[dl as int] == rest[0]);
                    assert(is_digit(v@[start + dl]));
                    assert(false);
                }
            }
            assert(v@.subrange(start as int, j as int) =~= dec_of(n as int));
        }
    }
    if v[start] == 48 && j > start + 1 {
        proof {
            assert forall|n: u64, rest: Seq<u8>| !is_dec_at(v@, start as int, n, rest) by {
                if is_dec_at(v@, start as int, n, rest) {
                    lemma_dec_of_digits(n as int);
                    assert(v@.subrange(start as int, j as int) == dec_of(n as int));
                    assert(dec_of(n as int)[0] == v@[start as int]);
                    assert(n == 0);
                    assert(dec_of(n as int).len() == 1);
                    assert(j == start + 1);
                }
            }
        }
        return None;
    }
    let ghost run = v@.subrange(start as int, j as int);
    proof {
        lemma_dec_val_bounds(run);
    }
    let mut acc: u64 = 0;
    let mut k = start;
    while k < j
        invariant
            start <= k <= j <= len,
            len == v@.len(),
            run == v@.subrange(start as int, j as int),
            forall|q: int| start <= q < j ==> is_digit(#[trigger] v@[q]),
            forall|q: int| 0 <= q <= run.len() ==> 0 <= dec_val(#[trigger] run.take(q)) <= dec_val(run),
            forall|n: u64, rest: Seq<u8>| #[trigger] is_dec_at(v@, start as int, n, rest) ==> run
                == dec_of(n as int),
            acc as int == dec_val(run.take(k - start)),
        decreases j - k,
    {
        let d: u8 = v[k] - 48;
        proof {
            assert(run[k - start] == v@[k as int]);
            assert(run.take(k + 1 - start).drop_last() =~= run.take(k - start));
            assert(run.take(k + 1 - start).last() == run[k - start]);
        }
        if acc > (u64::MAX - (d as u64)) / 10 {
            proof {
                let acci = acc as int;
                let di = d as int;
                assert(dec_val(run.take(k + 1 - start)) == acci * 10 + di);
                assert(acci * 10 + di > u64::MAX) by (nonlinear_arith)
                    requires
                        acci > (u64::MAX - di) / 10,
                        0 <= di < 10,
                        acci >= 0,
                ;
                assert forall|n: u64, rest: Seq<u8>| !is_dec_at(v@, start as int, n, rest) by {
                    if is_dec_at(v@, start as int, n, rest) {
                        assert(run == dec_of(n as int));
                        lemma_dec_val_dec_of(n as int);
                        assert(dec_val(run) == n as int);
                        assert(dec_val(run.take(k + 1 - start)) <= n as int);
                    }
                }
            }
            return None;
        }
        proof {
            let acci = acc as int;
            let di = d as int;
            assert(acci * 10 + di <= u64::MAX) by (nonlinear_arith)
                requires
                    acci <= (u64::MAX - di) / 10,
                    0 <= di < 10,
                    acci >= 0,
            ;
        }
        acc = acc * 10 + (d as u64);
        k = k + 1;
    }
    proof {
        assert(run.take(j - start) =~= run);
        assert(run.len() >= 1);
        assert(run[0] == v@[start as int]);
        if run.len() >= 2 {
            assert(v@[start as int] != 48);
        }
        lemma_digits_dec_of(run);
        assert(dec_of(acc as int) == run);
        assert forall|n: u64, rest: Seq<u8>| #[trigger] is_dec_at(v@, start as int, n, rest)
            implies acc == n && j == start + dec_of(n as int).len() by {
            assert(run == dec_of(n as int));
            lemma_dec_val_dec_of(n as int);
        }
    }
    Some((acc, j))
}


/// The escaping of string content `s`, a closing quote, and then `rest`,
/// stand at `start` in `v`.
pub open spec fn is_jstring_at(v: Seq<u8>, start: int, s: Seq<u8>, rest: Seq<u8>) -> bool {
    v.skip(start) == esc(s) + seq![34u8] + rest
}

proof fn lemma_seq_cancel(p: Seq<u8>, q1: Seq<u8>, q2: Seq<u8>)
    requires
        p + q1 == p + q2,
    ensures
        q1 == q2,
{
    assert((p + q1).len() == p.len() + q1.len());
    assert((p + q2).len() == p.len() + q2.len());
    assert(q1.len() == q2.len());
    assert forall|i: int| 0 <= i < q1.len() implies q1[i] == q2[i] by {
        assert((p + q1)[p.len() + i] == q1[i]);
        assert((p + q2)[p.len() + i] == q2[i]);
    }
    assert(q1 =~= q2);
}

proof fn lemma_hex_digit_inj(u: int, w: int)
    requires
        0 <= u < 16,
        0 <= w < 16,
        hex_digit(u) == hex_digit(w),
    ensures
        u == w,
{
}

proof fn lemma_esc_byte_shape(b: u8)
    ensures
        esc_byte(b).len() >= 1,
        esc_byte(b)[0] != 34,
        (b == 34 || b == 92 || b < 32) ==> esc_byte(b)[0] == 92 && esc_byte(b).len() >= 2,
        !(b == 34 || b == 92 || b < 32) ==> esc_byte(b) == seq![b],
{
}

/// The escaping of a string extended by one byte.
proof fn lemma_esc_snoc(a: Seq<u8>, c: u8)
    ensures
        esc(a.push(c)) == esc(a) + esc_byte(c),
    decreases a.len(),
{
    if a.len() == 0 {
        assert(a.push(c)[0] == c);
        assert(a.push(c).skip(1) =~= Seq::<u8>::empty());
        assert(esc(Seq::<u8>::empty()) =~= Seq::<u8>::empty());
        assert(esc(a.push(c)) == esc_byte(c) + esc(Seq::<u8>::empty()));
        assert(esc(a.push(c)) =~= esc_byte(c));
        assert(esc(a) + esc_byte(c) =~= esc_byte(c));
    } else {
        lemma_esc_snoc(a.skip(1), c);
        assert(a.push(c)[0] == a[0]);
        assert(a.push(c).skip(1) =~= a.skip(1).push(c));
        assert(esc(a.push(c)) == esc_byte(a[0]) + (esc(a.skip(1)) + esc_byte(c)));
        assert(esc(a.push(c)) =~= esc(a) + esc_byte(c));
    }
}

/// One escaped byte followed by anything determines the byte: the escapings
/// of two bytes never lead the same sequence unless the bytes are equal.
proof fn lemma_esc_byte_disambiguate(a0: u8, s0: u8, ta: Seq<u8>, ts: Seq<u8>)
    requires
        esc_byte(a0) + ta == esc_byte(s0) + ts,
    ensures
        a0 == s0,
        ta == ts,
{
    lemma_esc_byte_shape(a0);
    lemma_esc_byte_shape(s0);
    let w = esc_byte(a0) + ta;
    let a_esc = a0 == 34 || a0 == 92 || a0 < 32;
    let s_esc = s0 == 34 || s0 == 92 || s0 < 32;
    if a_esc != s_esc {
        // one is plain, one starts with a backslash, and a plain byte is
        // never a backslash
        assert(w[0] == esc_byte(a0)[0]);
        assert(w[0] == esc_byte(s0)[0]);
        assert(false);
    } else if !a_esc {
        assert(w[0] == a0 && w[0] == s0);
        lemma_seq_cancel(seq![a0], ta, ts);
    } else {
        assert(w[1] == esc_byte(a0)[1]);
        assert(w[1] == esc_byte(s0)[1]);
        if a0 == 34 || a0 == 92 {
            assert(a0 == s0);
            lemma_seq_cancel(esc_byte(a0), ta, ts);
        } else {
            assert(a0 < 32 && s0 < 32);
            assert(w[4] == hex_digit(a0 as int / 16) && w[4] == hex_digit(s0 as int / 16));
            assert(w[5] == hex_digit(a0 as int % 16) && w[5] == hex_digit(s0 as int % 16));
            lemma_hex_digit_inj(a0 as int / 16, s0 as int / 16);
            lemma_hex_digit_inj(a0 as int % 16, s0 as int % 16);
            assert(a0 as int == (a0 as int / 16) * 16 + a0 as int % 16);
            assert(a0 == s0);
            lemma_seq_cancel(esc_byte(a0), ta, ts);
        }
    }
}

/// Already-consumed escaped content is a prefix of any escaped string that
/// the whole input could stand for, and the remainder still matches.
proof fn lemma_esc_prefix(a: Seq<u8>, x: Seq<u8>, s: Seq<u8>, rest: Seq<u8>)
    requires
        esc(a) + x == esc(s) + seq![34u8] + rest,
    ensures
        a.len() <= s.len(),
        a == s.take(a.len() as int),
        x == esc(s.skip(a.len() as int)) + seq![34u8] + rest,
    decreases a.len(),
{
    if a.len() == 0 {
        assert(esc(a) + x =~= x);
        assert(s.take(0) =~= a);
        assert(s.skip(0) =~= s);
    } else {
        lemma_esc_byte_shape(a[0]);
        if s.len() == 0 {
            let w = esc(s) + seq![34u8] + rest;
            assert(w[0] == 34u8);
            assert(w == esc(a) + x);
            assert(w[0] == (esc_byte(a[0]) + esc(a.skip(1)))[0]);
            assert(w[0] == esc_byte(a[0])[0]);
            assert(false);
        }
        // both non-empty: peel the first escaped byte on each side
        assert(esc(a) + x == esc_byte(a[0]) + (esc(a.skip(1)) + x)) by {
            assert(esc(a) + x =~= esc_byte(a[0]) + (esc(a.skip(1)) + x));
        }
        assert(esc(s) + seq![34u8] + rest == esc_byte(s[0]) + (esc(s.skip(1)) + seq![34u8]
            + rest)) by {
            assert(esc(s) + seq![34u8] + rest =~= esc_byte(s[0]) + (esc(s.skip(1)) + seq![34u8]
                + rest));
        }
        lemma_esc_byte_disambiguate(a[0], s[0], esc(a.skip(1)) + x, esc(s.skip(1)) + seq![34u8]
            + rest);
        lemma_esc_prefix(a.skip(1), x, s.skip(1), rest);
        assert(a == s.take(a.len() as int)) by {
            assert(a.skip(1) == s.skip(1).take(a.len() - 1));
            assert forall|i: int| 0 <= i < a.len() implies a[i] == s.take(a.len() as int)[i] by {
                if i > 0 {
                    assert(a.skip(1)[i - 1] == s.skip(1).take(a.len() - 1)[i - 1]);
                }
            }
            assert(a =~= s.take(a.len() as int));
        }
        assert(s.skip(1).skip(a.len() - 1) =~= s.skip(a.len() as int));
    }
}

fn hex_val_of(b: u8) -> (r: Option<u8>)
    ensures
        r matches Some(x) ==> x < 16 && hex_digit(x as int) == b,
        r is None ==> forall|x: int| 0 <= x < 16 ==> hex_digit(x) != b,
{
    if 48 <= b && b <= 57 {
        Some(b - 48)
    } else if 97 <= b && b <= 102 {
        Some(b - 87)
    } else {
        None
    }
}

/// Parses escaped JSON string content beginning at `start`, up to but not
/// including the closing quote. Accepts exactly the byte sequences the
/// emitter produces.
pub fn parse_jstring(v: &[u8], start: usize) -> (r: Option<(Vec<u8>, usize)>)
    requires
        start <= v@.len(),
    ensures
        r matches Some(p) ==> start <= p.1 < v@.len() && v@.subrange(start as int, p.1 as int)
            == esc(p.0@) && v@[p.1 as int] == 34,
        forall|s: Seq<u8>, rest: Seq<u8>| #[trigger] is_jstring_at(v@, start as int, s, rest)
            ==> r is Some && r->Some_0.0@ == s && r->Some_0.1 == start + esc(s).len(),
{
    let len = v.len();
    let mut out: Vec<u8> = Vec::new();
    let mut cur = start;
    proof {
        assert(v@.subrange(start as int, start as int) =~= esc(out@));
    }
    loop
        invariant
            start <= cur <= len,
            len == v@.len(),
            v@.subrange(start as int, cur as int) == esc(out@),
        decreases len - cur,
    {
        proof {
            assert(v@.skip(start as int) =~= v@.subrange(start as int, cur as int) + v@.skip(
                cur as int));
        }
        if cur == len {
            proof {
                assert forall|s: Seq<u8>, rest: Seq<u8>| !is_jstring_at(v@, start as int, s, rest)
                    by {
                    if is_jstring_at(v@, start as int, s, rest) {
                        lemma_esc_prefix(out@, v@.skip(cur as int), s, rest);
                    }
                }
            }
            return None;
        }
        let b = v[cur];
        proof {
            assert(v@.skip(cur as int)[0] == v@[cur as int]);
        }
        if b == 34 {
            proof {
                assert forall|s: Seq<u8>, rest: Seq<u8>| #[trigger] is_jstring_at(
                    v@,
                    start as int,
                    s,
                    rest,
                ) implies out@ == s && cur == start + esc(s).len() by {
                    lemma_esc_prefix(out@, v@.skip(cur as int), s, rest);
                    let tail = s.skip(out@.len() as int);
                    if tail.len() > 0 {
                        lemma_esc_byte_shape(tail[0]);
                        assert(v@.skip(cur as int)[0] == (esc_byte(tail[0]) + (esc(tail.skip(1))
                            + seq![34u8] + rest))[0]);
                        assert(false);
                    }
                    assert(esc(tail) =~= Seq::<u8>::empty());
                    assert(out@ =~= s);
                }
            }
            return Some((out, cur));
        } else if b == 92 {
            if len - cur < 2 {
                proof {
                    assert forall|s: Seq<u8>, rest: Seq<u8>| !is_jstring_at(
                        v@,
                        start as int,
                        s,
                        rest,
                    ) by {
                        if is_jstring_at(v@, start as int, s, rest) {
                            lemma_esc_prefix(out@, v@.skip(cur as int), s, rest);
                            let tail = s.skip(out@.len() as int);
                            if tail.len() > 0 {
                                lemma_esc_byte_shape(tail[0]);
                                assert(v@.skip(cur as int).len() >= esc_byte(tail[0]).len() + 1);
                                assert(esc_byte(tail[0])[0] == v@.skip(cur as int)[0]);
                                assert(tail[0] == 34 || tail[0] == 92 || tail[0] < 32);
                                assert(v@.skip(cur as int).len() >= 3);
                            }
                        }
                    }
                }
                return None;
            }
            let e = v[cur + 1];
            proof {
                assert(v@.skip(cur as int)[1] == v@[cur + 1]);
                assert forall|s: Seq<u8>, rest: Seq<u8>| #[trigger] is_jstring_at(
                    v@,
                    start as int,
                    s,
                    rest,
                ) implies ({
                    let tail = s.skip(out@.len() as int);
                    tail.len() > 0 && (tail[0] == 34 || tail[0] == 92 || tail[0] < 32)
                        && v@.skip(cur as int) == esc_byte(tail[0]) + (esc(tail.skip(1))
                        + seq![34u8] + rest)
                }) by {
                    lemma_esc_prefix(out@, v@.skip(cur as int), s, rest);
                    let tail = s.skip(out@.len() as int);
                    if tail.len() == 0 {
                        assert(v@.skip(cur as int)[0] == 34u8);
                        assert(false);
                    }
                    lemma_esc_byte_shape(tail[0]);
                    assert(v@.skip(cur as int) =~= esc_byte(tail[0]) + (esc(tail.skip(1))
                        + seq![34u8] + rest));
                    assert(esc_byte(tail[0])[0] == 92u8);
                }
            }
            if e == 34 || e == 92 {
                let ghost pre_out = out@;
                let ghost pre_cur = cur as int;
                out.push(e);
                cur = cur + 2;
                proof {
                    lemma_esc_snoc(pre_out, e);
                    assert(out@ == pre_out.push(e));
                    assert(esc_byte(e) =~= seq![92u8, e]);
                    assert(v@.subrange(start as int, cur as int) =~= v@.subrange(
                        start as int,
                        pre_cur,
                    ) + seq![92u8, e]);
                }
            } else if e == 117 {
                if len - cur < 6 {
                    proof {
                        assert forall|s: Seq<u8>, rest: Seq<u8>| !is_jstring_at(
                            v@,
                            start as int,
                            s,
                            rest,
                        ) by {
                            if is_jstring_at(v@, start as int, s, rest) {
                                let tail = s.skip(out@.len() as int);
                                lemma_esc_byte_shape(tail[0]);
                                assert(v@.skip(cur as int)[1] == esc_byte(tail[0])[1]);
                                assert(tail[0] < 32);
                                assert(v@.skip(cur as int).len() >= 7);
                            }
                        }
                    }
                    return None;
                }
                let d2 = v[cur + 2];
                let d3 = v[cur + 3];
                let h1 = v[cur + 4];
                let h2 = v[cur + 5];
                proof {
                    assert(v@.skip(cur as int)[2] == v@[cur + 2]);
                    assert(v@.skip(cur as int)[3] == v@[cur + 3]);
                    assert(v@.skip(cur as int)[4] == v@[cur + 4]);
                    assert(v@.skip(cur as int)[5] == v@[cur + 5]);
                    assert forall|s: Seq<u8>, rest: Seq<u8>| #[trigger] is_jstring_at(
                        v@,
                        start as int,
                        s,
                        rest,
                    ) implies ({
                        let tail = s.skip(out@.len() as int);
                        tail.len() > 0 && tail[0] < 32 && d2 == 48 && d3 == 48 && h1 == hex_digit(
                            tail[0] as int / 16,
                        ) && h2 == hex_digit(tail[0] as int % 16)
                    }) by {
                        let tail = s.skip(out@.len() as int);
                        lemma_esc_byte_shape(tail[0]);
                        assert(v@.skip(cur as int)[1] == esc_byte(tail[0])[1]);
                        assert(tail[0] < 32);
                        assert(v@.skip(cur as int)[2] == esc_byte(tail[0])[2]);
                        assert(v@.skip(cur as int)[3] == esc_byte(tail[0])[3]);
                        assert(v@.skip(cur as int)[4] == esc_byte(tail[0])[4]);
                        assert(v@.skip(cur as int)[5] == esc_byte(tail[0])[5]);
                    }
                }
                if d2 != 48 || d3 != 48 {
                    return None;
                }
                let x1 = match hex_val_of(h1) {
                    Some(x) => x,
                    None => {
                        proof {
                            assert forall|s: Seq<u8>, rest: Seq<u8>| !is_jstring_at(
                                v@,
                                start as int,
                                s,
                                rest,
                            ) by {
                                if is_jstring_at(v@, start as int, s, rest) {
                                    let tail = s.skip(out@.len() as int);
                                    assert(hex_digit(tail[0] as int / 16) != h1);
                                }
                            }
                        }
                        return None;
                    },
                };
                let x2 = match hex_val_of(h2) {
                    Some(x) => x,
                    None => {
                        proof {
                            assert forall|s: Seq<u8>, rest: Seq<u8>| !is_jstring_at(
                                v@,
                                start as int,
                                s,
                                rest,
                            ) by {
                                if is_jstring_at(v@, start as int, s, rest) {
                                    let tail = s.skip(out@.len() as int);
                                    assert(hex_digit(tail[0] as int % 16) != h2);
                                }
                            }
                        }
                        return None;
                    },
                };
                let c: u8 = x1 * 16 + x2;
                if c >= 32 {
                    proof {
                        assert forall|s: Seq<u8>, rest: Seq<u8>| !is_jstring_at(
                            v@,
                            start as int,
                            s,
                            rest,
                        ) by {
                            if is_jstring_at(v@, start as int, s, rest) {
                                let tail = s.skip(out@.len() as int);
                                let t0 = tail[0] as int;
                                lemma_hex_digit_inj(t0 / 16, x1 as int);
                                lemma_hex_digit_inj(t0 % 16, x2 as int);
                                assert(t0 == (t0 / 16) * 16 + t0 % 16);
                                assert(tail[0] == c);
                            }
                        }
                    }
                    return None;
                }
                let ghost pre_out = out@;
                let ghost pre_cur = cur as int;
                out.push(c);
                cur = cur + 6;
                proof {
                    lemma_esc_snoc(pre_out, c);
                    assert(out@ == pre_out.push(c));
                    assert((c / 16) as int == c as int / 16);
                    assert((c % 16) as int == c as int % 16);
                    assert(hex_digit(c as int / 16) == hex_digit(x1 as int)) by {
                        assert(c == x1 * 16 + x2 && x2 < 16);
                        assert(c as int / 16 == x1 as int) by (nonlinear_arith)
                            requires
                                c == x1 * 16 + x2,
                                0 <= x2 < 16,
                                0 <= x1,
                        ;
                    }
                    assert(hex_digit(c as int % 16) == hex_digit(x2 as int)) by {
                        assert(c as int % 16 == x2 as int) by (nonlinear_arith)
                            requires
                                c == x1 * 16 + x2,
                                0 <= x2 < 16,
                                0 <= x1,
                        ;
                    }
                    assert(esc_byte(c) =~= seq![92u8, 117u8, 48u8, 48u8, h1, h2]);
                    assert(v@.subrange(start as int, cur as int) =~= v@.subrange(
                        start as int,
                        pre_cur,
                    ) + seq![92u8, 117u8, 48u8, 48u8, h1, h2]);
                }
            } else {
                proof {
                    assert forall|s: Seq<u8>, rest: Seq<u8>| !is_jstring_at(
                        v@,
                        start as int,
                        s,
                        rest,
                    ) by {
                        if is_jstring_at(v@, start as int, s, rest) {
                            let tail = s.skip(out@.len() as int);
                            lemma_esc_byte_shape(tail[0]);
                            assert(v@.skip(cur as int)[1] == esc_byte(tail[0])[1]);
                        }
                    }
                }
                return None;
            }
        } else if b < 32 {
            proof {
                assert forall|s: Seq<u8>, rest: Seq<u8>| !is_jstring_at(v@, start as int, s, rest)
                    by {
                    if is_jstring_at(v@, start as int, s, rest) {
                        lemma_esc_prefix(out@, v@.skip(cur as int), s, rest);
                        let tail = s.skip(out@.len() as int);
                        if tail.len() == 0 {
                            assert(v@.skip(cur as int)[0] == 34u8);
                        } else {
                            lemma_esc_byte_shape(tail[0]);
                            assert(v@.skip(cur as int)[0] == esc_byte(tail[0])[0]);
                        }
                    }
                }
            }
            return None;
        } else {
            let ghost pre_out = out@;
            let ghost pre_cur = cur as int;
            out.push(b);
            cur = cur + 1;
            proof {
                lemma_esc_snoc(pre_out, b);
                assert(out@ == pre_out.push(b));
                assert(esc_byte(b) =~= seq![b]);
                assert(v@.subrange(start as int, cur as int) =~= v@.subrange(start as int, pre_cur)
                    + seq![b]);
            }
        }
    }
}


/// Returns whether the bytes of `lit` stand at `at` in `v`.
pub(crate) fn match_lit(v: &[u8], at: usize, lit: &[u8]) -> (b: bool)
    requires
        at <= v@.len(),
    ensures
        b == (at + lit@.len() <= v@.len() && v@.subrange(at as int, at + lit@.len()) == lit@),
{
    let m = lit.len();
    let n = v.len();
    if n - at < m {
        return false;
    }
    let mut k: usize = 0;
    while k < m
        invariant
            k <= m,
            m == lit@.len(),
            n == v@.len(),
            at + m <= n,
            forall|q: int| 0 <= q < k ==> v@[at + q] == lit@[q],
        decreases m - k,
    {
        if v[at + k] != lit[k] {
            proof {
                assert(v@.subrange(at as int, at + m)[k as int] == v@[at + k]);
            }
            return false;
        }
        k = k + 1;
    }
    proof {
        assert(v@.subrange(at as int, at + m) =~= lit@);
    }
    true
}


/// Where each piece of a serialized payload stands: the literal markers, the
/// escaped subject and role, and the two decimal timestamps, in order.
#[verifier::spinoff_prover]
#[verifier::rlimit(100)]
pub proof fn lemma_payload_structure(sub: Seq<u8>, iat: u64, exp: u64, role: Seq<u8>)
    ensures
        ({
            let w = json_payload(sub, iat, exp, role);
            let o1 = 8 + esc(sub).len() as int;
            let o2 = o1 + 8 + dec_of(iat as int).len() as int;
            let o3 = o2 + 7 + dec_of(exp as int).len() as int;
            let o4 = o3 + 9 + esc(role).len() as int;
            w.len() == o4 + 2 && w.subrange(0, 8) == lit_sub() && is_jstring_at(
                w,
                8,
                sub,
                lit_iat().skip(1) + dec_of(iat as int) + lit_exp() + dec_of(exp as int)
                    + lit_role() + esc(role) + lit_end(),
            ) && w.subrange(o1, o1 + 8) == lit_iat() && is_dec_at(
                w,
                o1 + 8,
                iat,
                lit_exp() + dec_of(exp as int) + lit_role() + esc(role) + lit_end(),
            ) && w.subrange(o2, o2 + 7) == lit_exp() && is_dec_at(
                w,
                o2 + 7,
                exp,
                lit_role() + esc(role) + lit_end(),
            ) && w.subrange(o3, o3 + 9) == lit_role() && is_jstring_at(
                w,
                o3 + 9,
                role,
                seq![125u8],
            ) && w.subrange(o4, o4 + 2) == lit_end()
        }),
{
    let w = json_payload(sub, iat, exp, role);
    let o1 = 8 + esc(sub).len() as int;
    let o2 = o1 + 8 + dec_of(iat as int).len() as int;
    let o3 = o2 + 7 + dec_of(exp as int).len() as int;
    let o4 = o3 + 9 + esc(role).len() as int;
    assert(w.len() == o4 + 2);
    assert(w.subrange(0, 8) =~= lit_sub());
    assert(w.skip(8) =~= esc(sub) + seq![34u8] + (lit_iat().skip(1) + dec_of(iat as int)
        + lit_exp() + dec_of(exp as int) + lit_role() + esc(role) + lit_end()));
    assert(w.subrange(o1, o1 + 8) =~= lit_iat());
    assert(w.skip(o1 + 8) =~= dec_of(iat as int) + (lit_exp() + dec_of(exp as int) + lit_role()
        + esc(role) + lit_end()));
    assert((lit_exp() + dec_of(exp as int) + lit_role() + esc(role) + lit_end())[0] == 44u8);
    assert(w.subrange(o2, o2 + 7) =~= lit_exp());
    assert(w.skip(o2 + 7) =~= dec_of(exp as int) + (lit_role() + esc(role) + lit_end()));
    assert((lit_role() + esc(role) + lit_end())[0] == 44u8);
    assert(w.subrange(o3, o3 + 9) =~= lit_role());
    assert(w.skip(o3 + 9) =~= esc(role) + seq![34u8] + seq![125u8]);
    assert(w.subrange(o4, o4 + 2) =~= lit_end());
}

/// Parses a serialized claims payload; accepts exactly the byte sequences
/// that `emit_payload` produces and returns the field values they came from.
#[verifier::rlimit(100)]
pub fn parse_payload(v: &[u8]) -> (r: Option<(Vec<u8>, u64, u64, Vec<u8>)>)
    ensures
        r matches Some(p) ==> v@ == json_payload(p.0@, p.1, p.2, p.3@),
        forall|sub: Seq<u8>, iat: u64, exp: u64, role: Seq<u8>|
            v@ == #[trigger] json_payload(sub, iat, exp, role) ==> r is Some && r->Some_0.0@ == sub
                && r->Some_0.1 == iat && r->Some_0.2 == exp && r->Some_0.3@ == role,
{
    proof {
        assert forall|sub: Seq<u8>, iat: u64, exp: u64, role: Seq<u8>|
            v@ == #[trigger] json_payload(sub, iat, exp, role) implies v@.subrange(
            0,
            8,
        ) == lit_sub() && is_jstring_at(
            v@,
            8,
            sub,
            lit_iat().skip(1) + dec_of(iat as int) + lit_exp() + dec_of(exp as int) + lit_role()
                + esc(role) + lit_end(),
        ) by {
            lemma_payload_structure(sub, iat, exp, role);
        }
    }
    let n = v.len();
    let lit = lit_sub_exec();
    if !match_lit(v, 0, lit.as_slice()) {
        return None;
    }
    let r1 = parse_jstring(v, 8);
    let (sub, j1) = match r1 {
        Some(p) => p,
        None => {
            return None;
        },
    };
    // j1 is the closing quote of the subject: `","iat":` must stand there
    proof {
        assert forall|subq: Seq<u8>, iat: u64, exp: u64, role: Seq<u8>|
            v@ == #[trigger] json_payload(subq, iat, exp, role) implies subq == sub@ && j1 == 8
            + esc(sub@).len() && v@.subrange(j1 as int, j1 + 8) == lit_iat() && is_dec_at(
            v@,
            j1 + 8,
            iat,
            lit_exp() + dec_of(exp as int) + lit_role() + esc(role) + lit_end(),
        ) by {
            lemma_payload_structure(subq, iat, exp, role);
        }
    }
    let lit = lit_iat_exec();
    if !match_lit(v, j1, lit.as_slice()) {
        return None;
    }
    let r2 = parse_u64(v, j1 + 8);
    let (iat, j2) = match r2 {
        Some(p) => p,
        None => {
            return None;
        },
    };
    proof {
        assert forall|subq: Seq<u8>, iatq: u64, exp: u64, role: Seq<u8>|
            v@ == #[trigger] json_payload(subq, iatq, exp, role) implies iatq == iat && j2 == j1 + 8
            + dec_of(iat as int).len() && v@.subrange(j2 as int, j2 + 7) == lit_exp() && is_dec_at(
            v@,
            j2 + 7,
            exp,
            lit_role() + esc(role) + lit_end(),
        ) by {
            lemma_payload_structure(subq, iatq, exp, role);
        }
    }
    let lit = lit_exp_exec();
    if !match_lit(v, j2, lit.as_slice()) {
        return None;
    }
    let r3 = parse_u64(v, j2 + 7);
    let (exp, j3) = match r3 {
        Some(p) => p,
        None => {
            return None;
        },
    };
    proof {
        assert forall|subq: Seq<u8>, iatq: u64, expq: u64, role: Seq<u8>|
            v@ == #[trigger] json_payload(subq, iatq, expq, role) implies expq == exp && j3 == j2
            + 7 + dec_of(exp as int).len() && v@.subrange(j3 as int, j3 + 9) == lit_role()
            && is_jstring_at(v@, j3 + 9, role, seq![125u8]) by {
            lemma_payload_structure(subq, iatq, expq, role);
        }
    }
    let lit = lit_role_exec();
    if !match_lit(v, j3, lit.as_slice()) {
        return None;
    }
    let r4 = parse_jstring(v, j3 + 9);
    let (role, j4) = match r4 {
        Some(p) => p,
        None => {
            return None;
        },
    };
    proof {
        assert forall|subq: Seq<u8>, iatq: u64, expq: u64, roleq: Seq<u8>|
            v@ == #[trigger] json_payload(subq, iatq, expq, roleq) implies roleq == role@ && j4
            == j3 + 9 + esc(role@).len() && v@.subrange(j4 as int, j4 + 2) == lit_end() && v@.len()
            == j4 + 2 by {
            lemma_payload_structure(subq, iatq, expq, roleq);
        }
    }
    let lit = lit_end_exec();
    if !match_lit(v, j4, lit.as_slice()) {
        return None;
    }
    if j4 + 2 != n {
        return None;
    }
    proof {
        assert(v@ =~= json_payload(sub@, iat, exp, role@));
    }
    Some((sub, iat, exp, role))
}


/// Two decimal numbers standing at the same place are the same number.
pub proof fn lemma_dec_at_unambiguous(
    v: Seq<u8>,
    start: int,
    n1: u64,
    rest1: Seq<u8>,
    n2: u64,
    rest2: Seq<u8>,
)
    requires
        is_dec_at(v, start, n1, rest1),
        is_dec_at(v, start, n2, rest2),
    ensures
        n1 == n2,
{
    lemma_dec_of_digits(n1 as int);
    lemma_dec_of_digits(n2 as int);
    let d1 = dec_of(n1 as int);
    let d2 = dec_of(n2 as int);
    let w = v.skip(start);
    assert(w == d1 + rest1 && w == d2 + rest2);
    if d1.len() < d2.len() {
        if rest1.len() == 0 {
            assert(w.len() == d1.len());
            assert(w.len() >= d2.len());
            assert(false);
        } else {
            assert(rest1[0] == w[d1.len() as int]);
            assert(w[d1.len() as int] == d2[d1.len() as int]);
            assert(is_digit(d2[d1.len() as int]));
            assert(false);
        }
    }
    if d2.len() < d1.len() {
        if rest2.len() == 0 {
            assert(w.len() == d2.len());
            assert(w.len() >= d1.len());
            assert(false);
        } else {
            assert(rest2[0] == w[d2.len() as int]);
            assert(w[d2.len() as int] == d1[d2.len() as int]);
            assert(is_digit(d1[d2.len() as int]));
            assert(false);
        }
    }
    assert forall|q: int| 0 <= q < d1.len() implies d1[q] == d2[q] by {
        assert(d1[q] == w[q]);
        assert(d2[q] == w[q]);
    }
    assert(d1 =~= d2);
    lemma_dec_val_dec_of(n1 as int);
    lemma_dec_val_dec_of(n2 as int);
}

/// Two escaped strings closed by a quote at the same place are the same
/// string.
pub proof fn lemma_jstring_at_unambiguous(
    v: Seq<u8>,
    start: int,
    s1: Seq<u8>,
    rest1: Seq<u8>,
    s2: Seq<u8>,
    rest2: Seq<u8>,
)
    requires
        is_jstring_at(v, start, s1, rest1),
        is_jstring_at(v, start, s2, rest2),
    ensures
        s1 == s2,
        rest1 == rest2,
{
    assert(esc(s1) + (seq![34u8] + rest1) =~= esc(s1) + seq![34u8] + rest1);
    lemma_esc_prefix(s1, seq![34u8] + rest1, s2, rest2);
    let tail = s2.skip(s1.len() as int);
    if tail.len() > 0 {
        lemma_esc_byte_shape(tail[0]);
        assert((seq![34u8] + rest1)[0] == (esc_byte(tail[0]) + (esc(tail.skip(1)) + seq![34u8]
            + rest2))[0]);
        assert(false);
    }
    assert(esc(tail) =~= Seq::<u8>::empty());
    assert(s1 =~= s2.take(s1.len() as int));
    assert(s2.take(s2.len() as int) =~= s2);
    assert((seq![34u8] + rest1)[0] == (esc(tail) + seq![34u8] + rest2)[0]);
    lemma_seq_cancel(seq![34u8], rest1, rest2);
    assert(seq![34u8] + rest1 =~= esc(tail) + seq![34u8] + rest2);
}

/// A serialized payload determines its field values: no two different claim
/// field tuples serialize to the same bytes.
pub proof fn lemma_payload_unambiguous(
    s1: Seq<u8>,
    i1: u64,
    e1: u64,
    r1: Seq<u8>,
    s2: Seq<u8>,
    i2: u64,
    e2: u64,
    r2: Seq<u8>,
)
    requires
        json_payload(s1, i1, e1, r1) == json_payload(s2, i2, e2, r2),
    ensures
        s1 == s2,
        i1 == i2,
        e1 == e2,
        r1 == r2,
{
    let w = json_payload(s1, i1, e1, r1);
    lemma_payload_structure(s1, i1, e1, r1);
    lemma_payload_structure(s2, i2, e2, r2);
    lemma_jstring_at_unambiguous(
        w,
        8,
        s1,
        lit_iat().skip(1) + dec_of(i1 as int) + lit_exp() + dec_of(e1 as int) + lit_role() + esc(
            r1,
        ) + lit_end(),
        s2,
        lit_iat().skip(1) + dec_of(i2 as int) + lit_exp() + dec_of(e2 as int) + lit_role() + esc(
            r2,
        ) + lit_end(),
    );
    let o1 = 8 + esc(s1).len() as int;
    lemma_dec_at_unambiguous(
        w,
        o1 + 8,
        i1,
        lit_exp() + dec_of(e1 as int) + lit_role() + esc(r1) + lit_end(),
        i2,
        lit_exp() + dec_of(e2 as int) + lit_role() + esc(r2) + lit_end(),
    );
    let o2 = o1 + 8 + dec_of(i1 as int).len() as int;
    lemma_dec_at_unambiguous(
        w,
        o2 + 7,
        e1,
        lit_role() + esc(r1) + lit_end(),
        e2,
        lit_role() + esc(r2) + lit_end(),
    );
    let o3 = o2 + 7 + dec_of(e1 as int).len() as int;
    lemma_jstring_at_unambiguous(w, o3 + 9, r1, seq![125u8], r2, seq![125u8]);
}

} // verus!
