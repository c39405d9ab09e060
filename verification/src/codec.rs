//! The byte codec for typed records.
//!
//! Every record is serialized to a deterministic byte string: integers in
//! little-endian base 256, strings as a length prefix followed by their UTF-8
//! bytes. Decoding is total and exact: it succeeds precisely on the encodings
//! that this codec produces for the expected record kind, consuming the whole
//! byte string, and fails with a schema mismatch otherwise.

use vstd::prelude::*;
use vstd::arithmetic::div_mod::{lemma_fundamental_div_mod, lemma_multiply_divide_lt};
use vstd::utf8::{
    char_is_scalar, decode_utf8, encode_utf8, encode_utf8_decode_utf8, encode_utf8_valid_utf8,
    is_scalar, valid_utf8,
};
use crate::effort::{effort_from_parts, Effort};
use crate::records::{Address, Aim, AimV, Connection, ConnectionV, DecodeError, EntryKind,
    Profile, ProfileV, Record, RecordV};

verus! {

/// 256 to the n-th power: the number of byte strings of length n.
pub open spec fn pow256(n: nat) -> nat
    decreases n,
{
    if n == 0 {
        1
    } else {
        256 * pow256((n - 1) as nat)
    }
}

/// The little-endian base-256 encoding of `v` in exactly `n` bytes.
pub open spec fn enc_uint(v: nat, n: nat) -> Seq<u8>
    decreases n,
{
    if n == 0 {
        Seq::empty()
    } else {
        seq![(v % 256) as u8] + enc_uint(v / 256, (n - 1) as nat)
    }
}

/// The value of the first `n` bytes of `b`, read as little-endian base 256.
pub open spec fn dec_uint(b: Seq<u8>, n: nat) -> nat
    decreases n,
{
    if n == 0 || b.len() == 0 {
        0
    } else {
        (b[0] + 256 * dec_uint(b.skip(1), (n - 1) as nat)) as nat
    }
}

/// Reading `n` bytes as an integer consumes exactly those bytes.
pub open spec fn read_uint(b: Seq<u8>, n: nat) -> Option<(nat, Seq<u8>)> {
    if b.len() >= n {
        Some((dec_uint(b, n), b.skip(n as int)))
    } else {
        None
    }
}

pub proof fn lemma_enc_uint_len(v: nat, n: nat)
    ensures
        enc_uint(v, n).len() == n,
    decreases n,
{
    if n > 0 {
        lemma_enc_uint_len(v / 256, (n - 1) as nat);
    }
}

pub proof fn lemma_dec_uint_bound(b: Seq<u8>, n: nat)
    ensures
        dec_uint(b, n) < pow256(n),
    decreases n,
{
    if n == 0 || b.len() == 0 {
        lemma_pow256_pos(n);
    } else {
        lemma_dec_uint_bound(b.skip(1), (n - 1) as nat);
        assert(dec_uint(b, n) == b[0] + 256 * dec_uint(b.skip(1), (n - 1) as nat));
        assert(b[0] < 256);
        assert(256 * dec_uint(b.skip(1), (n - 1) as nat) <= 256 * (pow256((n - 1) as nat) - 1))
            by (nonlinear_arith)
            requires
                dec_uint(b.skip(1), (n - 1) as nat) <= pow256((n - 1) as nat) - 1,
        ;
    }
}

pub proof fn lemma_pow256_pos(n: nat)
    ensures
        pow256(n) >= 1,
    decreases n,
{
    if n > 0 {
        lemma_pow256_pos((n - 1) as nat);
    }
}

/// Reading an integer back from its encoding, followed by anything, yields
/// the value and leaves the rest.
pub proof fn lemma_read_enc_uint(v: nat, n: nat, rest: Seq<u8>)
    requires
        v < pow256(n),
    ensures
        read_uint(enc_uint(v, n) + rest, n) == Some((v, rest)),
    decreases n,
{
    lemma_enc_uint_len(v, n);
    let b = enc_uint(v, n) + rest;
    lemma_dec_enc_uint(v, n, rest);
    assert(b.skip(n as int) =~= rest);
}

proof fn lemma_dec_enc_uint(v: nat, n: nat, rest: Seq<u8>)
    requires
        v < pow256(n),
    ensures
        dec_uint(enc_uint(v, n) + rest, n) == v,
    decreases n,
{
    if n == 0 {
    } else {
        let b = enc_uint(v, n) + rest;
        lemma_enc_uint_len(v, n);
        assert(b.len() > 0);
        assert(b[0] == (v % 256) as u8);
        assert(b.skip(1) =~= enc_uint(v / 256, (n - 1) as nat) + rest);
        assert(v / 256 < pow256((n - 1) as nat)) by {
            lemma_pow256_pos((n - 1) as nat);
            lemma_multiply_divide_lt(v as int, 256, pow256((n - 1) as nat) as int);
        }
        lemma_dec_enc_uint(v / 256, (n - 1) as nat, rest);
        lemma_fundamental_div_mod(v as int, 256);
        assert(v % 256 < 256);
        assert(dec_uint(b, n) == (v % 256) + 256 * (v / 256));
    }
}

/// Appends the `n`-byte little-endian encoding of `v` to `out`.
fn enc_uint_exec(out: &mut Vec<u8>, v: u64, n: usize)
    requires
        n <= 8,
    ensures
        final(out)@ == old(out)@ + enc_uint(v as nat, n as nat),
{
    let mut x: u64 = v;
    let mut k: usize = 0;
    proof {
        assert(old(out)@ + enc_uint(v as nat, n as nat) =~= out@ + enc_uint(
            x as nat,
            (n - k) as nat,
        ));
    }
    while k < n
        invariant
            k <= n,
            old(out)@ + enc_uint(v as nat, n as nat) == out@ + enc_uint(x as nat, (n - k) as nat),
        decreases n - k,
    {
        let ghost pre = out@;
        let ghost xs = x as nat;
        let b: u8 = (x % 256) as u8;
        out.push(b);
        x = x / 256;
        k = k + 1;
        proof {
            assert(enc_uint(xs, (n - k + 1) as nat) == seq![(xs % 256) as u8] + enc_uint(
                xs / 256,
                (n - k) as nat,
            ));
            assert(pre + enc_uint(xs, (n - k + 1) as nat) =~= out@ + enc_uint(
                x as nat,
                (n - k) as nat,
            ));
        }
    }
    proof {
        assert(enc_uint(x as nat, 0) =~= Seq::<u8>::empty());
        assert(out@ + enc_uint(x as nat, 0) =~= out@);
    }
}

/// Reads an `n`-byte little-endian integer from `b` at position `i`.
fn read_uint_exec(b: &Vec<u8>, i: usize, n: usize) -> (r: Option<(u64, usize)>)
    requires
        i <= b@.len(),
        n <= 8,
    ensures
        match r {
            Some(p) => {
                &&& read_uint(b@.skip(i as int), n as nat) == Some(
                    (p.0 as nat, b@.skip(p.1 as int)),
                )
                &&& p.1 == i + n
                &&& p.1 <= b@.len()
            },
            None => read_uint(b@.skip(i as int), n as nat) is None,
        },
{
    if b.len() - i < n {
        return None;
    }
    let mut v: u64 = 0;
    let mut k: usize = n;
    while k > 0
        invariant
            k <= n,
            n <= 8,
            i + n <= b@.len(),
            b@.len() <= usize::MAX,
            v as nat == dec_uint(b@.skip((i + k) as int), (n - k) as nat),
        decreases k,
    {
        k = k - 1;
        let ghost oldv = v as nat;
        proof {
            lemma_dec_uint_bound(b@.skip((i + k + 1) as int), (n - k - 1) as nat);
            lemma_pow256_le(((n - k - 1) as nat), 7);
            assert(pow256(7) == 0x100000000000000) by {
                reveal_with_fuel(pow256, 8);
            }
            assert(v * 256 + 255 < 256 * 0x100000000000000) by (nonlinear_arith)
                requires
                    v < 0x100000000000000,
            ;
        }
        v = v * 256 + (b[i + k] as u64);
        proof {
            let s = b@.skip((i + k) as int);
            assert(s.len() > 0);
            assert(s[0] == b@[(i + k) as int]);
            assert(s.skip(1) =~= b@.skip((i + k + 1) as int));
            assert(dec_uint(s, (n - k) as nat) == s[0] + 256 * oldv);
        }
    }
    proof {
        assert(b@.skip(i as int).len() >= n);
        assert(b@.skip(i as int).skip(n as int) =~= b@.skip((i + n) as int));
    }
    Some((v, i + n))
}

// ---------------------------------------------------------------------------
// Strings: a length prefix followed by the UTF-8 bytes.
// ---------------------------------------------------------------------------

/// A character sequence whose UTF-8 encoding fits behind a length prefix.
pub open spec fn wf_str(s: Seq<char>) -> bool {
    encode_utf8(s).len() < pow256(8)
}

/// The encoding of a string: its UTF-8 byte count, then its UTF-8 bytes.
pub open spec fn enc_str(s: Seq<char>) -> Seq<u8> {
    enc_uint(encode_utf8(s).len(), 8) + encode_utf8(s)
}

/// Reads back a length-prefixed UTF-8 string; fails on short or invalid bytes.
pub open spec fn read_str(b: Seq<u8>) -> Option<(Seq<char>, Seq<u8>)> {
    match read_uint(b, 8) {
        Some((n, rest)) => {
            if rest.len() >= n && valid_utf8(rest.take(n as int)) {
                Some((decode_utf8(rest.take(n as int)), rest.skip(n as int)))
            } else {
                None
            }
        },
        None => None,
    }
}

/// Reading a string back from its encoding yields the string and the rest.
pub proof fn lemma_read_enc_str(s: Seq<char>, rest: Seq<u8>)
    requires
        wf_str(s),
    ensures
        read_str(enc_str(s) + rest) == Some((s, rest)),
{
    let u = encode_utf8(s);
    assert(enc_str(s) + rest =~= enc_uint(u.len(), 8) + (u + rest));
    lemma_read_enc_uint(u.len(), 8, u + rest);
    assert((u + rest).take(u.len() as int) =~= u);
    assert((u + rest).skip(u.len() as int) =~= rest);
    encode_utf8_valid_utf8(s);
    encode_utf8_decode_utf8(s);
}

/// Relies on `String::from_utf8`: it returns `Ok` exactly on valid UTF-8
/// input, and the characters of the resulting string decode that input.
#[verifier::external_body]
fn string_from_utf8(bytes: Vec<u8>) -> (r: Option<String>)
    ensures
        r is Some <==> valid_utf8(bytes@),
        r is Some ==> r.unwrap()@ == decode_utf8(bytes@),
{
    String::from_utf8(bytes).ok()
}

/// Relies on `char::from_u32`: it returns `Some` exactly when the value is a
/// Unicode scalar value, and then the character has that value.
#[verifier::external_body]
fn char_from_u32(v: u32) -> (r: Option<char>)
    ensures
        r is Some <==> is_scalar(v),
        r is Some ==> r.unwrap() as u32 == v,
{
    char::from_u32(v)
}

/// Appends the encoding of `s` to `out`.
fn enc_str_exec(out: &mut Vec<u8>, s: &str)
    ensures
        final(out)@ == old(out)@ + enc_str(s@),
        wf_str(s@),
{
    let bytes: &[u8] = s.as_bytes();
    let n: usize = bytes.len();
    proof {
        assert(pow256(8) == 0x10000000000000000) by {
            reveal_with_fuel(pow256, 9);
        }
        assert((n as u64) as nat == encode_utf8(s@).len());
    }
    enc_uint_exec(out, n as u64, 8);
    let mut j: usize = 0;
    proof {
        assert(out@ =~= old(out)@ + enc_uint(encode_utf8(s@).len(), 8) + encode_utf8(s@).take(0));
    }
    while j < n
        invariant
            j <= n,
            n == bytes@.len(),
            bytes@ == encode_utf8(s@),
            out@ == old(out)@ + enc_uint(encode_utf8(s@).len(), 8) + encode_utf8(s@).take(j as int),
        decreases n - j,
    {
        let ghost pre = out@;
        out.push(bytes[j]);
        j = j + 1;
        proof {
            assert(out@ =~= old(out)@ + enc_uint(encode_utf8(s@).len(), 8) + encode_utf8(
                s@,
            ).take(j as int));
        }
    }
    proof {
        assert(encode_utf8(s@).take(n as int) =~= encode_utf8(s@));
        assert(out@ =~= old(out)@ + enc_str(s@));
    }
}

/// Reads a length-prefixed UTF-8 string from `b` at position `i`.
fn read_str_exec(b: &Vec<u8>, i: usize) -> (r: Option<(String, usize)>)
    requires
        i <= b@.len(),
    ensures
        match r {
            Some(p) => {
                &&& read_str(b@.skip(i as int)) == Some((p.0@, b@.skip(p.1 as int)))
                &&& i <= p.1 <= b@.len()
            },
            None => read_str(b@.skip(i as int)) is None,
        },
{
    let (n, j) = match read_uint_exec(b, i, 8) {
        Some(p) => p,
        None => {
            return None;
        },
    };
    let avail: u64 = (b.len() - j) as u64;
    if avail < n {
        return None;
    }
    let n: usize = n as usize;
    let mut sub: Vec<u8> = Vec::new();
    let mut k: usize = 0;
    proof {
        assert(sub@ =~= b@.subrange(j as int, j as int));
    }
    while k < n
        invariant
            k <= n,
            j + n <= b@.len(),
            b@.len() <= usize::MAX,
            sub@ == b@.subrange(j as int, (j + k) as int),
        decreases n - k,
    {
        sub.push(b[j + k]);
        k = k + 1;
        proof {
            assert(sub@ =~= b@.subrange(j as int, (j + k) as int));
        }
    }
    proof {
        assert(b@.skip(j as int).take(n as int) =~= b@.subrange(j as int, (j + n) as int));
        assert(b@.skip(j as int).skip(n as int) =~= b@.skip((j + n) as int));
    }
    match string_from_utf8(sub) {
        Some(s) => Some((s, j + n)),
        None => None,
    }
}

// ---------------------------------------------------------------------------
// Raw byte strings: a length prefix followed by the bytes themselves.
// ---------------------------------------------------------------------------

/// A byte string that fits behind a length prefix.
pub open spec fn wf_bytes(b: Seq<u8>) -> bool {
    b.len() < pow256(8)
}

/// The encoding of a raw byte string: its length, then its bytes.
pub open spec fn enc_bytes(b: Seq<u8>) -> Seq<u8> {
    enc_uint(b.len(), 8) + b
}

/// Reads back a length-prefixed byte string; fails on short input.
pub open spec fn read_bytes(b: Seq<u8>) -> Option<(Seq<u8>, Seq<u8>)> {
    match read_uint(b, 8) {
        Some((n, rest)) => {
            if rest.len() >= n {
                Some((rest.take(n as int), rest.skip(n as int)))
            } else {
                None
            }
        },
        None => None,
    }
}

/// Reading a byte string back from its encoding yields it and the rest.
pub proof fn lemma_read_enc_bytes(v: Seq<u8>, rest: Seq<u8>)
    requires
        wf_bytes(v),
    ensures
        read_bytes(enc_bytes(v) + rest) == Some((v, rest)),
{
    assert(enc_bytes(v) + rest =~= enc_uint(v.len(), 8) + (v + rest));
    lemma_read_enc_uint(v.len(), 8, v + rest);
    assert((v + rest).take(v.len() as int) =~= v);
    assert((v + rest).skip(v.len() as int) =~= rest);
}

/// Appends the encoding of the byte string `v` to `out`.
fn enc_bytes_exec(out: &mut Vec<u8>, v: &Vec<u8>)
    ensures
        final(out)@ == old(out)@ + enc_bytes(v@),
        wf_bytes(v@),
{
    let n: usize = v.len();
    proof {
        assert(pow256(8) == 0x10000000000000000) by {
            reveal_with_fuel(pow256, 9);
        }
        assert((n as u64) as nat == v@.len());
    }
    enc_uint_exec(out, n as u64, 8);
    let mut j: usize = 0;
    proof {
        assert(out@ =~= old(out)@ + enc_uint(v@.len(), 8) + v@.take(0));
    }
    while j < n
        invariant
            j <= n,
            n == v@.len(),
            out@ == old(out)@ + enc_uint(v@.len(), 8) + v@.take(j as int),
        decreases n - j,
    {
        out.push(v[j]);
        j = j + 1;
        proof {
            assert(out@ =~= old(out)@ + enc_uint(v@.len(), 8) + v@.take(j as int));
        }
    }
    proof {
        assert(v@.take(n as int) =~= v@);
        assert(out@ =~= old(out)@ + enc_bytes(v@));
    }
}

/// Reads a length-prefixed byte string from `b` at position `i`.
fn read_bytes_exec(b: &Vec<u8>, i: usize) -> (r: Option<(Vec<u8>, usize)>)
    requires
        i <= b@.len(),
    ensures
        match r {
            Some(p) => {
                &&& read_bytes(b@.skip(i as int)) == Some((p.0@, b@.skip(p.1 as int)))
                &&& i <= p.1 <= b@.len()
            },
            None => read_bytes(b@.skip(i as int)) is None,
        },
{
    let (n, j) = match read_uint_exec(b, i, 8) {
        Some(p) => p,
        None => {
            return None;
        },
    };
    let avail: u64 = (b.len() - j) as u64;
    if avail < n {
        return None;
    }
    let n: usize = n as usize;
    let mut sub: Vec<u8> = Vec::new();
    let mut k: usize = 0;
    proof {
        assert(sub@ =~= b@.subrange(j as int, j as int));
    }
    while k < n
        invariant
            k <= n,
            j + n <= b@.len(),
            b@.len() <= usize::MAX,
            sub@ == b@.subrange(j as int, (j + k) as int),
        decreases n - k,
    {
        sub.push(b[j + k]);
        k = k + 1;
        proof {
            assert(sub@ =~= b@.subrange(j as int, (j + k) as int));
        }
    }
    proof {
        assert(b@.skip(j as int).take(n as int) =~= b@.subrange(j as int, (j + n) as int));
        assert(b@.skip(j as int).skip(n as int) =~= b@.skip((j + n) as int));
    }
    Some((sub, j + n))
}

// ---------------------------------------------------------------------------
// Field encodings: efforts, signed integers, scalar lists, string lists.
// ---------------------------------------------------------------------------

/// The encoding of an effort: one unit byte, then the magnitude.
pub open spec fn enc_effort(e: Effort) -> Seq<u8> {
    enc_uint(e.unit_code() as nat, 1) + enc_uint(e.magnitude() as nat, 8)
}

/// Reads back an effort; fails on an unknown unit byte.
pub open spec fn read_effort(b: Seq<u8>) -> Option<(Effort, Seq<u8>)> {
    match read_uint(b, 1) {
        Some((u, r1)) => match read_uint(r1, 8) {
            Some((m, r2)) => match effort_from_parts(u, m as u64) {
                Some(e) => Some((e, r2)),
                None => None,
            },
            None => None,
        },
        None => None,
    }
}

pub proof fn lemma_read_enc_effort(e: Effort, rest: Seq<u8>)
    ensures
        read_effort(enc_effort(e) + rest) == Some((e, rest)),
{
    assert(enc_effort(e) + rest =~= enc_uint(e.unit_code() as nat, 1) + (enc_uint(
        e.magnitude() as nat,
        8,
    ) + rest));
    assert(pow256(1) == 256) by {
        reveal_with_fuel(pow256, 2);
    }
    assert(pow256(8) == 0x10000000000000000) by {
        reveal_with_fuel(pow256, 9);
    }
    lemma_read_enc_uint(e.unit_code() as nat, 1, enc_uint(e.magnitude() as nat, 8) + rest);
    lemma_read_enc_uint(e.magnitude() as nat, 8, rest);
}

/// The encoding of a signed 64-bit integer: its two's-complement bits.
pub open spec fn enc_i64(v: i64) -> Seq<u8> {
    enc_uint((v as u64) as nat, 8)
}

/// Reads back a signed 64-bit integer.
pub open spec fn read_i64(b: Seq<u8>) -> Option<(i64, Seq<u8>)> {
    match read_uint(b, 8) {
        Some((n, r)) => Some((((n as u64) as i64), r)),
        None => None,
    }
}

pub proof fn lemma_read_enc_i64(v: i64, rest: Seq<u8>)
    ensures
        read_i64(enc_i64(v) + rest) == Some((v, rest)),
{
    assert(pow256(8) == 0x10000000000000000) by {
        reveal_with_fuel(pow256, 9);
    }
    lemma_read_enc_uint((v as u64) as nat, 8, rest);
    assert((v as u64) as i64 == v) by (bit_vector);
}

/// The encoding of a sequence of Unicode scalar values, four bytes each.
pub open spec fn enc_scalars(s: Seq<u32>) -> Seq<u8>
    decreases s.len(),
{
    if s.len() == 0 {
        Seq::empty()
    } else {
        enc_uint(s[0] as nat, 4) + enc_scalars(s.skip(1))
    }
}

/// Reads back `n` scalar values; fails when a value is not a Unicode scalar.
pub open spec fn read_scalars(b: Seq<u8>, n: nat) -> Option<(Seq<u32>, Seq<u8>)>
    decreases n,
{
    if n == 0 {
        Some((Seq::empty(), b))
    } else {
        match read_uint(b, 4) {
            Some((v, r1)) => {
                if v < 0x100000000 && is_scalar(v as u32) {
                    match read_scalars(r1, (n - 1) as nat) {
                        Some((vs, r2)) => Some((seq![v as u32] + vs, r2)),
                        None => None,
                    }
                } else {
                    None
                }
            },
            None => None,
        }
    }
}

pub proof fn lemma_read_enc_scalars(s: Seq<u32>, rest: Seq<u8>)
    requires
        forall|i: int| 0 <= i < s.len() ==> is_scalar(s[i]),
    ensures
        read_scalars(enc_scalars(s) + rest, s.len()) == Some((s, rest)),
    decreases s.len(),
{
    if s.len() == 0 {
        assert(enc_scalars(s) + rest =~= rest);
    } else {
        assert(enc_scalars(s) + rest =~= enc_uint(s[0] as nat, 4) + (enc_scalars(s.skip(1))
            + rest));
        assert(pow256(4) == 0x100000000) by {
            reveal_with_fuel(pow256, 5);
        }
        lemma_read_enc_uint(s[0] as nat, 4, enc_scalars(s.skip(1)) + rest);
        lemma_read_enc_scalars(s.skip(1), rest);
        assert(seq![s[0]] + s.skip(1) =~= s);
    }
}

/// The encoding of a sequence of strings, one after the other.
pub open spec fn enc_strs(ss: Seq<Seq<char>>) -> Seq<u8>
    decreases ss.len(),
{
    if ss.len() == 0 {
        Seq::empty()
    } else {
        enc_str(ss[0]) + enc_strs(ss.skip(1))
    }
}

/// Every string in the sequence fits behind a length prefix.
pub open spec fn wf_strs(ss: Seq<Seq<char>>) -> bool {
    forall|i: int| 0 <= i < ss.len() ==> wf_str(#[trigger] ss[i])
}

/// Reads back `n` strings.
pub open spec fn read_strs(b: Seq<u8>, n: nat) -> Option<(Seq<Seq<char>>, Seq<u8>)>
    decreases n,
{
    if n == 0 {
        Some((Seq::empty(), b))
    } else {
        match read_str(b) {
            Some((s, r1)) => match read_strs(r1, (n - 1) as nat) {
                Some((ss, r2)) => Some((seq![s] + ss, r2)),
                None => None,
            },
            None => None,
        }
    }
}

pub proof fn lemma_read_enc_strs(ss: Seq<Seq<char>>, rest: Seq<u8>)
    requires
        wf_strs(ss),
    ensures
        read_strs(enc_strs(ss) + rest, ss.len()) == Some((ss, rest)),
    decreases ss.len(),
{
    if ss.len() == 0 {
        assert(enc_strs(ss) + rest =~= rest);
    } else {
        assert(enc_strs(ss) + rest =~= enc_str(ss[0]) + (enc_strs(ss.skip(1)) + rest));
        lemma_read_enc_str(ss[0], enc_strs(ss.skip(1)) + rest);
        assert(wf_strs(ss.skip(1)));
        lemma_read_enc_strs(ss.skip(1), rest);
        assert(seq![ss[0]] + ss.skip(1) =~= ss);
    }
}

// ---------------------------------------------------------------------------
// Record encodings
// ---------------------------------------------------------------------------

/// An aim whose fields fit their length prefixes; every aim value held in an
/// `Aim` struct satisfies this.
pub open spec fn wf_aim(a: AimV) -> bool {
    &&& wf_str(a.title)
    &&& wf_str(a.description)
    &&& a.color.len() == 6
    &&& forall|i: int| 0 <= i < 6 ==> is_scalar(#[trigger] a.color[i])
    &&& a.tags.len() < pow256(8)
    &&& wf_strs(a.tags)
}

pub open spec fn enc_aim(a: AimV) -> Seq<u8> {
    enc_str(a.title) + (enc_str(a.description) + (enc_effort(a.effort) + (enc_i64(a.timestamp_ms)
        + (enc_scalars(a.color) + (enc_uint(a.tags.len(), 8) + enc_strs(a.tags))))))
}

/// Reads a whole aim; the bytes must be consumed exactly.
pub open spec fn read_aim(b: Seq<u8>) -> Option<AimV> {
    match read_str(b) {
        Some((title, b1)) => match read_str(b1) {
            Some((description, b2)) => match read_effort(b2) {
                Some((effort, b3)) => match read_i64(b3) {
                    Some((timestamp_ms, b4)) => match read_scalars(b4, 6) {
                        Some((color, b5)) => match read_uint(b5, 8) {
                            Some((ntags, b6)) => match read_strs(b6, ntags) {
                                Some((tags, b7)) => {
                                    if b7.len() == 0 {
                                        Some(
                                            AimV {
                                                title,
                                                description,
                                                effort,
                                                timestamp_ms,
                                                color,
                                                tags,
                                            },
                                        )
                                    } else {
                                        None
                                    }
                                },
                                None => None,
                            },
                            None => None,
                        },
                        None => None,
                    },
                    None => None,
                },
                None => None,
            },
            None => None,
        },
        None => None,
    }
}

pub proof fn lemma_read_enc_aim(a: AimV)
    requires
        wf_aim(a),
    ensures
        read_aim(enc_aim(a)) == Some(a),
{
    let t7 = enc_strs(a.tags);
    let t6 = enc_uint(a.tags.len(), 8) + t7;
    let t5 = enc_scalars(a.color) + t6;
    let t4 = enc_i64(a.timestamp_ms) + t5;
    let t3 = enc_effort(a.effort) + t4;
    let t2 = enc_str(a.description) + t3;
    lemma_read_enc_str(a.title, t2);
    lemma_read_enc_str(a.description, t3);
    lemma_read_enc_effort(a.effort, t4);
    lemma_read_enc_i64(a.timestamp_ms, t5);
    lemma_read_enc_scalars(a.color, t6);
    assert(pow256(8) == 0x10000000000000000) by {
        reveal_with_fuel(pow256, 9);
    }
    lemma_read_enc_uint(a.tags.len(), 8, t7);
    lemma_read_enc_strs(a.tags, Seq::empty());
    assert(enc_strs(a.tags) + Seq::<u8>::empty() =~= t7);
    assert((a.tags.len() as u64) as nat == a.tags.len());
}

pub open spec fn wf_connection(c: ConnectionV) -> bool {
    wf_bytes(c.contributing) && wf_bytes(c.receiving)
}

pub open spec fn enc_connection(c: ConnectionV) -> Seq<u8> {
    enc_bytes(c.contributing) + (enc_bytes(c.receiving) + enc_uint(c.contribution as nat, 4))
}

/// Reads a whole connection; the bytes must be consumed exactly.
pub open spec fn read_connection(b: Seq<u8>) -> Option<ConnectionV> {
    match read_bytes(b) {
        Some((contributing, b1)) => match read_bytes(b1) {
            Some((receiving, b2)) => match read_uint(b2, 4) {
                Some((contribution, b3)) => {
                    if b3.len() == 0 {
                        Some(
                            ConnectionV {
                                contributing,
                                receiving,
                                contribution: contribution as u32,
                            },
                        )
                    } else {
                        None
                    }
                },
                None => None,
            },
            None => None,
        },
        None => None,
    }
}

pub proof fn lemma_read_enc_connection(c: ConnectionV)
    requires
        wf_connection(c),
    ensures
        read_connection(enc_connection(c)) == Some(c),
{
    assert(pow256(4) == 0x100000000) by {
        reveal_with_fuel(pow256, 5);
    }
    let t3 = enc_uint(c.contribution as nat, 4);
    let t2 = enc_bytes(c.receiving) + t3;
    lemma_read_enc_bytes(c.contributing, t2);
    lemma_read_enc_bytes(c.receiving, t3);
    lemma_read_enc_uint(c.contribution as nat, 4, Seq::empty());
    assert(t3 + Seq::<u8>::empty() =~= t3);
}

pub open spec fn wf_profile(p: ProfileV) -> bool {
    wf_str(p.name) && wf_bytes(p.creator)
}

pub open spec fn enc_profile(p: ProfileV) -> Seq<u8> {
    enc_str(p.name) + enc_bytes(p.creator)
}

/// Reads a whole profile; the bytes must be consumed exactly.
pub open spec fn read_profile(b: Seq<u8>) -> Option<ProfileV> {
    match read_str(b) {
        Some((name, b1)) => match read_bytes(b1) {
            Some((creator, b2)) => {
                if b2.len() == 0 {
                    Some(ProfileV { name, creator })
                } else {
                    None
                }
            },
            None => None,
        },
        None => None,
    }
}

pub proof fn lemma_read_enc_profile(p: ProfileV)
    requires
        wf_profile(p),
    ensures
        read_profile(enc_profile(p)) == Some(p),
{
    let t2 = enc_bytes(p.creator);
    lemma_read_enc_str(p.name, t2);
    lemma_read_enc_bytes(p.creator, Seq::empty());
    assert(t2 + Seq::<u8>::empty() =~= t2);
}

/// A record whose fields fit their length prefixes; every value held in a
/// `Record` satisfies this.
pub open spec fn wf_record(r: RecordV) -> bool {
    match r {
        RecordV::Aim(a) => wf_aim(a),
        RecordV::Connection(c) => wf_connection(c),
        RecordV::Profile(p) => wf_profile(p),
    }
}

/// The serialized bytes of a record.
pub open spec fn enc_record(r: RecordV) -> Seq<u8> {
    match r {
        RecordV::Aim(a) => enc_aim(a),
        RecordV::Connection(c) => enc_connection(c),
        RecordV::Profile(p) => enc_profile(p),
    }
}

/// Decodes stored bytes as a record of the given kind; `None` on any
/// mismatch.
pub open spec fn dec_record(kind: EntryKind, b: Seq<u8>) -> Option<RecordV> {
    match kind {
        EntryKind::Aim => match read_aim(b) {
            Some(a) => Some(RecordV::Aim(a)),
            None => None,
        },
        EntryKind::Connection => match read_connection(b) {
            Some(c) => Some(RecordV::Connection(c)),
            None => None,
        },
        EntryKind::Profile => match read_profile(b) {
            Some(p) => Some(RecordV::Profile(p)),
            None => None,
        },
    }
}

/// Decoding inverts encoding: the codec loses nothing.
pub proof fn lemma_record_round_trip(r: RecordV)
    requires
        wf_record(r),
    ensures
        dec_record(r.kind(), enc_record(r)) == Some(r),
{
    match r {
        RecordV::Aim(a) => lemma_read_enc_aim(a),
        RecordV::Connection(c) => lemma_read_enc_connection(c),
        RecordV::Profile(p) => lemma_read_enc_profile(p),
    }
}

// ---------------------------------------------------------------------------
// Executable encoding
// ---------------------------------------------------------------------------

proof fn lemma_enc_strs_concat(ss1: Seq<Seq<char>>, ss2: Seq<Seq<char>>)
    ensures
        enc_strs(ss1 + ss2) == enc_strs(ss1) + enc_strs(ss2),
    decreases ss1.len(),
{
    if ss1.len() == 0 {
        assert(ss1 + ss2 =~= ss2);
        assert(enc_strs(ss1) + enc_strs(ss2) =~= enc_strs(ss2));
    } else {
        assert((ss1 + ss2).skip(1) =~= ss1.skip(1) + ss2);
        lemma_enc_strs_concat(ss1.skip(1), ss2);
        assert(enc_strs(ss1 + ss2) =~= enc_strs(ss1) + enc_strs(ss2));
    }
}

/// Appends the encoding of an effort to `out`.
fn enc_effort_exec(out: &mut Vec<u8>, e: Effort)
    ensures
        final(out)@ == old(out)@ + enc_effort(e),
{
    let (unit, magnitude): (u64, u64) = match e {
        Effort::Minutes(n) => (1, n),
        Effort::Hours(n) => (2, n),
        Effort::Days(n) => (3, n),
        Effort::Weeks(n) => (4, n),
        Effort::Months(n) => (5, n),
        Effort::Years(n) => (6, n),
    };
    enc_uint_exec(out, unit, 1);
    enc_uint_exec(out, magnitude, 8);
    proof {
        assert(out@ =~= old(out)@ + enc_effort(e));
    }
}

fn enc_color_into(out: &mut Vec<u8>, c: &[char; 6])
    ensures
        final(out)@ == old(out)@ + enc_scalars(Seq::new(6, |i: int| c@[i] as u32)),
        forall|i: int| 0 <= i < 6 ==> is_scalar((#[trigger] c@[i]) as u32),
{
    broadcast use char_is_scalar;

    let ghost cs = Seq::new(6, |i: int| c@[i] as u32);
    enc_uint_exec(out, (c[0] as u32) as u64, 4);
    enc_uint_exec(out, (c[1] as u32) as u64, 4);
    enc_uint_exec(out, (c[2] as u32) as u64, 4);
    enc_uint_exec(out, (c[3] as u32) as u64, 4);
    enc_uint_exec(out, (c[4] as u32) as u64, 4);
    enc_uint_exec(out, (c[5] as u32) as u64, 4);
    proof {
        reveal_with_fuel(enc_scalars, 8);
        assert(cs.skip(1).skip(1).skip(1).skip(1).skip(1).skip(1).len() == 0);
        assert(cs[0] == c@[0] as u32);
        assert(cs.skip(1)[0] == c@[1] as u32);
        assert(cs.skip(1).skip(1)[0] == c@[2] as u32);
        assert(cs.skip(1).skip(1).skip(1)[0] == c@[3] as u32);
        assert(cs.skip(1).skip(1).skip(1).skip(1)[0] == c@[4] as u32);
        assert(cs.skip(1).skip(1).skip(1).skip(1).skip(1)[0] == c@[5] as u32);
        assert(out@ =~= old(out)@ + enc_scalars(cs));
        assert forall|i: int| 0 <= i < 6 implies is_scalar((#[trigger] c@[i]) as u32) by {
            char_is_scalar(c@[i]);
        }
    }
}

fn enc_tags_into(out: &mut Vec<u8>, tags: &Vec<String>)
    ensures
        final(out)@ == old(out)@ + (enc_uint(tags.deep_view().len(), 8) + enc_strs(
            tags.deep_view(),
        )),
        wf_strs(tags.deep_view()),
        tags.deep_view().len() < pow256(8),
{
    let ghost tv = tags.deep_view();
    let ntags: usize = tags.len();
    proof {
        assert(pow256(8) == 0x10000000000000000) by {
            reveal_with_fuel(pow256, 9);
        }
    }
    enc_uint_exec(out, ntags as u64, 8);
    let ghost base = out@;
    let mut t: usize = 0;
    proof {
        assert(tv.take(0) =~= Seq::<Seq<char>>::empty());
        assert(base + enc_strs(tv.take(0)) =~= base);
    }
    while t < ntags
        invariant
            t <= ntags,
            ntags == tags@.len(),
            tv == tags.deep_view(),
            out@ == base + enc_strs(tv.take(t as int)),
            forall|i: int| 0 <= i < t ==> wf_str(#[trigger] tv[i]),
        decreases ntags - t,
    {
        enc_str_exec(out, str_of(&tags[t]));
        t = t + 1;
        proof {
            assert(tv[t - 1] == tags@[t - 1]@);
            assert(tv.take(t as int) =~= tv.take(t - 1) + seq![tv[t - 1]]);
            lemma_enc_strs_concat(tv.take(t - 1), seq![tv[t - 1]]);
            assert(seq![tv[t - 1]].skip(1).len() == 0);
            assert(enc_strs(seq![tv[t - 1]]) =~= enc_str(tv[t - 1]) + enc_strs(
                seq![tv[t - 1]].skip(1),
            ));
            assert(enc_strs(seq![tv[t - 1]]) =~= enc_str(tv[t - 1]));
            assert(out@ =~= base + enc_strs(tv.take(t as int)));
        }
    }
    proof {
        assert(tv.take(ntags as int) =~= tv);
        assert(out@ =~= old(out)@ + (enc_uint(tv.len(), 8) + enc_strs(tv)));
    }
}

#[verifier::rlimit(30)]
fn enc_aim_into(out: &mut Vec<u8>, a: &Aim)
    ensures
        final(out)@ == old(out)@ + enc_aim(a@),
        wf_aim(a@),
{
    enc_str_exec(out, str_of(&a.title));
    enc_str_exec(out, str_of(&a.description));
    enc_effort_exec(out, a.effort);
    enc_uint_exec(out, a.timestamp_ms as u64, 8);
    enc_color_into(out, &a.color);
    enc_tags_into(out, &a.tags);
    proof {
        assert(a@.color == Seq::new(6, |i: int| a.color@[i] as u32));
        assert(a@.tags == a.tags.deep_view());
        assert forall|i: int| 0 <= i < 6 implies is_scalar(#[trigger] a@.color[i]) by {
            assert(a@.color[i] == a.color@[i] as u32);
        }
        assert(out@ =~= old(out)@ + enc_aim(a@));
    }
}

// A tiny shim so both `String` fields and `Vec<String>` elements read as
// `&str` the same way.
fn str_of(s: &String) -> (r: &str)
    ensures
        r@ == s@,
{
    s.as_str()
}

fn enc_connection_into(out: &mut Vec<u8>, c: &Connection)
    ensures
        final(out)@ == old(out)@ + enc_connection(c@),
        wf_connection(c@),
{
    enc_bytes_exec(out, &c.contributing.key);
    enc_bytes_exec(out, &c.receiving.key);
    enc_uint_exec(out, c.contribution as u64, 4);
    proof {
        assert(out@ =~= old(out)@ + enc_connection(c@));
    }
}

fn enc_profile_into(out: &mut Vec<u8>, p: &Profile)
    ensures
        final(out)@ == old(out)@ + enc_profile(p@),
        wf_profile(p@),
{
    enc_str_exec(out, str_of(&p.name));
    enc_bytes_exec(out, &p.creator.key);
    proof {
        assert(out@ =~= old(out)@ + enc_profile(p@));
    }
}

/// Serializes a record to its byte encoding.
pub fn enc_record_exec(r: &Record) -> (out: Vec<u8>)
    ensures
        out@ == enc_record(r@),
        wf_record(r@),
{
    let mut out: Vec<u8> = Vec::new();
    match r {
        Record::Aim(a) => enc_aim_into(&mut out, a),
        Record::Connection(c) => enc_connection_into(&mut out, c),
        Record::Profile(p) => enc_profile_into(&mut out, p),
    }
    proof {
        assert(out@ =~= enc_record(r@));
    }
    out
}

// ---------------------------------------------------------------------------
// Executable decoding
// ---------------------------------------------------------------------------

fn read_effort_exec(b: &Vec<u8>, i: usize) -> (r: Option<(Effort, usize)>)
    requires
        i <= b@.len(),
    ensures
        match r {
            Some(p) => {
                &&& read_effort(b@.skip(i as int)) == Some((p.0, b@.skip(p.1 as int)))
                &&& i <= p.1 <= b@.len()
            },
            None => read_effort(b@.skip(i as int)) is None,
        },
{
    let (unit, j) = match read_uint_exec(b, i, 1) {
        Some(p) => p,
        None => {
            return None;
        },
    };
    let (magnitude, j2) = match read_uint_exec(b, j, 8) {
        Some(p) => p,
        None => {
            return None;
        },
    };
    let e = if unit == 1 {
        Effort::Minutes(magnitude)
    } else if unit == 2 {
        Effort::Hours(magnitude)
    } else if unit == 3 {
        Effort::Days(magnitude)
    } else if unit == 4 {
        Effort::Weeks(magnitude)
    } else if unit == 5 {
        Effort::Months(magnitude)
    } else if unit == 6 {
        Effort::Years(magnitude)
    } else {
        return None;
    };
    Some((e, j2))
}

fn read_color_exec(b: &Vec<u8>, i: usize) -> (r: Option<([char; 6], usize)>)
    requires
        i <= b@.len(),
    ensures
        match r {
            Some(p) => {
                &&& read_scalars(b@.skip(i as int), 6) == Some(
                    (Seq::new(6, |k: int| p.0@[k] as u32), b@.skip(p.1 as int)),
                )
                &&& i <= p.1 <= b@.len()
            },
            None => read_scalars(b@.skip(i as int), 6) is None,
        },
{
    let mut cur: usize = i;
    let mut chars: Vec<char> = Vec::new();
    let mut k: usize = 0;
    proof {
        reveal_with_fuel(read_scalars, 8);
        if read_scalars(b@.skip(i as int), 6) is Some {
            let (vs, r) = read_scalars(b@.skip(i as int), 6).unwrap();
            assert(Seq::new(0, |t: int| chars@[t] as u32) + vs =~= vs);
        }
    }
    while k < 6
        invariant
            k <= 6,
            i <= cur <= b@.len(),
            chars@.len() == k,
            read_scalars(b@.skip(i as int), 6) == (match read_scalars(
                b@.skip(cur as int),
                (6 - k) as nat,
            ) {
                Some((vs, r)) => Some((Seq::new(k as nat, |t: int| chars@[t] as u32) + vs, r)),
                None => None,
            }),
        decreases 6 - k,
    {
        let (v, j) = match read_uint_exec(b, cur, 4) {
            Some(p) => p,
            None => {
                return None;
            },
        };
        proof {
            lemma_dec_uint_bound(b@.skip(cur as int), 4);
            assert(pow256(4) == 0x100000000) by {
                reveal_with_fuel(pow256, 5);
            }
        }
        let c = match char_from_u32(v as u32) {
            Some(c) => c,
            None => {
                return None;
            },
        };
        let ghost oldchars = chars@;
        let ghost oldcur = cur;
        let ghost oldk = k;
        chars.push(c);
        cur = j;
        k = k + 1;
        proof {
            let pre = Seq::new(oldk as nat, |t: int| oldchars[t] as u32);
            let now = Seq::new(k as nat, |t: int| chars@[t] as u32);
            assert(read_scalars(b@.skip(oldcur as int), (6 - oldk) as nat) == (match read_scalars(
                b@.skip(cur as int),
                (6 - k) as nat,
            ) {
                Some((vs, r)) => Some((seq![c as u32] + vs, r)),
                None => None,
            }));
            if read_scalars(b@.skip(cur as int), (6 - k) as nat) is Some {
                let (vs, r) = read_scalars(b@.skip(cur as int), (6 - k) as nat).unwrap();
                assert(pre + (seq![c as u32] + vs) =~= now + vs);
            }
        }
    }
    let color: [char; 6] = [chars[0], chars[1], chars[2], chars[3], chars[4], chars[5]];
    proof {
        assert(read_scalars(b@.skip(cur as int), 0) == Some(
            (Seq::<u32>::empty(), b@.skip(cur as int)),
        ));
        assert(Seq::new(6, |t: int| chars@[t] as u32) + Seq::<u32>::empty() =~= Seq::new(
            6,
            |t: int| chars@[t] as u32,
        ));
        assert(Seq::new(6, |t: int| chars@[t] as u32) =~= Seq::new(
            6,
            |t: int| color@[t] as u32,
        ));
    }
    Some((color, cur))
}

fn read_tags_exec(b: &Vec<u8>, i: usize, n: u64) -> (r: Option<(Vec<String>, usize)>)
    requires
        i <= b@.len(),
    ensures
        match r {
            Some(p) => {
                &&& read_strs(b@.skip(i as int), n as nat) == Some(
                    (p.0.deep_view(), b@.skip(p.1 as int)),
                )
                &&& i <= p.1 <= b@.len()
            },
            None => read_strs(b@.skip(i as int), n as nat) is None,
        },
{
    let mut cur: usize = i;
    let mut acc: Vec<String> = Vec::new();
    let mut k: u64 = 0;
    proof {
        if read_strs(b@.skip(i as int), n as nat) is Some {
            let (ss, r) = read_strs(b@.skip(i as int), n as nat).unwrap();
            assert(acc.deep_view() + ss =~= ss);
        }
    }
    while k < n
        invariant
            k <= n,
            i <= cur <= b@.len(),
            acc@.len() == k,
            read_strs(b@.skip(i as int), n as nat) == (match read_strs(
                b@.skip(cur as int),
                (n - k) as nat,
            ) {
                Some((ss, r)) => Some((acc.deep_view() + ss, r)),
                None => None,
            }),
        decreases n - k,
    {
        let ghost oldacc = acc.deep_view();
        let (s, j) = match read_str_exec(b, cur) {
            Some(p) => p,
            None => {
                return None;
            },
        };
        acc.push(s);
        cur = j;
        k = k + 1;
        proof {
            assert(acc.deep_view() =~= oldacc + seq![s@]);
            if read_strs(b@.skip(cur as int), (n - k) as nat) is Some {
                let (ss, r) = read_strs(b@.skip(cur as int), (n - k) as nat).unwrap();
                assert(oldacc + (seq![s@] + ss) =~= acc.deep_view() + ss);
            }
        }
    }
    proof {
        assert(read_strs(b@.skip(cur as int), 0) == Some(
            (Seq::<Seq<char>>::empty(), b@.skip(cur as int)),
        ));
        assert(acc.deep_view() + Seq::<Seq<char>>::empty() =~= acc.deep_view());
    }
    Some((acc, cur))
}

fn dec_aim_exec(b: &Vec<u8>) -> (r: Option<Aim>)
    ensures
        match r {
            Some(a) => read_aim(b@) == Some(a@),
            None => read_aim(b@) is None,
        },
{
    proof {
        assert(b@.skip(0) =~= b@);
    }
    let (title, j1) = match read_str_exec(b, 0) {
        Some(p) => p,
        None => {
            return None;
        },
    };
    let (description, j2) = match read_str_exec(b, j1) {
        Some(p) => p,
        None => {
            return None;
        },
    };
    let (effort, j3) = match read_effort_exec(b, j2) {
        Some(p) => p,
        None => {
            return None;
        },
    };
    let (ts, j4) = match read_uint_exec(b, j3, 8) {
        Some(p) => p,
        None => {
            return None;
        },
    };
    let timestamp_ms: i64 = ts as i64;
    let (color, j5) = match read_color_exec(b, j4) {
        Some(p) => p,
        None => {
            return None;
        },
    };
    let (ntags, j6) = match read_uint_exec(b, j5, 8) {
        Some(p) => p,
        None => {
            return None;
        },
    };
    let (tags, j7) = match read_tags_exec(b, j6, ntags) {
        Some(p) => p,
        None => {
            return None;
        },
    };
    if j7 != b.len() {
        return None;
    }
    let aim = Aim { title, description, effort, timestamp_ms, color, tags };
    proof {
        assert(b@.skip(j7 as int).len() == 0);
        assert(read_aim(b@) == Some(aim@));
    }
    Some(aim)
}

fn dec_connection_exec(b: &Vec<u8>) -> (r: Option<Connection>)
    ensures
        match r {
            Some(c) => read_connection(b@) == Some(c@),
            None => read_connection(b@) is None,
        },
{
    proof {
        assert(b@.skip(0) =~= b@);
    }
    let (contributing, j1) = match read_bytes_exec(b, 0) {
        Some(p) => p,
        None => {
            return None;
        },
    };
    let (receiving, j2) = match read_bytes_exec(b, j1) {
        Some(p) => p,
        None => {
            return None;
        },
    };
    let (contribution, j3) = match read_uint_exec(b, j2, 4) {
        Some(p) => p,
        None => {
            return None;
        },
    };
    if j3 != b.len() {
        return None;
    }
    proof {
        lemma_dec_uint_bound(b@.skip(j2 as int), 4);
        assert(pow256(4) == 0x100000000) by {
            reveal_with_fuel(pow256, 5);
        }
        assert(b@.skip(j3 as int).len() == 0);
    }
    Some(
        Connection {
            contributing: Address { key: contributing },
            receiving: Address { key: receiving },
            contribution: contribution as u32,
        },
    )
}

fn dec_profile_exec(b: &Vec<u8>) -> (r: Option<Profile>)
    ensures
        match r {
            Some(p) => read_profile(b@) == Some(p@),
            None => read_profile(b@) is None,
        },
{
    proof {
        assert(b@.skip(0) =~= b@);
    }
    let (name, j1) = match read_str_exec(b, 0) {
        Some(p) => p,
        None => {
            return None;
        },
    };
    let (creator, j2) = match read_bytes_exec(b, j1) {
        Some(p) => p,
        None => {
            return None;
        },
    };
    if j2 != b.len() {
        return None;
    }
    proof {
        assert(b@.skip(j2 as int).len() == 0);
    }
    Some(Profile { name, creator: Address { key: creator } })
}

/// Decodes stored bytes as a record of the given kind; a wrong kind or
/// malformed bytes yield a schema mismatch and never a panic.
pub fn dec_record_exec(kind: EntryKind, b: &Vec<u8>) -> (r: Result<Record, DecodeError>)
    ensures
        match r {
            Ok(rec) => dec_record(kind, b@) == Some(rec@),
            Err(e) => dec_record(kind, b@) is None && e == DecodeError::SchemaMismatch,
        },
{
    match kind {
        EntryKind::Aim => match dec_aim_exec(b) {
            Some(a) => Ok(Record::Aim(a)),
            None => Err(DecodeError::SchemaMismatch),
        },
        EntryKind::Connection => match dec_connection_exec(b) {
            Some(c) => Ok(Record::Connection(c)),
            None => Err(DecodeError::SchemaMismatch),
        },
        EntryKind::Profile => match dec_profile_exec(b) {
            Some(p) => Ok(Record::Profile(p)),
            None => Err(DecodeError::SchemaMismatch),
        },
    }
}

proof fn lemma_pow256_le(m: nat, n: nat)
    requires
        m <= n,
    ensures
        pow256(m) <= pow256(n),
    decreases n,
{
    if m < n {
        lemma_pow256_le(m, (n - 1) as nat);
        lemma_pow256_pos((n - 1) as nat);
        assert(pow256(n) == 256 * pow256((n - 1) as nat));
        assert(256 * pow256((n - 1) as nat) >= pow256((n - 1) as nat)) by (nonlinear_arith)
            requires
                pow256((n - 1) as nat) >= 1,
        ;
    }
}

} // verus!
