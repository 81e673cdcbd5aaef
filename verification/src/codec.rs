//! Byte-level codec for the durable formats: little-endian integers,
//! length-prefixed byte strings and UTF-8 text, and length-prefixed lists.
//!
//! Every format has a specification-level encoder and decoder; the
//! executable functions are proved to agree with them, and the inversion
//! lemmas show that decoding an encoding yields the original value.

use vstd::prelude::*;
use vstd::bytes::*;
use vstd::utf8::*;
use vstd::slice::{slice_subrange, slice_to_vec};
use vstd::string::StringSliceAdditionalSpecFns;

verus! {

// ---------------------------------------------------------------------------
// Specification-level encoders
// ---------------------------------------------------------------------------

pub open spec fn spec_enc_u32(x: u32) -> Seq<u8> {
    spec_u32_to_le_bytes(x)
}

pub open spec fn spec_enc_u64(x: u64) -> Seq<u8> {
    spec_u64_to_le_bytes(x)
}

pub open spec fn spec_enc_i64(x: i64) -> Seq<u8> {
    spec_u64_to_le_bytes(x as u64)
}

pub open spec fn spec_enc_i32(x: i32) -> Seq<u8> {
    spec_u32_to_le_bytes(x as u32)
}

/// A byte string is encoded as its length (4 bytes) followed by its bytes.
pub open spec fn spec_enc_bytes(d: Seq<u8>) -> Seq<u8>
    recommends
        d.len() <= u32::MAX,
{
    spec_enc_u32(d.len() as u32) + d
}

/// Text is encoded as the length-prefixed UTF-8 encoding of its characters.
pub open spec fn spec_enc_str(s: Seq<char>) -> Seq<u8>
    recommends
        encode_utf8(s).len() <= u32::MAX,
{
    spec_enc_bytes(encode_utf8(s))
}

/// Whether a character sequence fits the length-prefixed text format.
pub open spec fn str_encodable(s: Seq<char>) -> bool {
    encode_utf8(s).len() <= u32::MAX
}

pub open spec fn spec_enc_u32_items(v: Seq<u32>) -> Seq<u8>
    decreases v.len(),
{
    if v.len() == 0 {
        Seq::empty()
    } else {
        spec_enc_u32(v[0]) + spec_enc_u32_items(v.drop_first())
    }
}

/// A list of 32-bit values: a count followed by the items.
pub open spec fn spec_enc_u32_list(v: Seq<u32>) -> Seq<u8>
    recommends
        v.len() <= u32::MAX,
{
    spec_enc_u32(v.len() as u32) + spec_enc_u32_items(v)
}

pub open spec fn spec_enc_i64_items(v: Seq<i64>) -> Seq<u8>
    decreases v.len(),
{
    if v.len() == 0 {
        Seq::empty()
    } else {
        spec_enc_i64(v[0]) + spec_enc_i64_items(v.drop_first())
    }
}

/// A list of signed 64-bit values: a count followed by the items.
pub open spec fn spec_enc_i64_list(v: Seq<i64>) -> Seq<u8>
    recommends
        v.len() <= u32::MAX,
{
    spec_enc_u32(v.len() as u32) + spec_enc_i64_items(v)
}

// ---------------------------------------------------------------------------
// Specification-level decoders
// ---------------------------------------------------------------------------

pub open spec fn spec_dec_u32(b: Seq<u8>, p: int) -> Option<(u32, int)> {
    if 0 <= p && p + 4 <= b.len() {
        Some((spec_u32_from_le_bytes(b.subrange(p, p + 4)), p + 4))
    } else {
        None
    }
}

pub open spec fn spec_dec_u64(b: Seq<u8>, p: int) -> Option<(u64, int)> {
    if 0 <= p && p + 8 <= b.len() {
        Some((spec_u64_from_le_bytes(b.subrange(p, p + 8)), p + 8))
    } else {
        None
    }
}

pub open spec fn spec_dec_i64(b: Seq<u8>, p: int) -> Option<(i64, int)> {
    match spec_dec_u64(b, p) {
        Some((x, q)) => Some((x as i64, q)),
        None => None,
    }
}

pub open spec fn spec_dec_i32(b: Seq<u8>, p: int) -> Option<(i32, int)> {
    match spec_dec_u32(b, p) {
        Some((x, q)) => Some((x as i32, q)),
        None => None,
    }
}

pub open spec fn spec_dec_bytes(b: Seq<u8>, p: int) -> Option<(Seq<u8>, int)> {
    match spec_dec_u32(b, p) {
        Some((n, q)) => if q + n <= b.len() {
            Some((b.subrange(q, q + n), q + n))
        } else {
            None
        },
        None => None,
    }
}

pub open spec fn spec_dec_str(b: Seq<u8>, p: int) -> Option<(Seq<char>, int)> {
    match spec_dec_bytes(b, p) {
        Some((d, q)) => if valid_utf8(d) {
            Some((decode_utf8(d), q))
        } else {
            None
        },
        None => None,
    }
}

pub open spec fn spec_dec_u32_items(b: Seq<u8>, p: int, n: int) -> Option<(Seq<u32>, int)>
    decreases n,
{
    if n <= 0 {
        Some((Seq::empty(), p))
    } else {
        match spec_dec_u32(b, p) {
            Some((x, q)) => match spec_dec_u32_items(b, q, n - 1) {
                Some((s, e)) => Some((seq![x] + s, e)),
                None => None,
            },
            None => None,
        }
    }
}

pub open spec fn spec_dec_u32_list(b: Seq<u8>, p: int) -> Option<(Seq<u32>, int)> {
    match spec_dec_u32(b, p) {
        Some((n, q)) => spec_dec_u32_items(b, q, n as int),
        None => None,
    }
}

pub open spec fn spec_dec_i64_items(b: Seq<u8>, p: int, n: int) -> Option<(Seq<i64>, int)>
    decreases n,
{
    if n <= 0 {
        Some((Seq::empty(), p))
    } else {
        match spec_dec_i64(b, p) {
            Some((x, q)) => match spec_dec_i64_items(b, q, n - 1) {
                Some((s, e)) => Some((seq![x] + s, e)),
                None => None,
            },
            None => None,
        }
    }
}

pub open spec fn spec_dec_i64_list(b: Seq<u8>, p: int) -> Option<(Seq<i64>, int)> {
    match spec_dec_u32(b, p) {
        Some((n, q)) => spec_dec_i64_items(b, q, n as int),
        None => None,
    }
}

/// Correspondence between an executable decoder result (with a `usize`
/// position) and the specification decoder result (with an `int` position).
pub open spec fn dec_matches<T>(r: Option<(T, usize)>, s: Option<(T, int)>) -> bool {
    match r {
        Some(rp) => s matches Some(sp) && rp.0 == sp.0 && rp.1 as int == sp.1,
        None => s is None,
    }
}

// ---------------------------------------------------------------------------
// Executable encoders
// ---------------------------------------------------------------------------

pub fn enc_u32_onto(x: u32, out: &mut Vec<u8>)
    ensures
        final(out)@ == old(out)@ + spec_enc_u32(x),
{
    let mut b = u32_to_le_bytes(x);
    out.append(&mut b);
}

pub fn enc_u64_onto(x: u64, out: &mut Vec<u8>)
    ensures
        final(out)@ == old(out)@ + spec_enc_u64(x),
{
    let mut b = u64_to_le_bytes(x);
    out.append(&mut b);
}

pub fn enc_i64_onto(x: i64, out: &mut Vec<u8>)
    ensures
        final(out)@ == old(out)@ + spec_enc_i64(x),
{
    enc_u64_onto(x as u64, out);
}

pub fn enc_i32_onto(x: i32, out: &mut Vec<u8>)
    ensures
        final(out)@ == old(out)@ + spec_enc_i32(x),
{
    enc_u32_onto(x as u32, out);
}

pub fn enc_bytes_onto(d: &[u8], out: &mut Vec<u8>)
    requires
        d@.len() <= u32::MAX,
    ensures
        final(out)@ == old(out)@ + spec_enc_bytes(d@),
{
    enc_u32_onto(d.len() as u32, out);
    out.extend_from_slice(d);
    assert(out@ =~= old(out)@ + spec_enc_bytes(d@));
}

pub fn enc_str_onto(s: &str, out: &mut Vec<u8>)
    requires
        str_encodable(s@),
    ensures
        final(out)@ == old(out)@ + spec_enc_str(s@),
{
    let bytes = s.as_bytes();
    enc_bytes_onto(bytes, out);
}

pub fn enc_u32_list_onto(v: &Vec<u32>, out: &mut Vec<u8>)
    requires
        v@.len() <= u32::MAX,
    ensures
        final(out)@ == old(out)@ + spec_enc_u32_list(v@),
{
    enc_u32_onto(v.len() as u32, out);
    let ghost base = out@;
    let n = v.len();
    let mut i: usize = 0;
    while i < n
        invariant
            i <= n,
            n == v@.len(),
            out@ == base + spec_enc_u32_items(v@.subrange(0, i as int)),
        decreases n - i,
    {
        enc_u32_onto(v[i], out);
        proof {
            lemma_enc_u32_items_snoc(v@.subrange(0, i as int), v@[i as int]);
            assert(v@.subrange(0, i as int).push(v@[i as int]) =~= v@.subrange(0, i + 1));
        }
        i = i + 1;
    }
    proof {
        assert(v@.subrange(0, n as int) =~= v@);
    }
}

pub fn enc_i64_list_onto(v: &Vec<i64>, out: &mut Vec<u8>)
    requires
        v@.len() <= u32::MAX,
    ensures
        final(out)@ == old(out)@ + spec_enc_i64_list(v@),
{
    enc_u32_onto(v.len() as u32, out);
    let ghost base = out@;
    let n = v.len();
    let mut i: usize = 0;
    while i < n
        invariant
            i <= n,
            n == v@.len(),
            out@ == base + spec_enc_i64_items(v@.subrange(0, i as int)),
        decreases n - i,
    {
        enc_i64_onto(v[i], out);
        proof {
            lemma_enc_i64_items_snoc(v@.subrange(0, i as int), v@[i as int]);
            assert(v@.subrange(0, i as int).push(v@[i as int]) =~= v@.subrange(0, i + 1));
        }
        i = i + 1;
    }
    proof {
        assert(v@.subrange(0, n as int) =~= v@);
    }
}

// ---------------------------------------------------------------------------
// Executable decoders
// ---------------------------------------------------------------------------

pub fn dec_u32(b: &[u8], pos: usize) -> (r: Option<(u32, usize)>)
    requires
        pos <= b@.len(),
    ensures
        dec_matches(r, spec_dec_u32(b@, pos as int)),
        r matches Some(rp) ==> rp.1 <= b@.len(),
{
    if b.len() - pos >= 4 {
        let sl = slice_subrange(b, pos, pos + 4);
        let x = u32_from_le_bytes(sl);
        Some((x, pos + 4))
    } else {
        None
    }
}

pub fn dec_u64(b: &[u8], pos: usize) -> (r: Option<(u64, usize)>)
    requires
        pos <= b@.len(),
    ensures
        dec_matches(r, spec_dec_u64(b@, pos as int)),
        r matches Some(rp) ==> rp.1 <= b@.len(),
{
    if b.len() - pos >= 8 {
        let sl = slice_subrange(b, pos, pos + 8);
        let x = u64_from_le_bytes(sl);
        Some((x, pos + 8))
    } else {
        None
    }
}

pub fn dec_i64(b: &[u8], pos: usize) -> (r: Option<(i64, usize)>)
    requires
        pos <= b@.len(),
    ensures
        dec_matches(r, spec_dec_i64(b@, pos as int)),
        r matches Some(rp) ==> rp.1 <= b@.len(),
{
    match dec_u64(b, pos) {
        Some((x, q)) => Some((x as i64, q)),
        None => None,
    }
}

pub fn dec_i32(b: &[u8], pos: usize) -> (r: Option<(i32, usize)>)
    requires
        pos <= b@.len(),
    ensures
        dec_matches(r, spec_dec_i32(b@, pos as int)),
        r matches Some(rp) ==> rp.1 <= b@.len(),
{
    match dec_u32(b, pos) {
        Some((x, q)) => Some((x as i32, q)),
        None => None,
    }
}

pub fn dec_bytes(b: &[u8], pos: usize) -> (r: Option<(Vec<u8>, usize)>)
    requires
        pos <= b@.len(),
    ensures
        (r is Some) == (spec_dec_bytes(b@, pos as int) is Some),
        r matches Some(rp) ==> spec_dec_bytes(b@, pos as int) matches Some(sp) && rp.0@ == sp.0
            && rp.1 as int == sp.1,
        r matches Some(rp) ==> rp.1 <= b@.len(),
{
    match dec_u32(b, pos) {
        Some((n, q)) => {
            let n_us = n as usize;
            if b.len() - q >= n_us {
                let sl = slice_subrange(b, q, q + n_us);
                let d = slice_to_vec(sl);
                Some((d, q + n_us))
            } else {
                None
            }
        },
        None => None,
    }
}

/// Relies on `String::from_utf8`: it succeeds exactly on valid UTF-8
/// input, and then returns the decoded character sequence.
#[verifier::external_body]
pub fn string_from_utf8(bytes: Vec<u8>) -> (r: Option<String>)
    ensures
        (r is Some) == valid_utf8(bytes@),
        r matches Some(s) ==> s@ == decode_utf8(bytes@),
{
    String::from_utf8(bytes).ok()
}

pub fn dec_str(b: &[u8], pos: usize) -> (r: Option<(String, usize)>)
    requires
        pos <= b@.len(),
    ensures
        (r is Some) == (spec_dec_str(b@, pos as int) is Some),
        r matches Some(rp) ==> spec_dec_str(b@, pos as int) matches Some(sp) && rp.0@ == sp.0
            && rp.1 as int == sp.1,
        r matches Some(rp) ==> rp.1 <= b@.len(),
{
    match dec_bytes(b, pos) {
        Some((d, q)) => match string_from_utf8(d) {
            Some(s) => Some((s, q)),
            None => None,
        },
        None => None,
    }
}

pub fn dec_u32_list(b: &[u8], pos: usize) -> (r: Option<(Vec<u32>, usize)>)
    requires
        pos <= b@.len(),
    ensures
        (r is Some) == (spec_dec_u32_list(b@, pos as int) is Some),
        r matches Some(rp) ==> spec_dec_u32_list(b@, pos as int) matches Some(sp) && rp.0@ == sp.0
            && rp.1 as int == sp.1,
        r matches Some(rp) ==> rp.1 <= b@.len(),
{
    match dec_u32(b, pos) {
        Some((n, q0)) => {
            let mut acc: Vec<u32> = Vec::new();
            let mut q = q0;
            let mut i: u32 = 0;
            while i < n
                invariant
                    i <= n,
                    q <= b@.len(),
                    acc@.len() == i,
                    spec_dec_u32_list(b@, pos as int) == (match spec_dec_u32_items(
                        b@,
                        q as int,
                        n as int - i as int,
                    ) {
                        Some((s, e)) => Some((acc@ + s, e)),
                        None => None::<(Seq<u32>, int)>,
                    }),
                decreases n - i,
            {
                match dec_u32(b, q) {
                    Some((x, q2)) => {
                        proof {
                            match spec_dec_u32_items(b@, q2 as int, n as int - i as int - 1) {
                                Some((s, e)) => {
                                    assert(acc@ + (seq![x] + s) =~= acc@.push(x) + s);
                                },
                                None => {},
                            }
                        }
                        acc.push(x);
                        q = q2;
                    },
                    None => {
                        return None;
                    },
                }
                i = i + 1;
            }
            proof {
                assert(acc@ + Seq::<u32>::empty() =~= acc@);
            }
            Some((acc, q))
        },
        None => None,
    }
}

pub fn dec_i64_list(b: &[u8], pos: usize) -> (r: Option<(Vec<i64>, usize)>)
    requires
        pos <= b@.len(),
    ensures
        (r is Some) == (spec_dec_i64_list(b@, pos as int) is Some),
        r matches Some(rp) ==> spec_dec_i64_list(b@, pos as int) matches Some(sp) && rp.0@ == sp.0
            && rp.1 as int == sp.1,
        r matches Some(rp) ==> rp.1 <= b@.len(),
{
    match dec_u32(b, pos) {
        Some((n, q0)) => {
            let mut acc: Vec<i64> = Vec::new();
            let mut q = q0;
            let mut i: u32 = 0;
            while i < n
                invariant
                    i <= n,
                    q <= b@.len(),
                    acc@.len() == i,
                    spec_dec_i64_list(b@, pos as int) == (match spec_dec_i64_items(
                        b@,
                        q as int,
                        n as int - i as int,
                    ) {
                        Some((s, e)) => Some((acc@ + s, e)),
                        None => None::<(Seq<i64>, int)>,
                    }),
                decreases n - i,
            {
                match dec_i64(b, q) {
                    Some((x, q2)) => {
                        proof {
                            match spec_dec_i64_items(b@, q2 as int, n as int - i as int - 1) {
                                Some((s, e)) => {
                                    assert(acc@ + (seq![x] + s) =~= acc@.push(x) + s);
                                },
                                None => {},
                            }
                        }
                        acc.push(x);
                        q = q2;
                    },
                    None => {
                        return None;
                    },
                }
                i = i + 1;
            }
            proof {
                assert(acc@ + Seq::<i64>::empty() =~= acc@);
            }
            Some((acc, q))
        },
        None => None,
    }
}

// ---------------------------------------------------------------------------
// Inversion lemmas: decoding an encoding yields the encoded value
// ---------------------------------------------------------------------------

pub proof fn lemma_enc_u32_len(x: u32)
    ensures
        spec_enc_u32(x).len() == 4,
{
    lemma_auto_spec_u32_to_from_le_bytes();
}

pub proof fn lemma_enc_u64_len(x: u64)
    ensures
        spec_enc_u64(x).len() == 8,
{
    lemma_auto_spec_u64_to_from_le_bytes();
}

pub proof fn lemma_enc_i32_len(x: i32)
    ensures
        spec_enc_i32(x).len() == 4,
{
    lemma_auto_spec_u32_to_from_le_bytes();
}

pub proof fn lemma_enc_i64_len(x: i64)
    ensures
        spec_enc_i64(x).len() == 8,
{
    lemma_auto_spec_u64_to_from_le_bytes();
}

pub proof fn lemma_enc_str_len(s: Seq<char>)
    ensures
        spec_enc_str(s).len() == 4 + encode_utf8(s).len(),
{
    lemma_enc_u32_len(encode_utf8(s).len() as u32);
}

pub proof fn lemma_enc_u32_list_len(v: Seq<u32>)
    ensures
        spec_enc_u32_list(v).len() == 4 + 4 * v.len(),
{
    lemma_enc_u32_len(v.len() as u32);
    lemma_enc_u32_items_len(v);
}

pub proof fn lemma_enc_i64_list_len(v: Seq<i64>)
    ensures
        spec_enc_i64_list(v).len() == 4 + 8 * v.len(),
{
    lemma_enc_u32_len(v.len() as u32);
    lemma_enc_i64_items_len(v);
}

pub proof fn lemma_dec_u32_of_enc(b: Seq<u8>, p: int, x: u32)
    requires
        0 <= p,
        p + 4 <= b.len(),
        b.subrange(p, p + 4) == spec_enc_u32(x),
    ensures
        spec_dec_u32(b, p) == Some((x, p + 4)),
{
    lemma_auto_spec_u32_to_from_le_bytes();
    assert(spec_u32_to_le_bytes(x).len() == 4);
    assert(spec_u32_from_le_bytes(spec_u32_to_le_bytes(x)) == x);
    assert(b.subrange(p, p + 4) == spec_u32_to_le_bytes(x));
}

pub proof fn lemma_dec_u64_of_enc(b: Seq<u8>, p: int, x: u64)
    requires
        0 <= p,
        p + 8 <= b.len(),
        b.subrange(p, p + 8) == spec_enc_u64(x),
    ensures
        spec_dec_u64(b, p) == Some((x, p + 8)),
{
    lemma_auto_spec_u64_to_from_le_bytes();
    assert(spec_u64_to_le_bytes(x).len() == 8);
    assert(spec_u64_from_le_bytes(spec_u64_to_le_bytes(x)) == x);
    assert(b.subrange(p, p + 8) == spec_u64_to_le_bytes(x));
}

pub proof fn lemma_dec_i64_of_enc(b: Seq<u8>, p: int, x: i64)
    requires
        0 <= p,
        p + 8 <= b.len(),
        b.subrange(p, p + 8) == spec_enc_i64(x),
    ensures
        spec_dec_i64(b, p) == Some((x, p + 8)),
{
    lemma_dec_u64_of_enc(b, p, x as u64);
    assert((x as u64) as i64 == x) by (bit_vector);
}

pub proof fn lemma_dec_i32_of_enc(b: Seq<u8>, p: int, x: i32)
    requires
        0 <= p,
        p + 4 <= b.len(),
        b.subrange(p, p + 4) == spec_enc_i32(x),
    ensures
        spec_dec_i32(b, p) == Some((x, p + 4)),
{
    lemma_dec_u32_of_enc(b, p, x as u32);
    assert((x as u32) as i32 == x) by (bit_vector);
}

pub proof fn lemma_dec_bytes_of_enc(b: Seq<u8>, p: int, d: Seq<u8>)
    requires
        0 <= p,
        d.len() <= u32::MAX,
        p + 4 + d.len() <= b.len(),
        b.subrange(p, p + 4 + d.len()) == spec_enc_bytes(d),
    ensures
        spec_dec_bytes(b, p) == Some((d, p + 4 + d.len())),
{
    lemma_enc_u32_len(d.len() as u32);
    assert(b.subrange(p, p + 4) =~= spec_enc_bytes(d).subrange(0, 4));
    assert(spec_enc_bytes(d).subrange(0, 4) =~= spec_enc_u32(d.len() as u32));
    lemma_dec_u32_of_enc(b, p, d.len() as u32);
    assert(b.subrange(p + 4, p + 4 + d.len()) =~= spec_enc_bytes(d).subrange(
        4,
        4 + d.len() as int,
    ));
    assert(spec_enc_bytes(d).subrange(4, 4 + d.len() as int) =~= d);
}

pub proof fn lemma_dec_str_of_enc(b: Seq<u8>, p: int, s: Seq<char>)
    requires
        0 <= p,
        str_encodable(s),
        p + 4 + encode_utf8(s).len() <= b.len(),
        b.subrange(p, p + 4 + encode_utf8(s).len()) == spec_enc_str(s),
    ensures
        spec_dec_str(b, p) == Some((s, p + 4 + encode_utf8(s).len())),
{
    lemma_dec_bytes_of_enc(b, p, encode_utf8(s));
    encode_utf8_valid_utf8(s);
    encode_utf8_decode_utf8(s);
}

pub proof fn lemma_enc_u32_items_snoc(v: Seq<u32>, x: u32)
    ensures
        spec_enc_u32_items(v.push(x)) == spec_enc_u32_items(v) + spec_enc_u32(x),
    decreases v.len(),
{
    if v.len() == 0 {
        assert(v.push(x).drop_first() =~= v);
        assert(v.push(x)[0] == x);
        assert(spec_enc_u32_items(v.push(x)) =~= spec_enc_u32_items(v) + spec_enc_u32(x));
    } else {
        assert(v.push(x).drop_first() =~= v.drop_first().push(x));
        lemma_enc_u32_items_snoc(v.drop_first(), x);
        assert(spec_enc_u32_items(v.push(x)) =~= spec_enc_u32_items(v) + spec_enc_u32(x));
    }
}

pub proof fn lemma_enc_i64_items_snoc(v: Seq<i64>, x: i64)
    ensures
        spec_enc_i64_items(v.push(x)) == spec_enc_i64_items(v) + spec_enc_i64(x),
    decreases v.len(),
{
    if v.len() == 0 {
        assert(v.push(x).drop_first() =~= v);
        assert(v.push(x)[0] == x);
        assert(spec_enc_i64_items(v.push(x)) =~= spec_enc_i64_items(v) + spec_enc_i64(x));
    } else {
        assert(v.push(x).drop_first() =~= v.drop_first().push(x));
        lemma_enc_i64_items_snoc(v.drop_first(), x);
        assert(spec_enc_i64_items(v.push(x)) =~= spec_enc_i64_items(v) + spec_enc_i64(x));
    }
}

pub proof fn lemma_enc_u32_items_len(v: Seq<u32>)
    ensures
        spec_enc_u32_items(v).len() == 4 * v.len(),
    decreases v.len(),
{
    if v.len() > 0 {
        lemma_enc_u32_len(v[0]);
        lemma_enc_u32_items_len(v.drop_first());
    }
}

pub proof fn lemma_enc_i64_items_len(v: Seq<i64>)
    ensures
        spec_enc_i64_items(v).len() == 8 * v.len(),
    decreases v.len(),
{
    if v.len() > 0 {
        lemma_enc_u64_len(v[0] as u64);
        lemma_enc_i64_items_len(v.drop_first());
    }
}

pub proof fn lemma_dec_u32_items_of_enc(b: Seq<u8>, p: int, v: Seq<u32>)
    requires
        0 <= p,
        p + 4 * v.len() <= b.len(),
        b.subrange(p, p + 4 * v.len()) == spec_enc_u32_items(v),
    ensures
        spec_dec_u32_items(b, p, v.len() as int) == Some((v, p + 4 * v.len())),
    decreases v.len(),
{
    lemma_enc_u32_items_len(v);
    if v.len() == 0 {
        assert(spec_dec_u32_items(b, p, 0) == Some((Seq::<u32>::empty(), p)));
        assert(v =~= Seq::<u32>::empty());
    } else {
        lemma_enc_u32_len(v[0]);
        lemma_enc_u32_items_len(v.drop_first());
        assert(b.subrange(p, p + 4) =~= spec_enc_u32_items(v).subrange(0, 4));
        assert(spec_enc_u32_items(v).subrange(0, 4) =~= spec_enc_u32(v[0]));
        lemma_dec_u32_of_enc(b, p, v[0]);
        assert(b.subrange(p + 4, p + 4 + 4 * v.drop_first().len() as int) =~= spec_enc_u32_items(
            v,
        ).subrange(4, 4 + 4 * v.drop_first().len() as int));
        assert(spec_enc_u32_items(v).subrange(4, 4 + 4 * v.drop_first().len() as int)
            =~= spec_enc_u32_items(v.drop_first()));
        lemma_dec_u32_items_of_enc(b, p + 4, v.drop_first());
        assert(seq![v[0]] + v.drop_first() =~= v);
    }
}

pub proof fn lemma_dec_i64_items_of_enc(b: Seq<u8>, p: int, v: Seq<i64>)
    requires
        0 <= p,
        p + 8 * v.len() <= b.len(),
        b.subrange(p, p + 8 * v.len()) == spec_enc_i64_items(v),
    ensures
        spec_dec_i64_items(b, p, v.len() as int) == Some((v, p + 8 * v.len())),
    decreases v.len(),
{
    lemma_enc_i64_items_len(v);
    if v.len() == 0 {
        assert(spec_dec_i64_items(b, p, 0) == Some((Seq::<i64>::empty(), p)));
        assert(v =~= Seq::<i64>::empty());
    } else {
        lemma_enc_u64_len(v[0] as u64);
        lemma_enc_i64_items_len(v.drop_first());
        assert(b.subrange(p, p + 8) =~= spec_enc_i64_items(v).subrange(0, 8));
        assert(spec_enc_i64_items(v).subrange(0, 8) =~= spec_enc_i64(v[0]));
        lemma_dec_i64_of_enc(b, p, v[0]);
        assert(b.subrange(p + 8, p + 8 + 8 * v.drop_first().len() as int) =~= spec_enc_i64_items(
            v,
        ).subrange(8, 8 + 8 * v.drop_first().len() as int));
        assert(spec_enc_i64_items(v).subrange(8, 8 + 8 * v.drop_first().len() as int)
            =~= spec_enc_i64_items(v.drop_first()));
        lemma_dec_i64_items_of_enc(b, p + 8, v.drop_first());
        assert(seq![v[0]] + v.drop_first() =~= v);
    }
}

pub proof fn lemma_dec_u32_list_of_enc(b: Seq<u8>, p: int, v: Seq<u32>)
    requires
        0 <= p,
        v.len() <= u32::MAX,
        p + 4 + 4 * v.len() <= b.len(),
        b.subrange(p, p + 4 + 4 * v.len()) == spec_enc_u32_list(v),
    ensures
        spec_dec_u32_list(b, p) == Some((v, p + 4 + 4 * v.len())),
{
    lemma_enc_u32_len(v.len() as u32);
    lemma_enc_u32_items_len(v);
    assert(b.subrange(p, p + 4) =~= spec_enc_u32_list(v).subrange(0, 4));
    assert(spec_enc_u32_list(v).subrange(0, 4) =~= spec_enc_u32(v.len() as u32));
    lemma_dec_u32_of_enc(b, p, v.len() as u32);
    assert(b.subrange(p + 4, p + 4 + 4 * v.len()) =~= spec_enc_u32_list(v).subrange(
        4,
        4 + 4 * v.len() as int,
    ));
    assert(spec_enc_u32_list(v).subrange(4, 4 + 4 * v.len() as int) =~= spec_enc_u32_items(v));
    lemma_dec_u32_items_of_enc(b, p + 4, v);
}

pub proof fn lemma_dec_i64_list_of_enc(b: Seq<u8>, p: int, v: Seq<i64>)
    requires
        0 <= p,
        v.len() <= u32::MAX,
        p + 4 + 8 * v.len() <= b.len(),
        b.subrange(p, p + 4 + 8 * v.len()) == spec_enc_i64_list(v),
    ensures
        spec_dec_i64_list(b, p) == Some((v, p + 4 + 8 * v.len())),
{
    lemma_enc_u32_len(v.len() as u32);
    lemma_enc_i64_items_len(v);
    assert(b.subrange(p, p + 4) =~= spec_enc_i64_list(v).subrange(0, 4));
    assert(spec_enc_i64_list(v).subrange(0, 4) =~= spec_enc_u32(v.len() as u32));
    lemma_dec_u32_of_enc(b, p, v.len() as u32);
    assert(b.subrange(p + 4, p + 4 + 8 * v.len()) =~= spec_enc_i64_list(v).subrange(
        4,
        4 + 8 * v.len() as int,
    ));
    assert(spec_enc_i64_list(v).subrange(4, 4 + 8 * v.len() as int) =~= spec_enc_i64_items(v));
    lemma_dec_i64_items_of_enc(b, p + 4, v);
}

} // verus!
