//! Canonical byte representations.
//!
//! Every value the index persists has one fixed byte image: integers are
//! little-endian, a key string is an 8-byte length followed by its UTF-8
//! bytes, a vector is a 4-byte coordinate count followed by the IEEE-754
//! bit patterns of its coordinates.  Each decoder accepts exactly the images
//! its encoder produces, so encoding round-trips exactly.

use vstd::prelude::*;

use crate::elements::{Edge, EntryPoint, GraphLog, Node, SegmentId, Vector};
use crate::graph_layer::GraphLayer;
use vstd::utf8::{encode_utf8, decode_utf8, valid_utf8};

verus! {

pub open spec fn u32_le(x: u32) -> Seq<u8> {
    seq![
        (x & 0xff) as u8,
        ((x >> 8) & 0xff) as u8,
        ((x >> 16) & 0xff) as u8,
        ((x >> 24) & 0xff) as u8,
    ]
}

pub open spec fn u32_of_le(s: Seq<u8>) -> u32
    recommends
        s.len() == 4,
{
    (s[0] as u32) | ((s[1] as u32) << 8) | ((s[2] as u32) << 16) | ((s[3] as u32) << 24)
}

pub proof fn lemma_u32_le_round(x: u32)
    ensures
        u32_of_le(u32_le(x)) == x,
{
    let b0 = (x & 0xff) as u8;
    let b1 = ((x >> 8) & 0xff) as u8;
    let b2 = ((x >> 16) & 0xff) as u8;
    let b3 = ((x >> 24) & 0xff) as u8;
    assert((b0 as u32) | ((b1 as u32) << 8) | ((b2 as u32) << 16) | ((b3 as u32) << 24) == x
        && b0 == (x & 0xff) as u8 && b1 == ((x >> 8) & 0xff) as u8 && b2 == ((x >> 16) & 0xff) as u8
        && b3 == ((x >> 24) & 0xff) as u8) by (bit_vector)
        requires
            b0 == (x & 0xff) as u8 && b1 == ((x >> 8) & 0xff) as u8 && b2 == ((x >> 16)
                & 0xff) as u8 && b3 == ((x >> 24) & 0xff) as u8,
    ;
}

pub proof fn lemma_u32_of_le_round(s: Seq<u8>)
    requires
        s.len() == 4,
    ensures
        u32_le(u32_of_le(s)) == s,
{
    let b0 = s[0];
    let b1 = s[1];
    let b2 = s[2];
    let b3 = s[3];
    let x = u32_of_le(s);
    assert((x & 0xff) as u8 == b0 && ((x >> 8) & 0xff) as u8 == b1 && ((x >> 16) & 0xff) as u8 == b2
        && ((x >> 24) & 0xff) as u8 == b3) by (bit_vector)
        requires
            x == (b0 as u32) | ((b1 as u32) << 8) | ((b2 as u32) << 16) | ((b3 as u32) << 24),
    ;
    assert(u32_le(x) =~= s);
}

pub open spec fn u64_le(x: u64) -> Seq<u8> {
    seq![
        (x & 0xff) as u8,
        ((x >> 8) & 0xff) as u8,
        ((x >> 16) & 0xff) as u8,
        ((x >> 24) & 0xff) as u8,
        ((x >> 32) & 0xff) as u8,
        ((x >> 40) & 0xff) as u8,
        ((x >> 48) & 0xff) as u8,
        ((x >> 56) & 0xff) as u8,
    ]
}

pub open spec fn u64_of_le(s: Seq<u8>) -> u64
    recommends
        s.len() == 8,
{
    (s[0] as u64) | ((s[1] as u64) << 8) | ((s[2] as u64) << 16) | ((s[3] as u64) << 24) | ((
    s[4] as u64) << 32) | ((s[5] as u64) << 40) | ((s[6] as u64) << 48) | ((s[7] as u64) << 56)
}

pub proof fn lemma_u64_le_round(x: u64)
    ensures
        u64_of_le(u64_le(x)) == x,
{
    let b0 = (x & 0xff) as u8;
    let b1 = ((x >> 8) & 0xff) as u8;
    let b2 = ((x >> 16) & 0xff) as u8;
    let b3 = ((x >> 24) & 0xff) as u8;
    let b4 = ((x >> 32) & 0xff) as u8;
    let b5 = ((x >> 40) & 0xff) as u8;
    let b6 = ((x >> 48) & 0xff) as u8;
    let b7 = ((x >> 56) & 0xff) as u8;
    assert((b0 as u64) | ((b1 as u64) << 8) | ((b2 as u64) << 16) | ((b3 as u64) << 24) | ((
    b4 as u64) << 32) | ((b5 as u64) << 40) | ((b6 as u64) << 48) | ((b7 as u64) << 56) == x) by (
    bit_vector)
        requires
            b0 == (x & 0xff) as u8 && b1 == ((x >> 8) & 0xff) as u8 && b2 == ((x >> 16)
                & 0xff) as u8 && b3 == ((x >> 24) & 0xff) as u8 && b4 == ((x >> 32) & 0xff) as u8
                && b5 == ((x >> 40) & 0xff) as u8 && b6 == ((x >> 48) & 0xff) as u8 && b7 == ((x
                >> 56) & 0xff) as u8,
    ;
}

pub proof fn lemma_u64_of_le_round(s: Seq<u8>)
    requires
        s.len() == 8,
    ensures
        u64_le(u64_of_le(s)) == s,
{
    let b0 = s[0];
    let b1 = s[1];
    let b2 = s[2];
    let b3 = s[3];
    let b4 = s[4];
    let b5 = s[5];
    let b6 = s[6];
    let b7 = s[7];
    let x = u64_of_le(s);
    assert((x & 0xff) as u8 == b0 && ((x >> 8) & 0xff) as u8 == b1 && ((x >> 16) & 0xff) as u8 == b2
        && ((x >> 24) & 0xff) as u8 == b3 && ((x >> 32) & 0xff) as u8 == b4 && ((x >> 40)
        & 0xff) as u8 == b5 && ((x >> 48) & 0xff) as u8 == b6 && ((x >> 56) & 0xff) as u8 == b7) by (
    bit_vector)
        requires
            x == (b0 as u64) | ((b1 as u64) << 8) | ((b2 as u64) << 16) | ((b3 as u64) << 24) | ((
            b4 as u64) << 32) | ((b5 as u64) << 40) | ((b6 as u64) << 48) | ((b7 as u64) << 56),
    ;
    assert(u64_le(x) =~= s);
}

/// Appends the four little-endian bytes of `x`.
pub fn push_u32_le(out: &mut Vec<u8>, x: u32)
    ensures
        final(out)@ == old(out)@ + u32_le(x),
{
    let ghost pre = out@;
    assert(x & 0xff < 256 && (x >> 8) & 0xff < 256 && (x >> 16) & 0xff < 256 && (x >> 24) & 0xff
        < 256) by (bit_vector);
    out.push((x & 0xff) as u8);
    out.push(((x >> 8) & 0xff) as u8);
    out.push(((x >> 16) & 0xff) as u8);
    out.push(((x >> 24) & 0xff) as u8);
    proof {
        assert(out@ =~= pre + u32_le(x));
    }
}

/// Appends the eight little-endian bytes of `x`.
pub fn push_u64_le(out: &mut Vec<u8>, x: u64)
    ensures
        final(out)@ == old(out)@ + u64_le(x),
{
    let ghost pre = out@;
    assert(x & 0xff < 256 && (x >> 8) & 0xff < 256 && (x >> 16) & 0xff < 256 && (x >> 24) & 0xff
        < 256 && (x >> 32) & 0xff < 256 && (x >> 40) & 0xff < 256 && (x >> 48) & 0xff < 256 && (x
        >> 56) & 0xff < 256) by (bit_vector);
    out.push((x & 0xff) as u8);
    out.push(((x >> 8) & 0xff) as u8);
    out.push(((x >> 16) & 0xff) as u8);
    out.push(((x >> 24) & 0xff) as u8);
    out.push(((x >> 32) & 0xff) as u8);
    out.push(((x >> 40) & 0xff) as u8);
    out.push(((x >> 48) & 0xff) as u8);
    out.push(((x >> 56) & 0xff) as u8);
    proof {
        assert(out@ =~= pre + u64_le(x));
    }
}

/// Reads the little-endian `u32` at `off`.
pub fn read_u32_le(b: &Vec<u8>, off: usize) -> (r: u32)
    requires
        off + 4 <= b@.len(),
    ensures
        r == u32_of_le(b@.subrange(off as int, off + 4)),
{
    let total = b.len();
    assert(off + 4 <= total);
    let r = (b[off] as u32) | ((b[off + 1] as u32) << 8) | ((b[off + 2] as u32) << 16) | ((b[off
        + 3] as u32) << 24);
    proof {
        let s = b@.subrange(off as int, off + 4);
        assert(s[0] == b@[off as int] && s[1] == b@[off + 1] && s[2] == b@[off + 2] && s[3] == b@[
            off + 3]);
    }
    r
}

/// Reads the little-endian `u64` at `off`.
pub fn read_u64_le(b: &Vec<u8>, off: usize) -> (r: u64)
    requires
        off + 8 <= b@.len(),
    ensures
        r == u64_of_le(b@.subrange(off as int, off + 8)),
{
    let total = b.len();
    assert(off + 8 <= total);
    let r = (b[off] as u64) | ((b[off + 1] as u64) << 8) | ((b[off + 2] as u64) << 16) | ((b[off
        + 3] as u64) << 24) | ((b[off + 4] as u64) << 32) | ((b[off + 5] as u64) << 40) | ((b[off
        + 6] as u64) << 48) | ((b[off + 7] as u64) << 56);
    proof {
        let s = b@.subrange(off as int, off + 8);
        assert(s[0] == b@[off as int] && s[1] == b@[off + 1] && s[2] == b@[off + 2] && s[3] == b@[
            off + 3] && s[4] == b@[off + 4] && s[5] == b@[off + 5] && s[6] == b@[off + 6] && s[7]
            == b@[off + 7]);
    }
    r
}

/// The canonical image of a key string: 8-byte little-endian byte length,
/// then the UTF-8 bytes.
pub open spec fn string_rpr(s: Seq<char>) -> Seq<u8> {
    u64_le(encode_utf8(s).len() as u64) + encode_utf8(s)
}

/// The images the string decoder accepts: a correct length header over a
/// valid UTF-8 payload.
pub open spec fn string_rpr_ok(b: Seq<u8>) -> bool {
    &&& b.len() >= 8
    &&& u64_of_le(b.subrange(0, 8)) == b.len() - 8
    &&& valid_utf8(b.skip(8))
}

/// Relies on `String::from_utf8`: it succeeds exactly on input that is valid
/// UTF-8, and then returns the string whose UTF-8 encoding is that input.
#[verifier::external_body]
fn bytes_to_string(bytes: Vec<u8>) -> (r: Option<String>)
    ensures
        r is Some <==> valid_utf8(bytes@),
        r matches Some(s) ==> encode_utf8(s@) == bytes@,
{
    String::from_utf8(bytes).ok()
}

/// Encodes a key string into its canonical image.
#[verifier::loop_isolation(false)]
pub fn encode_string(s: &str) -> (r: Vec<u8>)
    ensures
        r@ == string_rpr(s@),
{
    let bytes = s.as_bytes();
    let mut out: Vec<u8> = Vec::new();
    push_u64_le(&mut out, bytes.len() as u64);
    let mut i: usize = 0;
    while i < bytes.len()
        invariant
            i <= bytes@.len(),
            out@ == u64_le(bytes@.len() as u64) + bytes@.take(i as int),
        decreases bytes.len() - i,
    {
        out.push(bytes[i]);
        proof {
            assert(u64_le(bytes@.len() as u64) + bytes@.take(i + 1) =~= (u64_le(
                bytes@.len() as u64,
            ) + bytes@.take(i as int)).push(bytes@[i as int]));
        }
        i += 1;
    }
    proof {
        assert(bytes@.take(bytes@.len() as int) =~= bytes@);
    }
    out
}

/// Decodes a canonical string image; accepts exactly the images
/// [`encode_string`] produces.
#[verifier::loop_isolation(false)]
pub fn decode_string(b: &Vec<u8>) -> (r: Option<String>)
    ensures
        r is Some <==> string_rpr_ok(b@),
        r matches Some(s) ==> b@ == string_rpr(s@),
{
    if b.len() < 8 {
        return None;
    }
    let n = read_u64_le(b, 0);
    if n != (b.len() - 8) as u64 {
        return None;
    }
    let mut payload: Vec<u8> = Vec::new();
    let mut i: usize = 8;
    while i < b.len()
        invariant
            8 <= i <= b@.len(),
            payload@ == b@.subrange(8, i as int),
        decreases b.len() - i,
    {
        payload.push(b[i]);
        proof {
            assert(b@.subrange(8, i + 1) =~= b@.subrange(8, i as int).push(b@[i as int]));
        }
        i += 1;
    }
    proof {
        assert(payload@ =~= b@.skip(8));
    }
    match bytes_to_string(payload) {
        Some(s) => {
            proof {
                assert(encode_utf8(s@).len() == b@.len() - 8);
                lemma_u64_of_le_round(b@.subrange(0, 8));
                assert(b@ =~= b@.subrange(0, 8) + b@.skip(8));
            }
            Some(s)
        },
        None => None,
    }
}

/// Any two strings with the same canonical image are the same string, and
/// every canonical image is accepted by the decoder: encoding a key and
/// decoding the image yields exactly that key back.
pub proof fn lemma_string_codec_round_trip(s: Seq<char>)
    requires
        encode_utf8(s).len() <= u64::MAX,
    ensures
        string_rpr_ok(string_rpr(s)),
        forall|t: Seq<char>| #[trigger] string_rpr(t) == string_rpr(s) ==> t == s,
{
    let b = string_rpr(s);
    vstd::utf8::encode_utf8_valid_utf8(s);
    lemma_u64_le_round(encode_utf8(s).len() as u64);
    assert(b.subrange(0, 8) =~= u64_le(encode_utf8(s).len() as u64));
    assert(b.skip(8) =~= encode_utf8(s));
    assert forall|t: Seq<char>| #[trigger] string_rpr(t) == string_rpr(s) implies t == s by {
        assert(string_rpr(t).skip(8) =~= encode_utf8(t));
        assert(encode_utf8(t) == encode_utf8(s));
        vstd::utf8::encode_utf8_decode_utf8(t);
        vstd::utf8::encode_utf8_decode_utf8(s);
        assert(t == decode_utf8(encode_utf8(t)));
    }
}

/// The concatenated little-endian images of a sequence of 32-bit words.
pub open spec fn u32s_le(s: Seq<u32>) -> Seq<u8>
    decreases s.len(),
{
    if s.len() == 0 {
        Seq::<u8>::empty()
    } else {
        u32s_le(s.drop_last()) + u32_le(s.last())
    }
}

pub proof fn lemma_u32s_le_len(s: Seq<u32>)
    ensures
        u32s_le(s).len() == 4 * s.len(),
    decreases s.len(),
{
    if s.len() > 0 {
        lemma_u32s_le_len(s.drop_last());
    }
}

/// Two word sequences of one length with one image are equal.
pub proof fn lemma_u32s_le_inj(a: Seq<u32>, b: Seq<u32>)
    requires
        a.len() == b.len(),
        u32s_le(a) == u32s_le(b),
    ensures
        a == b,
    decreases a.len(),
{
    if a.len() > 0 {
        lemma_u32s_le_len(a);
        lemma_u32s_le_len(b);
        lemma_u32s_le_len(a.drop_last());
        lemma_u32s_le_len(b.drop_last());
        assert(u32s_le(a.drop_last()) =~= u32s_le(a).take(4 * a.len() - 4));
        assert(u32s_le(b.drop_last()) =~= u32s_le(b).take(4 * b.len() - 4));
        lemma_u32s_le_inj(a.drop_last(), b.drop_last());
        assert(u32_le(a.last()) =~= u32s_le(a).skip(4 * a.len() - 4));
        assert(u32_le(b.last()) =~= u32s_le(b).skip(4 * b.len() - 4));
        lemma_u32_le_round(a.last());
        lemma_u32_le_round(b.last());
        assert(u32_le(a.last()) == u32_le(b.last()));
        assert(a.last() == b.last());
        assert forall|i: int| 0 <= i < a.len() implies a[i] == b[i] by {
            if i < a.len() - 1 {
                assert(a[i] == a.drop_last()[i]);
                assert(b[i] == b.drop_last()[i]);
            } else {
                assert(a[i] == a.last());
                assert(b[i] == b.last());
            }
        }
        assert(a =~= b);
    } else {
        assert(a =~= b);
    }
}

/// The canonical image of a vector: 4-byte little-endian coordinate count,
/// then each coordinate's bit pattern, little-endian.
pub open spec fn vector_rpr(v: Seq<u32>) -> Seq<u8> {
    u32_le(v.len() as u32) + u32s_le(v)
}

/// The images the vector decoder accepts.
pub open spec fn vector_rpr_ok(b: Seq<u8>) -> bool {
    &&& b.len() >= 4
    &&& b.len() == 4 + 4 * (u32_of_le(b.subrange(0, 4)) as int)
}

/// Encodes a vector into its canonical image.
#[verifier::loop_isolation(false)]
pub fn encode_vector(v: &Vector) -> (r: Vec<u8>)
    requires
        v@.len() <= u32::MAX,
    ensures
        r@ == vector_rpr(v@),
{
    let mut out: Vec<u8> = Vec::new();
    push_u32_le(&mut out, v.raw.len() as u32);
    let mut i: usize = 0;
    while i < v.raw.len()
        invariant
            i <= v@.len(),
            out@ == u32_le(v@.len() as u32) + u32s_le(v@.take(i as int)),
        decreases v.raw.len() - i,
    {
        push_u32_le(&mut out, v.raw[i]);
        proof {
            let t = v@.take(i + 1);
            assert(t.drop_last() =~= v@.take(i as int));
            assert(t.last() == v@[i as int]);
        }
        i += 1;
    }
    proof {
        assert(v@.take(v@.len() as int) =~= v@);
    }
    out
}

/// Decodes a canonical vector image; accepts exactly the images
/// [`encode_vector`] produces.
#[verifier::loop_isolation(false)]
pub fn decode_vector(b: &Vec<u8>) -> (r: Option<Vector>)
    ensures
        r is Some <==> vector_rpr_ok(b@),
        r matches Some(v) ==> b@ == vector_rpr(v@) && v@.len() <= u32::MAX,
{
    if b.len() < 4 {
        return None;
    }
    let n = read_u32_le(b, 0);
    if (b.len() - 4) / 4 != n as usize || (b.len() - 4) % 4 != 0 {
        proof {
            if b@.len() == 4 + 4 * (u32_of_le(b@.subrange(0, 4)) as int) {
                assert((b@.len() - 4) / 4 == u32_of_le(b@.subrange(0, 4)) as int);
                assert((b@.len() - 4) % 4 == 0);
            }
        }
        return None;
    }
    proof {
        assert(b@.len() - 4 == 4 * (n as int));
        lemma_u32_of_le_round(b@.subrange(0, 4));
        assert(u32_le(n) =~= b@.take(4));
        assert(u32_le(n) + u32s_le(Seq::<u32>::empty()) =~= b@.take(4));
    }
    let mut raw: Vec<u32> = Vec::new();
    let mut i: usize = 0;
    while i < n as usize
        invariant
            i <= n as usize,
            b@.len() == 4 + 4 * (n as int),
            raw@.len() == i,
            u32_le(n) + u32s_le(raw@) == b@.take(4 + 4 * (i as int)),
        decreases n as usize - i,
    {
        let x = read_u32_le(b, 4 + 4 * i);
        let ghost prev = raw@;
        raw.push(x);
        proof {
            assert(raw@.drop_last() =~= prev);
            assert(raw@.last() == x);
            lemma_u32s_le_len(prev);
            lemma_u32_of_le_round(b@.subrange(4 + 4 * (i as int), 4 + 4 * (i as int) + 4));
            assert(u32_le(x) == b@.subrange(4 + 4 * (i as int), 4 + 4 * (i as int) + 4));
            assert(u32s_le(raw@) == u32s_le(prev) + u32_le(x));
            assert(u32_le(n) + u32s_le(raw@) =~= (u32_le(n) + u32s_le(prev)) + u32_le(x));
            assert(b@.take(4 + 4 * (i as int)) + b@.subrange(
                4 + 4 * (i as int),
                4 + 4 * (i as int) + 4,
            ) =~= b@.take(4 + 4 * (i + 1)));
        }
        i += 1;
    }
    proof {
        lemma_u32_of_le_round(b@.subrange(0, 4));
        assert(b@.take(4 + 4 * (n as int)) =~= b@);
        assert(u32_le(raw@.len() as u32) == u32_le(n));
    }
    Some(Vector { raw })
}

/// Any two vectors with the same canonical image are equal, and every
/// canonical image is accepted by the decoder: encoding a vector and
/// decoding the image yields exactly that vector back.
pub proof fn lemma_vector_codec_round_trip(v: Seq<u32>)
    requires
        v.len() <= u32::MAX,
    ensures
        vector_rpr_ok(vector_rpr(v)),
        forall|w: Seq<u32>| #[trigger] vector_rpr(w) == vector_rpr(v) ==> w == v,
{
    let b = vector_rpr(v);
    lemma_u32s_le_len(v);
    lemma_u32_le_round(v.len() as u32);
    assert(b.subrange(0, 4) =~= u32_le(v.len() as u32));
    assert forall|w: Seq<u32>| #[trigger] vector_rpr(w) == vector_rpr(v) implies w == v by {
        lemma_u32s_le_len(w);
        assert(vector_rpr(w).len() == 4 + 4 * w.len());
        assert(vector_rpr(v).len() == 4 + 4 * v.len());
        assert(w.len() == v.len());
        assert(u32s_le(w) =~= vector_rpr(w).skip(4));
        assert(u32s_le(v) =~= vector_rpr(v).skip(4));
        lemma_u32s_le_inj(w, v);
    }
}

pub open spec fn u128_le(x: u128) -> Seq<u8> {
    u64_le((x & 0xffff_ffff_ffff_ffff) as u64) + u64_le((x >> 64) as u64)
}

pub open spec fn u128_of_le(s: Seq<u8>) -> u128
    recommends
        s.len() == 16,
{
    (u64_of_le(s.subrange(0, 8)) as u128) | ((u64_of_le(s.subrange(8, 16)) as u128) << 64)
}

pub proof fn lemma_u128_le_round(x: u128)
    ensures
        u128_of_le(u128_le(x)) == x,
{
    let lo = (x & 0xffff_ffff_ffff_ffff) as u64;
    let hi = (x >> 64) as u64;
    assert(u128_le(x).subrange(0, 8) =~= u64_le(lo));
    assert(u128_le(x).subrange(8, 16) =~= u64_le(hi));
    lemma_u64_le_round(lo);
    lemma_u64_le_round(hi);
    assert((lo as u128) | ((hi as u128) << 64) == x) by (bit_vector)
        requires
            lo == (x & 0xffff_ffff_ffff_ffff) as u64 && hi == (x >> 64) as u64,
    ;
}

/// Appends the sixteen little-endian bytes of `x`.
pub fn push_u128_le(out: &mut Vec<u8>, x: u128)
    ensures
        final(out)@ == old(out)@ + u128_le(x),
{
    let ghost pre = out@;
    assert(x & 0xffff_ffff_ffff_ffff <= u64::MAX && (x >> 64) <= u64::MAX) by (bit_vector);
    push_u64_le(out, (x & 0xffff_ffff_ffff_ffff) as u64);
    push_u64_le(out, (x >> 64) as u64);
    proof {
        assert(out@ =~= pre + u128_le(x));
    }
}

/// Reads the little-endian `u128` at `off`.
pub fn read_u128_le(b: &Vec<u8>, off: usize) -> (r: u128)
    requires
        off + 16 <= b@.len(),
    ensures
        r == u128_of_le(b@.subrange(off as int, off + 16)),
{
    let total = b.len();
    assert(off + 16 <= total);
    let lo = read_u64_le(b, off);
    let hi = read_u64_le(b, off + 8);
    proof {
        let s = b@.subrange(off as int, off + 16);
        assert(s.subrange(0, 8) =~= b@.subrange(off as int, off + 8));
        assert(s.subrange(8, 16) =~= b@.subrange(off + 8, off + 16));
    }
    (lo as u128) | ((hi as u128) << 64)
}

/// The canonical image of a node: the four locator words, little-endian.
pub open spec fn node_rpr(n: Node) -> Seq<u8> {
    u64_le(n.key.off as u64) + u64_le(n.key.len as u64) + u64_le(n.vector.off as u64) + u64_le(
        n.vector.len as u64,
    )
}

/// The images the node decoder accepts: 32 bytes whose words fit a `usize`.
pub open spec fn node_rpr_ok(b: Seq<u8>) -> bool {
    &&& b.len() == 32
    &&& u64_of_le(b.subrange(0, 8)) <= usize::MAX
    &&& u64_of_le(b.subrange(8, 16)) <= usize::MAX
    &&& u64_of_le(b.subrange(16, 24)) <= usize::MAX
    &&& u64_of_le(b.subrange(24, 32)) <= usize::MAX
}

/// Encodes a node into its canonical image.
pub fn encode_node(n: Node) -> (r: Vec<u8>)
    ensures
        r@ == node_rpr(n),
{
    let mut out: Vec<u8> = Vec::new();
    push_u64_le(&mut out, n.key.off as u64);
    push_u64_le(&mut out, n.key.len as u64);
    push_u64_le(&mut out, n.vector.off as u64);
    push_u64_le(&mut out, n.vector.len as u64);
    proof {
        assert(out@ =~= node_rpr(n));
    }
    out
}

/// Decodes a canonical node image; accepts exactly the images
/// [`encode_node`] produces.
pub fn decode_node(b: &Vec<u8>) -> (r: Option<Node>)
    ensures
        r is Some <==> node_rpr_ok(b@),
        r matches Some(n) ==> b@ == node_rpr(n),
{
    if b.len() != 32 {
        return None;
    }
    let w0 = read_u64_le(b, 0);
    let w1 = read_u64_le(b, 8);
    let w2 = read_u64_le(b, 16);
    let w3 = read_u64_le(b, 24);
    if w0 > (usize::MAX as u64) || w1 > (usize::MAX as u64) || w2 > (usize::MAX as u64) || w3
        > (usize::MAX as u64) {
        return None;
    }
    let n = Node {
        key: SegmentId { off: w0 as usize, len: w1 as usize },
        vector: SegmentId { off: w2 as usize, len: w3 as usize },
    };
    proof {
        lemma_u64_of_le_round(b@.subrange(0, 8));
        lemma_u64_of_le_round(b@.subrange(8, 16));
        lemma_u64_of_le_round(b@.subrange(16, 24));
        lemma_u64_of_le_round(b@.subrange(24, 32));
        assert(b@ =~= node_rpr(n));
    }
    Some(n)
}

/// Any two nodes with one canonical image are equal, and every canonical
/// image is accepted by the decoder.
pub proof fn lemma_node_codec_round_trip(n: Node)
    ensures
        node_rpr_ok(node_rpr(n)),
        forall|m: Node| #[trigger] node_rpr(m) == node_rpr(n) ==> m == n,
{
    lemma_node_rpr_fields(n);
    assert forall|m: Node| #[trigger] node_rpr(m) == node_rpr(n) implies m == n by {
        lemma_node_rpr_fields(m);
    }
}

/// The four words of a node image are the node's locator fields.
pub proof fn lemma_node_rpr_fields(n: Node)
    ensures
        node_rpr(n).len() == 32,
        u64_of_le(node_rpr(n).subrange(0, 8)) == n.key.off,
        u64_of_le(node_rpr(n).subrange(8, 16)) == n.key.len,
        u64_of_le(node_rpr(n).subrange(16, 24)) == n.vector.off,
        u64_of_le(node_rpr(n).subrange(24, 32)) == n.vector.len,
{
    assert(node_rpr(n).subrange(0, 8) =~= u64_le(n.key.off as u64));
    assert(node_rpr(n).subrange(8, 16) =~= u64_le(n.key.len as u64));
    assert(node_rpr(n).subrange(16, 24) =~= u64_le(n.vector.off as u64));
    assert(node_rpr(n).subrange(24, 32) =~= u64_le(n.vector.len as u64));
    lemma_u64_le_round(n.key.off as u64);
    lemma_u64_le_round(n.key.len as u64);
    lemma_u64_le_round(n.vector.off as u64);
    lemma_u64_le_round(n.vector.len as u64);
}

/// The canonical image of an edge: both endpoints, then the weight bits.
pub open spec fn edge_rpr(e: Edge) -> Seq<u8> {
    node_rpr(e.from) + node_rpr(e.to) + u32_le(e.dist)
}

pub open spec fn edge_rpr_ok(b: Seq<u8>) -> bool {
    &&& b.len() == 68
    &&& node_rpr_ok(b.subrange(0, 32))
    &&& node_rpr_ok(b.subrange(32, 64))
}

/// Encodes an edge into its canonical image.
pub fn encode_edge(e: Edge) -> (r: Vec<u8>)
    ensures
        r@ == edge_rpr(e),
{
    let mut out = encode_node(e.from);
    let mut to_bytes = encode_node(e.to);
    let mut i: usize = 0;
    while i < to_bytes.len()
        invariant
            i <= to_bytes@.len(),
            to_bytes@ == node_rpr(e.to),
            out@ == node_rpr(e.from) + to_bytes@.take(i as int),
        decreases to_bytes@.len() - i,
    {
        out.push(to_bytes[i]);
        proof {
            assert(node_rpr(e.from) + to_bytes@.take(i + 1) =~= (node_rpr(e.from)
                + to_bytes@.take(i as int)).push(to_bytes@[i as int]));
        }
        i += 1;
    }
    proof {
        assert(to_bytes@.take(to_bytes@.len() as int) =~= to_bytes@);
    }
    push_u32_le(&mut out, e.dist);
    proof {
        assert(out@ =~= edge_rpr(e));
    }
    out
}

/// Decodes a canonical edge image; accepts exactly the images
/// [`encode_edge`] produces.
#[verifier::loop_isolation(false)]
pub fn decode_edge(b: &Vec<u8>) -> (r: Option<Edge>)
    ensures
        r is Some <==> edge_rpr_ok(b@),
        r matches Some(e) ==> b@ == edge_rpr(e),
{
    if b.len() != 68 {
        return None;
    }
    let mut from_bytes: Vec<u8> = Vec::new();
    let mut i: usize = 0;
    while i < 32
        invariant
            i <= 32,
            from_bytes@ == b@.subrange(0, i as int),
        decreases 32 - i,
    {
        from_bytes.push(b[i]);
        proof {
            assert(b@.subrange(0, i + 1) =~= b@.subrange(0, i as int).push(b@[i as int]));
        }
        i += 1;
    }
    let mut to_bytes: Vec<u8> = Vec::new();
    let mut j: usize = 32;
    while j < 64
        invariant
            32 <= j <= 64,
            to_bytes@ == b@.subrange(32, j as int),
        decreases 64 - j,
    {
        to_bytes.push(b[j]);
        proof {
            assert(b@.subrange(32, j + 1) =~= b@.subrange(32, j as int).push(b@[j as int]));
        }
        j += 1;
    }
    let from = match decode_node(&from_bytes) {
        Some(n) => n,
        None => {
            return None;
        },
    };
    let to = match decode_node(&to_bytes) {
        Some(n) => n,
        None => {
            return None;
        },
    };
    let dist = read_u32_le(b, 64);
    let e = Edge { from, to, dist };
    proof {
        lemma_u32_of_le_round(b@.subrange(64, 68));
        assert(b@ =~= edge_rpr(e));
    }
    Some(e)
}

/// The three pieces of an edge image.
pub proof fn lemma_edge_rpr_fields(e: Edge)
    ensures
        edge_rpr(e).len() == 68,
        edge_rpr(e).subrange(0, 32) == node_rpr(e.from),
        edge_rpr(e).subrange(32, 64) == node_rpr(e.to),
        edge_rpr(e).subrange(64, 68) == u32_le(e.dist),
{
    assert(edge_rpr(e).subrange(0, 32) =~= node_rpr(e.from));
    assert(edge_rpr(e).subrange(32, 64) =~= node_rpr(e.to));
    assert(edge_rpr(e).subrange(64, 68) =~= u32_le(e.dist));
}

/// Any two edges with one canonical image are equal, and every canonical
/// image is accepted by the decoder.
pub proof fn lemma_edge_codec_round_trip(e: Edge)
    ensures
        edge_rpr_ok(edge_rpr(e)),
        forall|f: Edge| #[trigger] edge_rpr(f) == edge_rpr(e) ==> f == e,
{
    lemma_edge_rpr_fields(e);
    lemma_node_codec_round_trip(e.from);
    lemma_node_codec_round_trip(e.to);
    assert forall|f: Edge| #[trigger] edge_rpr(f) == edge_rpr(e) implies f == e by {
        lemma_edge_rpr_fields(f);
        assert(node_rpr(f.from) == node_rpr(e.from));
        assert(node_rpr(f.to) == node_rpr(e.to));
        assert(u32_le(f.dist) == u32_le(e.dist));
        lemma_u32_le_round(f.dist);
        lemma_u32_le_round(e.dist);
    }
}

/// The canonical image of an entry point: the node, then the layer word.
pub open spec fn entry_point_rpr(p: EntryPoint) -> Seq<u8> {
    node_rpr(p.node) + u64_le(p.layer)
}

pub open spec fn entry_point_rpr_ok(b: Seq<u8>) -> bool {
    b.len() == 40 && node_rpr_ok(b.subrange(0, 32))
}

/// The canonical image of the commit record: a presence byte for the entry
/// point, its image when present, then `max_layer` and the version.
pub open spec fn log_rpr(l: GraphLog) -> Seq<u8> {
    match l.entry_point {
        Some(p) => seq![1u8] + entry_point_rpr(p) + u64_le(l.max_layer) + u128_le(
            l.version_number,
        ),
        None => seq![0u8] + u64_le(l.max_layer) + u128_le(l.version_number),
    }
}

pub open spec fn log_rpr_ok(b: Seq<u8>) -> bool {
    ||| (b.len() == 25 && b[0] == 0u8)
    ||| (b.len() == 65 && b[0] == 1u8 && entry_point_rpr_ok(b.subrange(1, 41)))
}

/// Encodes the commit record into its canonical image.
pub fn encode_log(l: &GraphLog) -> (r: Vec<u8>)
    ensures
        r@ == log_rpr(*l),
{
    let mut out: Vec<u8> = Vec::new();
    match l.entry_point {
        Some(p) => {
            out.push(1u8);
            let node_bytes = encode_node(p.node);
            let mut i: usize = 0;
            while i < node_bytes.len()
                invariant
                    i <= node_bytes@.len(),
                    node_bytes@ == node_rpr(p.node),
                    out@ == seq![1u8] + node_bytes@.take(i as int),
                decreases node_bytes@.len() - i,
            {
                out.push(node_bytes[i]);
                proof {
                    assert(seq![1u8] + node_bytes@.take(i + 1) =~= (seq![1u8]
                        + node_bytes@.take(i as int)).push(node_bytes@[i as int]));
                }
                i += 1;
            }
            proof {
                assert(node_bytes@.take(node_bytes@.len() as int) =~= node_bytes@);
            }
            push_u64_le(&mut out, p.layer);
            push_u64_le(&mut out, l.max_layer);
            push_u128_le(&mut out, l.version_number);
            proof {
                assert(out@ =~= log_rpr(*l));
            }
        },
        None => {
            out.push(0u8);
            push_u64_le(&mut out, l.max_layer);
            push_u128_le(&mut out, l.version_number);
            proof {
                assert(out@ =~= log_rpr(*l));
            }
        },
    }
    out
}

/// Decodes a canonical commit-record image; accepts exactly the images
/// [`encode_log`] produces.
#[verifier::loop_isolation(false)]
#[verifier::rlimit(80)]
pub fn decode_log(b: &Vec<u8>) -> (r: Option<GraphLog>)
    ensures
        r is Some <==> log_rpr_ok(b@),
        r matches Some(l) ==> b@ == log_rpr(l),
{
    if b.len() == 25 {
        if b[0] != 0u8 {
            return None;
        }
        let max_layer = read_u64_le(b, 1);
        let version_number = read_u128_le(b, 9);
        let l = GraphLog { entry_point: None, max_layer, version_number };
        proof {
            lemma_u64_of_le_round(b@.subrange(1, 9));
            lemma_u128_of_le_round(b@.subrange(9, 25));
            assert(b@ =~= log_rpr(l));
        }
        Some(l)
    } else if b.len() == 65 {
        if b[0] != 1u8 {
            return None;
        }
        let mut node_bytes: Vec<u8> = Vec::new();
        let mut i: usize = 1;
        while i < 33
            invariant
                1 <= i <= 33,
                node_bytes@ == b@.subrange(1, i as int),
            decreases 33 - i,
        {
            node_bytes.push(b[i]);
            proof {
                assert(b@.subrange(1, i + 1) =~= b@.subrange(1, i as int).push(b@[i as int]));
            }
            i += 1;
        }
        let node = match decode_node(&node_bytes) {
            Some(n) => n,
            None => {
                proof {
                    assert(b@.subrange(1, 41).subrange(0, 32) =~= b@.subrange(1, 33));
                }
                return None;
            },
        };
        let layer = read_u64_le(b, 33);
        let max_layer = read_u64_le(b, 41);
        let version_number = read_u128_le(b, 49);
        let p = EntryPoint { node, layer };
        let l = GraphLog { entry_point: Some(p), max_layer, version_number };
        proof {
            lemma_u64_of_le_round(b@.subrange(33, 41));
            lemma_u64_of_le_round(b@.subrange(41, 49));
            lemma_u128_of_le_round(b@.subrange(49, 65));
            assert(b@.subrange(1, 41).subrange(0, 32) =~= b@.subrange(1, 33));
            assert(b@ =~= log_rpr(l));
        }
        Some(l)
    } else {
        None
    }
}

pub proof fn lemma_u128_of_le_round(s: Seq<u8>)
    requires
        s.len() == 16,
    ensures
        u128_le(u128_of_le(s)) == s,
{
    let lo = u64_of_le(s.subrange(0, 8));
    let hi = u64_of_le(s.subrange(8, 16));
    let x = u128_of_le(s);
    assert(x & 0xffff_ffff_ffff_ffff == lo && (x >> 64) == hi) by (bit_vector)
        requires
            x == (lo as u128) | ((hi as u128) << 64),
    ;
    lemma_u64_of_le_round(s.subrange(0, 8));
    lemma_u64_of_le_round(s.subrange(8, 16));
    assert(u128_le(x) =~= s);
}

/// Any two commit records with one canonical image are equal, and every
/// canonical image is accepted by the decoder.
pub proof fn lemma_log_codec_round_trip(l: GraphLog)
    ensures
        log_rpr_ok(log_rpr(l)),
        forall|m: GraphLog| #[trigger] log_rpr(m) == log_rpr(l) ==> m == l,
{
    lemma_log_rpr_fields(l);
    assert forall|m: GraphLog| #[trigger] log_rpr(m) == log_rpr(l) implies m == l by {
        lemma_log_rpr_fields(m);
        assert(log_rpr(m)[0] == log_rpr(l)[0]);
    }
}

/// The pieces of a commit-record image determine its fields.
pub proof fn lemma_log_rpr_fields(l: GraphLog)
    ensures
        log_rpr_ok(log_rpr(l)),
        l.entry_point is Some <==> log_rpr(l)[0] == 1u8,
        l.entry_point matches Some(p) ==> node_rpr(p.node) == log_rpr(l).subrange(1, 33)
            && u64_of_le(log_rpr(l).subrange(33, 41)) == p.layer && u64_of_le(
            log_rpr(l).subrange(41, 49),
        ) == l.max_layer && u128_of_le(log_rpr(l).subrange(49, 65)) == l.version_number
            && (forall|m: Node| #[trigger] node_rpr(m) == node_rpr(p.node) ==> m == p.node),
        l.entry_point is None ==> u64_of_le(log_rpr(l).subrange(1, 9)) == l.max_layer
            && u128_of_le(log_rpr(l).subrange(9, 25)) == l.version_number,
{
    match l.entry_point {
        Some(p) => {
            let b = log_rpr(l);
            assert(b.subrange(1, 33) =~= node_rpr(p.node));
            assert(b.subrange(33, 41) =~= u64_le(p.layer));
            assert(b.subrange(41, 49) =~= u64_le(l.max_layer));
            assert(b.subrange(49, 65) =~= u128_le(l.version_number));
            assert(b.subrange(1, 41).subrange(0, 32) =~= b.subrange(1, 33));
            lemma_node_rpr_fields(p.node);
            lemma_node_codec_round_trip(p.node);
            lemma_u64_le_round(p.layer);
            lemma_u64_le_round(l.max_layer);
            lemma_u128_le_round(l.version_number);
        },
        None => {
            let b = log_rpr(l);
            assert(b.subrange(1, 9) =~= u64_le(l.max_layer));
            assert(b.subrange(9, 25) =~= u128_le(l.version_number));
            lemma_u64_le_round(l.max_layer);
            lemma_u128_le_round(l.version_number);
        },
    }
}

/// The concatenated images of a node list.
pub open spec fn nodes_le(s: Seq<Node>) -> Seq<u8>
    decreases s.len(),
{
    if s.len() == 0 {
        Seq::<u8>::empty()
    } else {
        nodes_le(s.drop_last()) + node_rpr(s.last())
    }
}

pub proof fn lemma_nodes_le_len(s: Seq<Node>)
    ensures
        nodes_le(s).len() == 32 * s.len(),
    decreases s.len(),
{
    if s.len() > 0 {
        lemma_nodes_le_len(s.drop_last());
    }
}

pub proof fn lemma_nodes_le_inj(a: Seq<Node>, b: Seq<Node>)
    requires
        a.len() == b.len(),
        nodes_le(a) == nodes_le(b),
    ensures
        a == b,
    decreases a.len(),
{
    if a.len() > 0 {
        lemma_nodes_le_len(a);
        lemma_nodes_le_len(b);
        lemma_nodes_le_len(a.drop_last());
        lemma_nodes_le_len(b.drop_last());
        assert(nodes_le(a.drop_last()) =~= nodes_le(a).take(32 * a.len() - 32));
        assert(nodes_le(b.drop_last()) =~= nodes_le(b).take(32 * b.len() - 32));
        lemma_nodes_le_inj(a.drop_last(), b.drop_last());
        assert(node_rpr(a.last()) =~= nodes_le(a).skip(32 * a.len() - 32));
        assert(node_rpr(b.last()) =~= nodes_le(b).skip(32 * b.len() - 32));
        lemma_node_codec_round_trip(a.last());
        assert(a.last() == b.last());
        assert forall|i: int| 0 <= i < a.len() implies a[i] == b[i] by {
            if i < a.len() - 1 {
                assert(a[i] == a.drop_last()[i]);
                assert(b[i] == b.drop_last()[i]);
            } else {
                assert(a[i] == a.last());
                assert(b[i] == b.last());
            }
        }
        assert(a =~= b);
    } else {
        assert(a =~= b);
    }
}

/// The concatenated images of an edge list.
pub open spec fn edges_le(s: Seq<Edge>) -> Seq<u8>
    decreases s.len(),
{
    if s.len() == 0 {
        Seq::<u8>::empty()
    } else {
        edges_le(s.drop_last()) + edge_rpr(s.last())
    }
}

pub proof fn lemma_edges_le_len(s: Seq<Edge>)
    ensures
        edges_le(s).len() == 68 * s.len(),
    decreases s.len(),
{
    if s.len() > 0 {
        lemma_edges_le_len(s.drop_last());
        lemma_edge_rpr_fields(s.last());
    }
}

#[verifier::rlimit(100)]
pub proof fn lemma_edges_le_inj(a: Seq<Edge>, b: Seq<Edge>)
    requires
        a.len() == b.len(),
        edges_le(a) == edges_le(b),
    ensures
        a == b,
    decreases a.len(),
{
    if a.len() > 0 {
        lemma_edges_le_len(a);
        lemma_edges_le_len(b);
        lemma_edges_le_len(a.drop_last());
        lemma_edges_le_len(b.drop_last());
        assert(edges_le(a.drop_last()) =~= edges_le(a).take(68 * a.len() - 68));
        assert(edges_le(b.drop_last()) =~= edges_le(b).take(68 * b.len() - 68));
        lemma_edges_le_inj(a.drop_last(), b.drop_last());
        assert(edge_rpr(a.last()) =~= edges_le(a).skip(68 * a.len() - 68));
        assert(edge_rpr(b.last()) =~= edges_le(b).skip(68 * b.len() - 68));
        lemma_edge_codec_round_trip(a.last());
        assert(a.last() == b.last());
        assert forall|i: int| 0 <= i < a.len() implies a[i] == b[i] by {
            if i < a.len() - 1 {
                assert(a[i] == a.drop_last()[i]);
                assert(b[i] == b.drop_last()[i]);
            } else {
                assert(a[i] == a.last());
                assert(b[i] == b.last());
            }
        }
        assert(a =~= b);
    } else {
        assert(a =~= b);
    }
}

/// The canonical image of a layer: node count, the nodes, edge count, the
/// edges.
pub open spec fn layer_rpr(nodes: Seq<Node>, edges: Seq<Edge>) -> Seq<u8> {
    u64_le(nodes.len() as u64) + nodes_le(nodes) + u64_le(edges.len() as u64) + edges_le(edges)
}

/// Encodes a layer into its canonical image.
#[verifier::loop_isolation(false)]
#[verifier::rlimit(100)]
pub fn encode_layer(l: &GraphLayer) -> (r: Vec<u8>)
    ensures
        r@ == layer_rpr(l.nodes@, l.edges@),
{
    let mut out: Vec<u8> = Vec::new();
    push_u64_le(&mut out, l.nodes.len() as u64);
    let mut i: usize = 0;
    while i < l.nodes.len()
        invariant
            i <= l.nodes@.len(),
            out@ == u64_le(l.nodes@.len() as u64) + nodes_le(l.nodes@.take(i as int)),
        decreases l.nodes@.len() - i,
    {
        let nb = encode_node(l.nodes[i]);
        let mut j: usize = 0;
        let ghost snap = out@;
        while j < nb.len()
            invariant
                j <= nb@.len(),
                nb@ == node_rpr(l.nodes@[i as int]),
                out@ == snap + nb@.take(j as int),
            decreases nb@.len() - j,
        {
            out.push(nb[j]);
            proof {
                assert(snap + nb@.take(j + 1) =~= (snap + nb@.take(j as int)).push(
                    nb@[j as int],
                ));
            }
            j += 1;
        }
        proof {
            assert(nb@.take(nb@.len() as int) =~= nb@);
            assert(l.nodes@.take(i + 1).drop_last() =~= l.nodes@.take(i as int));
            assert(l.nodes@.take(i + 1).last() == l.nodes@[i as int]);
            assert(out@ =~= u64_le(l.nodes@.len() as u64) + nodes_le(l.nodes@.take(i + 1)));
        }
        i += 1;
    }
    proof {
        assert(l.nodes@.take(l.nodes@.len() as int) =~= l.nodes@);
    }
    push_u64_le(&mut out, l.edges.len() as u64);
    let ghost head = out@;
    let mut k: usize = 0;
    while k < l.edges.len()
        invariant
            k <= l.edges@.len(),
            out@ == head + edges_le(l.edges@.take(k as int)),
        decreases l.edges@.len() - k,
    {
        let eb = encode_edge(l.edges[k]);
        let mut j: usize = 0;
        let ghost snap = out@;
        while j < eb.len()
            invariant
                j <= eb@.len(),
                eb@ == edge_rpr(l.edges@[k as int]),
                out@ == snap + eb@.take(j as int),
            decreases eb@.len() - j,
        {
            out.push(eb[j]);
            proof {
                assert(snap + eb@.take(j + 1) =~= (snap + eb@.take(j as int)).push(
                    eb@[j as int],
                ));
            }
            j += 1;
        }
        proof {
            assert(eb@.take(eb@.len() as int) =~= eb@);
            assert(l.edges@.take(k + 1).drop_last() =~= l.edges@.take(k as int));
            assert(l.edges@.take(k + 1).last() == l.edges@[k as int]);
            assert(out@ =~= head + edges_le(l.edges@.take(k + 1)));
        }
        k += 1;
    }
    proof {
        assert(l.edges@.take(l.edges@.len() as int) =~= l.edges@);
        assert(out@ =~= layer_rpr(l.nodes@, l.edges@));
    }
    out
}

/// Any two layer contents with one canonical image are equal.
#[verifier::rlimit(100)]
pub proof fn lemma_layer_codec_round_trip(nodes: Seq<Node>, edges: Seq<Edge>)
    requires
        nodes.len() <= u64::MAX,
        edges.len() <= u64::MAX,
    ensures
        forall|n2: Seq<Node>, e2: Seq<Edge>|
            n2.len() <= u64::MAX && e2.len() <= u64::MAX && #[trigger] layer_rpr(n2, e2)
                == layer_rpr(nodes, edges) ==> n2 == nodes && e2 == edges,
{
    assert forall|n2: Seq<Node>, e2: Seq<Edge>|
        n2.len() <= u64::MAX && e2.len() <= u64::MAX && #[trigger] layer_rpr(n2, e2) == layer_rpr(
            nodes,
            edges,
        ) implies n2 == nodes && e2 == edges by {
        lemma_nodes_le_len(nodes);
        lemma_nodes_le_len(n2);
        lemma_edges_le_len(edges);
        lemma_edges_le_len(e2);
        let b1 = layer_rpr(n2, e2);
        let b2 = layer_rpr(nodes, edges);
        assert(b1.subrange(0, 8) =~= u64_le(n2.len() as u64));
        assert(b2.subrange(0, 8) =~= u64_le(nodes.len() as u64));
        lemma_u64_le_round(n2.len() as u64);
        lemma_u64_le_round(nodes.len() as u64);
        assert(n2.len() == nodes.len());
        let nl = 32 * nodes.len() as int;
        assert(nodes_le(n2) =~= b1.subrange(8, 8 + nl));
        assert(nodes_le(nodes) =~= b2.subrange(8, 8 + nl));
        lemma_nodes_le_inj(n2, nodes);
        assert(b1.subrange(8 + nl, 16 + nl) =~= u64_le(e2.len() as u64));
        assert(b2.subrange(8 + nl, 16 + nl) =~= u64_le(edges.len() as u64));
        lemma_u64_le_round(e2.len() as u64);
        lemma_u64_le_round(edges.len() as u64);
        assert(e2.len() == edges.len());
        assert(edges_le(e2) =~= b1.skip(16 + nl));
        assert(edges_le(edges) =~= b2.skip(16 + nl));
        lemma_edges_le_inj(e2, edges);
    }
}

} // verus!
