//! The byte-level encoding of the primitive values that records are made of.
//!
//! Integers are written in little-endian order with a fixed width, a boolean
//! is one byte, and a string is its UTF-8 length as a 64-bit integer followed
//! by its UTF-8 bytes. Every encoding says where it ends, so encodings can be
//! laid back to back and read again without any framing around them.

use vstd::prelude::*;
use vstd::slice::*;
use vstd::utf8::*;

verus! {

/// The bytes `e` stand in `s` starting at position `at`.
pub open spec fn occurs_at(s: Seq<u8>, at: int, e: Seq<u8>) -> bool {
    &&& 0 <= at
    &&& at + e.len() <= s.len()
    &&& s.subrange(at, at + e.len()) == e
}

/// A concatenation stands at `at` exactly when its first part stands there
/// and its second part stands right behind it.
pub proof fn lemma_occurs_at_concat(s: Seq<u8>, at: int, x: Seq<u8>, y: Seq<u8>)
    ensures
        occurs_at(s, at, x + y) <==> occurs_at(s, at, x) && occurs_at(s, at + x.len(), y),
{
    if occurs_at(s, at, x + y) {
        assert(s.subrange(at, at + x.len()) =~= (x + y).subrange(0, x.len() as int));
        assert((x + y).subrange(0, x.len() as int) =~= x);
        assert(s.subrange(at + x.len(), at + x.len() + y.len()) =~= (x + y).subrange(
            x.len() as int,
            (x + y).len() as int,
        ));
        assert((x + y).subrange(x.len() as int, (x + y).len() as int) =~= y);
    }
    if occurs_at(s, at, x) && occurs_at(s, at + x.len(), y) {
        assert(s.subrange(at, at + (x + y).len()) =~= s.subrange(at, at + x.len()) + s.subrange(
            at + x.len(),
            at + x.len() + y.len(),
        ));
    }
}

/// Whatever stands at `at` in `s` also stands at the start of the rest of `s`
/// from `at`, and the other way round.
pub proof fn lemma_occurs_at_skip(s: Seq<u8>, at: int, e: Seq<u8>)
    requires
        0 <= at <= s.len(),
    ensures
        occurs_at(s, at, e) <==> occurs_at(s.skip(at), 0, e),
{
    if at + e.len() <= s.len() {
        assert(s.subrange(at, at + e.len()) =~= s.skip(at).subrange(0, e.len() as int));
    }
}

/// Whatever stands in a beginning of `s` stands in `s`.
pub proof fn lemma_occurs_at_take(s: Seq<u8>, upto: int, at: int, e: Seq<u8>)
    requires
        0 <= upto <= s.len(),
        occurs_at(s.take(upto), at, e),
    ensures
        occurs_at(s, at, e),
{
    assert(s.subrange(at, at + e.len()) =~= s.take(upto).subrange(at, at + e.len()));
}

/// A sequence of bytes stands at its own start.
pub proof fn lemma_occurs_at_start(s: Seq<u8>)
    ensures
        occurs_at(s, 0, s),
{
    assert(s.subrange(0, s.len() as int) =~= s);
}

/// A 64-bit integer as its eight bytes, the lowest first.
pub open spec fn u64_bytes(x: u64) -> Seq<u8> {
    seq![
        (x & 0xff) as u8,
        ((x >> 8) & 0xff) as u8,
        ((x >> 16) & 0xff) as u8,
        ((x >> 24) & 0xff) as u8,
        ((x >> 32) & 0xff) as u8,
        ((x >> 40) & 0xff) as u8,
        ((x >> 48) & 0xff) as u8,
        ((x >> 56) & 0xff) as u8,
    ]
}

/// A 32-bit integer as its four bytes, the lowest first.
pub open spec fn u32_bytes(x: u32) -> Seq<u8> {
    seq![
        (x & 0xff) as u8,
        ((x >> 8) & 0xff) as u8,
        ((x >> 16) & 0xff) as u8,
        ((x >> 24) & 0xff) as u8,
    ]
}

/// The 64-bit integer with these eight bytes, the lowest first.
pub open spec fn u64_of(b: Seq<u8>) -> u64 {
    (b[0] as u64) | (b[1] as u64) << 8 | (b[2] as u64) << 16 | (b[3] as u64) << 24 | (b[4] as u64)
        << 32 | (b[5] as u64) << 40 | (b[6] as u64) << 48 | (b[7] as u64) << 56
}

/// The 32-bit integer with these four bytes, the lowest first.
pub open spec fn u32_of(b: Seq<u8>) -> u32 {
    (b[0] as u32) | (b[1] as u32) << 8 | (b[2] as u32) << 16 | (b[3] as u32) << 24
}

/// A machine-sized integer, written as a 64-bit integer.
pub open spec fn usize_bytes(x: usize) -> Seq<u8> {
    u64_bytes(x as u64)
}

/// A boolean as one byte, 1 for true and 0 for false.
pub open spec fn bool_bytes(b: bool) -> Seq<u8> {
    seq![if b { 1u8 } else { 0u8 }]
}

/// A string as the length of its UTF-8 form followed by that form.
pub open spec fn str_bytes(s: Seq<char>) -> Seq<u8> {
    u64_bytes(encode_utf8(s).len() as u64) + encode_utf8(s)
}

/// The UTF-8 form of the string is short enough for its length to be written
/// as a 64-bit integer. Every string in memory is.
pub open spec fn str_fits(s: Seq<char>) -> bool {
    encode_utf8(s).len() <= u64::MAX
}

/// A 64-bit integer is the one with its bytes.
pub proof fn lemma_u64_of_bytes(x: u64)
    ensures
        u64_of(u64_bytes(x)) == x,
{
    let b = u64_bytes(x);
    assert(x == ((x & 0xff) as u8 as u64) | (((x >> 8) & 0xff) as u8 as u64) << 8 | (((x >> 16)
        & 0xff) as u8 as u64) << 16 | (((x >> 24) & 0xff) as u8 as u64) << 24 | (((x >> 32)
        & 0xff) as u8 as u64) << 32 | (((x >> 40) & 0xff) as u8 as u64) << 40 | (((x >> 48)
        & 0xff) as u8 as u64) << 48 | (((x >> 56) & 0xff) as u8 as u64) << 56) by (bit_vector);
}

/// A 32-bit integer is the one with its bytes.
pub proof fn lemma_u32_of_bytes(x: u32)
    ensures
        u32_of(u32_bytes(x)) == x,
{
    assert(x == ((x & 0xff) as u8 as u32) | (((x >> 8) & 0xff) as u8 as u32) << 8 | (((x >> 16)
        & 0xff) as u8 as u32) << 16 | (((x >> 24) & 0xff) as u8 as u32) << 24) by (bit_vector);
}

/// The bytes of the 64-bit integer with eight given bytes are those bytes.
pub proof fn lemma_u64_bytes_of(b: Seq<u8>)
    requires
        b.len() == 8,
    ensures
        u64_bytes(u64_of(b)) == b,
{
    let (b0, b1, b2, b3, b4, b5, b6, b7) = (b[0], b[1], b[2], b[3], b[4], b[5], b[6], b[7]);
    let x = u64_of(b);
    assert(x == (b0 as u64) | (b1 as u64) << 8 | (b2 as u64) << 16 | (b3 as u64) << 24 | (b4 as u64)
        << 32 | (b5 as u64) << 40 | (b6 as u64) << 48 | (b7 as u64) << 56 ==> (x & 0xff) as u8
        == b0 && ((x >> 8) & 0xff) as u8 == b1 && ((x >> 16) & 0xff) as u8 == b2 && ((x >> 24)
        & 0xff) as u8 == b3 && ((x >> 32) & 0xff) as u8 == b4 && ((x >> 40) & 0xff) as u8 == b5 && (
    (x >> 48) & 0xff) as u8 == b6 && ((x >> 56) & 0xff) as u8 == b7) by (bit_vector);
}

/// The bytes of the 32-bit integer with four given bytes are those bytes.
pub proof fn lemma_u32_bytes_of(b: Seq<u8>)
    requires
        b.len() == 4,
    ensures
        u32_bytes(u32_of(b)) == b,
{
    let (b0, b1, b2, b3) = (b[0], b[1], b[2], b[3]);
    let x = u32_of(b);
    assert(x == (b0 as u32) | (b1 as u32) << 8 | (b2 as u32) << 16 | (b3 as u32) << 24 ==> (x
        & 0xff) as u8 == b0 && ((x >> 8) & 0xff) as u8 == b1 && ((x >> 16) & 0xff) as u8 == b2 && (
    (x >> 24) & 0xff) as u8 == b3) by (bit_vector);
}

/// Two 64-bit integers with the same bytes are the same integer.
pub proof fn lemma_u64_bytes_injective(a: u64, b: u64)
    requires
        u64_bytes(a) == u64_bytes(b),
    ensures
        a == b,
{
    lemma_u64_of_bytes(a);
    lemma_u64_of_bytes(b);
}

/// Two 32-bit integers with the same bytes are the same integer.
pub proof fn lemma_u32_bytes_injective(a: u32, b: u32)
    requires
        u32_bytes(a) == u32_bytes(b),
    ensures
        a == b,
{
    lemma_u32_of_bytes(a);
    lemma_u32_of_bytes(b);
}

/// Appends the eight bytes of `x`, the lowest first.
pub fn put_u64(out: &mut Vec<u8>, x: u64)
    ensures
        final(out)@ == old(out)@ + u64_bytes(x),
{
    assert((x & 0xff) < 256 && ((x >> 8) & 0xff) < 256 && ((x >> 16) & 0xff) < 256 && ((x >> 24)
        & 0xff) < 256 && ((x >> 32) & 0xff) < 256 && ((x >> 40) & 0xff) < 256 && ((x >> 48) & 0xff)
        < 256 && ((x >> 56) & 0xff) < 256) by (bit_vector);
    out.push((x & 0xff) as u8);
    out.push(((x >> 8) & 0xff) as u8);
    out.push(((x >> 16) & 0xff) as u8);
    out.push(((x >> 24) & 0xff) as u8);
    out.push(((x >> 32) & 0xff) as u8);
    out.push(((x >> 40) & 0xff) as u8);
    out.push(((x >> 48) & 0xff) as u8);
    out.push(((x >> 56) & 0xff) as u8);
}

/// Reads the 64-bit integer that stands at `at`, and says where it ends.
/// There is none exactly when fewer than eight bytes stand from `at` on.
pub fn take_u64(bytes: &[u8], at: usize) -> (r: Option<(u64, usize)>)
    ensures
        match r {
            Some((x, end)) => end == at + 8 <= bytes@.len() && occurs_at(
                bytes@,
                at as int,
                u64_bytes(x),
            ),
            None => forall|x: u64| !occurs_at(bytes@, at as int, #[trigger] u64_bytes(x)),
        },
{
    if at > bytes.len() || bytes.len() - at < 8 {
        return None;
    }
    let ghost field = bytes@.subrange(at as int, at + 8);
    let x = (bytes[at] as u64) | (bytes[at + 1] as u64) << 8 | (bytes[at + 2] as u64) << 16 | (
    bytes[at + 3] as u64) << 24 | (bytes[at + 4] as u64) << 32 | (bytes[at + 5] as u64) << 40 | (
    bytes[at + 6] as u64) << 48 | (bytes[at + 7] as u64) << 56;
    proof {
        lemma_u64_bytes_of(field);
    }
    Some((x, at + 8))
}

/// Appends the four bytes of `x`, the lowest first.
pub fn put_u32(out: &mut Vec<u8>, x: u32)
    ensures
        final(out)@ == old(out)@ + u32_bytes(x),
{
    assert((x & 0xff) < 256 && ((x >> 8) & 0xff) < 256 && ((x >> 16) & 0xff) < 256 && ((x >> 24)
        & 0xff) < 256) by (bit_vector);
    out.push((x & 0xff) as u8);
    out.push(((x >> 8) & 0xff) as u8);
    out.push(((x >> 16) & 0xff) as u8);
    out.push(((x >> 24) & 0xff) as u8);
}

/// Reads the 32-bit integer that stands at `at`, and says where it ends.
/// There is none exactly when fewer than four bytes stand from `at` on.
pub fn take_u32(bytes: &[u8], at: usize) -> (r: Option<(u32, usize)>)
    ensures
        match r {
            Some((x, end)) => end == at + 4 <= bytes@.len() && occurs_at(
                bytes@,
                at as int,
                u32_bytes(x),
            ),
            None => forall|x: u32| !occurs_at(bytes@, at as int, #[trigger] u32_bytes(x)),
        },
{
    if at > bytes.len() || bytes.len() - at < 4 {
        return None;
    }
    let ghost field = bytes@.subrange(at as int, at + 4);
    let x = (bytes[at] as u32) | (bytes[at + 1] as u32) << 8 | (bytes[at + 2] as u32) << 16 | (
    bytes[at + 3] as u32) << 24;
    proof {
        lemma_u32_bytes_of(field);
    }
    Some((x, at + 4))
}

/// Appends `x` as a 64-bit integer.
pub fn put_usize(out: &mut Vec<u8>, x: usize)
    ensures
        final(out)@ == old(out)@ + usize_bytes(x),
{
    put_u64(out, x as u64);
}

/// Two machine-sized integers that stand at the same place are the same.
pub proof fn lemma_usize_bytes_unique(s: Seq<u8>, at: int, a: usize, b: usize)
    requires
        occurs_at(s, at, usize_bytes(a)),
        occurs_at(s, at, usize_bytes(b)),
    ensures
        a == b,
{
    lemma_u64_bytes_injective(a as u64, b as u64);
}

/// Reads the machine-sized integer that stands at `at`. There is none when
/// fewer than eight bytes are left, or when the integer written there does
/// not fit this machine's size.
pub fn take_usize(bytes: &[u8], at: usize) -> (r: Option<(usize, usize)>)
    ensures
        match r {
            Some((x, end)) => end == at + 8 <= bytes@.len() && occurs_at(
                bytes@,
                at as int,
                usize_bytes(x),
            ),
            None => forall|x: usize| !occurs_at(bytes@, at as int, #[trigger] usize_bytes(x)),
        },
{
    match take_u64(bytes, at) {
        None => None,
        Some((wide, end)) => {
            if wide > usize::MAX as u64 {
                assert forall|x: usize| !occurs_at(
                    bytes@,
                    at as int,
                    #[trigger] usize_bytes(x),
                ) by {
                    if occurs_at(bytes@, at as int, usize_bytes(x)) {
                        lemma_u64_bytes_injective(wide, x as u64);
                    }
                }
                None
            } else {
                Some((wide as usize, end))
            }
        },
    }
}

/// Appends the one byte of `b`.
pub fn put_bool(out: &mut Vec<u8>, b: bool)
    ensures
        final(out)@ == old(out)@ + bool_bytes(b),
{
    let byte: u8 = if b { 1 } else { 0 };
    out.push(byte);
}

/// Two booleans that stand at the same place are the same.
pub proof fn lemma_bool_bytes_unique(s: Seq<u8>, at: int, a: bool, b: bool)
    requires
        occurs_at(s, at, bool_bytes(a)),
        occurs_at(s, at, bool_bytes(b)),
    ensures
        a == b,
{
    assert(bool_bytes(a)[0] == s[at]);
    assert(bool_bytes(b)[0] == s[at]);
}

/// Reads the boolean that stands at `at`. There is none when no byte is
/// left, or when the byte is neither 0 nor 1.
pub fn take_bool(bytes: &[u8], at: usize) -> (r: Option<(bool, usize)>)
    ensures
        match r {
            Some((b, end)) => end == at + 1 <= bytes@.len() && occurs_at(
                bytes@,
                at as int,
                bool_bytes(b),
            ),
            None => forall|b: bool| !occurs_at(bytes@, at as int, #[trigger] bool_bytes(b)),
        },
{
    if at >= bytes.len() {
        return None;
    }
    let byte = bytes[at];
    assert forall|b: bool| occurs_at(bytes@, at as int, #[trigger] bool_bytes(b)) implies byte == (
    if b {
        1u8
    } else {
        0u8
    }) by {
        assert(bool_bytes(b)[0] == bytes@[at as int]);
    }
    if byte == 0 {
        assert(bytes@.subrange(at as int, at + 1) =~= bool_bytes(false));
        Some((false, at + 1))
    } else if byte == 1 {
        assert(bytes@.subrange(at as int, at + 1) =~= bool_bytes(true));
        Some((true, at + 1))
    } else {
        None
    }
}

/// `String::from_utf8`: the string that the bytes spell in UTF-8, and none
/// exactly when the bytes are not valid UTF-8. Claimed, not proved: that the
/// standard library accepts what `valid_utf8` describes, and that the string
/// it returns has exactly the given bytes as its UTF-8 form.
#[verifier::external_body]
fn string_from_utf8(bytes: Vec<u8>) -> (r: Option<String>)
    ensures
        r is Some <==> valid_utf8(bytes@),
        r matches Some(s) ==> encode_utf8(s@) == bytes@,
{
    String::from_utf8(bytes).ok()
}

/// Appends the length of the string's UTF-8 form and then that form.
pub fn put_str(out: &mut Vec<u8>, s: &str)
    ensures
        final(out)@ == old(out)@ + str_bytes(s@),
        str_fits(s@),
{
    let text = s.as_bytes();
    let mut copy = slice_to_vec(text);
    put_u64(out, text.len() as u64);
    out.append(&mut copy);
}

/// Two strings that stand at the same place are the same.
pub proof fn lemma_str_bytes_unique(s: Seq<u8>, at: int, a: Seq<char>, b: Seq<char>)
    requires
        str_fits(a),
        str_fits(b),
        occurs_at(s, at, str_bytes(a)),
        occurs_at(s, at, str_bytes(b)),
    ensures
        a == b,
{
    let la = encode_utf8(a).len() as u64;
    let lb = encode_utf8(b).len() as u64;
    lemma_occurs_at_concat(s, at, u64_bytes(la), encode_utf8(a));
    lemma_occurs_at_concat(s, at, u64_bytes(lb), encode_utf8(b));
    lemma_u64_bytes_injective(la, lb);
    encode_utf8_decode_utf8(a);
    encode_utf8_decode_utf8(b);
}

/// Reads the string that stands at `at`. There is none when the length is
/// cut short, when fewer bytes are left than the length announces, or when
/// those bytes are not valid UTF-8.
pub fn take_string(bytes: &[u8], at: usize) -> (r: Option<(String, usize)>)
    ensures
        match r {
            Some((s, end)) => {
                &&& str_fits(s@)
                &&& end == at + str_bytes(s@).len() <= bytes@.len()
                &&& occurs_at(bytes@, at as int, str_bytes(s@))
            },
            None => forall|s: Seq<char>|
                str_fits(s) ==> !occurs_at(bytes@, at as int, #[trigger] str_bytes(s)),
        },
{
    let (len, start) = match take_u64(bytes, at) {
        Some(found) => found,
        None => {
            assert forall|s: Seq<char>| str_fits(s) implies !occurs_at(
                bytes@,
                at as int,
                #[trigger] str_bytes(s),
            ) by {
                lemma_occurs_at_concat(
                    bytes@,
                    at as int,
                    u64_bytes(encode_utf8(s).len() as u64),
                    encode_utf8(s),
                );
            }
            return None;
        },
    };
    // What any string standing here must look like: its length is the one
    // just read, and its UTF-8 form is the bytes behind it.
    assert forall|s: Seq<char>|
        str_fits(s) && occurs_at(bytes@, at as int, #[trigger] str_bytes(s)) implies {
        &&& encode_utf8(s).len() == len
        &&& occurs_at(bytes@, start as int, encode_utf8(s))
    } by {
        let l = encode_utf8(s).len() as u64;
        lemma_occurs_at_concat(bytes@, at as int, u64_bytes(l), encode_utf8(s));
        lemma_u64_bytes_injective(l, len);
    }
    if len > (bytes.len() - start) as u64 {
        return None;
    }
    let end = start + len as usize;
    let text = slice_to_vec(slice_subrange(bytes, start, end));
    match string_from_utf8(text) {
        None => {
            assert forall|s: Seq<char>| str_fits(s) implies !occurs_at(
                bytes@,
                at as int,
                #[trigger] str_bytes(s),
            ) by {
                encode_utf8_valid_utf8(s);
            }
            None
        },
        Some(s) => {
            proof {
                lemma_occurs_at_concat(bytes@, at as int, u64_bytes(len), encode_utf8(s@));
            }
            Some((s, end))
        },
    }
}

} // verus!
