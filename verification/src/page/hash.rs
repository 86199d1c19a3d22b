//! Content-addressed page identifiers.
//!
//! A page with no declared id gets one from its content: the first sixteen
//! bytes of a Blake2b digest of the raw source, in lower-case hex.

use vstd::prelude::*;

use crate::text::digit_char;
use vstd::string::StringSliceAdditionalSpecFns;

verus! {

/// The lower-case hex digit for a value below sixteen.
pub open spec fn hex_digit(d: nat) -> char {
    if d < 10 {
        digit_char(d)
    } else if d == 10 { 'a' }
    else if d == 11 { 'b' }
    else if d == 12 { 'c' }
    else if d == 13 { 'd' }
    else if d == 14 { 'e' }
    else { 'f' }
}

/// The lower-case hex rendering of a byte string, two digits per byte, high
/// nibble first.
pub open spec fn hex_of(b: Seq<u8>) -> Seq<char>
    decreases b.len(),
{
    if b.len() == 0 {
        Seq::empty()
    } else {
        hex_of(b.drop_last()) + seq![
            hex_digit((b.last() / 16) as nat),
            hex_digit((b.last() % 16) as nat),
        ]
    }
}

/// What the Blake2b-512 digest of a byte string is.  The digest depends on
/// the bytes alone; its 64 bytes are stated below, its value is the
/// algorithm's.
pub uninterp spec fn blake2b_of(b: Seq<u8>) -> Seq<u8>;

/// Relies on the blake2 crate: `Blake2b512::digest` returns the 64-byte
/// Blake2b digest of its input, a function of the bytes alone.
#[verifier::external_body]
fn blake2b_digest(s: &str) -> (r: Vec<u8>)
    ensures
        r@ == blake2b_of(s.spec_bytes()),
        r@.len() == 64,
{
    <blake2::Blake2b512 as blake2::Digest>::digest(s.as_bytes()).to_vec()
}

/// Relies on the hex crate: `encode` renders each byte as two lower-case hex
/// digits, high nibble first.
#[verifier::external_body]
fn to_hex(b: &Vec<u8>) -> (r: String)
    ensures
        r@ == hex_of(b@),
{
    hex::encode(b)
}

/// The derived identifier of a raw source: the first sixteen digest bytes of
/// its UTF-8 encoding, in hex.
pub open spec fn content_id_of(s: Seq<char>) -> Seq<char> {
    hex_of(blake2b_of(vstd::utf8::encode_utf8(s)).take(16))
}

pub proof fn lemma_hex_len(b: Seq<u8>)
    ensures
        hex_of(b).len() == 2 * b.len(),
    decreases b.len(),
{
    if b.len() > 0 {
        lemma_hex_len(b.drop_last());
    }
}

/// Every character of a hex rendering is a lower-case hex digit; in
/// particular it is never whitespace, a newline, a dash or a `>`.
pub proof fn lemma_hex_chars(b: Seq<u8>)
    ensures
        forall|i: int|
            0 <= i < hex_of(b).len() ==> crate::text::is_ascii_alnum(#[trigger] hex_of(b)[i]),
    decreases b.len(),
{
    if b.len() > 0 {
        lemma_hex_chars(b.drop_last());
        assert(crate::text::is_ascii_alnum(hex_digit((b.last() / 16) as nat)));
        assert(crate::text::is_ascii_alnum(hex_digit((b.last() % 16) as nat)));
        assert forall|i: int| 0 <= i < hex_of(b).len() implies crate::text::is_ascii_alnum(
            #[trigger] hex_of(b)[i],
        ) by {
            if i < hex_of(b.drop_last()).len() {
                assert(hex_of(b)[i] == hex_of(b.drop_last())[i]);
            }
        }
    }
}

/// The derived identifier of `s`: 32 lower-case hex characters.
pub fn content_id(s: &str) -> (r: String)
    ensures
        r@ == content_id_of(s@),
        r@.len() == 32,
        forall|i: int| 0 <= i < r@.len() ==> crate::text::is_ascii_alnum(#[trigger] r@[i]),
{
    let digest = blake2b_digest(s);
    let mut first: Vec<u8> = Vec::new();
    let mut i: usize = 0;
    while i < 16
        invariant
            i <= 16,
            digest@.len() == 64,
            first@ =~= digest@.take(i as int),
        decreases 16 - i,
    {
        first.push(digest[i]);
        i += 1;
        assert(first@ =~= digest@.take(i as int));
    }
    let r = to_hex(&first);
    proof {
        assert(first@ =~= blake2b_of(s.spec_bytes()).take(16));
        assert(s.spec_bytes() == vstd::utf8::encode_utf8(s@));
        lemma_hex_len(first@);
        lemma_hex_chars(first@);
    }
    r
}

} // verus!
