//! The digest engine: a deterministic, fixed-length identifier computed from
//! note content alone.
//!
//! An identifier is the lowercase hex encoding of the SHA-256 digest of the
//! content bytes. Because nothing but the content enters the hash, identical
//! content always maps to the identical identifier, which is what makes the
//! store content-addressable and naturally deduplicating.

use vstd::prelude::*;

verus! {

/// Number of bytes in a SHA-256 digest.
pub const DIGEST_BYTES: usize = 32;

/// Number of characters in a hex-encoded identifier.
pub const ID_CHARS: usize = 64;

/// The SHA-256 digest of a byte sequence. Its value is a function of the
/// input bytes alone; only its length is axiomatized here.
pub uninterp spec fn sha256_of(data: Seq<u8>) -> Seq<u8>;

/// Relies on the `sha2` crate's `Sha256`: the digest is a pure function of
/// the input bytes, 32 bytes long.
#[verifier::external_body]
fn sha256(data: &[u8]) -> (r: Vec<u8>)
    ensures
        r@ == sha256_of(data@),
        r@.len() == DIGEST_BYTES,
{
    <sha2::Sha256 as sha2::Digest>::digest(data).to_vec()
}

/// The ASCII byte of the lowercase hex digit for a nibble.
pub open spec fn hex_digit_byte(d: u8) -> u8
    recommends
        d < 16,
{
    if d < 10 {
        (0x30 + d) as u8  // '0'..='9'
    } else {
        (0x57 + d) as u8  // 'a'..='f'
    }
}

/// The lowercase hex digit character for a nibble.
pub open spec fn hex_digit(d: u8) -> char
    recommends
        d < 16,
{
    hex_digit_byte(d) as char
}

/// The lowercase hex encoding of a byte sequence: two digits per byte,
/// high nibble first.
pub open spec fn hex_of(data: Seq<u8>) -> Seq<char> {
    Seq::new(
        data.len() * 2,
        |i: int|
            if i % 2 == 0 {
                hex_digit((data[i / 2] >> 4) as u8)
            } else {
                hex_digit((data[i / 2] & 0x0f) as u8)
            },
    )
}

/// The identifier of a content: the hex encoding of its SHA-256 digest.
pub open spec fn id_of(content: Seq<u8>) -> Seq<char> {
    hex_of(sha256_of(content))
}

/// True when `c` is a lowercase hex digit character.
pub open spec fn is_hex_char(c: char) -> bool {
    ('0' <= c && c <= '9') || ('a' <= c && c <= 'f')
}

/// Every character of a hex encoding is a lowercase hex digit.
pub broadcast proof fn lemma_hex_of_chars(data: Seq<u8>, i: int)
    requires
        0 <= i < hex_of(data).len(),
    ensures
        is_hex_char(#[trigger] hex_of(data)[i]),
{
    let b = data[i / 2];
    let d: u8 = if i % 2 == 0 {
        (b >> 4) as u8
    } else {
        (b & 0x0f) as u8
    };
    assert((b >> 4) < 16 && (b & 0x0f) < 16) by (bit_vector);
    assert(is_hex_char(hex_digit(d)));
}

/// Appends the two hex digits of `b` to `out`.
fn push_hex_byte(out: &mut String, b: u8)
    ensures
        final(out)@ == old(out)@ + seq![hex_digit((b >> 4) as u8), hex_digit((b & 0x0f) as u8)],
{
    let hi: u8 = b >> 4;
    let lo: u8 = b & 0x0f;
    assert(b >> 4 < 16 && b & 0x0f < 16) by (bit_vector);
    crate::text::push_char(out, hex_char_of_nibble(hi));
    crate::text::push_char(out, hex_char_of_nibble(lo));
    assert(out@ =~= old(out)@ + seq![hex_digit(hi), hex_digit(lo)]);
}

/// The lowercase hex digit for a nibble, as executable code.
pub(crate) fn hex_char_of_nibble(d: u8) -> (c: char)
    requires
        d < 16,
    ensures
        c == hex_digit(d),
{
    let b: u8 = if d < 10 {
        0x30 + d
    } else {
        0x57 + d
    };
    b as char
}

/// The lowercase hex encoding of a byte slice.
pub fn to_hex(data: &[u8]) -> (r: String)
    ensures
        r@ == hex_of(data@),
{
    let mut out = String::new();
    let n = data.len();
    let mut i: usize = 0;
    while i < n
        invariant
            n == data@.len(),
            i <= n,
            out@ =~= hex_of(data@.take(i as int)),
        decreases n - i,
    {
        let b = data[i];
        push_hex_byte(&mut out, b);
        assert(out@ =~= hex_of(data@.take(i + 1))) by {
            let merged = hex_of(data@.take(i as int)) + seq![
                hex_digit((b >> 4) as u8),
                hex_digit((b & 0x0f) as u8),
            ];
            assert forall|k: int| 0 <= k < 2 * (i + 1) implies #[trigger] hex_of(
                data@.take(i + 1),
            )[k] == merged[k] by {
                assert(data@.take(i + 1)[k / 2] == data@[k / 2]);
            }
        }
        i = i + 1;
    }
    assert(data@.take(n as int) =~= data@);
    out
}

/// The identifier of a content: the lowercase hex encoding of its SHA-256
/// digest, always [`ID_CHARS`] characters long.
pub fn digest(content: &[u8]) -> (r: String)
    ensures
        r@ == id_of(content@),
        r@.len() == ID_CHARS,
        forall|i: int| 0 <= i < r@.len() ==> is_hex_char(#[trigger] r@[i]),
{
    let d = sha256(content);
    let r = to_hex(d.as_slice());
    proof {
        broadcast use lemma_hex_of_chars;
    }
    r
}

} // verus!
