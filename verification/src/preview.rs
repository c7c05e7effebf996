//! Bounded, boundary-safe textual previews of arbitrary byte content.
//!
//! A preview never renders arbitrarily large or invalid-encoding content to a
//! text-based caller. It reads at most [`PREVIEW_WINDOW_BYTES`] leading bytes.
//! If those bytes are valid UTF-8, the preview is the first line of the
//! decoded text; otherwise it is the `\xhh` escape of at most
//! [`ESCAPED_BYTES`] leading bytes, so binary content never corrupts the
//! caller's output stream.

use vstd::prelude::*;
use vstd::slice::slice_subrange;
use vstd::string::StrSliceExecFns;
use vstd::utf8::{decode_utf8, valid_utf8};

use crate::digest::hex_digit;
use crate::text::{decode_bytes, push_char};

verus! {

/// How many leading bytes of a note a preview may read.
pub const PREVIEW_WINDOW_BYTES: usize = 512;

/// How many leading bytes are shown, escaped, when the window is not UTF-8.
pub const ESCAPED_BYTES: usize = 16;

/// The characters of `chars` up to (excluding) the first newline.
pub open spec fn first_line(chars: Seq<char>) -> Seq<char>
    decreases chars.len(),
{
    if chars.len() == 0 {
        Seq::empty()
    } else if chars[0] == '\n' {
        Seq::empty()
    } else {
        seq![chars[0]] + first_line(chars.drop_first())
    }
}

/// The character at position `i` of the escaped rendering of `data`: each
/// byte becomes the four characters `\xhh`.
pub open spec fn escape_char_at(data: Seq<u8>, i: int) -> char {
    if i % 4 == 0 {
        '\\'
    } else if i % 4 == 1 {
        'x'
    } else if i % 4 == 2 {
        hex_digit((data[i / 4] >> 4) as u8)
    } else {
        hex_digit((data[i / 4] & 0x0f) as u8)
    }
}

/// The `\xhh` escape of a byte sequence: four characters per byte.
pub open spec fn escape_bytes(data: Seq<u8>) -> Seq<char> {
    Seq::new(data.len() * 4, |i: int| escape_char_at(data, i))
}

/// The window of `content` a preview is computed from.
pub open spec fn preview_window(content: Seq<u8>) -> Seq<u8> {
    content.take(vstd::math::min(content.len() as int, PREVIEW_WINDOW_BYTES as int))
}

/// The preview of a content: the first line of the decoded window when the
/// window is valid UTF-8, otherwise the escape of the leading bytes.
pub open spec fn preview_of(content: Seq<u8>) -> Seq<char> {
    let window = preview_window(content);
    if valid_utf8(window) {
        first_line(decode_utf8(window))
    } else {
        escape_bytes(content.take(vstd::math::min(content.len() as int, ESCAPED_BYTES as int)))
    }
}

/// When the first `i` characters are not newlines and position `i` is a
/// newline or the end, the first line is exactly those `i` characters.
proof fn lemma_first_line_take(chars: Seq<char>, i: int)
    requires
        0 <= i <= chars.len(),
        forall|k: int| 0 <= k < i ==> chars[k] != '\n',
        i == chars.len() || chars[i] == '\n',
    ensures
        first_line(chars) == chars.take(i),
    decreases i,
{
    if i == 0 {
        assert(chars.take(0) =~= Seq::<char>::empty());
    } else {
        lemma_first_line_take(chars.drop_first(), i - 1);
        assert(chars.take(i) =~= seq![chars[0]] + chars.drop_first().take(i - 1));
    }
}

/// The first line of a decoded string.
fn first_line_of(s: &str) -> (r: String)
    ensures
        r@ == first_line(s@),
{
    let n = s.unicode_len();
    let mut out = String::new();
    let mut i: usize = 0;
    while i < n
        invariant
            n == s@.len(),
            i <= n,
            out@ =~= s@.take(i as int),
            forall|k: int| 0 <= k < i ==> s@[k] != '\n',
        decreases n - i,
    {
        let c = s.get_char(i);
        if c == '\n' {
            proof {
                lemma_first_line_take(s@, i as int);
            }
            return out;
        }
        push_char(&mut out, c);
        assert(out@ =~= s@.take(i + 1));
        i = i + 1;
    }
    proof {
        lemma_first_line_take(s@, n as int);
        assert(s@.take(n as int) =~= s@);
    }
    out
}

/// The `\xhh` escape of a byte slice.
fn escape(data: &[u8]) -> (r: String)
    ensures
        r@ == escape_bytes(data@),
{
    let n = data.len();
    let mut out = String::new();
    let mut i: usize = 0;
    while i < n
        invariant
            n == data@.len(),
            i <= n,
            out@ =~= escape_bytes(data@.take(i as int)),
        decreases n - i,
    {
        let b = data[i];
        assert(b >> 4 < 16 && b & 0x0f < 16) by (bit_vector);
        push_char(&mut out, '\\');
        push_char(&mut out, 'x');
        push_char(&mut out, crate::digest::hex_char_of_nibble(b >> 4));
        push_char(&mut out, crate::digest::hex_char_of_nibble(b & 0x0f));
        assert(out@ =~= escape_bytes(data@.take(i + 1))) by {
            let merged = escape_bytes(data@.take(i as int)) + seq![
                '\\',
                'x',
                hex_digit((b >> 4) as u8),
                hex_digit((b & 0x0f) as u8),
            ];
            assert forall|k: int| 0 <= k < 4 * (i + 1) implies #[trigger] escape_bytes(
                data@.take(i + 1),
            )[k] == merged[k] by {
                assert(data@.take(i + 1)[k / 4] == data@[k / 4]);
            }
        }
        i = i + 1;
    }
    assert(data@.take(n as int) =~= data@);
    out
}

/// Renders the bounded preview of a content.
pub fn preview(content: &[u8]) -> (r: String)
    ensures
        r@ == preview_of(content@),
{
    let wlen: usize = if content.len() < PREVIEW_WINDOW_BYTES {
        content.len()
    } else {
        PREVIEW_WINDOW_BYTES
    };
    let window = slice_subrange(content, 0, wlen);
    assert(window@ == preview_window(content@));
    match decode_bytes(window) {
        Some(s) => first_line_of(s),
        None => {
            let elen: usize = if content.len() < ESCAPED_BYTES {
                content.len()
            } else {
                ESCAPED_BYTES
            };
            escape(slice_subrange(content, 0, elen))
        },
    }
}

} // verus!
