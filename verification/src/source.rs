//! The decoded-character source.
//!
//! The scanner pulls Unicode scalar values one at a time from a
//! `utf8_read::Reader` over an in-memory byte stream.  This module holds
//! the trusted boundary around that crate: the reader type is declared
//! opaque, its contents are named by [`reader_chars`] and
//! [`reader_fault`], and the two wrappers state over those names what
//! the crate's `new` and `next_char` do.  The decoded contents of a
//! fresh reader are pinned exactly, via vstd's UTF-8 specification.

use vstd::prelude::*;
use vstd::utf8::{decode_first_scalar, pop_first_scalar, valid_first_scalar, valid_utf8};

verus! {

/// A `utf8_read::Reader` over an in-memory byte stream.  Verus refuses
/// the reader's own generic bound, so the struct is opaque as a whole;
/// what the reader will still yield is named by [`reader_chars`] and
/// [`reader_fault`].
#[verifier::external_body]
pub struct CharReader {
    inner: utf8_read::Reader<std::io::Cursor<Vec<u8>>>,
}

/// The characters the reader will still yield, in order, before it
/// reaches end of input or a decode fault.
pub uninterp spec fn reader_chars(r: CharReader) -> Seq<char>;

/// Whether the bytes beyond those characters end in malformed UTF-8
/// rather than a clean end of input.
pub uninterp spec fn reader_fault(r: CharReader) -> bool;

/// What one pull from the source hands back: a decoded character, a
/// clean end of input, or a decode fault.
pub enum ReadChar {
    Ch(char),
    End,
    Fault,
}

/// The longest prefix of `bytes` that is well-formed UTF-8, decoded to
/// the characters it encodes.
pub open spec fn decoded_prefix(bytes: Seq<u8>) -> Seq<char>
    decreases bytes.len(),
{
    if bytes.len() > 0 && valid_first_scalar(bytes) {
        seq![decode_first_scalar(bytes) as char] + decoded_prefix(pop_first_scalar(bytes))
    } else {
        Seq::empty()
    }
}

/// Relies on `utf8_read::Reader::new` over a `std::io::Cursor`: a fresh
/// reader over `bytes` yields exactly the characters of the longest
/// well-formed UTF-8 prefix of `bytes`, and then faults unless all of
/// `bytes` is well-formed UTF-8.
#[verifier::external_body]
pub(crate) fn reader_new(bytes: Vec<u8>) -> (r: CharReader)
    ensures
        reader_chars(r) == decoded_prefix(bytes@),
        reader_fault(r) == !valid_utf8(bytes@),
{
    CharReader { inner: utf8_read::Reader::new(std::io::Cursor::new(bytes)) }
}

/// Relies on `utf8_read::Reader::next_char` over a `std::io::Cursor`,
/// whose reads never give an I/O error: it yields the reader's next
/// character when one is left; at a clean end of input it reports end,
/// now and on every later pull; otherwise the bytes ahead are malformed
/// UTF-8 and it reports the fault.
#[verifier::external_body]
pub(crate) fn reader_next(r: &mut CharReader) -> (c: ReadChar)
    ensures
        reader_chars(*old(r)).len() > 0 ==> {
            &&& c == ReadChar::Ch(reader_chars(*old(r))[0])
            &&& reader_chars(*final(r)) == reader_chars(*old(r)).drop_first()
            &&& reader_fault(*final(r)) == reader_fault(*old(r))
        },
        reader_chars(*old(r)).len() == 0 && !reader_fault(*old(r)) ==> {
            &&& c == ReadChar::End
            &&& reader_chars(*final(r)).len() == 0
            &&& !reader_fault(*final(r))
        },
        reader_chars(*old(r)).len() == 0 && reader_fault(*old(r)) ==> c == ReadChar::Fault,
{
    match r.inner.next_char() {
        Ok(utf8_read::Char::Char(ch)) => ReadChar::Ch(ch),
        Ok(utf8_read::Char::Eof) => ReadChar::End,
        Ok(utf8_read::Char::NoData) => ReadChar::End,
        Err(_) => ReadChar::Fault,
    }
}

/// Whitespace according to `char::is_whitespace`, for characters beyond
/// ASCII; only named, never spelled out.
pub uninterp spec fn is_space_ext(c: char) -> bool;

/// The characters the scanner skips as whitespace: those with the
/// Unicode `White_Space` property.  Its ASCII members are spelled out
/// (horizontal tab through carriage return, and the space); past ASCII
/// the property is only named.
pub open spec fn is_space(c: char) -> bool {
    ||| (9 <= c as u32 && c as u32 <= 13)
    ||| c as u32 == 32
    ||| (c as u32 > 127 && is_space_ext(c))
}

/// Relies on `char::is_whitespace`: true exactly on characters with the
/// Unicode `White_Space` property, whose ASCII members are 0x09..=0x0D
/// and the space 0x20.
#[verifier::external_body]
pub(crate) fn ws_char(c: char) -> (b: bool)
    ensures
        b == is_space(c),
        c as u32 > 127 ==> b == is_space_ext(c),
{
    c.is_whitespace()
}

} // verus!
