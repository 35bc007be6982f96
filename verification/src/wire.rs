//! Byte-level building blocks of the wire format: little-endian integers and
//! fixed-width, space-padded text fields.

use byteorder::ByteOrder;
use vstd::prelude::*;
use vstd::slice::slice_subrange;
use vstd::utf8::*;

verus! {

/// The number that a little-endian byte sequence denotes: the first byte is
/// the least significant one.
pub open spec fn le_value(bytes: Seq<u8>) -> nat
    decreases bytes.len(),
{
    if bytes.len() == 0 {
        0
    } else {
        bytes[0] as nat + 256 * le_value(bytes.drop_first())
    }
}

/// The `width` little-endian bytes of `value` (its low `8 * width` bits).
pub open spec fn le_bytes(value: nat, width: nat) -> Seq<u8>
    decreases width,
{
    if width == 0 {
        Seq::<u8>::empty()
    } else {
        seq![(value % 256) as u8] + le_bytes(value / 256, (width - 1) as nat)
    }
}

/// `256` to the power `width`: the number of values that `width` bytes hold.
pub open spec fn le_span(width: nat) -> nat
    decreases width,
{
    if width == 0 {
        1
    } else {
        256 * le_span((width - 1) as nat)
    }
}

/// A number is written in as many bytes as it is asked to be.
pub proof fn lemma_le_bytes_len(value: nat, width: nat)
    ensures
        le_bytes(value, width).len() == width,
    decreases width,
{
    if width > 0 {
        lemma_le_bytes_len(value / 256, (width - 1) as nat);
    }
}

/// Writing a number that fits and reading it back gives the number.
pub proof fn lemma_le_value_of_bytes(value: nat, width: nat)
    requires
        value < le_span(width),
    ensures
        le_value(le_bytes(value, width)) == value,
    decreases width,
{
    if width > 0 {
        let rest = le_bytes(value / 256, (width - 1) as nat);
        lemma_le_value_of_bytes(value / 256, (width - 1) as nat);
        assert(le_bytes(value, width).drop_first() =~= rest);
    }
}

/// The spans of the widths that the wire format uses.
pub proof fn lemma_le_spans()
    ensures
        le_span(1) == 0x100,
        le_span(2) == 0x1_0000,
        le_span(4) == 0x1_0000_0000,
        le_span(8) == 0x1_0000_0000_0000_0000,
{
    reveal_with_fuel(le_span, 9);
}

/// `byteorder::LittleEndian::read_u16`: reads the first two bytes of `buf` as
/// a little-endian number. The outside function panics on a shorter buffer.
#[verifier::external_body]
fn le_read_u16(buf: &[u8]) -> (value: u16)
    requires
        buf@.len() >= 2,
    ensures
        value as nat == le_value(buf@.take(2)),
{
    byteorder::LittleEndian::read_u16(buf)
}

/// `byteorder::LittleEndian::read_u32`: reads the first four bytes of `buf`
/// as a little-endian number. The outside function panics on a shorter buffer.
#[verifier::external_body]
fn le_read_u32(buf: &[u8]) -> (value: u32)
    requires
        buf@.len() >= 4,
    ensures
        value as nat == le_value(buf@.take(4)),
{
    byteorder::LittleEndian::read_u32(buf)
}

/// `byteorder::LittleEndian::read_u64`: reads the first eight bytes of `buf`
/// as a little-endian number. The outside function panics on a shorter buffer.
#[verifier::external_body]
fn le_read_u64(buf: &[u8]) -> (value: u64)
    requires
        buf@.len() >= 8,
    ensures
        value as nat == le_value(buf@.take(8)),
{
    byteorder::LittleEndian::read_u64(buf)
}

/// The 16-bit little-endian number at `data[at..at + 2]`.
pub(crate) fn read_u16_at(data: &[u8], at: usize) -> (value: u16)
    requires
        at + 2 <= data@.len(),
    ensures
        value as nat == le_value(data@.subrange(at as int, at + 2)),
{
    let end = data.len();
    let field = slice_subrange(data, at, end);
    assert(field@.take(2) =~= data@.subrange(at as int, at + 2));
    le_read_u16(field)
}

/// The 32-bit little-endian number at `data[at..at + 4]`.
pub(crate) fn read_u32_at(data: &[u8], at: usize) -> (value: u32)
    requires
        at + 4 <= data@.len(),
    ensures
        value as nat == le_value(data@.subrange(at as int, at + 4)),
{
    let end = data.len();
    let field = slice_subrange(data, at, end);
    assert(field@.take(4) =~= data@.subrange(at as int, at + 4));
    le_read_u32(field)
}

/// The 64-bit little-endian number at `data[at..at + 8]`.
pub(crate) fn read_u64_at(data: &[u8], at: usize) -> (value: u64)
    requires
        at + 8 <= data@.len(),
    ensures
        value as nat == le_value(data@.subrange(at as int, at + 8)),
{
    let end = data.len();
    let field = slice_subrange(data, at, end);
    assert(field@.take(8) =~= data@.subrange(at as int, at + 8));
    le_read_u64(field)
}

/// `byteorder::LittleEndian::write_u16`: the two little-endian bytes of
/// `value`, written into a buffer of exactly that size.
#[verifier::external_body]
fn le_write_u16(value: u16) -> (bytes: Vec<u8>)
    ensures
        bytes@ == le_bytes(value as nat, 2),
{
    let mut buf: [u8; 2] = [0u8; 2];
    byteorder::LittleEndian::write_u16(&mut buf, value);
    buf.to_vec()
}

/// `byteorder::LittleEndian::write_u32`: the four little-endian bytes of
/// `value`, written into a buffer of exactly that size.
#[verifier::external_body]
fn le_write_u32(value: u32) -> (bytes: Vec<u8>)
    ensures
        bytes@ == le_bytes(value as nat, 4),
{
    let mut buf: [u8; 4] = [0u8; 4];
    byteorder::LittleEndian::write_u32(&mut buf, value);
    buf.to_vec()
}

/// `byteorder::LittleEndian::write_u64`: the eight little-endian bytes of
/// `value`, written into a buffer of exactly that size.
#[verifier::external_body]
fn le_write_u64(value: u64) -> (bytes: Vec<u8>)
    ensures
        bytes@ == le_bytes(value as nat, 8),
{
    let mut buf: [u8; 8] = [0u8; 8];
    byteorder::LittleEndian::write_u64(&mut buf, value);
    buf.to_vec()
}

/// Appends the two little-endian bytes of `value`.
pub(crate) fn put_u16(out: &mut Vec<u8>, value: u16)
    ensures
        final(out)@ == old(out)@ + le_bytes(value as nat, 2),
        final(out)@.len() == old(out)@.len() + 2,
{
    let mut bytes = le_write_u16(value);
    proof {
        lemma_le_bytes_len(value as nat, 2);
    }
    out.append(&mut bytes);
}

/// Appends the four little-endian bytes of `value`.
pub(crate) fn put_u32(out: &mut Vec<u8>, value: u32)
    ensures
        final(out)@ == old(out)@ + le_bytes(value as nat, 4),
        final(out)@.len() == old(out)@.len() + 4,
{
    let mut bytes = le_write_u32(value);
    proof {
        lemma_le_bytes_len(value as nat, 4);
    }
    out.append(&mut bytes);
}

/// Appends the eight little-endian bytes of `value`.
pub(crate) fn put_u64(out: &mut Vec<u8>, value: u64)
    ensures
        final(out)@ == old(out)@ + le_bytes(value as nat, 8),
        final(out)@.len() == old(out)@.len() + 8,
{
    let mut bytes = le_write_u64(value);
    proof {
        lemma_le_bytes_len(value as nat, 8);
    }
    out.append(&mut bytes);
}

/// The ASCII space that pads text fields.
pub const PAD: u8 = 0x20;

/// `bytes` without its trailing spaces.
pub open spec fn trim_spaces(bytes: Seq<u8>) -> Seq<u8>
    decreases bytes.len(),
{
    if bytes.len() > 0 && bytes.last() == PAD {
        trim_spaces(bytes.drop_last())
    } else {
        bytes
    }
}

/// `count` padding bytes.
pub open spec fn padding(count: nat) -> Seq<u8> {
    Seq::new(count, |i: int| PAD)
}

/// `text` as a field of exactly `width` bytes: cut when it is too long,
/// filled up with spaces when it is too short.
pub open spec fn pad_field(text: Seq<u8>, width: nat) -> Seq<u8> {
    if text.len() >= width {
        text.take(width as int)
    } else {
        text + padding((width - text.len()) as nat)
    }
}

/// The characters that `String::from_utf8_lossy` makes of `bytes`.
pub uninterp spec fn utf8_lossy(bytes: Seq<u8>) -> Seq<char>;

/// The text that a byte string is read as: valid UTF-8 is decoded as it
/// stands, anything else becomes what `String::from_utf8_lossy` makes of it.
pub open spec fn lossy_text(bytes: Seq<u8>) -> Seq<char> {
    if valid_utf8(bytes) {
        decode_utf8(bytes)
    } else {
        utf8_lossy(bytes)
    }
}

/// The text that a space-padded field holds.
pub open spec fn field_text(field: Seq<u8>) -> Seq<char> {
    lossy_text(trim_spaces(field))
}

/// Each byte read as the character with that code.
pub open spec fn byte_chars(bytes: Seq<u8>) -> Seq<char> {
    Seq::new(bytes.len(), |i: int| bytes[i] as char)
}

/// All bytes are 7-bit ASCII.
pub open spec fn is_ascii_bytes(bytes: Seq<u8>) -> bool {
    forall|i: int| 0 <= i < bytes.len() ==> #[trigger] bytes[i] < 0x80
}

/// `String::from_utf8_lossy`, made into an owned `String`. Valid UTF-8 is
/// decoded as it stands; what becomes of other input is only named.
#[verifier::external_body]
fn lossy_string(bytes: &[u8]) -> (text: String)
    ensures
        text@ == (if valid_utf8(bytes@) {
            decode_utf8(bytes@)
        } else {
            utf8_lossy(bytes@)
        }),
{
    String::from_utf8_lossy(bytes).into_owned()
}

/// ASCII bytes are valid UTF-8 and decode byte by byte.
pub proof fn lemma_ascii_decodes(bytes: Seq<u8>)
    requires
        is_ascii_bytes(bytes),
    ensures
        valid_utf8(bytes),
        decode_utf8(bytes) == byte_chars(bytes),
        is_ascii_chars(byte_chars(bytes)),
        encode_utf8(byte_chars(bytes)) == bytes,
{
    let chars = byte_chars(bytes);
    assert(is_ascii_chars(chars));
    is_ascii_chars_encode_utf8(chars);
    assert(encode_utf8(chars) =~= bytes);
    encode_utf8_valid_utf8(chars);
    encode_utf8_decode_utf8(chars);
}

/// The owned text of a byte string.
pub(crate) fn text_of_bytes(bytes: &[u8]) -> (text: String)
    ensures
        text@ == lossy_text(bytes@),
        is_ascii_bytes(bytes@) ==> text@ == byte_chars(bytes@),
{
    proof {
        if is_ascii_bytes(bytes@) {
            lemma_ascii_decodes(bytes@);
        }
    }
    lossy_string(bytes)
}

/// The length of `bytes` without its trailing spaces.
pub(crate) fn trimmed_len(bytes: &[u8]) -> (len: usize)
    ensures
        len <= bytes@.len(),
        bytes@.take(len as int) == trim_spaces(bytes@),
{
    let mut len: usize = bytes.len();
    assert(bytes@.take(len as int) =~= bytes@);
    while len > 0 && bytes[len - 1] == PAD
        invariant
            len <= bytes@.len(),
            trim_spaces(bytes@.take(len as int)) == trim_spaces(bytes@),
        decreases len,
    {
        assert(bytes@.take(len as int).drop_last() =~= bytes@.take(len - 1));
        len = len - 1;
    }
    len
}

/// Reads the text field `data[at..at + width]`: trailing spaces are dropped,
/// the rest is read as text.
pub(crate) fn read_text_at(data: &[u8], at: usize, width: usize) -> (text: String)
    requires
        at + width <= data@.len(),
    ensures
        text@ == field_text(data@.subrange(at as int, at + width)),
{
    let rest = slice_subrange(data, at, data.len());
    let field = slice_subrange(rest, 0, width);
    assert(field@ =~= data@.subrange(at as int, at + width));
    let len = trimmed_len(field);
    let kept = slice_subrange(field, 0, len);
    assert(kept@ =~= field@.take(len as int));
    text_of_bytes(kept)
}

/// Appends `text` as a field of `width` bytes.
pub(crate) fn put_text(out: &mut Vec<u8>, text: &str, width: usize)
    ensures
        final(out)@ == old(out)@ + pad_field(encode_utf8(text@), width as nat),
        final(out)@.len() == old(out)@.len() + width,
{
    let bytes = text.as_bytes();
    let len = bytes.len();
    let ghost field = pad_field(bytes@, width as nat);
    let mut i: usize = 0;
    while i < width
        invariant
            i <= width,
            len == bytes@.len(),
            field == pad_field(bytes@, width as nat),
            field.len() == width,
            out@ == old(out)@ + field.take(i as int),
        decreases width - i,
    {
        let b: u8 = if i < len { bytes[i] } else { PAD };
        out.push(b);
        assert(field.take(i + 1) =~= field.take(i as int).push(b));
        i = i + 1;
    }
    proof {
        assert(field.take(width as int) =~= field);
    }
}

/// The character with code `b`.
pub(crate) fn char_of_byte(b: u8) -> (c: char)
    ensures
        c == b as char,
{
    b as char
}

/// The byte of a character whose code fits one, if it does.
pub(crate) fn byte_of_char(c: char) -> (b: Option<u8>)
    ensures
        b == (if (c as u32) < 0x100 { Some(c as u8) } else { None::<u8> }),
{
    let code: u32 = c as u32;
    if code < 0x100 {
        Some(code as u8)
    } else {
        None
    }
}

} // verus!
