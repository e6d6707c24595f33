use encoding::all::WINDOWS_31J;
use encoding::{DecoderTrap, EncoderTrap, Encoding};
use vstd::prelude::*;

use crate::common::{fits, read_bytes, ByteCursor, ReadError};

verus! {

/// The characters that `bytes` decode to in Windows-31J (Shift_JIS with the
/// IBM/NEC extensions), skipping every byte sequence that does not decode.
pub uninterp spec fn windows_31j_decode(bytes: Seq<u8>) -> Seq<char>;

/// The Windows-31J bytes of the one-character string `c` (none when `c`
/// has no Windows-31J code).
pub uninterp spec fn windows_31j_encode_char(c: char) -> Seq<u8>;

/// Decodes bytes as Windows-31J through `encoding`:
/// `WINDOWS_31J.decode(bytes, DecoderTrap::Ignore)`. With the `Ignore` trap
/// every decoding error is skipped, so the call always returns `Ok`. Its
/// decoder maps every byte 0x00..=0x80 read outside a two-byte sequence to the
/// character with that code, so bytes that are all at most 0x80 decode to
/// those characters one for one; what it does with other bytes is named by
/// `windows_31j_decode` and not stated.
#[verifier::external_body]
pub(crate) fn decode_windows_31j(bytes: &[u8]) -> (s: String)
    ensures
        s@ == windows_31j_decode(bytes@),
        (forall|i: int| 0 <= i < bytes@.len() ==> #[trigger] bytes@[i] <= 0x80) ==> s@
            == bytes@.map_values(|b: u8| b as char),
{
    WINDOWS_31J.decode(bytes, DecoderTrap::Ignore).unwrap()
}

/// Encodes one character as Windows-31J through `encoding`:
/// `WINDOWS_31J.encode(&c.to_string(), EncoderTrap::Ignore)`. With the
/// `Ignore` trap an unrepresentable character gives no bytes and the call
/// always returns `Ok`. Its encoder writes the characters U+0000..=U+0080 as
/// the one byte with that code and every other character as one or two
/// bytes; which bytes is named by `windows_31j_encode_char`.
#[verifier::external_body]
pub(crate) fn encode_char_windows_31j(c: char) -> (bytes: Vec<u8>)
    ensures
        bytes@ == windows_31j_encode_char(c),
        bytes@.len() <= 2,
        (c as u32) <= 0x80 ==> bytes@ == seq![c as u8],
{
    WINDOWS_31J.encode(&c.to_string(), EncoderTrap::Ignore).unwrap()
}

/// The offset of the first zero byte of `s` at or after `i` (its length when
/// there is none).
pub open spec fn nul_index(s: Seq<u8>, i: int) -> int
    decreases s.len() - i,
{
    if i < 0 || i >= s.len() {
        s.len() as int
    } else if s[i] == 0 {
        i
    } else {
        nul_index(s, i + 1)
    }
}

/// The bytes of `s` before its first zero byte.
pub open spec fn until_nul(s: Seq<u8>) -> Seq<u8> {
    s.take(nul_index(s, 0))
}

/// The text of a zero-padded field of `len` bytes at `pos`: the bytes
/// before the first zero, decoded as Windows-31J.
pub open spec fn spec_read_string(data: Seq<u8>, pos: int, len: nat) -> Result<(Seq<char>, int), ReadError> {
    if fits(data, pos, len as int) {
        Ok((windows_31j_decode(until_nul(data.subrange(pos, pos + len))), pos + len))
    } else {
        Err(ReadError::UnexpectedEof)
    }
}

proof fn lemma_nul_index_bounds(s: Seq<u8>, i: int)
    requires
        0 <= i <= s.len(),
    ensures
        i <= nul_index(s, i) <= s.len(),
    decreases s.len() - i,
{
    if i < s.len() && s[i] != 0 {
        lemma_nul_index_bounds(s, i + 1);
    }
}

/// The bytes of `raw` before its first zero byte.
fn bytes_until_nul(raw: &Vec<u8>) -> (v: Vec<u8>)
    ensures
        v@ == until_nul(raw@),
{
    let mut i: usize = 0;
    while i < raw.len() && raw[i] != 0
        invariant
            i <= raw@.len(),
            nul_index(raw@, 0) == nul_index(raw@, i as int),
        decreases raw@.len() - i,
    {
        i = i + 1;
    }
    proof {
        lemma_nul_index_bounds(raw@, 0);
    }
    let mut v: Vec<u8> = Vec::new();
    let mut j: usize = 0;
    while j < i
        invariant
            j <= i <= raw@.len(),
            i == nul_index(raw@, 0),
            v@ == raw@.take(j as int),
        decreases i - j,
    {
        v.push(raw[j]);
        j = j + 1;
        assert(v@ =~= raw@.take(j as int));
    }
    v
}

/// Reads a zero-padded text field of `len` bytes, or reports that the
/// file ends first.
pub fn try_read_string(file: &mut ByteCursor, len: usize) -> (res: Result<String, ReadError>)
    ensures
        final(file).bytes() == old(file).bytes(),
        crate::common::read_agrees(spec_read_string(old(file).bytes(), old(file).pos(), len as nat), res, final(file).pos()),
{
    let raw = read_bytes(file, len)?;
    let text = bytes_until_nul(&raw);
    Ok(decode_windows_31j(text.as_slice()))
}


/// Reads a zero-padded text field of `len` bytes; the file must hold all
/// of them.
pub fn read_string(file: &mut ByteCursor, len: usize) -> (s: String)
    requires
        spec_read_string(old(file).bytes(), old(file).pos(), len as nat) is Ok,
    ensures
        final(file).bytes() == old(file).bytes(),
        spec_read_string(old(file).bytes(), old(file).pos(), len as nat)->Ok_0 == (s@, final(file).pos()),
{
    match try_read_string(file, len) {
        Ok(s) => s,
        Err(_) => unreached(),
    }
}

/// The characters that have the Unicode `White_Space` property.
pub open spec fn unicode_white_space(c: char) -> bool {
    let u = c as u32;
    (0x09 <= u <= 0x0d) || u == 0x20 || u == 0x85 || u == 0xa0 || u == 0x1680 || (0x2000 <= u <= 0x200a)
        || u == 0x2028 || u == 0x2029 || u == 0x202f || u == 0x205f || u == 0x3000
}

/// Whether `c` has the Unicode `White_Space` property, as
/// `char::is_whitespace` decides it.
pub(crate) fn is_whitespace_char(c: char) -> (b: bool)
    ensures
        b == unicode_white_space(c),
{
    let u = c as u32;
    (0x09 <= u && u <= 0x0d) || u == 0x20 || u == 0x85 || u == 0xa0 || u == 0x1680 || (0x2000 <= u
        && u <= 0x200a) || u == 0x2028 || u == 0x2029 || u == 0x202f || u == 0x205f || u == 0x3000
}

/// Appends a character to a string, through std: `String::push` appends
/// the given character to the end of the string.
#[verifier::external_body]
pub(crate) fn push_char(s: &mut String, c: char)
    ensures
        final(s)@ == old(s)@.push(c),
{
    s.push(c)
}

} // verus!
