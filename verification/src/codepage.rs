//! Code page 437, the single-byte encoding of the legacy status file.
//!
//! The tables are those of the `codepage_437` crate in its `CP437_CONTROL`
//! dialect, which keeps the control characters below `0x20` as they are.
//! What the crate's two conversions return is stated here without proof, over
//! two names for the entries of its tables; everything else is proved from
//! these statements.

use codepage_437::{FromCp437, IntoCp437, IntoCp437Error, CP437_CONTROL};
use vstd::prelude::*;

verus! {

/// The character that the dialect's table holds for a byte: what
/// `Cp437Dialect::decode` returns on `CP437_CONTROL`.
pub uninterp spec fn cp437_char(byte: u8) -> char;

/// The byte that the dialect gives for a character, if it has one: what
/// `Cp437Dialect::encode` returns on `CP437_CONTROL`.
pub uninterp spec fn cp437_byte(c: char) -> Option<u8>;

/// The error of `IntoCp437::into_cp437`. It is carried, never looked into.
#[verifier::external_type_specification]
#[verifier::external_body]
pub struct ExIntoCp437Error(IntoCp437Error);

/// `String::from_cp437` on `CP437_CONTROL`. The text has one character for
/// each byte, the one that the table holds for it. A byte below `0x80` gives
/// the ASCII character of the same number and a byte from `0x80` on gives a
/// character outside ASCII. Each of these characters is encoded back to the
/// byte it came from: the table's 256 entries differ from one another, and
/// `encode` finds a table entry before any other spelling of its byte.
#[verifier::external_body]
pub(crate) fn decode_cp437(bytes: Vec<u8>) -> (text: String)
    ensures
        text@.len() == bytes@.len(),
        forall|i: int| 0 <= i < bytes@.len() ==> #[trigger] text@[i] == cp437_char(bytes@[i]),
        forall|i: int|
            0 <= i < bytes@.len() && bytes@[i] < 0x80 ==> #[trigger] text@[i] == bytes@[i] as char,
        forall|i: int|
            0 <= i < bytes@.len() && bytes@[i] >= 0x80 ==> (#[trigger] text@[i]) as u32 >= 0x80,
        forall|i: int| 0 <= i < bytes@.len() ==> cp437_byte(#[trigger] text@[i]) == Some(bytes@[i]),
{
    String::from_cp437(bytes, &CP437_CONTROL)
}

/// `IntoCp437::into_cp437` for `String` on `CP437_CONTROL`. It succeeds when
/// the dialect has a byte for every character, and then returns these bytes,
/// one for each character; it fails when some character has none.
#[verifier::external_body]
pub(crate) fn encode_cp437(text: String) -> (encoded: Result<Vec<u8>, IntoCp437Error>)
    ensures
        encoded is Ok <==> forall|i: int|
            0 <= i < text@.len() ==> cp437_byte(#[trigger] text@[i]) is Some,
        encoded matches Ok(bytes) ==> bytes@.len() == text@.len() && forall|i: int|
            0 <= i < text@.len() ==> cp437_byte(#[trigger] text@[i]) == Some(bytes@[i]),
{
    text.into_cp437(&CP437_CONTROL)
}

/// The table as a function from bytes to characters.
pub open spec fn decoder() -> spec_fn(u8) -> char {
    |byte: u8| cp437_char(byte)
}

/// The text that a sequence of legacy bytes stands for.
pub open spec fn decoded(bytes: Seq<u8>) -> Seq<char> {
    bytes.map_values(decoder())
}

/// Whether the code page has a byte for every character of the text.
pub open spec fn representable(text: Seq<char>) -> bool {
    forall|i: int| 0 <= i < text.len() ==> cp437_byte(#[trigger] text[i]) is Some
}

/// The legacy bytes of a representable text, one for each character.
pub open spec fn encoded(text: Seq<char>) -> Seq<u8>
    recommends
        representable(text),
{
    text.map_values(|c: char| cp437_byte(c).unwrap())
}

/// Whether every character of the text is the one that the table holds for
/// its own byte. A character that the dialect accepts as a second spelling of
/// a byte, such as the Greek small beta for the byte of the sharp s, is not.
pub open spec fn canonical(text: Seq<char>) -> bool {
    forall|i: int|
        0 <= i < text.len() ==> cp437_byte(#[trigger] text[i]) is Some && cp437_char(
            cp437_byte(text[i]).unwrap(),
        ) == text[i]
}

/// Encoding a canonical text and decoding the bytes gives the text back.
pub proof fn lemma_encode_decode(text: Seq<char>)
    requires
        canonical(text),
    ensures
        representable(text),
        decoded(encoded(text)) == text,
{
    assert(decoded(encoded(text)) =~= text);
}

/// Whether the table treats one byte as the file format needs it: the byte's
/// character is encoded back to the byte, and it is an ASCII character, the
/// one of the same number, exactly when the byte is below `0x80`.
pub open spec fn faithful_byte(byte: u8) -> bool {
    &&& cp437_byte(cp437_char(byte)) == Some(byte)
    &&& byte < 0x80 ==> cp437_char(byte) == byte as char
    &&& byte >= 0x80 ==> cp437_char(byte) as u32 >= 0x80
}

/// Whether the table treats each of these bytes as the file format needs it.
pub open spec fn faithful(bytes: Seq<u8>) -> bool {
    forall|i: int| 0 <= i < bytes.len() ==> faithful_byte(#[trigger] bytes[i])
}

/// Decoding faithful bytes gives a canonical text, and encoding that text
/// gives the bytes back.
pub proof fn lemma_decode_encode(bytes: Seq<u8>)
    requires
        faithful(bytes),
    ensures
        canonical(decoded(bytes)),
        encoded(decoded(bytes)) == bytes,
{
    assert(encoded(decoded(bytes)) =~= bytes);
}

/// Decodes legacy bytes. Bytes that have been decoded are known to be
/// faithful, so the text is canonical and encoding it returns these bytes.
pub fn decode(bytes: Vec<u8>) -> (text: String)
    ensures
        text@ == decoded(bytes@),
        faithful(bytes@),
{
    let ghost given = bytes@;
    let text = decode_cp437(bytes);
    proof {
        assert(text@ =~= decoded(given));
        assert forall|i: int| 0 <= i < given.len() implies faithful_byte(#[trigger] given[i]) by {
            assert(text@[i] == cp437_char(given[i]));
        }
    }
    text
}

/// Encodes a text, if the code page can represent all of it.
pub fn encode(text: &str) -> (bytes: Option<Vec<u8>>)
    ensures
        bytes is Some <==> representable(text@),
        bytes matches Some(b) ==> b@ == encoded(text@),
{
    let owned: String = text.to_owned();
    match encode_cp437(owned) {
        Ok(b) => {
            assert(b@ =~= encoded(text@));
            Some(b)
        },
        Err(_) => None,
    }
}

} // verus!
