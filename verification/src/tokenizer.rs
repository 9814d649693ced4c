//! Byte-level tokenizer: a token is one byte of the text's UTF-8 encoding.

use vstd::prelude::*;
use vstd::utf8::{decode_utf8, encode_utf8, valid_utf8};

verus! {

/// The token ids of a text: its UTF-8 bytes, one id each.
pub open spec fn encode_of(text: Seq<char>) -> Seq<usize> {
    encode_utf8(text).map_values(|b: u8| b as usize)
}

/// The bytes that a sequence of ids stands for, each id taken modulo 256.
pub open spec fn bytes_of(ids: Seq<usize>) -> Seq<u8> {
    ids.map_values(|id: usize| (id % 256) as u8)
}

/// The text of `bytes`, with the replacement character wherever they are not UTF-8.
pub open spec fn decode_of(ids: Seq<usize>) -> Seq<char> {
    lossy_text(bytes_of(ids))
}

/// The text that a lossy UTF-8 conversion gives for `bytes`.
pub uninterp spec fn lossy_text(bytes: Seq<u8>) -> Seq<char>;

/// Wraps `String::from_utf8_lossy`. The contract claims that the text depends on the bytes alone
/// and that it is the UTF-8 decoding where the bytes are UTF-8. How many replacement characters
/// stand for bytes that are not is left to the name [`lossy_text`].
#[verifier::external_body]
pub(crate) fn from_utf8_lossy(bytes: &[u8]) -> (text: String)
    ensures
        text@ == lossy_text(bytes@),
        valid_utf8(bytes@) ==> text@ == decode_utf8(bytes@),
{
    String::from_utf8_lossy(bytes).into_owned()
}

/// Encodes text into byte-token ids.
pub fn encode(text: &str) -> (ids: Vec<usize>)
    ensures
        ids@ == encode_of(text@),
{
    let bytes = text.as_bytes();
    let mut ids: Vec<usize> = Vec::new();
    let mut i: usize = 0;
    while i < bytes.len()
        invariant
            i <= bytes@.len(),
            bytes@ == encode_utf8(text@),
            ids@ =~= encode_of(text@).take(i as int),
        decreases bytes@.len() - i,
    {
        ids.push(bytes[i] as usize);
        i = i + 1;
    }
    assert(ids@ =~= encode_of(text@));
    ids
}

/// Decodes byte-token ids back into text, lossily where they are not UTF-8.
pub fn decode(ids: &[usize]) -> (text: String)
    ensures
        text@ == decode_of(ids@),
        valid_utf8(bytes_of(ids@)) ==> text@ == decode_utf8(bytes_of(ids@)),
{
    let mut bytes: Vec<u8> = Vec::new();
    let mut i: usize = 0;
    while i < ids.len()
        invariant
            i <= ids@.len(),
            bytes@ =~= bytes_of(ids@).take(i as int),
        decreases ids@.len() - i,
    {
        bytes.push((ids[i] % 256) as u8);
        i = i + 1;
    }
    assert(bytes@ =~= bytes_of(ids@));
    from_utf8_lossy(bytes.as_slice())
}

/// Every id of an encoded text is below the vocabulary size of 256, and the bytes it stands for
/// are the text's own encoding. So decoding an encoded text gives the text back.
pub proof fn encoded_text_decodes_to_itself(text: Seq<char>)
    ensures
        forall|i: int| 0 <= i < encode_of(text).len() ==> #[trigger] encode_of(text)[i] < 256,
        bytes_of(encode_of(text)) == encode_utf8(text),
        valid_utf8(bytes_of(encode_of(text))),
        decode_utf8(bytes_of(encode_of(text))) == text,
{
    assert(bytes_of(encode_of(text)) =~= encode_utf8(text));
    vstd::utf8::encode_utf8_valid_utf8(text);
    vstd::utf8::encode_utf8_decode_utf8(text);
}

/// An id stands for the byte that is left of it modulo 256, whatever it is: ids that differ by 256 read
/// alike, and ids below 256 are the bytes themselves. The ids of a text are the bytes of its encoding.
pub proof fn ids_are_bytes(ids: Seq<usize>, other: Seq<usize>, i: int, a: Seq<char>)
    requires
        0 <= i < ids.len(),
    ensures
        bytes_of(ids).len() == ids.len(),
        bytes_of(ids)[i] == ids[i] % 256,
        ids[i] < 256 ==> bytes_of(ids)[i] == ids[i],
        ids.len() == other.len() && (forall|j: int|
            0 <= j < ids.len() ==> (#[trigger] ids[j]) % 256 == other[j] % 256) ==> decode_of(ids)
            == decode_of(other),
        encode_of(a).len() == encode_utf8(a).len(),
        forall|j: int| 0 <= j < encode_of(a).len() ==> #[trigger] encode_of(a)[j] == encode_utf8(a)[j],
{
    if ids.len() == other.len() && (forall|j: int|
        0 <= j < ids.len() ==> (#[trigger] ids[j]) % 256 == other[j] % 256) {
        assert(bytes_of(ids) =~= bytes_of(other));
    }
}

} // verus!
