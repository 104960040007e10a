//! The content hash of a file: the MD5 digest of its text, written in
//! lowercase hexadecimal.

use vstd::prelude::*;
use vstd::utf8::encode_utf8;

verus! {

/// The MD5 digest of a byte string.
pub uninterp spec fn md5_digest(bytes: Seq<u8>) -> Seq<u8>;

/// The sixteen hexadecimal digits, lowercase, by value.
pub open spec fn hex_digits() -> Seq<char> {
    seq!['0', '1', '2', '3', '4', '5', '6', '7', '8', '9', 'a', 'b', 'c', 'd', 'e', 'f']
}

/// Two digits per byte, the high half first.
pub open spec fn hex_encoding(bytes: Seq<u8>) -> Seq<char> {
    Seq::new(
        2 * bytes.len(),
        |i: int|
            if i % 2 == 0 {
                hex_digits()[bytes[i / 2] as int / 16]
            } else {
                hex_digits()[bytes[i / 2] as int % 16]
            },
    )
}

/// The hash under which a file with the text `content` is indexed.
pub open spec fn content_hash(content: Seq<char>) -> Seq<char> {
    hex_encoding(md5_digest(encode_utf8(content)))
}

/// `crypto::md5::Md5::new` makes a hasher, `crypto::digest::Digest::input`
/// feeds it `bytes`, and `crypto::digest::Digest::result` writes out its
/// digest: the MD5 digest of `bytes`, which is sixteen bytes long.
#[verifier::external_body]
fn md5(bytes: &[u8]) -> (digest: Vec<u8>)
    ensures
        digest@ == md5_digest(bytes@),
        digest@.len() == 16,
{
    let mut hasher = crypto::md5::Md5::new();
    crypto::digest::Digest::input(&mut hasher, bytes);
    let mut output = [0u8; 16];
    crypto::digest::Digest::result(&mut hasher, &mut output);
    output.to_vec()
}

/// `rustc_serialize::hex::ToHex::to_hex` on a byte slice writes each byte as
/// two lowercase hexadecimal digits, the high half first.
#[verifier::external_body]
fn to_hex(bytes: &[u8]) -> (hex: String)
    ensures
        hex@ == hex_encoding(bytes@),
{
    rustc_serialize::hex::ToHex::to_hex(bytes)
}

/// Hashes the text of a file.
///
/// The digest depends on the text alone, so two files with the same text
/// have the same hash, and it is always thirty-two characters long.
pub fn hash(content: &str) -> (digest: String)
    ensures
        digest@ == content_hash(content@),
        digest@.len() == 32,
{
    let raw = md5(content.as_bytes());
    to_hex(raw.as_slice())
}

} // verus!
