//! Content hashing: the dedup key of the item store. Non-folder items
//! are keyed by a digest of their file bytes, folders by a digest of
//! their path string.
use vstd::prelude::*;

use md5::Digest;

verus! {

/// The MD5 digest of a byte sequence, printed as 32 lower-case hex
/// digits. Left uninterpreted: the verified logic only relies on the
/// digest being a function of the input bytes.
pub uninterp spec fn md5_hex_of(data: Seq<u8>) -> Seq<char>;

/// Relies on md5::Md5 (crate md-5): the digest is a function of the
/// input bytes alone and is 16 bytes long, printed here as 32 hex
/// digits.
#[verifier::external_body]
fn md5_hex(data: &[u8]) -> (r: String)
    ensures
        r@ == md5_hex_of(data@),
        r@.len() == 32,
{
    let digest = md5::Md5::digest(data);
    let mut hex = String::new();
    for byte in digest.as_slice() {
        hex.push_str(&format!("{:02x}", byte));
    }
    hex
}

/// The dedup key of an entry: folders are keyed by their path string,
/// everything else by its content bytes.
pub fn content_key(is_folder: bool, path: &str, data: &[u8]) -> (r: String)
    ensures
        r@ == spec_content_key(is_folder, path@, data@),
        r@.len() == 32,
{
    if is_folder {
        md5_hex(path.as_bytes())
    } else {
        md5_hex(data)
    }
}

/// What `content_key` returns, over the views of its arguments.
pub open spec fn spec_content_key(is_folder: bool, path: Seq<char>, data: Seq<u8>) -> Seq<char> {
    if is_folder {
        md5_hex_of(vstd::utf8::encode_utf8(path))
    } else {
        md5_hex_of(data)
    }
}

} // verus!
