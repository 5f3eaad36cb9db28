//! The 32-bit key: given as a number, derived from a string by SHA-256, or drawn at random.
use vstd::prelude::*;

verus! {

/// The SHA-256 digest of the UTF-8 encoding of a string.
pub uninterp spec fn sha256_utf8(s: Seq<char>) -> Seq<u8>;

/// Relies on `sha2::Sha256::digest`: the digest of the string's UTF-8 bytes, which is 32
/// bytes long and depends on the string alone.
#[verifier::external_body]
fn sha256_of_str(s: &str) -> (r: Vec<u8>)
    ensures
        r@ == sha256_utf8(s@),
        r@.len() == 32,
{
    <sha2::Sha256 as sha2::Digest>::digest(s.as_bytes()).to_vec()
}

/// Relies on `rand::random::<u32>`: a number drawn from the thread's generator. Nothing is
/// promised of its value.
#[verifier::external_body]
fn random_u32() -> (r: u32) {
    rand::random::<u32>()
}

/// The little-endian value of the first four bytes of `b`.
pub open spec fn le_u32(b: Seq<u8>) -> int {
    b[0] + 256 * b[1] + 65536 * b[2] + 16777216 * b[3]
}

/// The key that a digest stands for: the little-endian value of its first four bytes.
pub fn key_from_digest(digest: &Vec<u8>) -> (r: u32)
    requires
        digest@.len() >= 4,
    ensures
        r == le_u32(digest@),
{
    digest[0] as u32 + digest[1] as u32 * 256 + digest[2] as u32 * 65536 + digest[3] as u32
        * 16777216
}

/// Where an encryption key comes from.
#[derive(Debug, Clone)]
pub enum KeyArgument {
    /// A string the key is derived from by SHA-256.
    String(String),
    /// The key itself.
    Num(u32),
    /// No key: one is drawn at random.
    Random,
}

impl KeyArgument {
    /// The encryption key: the first four bytes, little-endian, of the SHA-256 digest of a
    /// string; a given number as it is; or a random number.
    pub fn get(self) -> (r: u32)
        ensures
            self matches KeyArgument::Num(k) ==> r == k,
            self matches KeyArgument::String(s) ==> r == le_u32(sha256_utf8(s@)),
    {
        match self {
            KeyArgument::String(key) => {
                let digest = sha256_of_str(key.as_str());
                key_from_digest(&digest)
            },
            KeyArgument::Num(key) => key,
            KeyArgument::Random => random_u32(),
        }
    }
}

} // verus!
