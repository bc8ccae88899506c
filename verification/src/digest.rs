//! SHA-256 and SHA-512 of a stream of bytes, by the crates `sha2` and `hex`.
use vstd::prelude::*;

use sha2::Digest;

use crate::hash::HashAlgorithm;
use crate::text::{all_hex, lower};

verus! {

#[verifier::external_type_specification]
#[verifier::external_body]
pub struct ExSha256(sha2::Sha256);

#[verifier::external_type_specification]
#[verifier::external_body]
pub struct ExSha512(sha2::Sha512);

/// The bytes that a SHA-256 hasher has been given since it was made.
pub uninterp spec fn sha256_input(h: sha2::Sha256) -> Seq<u8>;

/// The bytes that a SHA-512 hasher has been given since it was made.
pub uninterp spec fn sha512_input(h: sha2::Sha512) -> Seq<u8>;

/// The SHA-256 digest of `data`.
pub uninterp spec fn sha256(data: Seq<u8>) -> Seq<u8>;

/// The SHA-512 digest of `data`.
pub uninterp spec fn sha512(data: Seq<u8>) -> Seq<u8>;

/// `Digest::new` of `sha2::Sha256`: a hasher that has been given nothing.
#[verifier::external_body]
fn sha256_new() -> (r: sha2::Sha256)
    ensures
        sha256_input(r) == Seq::<u8>::empty(),
{
    sha2::Sha256::new()
}

/// `Digest::update` of `sha2::Sha256`: the hasher is given `data` after what it
/// was given before.
#[verifier::external_body]
fn sha256_update(h: &mut sha2::Sha256, data: &[u8])
    ensures
        sha256_input(*final(h)) == sha256_input(*old(h)) + data@,
{
    h.update(data)
}

/// `Digest::finalize` of `sha2::Sha256`: the 32 bytes of the digest of all that
/// the hasher was given.
#[verifier::external_body]
fn sha256_finalize(h: sha2::Sha256) -> (r: Vec<u8>)
    ensures
        r@ == sha256(sha256_input(h)),
        r@.len() == 32,
{
    h.finalize().to_vec()
}

/// `Digest::new` of `sha2::Sha512`: a hasher that has been given nothing.
#[verifier::external_body]
fn sha512_new() -> (r: sha2::Sha512)
    ensures
        sha512_input(r) == Seq::<u8>::empty(),
{
    sha2::Sha512::new()
}

/// `Digest::update` of `sha2::Sha512`: the hasher is given `data` after what it
/// was given before.
#[verifier::external_body]
fn sha512_update(h: &mut sha2::Sha512, data: &[u8])
    ensures
        sha512_input(*final(h)) == sha512_input(*old(h)) + data@,
{
    h.update(data)
}

/// `Digest::finalize` of `sha2::Sha512`: the 64 bytes of the digest of all that
/// the hasher was given.
#[verifier::external_body]
fn sha512_finalize(h: sha2::Sha512) -> (r: Vec<u8>)
    ensures
        r@ == sha512(sha512_input(h)),
        r@.len() == 64,
{
    h.finalize().to_vec()
}

/// The lower-case hexadecimal digit of `d`.
pub open spec fn hex_char(d: int) -> char {
    if d < 10 {
        (d + '0' as int) as char
    } else {
        (d - 10 + 'a' as int) as char
    }
}

/// Two lower-case hexadecimal digits for each byte, the high one first.
pub open spec fn hex_text(data: Seq<u8>) -> Seq<char> {
    Seq::new(
        2 * data.len(),
        |i: int|
            if i % 2 == 0 {
                hex_char(data[i / 2] as int / 16)
            } else {
                hex_char(data[i / 2] as int % 16)
            },
    )
}

/// `hex::encode`: two lower-case hexadecimal digits for each byte, in order.
#[verifier::external_body]
fn hex_encode(data: &[u8]) -> (r: String)
    ensures
        r@ == hex_text(data@),
{
    hex::encode(data)
}

/// The digest of `data` under `algo`.
pub open spec fn digest_of(algo: HashAlgorithm, data: Seq<u8>) -> Seq<u8> {
    match algo {
        HashAlgorithm::Sha256 => sha256(data),
        HashAlgorithm::Sha512 => sha512(data),
    }
}

/// A digest in the making: it is given the bytes of a file piece by piece.
pub enum FileHasher {
    Sha256(sha2::Sha256),
    Sha512(sha2::Sha512),
}

impl FileHasher {
    /// The algorithm.
    pub open spec fn algorithm(&self) -> HashAlgorithm {
        match self {
            FileHasher::Sha256(_) => HashAlgorithm::Sha256,
            FileHasher::Sha512(_) => HashAlgorithm::Sha512,
        }
    }

    /// The bytes that it was given.
    pub open spec fn input(&self) -> Seq<u8> {
        match self {
            FileHasher::Sha256(h) => sha256_input(*h),
            FileHasher::Sha512(h) => sha512_input(*h),
        }
    }

    /// A hasher that was given nothing yet.
    pub fn new(algo: HashAlgorithm) -> (r: FileHasher)
        ensures
            r.algorithm() == algo,
            r.input() == Seq::<u8>::empty(),
    {
        match algo {
            HashAlgorithm::Sha256 => FileHasher::Sha256(sha256_new()),
            HashAlgorithm::Sha512 => FileHasher::Sha512(sha512_new()),
        }
    }

    /// Gives it the next piece.
    pub fn update(&mut self, data: &[u8])
        ensures
            final(self).algorithm() == old(self).algorithm(),
            final(self).input() == old(self).input() + data@,
    {
        match self {
            FileHasher::Sha256(h) => sha256_update(h, data),
            FileHasher::Sha512(h) => sha512_update(h, data),
        }
    }

    /// The digest of all that it was given, in hexadecimal.
    pub fn finish(self) -> (r: String)
        ensures
            r@ == hex_text(digest_of(self.algorithm(), self.input())),
            r@.len() == self.algorithm().spec_hex_len(),
            all_hex(r@),
            lower(r@) == r@,
    {
        let bytes: Vec<u8> = match self {
            FileHasher::Sha256(h) => sha256_finalize(h),
            FileHasher::Sha512(h) => sha512_finalize(h),
        };
        hex_encode(bytes.as_slice())
    }
}

} // verus!
