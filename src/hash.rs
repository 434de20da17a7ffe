//! The hash functions a table can be built on.
use vstd::prelude::*;

verus! {

/// All the supported hash functions.
#[derive(Clone, Copy, Debug, PartialEq, Eq, Structural, Hash)]
pub enum HashFunction {
    Ntlm,
    Md4,
    Md5,
    Sha1,
    Sha2_224,
    Sha2_256,
    Sha2_384,
    Sha2_512,
    Sha3_224,
    Sha3_256,
    Sha3_384,
    Sha3_512,
}

/// The Md4 digest of a byte string.
pub uninterp spec fn md4_of(p: Seq<u8>) -> Seq<u8>;

/// The Md5 digest of a byte string.
pub uninterp spec fn md5_of(p: Seq<u8>) -> Seq<u8>;

/// The Sha1 digest of a byte string.
pub uninterp spec fn sha1_of(p: Seq<u8>) -> Seq<u8>;

/// The Sha2_224 digest of a byte string.
pub uninterp spec fn sha2_224_of(p: Seq<u8>) -> Seq<u8>;

/// The Sha2_256 digest of a byte string.
pub uninterp spec fn sha2_256_of(p: Seq<u8>) -> Seq<u8>;

/// The Sha2_384 digest of a byte string.
pub uninterp spec fn sha2_384_of(p: Seq<u8>) -> Seq<u8>;

/// The Sha2_512 digest of a byte string.
pub uninterp spec fn sha2_512_of(p: Seq<u8>) -> Seq<u8>;

/// The Sha3_224 digest of a byte string.
pub uninterp spec fn sha3_224_of(p: Seq<u8>) -> Seq<u8>;

/// The Sha3_256 digest of a byte string.
pub uninterp spec fn sha3_256_of(p: Seq<u8>) -> Seq<u8>;

/// The Sha3_384 digest of a byte string.
pub uninterp spec fn sha3_384_of(p: Seq<u8>) -> Seq<u8>;

/// The Sha3_512 digest of a byte string.
pub uninterp spec fn sha3_512_of(p: Seq<u8>) -> Seq<u8>;

/// Relies on `md4::Digest::digest` for `md4::Md4`: the digest of the
/// bytes, 16 bytes long.
#[verifier::external_body]
fn md4_digest(p: &[u8]) -> (r: Vec<u8>)
    ensures
        r@ == md4_of(p@),
        r@.len() == 16,
{
    <md4::Md4 as md4::Digest>::digest(p).to_vec()
}

/// Relies on `md5::Digest::digest` for `md5::Md5`: the digest of the
/// bytes, 16 bytes long.
#[verifier::external_body]
fn md5_digest(p: &[u8]) -> (r: Vec<u8>)
    ensures
        r@ == md5_of(p@),
        r@.len() == 16,
{
    <md5::Md5 as md5::Digest>::digest(p).to_vec()
}

/// Relies on `sha1::Digest::digest` for `sha1::Sha1`: the digest of the
/// bytes, 20 bytes long.
#[verifier::external_body]
fn sha1_digest(p: &[u8]) -> (r: Vec<u8>)
    ensures
        r@ == sha1_of(p@),
        r@.len() == 20,
{
    <sha1::Sha1 as sha1::Digest>::digest(p).to_vec()
}

/// Relies on `sha2::Digest::digest` for `sha2::Sha224`: the digest of the
/// bytes, 28 bytes long.
#[verifier::external_body]
fn sha2_224_digest(p: &[u8]) -> (r: Vec<u8>)
    ensures
        r@ == sha2_224_of(p@),
        r@.len() == 28,
{
    <sha2::Sha224 as sha2::Digest>::digest(p).to_vec()
}

/// Relies on `sha2::Digest::digest` for `sha2::Sha256`: the digest of the
/// bytes, 32 bytes long.
#[verifier::external_body]
fn sha2_256_digest(p: &[u8]) -> (r: Vec<u8>)
    ensures
        r@ == sha2_256_of(p@),
        r@.len() == 32,
{
    <sha2::Sha256 as sha2::Digest>::digest(p).to_vec()
}

/// Relies on `sha2::Digest::digest` for `sha2::Sha384`: the digest of the
/// bytes, 48 bytes long.
#[verifier::external_body]
fn sha2_384_digest(p: &[u8]) -> (r: Vec<u8>)
    ensures
        r@ == sha2_384_of(p@),
        r@.len() == 48,
{
    <sha2::Sha384 as sha2::Digest>::digest(p).to_vec()
}

/// Relies on `sha2::Digest::digest` for `sha2::Sha512`: the digest of the
/// bytes, 64 bytes long.
#[verifier::external_body]
fn sha2_512_digest(p: &[u8]) -> (r: Vec<u8>)
    ensures
        r@ == sha2_512_of(p@),
        r@.len() == 64,
{
    <sha2::Sha512 as sha2::Digest>::digest(p).to_vec()
}

/// Relies on `sha3::Digest::digest` for `sha3::Sha3_224`: the digest of the
/// bytes, 28 bytes long.
#[verifier::external_body]
fn sha3_224_digest(p: &[u8]) -> (r: Vec<u8>)
    ensures
        r@ == sha3_224_of(p@),
        r@.len() == 28,
{
    <sha3::Sha3_224 as sha3::Digest>::digest(p).to_vec()
}

/// Relies on `sha3::Digest::digest` for `sha3::Sha3_256`: the digest of the
/// bytes, 32 bytes long.
#[verifier::external_body]
fn sha3_256_digest(p: &[u8]) -> (r: Vec<u8>)
    ensures
        r@ == sha3_256_of(p@),
        r@.len() == 32,
{
    <sha3::Sha3_256 as sha3::Digest>::digest(p).to_vec()
}

/// Relies on `sha3::Digest::digest` for `sha3::Sha3_384`: the digest of the
/// bytes, 48 bytes long.
#[verifier::external_body]
fn sha3_384_digest(p: &[u8]) -> (r: Vec<u8>)
    ensures
        r@ == sha3_384_of(p@),
        r@.len() == 48,
{
    <sha3::Sha3_384 as sha3::Digest>::digest(p).to_vec()
}

/// Relies on `sha3::Digest::digest` for `sha3::Sha3_512`: the digest of the
/// bytes, 64 bytes long.
#[verifier::external_body]
fn sha3_512_digest(p: &[u8]) -> (r: Vec<u8>)
    ensures
        r@ == sha3_512_of(p@),
        r@.len() == 64,
{
    <sha3::Sha3_512 as sha3::Digest>::digest(p).to_vec()
}

/// The UTF-16LE encoding of an ASCII string: each byte followed by a zero.
pub open spec fn utf16_le_spec(p: Seq<u8>) -> Seq<u8> {
    Seq::new(2 * p.len(), |i: int| if i % 2 == 0 { p[i / 2] } else { 0u8 })
}

/// The digest of `p` under hash function `h`.
pub open spec fn digest_of(h: HashFunction, p: Seq<u8>) -> Seq<u8> {
    match h {
        HashFunction::Ntlm => md4_of(utf16_le_spec(p)),
        HashFunction::Md4 => md4_of(p),
        HashFunction::Md5 => md5_of(p),
        HashFunction::Sha1 => sha1_of(p),
        HashFunction::Sha2_224 => sha2_224_of(p),
        HashFunction::Sha2_256 => sha2_256_of(p),
        HashFunction::Sha2_384 => sha2_384_of(p),
        HashFunction::Sha2_512 => sha2_512_of(p),
        HashFunction::Sha3_224 => sha3_224_of(p),
        HashFunction::Sha3_256 => sha3_256_of(p),
        HashFunction::Sha3_384 => sha3_384_of(p),
        HashFunction::Sha3_512 => sha3_512_of(p),
    }
}

/// The size in bytes of a digest of `h`.
pub open spec fn digest_size_spec(h: HashFunction) -> nat {
    match h {
        HashFunction::Ntlm => 16,
        HashFunction::Md4 => 16,
        HashFunction::Md5 => 16,
        HashFunction::Sha1 => 20,
        HashFunction::Sha2_224 => 28,
        HashFunction::Sha2_256 => 32,
        HashFunction::Sha2_384 => 48,
        HashFunction::Sha2_512 => 64,
        HashFunction::Sha3_224 => 28,
        HashFunction::Sha3_256 => 32,
        HashFunction::Sha3_384 => 48,
        HashFunction::Sha3_512 => 64,
    }
}

/// UTF-16LE encodes an ASCII password.
pub fn utf16_le(password: &[u8]) -> (r: Vec<u8>)
    requires
        password@.len() <= usize::MAX / 2,
    ensures
        r@ == utf16_le_spec(password@),
{
    let mut buf: Vec<u8> = Vec::new();
    let mut i: usize = 0;
    while i < password.len()
        invariant
            0 <= i <= password@.len(),
            password@.len() <= usize::MAX / 2,
            buf@ =~= utf16_le_spec(password@.take(i as int)),
        decreases password@.len() - i,
    {
        buf.push(password[i]);
        buf.push(0);
        i += 1;
        assert(buf@ =~= utf16_le_spec(password@.take(i as int)));
    }
    assert(password@.take(i as int) =~= password@);
    buf
}

impl HashFunction {
    /// Gets the digest size in bytes.
    pub fn digest_size(&self) -> (r: usize)
        ensures
            r == digest_size_spec(*self),
    {
        match self {
            HashFunction::Ntlm => 16,
            HashFunction::Md4 => 16,
            HashFunction::Md5 => 16,
            HashFunction::Sha1 => 20,
            HashFunction::Sha2_224 => 28,
            HashFunction::Sha2_256 => 32,
            HashFunction::Sha2_384 => 48,
            HashFunction::Sha2_512 => 64,
            HashFunction::Sha3_224 => 28,
            HashFunction::Sha3_256 => 32,
            HashFunction::Sha3_384 => 48,
            HashFunction::Sha3_512 => 64,
        }
    }

    /// Hashes a password with this hash function.
    pub fn hash(&self, password: &[u8]) -> (r: Vec<u8>)
        requires
            password@.len() <= usize::MAX / 2,
        ensures
            r@ == digest_of(*self, password@),
            r@.len() == digest_size_spec(*self),
    {
        match self {
            HashFunction::Ntlm => {
                let encoded = utf16_le(password);
                md4_digest(encoded.as_slice())
            },
            HashFunction::Md4 => md4_digest(password),
            HashFunction::Md5 => md5_digest(password),
            HashFunction::Sha1 => sha1_digest(password),
            HashFunction::Sha2_224 => sha2_224_digest(password),
            HashFunction::Sha2_256 => sha2_256_digest(password),
            HashFunction::Sha2_384 => sha2_384_digest(password),
            HashFunction::Sha2_512 => sha2_512_digest(password),
            HashFunction::Sha3_224 => sha3_224_digest(password),
            HashFunction::Sha3_256 => sha3_256_digest(password),
            HashFunction::Sha3_384 => sha3_384_digest(password),
            HashFunction::Sha3_512 => sha3_512_digest(password),
        }
    }
}

} // verus!
