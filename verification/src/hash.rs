//! Hash algorithms, the hasher abstraction and salted fingerprint hashes.

use vstd::prelude::*;
use sha2::Digest;

use crate::error::{CoreError, CoreResult};
use crate::order::Hash32;
use crate::text::{copy_string, push_slice, str_eq};

verus! {

pub const TAG_MERKLE_LEAF: u8 = 0x00;
pub const TAG_ID_HASH: u8 = 0x01;
pub const TAG_CONTENT_HASH: u8 = 0x02;
pub const TAG_FINGERPRINT: u8 = 0x03;
pub const TAG_MERKLE_NODE: u8 = 0x10;
pub const TAG_COMMUTATIVE: u8 = 0x20;

/// The digest algorithms a policy can select.
#[derive(Debug, Clone, Copy, PartialEq, Eq)]
pub enum HashAlgorithm {
    Sha256,
    Blake3,
}

/// What SHA-256 returns on the given bytes.
pub uninterp spec fn sha256_digest(data: Seq<u8>) -> Seq<u8>;

/// What BLAKE3 (32-byte output) returns on the given bytes.
pub uninterp spec fn blake3_digest(data: Seq<u8>) -> Seq<u8>;

/// The digest of `data` under `alg`.
pub open spec fn spec_digest(alg: HashAlgorithm, data: Seq<u8>) -> Seq<u8> {
    match alg {
        HashAlgorithm::Sha256 => sha256_digest(data),
        HashAlgorithm::Blake3 => blake3_digest(data),
    }
}

/// `sha2::Sha256::digest`: the SHA-256 digest of the bytes, as 32 bytes.
#[verifier::external_body]
fn sha256_bytes(data: &[u8]) -> (r: Hash32)
    ensures
        r@ == sha256_digest(data@),
{
    sha2::Sha256::digest(data).into()
}

/// `blake3::hash`: the 32-byte BLAKE3 digest of the bytes.
#[verifier::external_body]
fn blake3_bytes(data: &[u8]) -> (r: Hash32)
    ensures
        r@ == blake3_digest(data@),
{
    blake3::hash(data).into()
}

/// The algorithm a policy names, if it names one.
pub open spec fn spec_parse_algorithm(s: Seq<char>) -> Option<HashAlgorithm> {
    if s == "sha256"@ {
        Some(HashAlgorithm::Sha256)
    } else if s == "blake3"@ {
        Some(HashAlgorithm::Blake3)
    } else {
        None
    }
}

/// The contract of parsing an algorithm name.
pub open spec fn parse_algorithm_ok(s: Seq<char>, r: CoreResult<HashAlgorithm>) -> bool {
    match spec_parse_algorithm(s) {
        Some(a) => r matches Ok(x) && x == a,
        None => r matches Err(CoreError::UnknownHashAlgorithm(t)) && t@ == s,
    }
}

impl HashAlgorithm {
    /// Parses `"sha256"` or `"blake3"`; any other text is an unknown algorithm.
    pub fn parse(s: &str) -> (r: CoreResult<Self>)
        ensures
            parse_algorithm_ok(s@, r),
    {
        if str_eq(s, "sha256") {
            Ok(HashAlgorithm::Sha256)
        } else if str_eq(s, "blake3") {
            Ok(HashAlgorithm::Blake3)
        } else {
            Err(CoreError::UnknownHashAlgorithm(copy_string(s)))
        }
    }

    /// Digests the bytes with this algorithm.
    pub fn digest(&self, data: &[u8]) -> (r: Hash32)
        ensures
            r@ == spec_digest(*self, data@),
    {
        match self {
            HashAlgorithm::Sha256 => sha256_bytes(data),
            HashAlgorithm::Blake3 => blake3_bytes(data),
        }
    }
}

/// A 32-byte hash function, identified by its algorithm.
pub trait Hasher {
    /// The algorithm this hasher computes.
    spec fn spec_algorithm(&self) -> HashAlgorithm;

    fn hash(&self, data: &[u8]) -> (r: Hash32)
        ensures
            r@ == spec_digest(self.spec_algorithm(), data@),
    ;

    fn algorithm(&self) -> (a: HashAlgorithm)
        ensures
            a == self.spec_algorithm(),
    ;
}

/// SHA-256.
#[derive(Debug, Clone, Copy)]
pub struct Sha256Hasher;

impl Hasher for Sha256Hasher {
    open spec fn spec_algorithm(&self) -> HashAlgorithm {
        HashAlgorithm::Sha256
    }

    fn hash(&self, data: &[u8]) -> (r: Hash32) {
        sha256_bytes(data)
    }

    fn algorithm(&self) -> (a: HashAlgorithm) {
        HashAlgorithm::Sha256
    }
}

/// BLAKE3.
#[derive(Debug, Clone, Copy)]
pub struct Blake3Hasher;

impl Hasher for Blake3Hasher {
    open spec fn spec_algorithm(&self) -> HashAlgorithm {
        HashAlgorithm::Blake3
    }

    fn hash(&self, data: &[u8]) -> (r: Hash32) {
        blake3_bytes(data)
    }

    fn algorithm(&self) -> (a: HashAlgorithm) {
        HashAlgorithm::Blake3
    }
}

/// An algorithm is itself a hasher for that algorithm.
impl Hasher for HashAlgorithm {
    open spec fn spec_algorithm(&self) -> HashAlgorithm {
        *self
    }

    fn hash(&self, data: &[u8]) -> (r: Hash32) {
        self.digest(data)
    }

    fn algorithm(&self) -> (a: HashAlgorithm) {
        *self
    }
}

/// The hasher a policy names: the parsed algorithm, or the parse error.
pub fn hasher_for(alg: &str) -> (r: CoreResult<HashAlgorithm>)
    ensures
        parse_algorithm_ok(alg@, r),
{
    HashAlgorithm::parse(alg)
}

/// The identity hash, content hash and fingerprint of a record, from its salt
/// and its two canonical encodings.
pub open spec fn spec_fingerprint_hashes(
    alg: HashAlgorithm,
    salt: Seq<u8>,
    id_canon: Seq<u8>,
    content_canon: Seq<u8>,
) -> (Seq<u8>, Seq<u8>, Seq<u8>) {
    let id_hash = spec_digest(alg, salt + seq![TAG_ID_HASH] + id_canon);
    let content_hash = spec_digest(alg, salt + seq![TAG_CONTENT_HASH] + content_canon);
    (id_hash, content_hash, spec_digest(alg, seq![TAG_FINGERPRINT] + id_hash + content_hash))
}

/// The digest gives 32 bytes, and no two different 65-byte inputs share a
/// digest (the inputs of a fingerprint: a tag and two 32-byte hashes).
pub open spec fn digest_injective_65(alg: HashAlgorithm) -> bool {
    &&& forall|d: Seq<u8>| (#[trigger] spec_digest(alg, d)).len() == 32
    &&& forall|a: Seq<u8>, b: Seq<u8>|
        a.len() == 65 && b.len() == 65 && #[trigger] spec_digest(alg, a) == #[trigger] spec_digest(
            alg,
            b,
        ) ==> a == b
}

/// The fingerprint commits to both hashes: under a digest without
/// collisions on fingerprint inputs, two records with the same fingerprint
/// have the same identity hash and the same content hash; so a change of
/// content (a different content hash) changes the fingerprint, whatever the
/// identity.
pub proof fn law_fingerprint_commits_to_content(
    alg: HashAlgorithm,
    salt1: Seq<u8>,
    id_canon1: Seq<u8>,
    content_canon1: Seq<u8>,
    salt2: Seq<u8>,
    id_canon2: Seq<u8>,
    content_canon2: Seq<u8>,
)
    requires
        digest_injective_65(alg),
    ensures
        ({
            let h1 = spec_fingerprint_hashes(alg, salt1, id_canon1, content_canon1);
            let h2 = spec_fingerprint_hashes(alg, salt2, id_canon2, content_canon2);
            h1.2 == h2.2 ==> h1.0 == h2.0 && h1.1 == h2.1
        }),
{
    let h1 = spec_fingerprint_hashes(alg, salt1, id_canon1, content_canon1);
    let h2 = spec_fingerprint_hashes(alg, salt2, id_canon2, content_canon2);
    let a = seq![TAG_FINGERPRINT] + h1.0 + h1.1;
    let b = seq![TAG_FINGERPRINT] + h2.0 + h2.1;
    if h1.2 == h2.2 {
        assert(spec_digest(alg, a) == h1.2);
        assert(spec_digest(alg, b) == h2.2);
        assert(h1.0.len() == 32 && h1.1.len() == 32 && h2.0.len() == 32 && h2.1.len() == 32);
        assert(a == b);
        assert(h1.0 =~= a.subrange(1, 33));
        assert(h2.0 =~= b.subrange(1, 33));
        assert(h1.1 =~= a.subrange(33, 65));
        assert(h2.1 =~= b.subrange(33, 65));
    }
}

/// Salted identity hash, content hash and their combined fingerprint.
pub fn fingerprint_hashes<H: Hasher>(
    hasher: &H,
    salt: &[u8],
    id_canon: &[u8],
    content_canon: &[u8],
) -> (r: (Hash32, Hash32, Hash32))
    ensures
        (r.0@, r.1@, r.2@) == spec_fingerprint_hashes(
            hasher.spec_algorithm(),
            salt@,
            id_canon@,
            content_canon@,
        ),
{
    let mut id_input: Vec<u8> = Vec::new();
    push_slice(&mut id_input, salt);
    id_input.push(TAG_ID_HASH);
    push_slice(&mut id_input, id_canon);
    assert(id_input@ =~= salt@ + seq![TAG_ID_HASH] + id_canon@);
    let id_hash = hasher.hash(id_input.as_slice());

    let mut content_input: Vec<u8> = Vec::new();
    push_slice(&mut content_input, salt);
    content_input.push(TAG_CONTENT_HASH);
    push_slice(&mut content_input, content_canon);
    assert(content_input@ =~= salt@ + seq![TAG_CONTENT_HASH] + content_canon@);
    let content_hash = hasher.hash(content_input.as_slice());

    let mut fp_input: Vec<u8> = Vec::new();
    fp_input.push(TAG_FINGERPRINT);
    push_slice(&mut fp_input, id_hash.as_slice());
    push_slice(&mut fp_input, content_hash.as_slice());
    assert(fp_input@ =~= seq![TAG_FINGERPRINT] + id_hash@ + content_hash@);
    let fp = hasher.hash(fp_input.as_slice());

    (id_hash, content_hash, fp)
}

} // verus!
