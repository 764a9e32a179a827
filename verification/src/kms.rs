//! Helpers of the cloud signers: digests in hex and Ed25519 public keys
//! taken out of PEM documents.

use base64::Engine;
use vstd::prelude::*;

use crate::hash::{sha256_digest, HashAlgorithm};
use crate::text::{split_on, split_str, starts_with, str_starts_with};

verus! {

/// The lowercase hex digit of a number below sixteen.
pub open spec fn hex_digit(n: int) -> char {
    if n < 10 {
        (48 + n) as char
    } else {
        (87 + n) as char
    }
}

/// Lowercase hex text of bytes: two digits per byte, high nibble first.
pub open spec fn hex_lower(b: Seq<u8>) -> Seq<char>
    decreases b.len(),
{
    if b.len() == 0 {
        Seq::empty()
    } else {
        hex_lower(b.drop_last()) + seq![hex_digit(b.last() as int / 16), hex_digit(b.last() as int % 16)]
    }
}

/// `hex::encode`: the bytes as lowercase hex, two digits per byte.
#[verifier::external_body]
fn hex_encode(data: &[u8]) -> (r: String)
    ensures
        r@ == hex_lower(data@),
{
    hex::encode(data)
}

/// The character of a six-bit value in the standard base64 alphabet.
pub open spec fn b64_char(n: int) -> char {
    if n < 26 {
        (65 + n) as char
    } else if n < 52 {
        (97 + n - 26) as char
    } else if n < 62 {
        (48 + n - 52) as char
    } else if n == 62 {
        '+'
    } else {
        '/'
    }
}

/// Standard padded base64 (RFC 4648): each group of three bytes as four
/// characters, a last group of one or two bytes padded with `=`.
pub open spec fn base64_standard(b: Seq<u8>) -> Seq<char>
    decreases b.len(),
{
    if b.len() == 0 {
        Seq::empty()
    } else if b.len() == 1 {
        seq![b64_char(b[0] as int / 4), b64_char((b[0] as int % 4) * 16), '=', '=']
    } else if b.len() == 2 {
        seq![
            b64_char(b[0] as int / 4),
            b64_char((b[0] as int % 4) * 16 + b[1] as int / 16),
            b64_char((b[1] as int % 16) * 4),
            '=',
        ]
    } else {
        seq![
            b64_char(b[0] as int / 4),
            b64_char((b[0] as int % 4) * 16 + b[1] as int / 16),
            b64_char((b[1] as int % 16) * 4 + b[2] as int / 64),
            b64_char(b[2] as int % 64),
        ] + base64_standard(b.skip(3))
    }
}

/// `Engine::encode` of base64's `STANDARD` engine: standard padded base64.
/// It panics when the encoded length overflows, which the bound rules out.
#[verifier::external_body]
fn b64_encode(data: &[u8]) -> (r: String)
    requires
        data@.len() <= 3 * (usize::MAX / 4) - 3,
    ensures
        r@ == base64_standard(data@),
{
    base64::engine::general_purpose::STANDARD.encode(data)
}

/// What decoding text with base64's `STANDARD` engine gives: the bytes, or
/// the decode error's message.
pub uninterp spec fn base64_decode(s: Seq<char>) -> Result<Seq<u8>, Seq<char>>;

/// `Engine::decode` of base64's `STANDARD` engine; on an error, its message.
#[verifier::external_body]
fn b64_decode(s: &str) -> (r: Result<Vec<u8>, String>)
    ensures
        base64_decode(s@) == (match r {
            Ok(v) => Ok::<Seq<u8>, Seq<char>>(v@),
            Err(m) => Err::<Seq<u8>, Seq<char>>(m@),
        }),
{
    match base64::engine::general_purpose::STANDARD.decode(s) {
        Ok(v) => Ok(v),
        Err(e) => Err(e.to_string()),
    }
}

/// The SHA-256 digest of bytes.
pub fn sha256(data: &[u8]) -> (r: Vec<u8>)
    ensures
        r@ == sha256_digest(data@),
{
    let d = HashAlgorithm::Sha256.digest(data);
    let mut out: Vec<u8> = Vec::new();
    crate::text::push_slice(&mut out, &d);
    assert(out@ =~= d@);
    out
}

/// The SHA-256 digest of bytes as lowercase hex.
pub fn sha256_hex(data: &[u8]) -> (r: String)
    ensures
        r@ == hex_lower(sha256_digest(data@)),
{
    let d = HashAlgorithm::Sha256.digest(data);
    hex_encode(&d)
}

/// A line without one trailing carriage return.
pub open spec fn strip_cr(l: Seq<char>) -> Seq<char> {
    if l.len() > 0 && l.last() == '\r' {
        l.drop_last()
    } else {
        l
    }
}

/// The `i`-th line of the pieces between newlines: a carriage return before
/// its newline is dropped; the last piece has no newline after it.
pub open spec fn line_at(pieces: Seq<Seq<char>>, i: int) -> Seq<char> {
    if i < pieces.len() - 1 {
        strip_cr(pieces[i])
    } else {
        pieces[i]
    }
}

/// The first `n` lines that are not `-----` markers, concatenated.
pub open spec fn pem_body_upto(pieces: Seq<Seq<char>>, n: int) -> Seq<char>
    decreases n,
{
    if n <= 0 {
        Seq::empty()
    } else {
        let l = line_at(pieces, n - 1);
        pem_body_upto(pieces, n - 1) + if starts_with(l, "-----"@) {
            Seq::empty()
        } else {
            l
        }
    }
}

/// The base64 body of a PEM document: its lines, without those that start
/// with `-----`, concatenated.
pub open spec fn pem_body(pem: Seq<char>) -> Seq<char> {
    let p = split_on(pem, '\n');
    pem_body_upto(p, p.len() as int)
}

/// The raw Ed25519 key of a PEM public key, in base64: the last 32 bytes of
/// its DER encoding; a body that is not base64, or a DER shorter than 32
/// bytes, is refused.
pub open spec fn spec_pem_ed25519_to_b64(pem: Seq<char>) -> Result<Seq<char>, Seq<char>> {
    match base64_decode(pem_body(pem)) {
        Err(m) => Err("gcp pem decode: "@ + m),
        Ok(der) => if der.len() < 32 {
            Err("gcp pem: expected Ed25519 raw key"@)
        } else {
            Ok(base64_standard(der.skip(der.len() - 32)))
        },
    }
}

/// A line of the pieces of a PEM document, as `str::lines` gives it.
fn line_of<'a>(pieces: &Vec<&'a str>, i: usize) -> (r: &'a str)
    requires
        i < pieces@.len(),
    ensures
        r@ == line_at(crate::text::str_views(pieces@), i as int),
{
    let p = pieces[i];
    if i < pieces.len() - 1 {
        let n = p.unicode_len();
        if n > 0 && p.get_char(n - 1) == '\r' {
            let r = p.substring_char(0, n - 1);
            assert(r@ =~= p@.drop_last());
            r
        } else {
            p
        }
    } else {
        p
    }
}

/// The raw Ed25519 public key of a PEM document, in base64.
pub fn pem_ed25519_to_b64(pem: &str) -> (r: Result<String, String>)
    ensures
        match spec_pem_ed25519_to_b64(pem@) {
            Ok(k) => r matches Ok(v) && v@ == k,
            Err(m) => r matches Err(e) && e@ == m,
        },
{
    let pieces = split_str(pem, '\n');
    let ghost pv = crate::text::str_views(pieces@);
    let mut body = String::new();
    let mut i: usize = 0;
    while i < pieces.len()
        invariant
            0 <= i <= pieces@.len(),
            pv == crate::text::str_views(pieces@),
            pv == split_on(pem@, '\n'),
            body@ == pem_body_upto(pv, i as int),
        decreases pieces@.len() - i,
    {
        let line = line_of(&pieces, i);
        if !str_starts_with(line, "-----") {
            body.append(line);
        }
        proof {
            reveal_strlit("");
        }
        assert(body@ =~= pem_body_upto(pv, i + 1));
        i = i + 1;
    }
    let der = match b64_decode(body.as_str()) {
        Ok(d) => d,
        Err(e) => {
            let mut m = String::from_str("gcp pem decode: ");
            m.append(e.as_str());
            return Err(m);
        },
    };
    let n = der.len();
    if n < 32 {
        return Err(String::from_str("gcp pem: expected Ed25519 raw key"));
    }
    let raw = crate::text::copy_bytes(&der.as_slice()[n - 32..n]);
    Ok(b64_encode(raw.as_slice()))
}

} // verus!
