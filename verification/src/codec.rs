//! Digests and encodings: BLAKE3 of contents, SHA-256 of plans, base64 of edit bytes.

use crate::errors::{refusal, ErrorKind, VcError, VcResult};
use base64::Engine;
use sha2::Digest;
use vstd::prelude::*;
use vstd::string::*;

verus! {

/// The lower-case hex BLAKE3 digest of `bytes`.
pub uninterp spec fn blake3_hex(bytes: Seq<u8>) -> Seq<char>;

/// The bytes that a BLAKE3 hasher has taken in so far.
pub uninterp spec fn hasher_input(h: blake3::Hasher) -> Seq<u8>;

/// The SHA-256 digest of `bytes`.
pub uninterp spec fn sha256_of(bytes: Seq<u8>) -> Seq<u8>;

/// The standard, padded base64 text of `bytes`.
pub uninterp spec fn base64_text(bytes: Seq<u8>) -> Seq<char>;

/// What decoding `text` as standard, padded base64 gives: the bytes, or what is wrong.
pub uninterp spec fn base64_decoded(text: Seq<char>) -> Result<Seq<u8>, Seq<char>>;

/// A decoding that gave `bytes`.
pub open spec fn decoded(bytes: Seq<u8>) -> Result<Seq<u8>, Seq<char>> {
    Ok(bytes)
}

/// A decoding that failed for the reason `why`.
pub open spec fn undecodable(why: Seq<char>) -> Result<Seq<u8>, Seq<char>> {
    Err(why)
}

/// The incremental hasher of the `blake3` crate.
#[verifier::external_type_specification]
#[verifier::external_body]
pub struct ExBlake3Hasher(blake3::Hasher);

/// Whether `c` is a lower-case hex digit.
pub open spec fn is_hex_digit(c: char) -> bool {
    ('0' <= c && c <= '9') || ('a' <= c && c <= 'f')
}

/// `blake3::hash` and `Hash::to_hex`: the digest is a function of the bytes, spelled in 64
/// lower-case hex digits.
#[verifier::external_body]
fn blake3_digest(bytes: &[u8]) -> (hex: String)
    ensures
        hex@ == blake3_hex(bytes@),
        hex@.len() == 64,
        forall|i: int| 0 <= i < 64 ==> is_hex_digit(#[trigger] hex@[i]),
{
    blake3::hash(bytes).to_hex().to_string()
}

/// `blake3::Hasher::new`: a hasher that has taken in nothing.
#[verifier::external_body]
fn blake3_start() -> (h: blake3::Hasher)
    ensures
        hasher_input(h) == Seq::<u8>::empty(),
{
    blake3::Hasher::new()
}

/// `blake3::Hasher::update`: the hasher has then taken in `chunk` as well.
#[verifier::external_body]
fn blake3_update(h: &mut blake3::Hasher, chunk: &[u8])
    ensures
        hasher_input(*final(h)) == hasher_input(*old(h)) + chunk@,
{
    h.update(chunk);
}

/// `blake3::Hasher::finalize` and `Hash::to_hex`: the digest of all that was taken in, the
/// same as that of the bytes in one piece, in 64 lower-case hex digits.
#[verifier::external_body]
fn blake3_finish(h: &blake3::Hasher) -> (hex: String)
    ensures
        hex@ == blake3_hex(hasher_input(*h)),
        hex@.len() == 64,
        forall|i: int| 0 <= i < 64 ==> is_hex_digit(#[trigger] hex@[i]),
{
    h.finalize().to_hex().to_string()
}

/// `sha2::Sha256`: the digest is a function of the bytes, 32 bytes long.
#[verifier::external_body]
fn sha256_digest(bytes: &[u8]) -> (digest: Vec<u8>)
    ensures
        digest@ == sha256_of(bytes@),
        digest@.len() == 32,
{
    let mut h = sha2::Sha256::new();
    h.update(bytes);
    h.finalize().to_vec()
}

/// `encode` of base64's `STANDARD` engine: the text is a function of the bytes, and the
/// same engine decodes it to them again. Encoding takes memory for four thirds of the
/// input.
#[verifier::external_body]
fn base64_encode(bytes: &[u8]) -> (text: String)
    ensures
        text@ == base64_text(bytes@),
        base64_decoded(text@) == decoded(bytes@),
{
    base64::engine::general_purpose::STANDARD.encode(bytes)
}

/// `decode` of base64's `STANDARD` engine: the bytes, or the error's own words; a function
/// of the text.
#[verifier::external_body]
fn base64_decode(text: &str) -> (r: Result<Vec<u8>, String>)
    ensures
        match r {
            Ok(bytes) => base64_decoded(text@) == decoded(bytes@),
            Err(why) => base64_decoded(text@) == undecodable(why@),
        },
{
    base64::engine::general_purpose::STANDARD.decode(text).map_err(|e| e.to_string())
}

/// The digest of contents that are at hand in one piece.
pub fn bytes_hash(bytes: &[u8]) -> (hex: String)
    ensures
        hex@ == blake3_hex(bytes@),
        hex@.len() == 64,
        forall|i: int| 0 <= i < 64 ==> is_hex_digit(#[trigger] hex@[i]),
{
    blake3_digest(bytes)
}

/// A digest in the making, for contents that arrive in chunks.
pub struct ContentHasher {
    inner: blake3::Hasher,
}

impl ContentHasher {
    /// The bytes taken in so far.
    pub closed spec fn taken(&self) -> Seq<u8> {
        hasher_input(self.inner)
    }

    /// A digest of nothing yet.
    pub fn new() -> (h: Self)
        ensures
            h.taken() == Seq::<u8>::empty(),
    {
        ContentHasher { inner: blake3_start() }
    }

    /// Takes in the next chunk.
    pub fn update(&mut self, chunk: &[u8])
        ensures
            final(self).taken() == old(self).taken() + chunk@,
    {
        blake3_update(&mut self.inner, chunk);
    }

    /// The digest of everything taken in.
    pub fn finish(&self) -> (hex: String)
        ensures
            hex@ == blake3_hex(self.taken()),
            hex@.len() == 64,
            forall|i: int| 0 <= i < 64 ==> is_hex_digit(#[trigger] hex@[i]),
    {
        blake3_finish(&self.inner)
    }
}

/// The chunks in one piece.
pub open spec fn joined_chunks(chunks: Seq<Vec<u8>>) -> Seq<u8>
    decreases chunks.len(),
{
    if chunks.len() == 0 {
        seq![]
    } else {
        joined_chunks(chunks.drop_last()) + chunks.last()@
    }
}

/// The digest of a file that was read chunk by chunk. How it was cut does not matter.
pub fn file_hash(chunks: &Vec<Vec<u8>>) -> (hex: String)
    ensures
        hex@ == blake3_hex(joined_chunks(chunks@)),
        hex@.len() == 64,
        forall|i: int| 0 <= i < 64 ==> is_hex_digit(#[trigger] hex@[i]),
{
    let mut h = ContentHasher::new();
    let mut i: usize = 0;
    while i < chunks.len()
        invariant
            i <= chunks.len(),
            h.taken() == joined_chunks(chunks@.take(i as int)),
        decreases chunks.len() - i,
    {
        h.update(chunks[i].as_slice());
        assert(chunks@.take(i + 1).drop_last() =~= chunks@.take(i as int));
        i = i + 1;
    }
    assert(chunks@.take(chunks.len() as int) =~= chunks@);
    h.finish()
}

/// The base64 text of `bytes`.
pub fn b64e(bytes: &[u8]) -> (text: String)
    ensures
        text@ == base64_text(bytes@),
        base64_decoded(text@) == decoded(bytes@),
{
    base64_encode(bytes)
}

/// The bytes that `s` encodes, or a `Malformed` refusal.
pub fn b64d(s: &str) -> (r: VcResult<Vec<u8>>)
    ensures
        match (base64_decoded(s@), r) {
            (Ok(bytes), Ok(out)) => out@ == bytes,
            (Err(why), Err(e)) => e@ == refusal(ErrorKind::Malformed, "base64: "@ + why),
            _ => false,
        },
{
    b64d_from(base64_decode(s))
}

/// The answer to a decoding result: the bytes, or a `Malformed` refusal that quotes what
/// is wrong.
pub fn b64d_from(decoded: Result<Vec<u8>, String>) -> (r: VcResult<Vec<u8>>)
    ensures
        match (decoded, r) {
            (Ok(bytes), Ok(out)) => out@ == bytes@,
            (Err(why), Err(e)) => e@ == refusal(ErrorKind::Malformed, "base64: "@ + why@),
            _ => false,
        },
{
    match decoded {
        Ok(bytes) => Ok(bytes),
        Err(why) => {
            let mut m: String = "base64: ".to_owned();
            m.append(why.as_str());
            Err(VcError::new(ErrorKind::Malformed, m))
        },
    }
}

/// The hex digit of a value below 16.
pub open spec fn hex_digit(n: nat) -> char {
    if n < 10 {
        (48 + n) as char
    } else {
        (87 + n) as char
    }
}

/// Two lower-case hex digits per byte.
pub open spec fn hex_text(bytes: Seq<u8>) -> Seq<char> {
    Seq::new(
        2 * bytes.len(),
        |i: int|
            if i % 2 == 0 {
                hex_digit(bytes[i / 2] as nat / 16)
            } else {
                hex_digit(bytes[i / 2] as nat % 16)
            },
    )
}

fn hex_digit_char(n: u8) -> (c: char)
    requires
        n < 16,
    ensures
        c == hex_digit(n as nat),
{
    if n < 10 {
        (48 + n) as char
    } else {
        (87 + n) as char
    }
}

/// `bytes` in lower-case hex.
pub fn hex_lower(bytes: &[u8]) -> (text: String)
    ensures
        text@ == hex_text(bytes@),
{
    let mut text: String = String::new();
    let mut i: usize = 0;
    while i < bytes.len()
        invariant
            i <= bytes.len(),
            text@ == hex_text(bytes@.take(i as int)),
        decreases bytes.len() - i,
    {
        text.push(hex_digit_char(bytes[i] / 16));
        text.push(hex_digit_char(bytes[i] % 16));
        assert(text@ =~= hex_text(bytes@.take(i + 1)));
        i = i + 1;
    }
    assert(bytes@.take(bytes.len() as int) =~= bytes@);
    text
}

/// Different bytes have different hex.
pub proof fn law_hex_is_injective(a: Seq<u8>, b: Seq<u8>)
    requires
        hex_text(a) == hex_text(b),
    ensures
        a == b,
{
    assert(hex_text(a).len() == 2 * a.len() && hex_text(b).len() == 2 * b.len());
    assert forall|i: int| 0 <= i < a.len() implies a[i] == b[i] by {
        assert(hex_text(a)[2 * i] == hex_text(b)[2 * i]);
        assert(hex_text(a)[2 * i + 1] == hex_text(b)[2 * i + 1]);
        assert((2 * i) / 2 == i && (2 * i + 1) / 2 == i);
        assert((2 * i) % 2 == 0 && (2 * i + 1) % 2 == 1);
        assert(hex_text(a)[2 * i] == hex_digit(a[i] as nat / 16));
        assert(hex_text(b)[2 * i] == hex_digit(b[i] as nat / 16));
        assert(hex_text(a)[2 * i + 1] == hex_digit(a[i] as nat % 16));
        assert(hex_text(b)[2 * i + 1] == hex_digit(b[i] as nat % 16));
    }
    assert(a =~= b);
}

/// The hex SHA-256 digest of `bytes`.
pub fn sha256_hex(bytes: &[u8]) -> (hex: String)
    ensures
        hex@ == hex_text(sha256_of(bytes@)),
        hex@.len() == 64,
{
    let digest = sha256_digest(bytes);
    hex_lower(digest.as_slice())
}

/// The digest of a file is of all its chunks, in order.
pub proof fn law_every_chunk_is_digested(chunks: Seq<Vec<u8>>)
    ensures
        joined_chunks(chunks) == chunks.map_values(|c: Vec<u8>| c@).flatten(),
    decreases chunks.len(),
{
    let f = |c: Vec<u8>| c@;
    let all = chunks.map_values(f);
    all.lemma_flatten_and_flatten_alt_are_equivalent();
    if chunks.len() > 0 {
        law_every_chunk_is_digested(chunks.drop_last());
        all.drop_last().lemma_flatten_and_flatten_alt_are_equivalent();
        assert(all.drop_last() =~= chunks.drop_last().map_values(f));
    }
}

} // verus!
