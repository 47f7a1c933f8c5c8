//! Payload framing and QR metadata.
//!
//! A payload is `[4-byte big-endian length][metadata][file bytes]`. The metadata
//! travels as bytes here; what they spell is read and written at the edge.

use sha2::Digest;
use vstd::prelude::*;

use crate::constants::{ENCODING_VERSION, METADATA_FRAMES};

verus! {

// ---------------------------------------------------------------------------
// Digests
// ---------------------------------------------------------------------------

/// The SHA-256 hasher of the `sha2` crate.
#[verifier::external_type_specification]
#[verifier::external_body]
pub struct ExSha256(sha2::Sha256);

/// The bytes that a hasher has taken in, in order.
pub uninterp spec fn absorbed(hasher: sha2::Sha256) -> Seq<u8>;

/// The SHA-256 digest of `data`.
pub uninterp spec fn sha256(data: Seq<u8>) -> Seq<u8>;

/// Calls `sha2::Sha256::new`. Claimed is that a new hasher has taken in nothing.
#[verifier::external_body]
fn hasher_new() -> (hasher: sha2::Sha256)
    ensures
        absorbed(hasher) == Seq::<u8>::empty(),
{
    sha2::Sha256::new()
}

/// Calls `update` of `sha2::Sha256`. Claimed is that the hasher has then taken in
/// `data` behind what it took in before.
#[verifier::external_body]
fn hasher_update(hasher: &mut sha2::Sha256, data: &[u8])
    ensures
        absorbed(*final(hasher)) == absorbed(*old(hasher)) + data@,
{
    hasher.update(data)
}

/// SHA-256 is defined for messages of fewer bytes than this.
pub const SHA256_BYTE_LIMIT: u64 = 0x2000_0000_0000_0000;

/// Calls `finalize` of `sha2::Sha256`. Claimed is that the digest has 32 bytes
/// and depends on nothing but the bytes taken in.
#[verifier::external_body]
fn hasher_finalize(hasher: sha2::Sha256) -> (digest: Vec<u8>)
    requires
        absorbed(hasher).len() < SHA256_BYTE_LIMIT,
    ensures
        digest@ == sha256(absorbed(hasher)),
        digest@.len() == 32,
{
    hasher.finalize().to_vec()
}

/// The lowercase hexadecimal digit of `n`.
pub open spec fn hex_digit(n: int) -> char {
    if n < 10 {
        ('0' as int + n) as char
    } else {
        ('a' as int + n - 10) as char
    }
}

/// Two lowercase hexadecimal digits for each byte, high half first.
pub open spec fn hex(bytes: Seq<u8>) -> Seq<char> {
    Seq::new(
        2 * bytes.len(),
        |i: int|
            hex_digit(
                if i % 2 == 0 {
                    bytes[i / 2] as int / 16
                } else {
                    bytes[i / 2] as int % 16
                },
            ),
    )
}

/// Every byte is two digits of `0123456789abcdef`, and the digits tell the byte:
/// texts of different byte strings differ.
pub proof fn theorem_hex(bytes: Seq<u8>, i: int)
    requires
        0 <= i < bytes.len(),
    ensures
        hex(bytes).len() == 2 * bytes.len(),
        hex(bytes)[2 * i] == "0123456789abcdef"@[bytes[i] as int / 16],
        hex(bytes)[2 * i + 1] == "0123456789abcdef"@[bytes[i] as int % 16],
        forall|other: Seq<u8>| #[trigger] hex(other) == hex(bytes) ==> other == bytes,
{
    reveal_strlit("0123456789abcdef");
    assert((2 * i) / 2 == i && (2 * i) % 2 == 0);
    assert((2 * i + 1) / 2 == i && (2 * i + 1) % 2 == 1);
    assert forall|other: Seq<u8>| #[trigger] hex(other) == hex(bytes) implies other == bytes by {
        assert(hex(other).len() == hex(bytes).len());
        assert forall|k: int| 0 <= k < bytes.len() implies other[k] == bytes[k] by {
            assert(hex(other)[2 * k] == hex(bytes)[2 * k]);
            assert(hex(other)[2 * k + 1] == hex(bytes)[2 * k + 1]);
            assert((2 * k) / 2 == k && (2 * k) % 2 == 0);
            assert((2 * k + 1) / 2 == k && (2 * k + 1) % 2 == 1);
            lemma_hex_digit(other[k] as int / 16, bytes[k] as int / 16);
            lemma_hex_digit(other[k] as int % 16, bytes[k] as int % 16);
        }
        assert(other =~= bytes);
    }
}

/// Different values have different digits.
proof fn lemma_hex_digit(a: int, b: int)
    requires
        0 <= a < 16,
        0 <= b < 16,
    ensures
        hex_digit(a) == hex_digit(b) ==> a == b,
{
    let (x, y) = (hex_digit(a), hex_digit(b));
    assert(x as int == (if a < 10 {
        48 + a
    } else {
        87 + a
    }));
    assert(y as int == (if b < 10 {
        48 + b
    } else {
        87 + b
    }));
}

/// One hexadecimal digit.
fn digit_str(n: u8) -> (s: &'static str)
    requires
        n < 16,
    ensures
        s@ == seq![hex_digit(n as int)],
{
    let digits: &'static str = "0123456789abcdef";
    proof {
        reveal_strlit("0123456789abcdef");
    }
    let s: &'static str = digits.substring_char(n as usize, n as usize + 1);
    assert(s@ =~= seq![hex_digit(n as int)]);
    s
}

/// Lowercase hex of a digest, or of any byte string.
pub fn hex_digest(bytes: &[u8]) -> (s: String)
    ensures
        s@ == hex(bytes@),
{
    let mut s: String = String::new();
    let mut i: usize = 0;
    while i < bytes.len()
        invariant
            0 <= i <= bytes@.len(),
            s@ == hex(bytes@.take(i as int)),
        decreases bytes@.len() - i,
    {
        s.append(digit_str(bytes[i] / 16));
        s.append(digit_str(bytes[i] % 16));
        i = i + 1;
        assert(s@ =~= hex(bytes@.take(i as int)));
    }
    assert(bytes@.take(i as int) =~= bytes@);
    s
}

/// Lowercase hex SHA-256 digest.
pub fn sha256_hex(data: &[u8]) -> (s: String)
    requires
        data@.len() < SHA256_BYTE_LIMIT,
    ensures
        s@ == hex(sha256(data@)),
        s@.len() == 64,
{
    let mut hasher: sha2::Sha256 = hasher_new();
    hasher_update(&mut hasher, data);
    assert(absorbed(hasher) =~= data@);
    let digest: Vec<u8> = hasher_finalize(hasher);
    hex_digest(&digest)
}

/// SHA-256 taken over pieces of a file, so that the file is never held whole.
pub struct FileHasher {
    hasher: sha2::Sha256,
}

impl FileHasher {
    /// The bytes hashed so far.
    pub closed spec fn hashed(self) -> Seq<u8> {
        absorbed(self.hasher)
    }

    /// A hasher that has seen nothing.
    pub fn new() -> (h: FileHasher)
        ensures
            h.hashed() == Seq::<u8>::empty(),
    {
        FileHasher { hasher: hasher_new() }
    }

    /// Takes in the next piece.
    pub fn update(&mut self, piece: &[u8])
        ensures
            final(self).hashed() == old(self).hashed() + piece@,
    {
        hasher_update(&mut self.hasher, piece);
    }

    /// Lowercase hex digest of all pieces.
    pub fn finish(self) -> (s: String)
        requires
            self.hashed().len() < SHA256_BYTE_LIMIT,
        ensures
            s@ == hex(sha256(self.hashed())),
            s@.len() == 64,
    {
        let digest: Vec<u8> = hasher_finalize(self.hasher);
        hex_digest(&digest)
    }
}

// ---------------------------------------------------------------------------
// Framing
// ---------------------------------------------------------------------------

/// Self-describing payload metadata, stored before the file bytes.
#[derive(Debug, Clone)]
pub struct Meta {
    pub v: u32,
    pub filename: String,
    pub size: u64,
    pub sha256: String,
}

/// What [`build_meta`] calls a file whose path yields no name.
pub open spec fn fallback_name() -> Seq<char> {
    "file.bin"@
}

/// `meta` is the metadata of a file with the given name, size and content.
pub open spec fn built(meta: Meta, name: Option<Seq<char>>, size: u64, content: Seq<u8>) -> bool {
    &&& meta.v == ENCODING_VERSION
    &&& meta.filename@ == (match name {
        Some(n) => n,
        None => fallback_name(),
    })
    &&& meta.size == size
    &&& meta.sha256@ == hex(sha256(content))
}

/// Metadata is of its file: it has the file's own name where there is one, and
/// `file.bin` where there is none, its size, and the digest of its whole content.
pub proof fn theorem_built(meta: Meta, name: Option<Seq<char>>, size: u64, content: Seq<u8>)
    requires
        built(meta, name, size, content),
    ensures
        name is Some ==> meta.filename@ == name->0,
        name is None ==> meta.filename@ == "file.bin"@,
        meta.size == size,
        meta.sha256@ == hex(sha256(content)),
        meta.v == 5,
{
}

/// The metadata of a file: its name (`file.bin` where the path has none that is
/// text), its size and the digest of its content.
pub fn build_meta(name: Option<String>, size: u64, content: FileHasher) -> (meta: Meta)
    requires
        content.hashed().len() < SHA256_BYTE_LIMIT,
    ensures
        built(meta, text(name), size, content.hashed()),
        meta.v == ENCODING_VERSION,
        meta.filename@ == (match name {
            Some(n) => n@,
            None => fallback_name(),
        }),
        meta.size == size,
        meta.sha256@ == hex(sha256(content.hashed())),
{
    let filename: String = match name {
        Some(n) => n,
        None => String::from_str("file.bin"),
    };
    Meta { v: ENCODING_VERSION, filename, size, sha256: content.finish() }
}

/// The four bytes of `n`, most significant first.
pub open spec fn be_bytes(n: u32) -> Seq<u8> {
    seq![
        (n / 0x100_0000) as u8,
        (n / 0x1_0000 % 0x100) as u8,
        (n / 0x100 % 0x100) as u8,
        (n % 0x100) as u8,
    ]
}

/// The number that the first four bytes of `s` spell, most significant first.
pub open spec fn be_value(s: Seq<u8>) -> int {
    s[0] * 0x100_0000 + s[1] * 0x1_0000 + s[2] * 0x100 + s[3]
}

/// Four bytes spell the number they were written from.
pub proof fn lemma_be_round_trip(n: u32, rest: Seq<u8>)
    ensures
        be_value(be_bytes(n) + rest) == n,
{
    let s = be_bytes(n) + rest;
    assert(s[0] == be_bytes(n)[0] && s[1] == be_bytes(n)[1] && s[2] == be_bytes(n)[2] && s[3]
        == be_bytes(n)[3]);
}

/// The number that the first four bytes spell.
pub(crate) fn read_be(s: &[u8]) -> (n: u32)
    requires
        s@.len() >= 4,
    ensures
        n == be_value(s@),
{
    s[0] as u32 * 0x100_0000 + s[1] as u32 * 0x1_0000 + s[2] as u32 * 0x100 + s[3] as u32
}

/// The length that stands before `len` bytes of metadata: four bytes hold its
/// value modulo `2^32`.
pub open spec fn length_prefix(len: nat) -> Seq<u8> {
    be_bytes((len % 0x1_0000_0000) as u32)
}

/// The header of a payload with the given metadata.
pub open spec fn header_of(meta: Seq<u8>) -> Seq<u8> {
    length_prefix(meta.len()) + meta
}

/// The payload of a file with the given metadata.
pub open spec fn payload_of(meta: Seq<u8>, raw: Seq<u8>) -> Seq<u8> {
    header_of(meta) + raw
}

/// The header alone, `[4-byte length][metadata]`; the file's bytes follow it in
/// the payload.
pub fn serialize_meta_header(meta_bytes: &[u8]) -> (header: Vec<u8>)
    ensures
        header@ == header_of(meta_bytes@),
{
    let len: u32 = (meta_bytes.len() as u64 % 0x1_0000_0000) as u32;
    let mut header: Vec<u8> = Vec::new();
    header.push((len / 0x100_0000) as u8);
    header.push((len / 0x1_0000 % 0x100) as u8);
    header.push((len / 0x100 % 0x100) as u8);
    header.push((len % 0x100) as u8);
    assert(header@ =~= length_prefix(meta_bytes@.len()));
    header.extend_from_slice(meta_bytes);
    assert(header@ =~= header_of(meta_bytes@));
    header
}

/// A full payload, `[header][raw bytes]`.
pub fn assemble_payload(meta_bytes: &[u8], raw: &[u8]) -> (payload: Vec<u8>)
    ensures
        payload@ == payload_of(meta_bytes@, raw@),
{
    let mut payload: Vec<u8> = serialize_meta_header(meta_bytes);
    payload.extend_from_slice(raw);
    assert(payload@ =~= payload_of(meta_bytes@, raw@));
    payload
}

/// Why a payload yields no file.
#[derive(Debug, Clone, Copy, PartialEq, Eq)]
pub enum PayloadError {
    /// Fewer than four bytes.
    TooShortForLength,
    /// The metadata would end behind the payload.
    TooShortForMetadata,
    /// The metadata is not what a header holds.
    BadMetadata,
    /// The file would end beyond any address.
    SizeOverflow,
    /// The file would end behind the payload.
    EndedEarly,
}

/// Where the file begins in a payload of at least four bytes.
pub open spec fn file_start(payload: Seq<u8>) -> int {
    4 + be_value(payload)
}

/// The metadata inside a payload.
pub open spec fn meta_part(payload: Seq<u8>) -> Result<Seq<u8>, PayloadError> {
    if payload.len() < 4 {
        Err(PayloadError::TooShortForLength)
    } else if payload.len() < file_start(payload) {
        Err(PayloadError::TooShortForMetadata)
    } else {
        Ok(payload.subrange(4, file_start(payload)))
    }
}

/// The `size` file bytes inside a payload.
pub open spec fn whole_file(payload: Seq<u8>, size: int) -> Result<Seq<u8>, PayloadError> {
    if file_start(payload) + size > usize::MAX {
        Err(PayloadError::SizeOverflow)
    } else if payload.len() < file_start(payload) + size {
        Err(PayloadError::EndedEarly)
    } else {
        Ok(payload.subrange(file_start(payload), file_start(payload) + size))
    }
}

/// What a payload with the given metadata, if it could be read, holds. A size
/// that is known from elsewhere counts before the one in the metadata.
pub open spec fn parsed(
    payload: Seq<u8>,
    meta: Option<Meta>,
    expected_size: Option<u64>,
) -> Result<(Meta, Seq<u8>), PayloadError> {
    match (meta_part(payload), meta) {
        (Err(e), _) => Err(e),
        (Ok(_), None) => Err(PayloadError::BadMetadata),
        (Ok(_), Some(m)) => match whole_file(
            payload,
            match expected_size {
                Some(s) => s as int,
                None => m.size as int,
            },
        ) {
            Ok(f) => Ok((m, f)),
            Err(e) => Err(e),
        },
    }
}

/// The bytes of the metadata that `payload` begins with.
pub fn payload_metadata(payload: &[u8]) -> (r: Result<Vec<u8>, PayloadError>)
    ensures
        r is Ok ==> meta_part(payload@) == Ok::<Seq<u8>, PayloadError>(r->Ok_0@),
        r is Err ==> meta_part(payload@) == Err::<Seq<u8>, PayloadError>(r->Err_0),
{
    if payload.len() < 4 {
        return Err(PayloadError::TooShortForLength);
    }
    let meta_len: usize = read_be(payload) as usize;
    if payload.len() - 4 < meta_len {
        return Err(PayloadError::TooShortForMetadata);
    }
    let mut meta: Vec<u8> = Vec::new();
    meta.extend_from_slice(&payload[4..4 + meta_len]);
    assert(meta@ =~= payload@.subrange(4, 4 + meta_len));
    Ok(meta)
}

/// The metadata and the file of `payload`. `meta` is what the bytes of
/// [`payload_metadata`] spell, `None` where they spell no metadata;
/// `expected_size` overrides the size in the metadata.
pub fn parse_payload(payload: &[u8], meta: Option<Meta>, expected_size: Option<u64>) -> (r: Result<
    (Meta, Vec<u8>),
    PayloadError,
>)
    ensures
        r is Ok ==> parsed(payload@, meta, expected_size) == Ok::<(Meta, Seq<u8>), PayloadError>(
            (r->Ok_0.0, r->Ok_0.1@),
        ),
        r is Err ==> parsed(payload@, meta, expected_size) == Err::<(Meta, Seq<u8>), PayloadError>(
            r->Err_0,
        ),
{
    if payload.len() < 4 {
        return Err(PayloadError::TooShortForLength);
    }
    let meta_len: usize = read_be(payload) as usize;
    if payload.len() - 4 < meta_len {
        return Err(PayloadError::TooShortForMetadata);
    }
    let meta: Meta = match meta {
        Some(m) => m,
        None => return Err(PayloadError::BadMetadata),
    };
    let start: usize = 4 + meta_len;
    let size: u64 = match expected_size {
        Some(s) => s,
        None => meta.size,
    };
    if size > (usize::MAX - start) as u64 {
        return Err(PayloadError::SizeOverflow);
    }
    let end: usize = start + size as usize;
    if payload.len() < end {
        return Err(PayloadError::EndedEarly);
    }
    let mut file: Vec<u8> = Vec::new();
    file.extend_from_slice(&payload[start..end]);
    assert(file@ =~= payload@.subrange(start as int, end as int));
    Ok((meta, file))
}

/// The layout of a payload: four bytes with the length of the metadata, the first
/// of them worth `2^24` and the last 1, then the metadata, then the file.
pub proof fn theorem_payload_layout(meta: Seq<u8>, raw: Seq<u8>)
    requires
        meta.len() < 0x1_0000_0000,
    ensures
        ({
            let p = payload_of(meta, raw);
            &&& p.len() == 4 + meta.len() + raw.len()
            &&& p[0] * 16777216 + p[1] * 65536 + p[2] * 256 + p[3] == meta.len()
            &&& p.subrange(4, 4 + meta.len() as int) == meta
            &&& p.skip(4 + meta.len() as int) == raw
            &&& header_of(meta) == p.take(4 + meta.len() as int)
        }),
{
    let p = payload_of(meta, raw);
    let n = (meta.len() % 0x1_0000_0000) as u32;
    assert(p[0] == be_bytes(n)[0] && p[1] == be_bytes(n)[1] && p[2] == be_bytes(n)[2] && p[3]
        == be_bytes(n)[3]);
    assert(p.subrange(4, 4 + meta.len() as int) =~= meta);
    assert(p.skip(4 + meta.len() as int) =~= raw);
    assert(header_of(meta) =~= p.take(4 + meta.len() as int));
}

/// Reading a payload: what its first four bytes spell, the first worth `2^24`, is
/// the length `n` of the metadata, which stands behind them; the file stands behind
/// the metadata. A payload that ends before it has four bytes, or before its
/// metadata or its file ends, is refused, and no other.
pub proof fn theorem_payload_read(p: Seq<u8>, size: int)
    requires
        0 <= size,
        p.len() <= usize::MAX,
    ensures
        p.len() < 4 ==> meta_part(p) == Err::<Seq<u8>, PayloadError>(
            PayloadError::TooShortForLength,
        ),
        p.len() < 4 ==> file_part(p, size).len() == 0,
        p.len() >= 4 ==> {
            let n = p[0] * 16777216 + p[1] * 65536 + p[2] * 256 + p[3];
            &&& meta_part(p) == (if p.len() < 4 + n {
                Err::<Seq<u8>, PayloadError>(PayloadError::TooShortForMetadata)
            } else {
                Ok(p.subrange(4, 4 + n))
            })
            &&& whole_file(p, size) is Ok <==> 4 + n + size <= p.len()
            &&& 4 + n + size <= p.len() ==> whole_file(p, size) == Ok::<Seq<u8>, PayloadError>(
                p.subrange(4 + n, 4 + n + size),
            )
            &&& 4 + n + size <= p.len() ==> file_part(p, size) == p.subrange(4 + n, 4 + n + size)
            &&& p.len() < 4 + n + size ==> file_part(p, size) == (if p.len() <= 4 + n {
                Seq::<u8>::empty()
            } else {
                p.skip(4 + n)
            })
            &&& p.len() < 4 + n + size <= usize::MAX ==> whole_file(p, size) == Err::<
                Seq<u8>,
                PayloadError,
            >(PayloadError::EndedEarly)
            &&& 4 + n + size > usize::MAX ==> whole_file(p, size) == Err::<
                Seq<u8>,
                PayloadError,
            >(PayloadError::SizeOverflow)
        },
{
    if p.len() >= 4 {
        let n = p[0] * 16777216 + p[1] * 65536 + p[2] * 256 + p[3];
        assert(file_start(p) == 4 + n);
        if 4 + n + size <= p.len() {
            assert(file_part(p, size) =~= p.subrange(4 + n, 4 + n + size));
        }
    }
}

/// A payload with its metadata read gives the metadata and the file whose size is
/// known from elsewhere or, failing that, stands in the metadata; without metadata
/// it gives nothing.
pub proof fn theorem_parsed(p: Seq<u8>, m: Meta, known: Option<u64>)
    ensures
        meta_part(p) is Ok ==> parsed(p, None, known) == Err::<(Meta, Seq<u8>), PayloadError>(
            PayloadError::BadMetadata,
        ),
        meta_part(p) is Err ==> parsed(p, Some(m), known) is Err && parsed(p, None, known) is Err,
        meta_part(p) is Ok ==> {
            let size = if known is Some {
                known->0
            } else {
                m.size
            };
            &&& (parsed(p, Some(m), known) is Ok) == (whole_file(p, size as int) is Ok)
            &&& parsed(p, Some(m), known) is Ok ==> parsed(p, Some(m), known)->Ok_0 == (
                m,
                whole_file(p, size as int)->Ok_0,
            )
        },
{
}

/// QR metadata is of use where it names the file, its size and its digest, whatever
/// else it tells or leaves out.
pub proof fn theorem_complete(m: QrMeta)
    ensures
        complete(m) <==> (m.filename is Some && m.size is Some && m.sha256 is Some),
{
}

/// Metadata is read off the beginning: texts that begin alike, as far as the
/// header of one of them reaches, hold the same metadata.
pub proof fn lemma_same_metadata(text: Seq<u8>, payload: Seq<u8>, q: int)
    requires
        meta_part(payload) is Ok,
        file_start(payload) <= q <= payload.len(),
        q <= text.len(),
        text.take(q) == payload.take(q),
    ensures
        file_start(text) == file_start(payload),
        meta_part(text) == meta_part(payload),
{
    let end = file_start(payload);
    assert forall|i: int| 0 <= i < q implies payload[i] == #[trigger] text[i] by {
        assert(text.take(q)[i] == text[i]);
        assert(payload.take(q)[i] == payload[i]);
    }
    assert(file_start(text) == end);
    assert(text.subrange(4, end) =~= payload.subrange(4, end));
}

/// Taking a payload apart gives back what it was put together from, whatever
/// stands behind it, for metadata whose length four bytes can hold: the metadata,
/// and as many of the bytes that follow it as are asked for.
pub proof fn theorem_padded_payload(meta: Seq<u8>, raw: Seq<u8>, pad: Seq<u8>, k: int)
    requires
        meta.len() < 0x1_0000_0000,
        4 + meta.len() + raw.len() + pad.len() <= usize::MAX,
        0 <= k <= raw.len() + pad.len(),
    ensures
        meta_part(payload_of(meta, raw) + pad) == Ok::<Seq<u8>, PayloadError>(meta),
        whole_file(payload_of(meta, raw) + pad, k) == Ok::<Seq<u8>, PayloadError>(
            (raw + pad).take(k),
        ),
        file_part(payload_of(meta, raw) + pad, k) == (raw + pad).take(k),
        forall|m: Meta, size: Option<u64>|
            (match size {
                Some(s) => s as int,
                None => m.size as int,
            }) == k ==> #[trigger] parsed(payload_of(meta, raw) + pad, Some(m), size) == Ok::<
                (Meta, Seq<u8>),
                PayloadError,
            >((m, (raw + pad).take(k))),
{
    let p = payload_of(meta, raw) + pad;
    let rest = raw + pad;
    lemma_be_round_trip(meta.len() as u32, meta + rest);
    assert(p =~= be_bytes(meta.len() as u32) + (meta + rest));
    assert(file_start(p) == 4 + meta.len());
    assert(p.subrange(4, file_start(p)) =~= meta);
    assert(p.subrange(file_start(p), file_start(p) + k) =~= rest.take(k));
    assert(file_part(p, k) =~= rest.take(k));
}

/// Taking a payload apart gives back what it was put together from, for
/// metadata whose length four bytes can hold.
pub proof fn theorem_payload_round_trip(meta: Seq<u8>, raw: Seq<u8>)
    requires
        meta.len() < 0x1_0000_0000,
        4 + meta.len() + raw.len() <= usize::MAX,
    ensures
        meta_part(payload_of(meta, raw)) == Ok::<Seq<u8>, PayloadError>(meta),
        whole_file(payload_of(meta, raw), raw.len() as int) == Ok::<Seq<u8>, PayloadError>(raw),
        file_part(payload_of(meta, raw), raw.len() as int) == raw,
        forall|m: Meta|
            m.size == raw.len() ==> #[trigger] parsed(payload_of(meta, raw), Some(m), None) == Ok::<
                (Meta, Seq<u8>),
                PayloadError,
            >((m, raw)),
{
    let p = payload_of(meta, raw);
    let none = Seq::<u8>::empty();
    theorem_padded_payload(meta, raw, none, raw.len() as int);
    assert(p + none =~= p);
    assert((raw + none).take(raw.len() as int) =~= raw);
}

// ---------------------------------------------------------------------------
// QR metadata
// ---------------------------------------------------------------------------

/// Compact decoder metadata carried by the QR frames.
#[derive(Debug, Clone)]
pub struct QrMeta {
    pub version: Option<u32>,
    pub filename: Option<String>,
    pub size: Option<u64>,
    pub sha256: Option<String>,
    pub ecc_bytes: Option<u64>,
    pub frames: Option<u64>,
    pub index_bits: Option<u32>,
    pub metadata_frames: Option<u64>,
}

impl Default for QrMeta {
    /// Metadata that says nothing.
    fn default() -> (m: QrMeta)
        ensures
            m == (QrMeta {
                version: None,
                filename: None,
                size: None,
                sha256: None,
                ecc_bytes: None,
                frames: None,
                index_bits: None,
                metadata_frames: None,
            }),
    {
        QrMeta {
            version: None,
            filename: None,
            size: None,
            sha256: None,
            ecc_bytes: None,
            frames: None,
            index_bits: None,
            metadata_frames: None,
        }
    }
}

/// The text of an optional string.
pub open spec fn text(s: Option<String>) -> Option<Seq<char>> {
    match s {
        Some(t) => Some(t@),
        None => None,
    }
}

/// `qr` tells all of an encoded file and its stream.
pub open spec fn describes(
    qr: QrMeta,
    meta: Meta,
    ecc_len: u64,
    num_frames: u64,
    index_bits: u32,
) -> bool {
    &&& qr.version == Some(ENCODING_VERSION)
    &&& text(qr.filename) == Some(meta.filename@)
    &&& qr.size == Some(meta.size)
    &&& text(qr.sha256) == Some(meta.sha256@)
    &&& qr.ecc_bytes == Some(ecc_len)
    &&& qr.frames == Some(num_frames)
    &&& qr.index_bits == Some(index_bits)
    &&& qr.metadata_frames == Some(METADATA_FRAMES as u64)
}

/// The QR metadata of a file names the file, its size and its digest, and the length,
/// the frames and the index width of its stream, just as they are; it is complete.
pub proof fn theorem_describes(
    qr: QrMeta,
    meta: Meta,
    ecc_len: u64,
    num_frames: u64,
    index_bits: u32,
)
    requires
        describes(qr, meta, ecc_len, num_frames, index_bits),
    ensures
        complete(qr),
        qr.filename is Some && qr.filename->0@ == meta.filename@,
        qr.sha256 is Some && qr.sha256->0@ == meta.sha256@,
        qr.size == Some(meta.size),
        qr.ecc_bytes == Some(ecc_len),
        qr.frames == Some(num_frames),
        qr.index_bits == Some(index_bits),
        qr.version == Some(5u32),
        qr.metadata_frames == Some(30u64),
{
}

/// The QR metadata of an encoded file.
pub fn build_qr_metadata(meta: &Meta, ecc_len: usize, num_frames: u64, index_bits: usize) -> (qr:
    QrMeta)
    ensures
        describes(qr, *meta, ecc_len as u64, num_frames, index_bits as u32),
        qr.version == Some(ENCODING_VERSION),
        text(qr.filename) == Some(meta.filename@),
        qr.size == Some(meta.size),
        text(qr.sha256) == Some(meta.sha256@),
        qr.ecc_bytes == Some(ecc_len as u64),
        qr.frames == Some(num_frames),
        qr.index_bits == Some(index_bits as u32),
        qr.metadata_frames == Some(METADATA_FRAMES as u64),
        complete(qr),
{
    QrMeta {
        version: Some(ENCODING_VERSION),
        filename: Some(meta.filename.clone()),
        size: Some(meta.size),
        sha256: Some(meta.sha256.clone()),
        ecc_bytes: Some(ecc_len as u64),
        frames: Some(num_frames),
        index_bits: Some(index_bits as u32),
        metadata_frames: Some(METADATA_FRAMES as u64),
    }
}

/// The fields without which QR metadata is of no use.
pub open spec fn complete(meta: QrMeta) -> bool {
    meta.filename is Some && meta.size is Some && meta.sha256 is Some
}

/// QR metadata is accepted where its text could be read and the file's name,
/// size and digest are there.
pub fn parse_qr_meta(read: Option<QrMeta>) -> (r: Option<QrMeta>)
    ensures
        r == (match read {
            Some(m) => if complete(m) {
                Some(m)
            } else {
                None
            },
            None => None,
        }),
{
    match read {
        Some(m) => if m.filename.is_some() && m.size.is_some() && m.sha256.is_some() {
            Some(m)
        } else {
            None
        },
        None => None,
    }
}

/// A text by its view is the text, if there is one.
pub proof fn theorem_text(s: Option<String>)
    ensures
        text(s) is Some <==> s is Some,
        s is Some ==> text(s) == Some(s->0@),
{
}

// ---------------------------------------------------------------------------
// Streaming a payload to a file
// ---------------------------------------------------------------------------

/// Of the payload bytes that begin with `fed`, the file bytes among them: what
/// stands behind the header, up to `size` bytes.
pub open spec fn file_part(fed: Seq<u8>, size: int) -> Seq<u8> {
    if fed.len() < 4 || fed.len() <= file_start(fed) {
        Seq::empty()
    } else if fed.len() - file_start(fed) <= size {
        fed.skip(file_start(fed))
    } else {
        fed.subrange(file_start(fed), file_start(fed) + size)
    }
}

/// There are no more file bytes than payload bytes, nor than the file has.
pub proof fn lemma_file_part_len(fed: Seq<u8>, size: int)
    requires
        0 <= size,
    ensures
        file_part(fed, size).len() <= fed.len(),
        file_part(fed, size).len() <= size,
{
    if fed.len() >= 4 {
        assert(fed[0] >= 0 && fed[1] >= 0 && fed[2] >= 0 && fed[3] >= 0);
    }
}

/// In the header there are no file bytes.
proof fn lemma_in_header(fed: Seq<u8>, size: int)
    requires
        fed.len() < 4 || fed.len() <= file_start(fed),
    ensures
        file_part(fed, size) == Seq::<u8>::empty(),
{
}

/// The next file bytes are those of the next piece that stand behind the header,
/// as far as the file goes.
proof fn lemma_next_file_bytes(fed: Seq<u8>, piece: Seq<u8>, at: int, n: int, size: int)
    requires
        0 <= size,
        0 <= at <= piece.len(),
        fed.len() + piece.len() >= 4,
        if fed.len() >= 4 && fed.len() >= file_start(fed) {
            at == 0
        } else {
            fed.len() + at == file_start(fed + piece)
        },
        n == (if piece.len() - at <= size - file_part(fed, size).len() {
            piece.len() - at
        } else {
            size - file_part(fed, size).len()
        }),
    ensures
        0 <= n,
        file_part(fed + piece, size) == file_part(fed, size) + piece.subrange(at, at + n),
{
    let all = fed + piece;
    lemma_file_part_len(fed, size);
    if fed.len() >= 4 {
        assert(be_value(all) == be_value(fed));
    }
    assert(all[0] >= 0 && all[1] >= 0 && all[2] >= 0 && all[3] >= 0);
    assert(file_part(all, size) =~= file_part(fed, size) + piece.subrange(at, at + n));
}

/// How far into the header a [`PayloadSink`] is.
#[derive(Debug)]
enum HeaderState {
    ReadingLenPrefix { have: Vec<u8> },
    SkippingMeta { remaining: usize },
    Streaming,
}

/// Finds the file bytes in a payload that comes in pieces, and hashes them: the
/// header is skipped, and what follows the file is dropped. Nothing of the file
/// is kept.
pub struct PayloadSink {
    state: HeaderState,
    hasher: sha2::Sha256,
    bytes_written: u64,
    remaining_file_bytes: u64,
    fed: Ghost<Seq<u8>>,
}

/// A file written completely, with its digest.
#[derive(Debug)]
pub struct FinishedPayload {
    pub sha256: String,
    pub bytes_written: u64,
}

/// What a sink hands out: nothing of the length and of the metadata, and of what stands
/// behind them the first bytes, each at its place, until the file is complete.
pub proof fn theorem_sink(sink: PayloadSink, i: int)
    requires
        sink.expected_size() >= 0,
    ensures
        ({
            let fed = sink.fed();
            let start = 4 + fed[0] * 16777216 + fed[1] * 65536 + fed[2] * 256 + fed[3];
            let out = sink.written();
            &&& fed.len() < 4 || fed.len() <= start ==> out.len() == 0
            &&& fed.len() >= 4 && fed.len() > start ==> out.len() == (if fed.len() - start
                <= sink.expected_size() {
                fed.len() - start
            } else {
                sink.expected_size()
            })
            &&& 0 <= i < out.len() ==> out[i] == fed[start + i]
        }),
{
}

impl PayloadSink {
    /// The payload bytes taken in so far.
    pub closed spec fn fed(self) -> Seq<u8> {
        self.fed@
    }

    /// The size of the file.
    pub closed spec fn expected_size(self) -> int {
        self.bytes_written + self.remaining_file_bytes
    }

    /// The file bytes handed out so far.
    pub open spec fn written(self) -> Seq<u8> {
        file_part(self.fed(), self.expected_size())
    }

    /// The state of the sink says how far the payload has come.
    pub closed spec fn wf(self) -> bool {
        &&& self.expected_size() <= u64::MAX
        &&& self.written().len() == self.bytes_written
        &&& absorbed(self.hasher) == self.written()
        &&& match self.state {
            HeaderState::ReadingLenPrefix { have } => have@ == self.fed@ && have@.len() < 4,
            HeaderState::SkippingMeta { remaining } => self.fed@.len() >= 4 && self.fed@.len()
                + remaining == file_start(self.fed@),
            HeaderState::Streaming => self.fed@.len() >= 4 && self.fed@.len() >= file_start(
                self.fed@,
            ),
        }
    }

    /// A sink that waits for the first byte of a payload whose file has
    /// `expected_size` bytes.
    pub fn new(expected_size: u64) -> (sink: PayloadSink)
        ensures
            sink.wf(),
            sink.fed() == Seq::<u8>::empty(),
            sink.expected_size() == expected_size,
    {
        PayloadSink {
            state: HeaderState::ReadingLenPrefix { have: Vec::new() },
            hasher: hasher_new(),
            bytes_written: 0,
            remaining_file_bytes: expected_size,
            fed: Ghost(Seq::empty()),
        }
    }

    /// How many file bytes have been handed out.
    pub fn bytes_written(&self) -> (n: u64)
        requires
            self.wf(),
        ensures
            n == self.written().len(),
            n <= self.expected_size(),
    {
        self.bytes_written
    }

    /// Takes in the next piece of the payload and returns the file bytes in it.
    #[verifier::spinoff_prover]
    pub fn feed<'a>(&mut self, chunk: &'a [u8]) -> (out: &'a [u8])
        requires
            old(self).wf(),
        ensures
            final(self).wf(),
            final(self).fed() == old(self).fed() + chunk@,
            final(self).expected_size() == old(self).expected_size(),
            final(self).written() == old(self).written() + out@,
    {
        let ghost before = self.fed@;
        let ghost after = before + chunk@;
        let ghost written = self.written();
        let ghost size = self.expected_size();
        let mut at: usize = 0;
        proof {
            self.fed@ = after;
        }
        if let HeaderState::ReadingLenPrefix { have } = &mut self.state {
            while at < chunk.len() && have.len() < 4
                invariant
                    at <= chunk@.len(),
                    have@ == before + chunk@.take(at as int),
                    have@.len() <= 4,
                decreases chunk@.len() - at,
            {
                have.push(chunk[at]);
                at = at + 1;
                assert(have@ =~= before + chunk@.take(at as int));
            }
            if have.len() < 4 {
                assert(have@ =~= after);
                proof {
                    lemma_in_header(after, size);
                }
                return &chunk[at..chunk.len()];
            }
            let meta_len: u32 = read_be(have);
            assert(have@ =~= after.take(4));
            assert(be_value(have@) == be_value(after));
            self.state = HeaderState::SkippingMeta { remaining: meta_len as usize };
            assert(written =~= Seq::<u8>::empty());
        }
        assert(before.len() >= 4 ==> be_value(after) == be_value(before));
        if let HeaderState::SkippingMeta { remaining } = self.state {
            assert(before.len() + at + remaining == file_start(after));
            assert(written =~= Seq::<u8>::empty());
            if chunk.len() - at < remaining {
                self.state = HeaderState::SkippingMeta { remaining: remaining - (chunk.len() - at) };
                proof {
                    lemma_in_header(after, size);
                }
                return &chunk[chunk.len()..chunk.len()];
            }
            at = at + remaining;
            self.state = HeaderState::Streaming;
        }
        let left: usize = chunk.len() - at;
        let take: usize = if left as u64 <= self.remaining_file_bytes {
            left
        } else {
            self.remaining_file_bytes as usize
        };
        let out: &'a [u8] = &chunk[at..at + take];
        hasher_update(&mut self.hasher, out);
        self.bytes_written = self.bytes_written + take as u64;
        self.remaining_file_bytes = self.remaining_file_bytes - take as u64;
        proof {
            lemma_next_file_bytes(before, chunk@, at as int, take as int, size);
        }
        out
    }

    /// The digest and the length of the file bytes that were handed out.
    pub fn finish(self) -> (f: FinishedPayload)
        requires
            self.wf(),
            self.written().len() < SHA256_BYTE_LIMIT,
        ensures
            f.sha256@ == hex(sha256(self.written())),
            f.bytes_written == self.written().len(),
            f.bytes_written <= self.expected_size(),
    {
        let digest: Vec<u8> = hasher_finalize(self.hasher);
        FinishedPayload { sha256: hex_digest(&digest), bytes_written: self.bytes_written }
    }
}

} // verus!
