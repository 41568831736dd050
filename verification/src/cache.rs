//! The on-disk cache of fetched records: which file holds which kind, when
//! its contents are too old, and the length-prefixed frame that holds them.

use vstd::prelude::*;

verus! {

/// The file that holds cached developers.
pub const CACHE_DEV_FILE: &'static str = "cache_dev.json";

/// The file that holds cached repositories.
pub const CACHE_REPO_FILE: &'static str = "cache_repo.json";

/// The message of a cache that is too old.
pub const DATA_EXPIRED: &'static str = "Data expired";

/// The message of a cache file that holds no frame.
pub const NO_DATA: &'static str = "No data";

/// How long cached records stay fresh, in seconds (twelve hours).
pub const CACHE_TTL_SECS: u64 = 60 * 60 * 12;

/// A cache file, by the kind of records that it holds.
#[derive(Debug, Copy, Clone)]
pub enum FileName<'a> {
    CacheRepoFile(&'a str),
    CacheDevFile(&'a str),
}

impl<'a> FileName<'a> {
    /// The name of the file.
    pub fn file(&self) -> (f: &'a str)
        ensures
            f == match *self {
                FileName::CacheRepoFile(f) => f,
                FileName::CacheDevFile(f) => f,
            },
    {
        match *self {
            FileName::CacheDevFile(file) | FileName::CacheRepoFile(file) => file,
        }
    }
}

/// Whether a cache written `elapsed_secs` seconds ago is too old to use.
pub fn is_expired(elapsed_secs: u64) -> (b: bool)
    ensures
        b == (elapsed_secs > CACHE_TTL_SECS),
{
    elapsed_secs > CACHE_TTL_SECS
}

/// Whether a failure to load the cache, with message `message`, is worth
/// telling the user: any failure but an expired or empty cache.
pub fn should_report(message: &str) -> (b: bool)
    ensures
        b == (message@ != DATA_EXPIRED@ && message@ != NO_DATA@),
{
    let m = String::from_str(message);
    let expired = String::from_str(DATA_EXPIRED);
    let empty = String::from_str(NO_DATA);
    !(m == expired) && !(m == empty)
}

/// The longest payload that a frame holds: 8 MiB, the default of
/// `tokio_util`'s `LengthDelimitedCodec`.
pub open spec fn max_frame_len() -> nat {
    8 * 1024 * 1024
}

/// `n` as four bytes, most significant first.
pub open spec fn be32(n: nat) -> Seq<u8> {
    seq![
        (n / 0x100_0000 % 0x100) as u8,
        (n / 0x1_0000 % 0x100) as u8,
        (n / 0x100 % 0x100) as u8,
        (n % 0x100) as u8,
    ]
}

/// The number that four bytes spell, most significant first.
pub open spec fn be32_value(b: Seq<u8>) -> nat {
    (b[0] as nat) * 0x100_0000 + (b[1] as nat) * 0x1_0000 + (b[2] as nat) * 0x100 + (b[3] as nat)
}

/// `payload` as one frame: its length in four bytes, most significant
/// first, then the payload.
pub open spec fn framed(payload: Seq<u8>) -> Seq<u8> {
    be32(payload.len()) + payload
}

/// What the first frame of a file is.
pub enum FrameRead {
    /// A whole frame, with this payload.
    Frame(Seq<u8>),
    /// No frame at all.
    Nothing,
    /// A length above the frame limit.
    TooLong,
    /// Bytes that end inside the length or inside the frame.
    Truncated,
}

/// The first frame of `data`, read as `LengthDelimitedCodec::decode_eof` on a
/// fresh codec reads it: no bytes is no frame; fewer than four is cut short;
/// a length above the limit is too long; a length that the rest holds gives
/// the frame; otherwise the frame is cut short, unless nothing at all
/// follows the length, which is no frame.
pub open spec fn first_frame(data: Seq<u8>) -> FrameRead {
    if data.len() < 4 {
        if data.len() == 0 {
            FrameRead::Nothing
        } else {
            FrameRead::Truncated
        }
    } else {
        let n = be32_value(data.take(4));
        if n > max_frame_len() {
            FrameRead::TooLong
        } else if data.len() - 4 >= n {
            FrameRead::Frame(data.subrange(4, 4 + n as int))
        } else if data.len() == 4 {
            FrameRead::Nothing
        } else {
            FrameRead::Truncated
        }
    }
}

/// Why a payload cannot be framed, or a frame cannot be read.
#[derive(Debug, PartialEq, Eq, Structural)]
pub enum FrameError {
    /// The payload, or the length that a frame gives, is above the limit.
    TooLong,
    /// The bytes end inside a frame.
    Truncated,
}

/// Declares `std::io::Error`, the error of the frame codec, as an opaque type.
#[verifier::external_type_specification]
#[verifier::external_body]
pub struct ExIoError(std::io::Error);

/// Encodes `payload` as one frame with `tokio_util`'s
/// `LengthDelimitedCodec::new()` (`Encoder<&[u8]>::encode`). From that
/// codec's source: the frame is the length as four big-endian bytes followed
/// by the payload, and a payload longer than the default limit of 8 MiB is
/// refused with an error.
#[verifier::external_body]
fn codec_encode(payload: &[u8]) -> (r: Result<Vec<u8>, std::io::Error>)
    ensures
        r is Ok <==> payload@.len() <= max_frame_len(),
        r matches Ok(bytes) ==> bytes@ == framed(payload@),
{
    let mut codec = tokio_util::codec::LengthDelimitedCodec::new();
    let mut dst = bytes::BytesMut::new();
    match tokio_util::codec::Encoder::<&[u8]>::encode(&mut codec, payload, &mut dst) {
        Ok(()) => Ok(dst.to_vec()),
        Err(e) => Err(e),
    }
}

/// Decodes the first frame of `data` with `tokio_util`'s
/// `LengthDelimitedCodec::new()` and `Decoder::decode_eof`, as a framed read
/// of a file whose bytes are `data` yields its first item. From that codec's
/// source, the outcome is [`first_frame`]: `Ok(Some(_))` for a frame,
/// `Ok(None)` for nothing, an error for a length above the limit or bytes
/// cut short. What the error says is left unsaid.
#[verifier::external_body]
fn codec_decode_first(data: &[u8]) -> (r: Result<Option<Vec<u8>>, std::io::Error>)
    ensures
        match r {
            Ok(Some(p)) => first_frame(data@) == FrameRead::Frame(p@),
            Ok(None) => first_frame(data@) == FrameRead::Nothing,
            Err(_) => first_frame(data@) is TooLong || first_frame(data@) is Truncated,
        },
{
    let mut codec = tokio_util::codec::LengthDelimitedCodec::new();
    let mut src = bytes::BytesMut::from(data);
    match tokio_util::codec::Decoder::decode_eof(&mut codec, &mut src) {
        Ok(Some(frame)) => Ok(Some(frame.to_vec())),
        Ok(None) => Ok(None),
        Err(e) => Err(e),
    }
}

/// Frames `payload` for the cache file: its length in four bytes, most
/// significant first, then the payload; too long above the frame limit.
pub fn frame(payload: &[u8]) -> (r: Result<Vec<u8>, FrameError>)
    ensures
        payload@.len() <= max_frame_len() ==> (r matches Ok(bytes) && bytes@ == framed(payload@)),
        payload@.len() > max_frame_len() ==> r == Err::<Vec<u8>, FrameError>(FrameError::TooLong),
{
    match codec_encode(payload) {
        Ok(bytes) => Ok(bytes),
        Err(_) => Err(FrameError::TooLong),
    }
}

/// The length that the first four bytes of `data` give.
fn length_field(data: &[u8]) -> (n: u64)
    requires
        data@.len() >= 4,
    ensures
        n == be32_value(data@.take(4)),
{
    (data[0] as u64) * 0x100_0000 + (data[1] as u64) * 0x1_0000 + (data[2] as u64) * 0x100 + (data[3] as u64)
}

/// The first frame of the cache file's bytes `data`: `Ok(Some(payload))`
/// for a whole frame, `Ok(None)` for none, and an error for a length above
/// the frame limit or bytes cut short, as [`first_frame`] says.
pub fn read_frame(data: &[u8]) -> (r: Result<Option<Vec<u8>>, FrameError>)
    ensures
        match first_frame(data@) {
            FrameRead::Frame(p) => (r matches Ok(Some(v)) && v@ == p),
            FrameRead::Nothing => r matches Ok(None),
            FrameRead::TooLong => r == Err::<Option<Vec<u8>>, FrameError>(FrameError::TooLong),
            FrameRead::Truncated => r == Err::<Option<Vec<u8>>, FrameError>(FrameError::Truncated),
        },
{
    match codec_decode_first(data) {
        Ok(Some(p)) => Ok(Some(p)),
        Ok(None) => Ok(None),
        Err(_) => {
            if data.len() >= 4 && length_field(data) > 8 * 1024 * 1024 {
                Err(FrameError::TooLong)
            } else {
                Err(FrameError::Truncated)
            }
        },
    }
}

/// The length field gives back the length it was made from.
pub proof fn lemma_be32_roundtrip(n: nat)
    requires
        n < 0x1_0000_0000,
    ensures
        be32_value(be32(n)) == n,
{
    let b = be32(n);
    assert(b[0] as nat == n / 0x100_0000 % 0x100);
    assert(b[1] as nat == n / 0x1_0000 % 0x100);
    assert(b[2] as nat == n / 0x100 % 0x100);
    assert(b[3] as nat == n % 0x100);
    assert((n / 0x100_0000 % 0x100) * 0x100_0000 + (n / 0x1_0000 % 0x100) * 0x1_0000 + (n / 0x100
        % 0x100) * 0x100 + n % 0x100 == n) by (nonlinear_arith)
        requires
            n < 0x1_0000_0000,
    ;
}

/// Reading the first frame of what framing a payload wrote gives back that
/// payload, for every payload within the frame limit.
pub proof fn lemma_frame_roundtrip(payload: Seq<u8>)
    requires
        payload.len() <= max_frame_len(),
    ensures
        first_frame(framed(payload)) == FrameRead::Frame(payload),
{
    let data = framed(payload);
    lemma_be32_roundtrip(payload.len());
    assert(data.take(4) == be32(payload.len()));
    assert(data.subrange(4, 4 + payload.len() as int) == payload);
}

} // verus!
