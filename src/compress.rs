use vstd::prelude::*;

use crate::Error;

verus! {

/// Zstandard level used for every compressed payload (the maximum).
pub const ZSTD_COMPRESSION_LEVEL: i32 = 21;

/// The bytes of the zstd frame that `zstd::stream::encode_all` produces for
/// `data` at `level`.
pub uninterp spec fn zstd_encoded(data: Seq<u8>, level: int) -> Seq<u8>;

/// The bytes that `zstd::stream::decode_all` recovers from `frame`.
pub uninterp spec fn zstd_decoded(frame: Seq<u8>) -> Seq<u8>;

/// `zstd::stream::decode_all` accepts `frame`.
pub uninterp spec fn zstd_decodes(frame: Seq<u8>) -> bool;

/// How a patch payload is compressed before it is stored.
#[derive(Debug, PartialEq, Eq, Structural, Clone, Copy, Hash)]
pub enum CompressAlgorithm {
    /// The payload is stored as it is.
    Uncompressed,
    /// The payload is a zstd frame made at the maximum level.
    Zstd,
}

/// What `compress` returns on success.
pub open spec fn compressed(algo: CompressAlgorithm, data: Seq<u8>) -> Seq<u8> {
    match algo {
        CompressAlgorithm::Uncompressed => data,
        CompressAlgorithm::Zstd => zstd_encoded(data, ZSTD_COMPRESSION_LEVEL as int),
    }
}

/// What `decompress` returns on success.
pub open spec fn decompressed(algo: CompressAlgorithm, payload: Seq<u8>) -> Seq<u8> {
    match algo {
        CompressAlgorithm::Uncompressed => payload,
        CompressAlgorithm::Zstd => zstd_decoded(payload),
    }
}

/// `decompress` succeeds on `payload`.
pub open spec fn decompressible(algo: CompressAlgorithm, payload: Seq<u8>) -> bool {
    match algo {
        CompressAlgorithm::Uncompressed => true,
        CompressAlgorithm::Zstd => zstd_decodes(payload),
    }
}

/// Decompressing `payload` succeeds and gives back whatever data compressed
/// to it: zstd is lossless.
pub open spec fn unpacks_faithfully(algo: CompressAlgorithm, payload: Seq<u8>) -> bool {
    algo is Zstd ==> forall|data: Seq<u8>, level: int|
        #[trigger] zstd_encoded(data, level) == payload ==> zstd_decodes(payload)
            && zstd_decoded(payload) == data
}

/// Relies on `zstd::stream::encode_all`: one zstd frame of `data` at `level`.
/// Reading from a slice and writing into a `Vec` cannot fail, and levels 1
/// to 22 are valid, so the encoder succeeds.
#[verifier::external_body]
fn zstd_encode(data: &[u8], level: i32) -> (r: Result<Vec<u8>, String>)
    requires
        1 <= level <= 22,
    ensures
        r is Ok,
        r is Ok ==> r->Ok_0@ == zstd_encoded(data@, level as int),
{
    zstd::stream::encode_all(data, level).map_err(|e| e.to_string())
}

/// Relies on `zstd::stream::decode_all`: the bytes held in the frames of
/// `frame`. Zstd is lossless, so a frame that `encode_all` made decodes to the
/// data it was made from.
#[verifier::external_body]
fn zstd_decode(frame: &[u8]) -> (r: Result<Vec<u8>, String>)
    ensures
        r is Ok <==> zstd_decodes(frame@),
        r matches Ok(data) ==> data@ == zstd_decoded(frame@),
        forall|orig: Seq<u8>, level: int|
            #[trigger] zstd_encoded(orig, level) == frame@ ==> r is Ok && r->Ok_0@ == orig,
{
    zstd::stream::decode_all(frame).map_err(|e| e.to_string())
}

/// A fresh vector holding the bytes of `input`.
pub fn copy_bytes(input: &[u8]) -> (r: Vec<u8>)
    ensures
        r@ == input@,
{
    let mut out: Vec<u8> = Vec::with_capacity(input.len());
    let mut i: usize = 0;
    while i < input.len()
        invariant
            i <= input@.len(),
            out@ == input@.subrange(0, i as int),
        decreases input@.len() - i,
    {
        out.push(input[i]);
        i = i + 1;
    }
    assert(out@ == input@);
    out
}

impl CompressAlgorithm {
    /// Compresses `input` with this algorithm; `Uncompressed` copies it.
    pub fn compress(self, input: &[u8]) -> (r: Result<Vec<u8>, Error>)
        ensures
            r matches Ok(out) && out@ == compressed(self, input@),
    {
        match self {
            CompressAlgorithm::Uncompressed => Ok(copy_bytes(input)),
            CompressAlgorithm::Zstd => match zstd_encode(input, ZSTD_COMPRESSION_LEVEL) {
                Ok(frame) => Ok(frame),
                Err(msg) => Err(Error::CompressionError(msg)),
            },
        }
    }

    /// Reverses `compress`; `Uncompressed` copies the input.
    pub fn decompress(self, input: &[u8]) -> (r: Result<Vec<u8>, Error>)
        ensures
            r is Ok <==> decompressible(self, input@),
            r matches Ok(out) ==> out@ == decompressed(self, input@),
            unpacks_faithfully(self, input@),
            r matches Err(e) ==> e is CompressionError,
    {
        match self {
            CompressAlgorithm::Uncompressed => Ok(copy_bytes(input)),
            CompressAlgorithm::Zstd => match zstd_decode(input) {
                Ok(data) => Ok(data),
                Err(msg) => Err(Error::CompressionError(msg)),
            },
        }
    }
}

} // verus!
