use vstd::prelude::*;

use crate::compress::{
    compressed, decompressed, decompressible, unpacks_faithfully, CompressAlgorithm,
};
use crate::hash::{hash, md5_hex};
use crate::patch::{DiffAlgorithm, Patch};
use crate::Error;

verus! {

/// Partitions of the parallel suffix sort. Many machines have four or more
/// cores; three leaves one free for everything else.
pub const SORT_PARTITIONS: usize = 3;

/// Chunk size of the scan phase (512 KiB): larger chunks use the cores
/// less evenly, smaller ones cost memory for little gain.
pub const SCAN_CHUNK_SIZE: usize = 524288;

/// The delta that bidiff writes from `before` to `after` with the given
/// sort partitions and scan chunk size.
pub uninterp spec fn bidiff_delta(
    before: Seq<u8>,
    after: Seq<u8>,
    sort_partitions: int,
    scan_chunk_size: int,
) -> Seq<u8>;

/// The bytes that bipatch's reader produces from `base` and `delta`.
pub uninterp spec fn bipatched(base: Seq<u8>, delta: Seq<u8>) -> Seq<u8>;

/// bipatch's reader accepts `delta` against `base` and reads to the end.
pub uninterp spec fn bipatch_applies(base: Seq<u8>, delta: Seq<u8>) -> bool;

/// The inputs on which bidiff can run: it cannot scan a non-empty target
/// against an empty source, each suffix-sorted part of the source must be
/// shorter than `i32::MAX` bytes, and the target length plus the scan chunk
/// size must fit in `usize`.
pub open spec fn bidiff_accepts(before: Seq<u8>, after: Seq<u8>) -> bool {
    &&& before.len() > 0 || after.len() == 0
    &&& (before.len() as int) / (SORT_PARTITIONS as int) + 1 < i32::MAX
    &&& after.len() <= usize::MAX - SCAN_CHUNK_SIZE
}

/// Relies on `bidiff::DiffParams::new` (which refuses zero partitions and a
/// zero chunk size) and `bidiff::simple_diff_with_params`, writing into a
/// `Vec`. The partitioned suffix array of an empty source has no partition,
/// and scanning a non-empty target against it panics; the source is cut into
/// parts of `len / sort_partitions + 1` bytes, and divsufsort asserts that
/// each is shorter than `i32::MAX`; counting the scan
/// chunks adds the chunk size to the target length. `DiffParams::new` fails
/// only on zero partitions or a zero chunk size, and writing into a `Vec`
/// never fails.
#[verifier::external_body]
fn compute_delta(before: &[u8], after: &[u8], sort_partitions: usize, scan_chunk_size: usize) -> (r:
    Result<Vec<u8>, String>)
    requires
        before@.len() > 0 || after@.len() == 0,
        sort_partitions > 0,
        (before@.len() as int) / (sort_partitions as int) + 1 < i32::MAX,
        0 < scan_chunk_size <= usize::MAX - after@.len(),
    ensures
        r is Ok,
        r matches Ok(d) ==> d@ == bidiff_delta(
            before@,
            after@,
            sort_partitions as int,
            scan_chunk_size as int,
        ),
{
    let params = bidiff::DiffParams::new(sort_partitions, Some(scan_chunk_size)).map_err(
        |e| format!("failed to create diff params: {}", e),
    )?;
    let mut out = Vec::new();
    bidiff::simple_diff_with_params(before, after, &mut out, &params).map_err(
        |e| format!("failed to diff: {}", e),
    )?;
    Ok(out)
}

/// Relies on `bipatch::Reader::new` over the delta and the base, read to the
/// end into a `Vec`.
#[verifier::external_body]
fn apply_delta(base: &[u8], delta: &[u8]) -> (r: Result<Vec<u8>, String>)
    ensures
        r is Ok <==> bipatch_applies(base@, delta@),
        r matches Ok(out) ==> out@ == bipatched(base@, delta@),
{
    let mut reader = bipatch::Reader::new(delta, std::io::Cursor::new(base)).map_err(
        |e| format!("failed to create bidiff reader: {}", e),
    )?;
    let mut out = Vec::new();
    std::io::Read::read_to_end(&mut reader, &mut out).map_err(
        |e| format!("failed to copy: {}", e),
    )?;
    Ok(out)
}

/// The uncompressed bidiff delta from `before` to `after`.
pub open spec fn bidiff_delta_of(before: Seq<u8>, after: Seq<u8>) -> Seq<u8> {
    bidiff_delta(before, after, SORT_PARTITIONS as int, SCAN_CHUNK_SIZE as int)
}

/// Makes a `Bidiff1` patch from `before` to `after`.
pub fn bidiff_diff(before: &[u8], after: &[u8], compress_algorithm: CompressAlgorithm) -> (r:
    Result<Patch, Error>)
    ensures
        r matches Ok(p) ==> {
            &&& p.diff_algorithm == DiffAlgorithm::Bidiff1
            &&& p.compress_algorithm == compress_algorithm
            &&& p.before_hash@ == md5_hex(before@)
            &&& p.after_hash@ == md5_hex(after@)
            &&& p.patch@ == compressed(compress_algorithm, bidiff_delta_of(before@, after@))
        },
        r is Ok <==> bidiff_accepts(before@, after@),
        r matches Err(e) ==> e is BidiffError,
{
    if before.len() == 0 && after.len() > 0 {
        return Err(Error::BidiffError("cannot diff a non-empty target against an empty source".to_string()));
    }
    if before.len() / SORT_PARTITIONS + 1 >= i32::MAX as usize {
        return Err(Error::BidiffError("source too large to suffix-sort".to_string()));
    }
    if after.len() > usize::MAX - SCAN_CHUNK_SIZE {
        return Err(Error::BidiffError("target too large to scan".to_string()));
    }
    let delta = match compute_delta(before, after, SORT_PARTITIONS, SCAN_CHUNK_SIZE) {
        Ok(d) => d,
        Err(msg) => {
            return Err(Error::BidiffError(msg));
        },
    };
    let payload = compress_algorithm.compress(delta.as_slice())?;
    Ok(
        Patch {
            diff_algorithm: DiffAlgorithm::Bidiff1,
            compress_algorithm,
            before_hash: hash(before),
            after_hash: hash(after),
            patch: payload,
        },
    )
}

/// Applies a patch's payload to `base` as a bidiff delta, checking both
/// digests.
pub fn bidiff_apply(base: &[u8], delta: &Patch) -> (r: Result<Vec<u8>, Error>)
    ensures
        r is Ok <==> {
            &&& md5_hex(base@) == delta.before_hash@
            &&& decompressible(delta.compress_algorithm, delta.patch@)
            &&& bipatch_applies(base@, decompressed(delta.compress_algorithm, delta.patch@))
            &&& md5_hex(bipatched(base@, decompressed(delta.compress_algorithm, delta.patch@)))
                == delta.after_hash@
        },
        md5_hex(base@) != delta.before_hash@ <==> r matches Err(Error::BeforeHashMismatch),
        r matches Ok(out) ==> {
            &&& out@ == bipatched(base@, decompressed(delta.compress_algorithm, delta.patch@))
            &&& md5_hex(out@) == delta.after_hash@
        },
        md5_hex(base@) == delta.before_hash@ ==> unpacks_faithfully(
            delta.compress_algorithm,
            delta.patch@,
        ),
        r matches Err(Error::AfterHashMismatch) ==> md5_hex(
            bipatched(base@, decompressed(delta.compress_algorithm, delta.patch@)),
        ) != delta.after_hash@,
        r matches Err(e) ==> e is BeforeHashMismatch || e is AfterHashMismatch || e is BidiffError
            || e is CompressionError,
{
    let base_hash = hash(base);
    if base_hash != delta.before_hash {
        return Err(Error::BeforeHashMismatch);
    }
    let decompressed_patch = delta.compress_algorithm.decompress(delta.patch.as_slice())?;
    let out = match apply_delta(base, decompressed_patch.as_slice()) {
        Ok(out) => out,
        Err(msg) => {
            return Err(Error::BidiffError(msg));
        },
    };
    let after_hash = hash(out.as_slice());
    if after_hash != delta.after_hash {
        return Err(Error::AfterHashMismatch);
    }
    Ok(out)
}

} // verus!
