//! Binary deltas between byte blobs and between ZIP archives, with digests
//! that tie every patch to the exact source it was made from.
use vstd::prelude::*;

pub mod archive;
pub mod bd;
pub mod codec;
pub mod compress;
pub mod error;
pub mod hash;
pub mod patch;
pub mod rsync;

pub use archive::{apply_archive, diff_archives, get_directories_of_file, process_directory};
pub use compress::CompressAlgorithm;
pub use error::Error;
pub use hash::hash;
pub use patch::{DiffAlgorithm, Operation, Operations, Patch, PatchSet, PatchView};

use bd::{bidiff_accepts, bidiff_apply, bidiff_delta_of, bidiff_diff, bipatch_applies, bipatched};
use compress::{
    compressed, decompressed, decompressible, unpacks_faithfully, zstd_encoded,
    ZSTD_COMPRESSION_LEVEL,
};
use hash::md5_hex;
use rsync::{rsync_applies, rsync_apply, rsync_delta_of, rsync_diff, rsync_patched};

verus! {

/// The uncompressed delta that codec `algo` makes from `before` to `after`.
pub open spec fn delta_of(algo: DiffAlgorithm, before: Seq<u8>, after: Seq<u8>) -> Seq<u8> {
    match algo {
        DiffAlgorithm::Rsync020 => rsync_delta_of(before, after),
        DiffAlgorithm::Bidiff1 => bidiff_delta_of(before, after),
    }
}

/// The bytes that the codec named in `p` rebuilds from `base` and the
/// decompressed payload.
pub open spec fn reconstructed(base: Seq<u8>, p: PatchView) -> Seq<u8> {
    let d = decompressed(p.compress_algorithm, p.patch);
    match p.diff_algorithm {
        DiffAlgorithm::Rsync020 => rsync_patched(base, d),
        DiffAlgorithm::Bidiff1 => bipatched(base, d),
    }
}

/// The inputs on which `diff` succeeds: the rsync codec takes any pair, the
/// bidiff codec the pairs of `bidiff_accepts`.
pub open spec fn diff_possible(algo: DiffAlgorithm, before: Seq<u8>, after: Seq<u8>) -> bool {
    match algo {
        DiffAlgorithm::Rsync020 => true,
        DiffAlgorithm::Bidiff1 => bidiff_accepts(before, after),
    }
}

/// The codec named in `p` accepts the decompressed payload against `base`.
pub open spec fn codec_applies(base: Seq<u8>, p: PatchView) -> bool {
    let d = decompressed(p.compress_algorithm, p.patch);
    match p.diff_algorithm {
        DiffAlgorithm::Rsync020 => rsync_applies(base, d),
        DiffAlgorithm::Bidiff1 => bipatch_applies(base, d),
    }
}

/// `apply(base, p)` succeeds: the source digest matches, the payload
/// decompresses, the codec accepts it, and the rebuilt bytes have the target
/// digest.
pub open spec fn applies(base: Seq<u8>, p: PatchView) -> bool {
    &&& md5_hex(base) == p.before_hash
    &&& decompressible(p.compress_algorithm, p.patch)
    &&& codec_applies(base, p)
    &&& md5_hex(reconstructed(base, p)) == p.after_hash
}

/// `p` is the patch that `diff(before, after, algo, c)` returns on success.
pub open spec fn is_diff_of(
    before: Seq<u8>,
    after: Seq<u8>,
    algo: DiffAlgorithm,
    c: CompressAlgorithm,
    p: PatchView,
) -> bool {
    &&& p.diff_algorithm == algo
    &&& p.compress_algorithm == c
    &&& p.before_hash == md5_hex(before)
    &&& p.after_hash == md5_hex(after)
    &&& p.patch == compressed(c, delta_of(algo, before, after))
}

/// `r` is an outcome that `apply(base, p)` may have: the source digest is
/// checked first, and only bytes with the recorded target digest come back.
pub open spec fn is_apply_outcome(base: Seq<u8>, p: PatchView, r: Result<Vec<u8>, Error>) -> bool {
    &&& (r is Ok <==> applies(base, p))
    &&& (md5_hex(base) != p.before_hash <==> (r is Err && r->Err_0 is BeforeHashMismatch))
    &&& r is Ok ==> {
        &&& r->Ok_0@ == reconstructed(base, p)
        &&& md5_hex(r->Ok_0@) == p.after_hash
    }
    &&& md5_hex(base) == p.before_hash ==> unpacks_faithfully(p.compress_algorithm, p.patch)
    &&& (r is Err && r->Err_0 is AfterHashMismatch) ==> md5_hex(reconstructed(base, p))
        != p.after_hash
    &&& r is Err ==> {
        ||| r->Err_0 is BeforeHashMismatch
        ||| r->Err_0 is AfterHashMismatch
        ||| r->Err_0 is RsyncApplyError
        ||| r->Err_0 is BidiffError
        ||| r->Err_0 is CompressionError
    }
}

/// Makes a patch from `before` to `after` with codec `diff_algorithm`,
/// compressing its payload with `compress_algorithm`.
pub fn diff(
    before: &[u8],
    after: &[u8],
    diff_algorithm: DiffAlgorithm,
    compress_algorithm: CompressAlgorithm,
) -> (r: Result<Patch, Error>)
    ensures
        r is Ok <==> diff_possible(diff_algorithm, before@, after@),
        r matches Ok(p) ==> is_diff_of(before@, after@, diff_algorithm, compress_algorithm, p@),
        r matches Err(e) ==> e is BidiffError,
{
    match diff_algorithm {
        DiffAlgorithm::Rsync020 => rsync_diff(before, after, compress_algorithm),
        DiffAlgorithm::Bidiff1 => bidiff_diff(before, after, compress_algorithm),
    }
}

/// Applies `patch` to `base` with the codec named in the patch, checking
/// the source digest before and the target digest after.
pub fn apply(base: &[u8], patch: &Patch) -> (r: Result<Vec<u8>, Error>)
    ensures
        is_apply_outcome(base@, patch@, r),
{
    match patch.diff_algorithm {
        DiffAlgorithm::Rsync020 => rsync_apply(base, patch),
        DiffAlgorithm::Bidiff1 => bidiff_apply(base, patch),
    }
}

/// A patch records the digests of the blobs it was made from and for.
pub proof fn lemma_patch_carries_digests(
    before: Seq<u8>,
    after: Seq<u8>,
    algo: DiffAlgorithm,
    c: CompressAlgorithm,
    p: PatchView,
)
    requires
        is_diff_of(before, after, algo, c, p),
    ensures
        p.before_hash == md5_hex(before),
        p.after_hash == md5_hex(after),
{
}

/// Applying a patch to the blob it was made from never fails the source
/// check, and whatever it returns is what the codec rebuilt and carries the
/// digest of the target blob.
pub proof fn lemma_own_source_yields_target_digest(
    before: Seq<u8>,
    after: Seq<u8>,
    algo: DiffAlgorithm,
    c: CompressAlgorithm,
    p: PatchView,
    r: Result<Vec<u8>, Error>,
)
    requires
        is_diff_of(before, after, algo, c, p),
        is_apply_outcome(before, p, r),
    ensures
        !(r matches Err(Error::BeforeHashMismatch)),
        r matches Ok(out) ==> md5_hex(out@) == md5_hex(after) && out@ == reconstructed(before, p),
{
}

/// A patch applied to a blob whose digest differs from its source's fails
/// with `BeforeHashMismatch`.
pub proof fn lemma_wrong_source_rejected(
    before: Seq<u8>,
    other: Seq<u8>,
    after: Seq<u8>,
    algo: DiffAlgorithm,
    c: CompressAlgorithm,
    p: PatchView,
    r: Result<Vec<u8>, Error>,
)
    requires
        is_diff_of(before, after, algo, c, p),
        md5_hex(other) != md5_hex(before),
        is_apply_outcome(other, p, r),
    ensures
        r matches Err(Error::BeforeHashMismatch),
{
}

/// Changing one byte of a payload cannot make `apply` return bytes other than
/// ones with the recorded target digest.
pub proof fn lemma_altered_payload_never_yields_wrong_digest(
    base: Seq<u8>,
    p: PatchView,
    i: int,
    b: u8,
    r: Result<Vec<u8>, Error>,
)
    requires
        0 <= i < p.patch.len(),
        b != p.patch[i],
        is_apply_outcome(base, PatchView { patch: p.patch.update(i, b), ..p }, r),
    ensures
        r matches Ok(out) ==> md5_hex(out@) == p.after_hash,
{
}

/// For one source, target and codec, applying the compressed and the
/// uncompressed patch either both fail or both rebuild the same bytes.
pub proof fn lemma_compression_transparent(
    before: Seq<u8>,
    after: Seq<u8>,
    algo: DiffAlgorithm,
    plain: PatchView,
    packed: PatchView,
    r_plain: Result<Vec<u8>, Error>,
    r_packed: Result<Vec<u8>, Error>,
)
    requires
        is_diff_of(before, after, algo, CompressAlgorithm::Uncompressed, plain),
        is_diff_of(before, after, algo, CompressAlgorithm::Zstd, packed),
        is_apply_outcome(before, plain, r_plain),
        is_apply_outcome(before, packed, r_packed),
    ensures
        r_plain is Ok <==> r_packed is Ok,
        r_plain is Ok ==> r_plain->Ok_0@ == r_packed->Ok_0@,
{
    let d = delta_of(algo, before, after);
    assert(zstd_encoded(d, ZSTD_COMPRESSION_LEVEL as int) == packed.patch);
    assert(decompressed(packed.compress_algorithm, packed.patch) == d);
    assert(reconstructed(before, plain) == reconstructed(before, packed));
    assert(codec_applies(before, plain) == codec_applies(before, packed));
}

} // verus!
