use vstd::prelude::*;

use crate::compress::{
    compressed, decompressed, decompressible, unpacks_faithfully, CompressAlgorithm,
};
use crate::hash::{hash, md5_hex};
use crate::patch::{DiffAlgorithm, Patch};
use crate::Error;

verus! {

/// Signature block size; part of the patch format.
pub const RSYNC_BLOCK_SIZE: u32 = 1024;

/// Bytes of the per-block strong hash kept in the signature; part of the
/// patch format.
pub const RSYNC_CRYPTO_HASH_SIZE: u32 = 16;

/// The delta that fast_rsync writes for `after` against the signature of
/// `before` made with the given block and hash sizes.
pub uninterp spec fn rsync_delta(
    before: Seq<u8>,
    after: Seq<u8>,
    block_size: int,
    crypto_hash_size: int,
) -> Seq<u8>;

/// The bytes that fast_rsync rebuilds from `base` and `delta`.
pub uninterp spec fn rsync_patched(base: Seq<u8>, delta: Seq<u8>) -> Seq<u8>;

/// `fast_rsync::apply` accepts `delta` against `base`.
pub uninterp spec fn rsync_applies(base: Seq<u8>, delta: Seq<u8>) -> bool;

/// Relies on `fast_rsync::Signature::calculate` (which asserts a positive
/// block size and a hash size of at most 16, MD4's length, and always makes
/// an MD4 signature), its `index`, and `fast_rsync::diff`, writing into a
/// `Vec`. `diff` fails only on a signature that is not MD4, a hash size over
/// 16, or a failed write, none of which can happen here.
#[verifier::external_body]
fn compute_delta(before: &[u8], after: &[u8], block_size: u32, crypto_hash_size: u32) -> (r:
    Result<Vec<u8>, fast_rsync::DiffError>)
    requires
        block_size > 0,
        crypto_hash_size <= 16,
    ensures
        r is Ok,
        r matches Ok(d) ==> d@ == rsync_delta(
            before@,
            after@,
            block_size as int,
            crypto_hash_size as int,
        ),
{
    let options = fast_rsync::SignatureOptions { block_size, crypto_hash_size };
    let signature = fast_rsync::Signature::calculate(before, options);
    let mut out = Vec::new();
    fast_rsync::diff(&signature.index(), after, &mut out)?;
    Ok(out)
}

/// Relies on `fast_rsync::apply`, appending to an empty `Vec`.
#[verifier::external_body]
fn apply_delta(base: &[u8], delta: &[u8]) -> (r: Result<Vec<u8>, fast_rsync::ApplyError>)
    ensures
        r is Ok <==> rsync_applies(base@, delta@),
        r matches Ok(out) ==> out@ == rsync_patched(base@, delta@),
{
    let mut out = Vec::new();
    fast_rsync::apply(base, delta, &mut out)?;
    Ok(out)
}

/// The uncompressed rsync delta of `after` against `before`.
pub open spec fn rsync_delta_of(before: Seq<u8>, after: Seq<u8>) -> Seq<u8> {
    rsync_delta(before, after, RSYNC_BLOCK_SIZE as int, RSYNC_CRYPTO_HASH_SIZE as int)
}

/// Makes a `Rsync020` patch from `before` to `after`.
pub fn rsync_diff(before: &[u8], after: &[u8], compress_algorithm: CompressAlgorithm) -> (r:
    Result<Patch, Error>)
    ensures
        r is Ok,
        r matches Ok(p) ==> {
            &&& p.diff_algorithm == DiffAlgorithm::Rsync020
            &&& p.compress_algorithm == compress_algorithm
            &&& p.before_hash@ == md5_hex(before@)
            &&& p.after_hash@ == md5_hex(after@)
            &&& p.patch@ == compressed(compress_algorithm, rsync_delta_of(before@, after@))
        },
{
    let delta = match compute_delta(before, after, RSYNC_BLOCK_SIZE, RSYNC_CRYPTO_HASH_SIZE) {
        Ok(d) => d,
        Err(e) => {
            return Err(Error::RsyncDiffError(e));
        },
    };
    let payload = compress_algorithm.compress(delta.as_slice())?;
    Ok(
        Patch {
            diff_algorithm: DiffAlgorithm::Rsync020,
            compress_algorithm,
            before_hash: hash(before),
            after_hash: hash(after),
            patch: payload,
        },
    )
}

/// Applies a `Rsync020` patch to `base`, checking both digests.
pub fn rsync_apply(base: &[u8], delta: &Patch) -> (r: Result<Vec<u8>, Error>)
    requires
        delta.diff_algorithm == DiffAlgorithm::Rsync020,
    ensures
        r is Ok <==> {
            &&& md5_hex(base@) == delta.before_hash@
            &&& decompressible(delta.compress_algorithm, delta.patch@)
            &&& rsync_applies(base@, decompressed(delta.compress_algorithm, delta.patch@))
            &&& md5_hex(rsync_patched(base@, decompressed(delta.compress_algorithm, delta.patch@)))
                == delta.after_hash@
        },
        md5_hex(base@) != delta.before_hash@ <==> r matches Err(Error::BeforeHashMismatch),
        r matches Ok(out) ==> {
            &&& out@ == rsync_patched(
                base@,
                decompressed(delta.compress_algorithm, delta.patch@),
            )
            &&& md5_hex(out@) == delta.after_hash@
        },
        md5_hex(base@) == delta.before_hash@ ==> unpacks_faithfully(
            delta.compress_algorithm,
            delta.patch@,
        ),
        r matches Err(Error::AfterHashMismatch) ==> md5_hex(
            rsync_patched(base@, decompressed(delta.compress_algorithm, delta.patch@)),
        ) != delta.after_hash@,
        r matches Err(e) ==> e is BeforeHashMismatch || e is AfterHashMismatch || e is RsyncApplyError
            || e is CompressionError,
{
    let base_hash = hash(base);
    if base_hash != delta.before_hash {
        return Err(Error::BeforeHashMismatch);
    }
    let decompressed_patch = delta.compress_algorithm.decompress(delta.patch.as_slice())?;
    let out = match apply_delta(base, decompressed_patch.as_slice()) {
        Ok(out) => out,
        Err(e) => {
            return Err(Error::RsyncApplyError(e));
        },
    };
    let after_hash = hash(out.as_slice());
    if after_hash != delta.after_hash {
        return Err(Error::AfterHashMismatch);
    }
    Ok(out)
}

} // verus!
