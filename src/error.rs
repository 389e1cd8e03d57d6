use vstd::prelude::*;

verus! {

#[verifier::external_type_specification]
#[verifier::external_body]
pub struct ExRsyncDiffError(fast_rsync::DiffError);

#[verifier::external_type_specification]
#[verifier::external_body]
pub struct ExRsyncApplyError(fast_rsync::ApplyError);

/// Everything that can go wrong while making or applying a patch.
#[derive(Debug)]
pub enum Error {
    /// The signature/rolling-hash codec could not compute a delta.
    RsyncDiffError(fast_rsync::DiffError),
    /// The signature/rolling-hash codec could not apply a delta.
    RsyncApplyError(fast_rsync::ApplyError),
    /// The suffix-array codec failed; the message says where.
    BidiffError(String),
    /// The source blob or archive does not have the digest the patch expects.
    BeforeHashMismatch,
    /// The reconstructed blob does not have the digest the patch expects.
    AfterHashMismatch,
    /// The operations of a patch set do not have their recorded digest.
    OperationsHashMismatch,
    /// Reading or writing bytes failed.
    IoError(String),
    /// An archive could not be read or written.
    ZipError(String),
    /// Compressing or decompressing a payload failed.
    CompressionError(String),
    /// Bytes handed to a decoder are not the encoding of a value.
    DeserializeError,
}

} // verus!
