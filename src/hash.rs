use vstd::prelude::*;

verus! {

/// The lowercase hexadecimal MD5 digest of a byte sequence.
pub uninterp spec fn md5_hex(data: Seq<u8>) -> Seq<char>;

/// 32 characters, each a digit or a lowercase letter `a` to `f`.
pub open spec fn is_hex_digest(s: Seq<char>) -> bool {
    &&& s.len() == 32
    &&& forall|i: int|
        0 <= i < s.len() ==> ('0' <= #[trigger] s[i] <= '9' || 'a' <= s[i] <= 'f')
}

/// Content fingerprint of a byte blob: 32 lowercase hex characters.
///
/// Relies on `md5::compute`, rendered through its `LowerHex` impl, which
/// writes each of the 16 digest bytes as two lowercase hex digits.
#[verifier::external_body]
pub fn hash(data: &[u8]) -> (r: String)
    ensures
        r@ == md5_hex(data@),
        is_hex_digest(r@),
{
    format!("{:x}", md5::compute(data))
}

} // verus!
