use vstd::prelude::*;

use crate::compress::CompressAlgorithm;

verus! {

/// Number of bytes a two-variant tag occupies in memory.
pub const TAG_SIZE: usize = 1;

/// The codec that produced a patch; applying dispatches on it.
#[derive(Debug, PartialEq, Eq, Structural, Clone, Copy, Hash)]
pub enum DiffAlgorithm {
    /// Signature/rolling-hash delta, as made by fast_rsync 0.2.0.
    Rsync020,
    /// Suffix-array bidirectional delta, format version 1.
    Bidiff1,
}

/// A self-describing delta from one blob to another, tagged with the digests
/// of both.
#[derive(Debug, Clone, PartialEq, Eq)]
pub struct Patch {
    /// Codec that made `patch`.
    pub diff_algorithm: DiffAlgorithm,
    /// Compression applied to `patch` after the codec.
    pub compress_algorithm: CompressAlgorithm,
    /// Digest of the source blob.
    pub before_hash: String,
    /// Digest of the target blob.
    pub after_hash: String,
    /// The (possibly compressed) delta payload.
    pub patch: Vec<u8>,
}

/// The mathematical value of a `Patch`.
pub struct PatchView {
    pub diff_algorithm: DiffAlgorithm,
    pub compress_algorithm: CompressAlgorithm,
    pub before_hash: Seq<char>,
    pub after_hash: Seq<char>,
    pub patch: Seq<u8>,
}

impl View for Patch {
    type V = PatchView;

    open spec fn view(&self) -> PatchView {
        PatchView {
            diff_algorithm: self.diff_algorithm,
            compress_algorithm: self.compress_algorithm,
            before_hash: self.before_hash@,
            after_hash: self.after_hash@,
            patch: self.patch@,
        }
    }
}

/// Length in bytes of the UTF-8 encoding of `s`.
pub open spec fn utf8_len(s: Seq<char>) -> nat {
    vstd::utf8::encode_utf8(s).len()
}

/// The size that `Patch::get_size` reports.
pub open spec fn patch_size(p: PatchView) -> int {
    p.patch.len() + utf8_len(p.before_hash) + utf8_len(p.after_hash) + 2 * TAG_SIZE as int
}

/// Byte length of a string, as `str::len` gives it.
pub fn str_len(s: &String) -> (r: usize)
    ensures
        r == utf8_len(s@),
{
    s.as_str().as_bytes().len()
}

impl Patch {
    /// Payload length plus the two digest strings plus the two tags.
    pub fn get_size(&self) -> (r: usize)
        requires
            patch_size(self@) <= usize::MAX,
        ensures
            r == patch_size(self@),
    {
        self.patch.len() + str_len(&self.before_hash) + str_len(&self.after_hash) + TAG_SIZE
            + TAG_SIZE
    }
}

/// What happens to one archive member.
#[derive(Debug, Clone, PartialEq, Eq)]
pub enum Operation {
    /// The member is in both archives with different contents.
    Patch(Patch),
    /// The member is only in the target; these are its contents.
    PutFile(Vec<u8>),
    /// The member is only in the source.
    DeleteFile,
    /// The member is in both archives with the same contents.
    FileStaysSame,
}

/// The mathematical value of an `Operation`.
pub enum OperationView {
    Patch(PatchView),
    PutFile(Seq<u8>),
    DeleteFile,
    FileStaysSame,
}

impl View for Operation {
    type V = OperationView;

    open spec fn view(&self) -> OperationView {
        match self {
            Operation::Patch(p) => OperationView::Patch(p@),
            Operation::PutFile(f) => OperationView::PutFile(f@),
            Operation::DeleteFile => OperationView::DeleteFile,
            Operation::FileStaysSame => OperationView::FileStaysSame,
        }
    }
}

/// The size that `Operation::get_size` reports.
pub open spec fn operation_size(op: OperationView) -> int {
    match op {
        OperationView::Patch(p) => patch_size(p),
        OperationView::PutFile(f) => f.len() as int,
        OperationView::DeleteFile => 0,
        OperationView::FileStaysSame => 0,
    }
}

impl Operation {
    /// The size of the data this operation carries.
    pub fn get_size(&self) -> (r: usize)
        requires
            operation_size(self@) <= usize::MAX,
        ensures
            r == operation_size(self@),
    {
        match self {
            Operation::Patch(patch) => patch.get_size(),
            Operation::PutFile(file) => file.len(),
            Operation::DeleteFile => 0,
            Operation::FileStaysSame => 0,
        }
    }
}

/// One archive member path and what happens to it.
pub type Entry = (Seq<char>, OperationView);

/// The operations of a patch set, in the order the applier emits them.
#[derive(Debug, Clone, PartialEq, Eq)]
pub struct Operations(pub Vec<(String, Operation)>);

/// The view of a list of (path, operation) pairs.
pub open spec fn entries_view(v: Seq<(String, Operation)>) -> Seq<Entry> {
    Seq::new(v.len(), |i: int| (v[i].0@, v[i].1@))
}

impl View for Operations {
    type V = Seq<Entry>;

    open spec fn view(&self) -> Seq<Entry> {
        entries_view(self.0@)
    }
}

/// An archive-level patch: operations plus the digests that guard them.
#[derive(Debug, Clone, PartialEq, Eq)]
pub struct PatchSet {
    /// What happens to each member, in emission order.
    pub operations: Operations,
    /// Digest of the whole source archive.
    pub hash_before: String,
    /// Digest of the encoded `operations`.
    pub operations_hash: String,
}

/// The mathematical value of a `PatchSet`.
pub struct PatchSetView {
    pub operations: Seq<Entry>,
    pub hash_before: Seq<char>,
    pub operations_hash: Seq<char>,
}

impl View for PatchSet {
    type V = PatchSetView;

    open spec fn view(&self) -> PatchSetView {
        PatchSetView {
            operations: self.operations@,
            hash_before: self.hash_before@,
            operations_hash: self.operations_hash@,
        }
    }
}

/// Sum of path lengths and operation sizes over `ops`.
pub open spec fn entries_size(ops: Seq<Entry>) -> int
    decreases ops.len(),
{
    if ops.len() == 0 {
        0
    } else {
        entries_size(ops.drop_last()) + utf8_len(ops.last().0) + operation_size(ops.last().1)
    }
}

/// The size that `PatchSet::get_size` reports.
pub open spec fn patch_set_size(ps: PatchSetView) -> int {
    entries_size(ps.operations) + utf8_len(ps.hash_before) + utf8_len(ps.operations_hash)
}

proof fn lemma_entries_size_prefix(ops: Seq<Entry>, i: int)
    requires
        0 <= i <= ops.len(),
    ensures
        0 <= entries_size(ops.take(i)) <= entries_size(ops),
    decreases ops.len(),
{
    if ops.len() > 0 {
        lemma_entries_size_nonneg(ops.drop_last());
        if i < ops.len() {
            assert(ops.take(i) == ops.drop_last().take(i));
            lemma_entries_size_prefix(ops.drop_last(), i);
        } else {
            assert(ops.take(i) == ops);
        }
    } else {
        assert(ops.take(i) == ops);
    }
}

proof fn lemma_entries_size_nonneg(ops: Seq<Entry>)
    ensures
        entries_size(ops) >= 0,
    decreases ops.len(),
{
    if ops.len() > 0 {
        lemma_entries_size_nonneg(ops.drop_last());
    }
}

impl PatchSet {
    /// Path lengths and operation sizes of all members, plus the two
    /// digest strings.
    pub fn get_size(&self) -> (r: usize)
        requires
            patch_set_size(self@) <= usize::MAX,
        ensures
            r == patch_set_size(self@),
    {
        let ops = &self.operations.0;
        let ghost all = self.operations@;
        let mut total: usize = 0;
        let mut i: usize = 0;
        proof {
            lemma_entries_size_prefix(all, all.len() as int);
            lemma_entries_size_nonneg(all);
        }
        while i < ops.len()
            invariant
                i <= ops@.len(),
                all == entries_view(ops@),
                total == entries_size(all.take(i as int)),
                entries_size(all) + utf8_len(self.hash_before@) + utf8_len(self.operations_hash@)
                    <= usize::MAX,
            decreases ops@.len() - i,
        {
            proof {
                lemma_entries_size_prefix(all, i + 1);
                assert(all.take(i + 1).drop_last() == all.take(i as int));
            }
            let name_len = str_len(&ops[i].0);
            let op_len = ops[i].1.get_size();
            total = total + name_len + op_len;
            i = i + 1;
        }
        proof {
            assert(all.take(i as int) == all);
        }
        total + str_len(&self.hash_before) + str_len(&self.operations_hash)
    }
}

} // verus!
