//! A stable binary encoding of patches and patch sets.
//!
//! Integers are 8 bytes, least significant first. A byte string is its
//! length followed by its bytes; a string is the byte string of its UTF-8
//! encoding. Enum variants are one tag byte, followed by their fields in
//! declaration order.
use vstd::prelude::*;
use vstd::utf8::{decode_utf8, encode_utf8, valid_utf8};

use crate::compress::CompressAlgorithm;
use crate::patch::{
    entries_view, DiffAlgorithm, Entry, Operation, OperationView, Operations, Patch, PatchSet,
    PatchSetView, PatchView,
};

verus! {

/// Eight bytes of `x`, least significant first.
pub open spec fn le_bytes(x: u64) -> Seq<u8> {
    seq![
        x as u8,
        (x >> 8u64) as u8,
        (x >> 16u64) as u8,
        (x >> 24u64) as u8,
        (x >> 32u64) as u8,
        (x >> 40u64) as u8,
        (x >> 48u64) as u8,
        (x >> 56u64) as u8,
    ]
}

/// The integer whose `le_bytes` are the first eight of `b`.
pub open spec fn le_value(b: Seq<u8>) -> u64 {
    (b[0] as u64) | ((b[1] as u64) << 8u64) | ((b[2] as u64) << 16u64) | ((b[3] as u64) << 24u64)
        | ((b[4] as u64) << 32u64) | ((b[5] as u64) << 40u64) | ((b[6] as u64) << 48u64) | ((
    b[7] as u64) << 56u64)
}

/// A byte string: its length, then its bytes.
pub open spec fn bytes_field(b: Seq<u8>) -> Seq<u8> {
    le_bytes(b.len() as u64) + b
}

/// A string: the byte string of its UTF-8 encoding.
pub open spec fn str_field(s: Seq<char>) -> Seq<u8> {
    bytes_field(encode_utf8(s))
}

/// The tag byte of a codec.
pub open spec fn diff_tag(a: DiffAlgorithm) -> u8 {
    match a {
        DiffAlgorithm::Rsync020 => 0,
        DiffAlgorithm::Bidiff1 => 1,
    }
}

/// The tag byte of a compression.
pub open spec fn compress_tag(c: CompressAlgorithm) -> u8 {
    match c {
        CompressAlgorithm::Uncompressed => 0,
        CompressAlgorithm::Zstd => 1,
    }
}

/// The encoding of a patch.
pub open spec fn patch_bytes(p: PatchView) -> Seq<u8> {
    seq![diff_tag(p.diff_algorithm), compress_tag(p.compress_algorithm)] + str_field(p.before_hash)
        + str_field(p.after_hash) + bytes_field(p.patch)
}

/// The encoding of an operation.
pub open spec fn operation_bytes(op: OperationView) -> Seq<u8> {
    match op {
        OperationView::Patch(p) => seq![0u8] + patch_bytes(p),
        OperationView::PutFile(f) => seq![1u8] + bytes_field(f),
        OperationView::DeleteFile => seq![2u8],
        OperationView::FileStaysSame => seq![3u8],
    }
}

/// The encoding of one (path, operation) pair.
pub open spec fn entry_bytes(e: Entry) -> Seq<u8> {
    str_field(e.0) + operation_bytes(e.1)
}

/// The encodings of `s`, one after the other.
pub open spec fn entries_bytes(s: Seq<Entry>) -> Seq<u8>
    decreases s.len(),
{
    if s.len() == 0 {
        Seq::empty()
    } else {
        entry_bytes(s[0]) + entries_bytes(s.skip(1))
    }
}

/// The encoding of a list of operations: its length, then its entries.
pub open spec fn operations_bytes(s: Seq<Entry>) -> Seq<u8> {
    le_bytes(s.len() as u64) + entries_bytes(s)
}

/// The encoding of a patch set.
pub open spec fn patch_set_bytes(ps: PatchSetView) -> Seq<u8> {
    operations_bytes(ps.operations) + str_field(ps.hash_before) + str_field(ps.operations_hash)
}

proof fn lemma_entries_bytes_push(s: Seq<Entry>, e: Entry)
    ensures
        entries_bytes(s.push(e)) == entries_bytes(s) + entry_bytes(e),
    decreases s.len(),
{
    if s.len() == 0 {
        assert(s.push(e).skip(1) =~= Seq::<Entry>::empty());
        assert(s.push(e)[0] == e);
        assert(entries_bytes(s.push(e).skip(1)) == Seq::<u8>::empty());
        assert(entries_bytes(s) == Seq::<u8>::empty());
        assert(entries_bytes(s.push(e)) =~= entry_bytes(e));
    } else {
        assert(s.push(e).skip(1) =~= s.skip(1).push(e));
        lemma_entries_bytes_push(s.skip(1), e);
        assert(s.push(e)[0] == s[0]);
        assert(entries_bytes(s.push(e)) =~= entries_bytes(s) + entry_bytes(e));
    }
}

fn push_slice(out: &mut Vec<u8>, s: &[u8])
    ensures
        final(out)@ == old(out)@ + s@,
{
    let mut i: usize = 0;
    while i < s.len()
        invariant
            i <= s@.len(),
            out@ == old(out)@ + s@.subrange(0, i as int),
        decreases s@.len() - i,
    {
        out.push(s[i]);
        i = i + 1;
        assert(out@ =~= old(out)@ + s@.subrange(0, i as int));
    }
    assert(s@.subrange(0, i as int) =~= s@);
}

fn push_u64(out: &mut Vec<u8>, x: u64)
    ensures
        final(out)@ == old(out)@ + le_bytes(x),
{
    out.push(x as u8);
    out.push((x >> 8u64) as u8);
    out.push((x >> 16u64) as u8);
    out.push((x >> 24u64) as u8);
    out.push((x >> 32u64) as u8);
    out.push((x >> 40u64) as u8);
    out.push((x >> 48u64) as u8);
    out.push((x >> 56u64) as u8);
    assert(out@ =~= old(out)@ + le_bytes(x));
}

fn push_bytes(out: &mut Vec<u8>, b: &[u8])
    ensures
        final(out)@ == old(out)@ + bytes_field(b@),
        fits(b@),
{
    push_u64(out, b.len() as u64);
    push_slice(out, b);
    assert(out@ =~= old(out)@ + bytes_field(b@));
}

fn push_str(out: &mut Vec<u8>, s: &String)
    ensures
        final(out)@ == old(out)@ + str_field(s@),
        fits(encode_utf8(s@)),
{
    push_bytes(out, s.as_str().as_bytes());
}

fn push_patch(out: &mut Vec<u8>, p: &Patch)
    ensures
        final(out)@ == old(out)@ + patch_bytes(p@),
        patch_fits(p@),
{
    let d: u8 = match p.diff_algorithm {
        DiffAlgorithm::Rsync020 => 0,
        DiffAlgorithm::Bidiff1 => 1,
    };
    let c: u8 = match p.compress_algorithm {
        CompressAlgorithm::Uncompressed => 0,
        CompressAlgorithm::Zstd => 1,
    };
    out.push(d);
    out.push(c);
    push_str(out, &p.before_hash);
    push_str(out, &p.after_hash);
    push_bytes(out, p.patch.as_slice());
    assert(out@ =~= old(out)@ + patch_bytes(p@));
}

fn push_operation(out: &mut Vec<u8>, op: &Operation)
    ensures
        final(out)@ == old(out)@ + operation_bytes(op@),
        operation_fits(op@),
{
    match op {
        Operation::Patch(p) => {
            out.push(0);
            push_patch(out, p);
        },
        Operation::PutFile(f) => {
            out.push(1);
            push_bytes(out, f.as_slice());
        },
        Operation::DeleteFile => {
            out.push(2);
        },
        Operation::FileStaysSame => {
            out.push(3);
        },
    }
    assert(out@ =~= old(out)@ + operation_bytes(op@));
}

fn push_operations(out: &mut Vec<u8>, ops: &Vec<(String, Operation)>)
    ensures
        final(out)@ == old(out)@ + operations_bytes(entries_view(ops@)),
        entries_fit(entries_view(ops@)),
{
    let ghost all = entries_view(ops@);
    push_u64(out, ops.len() as u64);
    let ghost start = out@;
    let mut i: usize = 0;
    assert(all.take(0) =~= Seq::<Entry>::empty());
    assert(start =~= start + entries_bytes(all.take(0)));
    while i < ops.len()
        invariant
            i <= ops@.len(),
            all == entries_view(ops@),
            out@ == start + entries_bytes(all.take(i as int)),
            forall|k: int| 0 <= k < i ==> #[trigger] entry_fits(all[k]),
        decreases ops@.len() - i,
    {
        push_str(out, &ops[i].0);
        push_operation(out, &ops[i].1);
        assert(entry_fits(all[i as int]));
        proof {
            assert(all.take(i + 1) =~= all.take(i as int).push(all[i as int]));
            lemma_entries_bytes_push(all.take(i as int), all[i as int]);
        }
        i = i + 1;
        assert(out@ =~= start + entries_bytes(all.take(i as int)));
    }
    assert(all.take(i as int) =~= all);
    assert(out@ =~= old(out)@ + operations_bytes(all));
    assert(all.len() == ops@.len());
}

impl Patch {
    /// Encodes this patch; the encoding never fails.
    pub fn to_bytes(&self) -> (r: Result<Vec<u8>, crate::Error>)
        ensures
            r matches Ok(b) && b@ == patch_bytes(self@),
            patch_fits(self@),
    {
        let mut out: Vec<u8> = Vec::new();
        push_patch(&mut out, self);
        assert(out@ =~= patch_bytes(self@));
        Ok(out)
    }
}

impl Operations {
    /// Encodes these operations; the encoding never fails.
    pub fn to_bytes(&self) -> (r: Result<Vec<u8>, crate::Error>)
        ensures
            r matches Ok(b) && b@ == operations_bytes(self@),
            entries_fit(self@),
    {
        let mut out: Vec<u8> = Vec::new();
        push_operations(&mut out, &self.0);
        assert(out@ =~= operations_bytes(self@));
        Ok(out)
    }

    /// Digest of the encoded operations.
    pub fn hash(&self) -> (r: Result<String, crate::Error>)
        ensures
            r matches Ok(h) && h@ == crate::hash::md5_hex(operations_bytes(self@))
                && crate::hash::is_hex_digest(h@),
    {
        let bytes = self.to_bytes()?;
        Ok(crate::hash::hash(bytes.as_slice()))
    }
}

impl PatchSet {
    /// Encodes this patch set; the encoding never fails.
    pub fn to_bytes(&self) -> (r: Result<Vec<u8>, crate::Error>)
        ensures
            r matches Ok(b) && b@ == patch_set_bytes(self@),
            patch_set_fits(self@),
    {
        let mut out: Vec<u8> = Vec::new();
        push_operations(&mut out, &self.operations.0);
        push_str(&mut out, &self.hash_before);
        push_str(&mut out, &self.operations_hash);
        assert(out@ =~= patch_set_bytes(self@));
        Ok(out)
    }
}

/// Lengths in `b` fit the eight-byte length prefix.
pub open spec fn fits(b: Seq<u8>) -> bool {
    b.len() <= u64::MAX
}

/// Every length inside `p` fits its prefix.
pub open spec fn patch_fits(p: PatchView) -> bool {
    &&& fits(encode_utf8(p.before_hash))
    &&& fits(encode_utf8(p.after_hash))
    &&& fits(p.patch)
}

/// Every length inside `op` fits its prefix.
pub open spec fn operation_fits(op: OperationView) -> bool {
    match op {
        OperationView::Patch(p) => patch_fits(p),
        OperationView::PutFile(f) => fits(f),
        _ => true,
    }
}

/// Every length inside `e` fits its prefix.
pub open spec fn entry_fits(e: Entry) -> bool {
    fits(encode_utf8(e.0)) && operation_fits(e.1)
}

/// Every length inside `s`, and its count, fit their prefixes.
pub open spec fn entries_fit(s: Seq<Entry>) -> bool {
    &&& s.len() <= u64::MAX
    &&& forall|i: int| 0 <= i < s.len() ==> #[trigger] entry_fits(s[i])
}

/// Every length inside `ps` fits its prefix.
pub open spec fn patch_set_fits(ps: PatchSetView) -> bool {
    &&& entries_fit(ps.operations)
    &&& fits(encode_utf8(ps.hash_before))
    &&& fits(encode_utf8(ps.operations_hash))
}

/// Reads an integer at `pos`; gives it and the position after it.
pub open spec fn parse_u64(b: Seq<u8>, pos: int) -> Option<(u64, int)> {
    if 0 <= pos && pos + 8 <= b.len() {
        Some((le_value(b.subrange(pos, pos + 8)), pos + 8))
    } else {
        None
    }
}

/// Reads a byte string at `pos`.
pub open spec fn parse_bytes(b: Seq<u8>, pos: int) -> Option<(Seq<u8>, int)> {
    match parse_u64(b, pos) {
        Some((n, p)) => if n <= b.len() - p {
            Some((b.subrange(p, p + n), p + n))
        } else {
            None
        },
        None => None,
    }
}

/// Reads a string at `pos`; its bytes must be valid UTF-8.
pub open spec fn parse_str(b: Seq<u8>, pos: int) -> Option<(Seq<char>, int)> {
    match parse_bytes(b, pos) {
        Some((s, p)) => if valid_utf8(s) {
            Some((decode_utf8(s), p))
        } else {
            None
        },
        None => None,
    }
}

/// The codec a tag byte names.
pub open spec fn diff_algorithm_of(t: u8) -> Option<DiffAlgorithm> {
    if t == 0 {
        Some(DiffAlgorithm::Rsync020)
    } else if t == 1 {
        Some(DiffAlgorithm::Bidiff1)
    } else {
        None
    }
}

/// The compression a tag byte names.
pub open spec fn compress_algorithm_of(t: u8) -> Option<CompressAlgorithm> {
    if t == 0 {
        Some(CompressAlgorithm::Uncompressed)
    } else if t == 1 {
        Some(CompressAlgorithm::Zstd)
    } else {
        None
    }
}

/// Reads the three variable fields of a patch at `pos`.
pub open spec fn parse_patch_fields(
    b: Seq<u8>,
    pos: int,
    d: DiffAlgorithm,
    c: CompressAlgorithm,
) -> Option<(PatchView, int)> {
    match parse_str(b, pos) {
        Some((h1, at1)) => match parse_str(b, at1) {
            Some((h2, at2)) => match parse_bytes(b, at2) {
                Some((data, at3)) => Some(
                    (
                        PatchView {
                            diff_algorithm: d,
                            compress_algorithm: c,
                            before_hash: h1,
                            after_hash: h2,
                            patch: data,
                        },
                        at3,
                    ),
                ),
                None => None,
            },
            None => None,
        },
        None => None,
    }
}

/// Reads a patch at `pos`.
pub open spec fn parse_patch(b: Seq<u8>, pos: int) -> Option<(PatchView, int)> {
    if 0 <= pos && pos + 2 <= b.len() {
        match (diff_algorithm_of(b[pos]), compress_algorithm_of(b[pos + 1])) {
            (Some(d), Some(c)) => parse_patch_fields(b, pos + 2, d, c),
            _ => None,
        }
    } else {
        None
    }
}

/// Reads an operation at `pos`.
pub open spec fn parse_operation(b: Seq<u8>, pos: int) -> Option<(OperationView, int)> {
    if 0 <= pos && pos + 1 <= b.len() {
        if b[pos] == 0 {
            match parse_patch(b, pos + 1) {
                Some((p, q)) => Some((OperationView::Patch(p), q)),
                None => None,
            }
        } else if b[pos] == 1 {
            match parse_bytes(b, pos + 1) {
                Some((f, q)) => Some((OperationView::PutFile(f), q)),
                None => None,
            }
        } else if b[pos] == 2 {
            Some((OperationView::DeleteFile, pos + 1))
        } else if b[pos] == 3 {
            Some((OperationView::FileStaysSame, pos + 1))
        } else {
            None
        }
    } else {
        None
    }
}

/// Reads one (path, operation) pair at `pos`.
pub open spec fn parse_entry(b: Seq<u8>, pos: int) -> Option<(Entry, int)> {
    match parse_str(b, pos) {
        Some((name, p)) => match parse_operation(b, p) {
            Some((op, q)) => Some(((name, op), q)),
            None => None,
        },
        None => None,
    }
}

/// Reads `n` pairs, one after the other, at `pos`.
pub open spec fn parse_entries(b: Seq<u8>, pos: int, n: nat) -> Option<(Seq<Entry>, int)>
    decreases n,
{
    if n == 0 {
        Some((Seq::empty(), pos))
    } else {
        match parse_entry(b, pos) {
            Some((e, p)) => match parse_entries(b, p, (n - 1) as nat) {
                Some((rest, q)) => Some((seq![e] + rest, q)),
                None => None,
            },
            None => None,
        }
    }
}

/// Reads a list of operations at `pos`.
pub open spec fn parse_operations(b: Seq<u8>, pos: int) -> Option<(Seq<Entry>, int)> {
    match parse_u64(b, pos) {
        Some((n, p)) => parse_entries(b, p, n as nat),
        None => None,
    }
}

/// Reads a patch set at `pos`.
pub open spec fn parse_patch_set(b: Seq<u8>, pos: int) -> Option<(PatchSetView, int)> {
    match parse_operations(b, pos) {
        Some((ops, at1)) => match parse_str(b, at1) {
            Some((h1, at2)) => match parse_str(b, at2) {
                Some((h2, at3)) => Some(
                    (PatchSetView { operations: ops, hash_before: h1, operations_hash: h2 }, at3),
                ),
                None => None,
            },
            None => None,
        },
        None => None,
    }
}

/// The patch that all of `b` encodes, if any.
pub open spec fn decode_patch(b: Seq<u8>) -> Option<PatchView> {
    match parse_patch(b, 0) {
        Some((p, end)) => if end == b.len() {
            Some(p)
        } else {
            None
        },
        None => None,
    }
}

/// The patch set that all of `b` encodes, if any.
pub open spec fn decode_patch_set(b: Seq<u8>) -> Option<PatchSetView> {
    match parse_patch_set(b, 0) {
        Some((ps, end)) => if end == b.len() {
            Some(ps)
        } else {
            None
        },
        None => None,
    }
}

/// `e` stands in `b` at `pos`.
pub open spec fn placed(b: Seq<u8>, pos: int, e: Seq<u8>) -> bool {
    0 <= pos && pos + e.len() <= b.len() && b.subrange(pos, pos + e.len()) == e
}

proof fn lemma_placed_split(b: Seq<u8>, pos: int, x: Seq<u8>, y: Seq<u8>)
    requires
        placed(b, pos, x + y),
    ensures
        placed(b, pos, x),
        placed(b, pos + x.len(), y),
{
    let whole = b.subrange(pos, pos + x.len() + y.len());
    assert(whole == x + y);
    assert(b.subrange(pos, pos + x.len()) =~= whole.subrange(0, x.len() as int));
    assert((x + y).subrange(0, x.len() as int) =~= x);
    assert(b.subrange(pos + x.len(), pos + x.len() + y.len()) =~= whole.subrange(
        x.len() as int,
        (x.len() + y.len()) as int,
    ));
    assert((x + y).subrange(x.len() as int, (x.len() + y.len()) as int) =~= y);
}

proof fn lemma_le_round_trip(x: u64)
    ensures
        le_value(le_bytes(x)) == x,
{
    let s = le_bytes(x);
    assert(((x as u8) as u64) | ((((x >> 8u64) as u8) as u64) << 8u64) | ((((x >> 16u64) as u8)
        as u64) << 16u64) | ((((x >> 24u64) as u8) as u64) << 24u64) | ((((x >> 32u64) as u8)
        as u64) << 32u64) | ((((x >> 40u64) as u8) as u64) << 40u64) | ((((x >> 48u64) as u8)
        as u64) << 48u64) | ((((x >> 56u64) as u8) as u64) << 56u64) == x) by (bit_vector);
}

proof fn lemma_u64_round_trip(b: Seq<u8>, pos: int, x: u64)
    requires
        placed(b, pos, le_bytes(x)),
    ensures
        parse_u64(b, pos) == Some((x, pos + 8)),
{
    lemma_le_round_trip(x);
}

proof fn lemma_bytes_round_trip(b: Seq<u8>, pos: int, d: Seq<u8>)
    requires
        fits(d),
        placed(b, pos, bytes_field(d)),
    ensures
        parse_bytes(b, pos) == Some((d, pos + bytes_field(d).len())),
{
    lemma_placed_split(b, pos, le_bytes(d.len() as u64), d);
    lemma_u64_round_trip(b, pos, d.len() as u64);
}

proof fn lemma_str_round_trip(b: Seq<u8>, pos: int, s: Seq<char>)
    requires
        fits(encode_utf8(s)),
        placed(b, pos, str_field(s)),
    ensures
        parse_str(b, pos) == Some((s, pos + str_field(s).len())),
{
    lemma_bytes_round_trip(b, pos, encode_utf8(s));
    vstd::utf8::encode_utf8_valid_utf8(s);
    vstd::utf8::encode_utf8_decode_utf8(s);
}

proof fn lemma_patch_placed_round_trip(b: Seq<u8>, pos: int, p: PatchView)
    requires
        patch_fits(p),
        placed(b, pos, patch_bytes(p)),
    ensures
        parse_patch(b, pos) == Some((p, pos + patch_bytes(p).len())),
{
    let tags = seq![diff_tag(p.diff_algorithm), compress_tag(p.compress_algorithm)];
    let f1 = str_field(p.before_hash);
    let f2 = str_field(p.after_hash);
    let f3 = bytes_field(p.patch);
    assert(patch_bytes(p) == ((tags + f1) + f2) + f3);
    lemma_placed_split(b, pos, (tags + f1) + f2, f3);
    lemma_placed_split(b, pos, tags + f1, f2);
    lemma_placed_split(b, pos, tags, f1);
    assert(b[pos] == tags[0] && b[pos + 1] == tags[1]) by {
        assert(b.subrange(pos, pos + 2)[0] == b[pos]);
        assert(b.subrange(pos, pos + 2)[1] == b[pos + 1]);
    }
    lemma_str_round_trip(b, pos + 2, p.before_hash);
    lemma_str_round_trip(b, pos + 2 + f1.len(), p.after_hash);
    lemma_bytes_round_trip(b, pos + 2 + f1.len() + f2.len(), p.patch);
}

proof fn lemma_operation_round_trip(b: Seq<u8>, pos: int, op: OperationView)
    requires
        operation_fits(op),
        placed(b, pos, operation_bytes(op)),
    ensures
        parse_operation(b, pos) == Some((op, pos + operation_bytes(op).len())),
{
    assert(b[pos] == operation_bytes(op)[0]) by {
        assert(b.subrange(pos, pos + operation_bytes(op).len())[0] == b[pos]);
    }
    match op {
        OperationView::Patch(p) => {
            lemma_placed_split(b, pos, seq![0u8], patch_bytes(p));
            lemma_patch_placed_round_trip(b, pos + 1, p);
        },
        OperationView::PutFile(f) => {
            lemma_placed_split(b, pos, seq![1u8], bytes_field(f));
            lemma_bytes_round_trip(b, pos + 1, f);
        },
        _ => {},
    }
}

proof fn lemma_entries_round_trip(b: Seq<u8>, pos: int, s: Seq<Entry>)
    requires
        entries_fit(s),
        placed(b, pos, entries_bytes(s)),
    ensures
        parse_entries(b, pos, s.len()) == Some((s, pos + entries_bytes(s).len())),
    decreases s.len(),
{
    if s.len() > 0 {
        let e = s[0];
        assert(entry_fits(s[0]));
        lemma_placed_split(b, pos, entry_bytes(e), entries_bytes(s.skip(1)));
        lemma_placed_split(b, pos, str_field(e.0), operation_bytes(e.1));
        lemma_str_round_trip(b, pos, e.0);
        lemma_operation_round_trip(b, pos + str_field(e.0).len(), e.1);
        assert forall|i: int| 0 <= i < s.skip(1).len() implies #[trigger] entry_fits(
            s.skip(1)[i],
        ) by {
            assert(s.skip(1)[i] == s[i + 1]);
            assert(entry_fits(s[i + 1]));
        }
        lemma_entries_round_trip(b, pos + entry_bytes(e).len(), s.skip(1));
        assert(seq![e] + s.skip(1) =~= s);
    }
}

/// Decoding the encoding of a patch gives the patch back, and no other
/// patch has the same encoding: whatever `from_bytes` returns for the
/// bytes of `to_bytes` is the patch that was encoded.
pub proof fn lemma_patch_round_trip(p: PatchView)
    requires
        patch_fits(p),
    ensures
        decode_patch(patch_bytes(p)) == Some(p),
        forall|q: PatchView| patch_fits(q) && #[trigger] patch_bytes(q) == patch_bytes(p) ==> q == p,
{
    assert forall|q: PatchView| patch_fits(q) && #[trigger] patch_bytes(q) == patch_bytes(p) implies q
        == p by {
        lemma_patch_decodes(q);
        lemma_patch_decodes(p);
    }
    lemma_patch_decodes(p);
}

proof fn lemma_patch_decodes(p: PatchView)
    requires
        patch_fits(p),
    ensures
        decode_patch(patch_bytes(p)) == Some(p),
{
    let b = patch_bytes(p);
    assert(b.subrange(0, b.len() as int) =~= b);
    lemma_patch_placed_round_trip(b, 0, p);
}

proof fn lemma_operations_round_trip(b: Seq<u8>, pos: int, s: Seq<Entry>)
    requires
        entries_fit(s),
        placed(b, pos, operations_bytes(s)),
    ensures
        parse_operations(b, pos) == Some((s, pos + operations_bytes(s).len())),
{
    lemma_placed_split(b, pos, le_bytes(s.len() as u64), entries_bytes(s));
    lemma_u64_round_trip(b, pos, s.len() as u64);
    lemma_entries_round_trip(b, pos + 8, s);
}

/// The encoding of a list of operations decodes back to it, so different
/// lists never share an encoding.
pub proof fn lemma_operations_decode(s: Seq<Entry>)
    requires
        entries_fit(s),
    ensures
        parse_operations(operations_bytes(s), 0) == Some((s, operations_bytes(s).len() as int)),
{
    let b = operations_bytes(s);
    assert(b.subrange(0, b.len() as int) =~= b);
    lemma_operations_round_trip(b, 0, s);
}

/// Decoding the encoding of a patch set gives the patch set back, and no
/// other patch set has the same encoding: whatever `from_bytes` returns for
/// the bytes of `to_bytes` is the patch set that was encoded.
pub proof fn lemma_patch_set_round_trip(ps: PatchSetView)
    requires
        patch_set_fits(ps),
    ensures
        decode_patch_set(patch_set_bytes(ps)) == Some(ps),
        forall|q: PatchSetView|
            patch_set_fits(q) && #[trigger] patch_set_bytes(q) == patch_set_bytes(ps) ==> q == ps,
{
    assert forall|q: PatchSetView|
        patch_set_fits(q) && #[trigger] patch_set_bytes(q) == patch_set_bytes(ps) implies q
        == ps by {
        lemma_patch_set_decodes(q);
        lemma_patch_set_decodes(ps);
    }
    lemma_patch_set_decodes(ps);
}

#[verifier::spinoff_prover]
#[verifier::rlimit(40)]
proof fn lemma_patch_set_decodes(ps: PatchSetView)
    requires
        patch_set_fits(ps),
    ensures
        decode_patch_set(patch_set_bytes(ps)) == Some(ps),
{
    let b = patch_set_bytes(ps);
    assert(b.subrange(0, b.len() as int) =~= b);
    let o = operations_bytes(ps.operations);
    let f1 = str_field(ps.hash_before);
    let f2 = str_field(ps.operations_hash);
    lemma_placed_split(b, 0, o + f1, f2);
    lemma_placed_split(b, 0, o, f1);
    lemma_operations_round_trip(b, 0, ps.operations);
    lemma_str_round_trip(b, o.len() as int, ps.hash_before);
    lemma_str_round_trip(b, o.len() + f1.len() as int, ps.operations_hash);
    assert(b.len() == o.len() + f1.len() + f2.len());
    assert(parse_patch_set(b, 0) == Some((ps, b.len() as int)));
}

proof fn lemma_placed_join(b: Seq<u8>, pos: int, x: Seq<u8>, y: Seq<u8>)
    requires
        placed(b, pos, x),
        placed(b, pos + x.len(), y),
    ensures
        placed(b, pos, x + y),
{
    assert(b.subrange(pos, pos + x.len() + y.len()) =~= b.subrange(pos, pos + x.len())
        + b.subrange(pos + x.len(), pos + x.len() + y.len()));
}

proof fn lemma_le_back(s: Seq<u8>)
    requires
        s.len() == 8,
    ensures
        le_bytes(le_value(s)) == s,
{
    let v = le_value(s);
    let (b0, b1, b2, b3, b4, b5, b6, b7) = (s[0], s[1], s[2], s[3], s[4], s[5], s[6], s[7]);
    assert(v as u8 == b0 && (v >> 8u64) as u8 == b1 && (v >> 16u64) as u8 == b2 && (v >> 24u64)
        as u8 == b3 && (v >> 32u64) as u8 == b4 && (v >> 40u64) as u8 == b5 && (v >> 48u64) as u8
        == b6 && (v >> 56u64) as u8 == b7) by (bit_vector)
        requires
            v == (b0 as u64) | ((b1 as u64) << 8u64) | ((b2 as u64) << 16u64) | ((b3 as u64)
                << 24u64) | ((b4 as u64) << 32u64) | ((b5 as u64) << 40u64) | ((b6 as u64)
                << 48u64) | ((b7 as u64) << 56u64),
    ;
    assert(le_bytes(v) =~= s);
}

proof fn lemma_u64_sound(b: Seq<u8>, pos: int)
    requires
        parse_u64(b, pos) is Some,
    ensures
        placed(b, pos, le_bytes(parse_u64(b, pos)->Some_0.0)),
        parse_u64(b, pos)->Some_0.1 == pos + 8,
{
    lemma_le_back(b.subrange(pos, pos + 8));
}

proof fn lemma_bytes_sound(b: Seq<u8>, pos: int)
    requires
        parse_bytes(b, pos) is Some,
    ensures
        fits(parse_bytes(b, pos)->Some_0.0),
        placed(b, pos, bytes_field(parse_bytes(b, pos)->Some_0.0)),
        parse_bytes(b, pos)->Some_0.1 == pos + bytes_field(parse_bytes(b, pos)->Some_0.0).len(),
{
    lemma_u64_sound(b, pos);
    let d = parse_bytes(b, pos)->Some_0.0;
    lemma_placed_join(b, pos, le_bytes(d.len() as u64), d);
}

proof fn lemma_str_sound(b: Seq<u8>, pos: int)
    requires
        parse_str(b, pos) is Some,
    ensures
        fits(encode_utf8(parse_str(b, pos)->Some_0.0)),
        placed(b, pos, str_field(parse_str(b, pos)->Some_0.0)),
        parse_str(b, pos)->Some_0.1 == pos + str_field(parse_str(b, pos)->Some_0.0).len(),
{
    lemma_bytes_sound(b, pos);
    vstd::utf8::decode_utf8_encode_utf8(parse_bytes(b, pos)->Some_0.0);
}

proof fn lemma_patch_sound(b: Seq<u8>, pos: int)
    requires
        parse_patch(b, pos) is Some,
    ensures
        patch_fits(parse_patch(b, pos)->Some_0.0),
        placed(b, pos, patch_bytes(parse_patch(b, pos)->Some_0.0)),
        parse_patch(b, pos)->Some_0.1 == pos + patch_bytes(parse_patch(b, pos)->Some_0.0).len(),
{
    let p = parse_patch(b, pos)->Some_0.0;
    let tags = seq![diff_tag(p.diff_algorithm), compress_tag(p.compress_algorithm)];
    assert(placed(b, pos, tags)) by {
        assert(b.subrange(pos, pos + 2) =~= tags);
    }
    lemma_str_sound(b, pos + 2);
    let at1 = parse_str(b, pos + 2)->Some_0.1;
    lemma_str_sound(b, at1);
    let at2 = parse_str(b, at1)->Some_0.1;
    lemma_bytes_sound(b, at2);
    lemma_placed_join(b, pos, tags, str_field(p.before_hash));
    lemma_placed_join(b, pos, tags + str_field(p.before_hash), str_field(p.after_hash));
    lemma_placed_join(
        b,
        pos,
        tags + str_field(p.before_hash) + str_field(p.after_hash),
        bytes_field(p.patch),
    );
}

proof fn lemma_operation_sound(b: Seq<u8>, pos: int)
    requires
        parse_operation(b, pos) is Some,
    ensures
        operation_fits(parse_operation(b, pos)->Some_0.0),
        placed(b, pos, operation_bytes(parse_operation(b, pos)->Some_0.0)),
        parse_operation(b, pos)->Some_0.1 == pos + operation_bytes(
            parse_operation(b, pos)->Some_0.0,
        ).len(),
{
    let t = seq![b[pos]];
    assert(placed(b, pos, t)) by {
        assert(b.subrange(pos, pos + 1) =~= t);
    }
    if b[pos] == 0 {
        lemma_patch_sound(b, pos + 1);
        lemma_placed_join(b, pos, t, patch_bytes(parse_patch(b, pos + 1)->Some_0.0));
    } else if b[pos] == 1 {
        lemma_bytes_sound(b, pos + 1);
        lemma_placed_join(b, pos, t, bytes_field(parse_bytes(b, pos + 1)->Some_0.0));
    }
}

proof fn lemma_entries_sound(b: Seq<u8>, pos: int, n: nat)
    requires
        0 <= pos <= b.len(),
        parse_entries(b, pos, n) is Some,
    ensures
        parse_entries(b, pos, n)->Some_0.0.len() == n,
        forall|i: int|
            0 <= i < n ==> #[trigger] entry_fits(parse_entries(b, pos, n)->Some_0.0[i]),
        placed(b, pos, entries_bytes(parse_entries(b, pos, n)->Some_0.0)),
        parse_entries(b, pos, n)->Some_0.1 == pos + entries_bytes(
            parse_entries(b, pos, n)->Some_0.0,
        ).len(),
    decreases n,
{
    let s = parse_entries(b, pos, n)->Some_0.0;
    if n == 0 {
        assert(b.subrange(pos, pos) =~= Seq::<u8>::empty());
    } else {
        let (e, at1) = parse_entry(b, pos)->Some_0;
        lemma_str_sound(b, pos);
        let at0 = parse_str(b, pos)->Some_0.1;
        lemma_operation_sound(b, at0);
        lemma_placed_join(b, pos, str_field(e.0), operation_bytes(e.1));
        lemma_entries_sound(b, at1, (n - 1) as nat);
        let rest = parse_entries(b, at1, (n - 1) as nat)->Some_0.0;
        assert(s == seq![e] + rest);
        assert(s[0] == e);
        assert(s.skip(1) =~= rest);
        lemma_placed_join(b, pos, entry_bytes(e), entries_bytes(rest));
        assert forall|i: int| 0 <= i < n implies #[trigger] entry_fits(s[i]) by {
            if i > 0 {
                assert(s[i] == rest[i - 1]);
            }
        }
    }
}

proof fn lemma_operations_sound(b: Seq<u8>, pos: int)
    requires
        parse_operations(b, pos) is Some,
    ensures
        entries_fit(parse_operations(b, pos)->Some_0.0),
        placed(b, pos, operations_bytes(parse_operations(b, pos)->Some_0.0)),
        parse_operations(b, pos)->Some_0.1 == pos + operations_bytes(
            parse_operations(b, pos)->Some_0.0,
        ).len(),
{
    lemma_u64_sound(b, pos);
    let n = parse_u64(b, pos)->Some_0.0;
    lemma_entries_sound(b, pos + 8, n as nat);
    let s = parse_operations(b, pos)->Some_0.0;
    assert(s.len() as u64 == n);
    lemma_placed_join(b, pos, le_bytes(n), entries_bytes(s));
}

proof fn lemma_whole(b: Seq<u8>, e: Seq<u8>)
    requires
        placed(b, 0, e),
        e.len() == b.len(),
    ensures
        e == b,
{
    assert(b.subrange(0, b.len() as int) =~= b);
}

/// A byte string decodes to a patch only if it is that patch's encoding.
pub proof fn lemma_decode_patch_canonical(b: Seq<u8>)
    requires
        decode_patch(b) is Some,
    ensures
        patch_bytes(decode_patch(b)->Some_0) == b,
        patch_fits(decode_patch(b)->Some_0),
{
    lemma_patch_sound(b, 0);
    lemma_whole(b, patch_bytes(decode_patch(b)->Some_0));
}

/// A byte string decodes to a patch set only if it is that patch set's
/// encoding.
#[verifier::spinoff_prover]
pub proof fn lemma_decode_patch_set_canonical(b: Seq<u8>)
    requires
        decode_patch_set(b) is Some,
    ensures
        patch_set_bytes(decode_patch_set(b)->Some_0) == b,
        patch_set_fits(decode_patch_set(b)->Some_0),
{
    let ps = decode_patch_set(b)->Some_0;
    lemma_operations_sound(b, 0);
    let at1 = parse_operations(b, 0)->Some_0.1;
    lemma_str_sound(b, at1);
    let at2 = parse_str(b, at1)->Some_0.1;
    lemma_str_sound(b, at2);
    let o = operations_bytes(ps.operations);
    lemma_placed_join(b, 0, o, str_field(ps.hash_before));
    lemma_placed_join(b, 0, o + str_field(ps.hash_before), str_field(ps.operations_hash));
    lemma_whole(b, patch_set_bytes(ps));
}

/// Relies on `String::from_utf8`: it accepts exactly the valid UTF-8
/// sequences and keeps the characters they encode.
#[verifier::external_body]
fn string_from_utf8(bytes: Vec<u8>) -> (r: Option<String>)
    ensures
        r is Some <==> valid_utf8(bytes@),
        r matches Some(s) ==> s@ == decode_utf8(bytes@),
{
    String::from_utf8(bytes).ok()
}

fn copy_range(b: &[u8], start: usize, end: usize) -> (r: Vec<u8>)
    requires
        start <= end <= b@.len(),
    ensures
        r@ == b@.subrange(start as int, end as int),
{
    let mut out: Vec<u8> = Vec::with_capacity(end - start);
    let mut i: usize = start;
    while i < end
        invariant
            start <= i <= end <= b@.len(),
            out@ == b@.subrange(start as int, i as int),
        decreases end - i,
    {
        out.push(b[i]);
        i = i + 1;
        assert(out@ =~= b@.subrange(start as int, i as int));
    }
    out
}

fn read_u64(b: &[u8], pos: usize) -> (r: Option<(u64, usize)>)
    ensures
        r is Some <==> parse_u64(b@, pos as int) is Some,
        r matches Some((v, p)) ==> parse_u64(b@, pos as int) == Some((v, p as int)),
{
    if pos > b.len() || b.len() - pos < 8 {
        return None;
    }
    let ghost s = b@.subrange(pos as int, pos + 8);
    assert(s[0] == b@[pos as int] && s[1] == b@[pos + 1] && s[2] == b@[pos + 2] && s[3] == b@[pos
        + 3]);
    assert(s[4] == b@[pos + 4] && s[5] == b@[pos + 5] && s[6] == b@[pos + 6] && s[7] == b@[pos
        + 7]);
    let v: u64 = (b[pos] as u64) | ((b[pos + 1] as u64) << 8u64) | ((b[pos + 2] as u64) << 16u64)
        | ((b[pos + 3] as u64) << 24u64) | ((b[pos + 4] as u64) << 32u64) | ((b[pos + 5] as u64)
        << 40u64) | ((b[pos + 6] as u64) << 48u64) | ((b[pos + 7] as u64) << 56u64);
    Some((v, pos + 8))
}

fn read_bytes(b: &[u8], pos: usize) -> (r: Option<(Vec<u8>, usize)>)
    ensures
        r is Some <==> parse_bytes(b@, pos as int) is Some,
        r matches Some((v, p)) ==> parse_bytes(b@, pos as int) == Some((v@, p as int)),
{
    let (n, p) = match read_u64(b, pos) {
        Some(x) => x,
        None => {
            return None;
        },
    };
    if n > (b.len() - p) as u64 {
        return None;
    }
    let end = p + n as usize;
    Some((copy_range(b, p, end), end))
}

fn read_str(b: &[u8], pos: usize) -> (r: Option<(String, usize)>)
    ensures
        r is Some <==> parse_str(b@, pos as int) is Some,
        r matches Some((v, p)) ==> parse_str(b@, pos as int) == Some((v@, p as int)),
{
    let (bytes, p) = match read_bytes(b, pos) {
        Some(x) => x,
        None => {
            return None;
        },
    };
    match string_from_utf8(bytes) {
        Some(s) => Some((s, p)),
        None => None,
    }
}

fn read_patch(b: &[u8], pos: usize) -> (r: Option<(Patch, usize)>)
    ensures
        r is Some <==> parse_patch(b@, pos as int) is Some,
        r matches Some((v, p)) ==> parse_patch(b@, pos as int) == Some((v@, p as int)),
{
    if pos > b.len() || b.len() - pos < 2 {
        return None;
    }
    let diff_algorithm = if b[pos] == 0 {
        DiffAlgorithm::Rsync020
    } else if b[pos] == 1 {
        DiffAlgorithm::Bidiff1
    } else {
        return None;
    };
    let compress_algorithm = if b[pos + 1] == 0 {
        CompressAlgorithm::Uncompressed
    } else if b[pos + 1] == 1 {
        CompressAlgorithm::Zstd
    } else {
        return None;
    };
    let (before_hash, at1) = match read_str(b, pos + 2) {
        Some(x) => x,
        None => {
            return None;
        },
    };
    let (after_hash, at2) = match read_str(b, at1) {
        Some(x) => x,
        None => {
            return None;
        },
    };
    let (patch, at3) = match read_bytes(b, at2) {
        Some(x) => x,
        None => {
            return None;
        },
    };
    Some((Patch { diff_algorithm, compress_algorithm, before_hash, after_hash, patch }, at3))
}

fn read_operation(b: &[u8], pos: usize) -> (r: Option<(Operation, usize)>)
    ensures
        r is Some <==> parse_operation(b@, pos as int) is Some,
        r matches Some((v, p)) ==> parse_operation(b@, pos as int) == Some((v@, p as int)),
{
    if pos >= b.len() {
        return None;
    }
    let tag = b[pos];
    if tag == 0 {
        match read_patch(b, pos + 1) {
            Some((p, q)) => Some((Operation::Patch(p), q)),
            None => None,
        }
    } else if tag == 1 {
        match read_bytes(b, pos + 1) {
            Some((f, q)) => Some((Operation::PutFile(f), q)),
            None => None,
        }
    } else if tag == 2 {
        Some((Operation::DeleteFile, pos + 1))
    } else if tag == 3 {
        Some((Operation::FileStaysSame, pos + 1))
    } else {
        None
    }
}

fn read_operations(b: &[u8], pos: usize) -> (r: Option<(Vec<(String, Operation)>, usize)>)
    ensures
        r is Some <==> parse_operations(b@, pos as int) is Some,
        r matches Some((v, p)) ==> parse_operations(b@, pos as int) == Some(
            (entries_view(v@), p as int),
        ),
{
    let (n, start) = match read_u64(b, pos) {
        Some(x) => x,
        None => {
            return None;
        },
    };
    let mut entries: Vec<(String, Operation)> = Vec::new();
    let mut i: u64 = 0;
    let mut cur: usize = start;
    assert(entries_view(entries@) =~= Seq::<Entry>::empty());
    while i < n
        invariant
            i <= n,
            cur <= b@.len(),
            parse_operations(b@, pos as int) == parse_entries(b@, start as int, n as nat),
            parse_entries(b@, start as int, n as nat) == match parse_entries(
                b@,
                cur as int,
                (n - i) as nat,
            ) {
                Some((rest, q)) => Some((entries_view(entries@) + rest, q)),
                None => None,
            },
        decreases n - i,
    {
        let ghost before = entries@;
        let (name, p) = match read_str(b, cur) {
            Some(x) => x,
            None => {
                return None;
            },
        };
        let (op, q) = match read_operation(b, p) {
            Some(x) => x,
            None => {
                return None;
            },
        };
        let ghost e: Entry = (name@, op@);
        entries.push((name, op));
        proof {
            assert(entries_view(entries@) =~= entries_view(before) + seq![e]);
            match parse_entries(b@, q as int, (n - i - 1) as nat) {
                Some((rest, q2)) => {
                    assert(entries_view(before) + (seq![e] + rest) =~= entries_view(entries@)
                        + rest);
                },
                None => {},
            }
        }
        cur = q;
        i = i + 1;
    }
    assert(entries_view(entries@) + Seq::<Entry>::empty() =~= entries_view(entries@));
    Some((entries, cur))
}

fn read_patch_set(b: &[u8], pos: usize) -> (r: Option<(PatchSet, usize)>)
    ensures
        r is Some <==> parse_patch_set(b@, pos as int) is Some,
        r matches Some((v, p)) ==> parse_patch_set(b@, pos as int) == Some((v@, p as int)),
{
    let (ops, at1) = match read_operations(b, pos) {
        Some(x) => x,
        None => {
            return None;
        },
    };
    let (hash_before, at2) = match read_str(b, at1) {
        Some(x) => x,
        None => {
            return None;
        },
    };
    let (operations_hash, at3) = match read_str(b, at2) {
        Some(x) => x,
        None => {
            return None;
        },
    };
    Some((PatchSet { operations: Operations(ops), hash_before, operations_hash }, at3))
}

impl Patch {
    /// Decodes a patch from the whole of `bytes`: succeeds exactly when
    /// `bytes` is the encoding of a patch, and gives that patch.
    pub fn from_bytes(bytes: &[u8]) -> (r: Result<Patch, crate::Error>)
        ensures
            r is Ok <==> exists|v: PatchView| patch_fits(v) && #[trigger] patch_bytes(v) == bytes@,
            r matches Ok(p) ==> patch_bytes(p@) == bytes@ && patch_fits(p@),
            r matches Err(e) ==> e is DeserializeError,
    {
        proof {
            if exists|v: PatchView| patch_fits(v) && #[trigger] patch_bytes(v) == bytes@ {
                let v = choose|v: PatchView| patch_fits(v) && #[trigger] patch_bytes(v) == bytes@;
                lemma_patch_round_trip(v);
            }
            if decode_patch(bytes@) is Some {
                lemma_decode_patch_canonical(bytes@);
            }
        }
        match read_patch(bytes, 0) {
            Some((p, end)) => if end == bytes.len() {
                Ok(p)
            } else {
                Err(crate::Error::DeserializeError)
            },
            None => Err(crate::Error::DeserializeError),
        }
    }
}

impl PatchSet {
    /// Decodes a patch set from the whole of `bytes`: succeeds exactly when
    /// `bytes` is the encoding of a patch set, and gives that patch set.
    pub fn from_bytes(bytes: &[u8]) -> (r: Result<PatchSet, crate::Error>)
        ensures
            r is Ok <==> exists|v: PatchSetView|
                patch_set_fits(v) && #[trigger] patch_set_bytes(v) == bytes@,
            r matches Ok(ps) ==> patch_set_bytes(ps@) == bytes@ && patch_set_fits(ps@),
            r matches Err(e) ==> e is DeserializeError,
    {
        proof {
            if exists|v: PatchSetView| patch_set_fits(v) && #[trigger] patch_set_bytes(v) == bytes@ {
                let v = choose|v: PatchSetView|
                    patch_set_fits(v) && #[trigger] patch_set_bytes(v) == bytes@;
                lemma_patch_set_round_trip(v);
            }
            if decode_patch_set(bytes@) is Some {
                lemma_decode_patch_set_canonical(bytes@);
            }
        }
        match read_patch_set(bytes, 0) {
            Some((ps, end)) => if end == bytes.len() {
                Ok(ps)
            } else {
                Err(crate::Error::DeserializeError)
            },
            None => Err(crate::Error::DeserializeError),
        }
    }
}

} // verus!
