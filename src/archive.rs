//! Archive-level diffing and patching: members are classified by path and
//! modified members are handed to the blob codecs.
use vstd::prelude::*;
use vstd::string::{StrSliceExecFns, StringExecFns};

use crate::codec::{lemma_operations_decode, entries_fit, operations_bytes};
use crate::compress::{copy_bytes, CompressAlgorithm};
use crate::hash::{hash, md5_hex};
use crate::patch::{
    entries_view, DiffAlgorithm, Entry, Operation, OperationView, Operations, PatchSet,
    PatchSetView,
};
use crate::{applies, apply, diff, diff_possible, is_diff_of, reconstructed, Error};

verus! {

/// The character sequences of a list of strings.
pub open spec fn strings_view(v: Seq<String>) -> Seq<Seq<char>> {
    Seq::new(v.len(), |i: int| v[i]@)
}

/// Scans `p` left to right: the non-empty segments closed by a `/` so far,
/// and the characters after the last `/`.
pub open spec fn scan_segments(p: Seq<char>) -> (Seq<Seq<char>>, Seq<char>)
    decreases p.len(),
{
    if p.len() == 0 {
        (Seq::empty(), Seq::empty())
    } else {
        let (segs, cur) = scan_segments(p.drop_last());
        if p.last() == '/' {
            (if cur.len() > 0 { segs.push(cur) } else { segs }, Seq::empty())
        } else {
            (segs, cur.push(p.last()))
        }
    }
}

/// Segments joined with `/`.
pub open spec fn join_segments(s: Seq<Seq<char>>) -> Seq<char>
    decreases s.len(),
{
    if s.len() == 0 {
        Seq::empty()
    } else if s.len() == 1 {
        s[0]
    } else {
        join_segments(s.drop_last()) + seq!['/'] + s.last()
    }
}

/// The parent directories of `path`, shortest first: the last segment is
/// dropped and empty segments are skipped.
pub open spec fn dirs_of(path: Seq<char>) -> Seq<Seq<char>> {
    let segs = scan_segments(path).0;
    Seq::new(segs.len(), |k: int| join_segments(segs.take(k + 1)))
}

/// Lists the parent directories of `path`, shortest first.
pub fn get_directories_of_file(path: &str) -> (r: Vec<String>)
    ensures
        strings_view(r@) == dirs_of(path@),
{
    let n = path.unicode_len();
    let mut dirs: Vec<String> = Vec::new();
    let mut current = String::new();
    let mut seg_start: usize = 0;
    let mut i: usize = 0;
    while i < n
        invariant
            n == path@.len(),
            seg_start <= i <= n,
            scan_segments(path@.take(i as int)).1 == path@.subrange(seg_start as int, i as int),
            strings_view(dirs@) =~= {
                let segs = scan_segments(path@.take(i as int)).0;
                Seq::new(segs.len(), |k: int| join_segments(segs.take(k + 1)))
            },
            current@ == join_segments(scan_segments(path@.take(i as int)).0),
        decreases n - i,
    {
        let ghost prev = scan_segments(path@.take(i as int));
        let c = path.get_char(i);
        assert(path@.take(i + 1).drop_last() =~= path@.take(i as int));
        assert(path@.take(i + 1).last() == c);
        if c == '/' {
            if i > seg_start {
                let part = path.substring_char(seg_start, i);
                let ghost segs2 = prev.0.push(part@);
                let ghost old_current = current@;
                let ghost old_dirs = dirs@;
                assert(strings_view(old_dirs) =~= Seq::new(
                    prev.0.len(),
                    |k: int| join_segments(prev.0.take(k + 1)),
                ));
                assert(strings_view(old_dirs).len() == prev.0.len());
                assert(segs2.last() == part@);
                if dirs.len() == 0 {
                    current = part.to_owned();
                } else {
                    proof {
                        reveal_strlit("/");
                    }
                    current = current.concat("/").concat(part);
                    assert("/"@ =~= seq!['/']);
                    assert(current@ =~= old_current + seq!['/'] + part@);
                }
                proof {
                    assert(segs2.drop_last() =~= prev.0);
                    if prev.0.len() == 0 {
                        assert(join_segments(segs2) == part@);
                    } else {
                        assert(current@ =~= join_segments(segs2));
                    }
                }
                let cl = current.clone();
                dirs.push(cl);
                proof {
                    assert(dirs@ == old_dirs.push(cl));
                    assert(cl@ == join_segments(segs2));
                    assert(segs2.take(segs2.len() as int) =~= segs2);
                    assert forall|k: int| 0 <= k < segs2.len() implies #[trigger] strings_view(dirs@)[k] == join_segments(segs2.take(k + 1)) by {
                        assert(strings_view(dirs@)[k] == dirs@[k]@);
                        if k < prev.0.len() {
                            assert(dirs@[k] == old_dirs[k]);
                            assert(strings_view(old_dirs)[k] == old_dirs[k]@);
                            assert(segs2.take(k + 1) =~= prev.0.take(k + 1));
                        } else {
                            assert(dirs@[k] == cl);
                        }
                    }
                    assert(strings_view(dirs@) =~= Seq::new(
                        segs2.len(),
                        |k: int| join_segments(segs2.take(k + 1)),
                    ));
                }
            }
            seg_start = i + 1;
        }
        i = i + 1;
        assert(path@.subrange(seg_start as int, i as int) =~= scan_segments(
            path@.take(i as int),
        ).1);
    }
    assert(path@.take(n as int) =~= path@);
    dirs
}

/// An archive's members: path and contents, in archive order.
pub type Members = Seq<(Seq<char>, Seq<u8>)>;

/// The view of a list of members.
pub open spec fn members_view(v: Seq<(String, Vec<u8>)>) -> Members {
    Seq::new(v.len(), |i: int| (v[i].0@, v[i].1@))
}

/// The contents of the first member of `m` named `name`.
pub open spec fn lookup(m: Members, name: Seq<char>) -> Option<Seq<u8>>
    decreases m.len(),
{
    if m.len() == 0 {
        None
    } else if m[0].0 == name {
        Some(m[0].1)
    } else {
        lookup(m.skip(1), name)
    }
}

/// The paths of `m`, in order.
pub open spec fn member_names(m: Members) -> Seq<Seq<char>> {
    Seq::new(m.len(), |i: int| m[i].0)
}

/// `d` with `x` appended unless it is already there.
pub open spec fn add_new(d: Seq<Seq<char>>, x: Seq<char>) -> Seq<Seq<char>> {
    if d.contains(x) {
        d
    } else {
        d.push(x)
    }
}

/// The first occurrence of each element of `s`, in order.
pub open spec fn distinct_names(s: Seq<Seq<char>>) -> Seq<Seq<char>>
    decreases s.len(),
{
    if s.len() == 0 {
        Seq::empty()
    } else {
        add_new(distinct_names(s.drop_last()), s.last())
    }
}

/// Every path of either archive once: the source's paths in order, then
/// the target's new ones in order.
pub open spec fn all_paths(before: Members, after: Members) -> Seq<Seq<char>> {
    distinct_names(member_names(before) + member_names(after))
}

/// `op` is what the differ records for `name`.
pub open spec fn classifies(
    before: Members,
    after: Members,
    name: Seq<char>,
    op: OperationView,
    algo: DiffAlgorithm,
    c: CompressAlgorithm,
) -> bool {
    match (lookup(before, name), lookup(after, name)) {
        (Some(b), Some(a)) => if b == a {
            op is FileStaysSame
        } else {
            op matches OperationView::Patch(p) && is_diff_of(b, a, algo, c, p)
        },
        (Some(_), None) => op is DeleteFile,
        (None, Some(a)) => op == OperationView::PutFile(a),
        (None, None) => false,
    }
}

/// `ops` holds one entry per path of either archive, in `all_paths` order,
/// each with the operation that turns the source member into the target one.
pub open spec fn is_operations_for(
    before: Members,
    after: Members,
    algo: DiffAlgorithm,
    c: CompressAlgorithm,
    ops: Seq<Entry>,
) -> bool {
    let paths = all_paths(before, after);
    &&& ops.len() == paths.len()
    &&& forall|i: int|
        0 <= i < ops.len() ==> #[trigger] ops[i].0 == paths[i] && classifies(
            before,
            after,
            paths[i],
            ops[i].1,
            algo,
            c,
        )
}

/// A member of `name` in both archives is either unchanged or a pair that
/// `diff` accepts.
pub open spec fn path_diffable(
    before: Members,
    after: Members,
    name: Seq<char>,
    algo: DiffAlgorithm,
) -> bool {
    match (lookup(before, name), lookup(after, name)) {
        (Some(b), Some(a)) => b == a || diff_possible(algo, b, a),
        _ => true,
    }
}

/// Every path of either archive is `path_diffable`.
pub open spec fn all_diffable(before: Members, after: Members, algo: DiffAlgorithm) -> bool {
    forall|k: int|
        0 <= k < all_paths(before, after).len() ==> #[trigger] path_diffable(
            before,
            after,
            all_paths(before, after)[k],
            algo,
        )
}

proof fn lemma_distinct_names_from(s: Seq<Seq<char>>, k: int)
    requires
        0 <= k < distinct_names(s).len(),
    ensures
        s.contains(distinct_names(s)[k]),
    decreases s.len(),
{
    if s.len() > 0 {
        let d = distinct_names(s.drop_last());
        if k < d.len() {
            lemma_distinct_names_from(s.drop_last(), k);
            let j = choose|j: int| 0 <= j < s.drop_last().len() && s.drop_last()[j] == d[k];
            assert(s[j] == d[k]);
        } else {
            assert(s[s.len() - 1] == s.last());
        }
    }
}

proof fn lemma_lookup_found(m: Members, j: int)
    requires
        0 <= j < m.len(),
    ensures
        lookup(m, m[j].0) is Some,
    decreases m.len(),
{
    if j > 0 && m[0].0 != m[j].0 {
        assert(m.skip(1)[j - 1] == m[j]);
        lemma_lookup_found(m.skip(1), j - 1);
    }
}

proof fn lemma_path_is_member(before: Members, after: Members, k: int)
    requires
        0 <= k < all_paths(before, after).len(),
    ensures
        lookup(before, all_paths(before, after)[k]) is Some || lookup(
            after,
            all_paths(before, after)[k],
        ) is Some,
{
    let s = member_names(before) + member_names(after);
    lemma_distinct_names_from(s, k);
    let j = choose|j: int| 0 <= j < s.len() && s[j] == all_paths(before, after)[k];
    if j < before.len() {
        lemma_lookup_found(before, j);
    } else {
        lemma_lookup_found(after, j - before.len());
    }
}

/// `a` and `b` hold the same bytes.
pub fn bytes_equal(a: &[u8], b: &[u8]) -> (r: bool)
    ensures
        r == (a@ == b@),
{
    if a.len() != b.len() {
        return false;
    }
    let mut i: usize = 0;
    while i < a.len()
        invariant
            a@.len() == b@.len(),
            i <= a@.len(),
            a@.subrange(0, i as int) == b@.subrange(0, i as int),
        decreases a@.len() - i,
    {
        if a[i] != b[i] {
            assert(a@[i as int] != b@[i as int]);
            return false;
        }
        i = i + 1;
        assert(a@.subrange(0, i as int) =~= b@.subrange(0, i as int));
    }
    assert(a@ =~= a@.subrange(0, i as int));
    assert(b@ =~= b@.subrange(0, i as int));
    true
}

/// Index of the first member of `m` named `name`.
pub fn find_member(m: &Vec<(String, Vec<u8>)>, name: &String) -> (r: Option<usize>)
    ensures
        r matches Some(i) ==> i < m@.len() && lookup(members_view(m@), name@) == Some(
            m@[i as int].1@,
        ),
        r is None ==> lookup(members_view(m@), name@) is None,
{
    let ghost mv = members_view(m@);
    let mut i: usize = 0;
    assert(mv.skip(0) =~= mv);
    while i < m.len()
        invariant
            i <= m@.len(),
            mv == members_view(m@),
            lookup(mv, name@) == lookup(mv.skip(i as int), name@),
        decreases m@.len() - i,
    {
        assert(mv.skip(i as int)[0] == mv[i as int]);
        if m[i].0 == *name {
            return Some(i);
        }
        assert(mv.skip(i as int).skip(1) =~= mv.skip(i + 1));
        i = i + 1;
    }
    assert(mv.skip(i as int).len() == 0);
    None
}

/// `s` occurs in `v`.
fn contains_string(v: &Vec<String>, s: &String) -> (r: bool)
    ensures
        r == strings_view(v@).contains(s@),
{
    let mut i: usize = 0;
    while i < v.len()
        invariant
            i <= v@.len(),
            forall|k: int| 0 <= k < i ==> strings_view(v@)[k] != s@,
        decreases v@.len() - i,
    {
        if v[i] == *s {
            assert(strings_view(v@)[i as int] == s@);
            return true;
        }
        i = i + 1;
    }
    false
}

/// Appends to `paths` each path of `m` that it does not hold yet.
fn add_paths(paths: &mut Vec<String>, m: &Vec<(String, Vec<u8>)>, Ghost(prefix): Ghost<
    Seq<Seq<char>>,
>)
    requires
        strings_view(old(paths)@) == distinct_names(prefix),
    ensures
        strings_view(final(paths)@) == distinct_names(prefix + member_names(members_view(m@))),
{
    let ghost names = member_names(members_view(m@));
    let mut j: usize = 0;
    assert(prefix + names.take(0) =~= prefix);
    while j < m.len()
        invariant
            j <= m@.len(),
            names == member_names(members_view(m@)),
            strings_view(paths@) == distinct_names(prefix + names.take(j as int)),
        decreases m@.len() - j,
    {
        let ghost before = paths@;
        let name = &m[j].0;
        assert((prefix + names.take(j + 1)).drop_last() =~= prefix + names.take(j as int));
        assert((prefix + names.take(j + 1)).last() == name@);
        if !contains_string(paths, name) {
            paths.push(name.clone());
            assert(strings_view(paths@) =~= strings_view(before).push(name@));
        }
        j = j + 1;
    }
    assert(names.take(j as int) =~= names);
}

/// Decides what happens to each path of either archive: members in both
/// with equal bytes stay, with different bytes get a patch from `diff`;
/// members only in the source are deleted; members only in the target are
/// put whole (a directory entry as its zero bytes).
#[verifier::spinoff_prover]
pub fn process_directory(
    before: &Vec<(String, Vec<u8>)>,
    after: &Vec<(String, Vec<u8>)>,
    diff_algorithm: DiffAlgorithm,
    compress_algorithm: CompressAlgorithm,
) -> (r: Result<Vec<(String, Operation)>, Error>)
    ensures
        r matches Ok(ops) ==> is_operations_for(
            members_view(before@),
            members_view(after@),
            diff_algorithm,
            compress_algorithm,
            entries_view(ops@),
        ),
        r is Ok <==> all_diffable(members_view(before@), members_view(after@), diff_algorithm),
        r matches Err(e) ==> e is BidiffError,
{
    let ghost bv = members_view(before@);
    let ghost av = members_view(after@);
    let mut all_files: Vec<String> = Vec::new();
    assert(strings_view(all_files@) =~= distinct_names(Seq::<Seq<char>>::empty()));
    add_paths(&mut all_files, before, Ghost(Seq::empty()));
    assert(Seq::<Seq<char>>::empty() + member_names(bv) =~= member_names(bv));
    add_paths(&mut all_files, after, Ghost(member_names(bv)));
    let ghost paths = all_paths(bv, av);
    assert(strings_view(all_files@) == paths);
    let mut patches: Vec<(String, Operation)> = Vec::new();
    let mut i: usize = 0;
    while i < all_files.len()
        invariant
            i <= all_files@.len(),
            bv == members_view(before@),
            av == members_view(after@),
            paths == all_paths(bv, av),
            strings_view(all_files@) == paths,
            entries_view(patches@).len() == i,
            forall|k: int| 0 <= k < i ==> #[trigger] path_diffable(bv, av, paths[k], diff_algorithm),
            forall|k: int|
                0 <= k < i ==> #[trigger] entries_view(patches@)[k].0 == paths[k] && classifies(
                    bv,
                    av,
                    paths[k],
                    entries_view(patches@)[k].1,
                    diff_algorithm,
                    compress_algorithm,
                ),
        decreases all_files@.len() - i,
    {
        let path = &all_files[i];
        assert(paths[i as int] == path@);
        proof {
            lemma_path_is_member(bv, av, i as int);
        }
        let op = match (find_member(before, path), find_member(after, path)) {
            (Some(b), Some(a)) => {
                if bytes_equal(before[b].1.as_slice(), after[a].1.as_slice()) {
                    Operation::FileStaysSame
                } else {
                    match diff(
                        before[b].1.as_slice(),
                        after[a].1.as_slice(),
                        diff_algorithm,
                        compress_algorithm,
                    ) {
                        Ok(patch) => Operation::Patch(patch),
                        Err(e) => {
                            assert(!path_diffable(bv, av, paths[i as int], diff_algorithm));
                            return Err(e);
                        },
                    }
                }
            },
            (Some(_), None) => Operation::DeleteFile,
            (None, Some(a)) => Operation::PutFile(copy_bytes(after[a].1.as_slice())),
            (None, None) => {
                assert(false);
                Operation::DeleteFile
            },
        };
        let ghost prev = patches@;
        patches.push((path.clone(), op));
        proof {
            assert forall|k: int| 0 <= k < i + 1 implies #[trigger] entries_view(patches@)[k].0
                == paths[k] && classifies(
                bv,
                av,
                paths[k],
                entries_view(patches@)[k].1,
                diff_algorithm,
                compress_algorithm,
            ) by {
                if k < i {
                    assert(patches@[k] == prev[k]);
                    assert(entries_view(prev)[k] == entries_view(patches@)[k]);
                }
            }
        }
        i = i + 1;
    }
    assert(all_diffable(bv, av, diff_algorithm));
    Ok(patches)
}

/// The members that the zip crate lists for the archive `archive`, by
/// index: each entry's name and the bytes read back from it.
pub uninterp spec fn zip_listing(archive: Seq<u8>) -> Seq<(Seq<char>, Seq<u8>)>;

/// `zip::ZipArchive::new` accepts the archive `archive`.
pub uninterp spec fn zip_opens(archive: Seq<u8>) -> bool;

/// Entry `index` of the archive `archive` can be opened and read to the end.
pub uninterp spec fn zip_member_reads(archive: Seq<u8>, index: int) -> bool;

/// The zip reader accepts the archive and every one of its entries.
pub open spec fn zip_readable(archive: Seq<u8>) -> bool {
    &&& zip_opens(archive)
    &&& forall|i: int|
        0 <= i < zip_listing(archive).len() ==> #[trigger] zip_member_reads(archive, i)
}

/// Relies on `zip::ZipArchive::new` and `ZipArchive::len`: the number of
/// entries of the archive.
#[verifier::external_body]
fn zip_member_count(archive: &[u8]) -> (r: Result<usize, Error>)
    ensures
        r is Ok <==> zip_opens(archive@),
        r matches Ok(n) ==> n == zip_listing(archive@).len(),
        r matches Err(e) ==> e is ZipError,
{
    match zip::ZipArchive::new(std::io::Cursor::new(archive)) {
        Ok(a) => Ok(a.len()),
        Err(e) => Err(Error::ZipError(e.to_string())),
    }
}

/// Relies on `zip::ZipArchive::by_index`: the name of entry `index` and the
/// bytes read from it to the end.
#[verifier::external_body]
fn zip_member(archive: &[u8], index: usize) -> (r: Result<(String, Vec<u8>), Error>)
    requires
        zip_opens(archive@),
        index < zip_listing(archive@).len(),
    ensures
        r is Ok <==> zip_member_reads(archive@, index as int),
        r matches Ok((name, contents)) ==> zip_listing(archive@)[index as int] == (
            name@,
            contents@,
        ),
        r matches Err(e) ==> e is ZipError || e is IoError,
{
    let mut a = zip::ZipArchive::new(std::io::Cursor::new(archive)).map_err(
        |e| Error::ZipError(e.to_string()),
    )?;
    let mut file = a.by_index(index).map_err(|e| Error::ZipError(e.to_string()))?;
    let mut contents = Vec::new();
    std::io::Read::read_to_end(&mut file, &mut contents).map_err(
        |e| Error::IoError(e.to_string()),
    )?;
    Ok((file.name().to_string(), contents))
}

/// One entry handed to the zip writer: path, contents, and whether it is a
/// directory entry.
pub type WriterEntry = (Seq<char>, Seq<u8>, bool);

/// An archive being written into memory, stored uncompressed.
#[verifier::external_body]
pub struct ArchiveWriter {
    inner: zip::ZipWriter<std::io::Cursor<Vec<u8>>>,
}

/// The entries handed to the writer `w` so far, in order.
pub uninterp spec fn written_entries(w: ArchiveWriter) -> Seq<(Seq<char>, Seq<u8>, bool)>;

/// `zip::ZipWriter` takes `entry` after the entries `prior` (it refuses, for
/// one, a path that is already there).
pub uninterp spec fn zip_accepts(
    prior: Seq<(Seq<char>, Seq<u8>, bool)>,
    entry: (Seq<char>, Seq<u8>, bool),
) -> bool;

/// `zip::ZipWriter::finish` succeeds after the entries `entries`.
pub uninterp spec fn zip_finishes(entries: Seq<(Seq<char>, Seq<u8>, bool)>) -> bool;

/// The archive bytes that `zip::ZipWriter::finish` hands back after the
/// entries `entries`, each stored uncompressed. Without the crate's `time`
/// feature every entry carries the same fixed date, so these bytes depend on
/// the entries alone.
pub uninterp spec fn zip_written(entries: Seq<(Seq<char>, Seq<u8>, bool)>) -> Seq<u8>;

/// Relies on `zip::ZipWriter::new` over an empty in-memory buffer.
#[verifier::external_body]
fn zip_writer_new() -> (r: ArchiveWriter)
    ensures
        written_entries(r) == Seq::<WriterEntry>::empty(),
{
    ArchiveWriter { inner: zip::ZipWriter::new(std::io::Cursor::new(Vec::new())) }
}

/// Relies on `zip::ZipWriter::start_file` with the Stored method, then
/// `write_all` of the contents.
#[verifier::external_body]
fn zip_write_file(w: &mut ArchiveWriter, name: &str, contents: &[u8]) -> (r: Result<(), Error>)
    ensures
        r is Ok <==> zip_accepts(written_entries(*old(w)), (name@, contents@, false)),
        r is Ok ==> written_entries(*final(w)) == written_entries(*old(w)).push(
            (name@, contents@, false),
        ),
        r matches Err(e) ==> e is ZipError || e is IoError,
{
    let options = zip::write::SimpleFileOptions::default().compression_method(
        zip::CompressionMethod::Stored,
    );
    w.inner.start_file(name, options).map_err(|e| Error::ZipError(e.to_string()))?;
    std::io::Write::write_all(&mut w.inner, contents).map_err(|e| Error::IoError(e.to_string()))
}

/// Relies on `zip::ZipWriter::add_directory` with the Stored method.
#[verifier::external_body]
fn zip_add_directory(w: &mut ArchiveWriter, name: &str) -> (r: Result<(), Error>)
    ensures
        r is Ok <==> zip_accepts(written_entries(*old(w)), (name@, Seq::<u8>::empty(), true)),
        r is Ok ==> written_entries(*final(w)) == written_entries(*old(w)).push(
            (name@, Seq::<u8>::empty(), true),
        ),
        r matches Err(e) ==> e is ZipError,
{
    let options = zip::write::SimpleFileOptions::default().compression_method(
        zip::CompressionMethod::Stored,
    );
    w.inner.add_directory(name, options).map_err(|e| Error::ZipError(e.to_string()))
}

/// Relies on `zip::ZipWriter::finish`: writes the central directory and
/// hands back the buffer.
#[verifier::external_body]
fn zip_finish(w: ArchiveWriter) -> (r: Result<Vec<u8>, Error>)
    ensures
        r is Ok <==> zip_finishes(written_entries(w)),
        r matches Ok(out) ==> out@ == zip_written(written_entries(w)),
        r matches Err(e) ==> e is ZipError,
{
    match w.inner.finish() {
        Ok(cursor) => Ok(cursor.into_inner()),
        Err(e) => Err(Error::ZipError(e.to_string())),
    }
}

/// Reads every member of the archive `archive`, in index order.
pub fn read_members(archive: &[u8]) -> (r: Result<Vec<(String, Vec<u8>)>, Error>)
    ensures
        r is Ok <==> zip_readable(archive@),
        r matches Ok(m) ==> members_view(m@) == zip_listing(archive@),
        !zip_opens(archive@) ==> r matches Err(Error::ZipError(_)),
        r matches Err(e) ==> e is ZipError || e is IoError,
{
    let n = zip_member_count(archive)?;
    let mut members: Vec<(String, Vec<u8>)> = Vec::new();
    let mut i: usize = 0;
    while i < n
        invariant
            n == zip_listing(archive@).len(),
            zip_opens(archive@),
            i <= n,
            forall|k: int| 0 <= k < i ==> #[trigger] zip_member_reads(archive@, k),
            members@.len() == i,
            members_view(members@) == zip_listing(archive@).take(i as int),
        decreases n - i,
    {
        let member = match zip_member(archive, i) {
            Ok(m) => m,
            Err(e) => {
                return Err(e);
            },
        };
        let ghost entry = (member.0@, member.1@);
        let ghost prev = members@;
        assert(zip_listing(archive@)[i as int] == entry);
        members.push(member);
        assert forall|k: int| 0 <= k < i + 1 implies #[trigger] members_view(members@)[k]
            == zip_listing(archive@).take(i + 1)[k] by {
            if k < i {
                assert(members@[k] == prev[k]);
                assert(members_view(prev)[k] == zip_listing(archive@).take(i as int)[k]);
            }
        }
        assert(members_view(members@) =~= zip_listing(archive@).take(i + 1));
        i = i + 1;
    }
    assert(zip_listing(archive@).take(n as int) =~= zip_listing(archive@));
    Ok(members)
}

/// Relies on `zip::ZipArchive::name_for_index`: the name of entry `index`,
/// read from the central directory without opening the entry.
#[verifier::external_body]
fn zip_member_name(archive: &[u8], index: usize) -> (r: Result<String, Error>)
    requires
        zip_opens(archive@),
        index < zip_listing(archive@).len(),
    ensures
        r is Ok,
        r is Ok ==> r->Ok_0@ == zip_listing(archive@)[index as int].0,
{
    let a = zip::ZipArchive::new(std::io::Cursor::new(archive)).map_err(
        |e| Error::ZipError(e.to_string()),
    )?;
    a.name_for_index(index).map(|n| n.to_string()).ok_or(Error::ZipError(index.to_string()))
}

/// The source members as the differ sees them: a member whose path the
/// target also holds keeps its bytes; any other is only deleted, so its
/// bytes are not read and stand empty.
pub open spec fn diff_source_view(before: Members, after: Members) -> Members {
    Seq::new(
        before.len(),
        |i: int|
            (before[i].0, if lookup(after, before[i].0) is Some {
                before[i].1
            } else {
                Seq::<u8>::empty()
            }),
    )
}

/// Every entry of the source archive whose path the target also holds can
/// be read.
pub open spec fn source_reads(archive: Seq<u8>, after: Members) -> bool {
    forall|i: int|
        0 <= i < zip_listing(archive).len() && lookup(after, zip_listing(archive)[i].0) is Some
            ==> #[trigger] zip_member_reads(archive, i)
}

/// Reads the members of the source archive `archive` that the differ needs:
/// every path, and the bytes of the members whose path `after` also holds.
pub fn read_diff_source(archive: &[u8], after: &Vec<(String, Vec<u8>)>) -> (r: Result<
    Vec<(String, Vec<u8>)>,
    Error,
>)
    ensures
        r is Ok <==> zip_opens(archive@) && source_reads(archive@, members_view(after@)),
        r matches Ok(m) ==> members_view(m@) == diff_source_view(
            zip_listing(archive@),
            members_view(after@),
        ),
        r matches Err(e) ==> e is ZipError || e is IoError,
        !zip_opens(archive@) ==> r matches Err(Error::ZipError(_)),
{
    let n = zip_member_count(archive)?;
    let ghost view = diff_source_view(zip_listing(archive@), members_view(after@));
    let mut members: Vec<(String, Vec<u8>)> = Vec::new();
    let mut i: usize = 0;
    while i < n
        invariant
            n == zip_listing(archive@).len(),
            zip_opens(archive@),
            i <= n,
            view == diff_source_view(zip_listing(archive@), members_view(after@)),
            forall|k: int|
                0 <= k < i && lookup(members_view(after@), zip_listing(archive@)[k].0) is Some
                    ==> #[trigger] zip_member_reads(archive@, k),
            members@.len() == i,
            members_view(members@) == view.take(i as int),
        decreases n - i,
    {
        let name = zip_member_name(archive, i)?;
        let member = if find_member(after, &name).is_some() {
            match zip_member(archive, i) {
                Ok(m) => m,
                Err(e) => {
                    return Err(e);
                },
            }
        } else {
            (name, Vec::new())
        };
        let ghost entry = (member.0@, member.1@);
        let ghost prev = members@;
        assert(view[i as int] == entry);
        members.push(member);
        assert forall|k: int| 0 <= k < i + 1 implies #[trigger] members_view(members@)[k]
            == view.take(i + 1)[k] by {
            if k < i {
                assert(members@[k] == prev[k]);
                assert(members_view(prev)[k] == view.take(i as int)[k]);
            }
        }
        assert(members_view(members@) =~= view.take(i + 1));
        i = i + 1;
    }
    assert(view.take(n as int) =~= view);
    Ok(members)
}

proof fn lemma_same_names_same_index(x: Members, y: Members, name: Seq<char>)
    requires
        member_names(x) == member_names(y),
    ensures
        member_index(x, name) == member_index(y, name),
    decreases x.len(),
{
    assert(x.len() == member_names(x).len());
    if x.len() > 0 {
        assert(member_names(x)[0] == x[0].0);
        assert(member_names(y)[0] == y[0].0);
        assert(member_names(x.skip(1)) =~= member_names(x).skip(1));
        assert(member_names(y.skip(1)) =~= member_names(y).skip(1));
        lemma_same_names_same_index(x.skip(1), y.skip(1), name);
    }
}

/// Leaving the bytes of source-only members unread changes neither the paths
/// nor the operations the differ records, nor whether it succeeds.
proof fn lemma_diff_source_view(before: Members, after: Members, algo: DiffAlgorithm)
    ensures
        member_names(diff_source_view(before, after)) == member_names(before),
        all_paths(diff_source_view(before, after), after) == all_paths(before, after),
        forall|name: Seq<char>|
            #![trigger lookup(before, name)]
            lookup(diff_source_view(before, after), name) is Some == lookup(before, name) is Some
                && (lookup(after, name) is Some ==> lookup(diff_source_view(before, after), name)
                == lookup(before, name)),
{
    let v = diff_source_view(before, after);
    assert(member_names(v) =~= member_names(before));
    assert forall|name: Seq<char>|
        #![trigger lookup(before, name)]
        lookup(v, name) is Some == lookup(before, name) is Some && (lookup(after, name) is Some
            ==> lookup(v, name) == lookup(before, name)) by {
        lemma_same_names_same_index(v, before, name);
        lemma_member_index(v, name);
        lemma_member_index(before, name);
    }
}

/// Makes the patch set that turns the archive `before` into the archive
/// `after`: the source digest, one operation per path of either archive,
/// and the digest of the encoded operations.
///
/// Every member of the target is read; of the source, the members whose
/// path the target also holds. A member that cannot be read fails the diff
/// with `ZipError` or `IoError`.
#[verifier::spinoff_prover]
pub fn diff_archives(
    before: &[u8],
    after: &[u8],
    diff_algorithm: DiffAlgorithm,
    compress_algorithm: CompressAlgorithm,
) -> (r: Result<PatchSet, Error>)
    ensures
        r matches Ok(ps) ==> {
            &&& ps.hash_before@ == md5_hex(before@)
            &&& ps.operations_hash@ == md5_hex(operations_bytes(ps.operations@))
            &&& is_operations_for(
                zip_listing(before@),
                zip_listing(after@),
                diff_algorithm,
                compress_algorithm,
                ps.operations@,
            )
        },
        r is Ok <==> {
            &&& zip_opens(before@)
            &&& zip_readable(after@)
            &&& source_reads(before@, zip_listing(after@))
            &&& all_diffable(zip_listing(before@), zip_listing(after@), diff_algorithm)
        },
        r matches Err(e) ==> e is ZipError || e is IoError || e is BidiffError,
        !zip_opens(before@) ==> r matches Err(Error::ZipError(_)),
        zip_opens(before@) && !zip_opens(after@) ==> r matches Err(Error::ZipError(_)),
{
    let hash_before = hash(before);
    let _ = zip_member_count(before)?;
    let files_after = read_members(after)?;
    let files_before = read_diff_source(before, &files_after)?;
    let ghost bl = zip_listing(before@);
    let ghost al = zip_listing(after@);
    proof {
        lemma_diff_source_view(bl, al, diff_algorithm);
    }
    let patches = match process_directory(
        &files_before,
        &files_after,
        diff_algorithm,
        compress_algorithm,
    ) {
        Ok(p) => p,
        Err(e) => {
            proof {
                let v = diff_source_view(bl, al);
                assert forall|k: int| 0 <= k < all_paths(v, al).len() implies #[trigger] path_diffable(
                    v,
                    al,
                    all_paths(v, al)[k],
                    diff_algorithm,
                ) == path_diffable(bl, al, all_paths(bl, al)[k], diff_algorithm) by {
                    assert(lookup(bl, all_paths(bl, al)[k]) is Some ==> true);
                }
                assert(!all_diffable(bl, al, diff_algorithm));
            }
            return Err(e);
        },
    };
    proof {
        let v = diff_source_view(bl, al);
        let ops = entries_view(patches@);
        assert forall|i: int| 0 <= i < ops.len() implies #[trigger] ops[i].0 == all_paths(bl, al)[i]
            && classifies(bl, al, all_paths(bl, al)[i], ops[i].1, diff_algorithm, compress_algorithm)
            by {
            assert(ops[i].0 == all_paths(v, al)[i]);
            assert(lookup(bl, all_paths(bl, al)[i]) is Some ==> true);
        }
        assert forall|k: int| 0 <= k < all_paths(bl, al).len() implies #[trigger] path_diffable(
            bl,
            al,
            all_paths(bl, al)[k],
            diff_algorithm,
        ) by {
            assert(path_diffable(v, al, all_paths(v, al)[k], diff_algorithm));
            assert(lookup(bl, all_paths(bl, al)[k]) is Some ==> true);
        }
    }
    let operations = Operations(patches);
    let operations_hash = operations.hash()?;
    Ok(PatchSet { operations, hash_before, operations_hash })
}

/// What applying `ops` to the members `base` writes, file by file, when
/// every member it reads exists and every patch applies.
pub open spec fn planned(base: Members, readable: Set<int>, ops: Seq<Entry>) -> Option<Members>
    decreases ops.len(),
{
    if ops.len() == 0 {
        Some(Seq::empty())
    } else {
        match planned(base, readable, ops.drop_last()) {
            None => None,
            Some(prev) => {
                let path = ops.last().0;
                match ops.last().1 {
                    OperationView::DeleteFile => Some(prev),
                    OperationView::PutFile(b) => Some(prev.push((path, b))),
                    OperationView::FileStaysSame => match fetch(base, readable, path) {
                        Some(c) => Some(prev.push((path, c))),
                        None => None,
                    },
                    OperationView::Patch(p) => match fetch(base, readable, path) {
                        Some(c) => if applies(c, p) {
                            Some(prev.push((path, reconstructed(c, p))))
                        } else {
                            None
                        },
                        None => None,
                    },
                }
            },
        }
    }
}

/// Planning `ops` stops at a patched member whose bytes do not have the
/// patch's source digest.
pub open spec fn plan_stops_on_source_digest(
    base: Members,
    readable: Set<int>,
    ops: Seq<Entry>,
) -> bool
    decreases ops.len(),
{
    if ops.len() == 0 {
        false
    } else if planned(base, readable, ops.drop_last()) is None {
        plan_stops_on_source_digest(base, readable, ops.drop_last())
    } else {
        match ops.last().1 {
            OperationView::Patch(p) => match fetch(base, readable, ops.last().0) {
                Some(c) => md5_hex(c) != p.before_hash,
                None => false,
            },
            _ => false,
        }
    }
}

proof fn lemma_plan_stop_prefix(base: Members, readable: Set<int>, ops: Seq<Entry>, k: int)
    requires
        0 <= k <= ops.len(),
        planned(base, readable, ops.take(k)) is None,
    ensures
        plan_stops_on_source_digest(base, readable, ops) == plan_stops_on_source_digest(
            base,
            readable,
            ops.take(k),
        ),
    decreases ops.len(),
{
    if k == ops.len() {
        assert(ops.take(k) =~= ops);
    } else {
        assert(ops.drop_last().take(k) =~= ops.take(k));
        lemma_planned_prefix_fails(base, readable, ops.drop_last(), k);
        lemma_plan_stop_prefix(base, readable, ops.drop_last(), k);
    }
}

proof fn lemma_planned_prefix_fails(base: Members, readable: Set<int>, ops: Seq<Entry>, k: int)
    requires
        0 <= k <= ops.len(),
        planned(base, readable, ops.take(k)) is None,
    ensures
        planned(base, readable, ops) is None,
    decreases ops.len(),
{
    if k == ops.len() {
        assert(ops.take(k) =~= ops);
    } else {
        assert(ops.drop_last().take(k) =~= ops.take(k));
        lemma_planned_prefix_fails(base, readable, ops.drop_last(), k);
    }
}

/// Position of the first member of `m` named `name`.
pub open spec fn member_index(m: Members, name: Seq<char>) -> Option<int>
    decreases m.len(),
{
    if m.len() == 0 {
        None
    } else if m[0].0 == name {
        Some(0)
    } else {
        match member_index(m.skip(1), name) {
            Some(i) => Some(i + 1),
            None => None,
        }
    }
}

/// The entries of the archive `archive` that can be read to the end.
pub open spec fn readable_indices(archive: Seq<u8>) -> Set<int> {
    Set::new(|i: int| zip_member_reads(archive, i))
}

/// The contents of the member of `base` named `name`, when it exists and its
/// entry is among `readable`.
pub open spec fn fetch(base: Members, readable: Set<int>, name: Seq<char>) -> Option<Seq<u8>> {
    match member_index(base, name) {
        Some(i) => if readable.contains(i) {
            Some(base[i].1)
        } else {
            None
        },
        None => None,
    }
}

proof fn lemma_member_index(m: Members, name: Seq<char>)
    ensures
        member_index(m, name) matches Some(i) ==> 0 <= i < m.len() && m[i].0 == name && lookup(
            m,
            name,
        ) == Some(m[i].1),
        member_index(m, name) is None ==> lookup(m, name) is None,
    decreases m.len(),
{
    if m.len() > 0 && m[0].0 != name {
        lemma_member_index(m.skip(1), name);
        if let Some(i) = member_index(m.skip(1), name) {
            assert(m.skip(1)[i] == m[i + 1]);
        }
    }
}

/// Relies on `zip::ZipArchive::by_name`, which looks the name up among the
/// entries (the first, and only, entry of that name) and reads it as
/// `by_index` does; a name that is not there gives `FileNotFound`.
#[verifier::external_body]
fn zip_member_named(archive: &[u8], name: &str) -> (r: Result<Option<Vec<u8>>, Error>)
    requires
        zip_opens(archive@),
    ensures
        r is Ok <==> (member_index(zip_listing(archive@), name@) is Some ==> zip_member_reads(
            archive@,
            member_index(zip_listing(archive@), name@)->Some_0,
        )),
        (r is Ok && r->Ok_0 is None) ==> member_index(zip_listing(archive@), name@) is None,
        (r is Ok && r->Ok_0 is Some) ==> member_index(zip_listing(archive@), name@) is Some
            && r->Ok_0->Some_0@ == zip_listing(archive@)[member_index(
            zip_listing(archive@),
            name@,
        )->Some_0].1,
        r is Err ==> r->Err_0 is ZipError || r->Err_0 is IoError,
{
    let mut a = zip::ZipArchive::new(std::io::Cursor::new(archive)).map_err(
        |e| Error::ZipError(e.to_string()),
    )?;
    let mut file = match a.by_name(name) {
        Ok(file) => file,
        Err(zip::result::ZipError::FileNotFound) => return Ok(None),
        Err(e) => return Err(Error::ZipError(e.to_string())),
    };
    let mut contents = Vec::new();
    std::io::Read::read_to_end(&mut file, &mut contents).map_err(
        |e| Error::IoError(e.to_string()),
    )?;
    Ok(Some(contents))
}

/// Reads the member of the archive `archive` named `name`.
pub fn read_member_named(archive: &[u8], name: &String) -> (r: Result<Vec<u8>, Error>)
    requires
        zip_opens(archive@),
    ensures
        r is Ok <==> fetch(zip_listing(archive@), readable_indices(archive@), name@) is Some,
        r matches Ok(c) ==> fetch(zip_listing(archive@), readable_indices(archive@), name@)
            == Some(c@),
        r matches Err(e) ==> e is ZipError || e is IoError,
{
    match zip_member_named(archive, name.as_str()) {
        Ok(Some(c)) => Ok(c),
        Ok(None) => Err(Error::ZipError("specified file not found in archive".to_string())),
        Err(e) => Err(e),
    }
}

/// Computes the members that applying `ops` to the archive `base` writes,
/// in order, reading from `base` only the members an operation needs.
pub fn plan_members(base: &[u8], ops: &Vec<(String, Operation)>) -> (r: Result<
    Vec<(String, Vec<u8>)>,
    Error,
>)
    requires
        zip_opens(base@),
    ensures
        r matches Ok(files) ==> planned(zip_listing(base@), readable_indices(base@), entries_view(ops@)) == Some(
            members_view(files@),
        ),
        r is Ok <==> planned(zip_listing(base@), readable_indices(base@), entries_view(ops@)) is Some,
        plan_stops_on_source_digest(zip_listing(base@), readable_indices(base@), entries_view(ops@)) ==> r matches Err(
            Error::BeforeHashMismatch,
        ),
        r matches Err(e) ==> !(e is OperationsHashMismatch),
{
    let ghost bv = zip_listing(base@);
    let ghost rd = readable_indices(base@);
    let ghost ov = entries_view(ops@);
    let mut files: Vec<(String, Vec<u8>)> = Vec::new();
    let mut i: usize = 0;
    assert(ov.take(0) =~= Seq::<Entry>::empty());
    assert(members_view(files@) =~= Seq::<(Seq<char>, Seq<u8>)>::empty());
    while i < ops.len()
        invariant
            i <= ops@.len(),
            zip_opens(base@),
            bv == zip_listing(base@),
            rd == readable_indices(base@),
            ov == entries_view(ops@),
            planned(bv, rd, ov.take(i as int)) == Some(members_view(files@)),
        decreases ops@.len() - i,
    {
        let path = &ops[i].0;
        let ghost prev = files@;
        assert(ov.take(i + 1).drop_last() =~= ov.take(i as int));
        assert(ov.take(i + 1).last() == ov[i as int]);
        match &ops[i].1 {
            Operation::Patch(patch) => {
                let original = match read_member_named(base, path) {
                    Ok(c) => c,
                    Err(e) => {
                        proof {
                            lemma_planned_prefix_fails(bv, rd, ov, i + 1);
                            lemma_plan_stop_prefix(bv, rd, ov, i + 1);
                        }
                        return Err(e);
                    },
                };
                let new_contents = match apply(original.as_slice(), patch) {
                    Ok(c) => c,
                    Err(e) => {
                        proof {
                            lemma_planned_prefix_fails(bv, rd, ov, i + 1);
                            lemma_plan_stop_prefix(bv, rd, ov, i + 1);
                        }
                        return Err(e);
                    },
                };
                files.push((path.clone(), new_contents));
            },
            Operation::PutFile(contents) => {
                files.push((path.clone(), copy_bytes(contents.as_slice())));
            },
            Operation::DeleteFile => {},
            Operation::FileStaysSame => {
                let original = match read_member_named(base, path) {
                    Ok(c) => c,
                    Err(e) => {
                        proof {
                            lemma_planned_prefix_fails(bv, rd, ov, i + 1);
                            lemma_plan_stop_prefix(bv, rd, ov, i + 1);
                        }
                        return Err(e);
                    },
                };
                files.push((path.clone(), original));
            },
        }
        assert(members_view(files@) =~= planned(bv, rd, ov.take(i + 1))->Some_0);
        i = i + 1;
    }
    assert(ov.take(i as int) =~= ov);
    Ok(files)
}

/// `r` is the outcome of `apply_archive(base, ps)`: both guard digests are
/// checked before anything is written; it succeeds exactly when the source
/// archive opens, every member an operation reads can be read and planned and the zip writer takes every
/// entry; and it returns the archive the writer makes of those entries.
pub open spec fn is_archive_apply_outcome(
    base: Seq<u8>,
    ps: PatchSetView,
    r: Result<Vec<u8>, Error>,
) -> bool {
    let entries = archive_entries(
        planned(zip_listing(base), readable_indices(base), ps.operations)->Some_0,
    );
    &&& md5_hex(base) != ps.hash_before ==> (r is Err && r->Err_0 is BeforeHashMismatch)
    &&& ((md5_hex(base) == ps.hash_before && md5_hex(operations_bytes(ps.operations))
        != ps.operations_hash) <==> (r is Err && r->Err_0 is OperationsHashMismatch))
    &&& r is Ok <==> {
        &&& md5_hex(base) == ps.hash_before
        &&& md5_hex(operations_bytes(ps.operations)) == ps.operations_hash
        &&& zip_opens(base)
        &&& planned(zip_listing(base), readable_indices(base), ps.operations) is Some
        &&& zip_accepts_all(entries)
        &&& zip_finishes(entries)
    }
    &&& r is Ok ==> r->Ok_0@ == zip_written(entries)
    &&& (md5_hex(base) == ps.hash_before && md5_hex(operations_bytes(ps.operations))
        == ps.operations_hash && zip_opens(base) && plan_stops_on_source_digest(
        zip_listing(base),
        readable_indices(base),
        ps.operations,
    )) ==> (r is Err && r->Err_0 is BeforeHashMismatch)
}

/// `path` names a directory entry: it ends in `/`.
pub fn is_directory_path(path: &str) -> (r: bool)
    ensures
        r == (path@.len() > 0 && path@.last() == '/'),
{
    let n = path.unicode_len();
    n > 0 && path.get_char(n - 1) == '/'
}

/// Builds the target archive from the source archive `base` and `delta`:
/// the file members in operation order, each stored uncompressed, then one
/// directory entry for each parent directory of a planned member. An empty
/// member whose path ends in `/` is a directory entry and is written among
/// the directories, which its own path puts there.
pub fn apply_archive(base: &[u8], delta: &PatchSet) -> (r: Result<Vec<u8>, Error>)
    ensures
        is_archive_apply_outcome(base@, delta@, r),
{
    let base_hash = hash(base);
    if base_hash != delta.hash_before {
        return Err(Error::BeforeHashMismatch);
    }
    let operations_hash = delta.operations.hash()?;
    if delta.operations_hash != operations_hash {
        return Err(Error::OperationsHashMismatch);
    }
    let _ = zip_member_count(base)?;
    let files = plan_members(base, &delta.operations.0)?;
    let directories = directories_of_members(&files);
    let entries = archive_entries_of(&files, &directories);
    let ghost all = writer_view(entries@);
    assert(all == archive_entries(planned(zip_listing(base@), readable_indices(base@), delta.operations@)->Some_0));
    let mut writer = zip_writer_new();
    let mut i: usize = 0;
    assert(all.take(0) =~= Seq::<WriterEntry>::empty());
    while i < entries.len()
        invariant
            i <= entries@.len(),
            all == writer_view(entries@),
            all == archive_entries(planned(zip_listing(base@), readable_indices(base@), delta.operations@)->Some_0),
            md5_hex(base@) == delta.hash_before@,
            md5_hex(operations_bytes(delta.operations@)) == delta.operations_hash@,
            zip_opens(base@),
            planned(zip_listing(base@), readable_indices(base@), delta.operations@) is Some,
            written_entries(writer) == all.take(i as int),
            zip_accepts_all(all.take(i as int)),
            forall|k: int| 0 <= k < all.len() && (#[trigger] all[k]).2 ==> all[k].1.len() == 0,
        decreases entries@.len() - i,
    {
        let ghost prev = all.take(i as int);
        assert(all.take(i + 1) =~= prev.push(all[i as int]));
        assert(all.take(i + 1).drop_last() =~= prev);
        let written = if entries[i].2 {
            assert(all[i as int].1 =~= Seq::<u8>::empty());
            zip_add_directory(&mut writer, entries[i].0.as_str())
        } else {
            zip_write_file(&mut writer, entries[i].0.as_str(), entries[i].1.as_slice())
        };
        match written {
            Ok(()) => {},
            Err(e) => {
                proof {
                    if zip_accepts_all(all) {
                        lemma_accepts_prefix(all, i + 1);
                    }
                }
                return Err(e);
            },
        }
        i = i + 1;
    }
    assert(all.take(i as int) =~= all);
    zip_finish(writer)
}

/// A member path ending in `/`: a directory entry.
pub open spec fn is_dir_path(p: Seq<char>) -> bool {
    p.len() > 0 && p.last() == '/'
}

/// The file entries the applier writes for the members `m`, in order: an
/// empty member whose path ends in `/` is left to the directory entries.
pub open spec fn file_entries(m: Members) -> Seq<WriterEntry>
    decreases m.len(),
{
    if m.len() == 0 {
        Seq::empty()
    } else if is_dir_path(m.last().0) && m.last().1.len() == 0 {
        file_entries(m.drop_last())
    } else {
        file_entries(m.drop_last()).push((m.last().0, m.last().1, false))
    }
}

/// One empty directory entry per path of `ds`.
pub open spec fn dir_entries(ds: Seq<Seq<char>>) -> Seq<WriterEntry> {
    Seq::new(ds.len(), |i: int| (ds[i], Seq::<u8>::empty(), true))
}

/// Every entry the applier hands to the zip writer for the members `m`: the
/// file entries, then one directory entry per distinct parent directory.
pub open spec fn archive_entries(m: Members) -> Seq<WriterEntry> {
    file_entries(m) + dir_entries(distinct_names(all_dirs(member_names(m))))
}

/// The zip writer takes each entry of `s` after the ones before it.
pub open spec fn zip_accepts_all(s: Seq<WriterEntry>) -> bool
    decreases s.len(),
{
    s.len() == 0 || (zip_accepts_all(s.drop_last()) && zip_accepts(s.drop_last(), s.last()))
}

proof fn lemma_accepts_prefix(s: Seq<WriterEntry>, k: int)
    requires
        0 <= k <= s.len(),
        zip_accepts_all(s),
    ensures
        zip_accepts_all(s.take(k)),
    decreases s.len(),
{
    if k == s.len() {
        assert(s.take(k) =~= s);
    } else {
        assert(s.drop_last().take(k) =~= s.take(k));
        lemma_accepts_prefix(s.drop_last(), k);
    }
}

proof fn lemma_file_entries_are_files(m: Members)
    ensures
        forall|k: int| 0 <= k < file_entries(m).len() ==> !(#[trigger] file_entries(m)[k]).2,
    decreases m.len(),
{
    if m.len() > 0 {
        let prev = file_entries(m.drop_last());
        lemma_file_entries_are_files(m.drop_last());
        assert forall|k: int| 0 <= k < file_entries(m).len() implies !(
        #[trigger] file_entries(m)[k]).2 by {
            if k < prev.len() {
                assert(file_entries(m)[k] == prev[k]);
            }
        }
    }
}

/// The view of a list of writer entries.
pub open spec fn writer_view(v: Seq<(String, Vec<u8>, bool)>) -> Seq<WriterEntry> {
    Seq::new(v.len(), |i: int| (v[i].0@, v[i].1@, v[i].2))
}

/// Lists what the applier hands to the zip writer: the file entries of
/// `files`, then an empty directory entry for each of `dirs`.
pub fn archive_entries_of(files: &Vec<(String, Vec<u8>)>, dirs: &Vec<String>) -> (r: Vec<
    (String, Vec<u8>, bool),
>)
    ensures
        writer_view(r@) == file_entries(members_view(files@)) + dir_entries(strings_view(dirs@)),
        forall|k: int|
            0 <= k < writer_view(r@).len() && (#[trigger] writer_view(r@)[k]).2 ==> writer_view(
                r@,
            )[k].1.len() == 0,
{
    let ghost fv = members_view(files@);
    let ghost dv = strings_view(dirs@);
    let mut out: Vec<(String, Vec<u8>, bool)> = Vec::new();
    let mut i: usize = 0;
    assert(fv.take(0) =~= Seq::<(Seq<char>, Seq<u8>)>::empty());
    assert(writer_view(out@) =~= file_entries(fv.take(0)));
    while i < files.len()
        invariant
            i <= files@.len(),
            fv == members_view(files@),
            writer_view(out@) == file_entries(fv.take(i as int)),
        decreases files@.len() - i,
    {
        let ghost before = out@;
        assert(fv.take(i + 1).drop_last() =~= fv.take(i as int));
        assert(fv.take(i + 1).last() == fv[i as int]);
        if !(is_directory_path(files[i].0.as_str()) && files[i].1.len() == 0) {
            out.push((files[i].0.clone(), copy_bytes(files[i].1.as_slice()), false));
            assert(writer_view(out@) =~= writer_view(before).push(
                (fv[i as int].0, fv[i as int].1, false),
            ));
        }
        i = i + 1;
    }
    assert(fv.take(i as int) =~= fv);
    let ghost fe = file_entries(fv);
    let mut j: usize = 0;
    assert(writer_view(out@) =~= fe + dir_entries(dv.take(0)));
    while j < dirs.len()
        invariant
            j <= dirs@.len(),
            dv == strings_view(dirs@),
            fe == file_entries(fv),
            writer_view(out@) == fe + dir_entries(dv.take(j as int)),
        decreases dirs@.len() - j,
    {
        let ghost before = out@;
        let empty: Vec<u8> = Vec::new();
        assert(empty@ =~= Seq::<u8>::empty());
        out.push((dirs[j].clone(), empty, true));
        let ghost e: WriterEntry = (dv[j as int], Seq::<u8>::empty(), true);
        assert(writer_view(out@) =~= writer_view(before).push(e));
        assert(dir_entries(dv.take(j + 1)) =~= dir_entries(dv.take(j as int)).push(e));
        assert(writer_view(out@) =~= fe + dir_entries(dv.take(j + 1)));
        j = j + 1;
    }
    assert(dv.take(j as int) =~= dv);
    proof {
        lemma_file_entries_are_files(fv);
        assert forall|k: int|
            0 <= k < writer_view(out@).len() && (#[trigger] writer_view(out@)[k]).2 implies writer_view(
            out@,
        )[k].1.len() == 0 by {
            if k < fe.len() {
                assert(writer_view(out@)[k] == fe[k]);
            }
        }
    }
    out
}

/// The parent directories of each path, one path after the other.
pub open spec fn all_dirs(paths: Seq<Seq<char>>) -> Seq<Seq<char>>
    decreases paths.len(),
{
    if paths.len() == 0 {
        Seq::empty()
    } else {
        all_dirs(paths.drop_last()) + dirs_of(paths.last())
    }
}

/// Appends to `acc` each element of `items` that it does not hold yet.
fn add_distinct(acc: &mut Vec<String>, items: &Vec<String>, Ghost(prefix): Ghost<Seq<Seq<char>>>)
    requires
        strings_view(old(acc)@) == distinct_names(prefix),
    ensures
        strings_view(final(acc)@) == distinct_names(prefix + strings_view(items@)),
{
    let ghost names = strings_view(items@);
    let mut j: usize = 0;
    assert(prefix + names.take(0) =~= prefix);
    while j < items.len()
        invariant
            j <= items@.len(),
            names == strings_view(items@),
            strings_view(acc@) == distinct_names(prefix + names.take(j as int)),
        decreases items@.len() - j,
    {
        let ghost before = acc@;
        let item = &items[j];
        assert((prefix + names.take(j + 1)).drop_last() =~= prefix + names.take(j as int));
        assert((prefix + names.take(j + 1)).last() == item@);
        if !contains_string(acc, item) {
            acc.push(item.clone());
            assert(strings_view(acc@) =~= strings_view(before).push(item@));
        }
        j = j + 1;
    }
    assert(names.take(j as int) =~= names);
}

/// The distinct parent directories of the members' paths, in the order
/// they are first met.
pub fn directories_of_members(files: &Vec<(String, Vec<u8>)>) -> (r: Vec<String>)
    ensures
        strings_view(r@) == distinct_names(all_dirs(member_names(members_view(files@)))),
{
    let ghost names = member_names(members_view(files@));
    let mut dirs: Vec<String> = Vec::new();
    let mut i: usize = 0;
    assert(names.take(0) =~= Seq::<Seq<char>>::empty());
    assert(strings_view(dirs@) =~= distinct_names(Seq::<Seq<char>>::empty()));
    while i < files.len()
        invariant
            i <= files@.len(),
            names == member_names(members_view(files@)),
            strings_view(dirs@) == distinct_names(all_dirs(names.take(i as int))),
        decreases files@.len() - i,
    {
        let parents = get_directories_of_file(files[i].0.as_str());
        assert(names.take(i + 1).drop_last() =~= names.take(i as int));
        assert(names.take(i + 1).last() == files@[i as int].0@);
        add_distinct(&mut dirs, &parents, Ghost(all_dirs(names.take(i as int))));
        i = i + 1;
    }
    assert(names.take(i as int) =~= names);
    dirs
}

/// Changing the operations of a patch set without recomputing its digest
/// makes `apply_archive` fail with `OperationsHashMismatch` on the right
/// source, unless the new encoding collides with the old one under MD5. The
/// encodings themselves always differ.
pub proof fn lemma_tampered_operations_rejected(
    base: Seq<u8>,
    ps: PatchSetView,
    tampered: Seq<Entry>,
    r: Result<Vec<u8>, Error>,
)
    requires
        md5_hex(base) == ps.hash_before,
        ps.operations_hash == md5_hex(operations_bytes(ps.operations)),
        tampered != ps.operations,
        entries_fit(tampered),
        entries_fit(ps.operations),
        md5_hex(operations_bytes(tampered)) != md5_hex(operations_bytes(ps.operations)),
        is_archive_apply_outcome(
            base,
            PatchSetView { operations: tampered, ..ps },
            r,
        ),
    ensures
        r is Err && r->Err_0 is OperationsHashMismatch,
        operations_bytes(tampered) != operations_bytes(ps.operations),
{
    lemma_operations_decode(tampered);
    lemma_operations_decode(ps.operations);
}

proof fn lemma_distinct_names_keeps(s: Seq<Seq<char>>, j: int)
    requires
        0 <= j < s.len(),
    ensures
        distinct_names(s).contains(s[j]),
    decreases s.len(),
{
    let d = distinct_names(s.drop_last());
    if j < s.len() - 1 {
        lemma_distinct_names_keeps(s.drop_last(), j);
        assert(s.drop_last()[j] == s[j]);
        let k = choose|k: int| 0 <= k < d.len() && d[k] == s[j];
        assert(distinct_names(s)[k] == s[j]);
    } else if !d.contains(s.last()) {
        assert(distinct_names(s)[d.len() as int] == s[j]);
    }
}

/// Each member that `planned` writes has a target member of the same path,
/// with the same bytes or (for a patched member) the same digest; each
/// operation on a path that the target holds writes a member of that path.
proof fn lemma_planned_members(
    z1: Members,
    z2: Members,
    readable: Set<int>,
    ops: Seq<Entry>,
    algo: DiffAlgorithm,
    c: CompressAlgorithm,
)
    requires
        forall|i: int| 0 <= i < z1.len() ==> readable.contains(i),
        forall|j: int| 0 <= j < ops.len() ==> #[trigger] classifies(z1, z2, ops[j].0, ops[j].1, algo, c),
        planned(z1, readable, ops) is Some,
    ensures
        forall|k: int|
            0 <= k < planned(z1, readable, ops)->Some_0.len() ==> #[trigger] matches_target(
                z2,
                planned(z1, readable, ops)->Some_0[k],
            ),
        forall|j: int|
            0 <= j < ops.len() && lookup(z2, #[trigger] ops[j].0) is Some ==> exists|k: int|
                0 <= k < planned(z1, readable, ops)->Some_0.len() && planned(z1, readable, ops)->Some_0[k].0
                    == ops[j].0,
    decreases ops.len(),
{
    if ops.len() > 0 {
        let init = ops.drop_last();
        assert forall|j: int| 0 <= j < init.len() implies #[trigger] classifies(
            z1,
            z2,
            init[j].0,
            init[j].1,
            algo,
            c,
        ) by {
            assert(init[j] == ops[j]);
        }
        lemma_planned_members(z1, z2, readable, init, algo, c);
        lemma_member_index(z1, ops.last().0);
        let prev = planned(z1, readable, init)->Some_0;
        let out = planned(z1, readable, ops)->Some_0;
        let last = ops.last();
        assert(classifies(z1, z2, ops[ops.len() - 1].0, ops[ops.len() - 1].1, algo, c));
        assert(out.len() >= prev.len());
        assert forall|k: int| 0 <= k < prev.len() implies out[k] == prev[k] by {}
        assert forall|k: int| 0 <= k < out.len() implies #[trigger] matches_target(z2, out[k]) by {
            if k < prev.len() {
                assert(matches_target(z2, prev[k]));
            }
        }
        assert forall|j: int|
            0 <= j < ops.len() && lookup(z2, #[trigger] ops[j].0) is Some implies exists|k: int|
                0 <= k < out.len() && out[k].0 == ops[j].0 by {
            if j < init.len() {
                assert(init[j] == ops[j]);
                let k = choose|k: int| 0 <= k < prev.len() && prev[k].0 == init[j].0;
                assert(out[k] == prev[k]);
            } else {
                assert(out[prev.len() as int].0 == ops[j].0);
            }
        }
    }
}

/// `m` has a member of the same path in `z2` with the same bytes, or, for a
/// member rebuilt from a patch, bytes of the same digest.
pub open spec fn matches_target(z2: Members, m: (Seq<char>, Seq<u8>)) -> bool {
    lookup(z2, m.0) matches Some(a) && (m.1 == a || md5_hex(m.1) == md5_hex(a))
}

/// Planning the operations that `diff_archives` records between two
/// archives, on the first one with every entry readable, yields members whose paths are exactly the
/// target's: each written member has the target's bytes for its path
/// (patched members: bytes of the same digest), and every target path is
/// written.
pub proof fn lemma_planned_members_match_target(
    z1: Members,
    z2: Members,
    readable: Set<int>,
    algo: DiffAlgorithm,
    c: CompressAlgorithm,
    ops: Seq<Entry>,
    out: Members,
)
    requires
        forall|i: int| 0 <= i < z1.len() ==> readable.contains(i),
        is_operations_for(z1, z2, algo, c, ops),
        planned(z1, readable, ops) == Some(out),
    ensures
        forall|k: int| 0 <= k < out.len() ==> #[trigger] matches_target(z2, out[k]),
        forall|i: int|
            0 <= i < z2.len() ==> exists|k: int| 0 <= k < out.len() && out[k].0 == #[trigger] z2[i].0,
{
    let paths = all_paths(z1, z2);
    assert forall|j: int| 0 <= j < ops.len() implies #[trigger] classifies(
        z1,
        z2,
        ops[j].0,
        ops[j].1,
        algo,
        c,
    ) by {
        assert(ops[j].0 == paths[j]);
    }
    lemma_planned_members(z1, z2, readable, ops, algo, c);
    assert forall|i: int| 0 <= i < z2.len() implies exists|k: int|
        0 <= k < out.len() && out[k].0 == #[trigger] z2[i].0 by {
        let s = member_names(z1) + member_names(z2);
        assert(s[z1.len() + i] == z2[i].0);
        lemma_distinct_names_keeps(s, z1.len() + i);
        let j = choose|j: int| 0 <= j < paths.len() && paths[j] == z2[i].0;
        assert(ops[j].0 == paths[j]);
        lemma_lookup_found(z2, i);
        assert(lookup(z2, ops[j].0) is Some);
    }
}

proof fn lemma_distinct_names_unique(s: Seq<Seq<char>>)
    ensures
        forall|i: int, j: int|
            0 <= i < j < distinct_names(s).len() ==> distinct_names(s)[i] != distinct_names(
                s,
            )[j],
    decreases s.len(),
{
    if s.len() > 0 {
        let d = distinct_names(s.drop_last());
        lemma_distinct_names_unique(s.drop_last());
        if !d.contains(s.last()) {
            assert forall|i: int, j: int|
                0 <= i < j < distinct_names(s).len() implies distinct_names(s)[i]
                != distinct_names(s)[j] by {
                if j == d.len() {
                    assert(distinct_names(s)[i] == d[i]);
                }
            }
        }
    }
}

/// The operations that `diff_archives` records name each path once.
pub proof fn lemma_operation_paths_distinct(
    before: Members,
    after: Members,
    algo: DiffAlgorithm,
    c: CompressAlgorithm,
    ops: Seq<Entry>,
)
    requires
        is_operations_for(before, after, algo, c, ops),
    ensures
        forall|i: int, j: int| 0 <= i < j < ops.len() ==> ops[i].0 != ops[j].0,
{
    lemma_distinct_names_unique(member_names(before) + member_names(after));
    assert forall|i: int, j: int| 0 <= i < j < ops.len() implies ops[i].0 != ops[j].0 by {
        assert(ops[i].0 == all_paths(before, after)[i]);
        assert(ops[j].0 == all_paths(before, after)[j]);
    }
}

} // verus!
