use darkwing_diff::{
    apply_archive, diff_archives, get_directories_of_file, hash, process_directory,
    CompressAlgorithm, DiffAlgorithm, Error, Operation, Operations, Patch, PatchSet,
};
use std::io::{Read, Write};

fn create_test_zip(files: &[(&str, Vec<u8>)]) -> Vec<u8> {
    let mut zip = zip::ZipWriter::new(std::io::Cursor::new(Vec::new()));
    let options =
        zip::write::SimpleFileOptions::default().compression_method(zip::CompressionMethod::Stored);
    for (name, contents) in files {
        zip.start_file(*name, options).unwrap();
        zip.write_all(contents).unwrap();
    }
    zip.finish().unwrap().into_inner()
}

fn read_zip(data: &[u8]) -> Vec<(String, bool, Vec<u8>)> {
    let mut archive = zip::ZipArchive::new(std::io::Cursor::new(data)).unwrap();
    let mut out = Vec::new();
    for i in 0..archive.len() {
        let mut file = archive.by_index(i).unwrap();
        let mut contents = Vec::new();
        file.read_to_end(&mut contents).unwrap();
        out.push((file.name().to_string(), file.is_dir(), contents));
    }
    out.sort();
    out
}

fn member(name: &str, contents: &[u8]) -> (String, Vec<u8>) {
    (name.to_string(), contents.to_vec())
}

fn find<'a>(ps: &'a PatchSet, name: &str) -> &'a Operation {
    &ps.operations.0.iter().find(|(n, _)| n == name).unwrap().1
}

fn bidiff_patch(before_hash: &str, after_hash: &str, patch: Vec<u8>) -> Operation {
    Operation::Patch(Patch {
        diff_algorithm: DiffAlgorithm::Bidiff1,
        compress_algorithm: CompressAlgorithm::Uncompressed,
        before_hash: before_hash.to_string(),
        after_hash: after_hash.to_string(),
        patch,
    })
}

#[test]
fn directories_of_paths() {
    assert_eq!(get_directories_of_file("a/b/c.txt"), vec!["a", "a/b"]);
    assert_eq!(get_directories_of_file("a//b/c"), vec!["a", "a/b"]);
    assert_eq!(get_directories_of_file("/x"), Vec::<String>::new());
    assert_eq!(get_directories_of_file("file.txt"), Vec::<String>::new());
    assert_eq!(get_directories_of_file("dir1/"), vec!["dir1"]);
    assert_eq!(get_directories_of_file(""), Vec::<String>::new());
    assert_eq!(get_directories_of_file("é/ü/"), vec!["é", "é/ü"]);
}

#[test]
fn classification_of_members() {
    let before = vec![member("same", b"1"), member("changed", b"old"), member("gone", b"x")];
    let after = vec![member("new", b"n"), member("changed", b"new"), member("same", b"1")];
    let ops =
        process_directory(&before, &after, DiffAlgorithm::Rsync020, CompressAlgorithm::Uncompressed)
            .unwrap();
    let names: Vec<&str> = ops.iter().map(|(n, _)| n.as_str()).collect();
    assert_eq!(names, vec!["same", "changed", "gone", "new"]);
    assert_eq!(ops[0].1, Operation::FileStaysSame);
    match &ops[1].1 {
        Operation::Patch(p) => {
            assert_eq!(p.before_hash, hash(b"old"));
            assert_eq!(p.after_hash, hash(b"new"));
            assert_eq!(darkwing_diff::apply(b"old", p).unwrap(), b"new");
        }
        other => panic!("expected a patch, got {:?}", other),
    }
    assert_eq!(ops[2].1, Operation::DeleteFile);
    assert_eq!(ops[3].1, Operation::PutFile(b"n".to_vec()));
}

#[test]
fn test_diff_and_apply_basic() {
    let before_zip = create_test_zip(&[("test.txt", b"Hello World".to_vec())]);
    let after_zip = create_test_zip(&[("test.txt", b"Hello Modified World".to_vec())]);
    let patch_set = diff_archives(
        &before_zip,
        &after_zip,
        DiffAlgorithm::Bidiff1,
        CompressAlgorithm::Uncompressed,
    )
    .unwrap();
    assert_eq!(patch_set.operations.0.len(), 1);
    assert_eq!(
        patch_set.operations.0[0].1,
        bidiff_patch(
            "b10a8db164e0754105b7a99be72e3fe5",
            "77a55ec2b0808d5a1ef1173fcfce9763",
            vec![
                223, 177, 0, 0, 0, 16, 0, 0, 6, 0, 0, 0, 0, 0, 0, 14, 77, 111, 100, 105, 102, 105,
                101, 100, 32, 87, 111, 114, 108, 100, 0,
            ],
        )
    );
    let output = apply_archive(&before_zip, &patch_set).unwrap();
    let members = read_zip(&output);
    assert_eq!(members, vec![("test.txt".to_string(), false, b"Hello Modified World".to_vec())]);
}

#[test]
fn test_diff_and_apply_with_deletions() {
    let before_zip = create_test_zip(&[
        ("file1.txt", b"File 1 content".to_vec()),
        ("file2.txt", b"File 2 content".to_vec()),
    ]);
    let before_hash = hash(&before_zip);
    let after_zip = create_test_zip(&[("file1.txt", b"File 1 content".to_vec())]);
    let patch_set = diff_archives(
        &before_zip,
        &after_zip,
        DiffAlgorithm::Bidiff1,
        CompressAlgorithm::Uncompressed,
    )
    .unwrap();
    let operations = Operations(vec![
        ("file1.txt".to_string(), Operation::FileStaysSame),
        ("file2.txt".to_string(), Operation::DeleteFile),
    ]);
    let operations_hash = operations.hash().unwrap();
    // the encoding is stable, so the digest of these operations is fixed
    assert_eq!(operations_hash, "b14e1f51a675099f6b4d52f2c403c1d0");
    assert_eq!(patch_set, PatchSet { operations, hash_before: before_hash, operations_hash });
    let output = apply_archive(&before_zip, &patch_set).unwrap();
    let members = read_zip(&output);
    assert_eq!(members, vec![("file1.txt".to_string(), false, b"File 1 content".to_vec())]);
}

#[test]
fn test_diff_and_apply_with_directories() {
    let before_zip = create_test_zip(&[
        ("dir1/", vec![]),
        ("dir1/file1.txt", b"File 1".to_vec()),
        ("dir2/", vec![]),
        ("dir2/file2.txt", b"File 2".to_vec()),
    ]);
    let after_zip = create_test_zip(&[
        ("dir1/", vec![]),
        ("dir1/file1.txt", b"File 1 Modified".to_vec()),
        ("dir3/", vec![]),
        ("dir3/file3.txt", b"File 3".to_vec()),
    ]);
    let patch_set = diff_archives(
        &before_zip,
        &after_zip,
        DiffAlgorithm::Bidiff1,
        CompressAlgorithm::Uncompressed,
    )
    .unwrap();
    assert_eq!(patch_set.hash_before, hash(&before_zip));
    assert_eq!(
        *find(&patch_set, "dir1/file1.txt"),
        bidiff_patch(
            "2f03b03637bf162937793f756f0f1583",
            "15b8181404e3a6b2e046de781b702654",
            vec![
                223, 177, 0, 0, 0, 16, 0, 0, 6, 0, 0, 0, 0, 0, 0, 9, 32, 77, 111, 100, 105, 102, 105,
                101, 100, 0,
            ],
        )
    );
    assert_eq!(*find(&patch_set, "dir2/file2.txt"), Operation::DeleteFile);
    assert_eq!(*find(&patch_set, "dir2/"), Operation::DeleteFile);
    assert_eq!(*find(&patch_set, "dir3/file3.txt"), Operation::PutFile(vec![70, 105, 108, 101, 32, 51]));
    assert_eq!(patch_set.operations_hash, patch_set.operations.hash().unwrap());

    let output = apply_archive(&before_zip, &patch_set).unwrap();
    let members = read_zip(&output);
    assert_eq!(
        members,
        vec![
            ("dir1/".to_string(), true, vec![]),
            ("dir1/file1.txt".to_string(), false, b"File 1 Modified".to_vec()),
            ("dir3/".to_string(), true, vec![]),
            ("dir3/file3.txt".to_string(), false, b"File 3".to_vec()),
        ]
    );
}

fn v1_files() -> Vec<(&'static str, Vec<u8>)> {
    vec![
        ("root1.txt", b"Root file 1".to_vec()),
        ("root2.txt", b"Root file 2".to_vec()),
        ("parent1/", vec![]),
        ("parent1/file1.txt", b"Parent 1 file".to_vec()),
        ("parent1/child1/", vec![]),
        ("parent1/child1/deep1.txt", b"Deep file 1".to_vec()),
        ("parent1/child1/deep2.txt", b"Deep file 2".to_vec()),
        ("parent2/", vec![]),
        ("parent2/file2.txt", b"Parent 2 file".to_vec()),
        ("parent2/child2/", vec![]),
        ("parent2/child2/deep3.txt", b"Deep file 3".to_vec()),
    ]
}

fn v2_files() -> Vec<(&'static str, Vec<u8>)> {
    vec![
        ("root1.txt", b"Root file 1 modified".to_vec()),
        ("parent1/", vec![]),
        ("parent1/file1.txt", b"Parent 1 file modified".to_vec()),
        ("parent1/child1/", vec![]),
        ("parent1/child1/deep1.txt", b"Deep file 1".to_vec()),
        ("parent1/child1/deep3.txt", b"New deep file".to_vec()),
        ("parent2/", vec![]),
        ("parent2/file2.txt", b"Parent 2 file".to_vec()),
        ("parent2/child2/", vec![]),
        ("parent2/child2/deep3.txt", b"Deep file 3 modified".to_vec()),
        ("parent3/", vec![]),
        ("parent3/newfile.txt", b"Brand new file".to_vec()),
    ]
}

fn v3_files() -> Vec<(&'static str, Vec<u8>)> {
    vec![
        ("root1.txt", b"Root file 1 modified again".to_vec()),
        ("parent1/", vec![]),
        ("parent1/file1.txt", b"Parent 1 file modified".to_vec()),
        ("parent1/child1/", vec![]),
        ("parent1/child1/deep3.txt", b"New deep file modified".to_vec()),
        ("parent3/", vec![]),
        ("parent3/newfile.txt", b"Brand new file modified".to_vec()),
        ("parent3/another.txt", b"Another new file".to_vec()),
    ]
}

#[test]
fn test_complex_roundtrip_diff_and_apply() {
    let v1 = create_test_zip(&v1_files());
    let v2 = create_test_zip(&v2_files());
    let v3 = create_test_zip(&v3_files());

    let patch_v1_to_v2 = diff_archives(&v1, &v2, DiffAlgorithm::Bidiff1, CompressAlgorithm::Uncompressed).unwrap();
    assert_eq!(patch_v1_to_v2.hash_before, hash(&v1));
    assert_eq!(
        *find(&patch_v1_to_v2, "root1.txt"),
        bidiff_patch(
            "f675e8894edcf33ae7097dcc4bfb89f9",
            "3468f9d6535a07b35c8acb8aa6aac781",
            vec![
                223, 177, 0, 0, 0, 16, 0, 0, 11, 0, 0, 0, 0, 0, 0, 0, 0, 0, 0, 0, 9, 32, 109, 111,
                100, 105, 102, 105, 101, 100, 0,
            ],
        )
    );
    assert_eq!(*find(&patch_v1_to_v2, "root2.txt"), Operation::DeleteFile);
    assert_eq!(*find(&patch_v1_to_v2, "parent1/child1/deep1.txt"), Operation::FileStaysSame);
    assert_eq!(*find(&patch_v1_to_v2, "parent1/child1/deep2.txt"), Operation::DeleteFile);
    assert_eq!(
        *find(&patch_v1_to_v2, "parent1/child1/deep3.txt"),
        Operation::PutFile(b"New deep file".to_vec())
    );
    assert_eq!(*find(&patch_v1_to_v2, "parent2/file2.txt"), Operation::FileStaysSame);
    assert_eq!(*find(&patch_v1_to_v2, "parent3/newfile.txt"), Operation::PutFile(b"Brand new file".to_vec()));
    let v2_patched = apply_archive(&v1, &patch_v1_to_v2).unwrap();
    assert_eq!(read_zip(&v2_patched), read_zip(&v2));

    let patch_v2_to_v3 = diff_archives(&v2, &v3, DiffAlgorithm::Bidiff1, CompressAlgorithm::Uncompressed).unwrap();
    assert_eq!(patch_v2_to_v3.hash_before, hash(&v2));
    assert_eq!(
        *find(&patch_v2_to_v3, "root1.txt"),
        bidiff_patch(
            "3468f9d6535a07b35c8acb8aa6aac781",
            "2ad3c7437786d6625776f0583bc3d6b2",
            vec![
                223, 177, 0, 0, 0, 16, 0, 0, 20, 0, 0, 0, 0, 0, 0, 0, 0, 0, 0, 0, 0, 0, 0, 0, 0, 0,
                0, 0, 0, 6, 32, 97, 103, 97, 105, 110, 0,
            ],
        )
    );
    assert_eq!(*find(&patch_v2_to_v3, "parent1/file1.txt"), Operation::FileStaysSame);
    assert_eq!(*find(&patch_v2_to_v3, "parent1/child1/deep1.txt"), Operation::DeleteFile);
    assert_eq!(*find(&patch_v2_to_v3, "parent2/"), Operation::DeleteFile);
    assert_eq!(
        *find(&patch_v2_to_v3, "parent3/another.txt"),
        Operation::PutFile(b"Another new file".to_vec())
    );
    let v3_patched = apply_archive(&v2, &patch_v2_to_v3).unwrap();
    assert_eq!(read_zip(&v3_patched), read_zip(&v3));
}

#[test]
fn archive_round_trip_with_compression_and_rsync() {
    let v1 = create_test_zip(&v1_files());
    let v2 = create_test_zip(&v2_files());
    for algo in [DiffAlgorithm::Rsync020, DiffAlgorithm::Bidiff1] {
        let ps = diff_archives(&v1, &v2, algo, CompressAlgorithm::Zstd).unwrap();
        let bytes = ps.to_bytes().unwrap();
        let decoded = PatchSet::from_bytes(&bytes).unwrap();
        assert_eq!(decoded, ps);
        assert_eq!(read_zip(&apply_archive(&v1, &decoded).unwrap()), read_zip(&v2));
    }
}

#[test]
fn wrong_source_archive_is_rejected() {
    let v1 = create_test_zip(&v1_files());
    let v2 = create_test_zip(&v2_files());
    let ps = diff_archives(&v1, &v2, DiffAlgorithm::Rsync020, CompressAlgorithm::Uncompressed).unwrap();
    assert!(matches!(apply_archive(&v2, &ps), Err(Error::BeforeHashMismatch)));
}

#[test]
fn tampered_operations_are_rejected() {
    let v1 = create_test_zip(&v1_files());
    let v2 = create_test_zip(&v2_files());
    let mut ps =
        diff_archives(&v1, &v2, DiffAlgorithm::Rsync020, CompressAlgorithm::Uncompressed).unwrap();
    let i = ps.operations.0.iter().position(|(_, op)| *op == Operation::DeleteFile).unwrap();
    ps.operations.0[i].1 = Operation::FileStaysSame;
    assert!(matches!(apply_archive(&v1, &ps), Err(Error::OperationsHashMismatch)));
}

#[test]
fn unreadable_archive_is_reported() {
    let r = diff_archives(b"not a zip", b"also not", DiffAlgorithm::Rsync020, CompressAlgorithm::Zstd);
    assert!(matches!(r, Err(Error::ZipError(_))));
}

#[test]
fn missing_member_is_reported() {
    let v1 = create_test_zip(&[("a.txt", b"a".to_vec())]);
    let operations = Operations(vec![("b.txt".to_string(), Operation::FileStaysSame)]);
    let ps = PatchSet {
        operations_hash: operations.hash().unwrap(),
        operations,
        hash_before: hash(&v1),
    };
    assert!(matches!(apply_archive(&v1, &ps), Err(Error::ZipError(_))));
}

#[test]
fn patch_set_size() {
    let v1 = create_test_zip(&[("a.txt", b"a".to_vec()), ("b.txt", b"b".to_vec())]);
    let v2 = create_test_zip(&[("a.txt", b"a".to_vec()), ("c.txt", b"ccc".to_vec())]);
    let ps = diff_archives(&v1, &v2, DiffAlgorithm::Rsync020, CompressAlgorithm::Uncompressed).unwrap();
    assert_eq!(ps.get_size(), 5 + 5 + (5 + 3) + 32 + 32);
}

#[test]
fn corrupted_member_is_an_io_error() {
    let mut v1 = create_test_zip(&[("a.txt", b"contents".to_vec())]);
    // the stored bytes follow the 30-byte local header and the 5-byte name
    assert_eq!(&v1[35..43], b"contents");
    v1[35] ^= 0xFF;
    let v2 = create_test_zip(&[("a.txt", b"other".to_vec())]);
    let r = diff_archives(&v1, &v2, DiffAlgorithm::Rsync020, CompressAlgorithm::Uncompressed);
    assert!(matches!(r, Err(Error::IoError(_))));
}

#[test]
fn archive_diffed_with_itself_keeps_every_member() {
    let v1 = create_test_zip(&v1_files());
    let ps = diff_archives(&v1, &v1, DiffAlgorithm::Bidiff1, CompressAlgorithm::Zstd).unwrap();
    assert_eq!(ps.operations.0.len(), v1_files().len());
    assert!(ps.operations.0.iter().all(|(_, op)| *op == Operation::FileStaysSame));
    assert_eq!(read_zip(&apply_archive(&v1, &ps).unwrap()), read_zip(&v1));
}

#[test]
fn archive_output_is_deterministic() {
    let v1 = create_test_zip(&v1_files());
    let v2 = create_test_zip(&v2_files());
    let ps = diff_archives(&v1, &v2, DiffAlgorithm::Rsync020, CompressAlgorithm::Zstd).unwrap();
    assert_eq!(apply_archive(&v1, &ps).unwrap(), apply_archive(&v1, &ps).unwrap());
}

#[test]
fn patched_member_with_wrong_source_digest() {
    let v1 = create_test_zip(&[("a.txt", b"x".to_vec())]);
    let patch =
        darkwing_diff::diff(b"y", b"z", DiffAlgorithm::Rsync020, CompressAlgorithm::Uncompressed)
            .unwrap();
    let operations = Operations(vec![("a.txt".to_string(), Operation::Patch(patch))]);
    let ps = PatchSet {
        operations_hash: operations.hash().unwrap(),
        operations,
        hash_before: hash(&v1),
    };
    assert!(matches!(apply_archive(&v1, &ps), Err(Error::BeforeHashMismatch)));
}

#[test]
fn unreadable_member_that_no_operation_reads() {
    let mut v1 = create_test_zip(&[("a.txt", b"aaaa".to_vec()), ("b.txt", b"contents".to_vec())]);
    // b.txt's stored bytes follow a.txt's entry (30 + 5 + 4 bytes) and its own header
    assert_eq!(&v1[74..82], b"contents");
    v1[74] ^= 0xFF;
    let operations = Operations(vec![
        ("a.txt".to_string(), Operation::FileStaysSame),
        ("b.txt".to_string(), Operation::DeleteFile),
    ]);
    let ps = PatchSet {
        operations_hash: operations.hash().unwrap(),
        operations,
        hash_before: hash(&v1),
    };
    let out = apply_archive(&v1, &ps).unwrap();
    assert_eq!(read_zip(&out), vec![("a.txt".to_string(), false, b"aaaa".to_vec())]);
    // reading the damaged member is an I/O error
    let mut keep = ps.clone();
    keep.operations.0[1].1 = Operation::FileStaysSame;
    keep.operations_hash = keep.operations.hash().unwrap();
    assert!(matches!(apply_archive(&v1, &keep), Err(Error::IoError(_))));
}

#[test]
fn damaged_source_only_member_is_deleted_unread() {
    let mut v1 = create_test_zip(&[("a.txt", b"aaaa".to_vec()), ("b.txt", b"contents".to_vec())]);
    assert_eq!(&v1[74..82], b"contents");
    v1[74] ^= 0xFF;
    let v2 = create_test_zip(&[("a.txt", b"aaaa".to_vec())]);
    let ps = diff_archives(&v1, &v2, DiffAlgorithm::Rsync020, CompressAlgorithm::Uncompressed).unwrap();
    assert_eq!(
        ps.operations.0,
        vec![
            ("a.txt".to_string(), Operation::FileStaysSame),
            ("b.txt".to_string(), Operation::DeleteFile),
        ]
    );
    assert_eq!(read_zip(&apply_archive(&v1, &ps).unwrap()), read_zip(&v2));
}
