use darkwing_diff::{
    diff, CompressAlgorithm, DiffAlgorithm, Error, Operation, Operations, Patch, PatchSet,
};

fn small_patch() -> Patch {
    Patch {
        diff_algorithm: DiffAlgorithm::Rsync020,
        compress_algorithm: CompressAlgorithm::Zstd,
        before_hash: "ab".to_string(),
        after_hash: "c".to_string(),
        patch: vec![9],
    }
}

#[test]
fn patch_encoding_layout() {
    let bytes = small_patch().to_bytes().unwrap();
    assert_eq!(
        bytes,
        vec![
            0, 1, 2, 0, 0, 0, 0, 0, 0, 0, b'a', b'b', 1, 0, 0, 0, 0, 0, 0, 0, b'c', 1, 0, 0, 0, 0, 0,
            0, 0, 9,
        ]
    );
}

#[test]
fn patch_serialisation_round_trip() {
    let patch = diff(b"Hello World", b"Hello Modified World", DiffAlgorithm::Bidiff1, CompressAlgorithm::Zstd)
        .unwrap();
    let bytes = patch.to_bytes().unwrap();
    assert_eq!(Patch::from_bytes(&bytes).unwrap(), patch);
    assert_eq!(Patch::from_bytes(&small_patch().to_bytes().unwrap()).unwrap(), small_patch());
}

#[test]
fn patch_set_serialisation_round_trip() {
    let ps = PatchSet {
        operations: Operations(vec![
            ("a/ü.txt".to_string(), Operation::Patch(small_patch())),
            ("b.txt".to_string(), Operation::PutFile(vec![1, 2, 3])),
            ("c/".to_string(), Operation::DeleteFile),
            ("d".to_string(), Operation::FileStaysSame),
        ]),
        hash_before: "0123".to_string(),
        operations_hash: "4567".to_string(),
    };
    let bytes = ps.to_bytes().unwrap();
    assert_eq!(PatchSet::from_bytes(&bytes).unwrap(), ps);
    let empty = PatchSet {
        operations: Operations(vec![]),
        hash_before: String::new(),
        operations_hash: String::new(),
    };
    assert_eq!(empty.to_bytes().unwrap().len(), 8 + 8 + 8);
    assert_eq!(PatchSet::from_bytes(&empty.to_bytes().unwrap()).unwrap(), empty);
}

#[test]
fn malformed_encodings_are_rejected() {
    let bytes = small_patch().to_bytes().unwrap();
    assert!(matches!(Patch::from_bytes(&bytes[..bytes.len() - 1]), Err(Error::DeserializeError)));
    let mut longer = bytes.clone();
    longer.push(0);
    assert!(matches!(Patch::from_bytes(&longer), Err(Error::DeserializeError)));
    let mut bad_tag = bytes.clone();
    bad_tag[0] = 2;
    assert!(matches!(Patch::from_bytes(&bad_tag), Err(Error::DeserializeError)));
    let mut bad_utf8 = bytes.clone();
    bad_utf8[10] = 0xFF;
    assert!(matches!(Patch::from_bytes(&bad_utf8), Err(Error::DeserializeError)));
    assert!(matches!(PatchSet::from_bytes(&[]), Err(Error::DeserializeError)));
    let huge_count = vec![255u8; 8];
    assert!(matches!(PatchSet::from_bytes(&huge_count), Err(Error::DeserializeError)));
}

#[test]
fn operations_hash_is_digest_of_encoding() {
    let ops = Operations(vec![("x".to_string(), Operation::DeleteFile)]);
    let bytes = ops.to_bytes().unwrap();
    assert_eq!(bytes, vec![1, 0, 0, 0, 0, 0, 0, 0, 1, 0, 0, 0, 0, 0, 0, 0, b'x', 2]);
    assert_eq!(ops.hash().unwrap(), darkwing_diff::hash(&bytes));
    assert_eq!(ops.hash().unwrap(), "0f7ed3f17e7599fefd2c162632279f3b");
}

#[test]
fn operation_and_patch_set_sizes() {
    assert_eq!(Operation::Patch(small_patch()).get_size(), 1 + 2 + 1 + 2);
    assert_eq!(Operation::PutFile(vec![0; 10]).get_size(), 10);
    assert_eq!(Operation::DeleteFile.get_size(), 0);
    assert_eq!(Operation::FileStaysSame.get_size(), 0);
    let ps = PatchSet {
        operations: Operations(vec![
            ("ab".to_string(), Operation::PutFile(vec![0; 10])),
            ("c".to_string(), Operation::Patch(small_patch())),
            ("dé".to_string(), Operation::DeleteFile),
        ]),
        hash_before: "0123".to_string(),
        operations_hash: "45".to_string(),
    };
    assert_eq!(ps.get_size(), (2 + 10) + (1 + 6) + 3 + 4 + 2);
}
