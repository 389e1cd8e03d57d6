use darkwing_diff::{apply, diff, hash, CompressAlgorithm, DiffAlgorithm, Error, Patch};

const BEFORE: &[u8] = b"Hello World";
const AFTER: &[u8] = b"Hello Modified World";

#[test]
fn hash_is_lowercase_md5_hex() {
    assert_eq!(hash(b"Hello World"), "b10a8db164e0754105b7a99be72e3fe5");
    assert_eq!(hash(b""), "d41d8cd98f00b204e9800998ecf8427e");
    assert_eq!(hash(b"Hello Modified World").len(), 32);
}

#[test]
fn blob_round_trip_rsync_uncompressed() {
    let patch = diff(BEFORE, AFTER, DiffAlgorithm::Rsync020, CompressAlgorithm::Uncompressed).unwrap();
    assert_eq!(patch.diff_algorithm, DiffAlgorithm::Rsync020);
    assert_eq!(patch.compress_algorithm, CompressAlgorithm::Uncompressed);
    assert_eq!(patch.before_hash, "b10a8db164e0754105b7a99be72e3fe5");
    assert_eq!(patch.after_hash, "77a55ec2b0808d5a1ef1173fcfce9763");
    // fast_rsync deltas open with their big-endian magic number
    assert_eq!(&patch.patch[..4], &[0x72, 0x73, 0x02, 0x36]);
    assert_eq!(apply(BEFORE, &patch).unwrap(), AFTER);
}

#[test]
fn blob_round_trip_bidiff_uncompressed() {
    let patch = diff(BEFORE, AFTER, DiffAlgorithm::Bidiff1, CompressAlgorithm::Uncompressed).unwrap();
    assert_eq!(&patch.patch[..4], &[0xDF, 0xB1, 0x00, 0x00]);
    assert_eq!(
        patch,
        Patch {
            diff_algorithm: DiffAlgorithm::Bidiff1,
            compress_algorithm: CompressAlgorithm::Uncompressed,
            before_hash: "b10a8db164e0754105b7a99be72e3fe5".to_string(),
            after_hash: "77a55ec2b0808d5a1ef1173fcfce9763".to_string(),
            patch: vec![
                223, 177, 0, 0, 0, 16, 0, 0, 6, 0, 0, 0, 0, 0, 0, 14, 77, 111, 100, 105, 102, 105,
                101, 100, 32, 87, 111, 114, 108, 100, 0,
            ],
        }
    );
    assert_eq!(apply(BEFORE, &patch).unwrap(), AFTER);
}

#[test]
fn blob_round_trip_all_codecs_and_compressions() {
    let before: Vec<u8> = (0..5000u32).map(|i| (i * 7 % 251) as u8).collect();
    let mut after = before.clone();
    after[1200] ^= 0x55;
    after.extend_from_slice(b"tail");
    for algo in [DiffAlgorithm::Rsync020, DiffAlgorithm::Bidiff1] {
        for c in [CompressAlgorithm::Uncompressed, CompressAlgorithm::Zstd] {
            let patch = diff(&before, &after, algo, c).unwrap();
            assert_eq!(patch.before_hash, hash(&before));
            assert_eq!(patch.after_hash, hash(&after));
            assert_eq!(apply(&before, &patch).unwrap(), after);
        }
    }
}

#[test]
fn blob_round_trip_empty_inputs() {
    for algo in [DiffAlgorithm::Rsync020, DiffAlgorithm::Bidiff1] {
        let patch = diff(b"", b"", algo, CompressAlgorithm::Uncompressed).unwrap();
        assert_eq!(apply(b"", &patch).unwrap(), b"");
        let patch = diff(BEFORE, b"", algo, CompressAlgorithm::Zstd).unwrap();
        assert_eq!(apply(BEFORE, &patch).unwrap(), b"");
    }
}

#[test]
fn empty_source_with_rsync_and_bidiff() {
    let patch = diff(b"", AFTER, DiffAlgorithm::Rsync020, CompressAlgorithm::Zstd).unwrap();
    assert_eq!(apply(b"", &patch).unwrap(), AFTER);
    let r = diff(b"", AFTER, DiffAlgorithm::Bidiff1, CompressAlgorithm::Zstd);
    assert!(matches!(r, Err(Error::BidiffError(_))));
}

#[test]
fn compression_transparency() {
    for algo in [DiffAlgorithm::Rsync020, DiffAlgorithm::Bidiff1] {
        let plain = diff(BEFORE, AFTER, algo, CompressAlgorithm::Uncompressed).unwrap();
        let packed = diff(BEFORE, AFTER, algo, CompressAlgorithm::Zstd).unwrap();
        // a zstd frame opens with its magic number, so the payloads differ
        assert_eq!(&packed.patch[..4], &[0x28, 0xB5, 0x2F, 0xFD]);
        assert_ne!(plain.patch, packed.patch);
        assert_eq!(apply(BEFORE, &plain).unwrap(), apply(BEFORE, &packed).unwrap());
    }
}

#[test]
fn wrong_source_is_rejected() {
    for algo in [DiffAlgorithm::Rsync020, DiffAlgorithm::Bidiff1] {
        let patch = diff(BEFORE, AFTER, algo, CompressAlgorithm::Zstd).unwrap();
        let r = apply(b"Hello Wxrld", &patch);
        assert!(matches!(r, Err(Error::BeforeHashMismatch)));
    }
}

#[test]
fn corrupted_payload_is_rejected() {
    for algo in [DiffAlgorithm::Rsync020, DiffAlgorithm::Bidiff1] {
        let patch = diff(BEFORE, AFTER, algo, CompressAlgorithm::Uncompressed).unwrap();
        for i in 0..patch.patch.len() {
            let mut broken = patch.clone();
            broken.patch[i] ^= 0xFF;
            assert!(apply(BEFORE, &broken).is_err(), "byte {} of {:?}", i, algo);
        }
    }
}

#[test]
fn wrong_after_hash_is_reported() {
    let mut patch = diff(BEFORE, AFTER, DiffAlgorithm::Rsync020, CompressAlgorithm::Uncompressed).unwrap();
    patch.after_hash = hash(b"something else");
    assert!(matches!(apply(BEFORE, &patch), Err(Error::AfterHashMismatch)));
}

#[test]
fn codec_failures_are_reported() {
    let mut patch = diff(BEFORE, AFTER, DiffAlgorithm::Rsync020, CompressAlgorithm::Uncompressed).unwrap();
    patch.patch = vec![1, 2, 3, 4, 5];
    assert!(matches!(apply(BEFORE, &patch), Err(Error::RsyncApplyError(_))));
    patch.diff_algorithm = DiffAlgorithm::Bidiff1;
    assert!(matches!(apply(BEFORE, &patch), Err(Error::BidiffError(_))));
    patch.compress_algorithm = CompressAlgorithm::Zstd;
    assert!(matches!(apply(BEFORE, &patch), Err(Error::CompressionError(_))));
}

#[test]
fn compress_and_decompress() {
    let data = b"aaaaaaaaaaaaaaaaaaaaaaaaaaaaaaaaaaaaaaaaaaaaaaaaaaaaaaaaaaaaaaaa".to_vec();
    let none = CompressAlgorithm::Uncompressed;
    assert_eq!(none.compress(&data).unwrap(), data);
    assert_eq!(none.decompress(&data).unwrap(), data);
    let packed = CompressAlgorithm::Zstd.compress(&data).unwrap();
    assert!(packed.len() < data.len());
    assert_eq!(CompressAlgorithm::Zstd.decompress(&packed).unwrap(), data);
    assert!(matches!(
        CompressAlgorithm::Zstd.decompress(b"not a frame"),
        Err(Error::CompressionError(_))
    ));
}

#[test]
fn patch_size_counts_payload_digests_and_tags() {
    let patch = diff(BEFORE, AFTER, DiffAlgorithm::Bidiff1, CompressAlgorithm::Uncompressed).unwrap();
    assert_eq!(patch.get_size(), 31 + 32 + 32 + 2);
}
