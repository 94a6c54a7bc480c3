use memory_startup::page_offset::PageOffsetError;
use memory_startup::runs::{merge_runs, Run};
use memory_startup::startup_manifest::{
    build_manifest, decode_manifest, encode_manifest, ManifestError, StartupManifest, MAX_RANGES,
};

#[test]
fn manifest_merges_by_address_and_orders_by_first_touch_rank() {
    // First-touch order: 0x8000, then a contiguous run 0x1000..0x4000, then
    // 0xA000. Address merging collapses the run; rank sorting puts the
    // earliest range (0x8000) first without address-sorting.
    let offsets = [0x8000u64, 0x1000, 0x2000, 0x3000, 0xA000];
    let manifest = build_manifest(1 << 30, &offsets).expect("build");
    assert!(manifest.prefix_pages.is_empty());
    assert_eq!(
        manifest.ranges,
        vec![(0x8000, 0x1000), (0x1000, 0x3000), (0xA000, 0x1000)]
    );
    let bytes = encode_manifest(&manifest).expect("encode");
    assert_eq!(decode_manifest(&bytes).expect("decode"), manifest);

    // A range whose pages are touched at scattered times carries the earliest
    // rank: page 0x2000 first, then 0x1000, then 0x3000. The merged run
    // (0x1000..0x4000) leads the table.
    let scattered = [0x2000u64, 0x1000, 0x3000];
    let manifest = build_manifest(1 << 30, &scattered).expect("build");
    assert_eq!(manifest.ranges, vec![(0x1000, 0x3000)]);
}

#[test]
fn manifest_validates() {
    // empty page list / misaligned / past image end
    assert!(build_manifest(1 << 30, &[]).is_err());
    assert!(build_manifest(1 << 30, &[0x1001]).is_err());
    assert!(build_manifest(0x2000, &[0x2000]).is_err());
    let manifest = build_manifest(1 << 30, &[0x8000u64, 0x1000]).unwrap();
    let bytes = encode_manifest(&manifest).unwrap();
    // bad magic
    let mut bad = bytes.clone();
    bad[0] = b'X';
    assert!(decode_manifest(&bad).is_err());
    // unknown version
    let mut bad = bytes.clone();
    bad[8] = 2;
    assert!(decode_manifest(&bad).is_err());
    // truncated
    assert!(decode_manifest(&bytes[..bytes.len() - 1]).is_err());
    // trailing garbage
    let mut bad = bytes.clone();
    bad.push(0);
    assert!(decode_manifest(&bad).is_err());
    // tampered range count
    let mut bad = bytes.clone();
    bad[28..32].copy_from_slice(&9u32.to_le_bytes());
    assert!(decode_manifest(&bad).is_err());
    // overlapping ranges are rejected even though the table is not
    // address-sorted
    let overlapping = StartupManifest {
        mem_virtual_size: 1 << 30,
        prefix_pages: vec![],
        ranges: vec![(0x2000, 0x2000), (0x1000, 0x2000)],
    };
    assert!(encode_manifest(&overlapping).is_err());
}

#[test]
fn manifest_build_errors_name_the_first_bad_page() {
    assert_eq!(
        build_manifest(1 << 30, &[]),
        Err(ManifestError::EmptyPageList)
    );
    assert_eq!(
        build_manifest(1 << 30, &[0x1000, 0x1001, 0x2001]),
        Err(ManifestError::Offset {
            offset: 0x1001,
            error: PageOffsetError::Unaligned
        })
    );
    assert_eq!(
        build_manifest(0x2000, &[0x2000]),
        Err(ManifestError::Offset {
            offset: 0x2000,
            error: PageOffsetError::PastEnd
        })
    );
    assert_eq!(
        build_manifest(u64::MAX, &[u64::MAX - 4095]),
        Err(ManifestError::Offset {
            offset: u64::MAX - 4095,
            error: PageOffsetError::Overflow
        })
    );
}

#[test]
fn manifest_bytes_are_laid_out_as_documented() {
    let manifest = StartupManifest {
        mem_virtual_size: 0x0102_0304_0506_0000,
        prefix_pages: vec![0x7000],
        ranges: vec![(0x2000, 0x3000)],
    };
    let bytes = encode_manifest(&manifest).unwrap();
    let mut expected: Vec<u8> = b"AENVMF01".to_vec();
    expected.extend_from_slice(&4u32.to_le_bytes());
    expected.extend_from_slice(&32u32.to_le_bytes());
    expected.extend_from_slice(&0x0102_0304_0506_0000u64.to_le_bytes());
    expected.extend_from_slice(&1u32.to_le_bytes());
    expected.extend_from_slice(&1u32.to_le_bytes());
    expected.extend_from_slice(&0x7000u64.to_le_bytes());
    expected.extend_from_slice(&0x2000u64.to_le_bytes());
    expected.extend_from_slice(&0x3000u64.to_le_bytes());
    assert_eq!(bytes, expected);
    assert_eq!(decode_manifest(&bytes), Ok(manifest));
}

#[test]
fn manifest_decode_errors() {
    let manifest = build_manifest(1 << 30, &[0x8000u64, 0x1000]).unwrap();
    let bytes = encode_manifest(&manifest).unwrap();
    assert_eq!(
        decode_manifest(&bytes[..31]),
        Err(ManifestError::TooShort { len: 31 })
    );
    let mut bad = bytes.clone();
    bad[7] = b'2';
    assert_eq!(decode_manifest(&bad), Err(ManifestError::BadMagic));
    let mut bad = bytes.clone();
    bad[8] = 3;
    assert_eq!(
        decode_manifest(&bad),
        Err(ManifestError::UnsupportedVersion { version: 3 })
    );
    let mut bad = bytes.clone();
    bad[12] = 64;
    assert_eq!(
        decode_manifest(&bad),
        Err(ManifestError::BadHeaderSize { header_bytes: 64 })
    );
    let mut bad = bytes.clone();
    bad[28..32].copy_from_slice(&(MAX_RANGES + 1).to_le_bytes());
    assert_eq!(
        decode_manifest(&bad),
        Err(ManifestError::CountsOutOfRange {
            prefix_pages: 0,
            ranges: MAX_RANGES + 1
        })
    );
    let mut bad = bytes.clone();
    bad[28] = 3;
    assert_eq!(
        decode_manifest(&bad),
        Err(ManifestError::LengthMismatch {
            expected: 80,
            actual: 64
        })
    );
    let mut bad = bytes.clone();
    bad[32] = 1;
    assert_eq!(
        decode_manifest(&bad),
        Err(ManifestError::Offset {
            offset: 0x8001,
            error: PageOffsetError::Unaligned
        })
    );
}

#[test]
fn range_tables_are_checked_in_address_order() {
    let table = |ranges: Vec<(u64, u64)>| {
        encode_manifest(&StartupManifest {
            mem_virtual_size: 0x10000,
            prefix_pages: vec![],
            ranges,
        })
        .err()
    };
    assert_eq!(table(vec![]), None);
    assert_eq!(table(vec![(0x4000, 0x1000), (0x1000, 0x3000)]), None);
    assert_eq!(
        table(vec![(0x2000, 0x2000), (0x1000, 0x2000)]),
        Some(ManifestError::RangesOverlap)
    );
    assert_eq!(
        table(vec![(0x2000, 0)]),
        Some(ManifestError::BadRangeLength { len: 0 })
    );
    assert_eq!(
        table(vec![(0x2000, 0x1800)]),
        Some(ManifestError::BadRangeLength { len: 0x1800 })
    );
    assert_eq!(
        table(vec![(0xF000, 0x2000)]),
        Some(ManifestError::RangePastEnd {
            start: 0xF000,
            len: 0x2000
        })
    );
    assert_eq!(
        table(vec![(0x1000, 0xFFFF_FFFF_FFFF_F000)]),
        Some(ManifestError::RangeOverflow {
            start: 0x1000,
            len: 0xFFFF_FFFF_FFFF_F000
        })
    );
    // the error in the lowest range comes first
    assert_eq!(
        table(vec![(0xF000, 0x2000), (0x1000, 1)]),
        Some(ManifestError::BadRangeLength { len: 1 })
    );
}

#[test]
fn oversized_tables_cannot_be_encoded() {
    let many = StartupManifest {
        mem_virtual_size: 1 << 40,
        prefix_pages: vec![],
        ranges: (0..u64::from(MAX_RANGES) + 1).map(|i| (i * 8192, 4096)).collect(),
    };
    assert_eq!(
        encode_manifest(&many),
        Err(ManifestError::TooManyRanges { count: (1 << 20) + 1 })
    );
    let many = StartupManifest {
        mem_virtual_size: 1 << 40,
        prefix_pages: vec![0; (1 << 20) + 1],
        ranges: vec![],
    };
    assert_eq!(
        encode_manifest(&many),
        Err(ManifestError::TooManyPrefixPages { count: (1 << 20) + 1 })
    );
}

#[test]
fn built_manifests_cover_their_pages_and_round_trip() {
    // distinct pages in a scattered order
    let offsets: Vec<u64> = (0..1000u64).map(|i| (i * 7 % 1000) * 3 / 2 * 4096).collect();
    let mut distinct: Vec<u64> = Vec::new();
    for offset in offsets {
        if !distinct.contains(&offset) {
            distinct.push(offset);
        }
    }
    let manifest = build_manifest(1 << 30, &distinct).unwrap();
    let mut covered: Vec<u64> = Vec::new();
    for (start, len) in &manifest.ranges {
        let mut at = *start;
        while at < start + len {
            covered.push(at);
            at += 4096;
        }
    }
    covered.sort_unstable();
    let mut wanted = distinct.clone();
    wanted.sort_unstable();
    assert_eq!(covered, wanted);
    let (start, len) = manifest.ranges[0];
    assert!(start <= distinct[0] && distinct[0] < start + len);
    let bytes = encode_manifest(&manifest).unwrap();
    assert_eq!(bytes.len(), 32 + 16 * manifest.ranges.len());
    assert_eq!(decode_manifest(&bytes), Ok(manifest));
}

#[test]
fn runs_are_capped_and_ordered_by_rank() {
    let run = |group, start, len| Run { group, start, len };
    let items: Vec<(u64, u64)> = vec![(1, 9), (0, 3), (0, 1), (0, 2), (1, 8), (0, 4), (0, 0)];
    assert_eq!(
        merge_runs(&items, 2),
        vec![run(1, 8, 2), run(0, 2, 2), run(0, 0, 2), run(0, 4, 1)]
    );
    assert_eq!(merge_runs(&items, 100), vec![run(1, 8, 2), run(0, 0, 5)]);
    assert_eq!(merge_runs(&vec![], 1), vec![]);
}

#[test]
fn pages_that_are_named_twice_are_merged_in_order() {
    // in address order 0x1000, 0x1000, 0x2000, 0x5000: a page joins the last
    // range where it continues it
    let manifest = build_manifest(1 << 30, &[0x5000, 0x1000, 0x2000, 0x1000]).unwrap();
    assert_eq!(manifest.ranges[0], (0x5000, 0x1000));
    let mut ranges = manifest.ranges.clone();
    ranges.sort_unstable();
    assert_eq!(
        ranges,
        vec![(0x1000, 0x1000), (0x1000, 0x2000), (0x5000, 0x1000)]
    );
}
