use memory_startup::page_offset::{PageOffsetError, PACK_PAGE_BYTES};
use memory_startup::startup_pack::{decode_trace, encode_trace, TraceError, MAX_TRACE_PAGES};

#[test]
fn trace_roundtrip_and_validation() {
    let offsets = vec![0u64, 3 * PACK_PAGE_BYTES, 7 * PACK_PAGE_BYTES];
    let bytes = encode_trace(1 << 30, &offsets).expect("encode");
    let (mem_virtual_size, decoded) = decode_trace(&bytes).expect("decode");
    assert_eq!(mem_virtual_size, 1 << 30);
    assert_eq!(decoded, offsets);

    // Unaligned offset is rejected.
    assert!(encode_trace(1 << 30, &[123]).is_err());
    // Out-of-range offset is rejected.
    assert!(encode_trace(1 << 20, &[(1 << 20) - PACK_PAGE_BYTES + 1]).is_err());
    // Truncated body is rejected.
    assert!(decode_trace(&bytes[..bytes.len() - 8]).is_err());
    // Bad magic is rejected.
    let mut bad = bytes.clone();
    bad[0] ^= 0xFF;
    assert!(decode_trace(&bad).is_err());
}

#[test]
fn trace_bytes_are_laid_out_as_documented() {
    let bytes = encode_trace(0x1234_5678_9abc_d000, &[0x1000, 0xff_f000]).unwrap();
    let mut expected: Vec<u8> = b"AENVTRC1".to_vec();
    expected.extend_from_slice(&1u32.to_le_bytes());
    expected.extend_from_slice(&32u32.to_le_bytes());
    expected.extend_from_slice(&0x1234_5678_9abc_d000u64.to_le_bytes());
    expected.extend_from_slice(&2u32.to_le_bytes());
    expected.extend_from_slice(&[0, 0, 0, 0]);
    expected.extend_from_slice(&0x1000u64.to_le_bytes());
    expected.extend_from_slice(&0xff_f000u64.to_le_bytes());
    assert_eq!(bytes, expected);
}

#[test]
fn trace_encode_errors() {
    assert_eq!(encode_trace(1 << 30, &[]), Err(TraceError::Empty));
    let many = vec![0u64; MAX_TRACE_PAGES as usize + 1];
    assert_eq!(
        encode_trace(1 << 30, &many),
        Err(TraceError::TooManyPages { count: many.len() })
    );
    assert_eq!(
        encode_trace(1 << 30, &[0, 5, 6]),
        Err(TraceError::Offset {
            offset: 5,
            error: PageOffsetError::Unaligned
        })
    );
    assert_eq!(
        encode_trace(8192, &[8192]),
        Err(TraceError::Offset {
            offset: 8192,
            error: PageOffsetError::PastEnd
        })
    );
    assert_eq!(
        encode_trace(u64::MAX, &[u64::MAX - 4095]),
        Err(TraceError::Offset {
            offset: u64::MAX - 4095,
            error: PageOffsetError::Overflow
        })
    );
}

#[test]
fn trace_decode_errors() {
    let bytes = encode_trace(1 << 30, &[0x1000, 0x2000]).unwrap();
    let with = |at: usize, value: u8| {
        let mut bad = bytes.clone();
        bad[at] = value;
        decode_trace(&bad).err()
    };
    assert_eq!(
        decode_trace(&bytes[..8]),
        Err(TraceError::TooShort { len: 8 })
    );
    assert_eq!(with(0, 0), Some(TraceError::BadMagic));
    assert_eq!(
        with(8, 2),
        Some(TraceError::UnsupportedVersion { version: 2 })
    );
    assert_eq!(
        with(12, 33),
        Some(TraceError::BadHeaderSize { header_bytes: 33 })
    );
    assert_eq!(with(31, 1), Some(TraceError::ReservedNotZero));
    assert_eq!(with(24, 0), Some(TraceError::BadPageCount { count: 0 }));
    assert_eq!(
        with(26, 17),
        Some(TraceError::BadPageCount {
            count: (17 << 16) + 2
        })
    );
    assert_eq!(
        with(24, 3),
        Some(TraceError::LengthMismatch {
            expected: 56,
            actual: 48
        })
    );
    assert_eq!(
        with(32, 1),
        Some(TraceError::Offset {
            offset: 0x1001,
            error: PageOffsetError::Unaligned
        })
    );
    assert_eq!(with(40, 0), None);
}
