use se1::codec::{bytes_to_u32, u32_to_bytes};
use se1::header::{BlockHeader, StorageHeader};

#[test]
fn test_u32_to_bytes() {
    assert_eq!(u32_to_bytes(0x12345678), [0x78, 0x56, 0x34, 0x12]);
}

#[test]
fn test_bytes_to_u32() {
    assert_eq!(bytes_to_u32(&[0x78, 0x56, 0x34, 0x12]), 0x12345678);
}

#[test]
fn test_u32_to_bytes_and_back() {
    // max u32
    let n = 4294967295;
    let bytes = u32_to_bytes(n);
    let n2 = bytes_to_u32(&bytes);
    assert_eq!(n, n2);
    // min u32
    let n = 0;
    let bytes = u32_to_bytes(n);
    let n2 = bytes_to_u32(&bytes);
    assert_eq!(n, n2);
    // even value
    let n = 2147483648;
    let bytes = u32_to_bytes(n);
    let n2 = bytes_to_u32(&bytes);
    assert_eq!(n, n2);
    // odd value
    let n = 2147483647;
    let bytes = u32_to_bytes(n);
    let n2 = bytes_to_u32(&bytes);
    assert_eq!(n, n2);
}

#[test]
fn codec_round_trip_sample() {
    for n in [0u32, 1, 255, 256, 65535, 65536, 0x01020304, 0xdeadbeef, u32::MAX] {
        assert_eq!(bytes_to_u32(&u32_to_bytes(n)), n);
    }
    assert_eq!(u32_to_bytes(1), [1, 0, 0, 0]);
    assert_eq!(u32_to_bytes(u32::MAX), [255, 255, 255, 255]);
}

#[test]
fn decode_reads_only_first_four_bytes() {
    assert_eq!(bytes_to_u32(&[1, 0, 0, 0, 9, 9]), 1);
}

#[test]
fn headers_encode_little_endian() {
    assert_eq!(StorageHeader::new(8).to_bytes(), [8, 0, 0, 0]);
    assert_eq!(StorageHeader::from_bytes(&[0, 1, 0, 0]).block_len, 256);
    assert_eq!(BlockHeader::new(0x0102).to_bytes(), [2, 1, 0, 0]);
    assert_eq!(BlockHeader::from_bytes(&[4, 0, 0, 0]).block_data_size, 4);
}
