use document_id_store::key::{decode, encode};

#[test]
fn encode_puts_the_most_significant_byte_first() {
    assert_eq!(encode(0x0102_0304_0506_0708), [1, 2, 3, 4, 5, 6, 7, 8]);
    assert_eq!(encode(0), [0; 8]);
    assert_eq!(encode(1), [0, 0, 0, 0, 0, 0, 0, 1]);
    assert_eq!(encode(256), [0, 0, 0, 0, 0, 0, 1, 0]);
    assert_eq!(encode(u64::MAX), [255; 8]);
}

#[test]
fn encode_agrees_with_the_standard_big_endian_bytes() {
    for id in [0u64, 1, 255, 256, 65_535, 65_536, 1 << 32, (1 << 56) - 1, 1 << 56, u64::MAX - 1, u64::MAX] {
        assert_eq!(encode(id), id.to_be_bytes());
    }
}

#[test]
fn decode_reads_the_most_significant_byte_first() {
    assert_eq!(decode(&[1, 2, 3, 4, 5, 6, 7, 8]), 0x0102_0304_0506_0708);
    assert_eq!(decode(&[0; 8]), 0);
    assert_eq!(decode(&[0, 0, 0, 0, 0, 0, 1, 0]), 256);
    assert_eq!(decode(&[255; 8]), u64::MAX);
}

#[test]
fn decode_undoes_encode() {
    for id in [0u64, 1, 2, 254, 255, 256, 257, 0xdead_beef, 1 << 63, u64::MAX] {
        assert_eq!(decode(&encode(id)), id);
    }
}

#[test]
fn encode_undoes_decode() {
    let key = [0x80, 0, 0x7f, 0xff, 1, 0, 0xfe, 9];
    assert_eq!(encode(decode(&key)), key);
}

#[test]
fn keys_are_ordered_as_their_ids() {
    let ids = [0u64, 1, 2, 255, 256, 257, 65_535, 65_536, 1 << 40, u64::MAX - 1, u64::MAX];
    for a in ids {
        for b in ids {
            assert_eq!(encode(a) < encode(b), a < b);
            assert_eq!(encode(a) == encode(b), a == b);
        }
    }
}
