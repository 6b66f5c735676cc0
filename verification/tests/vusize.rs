use bbqueue::vusize::{decode_usize, decoded_len, encode_usize_to_slice, encoded_len};

#[test]
fn encoded_len_follows_the_table() {
    assert_eq!(encoded_len(0), 1);
    assert_eq!(encoded_len(127), 1);
    assert_eq!(encoded_len(128), 2);
    assert_eq!(encoded_len(16383), 2);
    assert_eq!(encoded_len(16384), 3);
    assert_eq!(encoded_len((1 << 21) - 1), 3);
    assert_eq!(encoded_len(1 << 21), 4);
    assert_eq!(encoded_len(65533), 3);
    assert_eq!(encoded_len(usize::MAX), core::mem::size_of::<usize>() + 1);
}

#[test]
fn encode_exact_bytes() {
    let mut buf = [0xAAu8; 4];
    encode_usize_to_slice(1, 1, &mut buf);
    assert_eq!(buf, [0x03, 0xAA, 0xAA, 0xAA]);

    let mut buf = [0u8; 2];
    encode_usize_to_slice(300, 2, &mut buf);
    assert_eq!(buf, [0xB2, 0x04]);

    // A longer header than needed is allowed
    let mut buf = [0u8; 3];
    encode_usize_to_slice(5, 3, &mut buf);
    assert_eq!(buf, [0x2C, 0x00, 0x00]);
}

#[test]
fn decoded_len_reads_the_prefix() {
    assert_eq!(decoded_len(0b0000_0001), 1);
    assert_eq!(decoded_len(0b0000_0010), 2);
    assert_eq!(decoded_len(0b1011_0010), 2);
    assert_eq!(decoded_len(0b0000_0100), 3);
    assert_eq!(decoded_len(0b1000_0000), 8);
    assert_eq!(decoded_len(0), 9);
}

#[test]
fn vusize_round_trip() {
    let values = [0usize, 1, 2, 127, 128, 300, 16383, 16384, 65533, 1 << 40, usize::MAX];
    for &v in values.iter() {
        let len = encoded_len(v);
        let mut buf = [0u8; 16];
        encode_usize_to_slice(v, len, &mut buf);
        assert_eq!(decoded_len(buf[0]), len);
        assert_eq!(decode_usize(&buf), v);
        // The bytes after the encoding are not read
        buf[len] = 0xFF;
        assert_eq!(decode_usize(&buf), v);
    }
}

#[test]
fn vusize_max_size_header() {
    let mut buf = [0u8; 9];
    let n = core::mem::size_of::<usize>() + 1;
    encode_usize_to_slice(0x0102, n, &mut buf);
    assert_eq!(buf[0], ((1usize << core::mem::size_of::<usize>()) & 0xFF) as u8);
    assert_eq!(buf[1], 0x02);
    assert_eq!(buf[2], 0x01);
    assert_eq!(decoded_len(buf[0]), n);
    assert_eq!(decode_usize(&buf), 0x0102);
}
