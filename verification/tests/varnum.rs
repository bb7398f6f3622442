use binjs::bytes::varnum::{varnum_bytes, ReadVarNum, VarNumDecoder, WriteVarNum};

#[test]
fn test_varnum() {
    // Produce a reasonably unbiaised sample of numbers.
    for i in 1..5 {
        let mut start = i;
        for num in &[3, 5, 7, 11, 13] {
            start *= *num;

            println!("test_varnum, testing with {}", start);
            let mut encoded = vec![];
            let encoded_bytes = encoded.write_varnum(start).unwrap();
            assert_eq!(encoded_bytes, encoded.len());
            println!("test_varnum, encoded as {:?}", encoded);

            let mut decoded: u32 = 0;
            let mut reader: &[u8] = &encoded;
            let decoded_bytes = reader.read_varnum(&mut decoded).unwrap();

            assert_eq!(start, decoded);
            assert_eq!(encoded_bytes, decoded_bytes);
        }
    }
}

#[test]
fn varnum_bytes_of_small_numbers() {
    assert_eq!(varnum_bytes(0), vec![0]);
    assert_eq!(varnum_bytes(1), vec![2]);
    assert_eq!(varnum_bytes(127), vec![254]);
    assert_eq!(varnum_bytes(128), vec![1, 2]);
    assert_eq!(varnum_bytes(300), vec![0x59, 0x04]);
}

#[test]
fn varnum_bytes_of_largest_number() {
    assert_eq!(varnum_bytes(u32::MAX), vec![0xFF, 0xFF, 0xFF, 0xFF, 0x1E]);
}

#[test]
fn varnum_write_appends() {
    let mut buffer = vec![7u8];
    assert_eq!(buffer.write_varnum(128).unwrap(), 2);
    assert_eq!(buffer, vec![7, 1, 2]);
}

#[test]
fn varnum_read_leaves_the_rest() {
    let bytes = vec![1u8, 2, 9, 4];
    let mut reader: &[u8] = &bytes;
    let mut num = 0u32;
    assert_eq!(reader.read_varnum(&mut num).unwrap(), 2);
    assert_eq!(num, 128);
    assert_eq!(reader, &[9u8, 4][..]);
}

#[test]
fn varnum_read_of_empty_input() {
    let mut reader: &[u8] = &[];
    let mut num = 55u32;
    assert_eq!(reader.read_varnum(&mut num).unwrap(), 0);
    assert_eq!(num, 0);
}

#[test]
fn varnum_read_keeps_low_32_bits() {
    // The fifth byte carries seven bits, of which only four fit.
    let bytes = vec![0xFFu8, 0xFF, 0xFF, 0xFF, 0xFE];
    let mut reader: &[u8] = &bytes;
    let mut num = 0u32;
    assert_eq!(reader.read_varnum(&mut num).unwrap(), 5);
    assert_eq!(num, u32::MAX);
}

#[test]
fn varnum_roundtrip_with_following_bytes() {
    for value in [0u32, 1, 127, 128, 16383, 16384, 1 << 21, 1 << 28, u32::MAX] {
        let mut bytes = varnum_bytes(value);
        let length = bytes.len();
        bytes.push(42);
        let mut reader: &[u8] = &bytes;
        let mut num = 0u32;
        assert_eq!(reader.read_varnum(&mut num).unwrap(), length);
        assert_eq!(num, value);
        assert_eq!(reader, &[42u8][..]);
    }
}

#[test]
fn varnum_decoder_steps() {
    let mut decoder = VarNumDecoder::new();
    assert!(decoder.can_take());
    assert!(!decoder.take(0x59));
    assert!(decoder.take(0x04));
    assert_eq!(decoder.result(), 300);
}

#[test]
fn varnum_decoder_stops_after_five_bytes() {
    let mut decoder = VarNumDecoder::new();
    for _ in 0..5 {
        assert!(decoder.can_take());
        decoder.take(0xFF);
    }
    assert!(!decoder.can_take());
}
