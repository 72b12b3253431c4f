use mempool_dat::mempool::MempoolError;
use mempool_dat::stream::{xor_buffer, XorReader};

fn xor_vec(data: &[u8], key: &[u8], offset: usize) -> Vec<u8> {
    let mut v = data.to_vec();
    let k = key.to_vec();
    xor_buffer(&mut v, &k, offset);
    v
}

#[test]
fn xor_round_trip_across_key_lengths_and_offsets() {
    let data: Vec<u8> = (0u8..=200).collect();
    let keys: Vec<Vec<u8>> = vec![vec![0x5A], (1u8..=7).collect(), (0u8..=254).collect()];
    for key in &keys {
        let l = key.len();
        for &off in &[0usize, l - 1, l, 10_000] {
            let once = xor_vec(&data, key, off);
            let twice = xor_vec(&once, key, off);
            assert_eq!(twice, data);
            if key.iter().any(|&b| b != 0) {
                assert_ne!(once, data);
            }
        }
    }
}

#[test]
fn xor_known_values() {
    assert_eq!(xor_vec(&[0x00, 0xFF], &[0x0F], 0), vec![0x0F, 0xF0]);
    // the key repeats, starting at the given offset
    assert_eq!(xor_vec(&[0, 0, 0, 0], &[1, 2, 3], 1), vec![2, 3, 1, 2]);
    // an offset is taken modulo the key length
    assert_eq!(xor_vec(&[0, 0, 0, 0], &[1, 2, 3], 4), vec![2, 3, 1, 2]);
}

#[test]
fn xor_empty_key_is_identity() {
    assert_eq!(xor_vec(&[7, 8, 9], &[], 5), vec![7, 8, 9]);
}

#[test]
fn reader_applies_cipher_at_absolute_offset() {
    let key = vec![0xAA, 0x55, 0x11];
    let plain: Vec<u8> = (10u8..30).collect();
    let ciphered = xor_vec(&plain, &key, 0);
    let mut reader = XorReader::new(ciphered, key, Some(0));
    // split the reads unevenly: deciphering must still track absolute offsets
    let a = reader.read_exact(5).unwrap();
    let b = reader.read_exact(1).unwrap();
    let c = reader.read_exact(14).unwrap();
    let joined: Vec<u8> = [a, b, c].concat();
    assert_eq!(joined, plain);
}

#[test]
fn reader_unknown_position_with_key_fails() {
    let mut reader = XorReader::new(vec![1, 2, 3], vec![9], None);
    assert_eq!(reader.read_exact(1), Err(MempoolError::PositionUnknown));
}

#[test]
fn reader_unknown_position_without_key_reads_plain() {
    let mut reader = XorReader::new(vec![1, 2, 3], Vec::new(), None);
    assert_eq!(reader.read_exact(2).unwrap(), vec![1, 2]);
}

#[test]
fn reader_eof_leaves_reader_usable() {
    let mut reader = XorReader::new(vec![1, 2, 3], Vec::new(), Some(0));
    assert_eq!(reader.read_exact(4), Err(MempoolError::UnexpectedEof));
    assert_eq!(reader.read_exact(3).unwrap(), vec![1, 2, 3]);
}

#[test]
fn reader_short_read() {
    let mut reader = XorReader::new(vec![1, 2, 3], Vec::new(), Some(0));
    assert_eq!(reader.read(10).unwrap(), vec![1, 2, 3]);
    assert_eq!(reader.read(10).unwrap(), Vec::<u8>::new());
}

#[test]
fn read_u64_le_exact_value() {
    let mut reader = XorReader::new(
        vec![0x01, 0x02, 0x03, 0x04, 0x05, 0x06, 0x07, 0x08],
        Vec::new(),
        Some(0),
    );
    assert_eq!(reader.read_u64_le().unwrap(), 0x0807060504030201u64);
}

#[test]
fn read_i64_le_exact_values() {
    let mut reader = XorReader::new(vec![0xFF; 8], Vec::new(), Some(0));
    assert_eq!(reader.read_i64_le().unwrap(), -1i64);
    let mut reader = XorReader::new(vec![0, 0, 0, 0, 0, 0, 0, 0x80], Vec::new(), Some(0));
    assert_eq!(reader.read_i64_le().unwrap(), i64::MIN);
    let bytes = (-500i64).to_le_bytes().to_vec();
    let mut reader = XorReader::new(bytes, Vec::new(), Some(0));
    assert_eq!(reader.read_i64_le().unwrap(), -500i64);
}

#[test]
fn seek_realigns_cipher_offset() {
    let key = vec![0xAA, 0x55];
    let plain: Vec<u8> = (0u8..10).collect();
    let ciphered = xor_vec(&plain, &key, 0);
    let mut reader = XorReader::new(ciphered, key, Some(0));
    reader.seek(3);
    let got = reader.read_exact(4).unwrap();
    assert_eq!(got, plain[3..7].to_vec());
}
