use mempool_dat::mempool::{
    EntryFailure, FileHeader, Mempool, MempoolEntry, MempoolError, read_mempool_from_bytes,
};

/// A minimal transaction the consensus codec accepts: segwit marker and flag,
/// no inputs, no outputs, lock time zero.
fn minimal_tx() -> Vec<u8> {
    vec![0x02, 0x00, 0x00, 0x00, 0x00, 0x01, 0x00, 0x00, 0x00, 0x00, 0x00, 0x00]
}

/// A legacy transaction with one input and no outputs: a different length and
/// shape than the minimal one, so record boundaries are truly variable.
fn legacy_tx() -> Vec<u8> {
    let mut v = vec![0x01, 0x00, 0x00, 0x00]; // version
    v.push(0x01); // one input
    v.extend_from_slice(&[0x11; 32]); // previous txid
    v.extend_from_slice(&[0x02, 0x00, 0x00, 0x00]); // previous vout
    v.push(0x00); // empty script sig
    v.extend_from_slice(&[0xFF, 0xFF, 0xFF, 0xFF]); // sequence
    v.push(0x00); // no outputs
    v.extend_from_slice(&[0x00, 0x00, 0x00, 0x00]); // lock time
    v
}

fn entry_of(tx: Vec<u8>, first_seen_time: i64, fee_delta: i64) -> Vec<u8> {
    let mut v = tx;
    v.extend_from_slice(&first_seen_time.to_le_bytes());
    v.extend_from_slice(&fee_delta.to_le_bytes());
    v
}

fn entry_bytes(first_seen_time: i64, fee_delta: i64) -> Vec<u8> {
    entry_of(minimal_tx(), first_seen_time, fee_delta)
}

/// Body of a dump: the transaction count, then the entry bytes.
fn body_bytes(num_tx: u64, entries: &[Vec<u8>]) -> Vec<u8> {
    let mut v = num_tx.to_le_bytes().to_vec();
    for e in entries {
        v.extend_from_slice(e);
    }
    v
}

fn plain_dump(version: u64, num_tx: u64, entries: &[Vec<u8>]) -> Vec<u8> {
    let mut v = version.to_le_bytes().to_vec();
    v.extend_from_slice(&body_bytes(num_tx, entries));
    v
}

/// Independent reference cipher used to build obfuscated fixtures.
fn xor_with(data: &mut [u8], key: &[u8]) {
    if key.is_empty() {
        return;
    }
    for (i, b) in data.iter_mut().enumerate() {
        *b ^= key[i % key.len()];
    }
}

fn obfuscated_dump(key: &[u8], num_tx: u64, entries: &[Vec<u8>]) -> Vec<u8> {
    let mut v = 2u64.to_le_bytes().to_vec();
    v.push(key.len() as u8);
    v.extend_from_slice(key);
    let mut body = body_bytes(num_tx, entries);
    xor_with(&mut body, key);
    v.extend_from_slice(&body);
    v
}

#[test]
fn plain_dump_with_two_entries() {
    let entries = [entry_bytes(1_700_000_000, 0), entry_bytes(1_700_000_100, -500)];
    let dump = plain_dump(1, 2, &entries);
    let m = read_mempool_from_bytes(&dump).unwrap();
    let header = m.get_file_header();
    assert_eq!(header.version, 1);
    assert_eq!(header.num_tx, 2);
    let got = m.get_mempool_entries();
    assert_eq!(got.len(), 2);
    assert_eq!(got[0].first_seen_time, 1_700_000_000);
    assert_eq!(got[0].fee_delta, 0);
    assert_eq!(got[1].first_seen_time, 1_700_000_100);
    assert_eq!(got[1].fee_delta, -500);
    assert!(m.get_xor_key().is_none());
    for e in got {
        assert_eq!(e.transaction.input.len(), 0);
        assert_eq!(e.transaction.output.len(), 0);
    }
}

#[test]
fn obfuscated_dump_with_key_aa55() {
    let entries = [entry_bytes(42, -7)];
    let dump = obfuscated_dump(&[0xAA, 0x55], 1, &entries);
    let m = read_mempool_from_bytes(&dump).unwrap();
    assert_eq!(m.get_file_header().version, 2);
    assert_eq!(m.get_file_header().num_tx, 1);
    assert_eq!(m.get_xor_key().as_deref(), Some(&[0xAA, 0x55][..]));
    let got = m.get_mempool_entries();
    assert_eq!(got.len(), 1);
    assert_eq!(got[0].first_seen_time, 42);
    assert_eq!(got[0].fee_delta, -7);
}

#[test]
fn obfuscated_dump_matches_plain_dump() {
    let entries = [entry_bytes(7, 8), entry_bytes(-9, 10), entry_bytes(11, -12)];
    let plain = read_mempool_from_bytes(&plain_dump(1, 3, &entries)).unwrap();
    let obf = read_mempool_from_bytes(&obfuscated_dump(&[0x13, 0x37, 0x5A], 3, &entries)).unwrap();
    assert_eq!(plain.get_file_header().num_tx, obf.get_file_header().num_tx);
    let pe = plain.get_mempool_entries();
    let oe = obf.get_mempool_entries();
    assert_eq!(pe.len(), oe.len());
    for (a, b) in pe.iter().zip(oe.iter()) {
        assert_eq!(a.first_seen_time, b.first_seen_time);
        assert_eq!(a.fee_delta, b.fee_delta);
        assert_eq!(a.transaction, b.transaction);
    }
}

#[test]
fn wrong_key_does_not_silently_succeed() {
    let entries = [entry_bytes(1, 2)];
    let mut dump = obfuscated_dump(&[0xAA, 0x55], 1, &entries);
    // corrupt one key byte: decoding must fail, not produce a snapshot
    dump[9] ^= 0x01;
    assert!(read_mempool_from_bytes(&dump).is_err());
}

#[test]
fn empty_key_behaves_like_no_key() {
    let entries = [entry_bytes(123, -456)];
    let plain = read_mempool_from_bytes(&plain_dump(1, 1, &entries)).unwrap();
    let empty_key = read_mempool_from_bytes(&obfuscated_dump(&[], 1, &entries)).unwrap();
    assert_eq!(empty_key.get_file_header().version, 2);
    assert_eq!(empty_key.get_xor_key().as_ref().map(|k| k.len()), Some(0));
    assert_eq!(plain.get_file_header().num_tx, empty_key.get_file_header().num_tx);
    let pe = plain.get_mempool_entries();
    let ee = empty_key.get_mempool_entries();
    assert_eq!(pe.len(), ee.len());
    assert_eq!(pe[0].first_seen_time, ee[0].first_seen_time);
    assert_eq!(pe[0].fee_delta, ee[0].fee_delta);
}

#[test]
fn mixed_transaction_shapes_under_obfuscation() {
    let entries = [
        entry_of(legacy_tx(), 100, -1),
        entry_bytes(200, -2),
        entry_of(legacy_tx(), 300, -3),
    ];
    let key = [0x01, 0xFE, 0x42, 0x99, 0x07];
    let m = read_mempool_from_bytes(&obfuscated_dump(&key, 3, &entries)).unwrap();
    let got = m.get_mempool_entries();
    assert_eq!(got.len(), 3);
    assert_eq!(got[0].first_seen_time, 100);
    assert_eq!(got[1].first_seen_time, 200);
    assert_eq!(got[2].first_seen_time, 300);
    assert_eq!(got[0].fee_delta, -1);
    assert_eq!(got[1].fee_delta, -2);
    assert_eq!(got[2].fee_delta, -3);
    assert_eq!(got[0].transaction.input.len(), 1);
    assert_eq!(got[1].transaction.input.len(), 0);
    assert_eq!(got[2].transaction.input.len(), 1);
}

#[test]
fn trailing_bytes_after_declared_entries_are_ignored() {
    let mut dump = plain_dump(1, 1, &[entry_bytes(9, 9)]);
    dump.extend_from_slice(&[0xDE, 0xAD, 0xBE, 0xEF]);
    let m = read_mempool_from_bytes(&dump).unwrap();
    assert_eq!(m.get_mempool_entries().len(), 1);
    assert_eq!(m.get_mempool_entries()[0].first_seen_time, 9);
}

#[test]
fn zero_entries_dump() {
    let m = read_mempool_from_bytes(&plain_dump(1, 0, &[])).unwrap();
    assert_eq!(m.get_file_header().num_tx, 0);
    assert_eq!(m.get_mempool_entries().len(), 0);
}

fn truncated(entries: &[Vec<u8>], num_tx: u64, keep: usize) -> Vec<u8> {
    let mut dump = plain_dump(1, num_tx, entries);
    dump.truncate(keep);
    dump
}

#[test]
fn truncation_at_first_entry() {
    // header only: entry 0 has nothing to read
    let dump = truncated(&[], 4, 16);
    match read_mempool_from_bytes(&dump) {
        Err(MempoolError::EntryRead(0, EntryFailure::TransactionDecode)) => {},
        other => panic!("unexpected outcome: {:?}", other.map(|_| ())),
    }
}

#[test]
fn truncation_inside_second_entry() {
    let entries = [entry_bytes(1, 1), entry_bytes(2, 2)];
    // keep the header, entry 0, and five bytes of entry 1's transaction
    let keep = 16 + entries[0].len() + 5;
    let dump = truncated(&entries, 4, keep);
    match read_mempool_from_bytes(&dump) {
        Err(MempoolError::EntryRead(1, _)) => {},
        other => panic!("unexpected outcome: {:?}", other.map(|_| ())),
    }
}

#[test]
fn truncation_in_middle_entry_metadata() {
    let entries = [entry_bytes(1, 1), entry_bytes(2, 2), entry_bytes(3, 3)];
    // entries 0 and 1 whole, entry 2's transaction whole, metadata cut short
    let keep = 16 + entries[0].len() + entries[1].len() + minimal_tx().len() + 5;
    let dump = truncated(&entries, 4, keep);
    match read_mempool_from_bytes(&dump) {
        Err(MempoolError::EntryRead(2, EntryFailure::MetadataRead)) => {},
        other => panic!("unexpected outcome: {:?}", other.map(|_| ())),
    }
}

#[test]
fn truncation_at_last_entry() {
    let entries = [entry_bytes(1, 1), entry_bytes(2, 2), entry_bytes(3, 3), entry_bytes(4, 4)];
    // declared count 4; all but the last entry's fee delta present
    let keep = 16 + entries[0].len() + entries[1].len() + entries[2].len() + entries[3].len() - 8;
    let dump = truncated(&entries, 4, keep);
    match read_mempool_from_bytes(&dump) {
        Err(MempoolError::EntryRead(3, EntryFailure::MetadataRead)) => {},
        other => panic!("unexpected outcome: {:?}", other.map(|_| ())),
    }
}

#[test]
fn count_larger_than_entries_present() {
    let entries = [entry_bytes(1, 1), entry_bytes(2, 2)];
    let dump = plain_dump(1, 3, &entries);
    match read_mempool_from_bytes(&dump) {
        Err(MempoolError::EntryRead(2, EntryFailure::TransactionDecode)) => {},
        other => panic!("unexpected outcome: {:?}", other.map(|_| ())),
    }
}

#[test]
fn short_header_fails() {
    assert_eq!(read_mempool_from_bytes(&Vec::new()).err(), Some(MempoolError::HeaderRead));
    assert_eq!(
        read_mempool_from_bytes(&vec![1, 2, 3]).err(),
        Some(MempoolError::HeaderRead)
    );
}

#[test]
fn missing_count_fails_as_header_read() {
    let dump = 1u64.to_le_bytes().to_vec();
    assert_eq!(read_mempool_from_bytes(&dump).err(), Some(MempoolError::HeaderRead));
}

#[test]
fn missing_key_length_fails() {
    let dump = 2u64.to_le_bytes().to_vec();
    assert_eq!(read_mempool_from_bytes(&dump).err(), Some(MempoolError::XorKeyRead));
}

#[test]
fn short_key_fails() {
    let mut dump = 2u64.to_le_bytes().to_vec();
    dump.push(5);
    dump.extend_from_slice(&[1, 2, 3]);
    assert_eq!(read_mempool_from_bytes(&dump).err(), Some(MempoolError::XorKeyRead));
}

#[test]
fn builders_and_getters() {
    let header = FileHeader::new(7, 1);
    assert_eq!(header.version, 7);
    assert_eq!(header.num_tx, 1);
    let mut decoded = read_mempool_from_bytes(&plain_dump(1, 1, &[entry_bytes(5, 6)])).unwrap();
    let tx = decoded.entries.remove(0).transaction;
    let entry = MempoolEntry::new(tx, 5, 6);
    assert_eq!(entry.first_seen_time, 5);
    assert_eq!(entry.fee_delta, 6);
    let pool = Mempool::new(header, vec![entry], Vec::new(), Some(vec![0xAB]));
    assert_eq!(pool.get_file_header().version, 7);
    assert_eq!(pool.get_mempool_entries().len(), 1);
    assert_eq!(pool.get_xor_key().as_deref(), Some(&[0xAB][..]));
    assert_eq!(pool.map_deltas.len(), 0);
}
