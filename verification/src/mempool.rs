//! Record types of a decoded dump and the streaming decoder itself.

use vstd::prelude::*;

use crate::stream::{
    le_i64, le_u64, lemma_xor_at_subrange, plain_rest, u64_from_le_bytes, xor_at, XorReader,
    XorReaderModel,
};

verus! {

/// The format version that carries an obfuscation key in its header.
pub const MEMPOOL_V2_FORMAT: u64 = 2;

/// Which part of an entry could not be read: the serialized transaction, or the
/// two 8-byte metadata fields that follow it.
#[derive(Debug, Clone, Copy, PartialEq, Eq, Structural)]
pub enum EntryFailure {
    /// The transaction codec rejected the bytes at the entry's start.
    TransactionDecode,
    /// The transaction was decoded, but the timestamp or fee-delta field was cut short.
    MetadataRead,
}

/// Everything that can go wrong while decoding a dump. Every failure aborts the
/// whole decode: a misread shifts all later cipher offsets and record
/// boundaries, so nothing after it can be trusted.
#[derive(Debug, Clone, Copy, PartialEq, Eq, Structural)]
pub enum MempoolError {
    /// The underlying byte source ended before a full read could be served.
    UnexpectedEof,
    /// A key is set but the stream's absolute position is unknown, so the
    /// cipher cannot be applied at the right offset. Never silently skipped.
    PositionUnknown,
    /// The version field or the transaction count could not be read.
    HeaderRead,
    /// The obfuscation key's length byte or its bytes could not be read.
    XorKeyRead,
    /// Entry at this zero-based index could not be read, and which of its two
    /// parts failed.
    EntryRead(u64, EntryFailure),
}

/// The dump's fixed-size header: the format version and the declared number of
/// transactions. The version is stored in the clear; the count is read through
/// the cipher when a key is present.
#[derive(Debug, Clone, Copy, PartialEq, Eq, Structural)]
pub struct FileHeader {
    pub version: u64,
    pub num_tx: u64,
}

impl FileHeader {
    pub fn new(version: u64, num_tx: u64) -> (r: Self)
        ensures
            r == (FileHeader { version, num_tx }),
    {
        Self { version, num_tx }
    }
}

#[verifier::external_type_specification]
#[verifier::external_body]
pub struct ExTransaction(bitcoin::Transaction);

#[verifier::external_type_specification]
#[verifier::external_body]
pub struct ExTxid(bitcoin::Txid);

#[verifier::external_type_specification]
#[verifier::external_body]
pub struct ExConsensusEncodeError(bitcoin::consensus::encode::Error);

/// One entry of the dump: a decoded transaction and the two signed metadata
/// fields stored right after it. Neither field is validated against any range.
pub struct MempoolEntry {
    pub first_seen_time: i64,
    pub fee_delta: i64,
    pub transaction: bitcoin::Transaction,
}

impl MempoolEntry {
    pub fn new(transaction: bitcoin::Transaction, first_seen_time: i64, fee_delta: i64) -> (r:
        Self)
        ensures
            r == (MempoolEntry { transaction, first_seen_time, fee_delta }),
    {
        Self { transaction, first_seen_time, fee_delta }
    }
}

/// A fee-delta override keyed by transaction id. The on-disk format reserves a
/// map of these, but no dump observed so far populates it, so the decoder
/// models it as an always-empty collection.
pub struct FeeDelta {
    pub txid: bitcoin::Txid,
    pub delta: i64,
}

/// What a decoded dump abstracts to.
#[verifier::ext_equal]
pub struct MempoolModel {
    pub version: u64,
    pub num_tx: u64,
    pub xor_key: Option<Seq<u8>>,
    pub entries: Seq<MempoolEntry>,
    pub map_deltas: Seq<FeeDelta>,
}

/// The view of an optional key.
pub open spec fn opt_key_view(key: Option<Vec<u8>>) -> Option<Seq<u8>> {
    match key {
        Some(k) => Some(k@),
        None => None,
    }
}

/// A fully decoded dump: header, the key it was obfuscated with (if any), and
/// the entries in on-disk order. Built only by a decode that read every
/// declared entry; a failed decode exposes no partial snapshot.
pub struct Mempool {
    pub header: FileHeader,
    pub xor_key: Option<Vec<u8>>,
    pub entries: Vec<MempoolEntry>,
    pub map_deltas: Vec<FeeDelta>,
}

impl View for Mempool {
    type V = MempoolModel;

    closed spec fn view(&self) -> MempoolModel {
        MempoolModel {
            version: self.header.version,
            num_tx: self.header.num_tx,
            xor_key: opt_key_view(self.xor_key),
            entries: self.entries@,
            map_deltas: self.map_deltas@,
        }
    }
}

impl Mempool {
    pub fn new(
        header: FileHeader,
        entries: Vec<MempoolEntry>,
        map_deltas: Vec<FeeDelta>,
        xor_key: Option<Vec<u8>>,
    ) -> (r: Self)
        ensures
            r@ == (MempoolModel {
                version: header.version,
                num_tx: header.num_tx,
                xor_key: opt_key_view(xor_key),
                entries: entries@,
                map_deltas: map_deltas@,
            }),
    {
        Self { header, entries, map_deltas, xor_key }
    }

    pub fn get_mempool_entries(&self) -> (r: &Vec<MempoolEntry>)
        ensures
            r@ == self@.entries,
    {
        &self.entries
    }

    pub fn get_file_header(&self) -> (r: &FileHeader)
        ensures
            r.version == self@.version,
            r.num_tx == self@.num_tx,
    {
        &self.header
    }

    pub fn get_xor_key(&self) -> (r: &Option<Vec<u8>>)
        ensures
            opt_key_view(*r) == self@.xor_key,
    {
        &self.xor_key
    }
}

/// What `bitcoin`'s transaction codec makes of the front of a byte sequence:
/// `None` when it rejects the bytes, otherwise the decoded transaction and how
/// many bytes it consumed. The codec is a pure parser, so this is a function
/// of the bytes alone.
pub uninterp spec fn tx_decode(bytes: Seq<u8>) -> Option<(bitcoin::Transaction, nat)>;

/// Relies on `bitcoin::consensus::encode::deserialize_partial::<Transaction>`:
/// it decodes one transaction from the front of the slice and reports how many
/// bytes it consumed (the final cursor position, never past the slice's end).
#[verifier::external_body]
fn decode_transaction_prefix(bytes: &Vec<u8>) -> (r: Result<
    (bitcoin::Transaction, usize),
    bitcoin::consensus::encode::Error,
>)
    ensures
        match r {
            Ok(p) => tx_decode(bytes@) == Some((p.0, p.1 as nat)) && p.1 <= bytes@.len(),
            Err(_) => tx_decode(bytes@) is None,
        },
{
    bitcoin::consensus::encode::deserialize_partial::<bitcoin::Transaction>(bytes)
}

/// What decoding one entry from the front of (already deciphered) bytes
/// yields: the entry and how many bytes it used, or which part failed.
pub open spec fn decode_one(rest: Seq<u8>) -> Result<(MempoolEntry, nat), EntryFailure> {
    match tx_decode(rest) {
        None => Err(EntryFailure::TransactionDecode),
        Some(p) => {
            let c = p.1 as int;
            if rest.len() < c + 16 {
                Err(EntryFailure::MetadataRead)
            } else {
                Ok(
                    (
                        MempoolEntry {
                            transaction: p.0,
                            first_seen_time: le_i64(rest.subrange(c, c + 8)),
                            fee_delta: le_i64(rest.subrange(c + 8, c + 16)),
                        },
                        p.1 + 16,
                    ),
                )
            }
        },
    }
}

/// What decoding `count` entries from the front of (already deciphered) bytes
/// yields, numbering them from `idx`: the entries in order, or the error of
/// the first entry that failed.
pub open spec fn decode_entries(rest: Seq<u8>, count: nat, idx: nat) -> Result<
    Seq<MempoolEntry>,
    MempoolError,
>
    decreases count,
{
    if count == 0 {
        Ok(Seq::empty())
    } else {
        match decode_one(rest) {
            Err(part) => Err(MempoolError::EntryRead(idx as u64, part)),
            Ok(p) => match decode_entries(rest.skip(p.1 as int), (count - 1) as nat, idx + 1) {
                Ok(es) => Ok(seq![p.0] + es),
                Err(e) => Err(e),
            },
        }
    }
}

/// What the post-header part of a dump decodes to, once deciphered: the
/// transaction count followed by that many entries.
pub open spec fn decode_body(version: u64, key: Option<Seq<u8>>, plain: Seq<u8>) -> Result<
    MempoolModel,
    MempoolError,
> {
    if plain.len() < 8 {
        Err(MempoolError::HeaderRead)
    } else {
        let num_tx = le_u64(plain.subrange(0, 8));
        match decode_entries(plain.skip(8), num_tx as nat, 0) {
            Ok(entries) => Ok(
                MempoolModel { version, num_tx, xor_key: key, entries, map_deltas: Seq::empty() },
            ),
            Err(e) => Err(e),
        }
    }
}

/// What a whole dump decodes to: the plaintext version, then (for the
/// obfuscation-capable version) the key, then the deciphered body.
pub open spec fn decode_model(data: Seq<u8>) -> Result<MempoolModel, MempoolError> {
    if data.len() < 8 {
        Err(MempoolError::HeaderRead)
    } else {
        let version = le_u64(data.subrange(0, 8));
        if version == MEMPOOL_V2_FORMAT {
            if data.len() < 9 {
                Err(MempoolError::XorKeyRead)
            } else {
                let n = data[8] as int;
                if data.len() < 9 + n {
                    Err(MempoolError::XorKeyRead)
                } else {
                    let key = data.subrange(9, 9 + n);
                    decode_body(version, Some(key), xor_at(data.skip(9 + n), key, 0))
                }
            }
        } else {
            decode_body(version, None, data.skip(8))
        }
    }
}

/// Copy `n` bytes of `data` starting at `start` into a fresh buffer.
fn copy_range(data: &Vec<u8>, start: usize, n: usize) -> (r: Vec<u8>)
    requires
        start + n <= data@.len(),
    ensures
        r@ == data@.subrange(start as int, start + n),
{
    let total = data.len();
    let mut buf: Vec<u8> = Vec::new();
    let mut i: usize = 0;
    while i < n
        invariant
            start + n <= data@.len() <= usize::MAX,
            total == data@.len(),
            0 <= i <= n,
            buf@ =~= data@.subrange(start as int, start + i),
        decreases n - i,
    {
        buf.push(data[start + i]);
        proof {
            assert(buf@ =~= data@.subrange(start as int, start + i + 1));
        }
        i = i + 1;
    }
    buf
}

/// After `used` more bytes were consumed in lockstep with the tracked
/// position, the deciphered remainder is the old remainder minus its first
/// `used` bytes.
proof fn lemma_plain_rest_skip(m0: XorReaderModel, m1: XorReaderModel, used: nat)
    requires
        m0.cursor + used <= m0.data.len(),
        m1.data == m0.data,
        m1.key == m0.key,
        m1.cursor == m0.cursor + used,
        m0.position == Some(m0.cursor),
        m1.position == Some(m1.cursor),
    ensures
        plain_rest(m1) == plain_rest(m0).skip(used as int),
{
    let len = m0.data.len() as int;
    let c0 = m0.cursor as int;
    lemma_xor_at_subrange(
        m0.data.subrange(c0, len),
        m0.key,
        m0.cursor as nat,
        used as int,
        len - c0,
    );
    assert(m0.data.subrange(c0, len).subrange(used as int, len - c0) =~= m0.data.subrange(
        c0 + used,
        len,
    ));
    assert(plain_rest(m0).skip(used as int) =~= plain_rest(m0).subrange(used as int, len - c0));
}

/// Read one entry from the stream: one transaction through the external codec,
/// then the timestamp and the fee delta. The reader's tracked position must
/// run in lockstep with its cursor, as it does throughout a decode.
fn read_mempool_entry(reader: &mut XorReader) -> (r: Result<MempoolEntry, EntryFailure>)
    requires
        old(reader).wf(),
        old(reader)@.position == Some(old(reader)@.cursor),
        old(reader)@.data.len() + 8 <= u64::MAX,
    ensures
        final(reader).wf(),
        final(reader)@.data == old(reader)@.data,
        final(reader)@.key == old(reader)@.key,
        match r {
            Ok(e) => decode_one(plain_rest(old(reader)@)) matches Ok(p) && e == p.0
                && final(reader)@.cursor == old(reader)@.cursor + p.1
                && final(reader)@.position == Some(final(reader)@.cursor),
            Err(part) => decode_one(plain_rest(old(reader)@)) == Err::<
                (MempoolEntry, nat),
                EntryFailure,
            >(part),
        },
{
    let ghost m0 = reader@;
    let rest = match reader.peek_remaining() {
        Ok(b) => b,
        Err(_) => {
            // unreachable: the position is known throughout a decode
            proof {
                assert(false);
            }
            return Err(EntryFailure::TransactionDecode);
        },
    };
    let (tx, consumed) = match decode_transaction_prefix(&rest) {
        Ok(p) => p,
        Err(_) => {
            return Err(EntryFailure::TransactionDecode);
        },
    };
    // advance past the transaction's bytes; they were already handed out
    match reader.read_exact(consumed) {
        Ok(_) => {},
        Err(_) => {
            // unreachable: the codec consumed no more than what was peeked
            proof {
                assert(false);
            }
            return Err(EntryFailure::TransactionDecode);
        },
    }
    proof {
        lemma_plain_rest_skip(m0, reader@, consumed as nat);
    }
    let first_seen_time = match reader.read_i64_le() {
        Ok(v) => v,
        Err(_) => {
            return Err(EntryFailure::MetadataRead);
        },
    };
    let fee_delta = match reader.read_i64_le() {
        Ok(v) => v,
        Err(_) => {
            return Err(EntryFailure::MetadataRead);
        },
    };
    proof {
        let len = m0.data.len() as int;
        let c0 = m0.cursor as int;
        let c = consumed as int;
        lemma_xor_at_subrange(m0.data.subrange(c0, len), m0.key, m0.cursor as nat, c, c + 8);
        lemma_xor_at_subrange(m0.data.subrange(c0, len), m0.key, m0.cursor as nat, c + 8, c + 16);
        assert(m0.data.subrange(c0, len).subrange(c, c + 8) =~= m0.data.subrange(
            c0 + c,
            c0 + c + 8,
        ));
        assert(m0.data.subrange(c0, len).subrange(c + 8, c + 16) =~= m0.data.subrange(
            c0 + c + 8,
            c0 + c + 16,
        ));
        assert(plain_rest(m0).subrange(c, c + 8) == xor_at(
            m0.data.subrange(c0 + c, c0 + c + 8),
            m0.key,
            (m0.cursor + consumed) as nat,
        ));
        assert(plain_rest(m0).subrange(c + 8, c + 16) == xor_at(
            m0.data.subrange(c0 + c + 8, c0 + c + 16),
            m0.key,
            (m0.cursor + consumed + 8) as nat,
        ));
    }
    Ok(MempoolEntry::new(tx, first_seen_time, fee_delta))
}

/// Prepend already-decoded entries to the outcome of decoding the rest.
spec fn with_prefix(prefix: Seq<MempoolEntry>, r: Result<Seq<MempoolEntry>, MempoolError>) -> Result<
    Seq<MempoolEntry>,
    MempoolError,
> {
    match r {
        Ok(es) => Ok(prefix + es),
        Err(e) => Err(e),
    }
}

/// Decode the obfuscated part of a dump: the transaction count, then exactly
/// that many entries, through a reader positioned at the region's start.
fn decode_stream(version: u64, xor_key: Option<Vec<u8>>, reader: XorReader) -> (r: Result<
    Mempool,
    MempoolError,
>)
    requires
        reader.wf(),
        reader@.cursor == 0,
        reader@.position == Some(0u64),
        reader@.data.len() + 8 <= u64::MAX,
        match xor_key {
            Some(k) => k@ == reader@.key,
            None => reader@.key.len() == 0,
        },
    ensures
        ({
            let spec_r = decode_body(
                version,
                opt_key_view(xor_key),
                xor_at(reader@.data, reader@.key, 0),
            );
            match r {
                Ok(m) => spec_r matches Ok(mm) && m@ == mm,
                Err(e) => spec_r matches Err(e2) && e == e2,
            }
        }),
{
    let ghost region = reader@.data;
    let ghost keyseq = reader@.key;
    let ghost plain = xor_at(region, keyseq, 0);
    let mut reader = reader;
    let num_tx = match reader.read_u64_le() {
        Ok(v) => v,
        Err(_) => {
            return Err(MempoolError::HeaderRead);
        },
    };
    proof {
        lemma_xor_at_subrange(region, keyseq, 0, 0, 8);
        assert(num_tx == le_u64(plain.subrange(0, 8)));
        lemma_xor_at_subrange(region, keyseq, 0, 8, region.len() as int);
        assert(region.subrange(8, region.len() as int) =~= region.skip(8));
        assert(plain.subrange(8, region.len() as int) =~= plain.skip(8));
        assert(plain_rest(reader@) == plain.skip(8));
        let r0 = decode_entries(plain.skip(8), num_tx as nat, 0);
        match r0 {
            Ok(es) => {
                assert(Seq::<MempoolEntry>::empty() + es =~= es);
            },
            Err(_) => {},
        }
    }
    let mut entries: Vec<MempoolEntry> = Vec::new();
    let mut i: u64 = 0;
    #[verifier::loop_isolation(false)]
    while i < num_tx
        invariant
            reader.wf(),
            reader@.data == region,
            reader@.key == keyseq,
            reader@.position == Some(reader@.cursor),
            region.len() + 8 <= u64::MAX,
            plain == xor_at(region, keyseq, 0),
            plain.len() == region.len(),
            8 <= plain.len(),
            num_tx == le_u64(plain.subrange(0, 8)),
            i <= num_tx,
            entries@.len() == i,
            decode_entries(plain.skip(8), num_tx as nat, 0) == with_prefix(
                entries@,
                decode_entries(plain_rest(reader@), (num_tx - i) as nat, i as nat),
            ),
        decreases num_tx - i,
    {
        let ghost m_before = reader@;
        let e = match read_mempool_entry(&mut reader) {
            Ok(e) => e,
            Err(part) => {
                proof {
                    assert(decode_entries(plain_rest(m_before), (num_tx - i) as nat, i as nat)
                        == Err::<Seq<MempoolEntry>, MempoolError>(
                        MempoolError::EntryRead(i, part),
                    ));
                }
                return Err(MempoolError::EntryRead(i, part));
            },
        };
        let ghost entries_before = entries@;
        entries.push(e);
        proof {
            let p = decode_one(plain_rest(m_before))->Ok_0;
            let used = p.1;
            lemma_plain_rest_skip(m_before, reader@, used);
            let r_next = decode_entries(
                plain_rest(reader@),
                (num_tx - i - 1) as nat,
                (i + 1) as nat,
            );
            match r_next {
                Ok(es) => {
                    assert(entries_before + (seq![e] + es) =~= entries_before.push(e) + es);
                },
                Err(_) => {},
            }
        }
        i = i + 1;
    }
    let header = FileHeader::new(version, num_tx);
    proof {
        assert(entries@ + Seq::<MempoolEntry>::empty() =~= entries@);
    }
    let m = Mempool::new(header, entries, Vec::new(), xor_key);
    proof {
        let spec_r = decode_body(version, opt_key_view(xor_key), plain);
        match spec_r {
            Ok(mm) => {
                assert(m@ =~= mm);
            },
            Err(_) => {},
        }
    }
    Ok(m)
}

/// Decode a whole dump held in memory. All-or-nothing: either every declared
/// entry was read and a full snapshot is returned, or the first failure is
/// reported and nothing is exposed.
pub fn read_mempool_from_bytes(data: &Vec<u8>) -> (r: Result<Mempool, MempoolError>)
    ensures
        match r {
            Ok(m) => decode_model(data@) matches Ok(mm) && m@ == mm,
            Err(e) => decode_model(data@) matches Err(e2) && e == e2,
        },
{
    if data.len() < 8 {
        return Err(MempoolError::HeaderRead);
    }
    let head = copy_range(data, 0, 8);
    let version = u64_from_le_bytes(&head);
    proof {
        assert(head@ =~= data@.subrange(0, 8));
    }
    if version == MEMPOOL_V2_FORMAT {
        if data.len() < 9 {
            return Err(MempoolError::XorKeyRead);
        }
        let klen = data[8] as usize;
        if data.len() - 9 < klen {
            return Err(MempoolError::XorKeyRead);
        }
        let key = copy_range(data, 9, klen);
        let region = copy_range(data, 9 + klen, data.len() - 9 - klen);
        let key_for_reader = copy_range(&key, 0, key.len());
        proof {
            assert(key_for_reader@ =~= key@);
            assert(region@ =~= data@.skip(9 + klen as int));
        }
        let reader = XorReader::new(region, key_for_reader, Some(0));
        decode_stream(version, Some(key), reader)
    } else {
        let region = copy_range(data, 8, data.len() - 8);
        proof {
            assert(region@ =~= data@.skip(8));
        }
        let reader = XorReader::new(region, Vec::new(), Some(0));
        decode_stream(version, None, reader)
    }
}

} // verus!
