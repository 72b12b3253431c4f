//! Dump-level properties of the decoder, stated and proved.

use vstd::prelude::*;

use crate::mempool::{
    decode_body, decode_entries, decode_model, decode_one, tx_decode, EntryFailure, MempoolEntry,
    MempoolError, MempoolModel, MEMPOOL_V2_FORMAT,
};
use crate::stream::{le_i64, le_u64, lemma_xor_round_trip, xor_at};
use vstd::arithmetic::div_mod::{
    lemma_basic_div, lemma_div_denominator, lemma_fundamental_div_mod,
};

verus! {

/// The 8-byte little-endian encoding of an unsigned 64-bit value.
pub open spec fn le_bytes_u64(v: u64) -> Seq<u8> {
    seq![
        (v as int % 0x100) as u8,
        (v as int / 0x100 % 0x100) as u8,
        (v as int / 0x1_0000 % 0x100) as u8,
        (v as int / 0x100_0000 % 0x100) as u8,
        (v as int / 0x1_0000_0000 % 0x100) as u8,
        (v as int / 0x100_0000_0000 % 0x100) as u8,
        (v as int / 0x1_0000_0000_0000 % 0x100) as u8,
        (v as int / 0x100_0000_0000_0000 % 0x100) as u8,
    ]
}

/// The 8-byte little-endian two's complement encoding of a signed 64-bit value.
pub open spec fn le_bytes_i64(v: i64) -> Seq<u8> {
    if v >= 0 {
        le_bytes_u64(v as u64)
    } else {
        le_bytes_u64((v + 0x1_0000_0000_0000_0000) as u64)
    }
}

/// Reading back the little-endian encoding of an unsigned value gives the
/// value itself.
pub proof fn lemma_le_u64_round_trip(v: u64)
    ensures
        le_bytes_u64(v).len() == 8,
        le_u64(le_bytes_u64(v)) == v,
{
    let x = v as int;
    lemma_div_denominator(x, 0x100, 0x100);
    lemma_div_denominator(x, 0x1_0000, 0x100);
    lemma_div_denominator(x, 0x100_0000, 0x100);
    lemma_div_denominator(x, 0x1_0000_0000, 0x100);
    lemma_div_denominator(x, 0x100_0000_0000, 0x100);
    lemma_div_denominator(x, 0x1_0000_0000_0000, 0x100);
    lemma_div_denominator(x, 0x100_0000_0000_0000, 0x100);
    lemma_fundamental_div_mod(x, 0x100);
    lemma_fundamental_div_mod(x / 0x100, 0x100);
    lemma_fundamental_div_mod(x / 0x1_0000, 0x100);
    lemma_fundamental_div_mod(x / 0x100_0000, 0x100);
    lemma_fundamental_div_mod(x / 0x1_0000_0000, 0x100);
    lemma_fundamental_div_mod(x / 0x100_0000_0000, 0x100);
    lemma_fundamental_div_mod(x / 0x1_0000_0000_0000, 0x100);
    lemma_fundamental_div_mod(x / 0x100_0000_0000_0000, 0x100);
    lemma_basic_div(x / 0x100_0000_0000_0000, 0x100);
}

/// Reading back the little-endian encoding of a signed value gives the value
/// itself.
pub proof fn lemma_le_i64_round_trip(v: i64)
    ensures
        le_bytes_i64(v).len() == 8,
        le_i64(le_bytes_i64(v)) == v,
{
    if v >= 0 {
        lemma_le_u64_round_trip(v as u64);
    } else {
        lemma_le_u64_round_trip((v + 0x1_0000_0000_0000_0000) as u64);
    }
}

/// One on-disk entry, described for stating dump-level laws: the serialized
/// transaction bytes, the transaction they decode to, and the two metadata
/// fields stored after them.
pub struct EntryDesc {
    pub tx_bytes: Seq<u8>,
    pub tx: bitcoin::Transaction,
    pub first_seen_time: i64,
    pub fee_delta: i64,
}

/// The bytes of one described entry as they lie in the dump.
pub open spec fn desc_blob(d: EntryDesc) -> Seq<u8> {
    d.tx_bytes + le_bytes_i64(d.first_seen_time) + le_bytes_i64(d.fee_delta)
}

/// The bytes of a run of described entries, followed by `tail`.
pub open spec fn descs_blob(ds: Seq<EntryDesc>, tail: Seq<u8>) -> Seq<u8>
    decreases ds.len(),
{
    if ds.len() == 0 {
        tail
    } else {
        desc_blob(ds[0]) + descs_blob(ds.skip(1), tail)
    }
}

/// The descriptions are well-formed: at the start of each entry's bytes (with
/// everything after them in place), the codec returns exactly the described
/// transaction and consumes exactly the described bytes.
pub open spec fn descs_wf(ds: Seq<EntryDesc>, tail: Seq<u8>) -> bool {
    forall|i: int|
        0 <= i < ds.len() ==> #[trigger] tx_decode(descs_blob(ds.skip(i), tail)) == Some(
            (ds[i].tx, ds[i].tx_bytes.len()),
        )
}

/// The entry a description stands for.
pub open spec fn desc_entry(d: EntryDesc) -> MempoolEntry {
    MempoolEntry { transaction: d.tx, first_seen_time: d.first_seen_time, fee_delta: d.fee_delta }
}

/// The entries a run of descriptions stands for, in order.
pub open spec fn descs_entries(ds: Seq<EntryDesc>) -> Seq<MempoolEntry> {
    Seq::new(ds.len(), |i: int| desc_entry(ds[i]))
}

/// Dropping the first description keeps the rest well-formed.
proof fn lemma_descs_wf_skip(ds: Seq<EntryDesc>, tail: Seq<u8>)
    requires
        descs_wf(ds, tail),
        ds.len() > 0,
    ensures
        descs_wf(ds.skip(1), tail),
{
    let rest = ds.skip(1);
    assert forall|i: int| 0 <= i < rest.len() implies #[trigger] tx_decode(
        descs_blob(rest.skip(i), tail),
    ) == Some((rest[i].tx, rest[i].tx_bytes.len())) by {
        assert(rest.skip(i) =~= ds.skip(i + 1));
        assert(tx_decode(descs_blob(ds.skip(i + 1), tail)) == Some(
            (ds[i + 1].tx, ds[i + 1].tx_bytes.len()),
        ));
    }
}

/// Decoding a run of well-formed described entries yields exactly the entries
/// they stand for, and then carries on with whatever follows them.
proof fn lemma_decode_entries_prefix(ds: Seq<EntryDesc>, tail: Seq<u8>, extra: nat, idx: nat)
    requires
        descs_wf(ds, tail),
    ensures
        decode_entries(descs_blob(ds, tail), ds.len() + extra, idx) == match decode_entries(
            tail,
            extra,
            idx + ds.len(),
        ) {
            Ok(es) => Ok::<Seq<MempoolEntry>, MempoolError>(descs_entries(ds) + es),
            Err(e) => Err::<Seq<MempoolEntry>, MempoolError>(e),
        },
    decreases ds.len(),
{
    if ds.len() == 0 {
        assert(descs_blob(ds, tail) == tail);
        match decode_entries(tail, extra, idx) {
            Ok(es) => {
                assert(descs_entries(ds) + es =~= es);
            },
            Err(_) => {},
        }
    } else {
        let d = ds[0];
        let blob = descs_blob(ds, tail);
        let rest_blob = descs_blob(ds.skip(1), tail);
        lemma_le_i64_round_trip(d.first_seen_time);
        lemma_le_i64_round_trip(d.fee_delta);
        let tl = d.tx_bytes.len() as int;
        assert(ds.skip(0) =~= ds);
        assert(tx_decode(blob) == Some((d.tx, d.tx_bytes.len())));
        assert(blob.len() == tl + 16 + rest_blob.len());
        assert(blob.subrange(tl, tl + 8) =~= le_bytes_i64(d.first_seen_time));
        assert(blob.subrange(tl + 8, tl + 16) =~= le_bytes_i64(d.fee_delta));
        assert(decode_one(blob) == Ok::<(MempoolEntry, nat), EntryFailure>(
            (desc_entry(d), (tl + 16) as nat),
        ));
        assert(blob.skip(tl + 16) =~= rest_blob);
        lemma_descs_wf_skip(ds, tail);
        lemma_decode_entries_prefix(ds.skip(1), tail, extra, idx + 1);
        match decode_entries(tail, extra, idx + ds.len()) {
            Ok(es) => {
                assert(seq![desc_entry(d)] + (descs_entries(ds.skip(1)) + es) =~= descs_entries(
                    ds,
                ) + es);
            },
            Err(_) => {},
        }
    }
}

/// A plain (version other than the obfuscated one) dump reduces to decoding
/// its body after the two header fields.
proof fn lemma_decode_plain_header(version: u64, num_tx: u64, body: Seq<u8>)
    requires
        version != MEMPOOL_V2_FORMAT,
    ensures
        decode_model(le_bytes_u64(version) + le_bytes_u64(num_tx) + body) == match decode_entries(
            body,
            num_tx as nat,
            0,
        ) {
            Ok(entries) => Ok::<MempoolModel, MempoolError>(
                MempoolModel {
                    version,
                    num_tx,
                    xor_key: None,
                    entries,
                    map_deltas: Seq::empty(),
                },
            ),
            Err(e) => Err::<MempoolModel, MempoolError>(e),
        },
{
    lemma_le_u64_round_trip(version);
    lemma_le_u64_round_trip(num_tx);
    let data = le_bytes_u64(version) + le_bytes_u64(num_tx) + body;
    assert(data.subrange(0, 8) =~= le_bytes_u64(version));
    let after = data.skip(8);
    assert(after =~= le_bytes_u64(num_tx) + body);
    assert(after.subrange(0, 8) =~= le_bytes_u64(num_tx));
    assert(after.skip(8) =~= body);
}

/// LAW: a dump of a non-obfuscated version holding a run of well-formed
/// entries decodes to exactly those entries in on-disk order, with `num_tx`
/// equal to their number and no key recorded.
pub proof fn lemma_decode_plain_dump(version: u64, ds: Seq<EntryDesc>)
    requires
        version != MEMPOOL_V2_FORMAT,
        descs_wf(ds, Seq::empty()),
        ds.len() <= u64::MAX,
    ensures
        decode_model(
            le_bytes_u64(version) + le_bytes_u64(ds.len() as u64) + descs_blob(ds, Seq::empty()),
        ) == Ok::<MempoolModel, MempoolError>(
            MempoolModel {
                version,
                num_tx: ds.len() as u64,
                xor_key: None,
                entries: descs_entries(ds),
                map_deltas: Seq::empty(),
            },
        ),
{
    lemma_decode_plain_header(version, ds.len() as u64, descs_blob(ds, Seq::empty()));
    lemma_decode_entries_prefix(ds, Seq::empty(), 0, 0);
    assert(decode_entries(Seq::empty(), 0, ds.len() as int as nat) == Ok::<
        Seq<MempoolEntry>,
        MempoolError,
    >(Seq::empty()));
    assert(descs_entries(ds) + Seq::<MempoolEntry>::empty() =~= descs_entries(ds));
}

/// LAW: when the stream ends inside entry `k` — the codec rejects what is left,
/// or fewer than 16 metadata bytes follow the transaction — decoding fails
/// with an entry error carrying exactly index `k`, and no snapshot is
/// produced.
pub proof fn lemma_truncated_dump_fails_at_entry(
    version: u64,
    ds: Seq<EntryDesc>,
    tail: Seq<u8>,
    num_tx: u64,
)
    requires
        version != MEMPOOL_V2_FORMAT,
        descs_wf(ds, tail),
        ds.len() < num_tx,
        match tx_decode(tail) {
            None => true,
            Some(p) => tail.len() < p.1 + 16,
        },
    ensures
        decode_model(le_bytes_u64(version) + le_bytes_u64(num_tx) + descs_blob(ds, tail)) == Err::<
            MempoolModel,
            MempoolError,
        >(
            MempoolError::EntryRead(
                ds.len() as u64,
                if tx_decode(tail) is None {
                    EntryFailure::TransactionDecode
                } else {
                    EntryFailure::MetadataRead
                },
            ),
        ),
{
    lemma_decode_plain_header(version, num_tx, descs_blob(ds, tail));
    let extra = (num_tx - ds.len()) as nat;
    lemma_decode_entries_prefix(ds, tail, extra, 0);
}

/// LAW: an obfuscated dump decodes to the same count and the same entries as a
/// plain dump carrying the same logical content; only the header's version and
/// the recorded key differ, and the two fail with the same error on the same
/// content. In particular a correct embedded key always deciphers back what
/// was ciphered, by the cipher's round trip.
pub proof fn lemma_obfuscated_dump_matches_plain(key: Seq<u8>, body: Seq<u8>, plain_version: u64)
    requires
        plain_version != MEMPOOL_V2_FORMAT,
        key.len() <= 255,
    ensures
        ({
            let obf = le_bytes_u64(MEMPOOL_V2_FORMAT) + seq![key.len() as u8] + key + xor_at(
                body,
                key,
                0,
            );
            let plain = le_bytes_u64(plain_version) + body;
            match (decode_model(obf), decode_model(plain)) {
                (Ok(a), Ok(b)) => {
                    &&& a.entries == b.entries
                    &&& a.num_tx == b.num_tx
                    &&& a.version == MEMPOOL_V2_FORMAT
                    &&& b.version == plain_version
                    &&& a.xor_key == Some(key)
                    &&& b.xor_key is None
                },
                (Err(ea), Err(eb)) => ea == eb,
                _ => false,
            }
        }),
{
    lemma_le_u64_round_trip(MEMPOOL_V2_FORMAT);
    lemma_le_u64_round_trip(plain_version);
    let obf = le_bytes_u64(MEMPOOL_V2_FORMAT) + seq![key.len() as u8] + key + xor_at(body, key, 0);
    let plain = le_bytes_u64(plain_version) + body;
    assert(obf.subrange(0, 8) =~= le_bytes_u64(MEMPOOL_V2_FORMAT));
    assert(obf[8] == key.len() as u8);
    assert(obf.len() == 9 + key.len() + body.len());
    assert(obf.subrange(9, 9 + key.len() as int) =~= key);
    assert(obf.skip(9 + key.len() as int) =~= xor_at(body, key, 0));
    lemma_xor_round_trip(body, key, 0);
    assert(plain.subrange(0, 8) =~= le_bytes_u64(plain_version));
    assert(plain.skip(8) =~= body);
    let ra = decode_body(MEMPOOL_V2_FORMAT, Some(key), body);
    let rb = decode_body(plain_version, None, body);
    match (ra, rb) {
        (Ok(_), Ok(_)) => {},
        (Err(_), Err(_)) => {},
        _ => {
            assert(false);
        },
    }
}

/// LAW: a dump of the obfuscated version carrying an empty key (length byte
/// zero, no key bytes) decodes exactly like a plain dump with the same body:
/// the empty key is the identity transform for every subsequent read.
pub proof fn lemma_empty_key_like_no_key(body: Seq<u8>, plain_version: u64)
    requires
        plain_version != MEMPOOL_V2_FORMAT,
    ensures
        ({
            let obf = le_bytes_u64(MEMPOOL_V2_FORMAT) + seq![0u8] + body;
            let plain = le_bytes_u64(plain_version) + body;
            match (decode_model(obf), decode_model(plain)) {
                (Ok(a), Ok(b)) => {
                    &&& a.entries == b.entries
                    &&& a.num_tx == b.num_tx
                    &&& a.xor_key == Some(Seq::<u8>::empty())
                    &&& b.xor_key is None
                },
                (Err(ea), Err(eb)) => ea == eb,
                _ => false,
            }
        }),
{
    let empty_key = Seq::<u8>::empty();
    lemma_obfuscated_dump_matches_plain(empty_key, body, plain_version);
    assert(xor_at(body, empty_key, 0) == body);
    assert(le_bytes_u64(MEMPOOL_V2_FORMAT) + seq![empty_key.len() as u8] + empty_key + xor_at(
        body,
        empty_key,
        0,
    ) =~= le_bytes_u64(MEMPOOL_V2_FORMAT) + seq![0u8] + body);
}

} // verus!
