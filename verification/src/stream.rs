//! The positional XOR cipher and the reader that applies it to a byte source.

use vstd::prelude::*;

use crate::mempool::MempoolError;
use vstd::arithmetic::div_mod::{
    lemma_fundamental_div_mod, lemma_fundamental_div_mod_converse_mod, lemma_mod_multiples_vanish,
};
use vstd::pervasive::VecAdditionalExecFns;

verus! {

/// What a byte sequence becomes under the positional XOR cipher: byte `i` of
/// the result is `data[i]` XORed with the key byte at absolute offset
/// `off + i`, taken modulo the key length. An empty key changes nothing.
pub open spec fn xor_at(data: Seq<u8>, key: Seq<u8>, off: nat) -> Seq<u8> {
    if key.len() == 0 {
        data
    } else {
        Seq::new(data.len(), |i: int| data[i] ^ key[(off + i) % (key.len() as int)])
    }
}

/// LAW: the cipher is self-inverse. XORing a buffer with key `key` at offset
/// `off`, then XORing the result again with the same key at the same offset,
/// reproduces the original buffer.
pub proof fn lemma_xor_round_trip(data: Seq<u8>, key: Seq<u8>, off: nat)
    ensures
        xor_at(xor_at(data, key, off), key, off) == data,
{
    if key.len() > 0 {
        let twice = xor_at(xor_at(data, key, off), key, off);
        assert forall|i: int| 0 <= i < data.len() implies twice[i] == data[i] by {
            let b = data[i];
            let k = key[(off + i) % (key.len() as int)];
            assert((b ^ k) ^ k == b) by (bit_vector);
        }
        assert(twice =~= data);
    }
}

/// The cipher only reads the key offset modulo the key length, so the offset
/// may be reduced before the XOR is applied.
pub proof fn lemma_xor_at_mod(data: Seq<u8>, key: Seq<u8>, off: nat)
    requires
        key.len() > 0,
    ensures
        xor_at(data, key, off) == xor_at(data, key, (off % key.len()) as nat),
{
    let m = key.len() as int;
    let q = (off as int) / m;
    let r = (off as int) % m;
    lemma_fundamental_div_mod(off as int, m);
    assert forall|i: int| 0 <= i < data.len() implies xor_at(data, key, off)[i] == xor_at(
        data,
        key,
        (off % key.len()) as nat,
    )[i] by {
        lemma_mod_multiples_vanish(q, r + i, m);
        assert((off + i) % m == (r + i) % m);
    }
    assert(xor_at(data, key, off) =~= xor_at(data, key, (off % key.len()) as nat));
}

/// A window cut out of a ciphered sequence is itself the cipher of the same
/// window of the source, applied at the window's own starting offset.
pub proof fn lemma_xor_at_subrange(data: Seq<u8>, key: Seq<u8>, off: nat, a: int, b: int)
    requires
        0 <= a <= b <= data.len(),
    ensures
        xor_at(data, key, off).subrange(a, b) == xor_at(data.subrange(a, b), key, (off + a) as nat),
{
    if key.len() == 0 {
        assert(xor_at(data, key, off).subrange(a, b) =~= xor_at(
            data.subrange(a, b),
            key,
            (off + a) as nat,
        ));
    } else {
        let m = key.len() as int;
        assert forall|j: int| 0 <= j < b - a implies xor_at(data, key, off).subrange(a, b)[j]
            == xor_at(data.subrange(a, b), key, (off + a) as nat)[j] by {
            assert((off + (a + j)) % m == ((off + a) + j) % m);
        }
        assert(xor_at(data, key, off).subrange(a, b) =~= xor_at(
            data.subrange(a, b),
            key,
            (off + a) as nat,
        ));
    }
}

/// XOR a buffer in place with a key, starting at a given key offset.
pub fn xor_buffer(data: &mut Vec<u8>, key: &Vec<u8>, key_offset: usize)
    ensures
        final(data)@ == xor_at(old(data)@, key@, key_offset as nat),
{
    if key.len() == 0 {
        return ;
    }
    let klen = key.len();
    let ghost m = klen as int;
    let mut j: usize = key_offset % klen;
    let mut i: usize = 0;
    let n = data.len();
    while i < n
        invariant
            0 < klen == key@.len() <= usize::MAX,
            n == data@.len(),
            data@.len() == old(data)@.len(),
            m == klen as int,
            0 <= i <= n,
            j == (key_offset + i) % m,
            forall|t: int|
                0 <= t < i ==> data@[t] == (old(data)@[t] ^ key@[(key_offset + t) % m]),
            forall|t: int| i <= t < n ==> data@[t] == old(data)@[t],
        decreases n - i,
    {
        let b = data[i];
        data.set(i, b ^ key[j]);
        proof {
            let x = (key_offset + i) as int;
            let q = x / m;
            lemma_fundamental_div_mod(x, m);
            if j + 1 == klen {
                assert(m * (q + 1) == m * q + m) by (nonlinear_arith);
                lemma_fundamental_div_mod_converse_mod(x + 1, m, q + 1, 0);
            } else {
                lemma_fundamental_div_mod_converse_mod(x + 1, m, q, j + 1);
            }
        }
        i = i + 1;
        j = j + 1;
        if j == klen {
            j = 0;
        }
    }
    proof {
        assert(data@ =~= xor_at(old(data)@, key@, key_offset as nat));
    }
}

/// What a `XorReader` abstracts to: the bytes of the wrapped source, the key,
/// the index of the next byte to read, and the tracked absolute cipher offset
/// (`None` when the source could not report its position at construction).
#[verifier::ext_equal]
pub struct XorReaderModel {
    pub data: Seq<u8>,
    pub key: Seq<u8>,
    pub cursor: u64,
    pub position: Option<u64>,
}

/// The tracked position, with `None` read as offset zero. Only meaningful in
/// contexts where a `None` position has already been ruled out or the key is
/// empty (an empty key ignores the offset entirely).
pub open spec fn pos_or_zero(position: Option<u64>) -> nat {
    match position {
        Some(p) => p as nat,
        None => 0,
    }
}

/// The tracked position after `n` more bytes were read.
pub open spec fn advanced(position: Option<u64>, n: nat) -> Option<u64>
    recommends
        pos_or_zero(position) + n <= u64::MAX,
{
    match position {
        Some(p) => Some((p + n) as u64),
        None => None,
    }
}

/// The deciphered bytes still ahead of the reader: everything from the cursor
/// to the end of the source, put through the cipher at the tracked position.
pub open spec fn plain_rest(m: XorReaderModel) -> Seq<u8>
    recommends
        m.cursor <= m.data.len(),
{
    xor_at(m.data.subrange(m.cursor as int, m.data.len() as int), m.key, pos_or_zero(m.position))
}

/// Wraps an in-memory byte source and XORs every read against the key, using
/// the byte's absolute stream offset modulo the key length. An empty key reads
/// the source unchanged. The position is tracked across reads and seeks; when
/// it is unknown and a key is set, reads fail rather than misapply the cipher.
pub struct XorReader {
    data: Vec<u8>,
    xor_key: Vec<u8>,
    cursor: u64,
    position: Option<u64>,
}

impl View for XorReader {
    type V = XorReaderModel;

    closed spec fn view(&self) -> XorReaderModel {
        XorReaderModel {
            data: self.data@,
            key: self.xor_key@,
            cursor: self.cursor,
            position: self.position,
        }
    }
}

impl XorReader {
    /// The cursor never runs past the end of the source.
    pub open spec fn wf(&self) -> bool {
        self@.cursor <= self@.data.len()
    }

    /// Wrap `data` with the given key. `position` is the absolute stream
    /// offset that the source reported at construction, or `None` when it
    /// could not report one.
    pub fn new(data: Vec<u8>, xor_key: Vec<u8>, position: Option<u64>) -> (r: Self)
        ensures
            r@ == (XorReaderModel { data: data@, key: xor_key@, cursor: 0, position }),
            r.wf(),
    {
        Self { data, xor_key, cursor: 0, position }
    }

    /// Read exactly `n` bytes, deciphered; fail without consuming anything if
    /// fewer are available, or if a key is set but the position is unknown.
    pub fn read_exact(&mut self, n: usize) -> (r: Result<Vec<u8>, MempoolError>)
        requires
            old(self).wf(),
            old(self)@.position matches Some(p) ==> p + n <= u64::MAX,
        ensures
            final(self).wf(),
            final(self)@.data == old(self)@.data,
            final(self)@.key == old(self)@.key,
            match r {
                Ok(buf) => {
                    &&& old(self)@.cursor + n <= old(self)@.data.len()
                    &&& old(self)@.key.len() == 0 || old(self)@.position is Some
                    &&& buf@ == xor_at(
                        old(self)@.data.subrange(
                            old(self)@.cursor as int,
                            old(self)@.cursor + n,
                        ),
                        old(self)@.key,
                        pos_or_zero(old(self)@.position),
                    )
                    &&& final(self)@.cursor == old(self)@.cursor + n
                    &&& final(self)@.position == advanced(old(self)@.position, n as nat)
                },
                Err(e) => {
                    &&& final(self)@ == old(self)@
                    &&& if old(self)@.cursor + n > old(self)@.data.len() {
                        e == MempoolError::UnexpectedEof
                    } else {
                        &&& e == MempoolError::PositionUnknown
                        &&& old(self)@.key.len() > 0
                        &&& old(self)@.position is None
                    }
                },
            },
    {
        let len = self.data.len();
        if n as u64 > len as u64 - self.cursor {
            return Err(MempoolError::UnexpectedEof);
        }
        if self.xor_key.len() > 0 && self.position.is_none() {
            return Err(MempoolError::PositionUnknown);
        }
        let start = self.cursor as usize;
        let mut buf: Vec<u8> = Vec::new();
        let mut i: usize = 0;
        while i < n
            invariant
                start + n <= self.data@.len() <= usize::MAX,
                0 <= i <= n,
                buf@ =~= self.data@.subrange(start as int, start + i),
            decreases n - i,
        {
            buf.push(self.data[start + i]);
            proof {
                assert(buf@ =~= self.data@.subrange(start as int, start + i + 1));
            }
            i = i + 1;
        }
        if self.xor_key.len() > 0 {
            let p = match self.position {
                Some(p) => p,
                None => 0,  // ruled out above
            };
            let off = (p % self.xor_key.len() as u64) as usize;
            xor_buffer(&mut buf, &self.xor_key, off);
            proof {
                let slice = self.data@.subrange(start as int, start + n);
                lemma_fundamental_div_mod(p as int, self.xor_key@.len() as int);
                assert(off as nat == (p as nat) % self.xor_key@.len());
                lemma_xor_at_mod(slice, self.xor_key@, p as nat);
            }
        }
        self.cursor = self.cursor + n as u64;
        if let Some(p) = self.position {
            self.position = Some(p + n as u64);
        }
        Ok(buf)
    }

    /// Read up to `n` bytes, deciphered: a short read returns however many
    /// bytes were available. Reading nothing succeeds even without a position.
    pub fn read(&mut self, n: usize) -> (r: Result<Vec<u8>, MempoolError>)
        requires
            old(self).wf(),
            old(self)@.position matches Some(p) ==> p + n <= u64::MAX,
        ensures
            final(self).wf(),
            final(self)@.data == old(self)@.data,
            final(self)@.key == old(self)@.key,
            match r {
                Ok(buf) => {
                    let m = vstd::math::min(n as int, old(self)@.data.len() - old(self)@.cursor);
                    &&& buf@.len() == m
                    &&& m == 0 || old(self)@.key.len() == 0 || old(self)@.position is Some
                    &&& buf@ == xor_at(
                        old(self)@.data.subrange(old(self)@.cursor as int, old(self)@.cursor + m),
                        old(self)@.key,
                        pos_or_zero(old(self)@.position),
                    )
                    &&& final(self)@.cursor == old(self)@.cursor + m
                    &&& final(self)@.position == advanced(old(self)@.position, m as nat)
                },
                Err(e) => {
                    &&& final(self)@ == old(self)@
                    &&& e == MempoolError::PositionUnknown
                    &&& old(self)@.key.len() > 0
                    &&& old(self)@.position is None
                    &&& old(self)@.cursor < old(self)@.data.len()
                    &&& n > 0
                },
            },
    {
        let len = self.data.len();
        let avail = len as u64 - self.cursor;
        let m = if n as u64 > avail {
            avail as usize
        } else {
            n
        };
        if m == 0 {
            proof {
                assert(xor_at(
                    self@.data.subrange(self@.cursor as int, self@.cursor as int),
                    self@.key,
                    pos_or_zero(self@.position),
                ) =~= Seq::<u8>::empty());
            }
            return Ok(Vec::new());
        }
        if self.xor_key.len() > 0 && self.position.is_none() {
            return Err(MempoolError::PositionUnknown);
        }
        self.read_exact(m)
    }

    /// Read 8 bytes as an unsigned little-endian integer.
    pub fn read_u64_le(&mut self) -> (r: Result<u64, MempoolError>)
        requires
            old(self).wf(),
            old(self)@.position matches Some(p) ==> p + 8 <= u64::MAX,
        ensures
            final(self).wf(),
            final(self)@.data == old(self)@.data,
            final(self)@.key == old(self)@.key,
            match r {
                Ok(v) => {
                    &&& old(self)@.cursor + 8 <= old(self)@.data.len()
                    &&& old(self)@.key.len() == 0 || old(self)@.position is Some
                    &&& v == le_u64(
                        xor_at(
                            old(self)@.data.subrange(
                                old(self)@.cursor as int,
                                old(self)@.cursor + 8,
                            ),
                            old(self)@.key,
                            pos_or_zero(old(self)@.position),
                        ),
                    )
                    &&& final(self)@.cursor == old(self)@.cursor + 8
                    &&& final(self)@.position == advanced(old(self)@.position, 8)
                },
                Err(e) => {
                    &&& final(self)@ == old(self)@
                    &&& if old(self)@.cursor + 8 > old(self)@.data.len() {
                        e == MempoolError::UnexpectedEof
                    } else {
                        &&& e == MempoolError::PositionUnknown
                        &&& old(self)@.key.len() > 0
                        &&& old(self)@.position is None
                    }
                },
            },
    {
        let buf = match self.read_exact(8) {
            Ok(b) => b,
            Err(e) => {
                return Err(e);
            },
        };
        Ok(u64_from_le_bytes(&buf))
    }

    /// Read 8 bytes as a signed little-endian integer.
    pub fn read_i64_le(&mut self) -> (r: Result<i64, MempoolError>)
        requires
            old(self).wf(),
            old(self)@.position matches Some(p) ==> p + 8 <= u64::MAX,
        ensures
            final(self).wf(),
            final(self)@.data == old(self)@.data,
            final(self)@.key == old(self)@.key,
            match r {
                Ok(v) => {
                    &&& old(self)@.cursor + 8 <= old(self)@.data.len()
                    &&& old(self)@.key.len() == 0 || old(self)@.position is Some
                    &&& v == le_i64(
                        xor_at(
                            old(self)@.data.subrange(
                                old(self)@.cursor as int,
                                old(self)@.cursor + 8,
                            ),
                            old(self)@.key,
                            pos_or_zero(old(self)@.position),
                        ),
                    )
                    &&& final(self)@.cursor == old(self)@.cursor + 8
                    &&& final(self)@.position == advanced(old(self)@.position, 8)
                },
                Err(e) => {
                    &&& final(self)@ == old(self)@
                    &&& if old(self)@.cursor + 8 > old(self)@.data.len() {
                        e == MempoolError::UnexpectedEof
                    } else {
                        &&& e == MempoolError::PositionUnknown
                        &&& old(self)@.key.len() > 0
                        &&& old(self)@.position is None
                    }
                },
            },
    {
        let buf = match self.read_exact(8) {
            Ok(b) => b,
            Err(e) => {
                return Err(e);
            },
        };
        Ok(i64_from_le_bytes(&buf))
    }

    /// Decipher everything still ahead of the reader without consuming it, so
    /// that a whole record can be handed to an external codec as one slice.
    pub fn peek_remaining(&self) -> (r: Result<Vec<u8>, MempoolError>)
        requires
            self.wf(),
        ensures
            match r {
                Ok(buf) => {
                    &&& self@.key.len() == 0 || self@.position is Some
                    &&& buf@ == plain_rest(self@)
                },
                Err(e) => {
                    &&& e == MempoolError::PositionUnknown
                    &&& self@.key.len() > 0
                    &&& self@.position is None
                },
            },
    {
        if self.xor_key.len() > 0 && self.position.is_none() {
            return Err(MempoolError::PositionUnknown);
        }
        let len = self.data.len();
        let start = self.cursor as usize;
        let mut buf: Vec<u8> = Vec::new();
        let mut i: usize = start;
        while i < len
            invariant
                start <= i <= len,
                len == self.data@.len(),
                buf@ =~= self.data@.subrange(start as int, i as int),
            decreases len - i,
        {
            buf.push(self.data[i]);
            proof {
                assert(buf@ =~= self.data@.subrange(start as int, i + 1));
            }
            i = i + 1;
        }
        if self.xor_key.len() > 0 {
            let p = match self.position {
                Some(p) => p,
                None => 0,  // ruled out above
            };
            let off = (p % self.xor_key.len() as u64) as usize;
            xor_buffer(&mut buf, &self.xor_key, off);
            proof {
                let slice = self.data@.subrange(start as int, len as int);
                lemma_fundamental_div_mod(p as int, self.xor_key@.len() as int);
                assert(off as nat == (p as nat) % self.xor_key@.len());
                lemma_xor_at_mod(slice, self.xor_key@, p as nat);
            }
        }
        Ok(buf)
    }

    /// Move the cursor to `target` and resynchronize the tracked position to
    /// it, which keeps the cipher offset aligned after an out-of-band seek.
    pub fn seek(&mut self, target: u64)
        ensures
            final(self).wf(),
            final(self)@.data == old(self)@.data,
            final(self)@.key == old(self)@.key,
            final(self)@.position == Some(target),
            final(self)@.cursor == vstd::math::min(target as int, old(self)@.data.len() as int),
    {
        let len = self.data.len();
        self.cursor = if target > len as u64 {
            len as u64
        } else {
            target
        };
        self.position = Some(target);
    }
}

/// The unsigned value of 8 bytes read little-endian.
pub open spec fn le_u64(s: Seq<u8>) -> u64
    recommends
        s.len() == 8,
{
    (s[0] as int + s[1] as int * 0x100 + s[2] as int * 0x1_0000 + s[3] as int * 0x100_0000
        + s[4] as int * 0x1_0000_0000 + s[5] as int * 0x100_0000_0000 + s[6] as int
        * 0x1_0000_0000_0000 + s[7] as int * 0x100_0000_0000_0000) as u64
}

/// The signed (two's complement) value of 8 bytes read little-endian.
pub open spec fn le_i64(s: Seq<u8>) -> i64
    recommends
        s.len() == 8,
{
    if le_u64(s) < 0x8000_0000_0000_0000 {
        le_u64(s) as i64
    } else {
        (le_u64(s) - 0x1_0000_0000_0000_0000) as i64
    }
}

/// Assemble the unsigned little-endian value of an 8-byte buffer.
pub fn u64_from_le_bytes(bytes: &Vec<u8>) -> (r: u64)
    requires
        bytes@.len() == 8,
    ensures
        r == le_u64(bytes@),
{
    bytes[0] as u64 + bytes[1] as u64 * 0x100 + bytes[2] as u64 * 0x1_0000 + bytes[3] as u64
        * 0x100_0000 + bytes[4] as u64 * 0x1_0000_0000 + bytes[5] as u64 * 0x100_0000_0000
        + bytes[6] as u64 * 0x1_0000_0000_0000 + bytes[7] as u64 * 0x100_0000_0000_0000
}

/// Assemble the signed little-endian value of an 8-byte buffer.
pub fn i64_from_le_bytes(bytes: &Vec<u8>) -> (r: i64)
    requires
        bytes@.len() == 8,
    ensures
        r == le_i64(bytes@),
{
    let u = u64_from_le_bytes(bytes);
    if u < 0x8000_0000_0000_0000 {
        u as i64
    } else {
        -((u64::MAX - u) as i64) - 1
    }
}

} // verus!
