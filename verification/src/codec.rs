use vstd::prelude::*;

use crate::error::Error;

verus! {

use vstd::bytes::*;

/// Value-length field pattern that marks a record as a tombstone. It is
/// reserved: a legal value length is strictly smaller.
pub const TOMBSTONE: u32 = 0xFFFF_FFFF;

/// Combined width of the two fixed length fields of a record.
pub const ENTRY_STATIC_SIZE: usize = 8;

/// Relies on byteorder's `LittleEndian::read_u32`: decodes exactly the four
/// given bytes as one little-endian 32-bit integer.
#[verifier::external_body]
fn le32_decode(b0: u8, b1: u8, b2: u8, b3: u8) -> (n: u32)
    ensures
        n == spec_u32_from_le_bytes(seq![b0, b1, b2, b3]),
{
    <byteorder::LittleEndian as byteorder::ByteOrder>::read_u32(&[b0, b1, b2, b3])
}

/// Relies on byteorder's `LittleEndian::write_u32`: encodes the integer as
/// four little-endian bytes.
#[verifier::external_body]
fn le32_encode(n: u32) -> (b: Vec<u8>)
    ensures
        b@ == spec_u32_to_le_bytes(n),
{
    let mut buf = [0u8; 4];
    <byteorder::LittleEndian as byteorder::ByteOrder>::write_u32(&mut buf, n);
    buf.to_vec()
}

/// Length of the key of the record beginning at `p`, read from the first
/// length field.
pub open spec fn key_len_at(b: Seq<u8>, p: int) -> int {
    spec_u32_from_le_bytes(b.subrange(p, p + 4)) as int
}

/// Offset of the value-length field of the record beginning at `p`.
pub open spec fn value_field_at(b: Seq<u8>, p: int) -> int {
    p + 4 + key_len_at(b, p)
}

/// Raw content of the value-length field of the record beginning at `p`.
pub open spec fn value_len_at(b: Seq<u8>, p: int) -> int {
    spec_u32_from_le_bytes(b.subrange(value_field_at(b, p), value_field_at(b, p) + 4)) as int
}

/// Whether the record beginning at `p` is a tombstone.
pub open spec fn is_tombstone_at(b: Seq<u8>, p: int) -> bool {
    value_len_at(b, p) == TOMBSTONE
}

/// Key of the record beginning at `p`.
pub open spec fn key_at(b: Seq<u8>, p: int) -> Seq<u8> {
    b.subrange(p + 4, p + 4 + key_len_at(b, p))
}

/// Value of the (non-tombstone) record beginning at `p`.
pub open spec fn value_at(b: Seq<u8>, p: int) -> Seq<u8> {
    b.subrange(value_field_at(b, p) + 4, value_field_at(b, p) + 4 + value_len_at(b, p))
}

/// Offset one past the end of the record beginning at `p`.
pub open spec fn record_end(b: Seq<u8>, p: int) -> int {
    if is_tombstone_at(b, p) {
        value_field_at(b, p) + 4
    } else {
        value_field_at(b, p) + 4 + value_len_at(b, p)
    }
}

/// Whether one complete record begins at offset `p` of `b`: every field,
/// including the value when there is one, lies within the bytes.
pub open spec fn record_at(b: Seq<u8>, p: int) -> bool {
    &&& 0 <= p
    &&& p + 4 <= b.len()
    &&& value_field_at(b, p) + 4 <= b.len()
    &&& record_end(b, p) <= b.len()
}

/// Serialized form of an insert record: key length, key, value length,
/// value, lengths little-endian.
pub open spec fn encoded_insert(key: Seq<u8>, value: Seq<u8>) -> Seq<u8> {
    spec_u32_to_le_bytes(key.len() as u32) + key + spec_u32_to_le_bytes(value.len() as u32)
        + value
}

/// Serialized form of a tombstone record: key length, key, and the reserved
/// sentinel in place of a value length.
pub open spec fn encoded_tombstone(key: Seq<u8>) -> Seq<u8> {
    spec_u32_to_le_bytes(key.len() as u32) + key + spec_u32_to_le_bytes(TOMBSTONE)
}

/// One decoded log record: the key, the value (absent for a tombstone), and
/// the byte offset at which its serialized form begins.
#[derive(Debug)]
pub struct LogEntry {
    pub position: u64,
    pub key: Vec<u8>,
    pub value: Option<Vec<u8>>,
}

/// Appends the bytes of the slice `src` to `dst`.
fn append_slice(dst: &mut Vec<u8>, src: &[u8])
    requires
        old(dst)@.len() + src@.len() <= usize::MAX,
    ensures
        final(dst)@ == old(dst)@ + src@,
{
    let ghost dst0 = dst@;
    let mut i: usize = 0;
    while i < src.len()
        invariant
            i <= src@.len(),
            dst0.len() + src@.len() <= usize::MAX,
            dst@ == dst0 + src@.subrange(0, i as int),
        decreases src@.len() - i,
    {
        dst.push(src[i]);
        i = i + 1;
        proof {
            assert(dst@ =~= dst0 + src@.subrange(0, i as int));
        }
    }
    proof {
        assert(dst@ =~= dst0 + src@);
    }
}

/// Copies `log[start .. end]` into a fresh vector.
fn copy_range(log: &Vec<u8>, start: usize, end: usize) -> (out: Vec<u8>)
    requires
        start <= end <= log@.len(),
    ensures
        out@ == log@.subrange(start as int, end as int),
{
    let mut out: Vec<u8> = Vec::new();
    let mut i: usize = start;
    while i < end
        invariant
            start <= i <= end <= log@.len(),
            out@ == log@.subrange(start as int, i as int),
        decreases end - i,
    {
        out.push(log[i]);
        i = i + 1;
        proof {
            assert(out@ =~= log@.subrange(start as int, i as int));
        }
    }
    out
}

impl LogEntry {
    /// Total serialized size of a record holding `key` and `value`: the two
    /// length fields plus the raw bytes of each.
    pub fn len(key: &[u8], value: &[u8]) -> (n: usize)
        requires
            ENTRY_STATIC_SIZE + key@.len() + value@.len() <= usize::MAX,
        ensures
            n == ENTRY_STATIC_SIZE + key@.len() + value@.len(),
            n == encoded_insert(key@, value@).len(),
    {
        proof {
            lemma_auto_spec_u32_to_from_le_bytes();
        }
        ENTRY_STATIC_SIZE + key.len() + value.len()
    }

    /// Appends one insert record for `key` and `value`; returns the offset
    /// at which the record begins.
    pub fn write(log: &mut Vec<u8>, key: &[u8], value: &[u8]) -> (position: u64)
        requires
            key@.len() <= u32::MAX,
            value@.len() < TOMBSTONE,
            old(log)@.len() + ENTRY_STATIC_SIZE + key@.len() + value@.len() <= usize::MAX,
        ensures
            position == old(log)@.len(),
            final(log)@ == old(log)@ + encoded_insert(key@, value@),
    {
        proof {
            lemma_auto_spec_u32_to_from_le_bytes();
        }
        let ghost log0 = log@;
        let position: u64 = log.len() as u64;
        let klen = le32_encode(key.len() as u32);
        append_slice(log, klen.as_slice());
        append_slice(log, key);
        let vlen = le32_encode(value.len() as u32);
        append_slice(log, vlen.as_slice());
        append_slice(log, value);
        proof {
            assert(log@ =~= log0 + encoded_insert(key@, value@));
        }
        position
    }

    /// Appends one tombstone record for `key`; returns the offset at which
    /// the record begins.
    pub fn write_deleted(log: &mut Vec<u8>, key: &[u8]) -> (position: u64)
        requires
            key@.len() <= u32::MAX,
            old(log)@.len() + ENTRY_STATIC_SIZE + key@.len() <= usize::MAX,
        ensures
            position == old(log)@.len(),
            final(log)@ == old(log)@ + encoded_tombstone(key@),
    {
        proof {
            lemma_auto_spec_u32_to_from_le_bytes();
        }
        let ghost log0 = log@;
        let position: u64 = log.len() as u64;
        let klen = le32_encode(key.len() as u32);
        append_slice(log, klen.as_slice());
        append_slice(log, key);
        let sentinel = le32_encode(TOMBSTONE);
        append_slice(log, sentinel.as_slice());
        proof {
            assert(log@ =~= log0 + encoded_tombstone(key@));
        }
        position
    }

    /// Decodes the one record beginning at `position`, or reports that the
    /// bytes end before that record is complete.
    pub fn read(log: &Vec<u8>, position: u64) -> (r: Result<LogEntry, Error>)
        requires
            position <= log@.len(),
        ensures
            r is Ok <==> record_at(log@, position as int),
            r is Err ==> r == Err::<LogEntry, Error>(Error::UnexpectedEof),
            r matches Ok(e) ==> {
                &&& e.position == position
                &&& e.key@ == key_at(log@, position as int)
                &&& e.value is Some <==> !is_tombstone_at(log@, position as int)
                &&& e.value matches Some(v) ==> v@ == value_at(log@, position as int)
            },
    {
        let n: usize = log.len();
        let p: usize = position as usize;
        if n - p < 4 {
            return Err(Error::UnexpectedEof);
        }
        let klen32: u32 = le32_decode(log[p], log[p + 1], log[p + 2], log[p + 3]);
        proof {
            assert(seq![log@[p as int], log@[p as int + 1], log@[p as int + 2], log@[p as int + 3]]
                =~= log@.subrange(p as int, p as int + 4));
        }
        if n - (p + 4) < klen32 as usize {
            return Err(Error::UnexpectedEof);
        }
        let klen: usize = klen32 as usize;
        let vf: usize = p + 4 + klen;
        if n - vf < 4 {
            return Err(Error::UnexpectedEof);
        }
        let vlen32: u32 = le32_decode(log[vf], log[vf + 1], log[vf + 2], log[vf + 3]);
        proof {
            assert(seq![log@[vf as int], log@[vf as int + 1], log@[vf as int + 2], log@[vf as int + 3]]
                =~= log@.subrange(vf as int, vf as int + 4));
        }
        let key = copy_range(log, p + 4, vf);
        if vlen32 == TOMBSTONE {
            Ok(LogEntry { position, key, value: None })
        } else {
            if n - (vf + 4) < vlen32 as usize {
                return Err(Error::UnexpectedEof);
            }
            let vlen: usize = vlen32 as usize;
            let value = copy_range(log, vf + 4, vf + 4 + vlen);
            Ok(LogEntry { position, key, value: Some(value) })
        }
    }
}

} // verus!
