use vstd::prelude::*;

use crate::bytes::{
    append_bytes, copy_range, from_le, lemma_from_le_bound, lemma_le_round_trip,
    lemma_pow256_eight, lemma_to_le_len, push_le, read_le, to_le,
};
use crate::hash::{checksum, xxh32};

verus! {

/// The value-length field of a deletion record.
pub const TOMBSTONE: u32 = 0xffff_ffff;

/// Bytes before the key in an encoded entry: checksum, timestamp, key length, value length.
pub const ENTRY_HEADER_SIZE: u64 = 16;

/// Bytes before the key in an encoded hint: timestamp, key length, value length, entry offset.
pub const HINT_HEADER_SIZE: u64 = 20;

/// Why a record could not be decoded.
#[derive(Clone, Copy, Debug, PartialEq, Eq, Structural)]
pub enum CodecError {
    /// The bytes end before the record does.
    Truncated,
    /// The stored checksum does not match the record.
    Corrupt,
}

/// One logged write: a key with its value, or with no value for a deletion.
#[derive(Clone, Debug)]
pub struct Entry {
    pub timestamp: u32,
    pub key: Vec<u8>,
    pub value: Option<Vec<u8>>,
}

pub struct EntryView {
    pub timestamp: u32,
    pub key: Seq<u8>,
    pub value: Option<Seq<u8>>,
}

impl View for Entry {
    type V = EntryView;

    open spec fn view(&self) -> EntryView {
        EntryView {
            timestamp: self.timestamp,
            key: self.key@,
            value: match self.value {
                Some(v) => Some(v@),
                None => None,
            },
        }
    }
}

/// An entry whose lengths fit their fields; a value never has the deletion marker's length.
pub open spec fn entry_wf(e: EntryView) -> bool {
    &&& e.key.len() <= u32::MAX
    &&& match e.value {
        Some(v) => v.len() < TOMBSTONE,
        None => true,
    }
}

pub open spec fn value_field(e: EntryView) -> nat {
    match e.value {
        Some(v) => v.len(),
        None => TOMBSTONE as nat,
    }
}

pub open spec fn value_bytes(e: EntryView) -> Seq<u8> {
    match e.value {
        Some(v) => v,
        None => Seq::empty(),
    }
}

/// The part of an encoded entry that its checksum covers.
pub open spec fn entry_body(e: EntryView) -> Seq<u8> {
    to_le(e.timestamp as nat, 4) + to_le(e.key.len(), 4) + to_le(value_field(e), 4) + e.key
        + value_bytes(e)
}

/// An entry on disk: checksum of the body, then the body.
pub open spec fn encode_entry(e: EntryView) -> Seq<u8> {
    to_le(xxh32(entry_body(e)) as nat, 4) + entry_body(e)
}

pub open spec fn entry_size(e: EntryView) -> nat {
    16 + e.key.len() + value_bytes(e).len()
}

/// The four-byte field at `i`.
pub open spec fn field32(b: Seq<u8>, i: int) -> nat {
    from_le(b.subrange(i, i + 4))
}

/// Length of the payload that a value-length field announces.
pub open spec fn payload_len(f: nat) -> nat {
    if f == TOMBSTONE as nat {
        0
    } else {
        f
    }
}

/// Length of the entry whose header starts `b`.
pub open spec fn record_len(b: Seq<u8>) -> nat {
    16 + field32(b, 8) + payload_len(field32(b, 12))
}

/// The entry at the start of `b`, with its encoded length.
pub open spec fn parse_entry(b: Seq<u8>) -> Result<(EntryView, nat), CodecError> {
    if b.len() < 16 || b.len() < record_len(b) {
        Err(CodecError::Truncated)
    } else if field32(b, 0) != xxh32(b.subrange(4, record_len(b) as int)) as nat {
        Err(CodecError::Corrupt)
    } else {
        let k = field32(b, 8) as int;
        let f = field32(b, 12) as int;
        Ok(
            (
                EntryView {
                    timestamp: field32(b, 4) as u32,
                    key: b.subrange(16, 16 + k),
                    value: if f == TOMBSTONE as int {
                        None
                    } else {
                        Some(b.subrange(16 + k, 16 + k + f))
                    },
                },
                record_len(b),
            ),
        )
    }
}

/// Decoding the encoding of a well-formed entry, whatever bytes follow it,
/// gives back its key, value or deletion mark, and timestamp, and consumes
/// exactly its size.
pub proof fn lemma_entry_round_trip(e: EntryView, rest: Seq<u8>)
    requires
        entry_wf(e),
    ensures
        parse_entry(encode_entry(e) + rest) == Ok::<(EntryView, nat), CodecError>((e, entry_size(e))),
{
    let body = entry_body(e);
    let b = encode_entry(e) + rest;
    let k = e.key.len();
    let v = value_bytes(e);
    lemma_pow256_eight();
    lemma_to_le_len(xxh32(body) as nat, 4);
    lemma_to_le_len(e.timestamp as nat, 4);
    lemma_to_le_len(k, 4);
    lemma_to_le_len(value_field(e), 4);
    lemma_le_round_trip(xxh32(body) as nat, 4);
    lemma_le_round_trip(e.timestamp as nat, 4);
    lemma_le_round_trip(k, 4);
    lemma_le_round_trip(value_field(e), 4);
    assert(b.subrange(0, 4) =~= to_le(xxh32(body) as nat, 4));
    assert(b.subrange(4, 8) =~= to_le(e.timestamp as nat, 4));
    assert(b.subrange(8, 12) =~= to_le(k, 4));
    assert(b.subrange(12, 16) =~= to_le(value_field(e), 4));
    assert(payload_len(value_field(e)) == v.len());
    assert(record_len(b) == entry_size(e));
    assert(b.subrange(4, record_len(b) as int) =~= body);
    assert(b.subrange(16, 16 + k as int) =~= e.key);
    match e.value {
        Some(val) => {
            assert(b.subrange(16 + k as int, 16 + k + val.len() as int) =~= val);
        },
        None => {},
    }
}

pub proof fn lemma_encode_entry_len(e: EntryView)
    ensures
        encode_entry(e).len() == entry_size(e),
{
    lemma_to_le_len(xxh32(entry_body(e)) as nat, 4);
    lemma_to_le_len(e.timestamp as nat, 4);
    lemma_to_le_len(e.key.len(), 4);
    lemma_to_le_len(value_field(e), 4);
}

/// A decoded entry is well formed, and its length lies within the bytes.
pub proof fn lemma_parse_entry_wf(b: Seq<u8>)
    requires
        parse_entry(b) is Ok,
    ensures
        entry_wf(parse_entry(b)->Ok_0.0),
        parse_entry(b)->Ok_0.1 == entry_size(parse_entry(b)->Ok_0.0),
        16 <= parse_entry(b)->Ok_0.1 <= b.len(),
{
    lemma_pow256_eight();
    lemma_from_le_bound(b.subrange(4, 8));
    lemma_from_le_bound(b.subrange(8, 12));
    lemma_from_le_bound(b.subrange(12, 16));
}

impl Entry {
    /// A write of `value` under `key`.
    pub fn new(key: Vec<u8>, value: Vec<u8>, timestamp: u32) -> (r: Entry)
        ensures
            r@ == (EntryView { timestamp, key: key@, value: Some(value@) }),
    {
        Entry { timestamp, key, value: Some(value) }
    }

    /// A deletion of `key`.
    pub fn deleted(key: Vec<u8>, timestamp: u32) -> (r: Entry)
        ensures
            r@ == (EntryView { timestamp, key: key@, value: None }),
    {
        Entry { timestamp, key, value: None }
    }

    pub fn is_deleted(&self) -> (r: bool)
        ensures
            r == self.value.is_none(),
    {
        self.value.is_none()
    }

    /// The exact number of bytes of the encoded entry.
    pub fn size(&self) -> (r: u64)
        requires
            entry_wf(self@),
        ensures
            r == entry_size(self@),
    {
        match &self.value {
            Some(v) => ENTRY_HEADER_SIZE + self.key.len() as u64 + v.len() as u64,
            None => ENTRY_HEADER_SIZE + self.key.len() as u64,
        }
    }

    fn body_bytes(&self) -> (r: Vec<u8>)
        requires
            entry_wf(self@),
        ensures
            r@ == entry_body(self@),
    {
        let mut b: Vec<u8> = Vec::new();
        proof {
            lemma_pow256_eight();
        }
        push_le(&mut b, self.timestamp as u64, 4);
        push_le(&mut b, self.key.len() as u64, 4);
        match &self.value {
            Some(v) => push_le(&mut b, v.len() as u64, 4),
            None => push_le(&mut b, TOMBSTONE as u64, 4),
        }
        append_bytes(&mut b, self.key.as_slice());
        match &self.value {
            Some(v) => append_bytes(&mut b, v.as_slice()),
            None => {},
        }
        assert(b@ =~= entry_body(self@));
        b
    }

    /// The entry as it is written to a data file.
    pub fn to_bytes(&self) -> (r: Vec<u8>)
        requires
            entry_wf(self@),
        ensures
            r@ == encode_entry(self@),
    {
        let body = self.body_bytes();
        let sum = checksum(body.as_slice());
        let mut r: Vec<u8> = Vec::new();
        proof {
            lemma_pow256_eight();
        }
        push_le(&mut r, sum as u64, 4);
        append_bytes(&mut r, body.as_slice());
        r
    }

    /// Decodes the entry that starts at `pos` in `b`, with its encoded length.
    pub fn from_bytes(b: &[u8], pos: usize) -> (r: Result<(Entry, u64), CodecError>)
        requires
            pos <= b@.len(),
        ensures
            match r {
                Ok((e, n)) => {
                    &&& parse_entry(b@.skip(pos as int)) == Ok::<(EntryView, nat), CodecError>((e@, n as nat))
                    &&& entry_wf(e@)
                    &&& 16 <= n <= b@.len() - pos
                },
                Err(err) => parse_entry(b@.skip(pos as int)) == Err::<(EntryView, nat), CodecError>(err),
            },
    {
        let ghost s = b@.skip(pos as int);
        let len = b.len();
        let avail: usize = len - pos;
        if avail < 16 {
            return Err(CodecError::Truncated);
        }
        assert(s.subrange(0, 4) =~= b@.subrange(pos as int, pos + 4));
        assert(s.subrange(4, 8) =~= b@.subrange(pos + 4, pos + 8));
        assert(s.subrange(8, 12) =~= b@.subrange(pos + 8, pos + 12));
        assert(s.subrange(12, 16) =~= b@.subrange(pos + 12, pos + 16));
        let stored = read_le(b, pos, 4);
        let timestamp = read_le(b, pos + 4, 4);
        let klen = read_le(b, pos + 8, 4);
        let vfield = read_le(b, pos + 12, 4);
        proof {
            lemma_pow256_eight();
            lemma_from_le_bound(b@.subrange(pos + 4, pos + 8));
            lemma_from_le_bound(b@.subrange(pos + 8, pos + 12));
            lemma_from_le_bound(b@.subrange(pos + 12, pos + 16));
        }
        let vlen: u64 = if vfield == TOMBSTONE as u64 {
            0
        } else {
            vfield
        };
        let total: u64 = ENTRY_HEADER_SIZE + klen + vlen;
        if (avail as u64) < total {
            return Err(CodecError::Truncated);
        }
        let end: usize = pos + total as usize;
        let sum = checksum(vstd::slice::slice_subrange(b, pos + 4, end));
        assert(s.subrange(4, total as int) =~= b@.subrange(pos + 4, end as int));
        if stored != sum as u64 {
            return Err(CodecError::Corrupt);
        }
        let kend: usize = pos + 16 + klen as usize;
        let key = copy_range(b, pos + 16, kend);
        assert(key@ =~= s.subrange(16, 16 + klen));
        let value = if vfield == TOMBSTONE as u64 {
            None
        } else {
            let v = copy_range(b, kend, end);
            assert(v@ =~= s.subrange(16 + klen, 16 + klen + vfield));
            Some(v)
        };
        let e = Entry { timestamp: timestamp as u32, key, value };
        proof {
            lemma_parse_entry_wf(s);
        }
        Ok((e, total))
    }
}

} // verus!
