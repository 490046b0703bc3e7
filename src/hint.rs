use vstd::prelude::*;

use crate::bytes::{
    append_bytes, copy_range, from_le, lemma_from_le_bound, lemma_le_round_trip,
    lemma_pow256_eight, lemma_to_le_len, push_le, read_le, to_le,
};
use crate::data::{field32, value_field, Entry, EntryView, HINT_HEADER_SIZE};
use crate::hash::{checksum, xxh32};

verus! {

/// The compact index record of one entry: where it lies, without its value.
#[derive(Clone, Debug)]
pub struct Hint {
    pub timestamp: u32,
    pub key: Vec<u8>,
    /// The entry's value-length field (the deletion marker for a deletion).
    pub value_size: u32,
    /// Offset of the entry in its data file.
    pub entry_pos: u64,
}

pub struct HintView {
    pub timestamp: u32,
    pub key: Seq<u8>,
    pub value_size: u32,
    pub entry_pos: u64,
}

impl View for Hint {
    type V = HintView;

    open spec fn view(&self) -> HintView {
        HintView {
            timestamp: self.timestamp,
            key: self.key@,
            value_size: self.value_size,
            entry_pos: self.entry_pos,
        }
    }
}

/// The hint of entry `e` stored at offset `pos`.
pub open spec fn hint_of(e: EntryView, pos: u64) -> HintView {
    HintView { timestamp: e.timestamp, key: e.key, value_size: value_field(e) as u32, entry_pos: pos }
}

pub open spec fn hint_wf(h: HintView) -> bool {
    h.key.len() <= u32::MAX
}

/// A hint on disk: timestamp, key length, value length, entry offset (eight bytes), key.
pub open spec fn encode_hint(h: HintView) -> Seq<u8> {
    to_le(h.timestamp as nat, 4) + to_le(h.key.len(), 4) + to_le(h.value_size as nat, 4) + to_le(
        h.entry_pos as nat,
        8,
    ) + h.key
}

/// The hint at the start of `b`, with its encoded length.
pub open spec fn parse_hint(b: Seq<u8>) -> Option<(HintView, nat)> {
    if b.len() < 20 || b.len() < 20 + field32(b, 4) {
        None
    } else {
        let k = field32(b, 4) as int;
        Some(
            (
                HintView {
                    timestamp: field32(b, 0) as u32,
                    key: b.subrange(20, 20 + k),
                    value_size: field32(b, 8) as u32,
                    entry_pos: from_le(b.subrange(12, 20)) as u64,
                },
                (20 + k) as nat,
            ),
        )
    }
}

/// The hints that `p` holds back to back; none unless `p` is wholly made of them.
pub open spec fn parse_hints(p: Seq<u8>) -> Option<Seq<HintView>>
    decreases p.len(),
{
    if p.len() == 0 {
        Some(Seq::empty())
    } else {
        match parse_hint(p) {
            None => None,
            Some((h, n)) => if n >= 20 {
                match parse_hints(p.skip(n as int)) {
                    None => None,
                    Some(rest) => Some(seq![h] + rest),
                }
            } else {
                None
            },
        }
    }
}

/// The concatenated encodings of `hs`.
pub open spec fn encode_hints(hs: Seq<HintView>) -> Seq<u8>
    decreases hs.len(),
{
    if hs.len() == 0 {
        Seq::empty()
    } else {
        encode_hint(hs[0]) + encode_hints(hs.drop_first())
    }
}

/// A hint file: the hint payload followed by its checksum.
pub open spec fn hint_file(payload: Seq<u8>) -> Seq<u8> {
    payload + to_le(xxh32(payload) as nat, 4)
}

/// What a hint file holds: present only when it has a trailing checksum that
/// matches the bytes before it, and those bytes are whole hints.
pub open spec fn read_hint_file(f: Seq<u8>) -> Option<Seq<HintView>> {
    if f.len() < 4 {
        None
    } else if field32(f, f.len() - 4) != xxh32(f.subrange(0, f.len() - 4)) as nat {
        None
    } else {
        parse_hints(f.subrange(0, f.len() - 4))
    }
}

pub proof fn lemma_hint_round_trip(h: HintView, rest: Seq<u8>)
    requires
        hint_wf(h),
    ensures
        parse_hint(encode_hint(h) + rest) == Some((h, 20 + h.key.len())),
{
    let b = encode_hint(h) + rest;
    let k = h.key.len();
    lemma_pow256_eight();
    lemma_to_le_len(h.timestamp as nat, 4);
    lemma_to_le_len(k, 4);
    lemma_to_le_len(h.value_size as nat, 4);
    lemma_to_le_len(h.entry_pos as nat, 8);
    lemma_le_round_trip(h.timestamp as nat, 4);
    lemma_le_round_trip(k, 4);
    lemma_le_round_trip(h.value_size as nat, 4);
    lemma_le_round_trip(h.entry_pos as nat, 8);
    assert(b.subrange(0, 4) =~= to_le(h.timestamp as nat, 4));
    assert(b.subrange(4, 8) =~= to_le(k, 4));
    assert(b.subrange(8, 12) =~= to_le(h.value_size as nat, 4));
    assert(b.subrange(12, 20) =~= to_le(h.entry_pos as nat, 8));
    assert(b.subrange(20, 20 + k as int) =~= h.key);
}

pub open spec fn all_hints_wf(hs: Seq<HintView>) -> bool {
    forall|i: int| 0 <= i < hs.len() ==> hint_wf(#[trigger] hs[i])
}

/// A payload of whole hints reads back as those hints.
pub proof fn lemma_hints_round_trip(hs: Seq<HintView>)
    requires
        all_hints_wf(hs),
    ensures
        parse_hints(encode_hints(hs)) == Some(hs),
    decreases hs.len(),
{
    if hs.len() > 0 {
        let h = hs[0];
        let rest = encode_hints(hs.drop_first());
        assert(all_hints_wf(hs.drop_first())) by {
            assert forall|i: int| 0 <= i < hs.drop_first().len() implies hint_wf(
                #[trigger] hs.drop_first()[i],
            ) by {
                assert(hs.drop_first()[i] == hs[i + 1]);
            }
        }
        lemma_hints_round_trip(hs.drop_first());
        lemma_hint_round_trip(h, rest);
        let p = encode_hints(hs);
        assert(p == encode_hint(h) + rest);
        lemma_encode_hint_len(h);
        assert(p.skip(20 + h.key.len() as int) =~= rest);
        assert(seq![h] + hs.drop_first() =~= hs);
    }
}

pub proof fn lemma_encode_hint_len(h: HintView)
    ensures
        encode_hint(h).len() == 20 + h.key.len(),
{
    lemma_to_le_len(h.timestamp as nat, 4);
    lemma_to_le_len(h.key.len(), 4);
    lemma_to_le_len(h.value_size as nat, 4);
    lemma_to_le_len(h.entry_pos as nat, 8);
}

/// A hint file written whole reads back as the hints it was written from.
pub proof fn lemma_hint_file_round_trip(hs: Seq<HintView>)
    requires
        all_hints_wf(hs),
    ensures
        read_hint_file(hint_file(encode_hints(hs))) == Some(hs),
{
    let p = encode_hints(hs);
    let f = hint_file(p);
    lemma_pow256_eight();
    lemma_to_le_len(xxh32(p) as nat, 4);
    lemma_le_round_trip(xxh32(p) as nat, 4);
    assert(f.subrange(0, f.len() - 4) =~= p);
    assert(f.subrange(f.len() - 4, f.len() - 4 + 4) =~= to_le(xxh32(p) as nat, 4));
    lemma_hints_round_trip(hs);
}

/// A hint file shorter than its checksum is never read; and a hint file whose
/// payload differs in one byte from the payload its checksum was made over is
/// not read, unless the two payloads have the same checksum.
pub proof fn lemma_hint_file_checksum(payload: Seq<u8>, i: int, byte: u8)
    requires
        0 <= i < payload.len(),
        byte != payload[i],
        xxh32(payload.update(i, byte)) != xxh32(payload),
    ensures
        read_hint_file(hint_file(payload).update(i, byte)) is None,
        forall|f: Seq<u8>| f.len() < 4 ==> (#[trigger] read_hint_file(f)) is None,
{
    let f = hint_file(payload).update(i, byte);
    lemma_pow256_eight();
    lemma_to_le_len(xxh32(payload) as nat, 4);
    lemma_le_round_trip(xxh32(payload) as nat, 4);
    assert(f.subrange(0, f.len() - 4) =~= payload.update(i, byte));
    assert(f.subrange(f.len() - 4, f.len() - 4 + 4) =~= to_le(xxh32(payload) as nat, 4));
}

pub open spec fn hint_views(v: Seq<Hint>) -> Seq<HintView> {
    v.map_values(|h: Hint| h@)
}

impl Hint {
    /// The hint of `entry`, stored at offset `pos` of its data file.
    pub fn from_entry(entry: &Entry, pos: u64) -> (r: Hint)
        requires
            crate::data::entry_wf(entry@),
        ensures
            r@ == hint_of(entry@, pos),
    {
        let value_size: u32 = match &entry.value {
            Some(v) => v.len() as u32,
            None => crate::data::TOMBSTONE,
        };
        let key = copy_range(entry.key.as_slice(), 0, entry.key.len());
        assert(key@ =~= entry.key@);
        Hint { timestamp: entry.timestamp, key, value_size, entry_pos: pos }
    }

    pub fn is_deleted(&self) -> (r: bool)
        ensures
            r == (self.value_size == crate::data::TOMBSTONE),
    {
        self.value_size == crate::data::TOMBSTONE
    }

    /// The hint as it is written to a hint file.
    pub fn to_bytes(&self) -> (r: Vec<u8>)
        requires
            hint_wf(self@),
        ensures
            r@ == encode_hint(self@),
    {
        let mut b: Vec<u8> = Vec::new();
        proof {
            lemma_pow256_eight();
        }
        push_le(&mut b, self.timestamp as u64, 4);
        push_le(&mut b, self.key.len() as u64, 4);
        push_le(&mut b, self.value_size as u64, 4);
        push_le(&mut b, self.entry_pos, 8);
        append_bytes(&mut b, self.key.as_slice());
        b
    }

    /// Decodes the hint that starts at `pos` in `b`, with its encoded length.
    pub fn from_bytes(b: &[u8], pos: usize) -> (r: Option<(Hint, u64)>)
        requires
            pos <= b@.len(),
        ensures
            match r {
                Some((h, n)) => parse_hint(b@.skip(pos as int)) == Some((h@, n as nat)),
                None => parse_hint(b@.skip(pos as int)) is None,
            },
    {
        let ghost s = b@.skip(pos as int);
        let len = b.len();
        let avail: usize = len - pos;
        if avail < 20 {
            return None;
        }
        assert(s.subrange(0, 4) =~= b@.subrange(pos as int, pos + 4));
        assert(s.subrange(4, 8) =~= b@.subrange(pos + 4, pos + 8));
        assert(s.subrange(8, 12) =~= b@.subrange(pos + 8, pos + 12));
        assert(s.subrange(12, 20) =~= b@.subrange(pos + 12, pos + 20));
        let timestamp = read_le(b, pos, 4);
        let klen = read_le(b, pos + 4, 4);
        let value_size = read_le(b, pos + 8, 4);
        let entry_pos = read_le(b, pos + 12, 8);
        proof {
            lemma_pow256_eight();
            lemma_from_le_bound(b@.subrange(pos as int, pos + 4));
            lemma_from_le_bound(b@.subrange(pos + 4, pos + 8));
            lemma_from_le_bound(b@.subrange(pos + 8, pos + 12));
        }
        let total: u64 = HINT_HEADER_SIZE + klen;
        if (avail as u64) < total {
            return None;
        }
        let key = copy_range(b, pos + 20, pos + total as usize);
        assert(key@ =~= s.subrange(20, 20 + klen));
        Some(
            (
                Hint {
                    timestamp: timestamp as u32,
                    key,
                    value_size: value_size as u32,
                    entry_pos,
                },
                total,
            ),
        )
    }
}

/// The hints of a hint file, or `None` where the file is too short, its
/// checksum does not match, or its payload is not whole hints.
pub fn decode_hint_file(f: &[u8]) -> (r: Option<Vec<Hint>>)
    ensures
        match r {
            Some(v) => read_hint_file(f@) == Some(hint_views(v@)),
            None => read_hint_file(f@) is None,
        },
{
    let len = f.len();
    if len < 4 {
        return None;
    }
    let plen: usize = len - 4;
    let stored = read_le(f, plen, 4);
    let p = vstd::slice::slice_subrange(f, 0, plen);
    let sum = checksum(p);
    if stored != sum as u64 {
        return None;
    }
    let mut out: Vec<Hint> = Vec::new();
    let mut pos: usize = 0;
    assert(p@.skip(0) =~= p@);
    assert(hint_views(out@) + Seq::<HintView>::empty() =~= Seq::<HintView>::empty());
    while pos < plen
        invariant
            pos <= plen,
            plen == p@.len(),
            p@ == f@.subrange(0, f@.len() - 4),
            read_hint_file(f@) == parse_hints(p@),
            parse_hints(p@) == match parse_hints(p@.skip(pos as int)) {
                None => None,
                Some(rest) => Some(hint_views(out@) + rest),
            },
        decreases plen - pos,
    {
        match Hint::from_bytes(p, pos) {
            None => {
                return None;
            },
            Some((h, n)) => {
                let ghost q = p@.skip(pos as int);
                assert(q.skip(n as int) =~= p@.skip(pos + n));
                let ghost before = hint_views(out@);
                out.push(h);
                proof {
                    assert(hint_views(out@) =~= before.push(h@));
                    match parse_hints(p@.skip(pos + n)) {
                        None => {},
                        Some(rest) => {
                            assert(before + (seq![h@] + rest) =~= hint_views(out@) + rest);
                        },
                    }
                }
                pos = pos + n as usize;
            },
        }
    }
    assert(p@.skip(pos as int) =~= Seq::<u8>::empty());
    assert(hint_views(out@) + Seq::<HintView>::empty() =~= hint_views(out@));
    Some(out)
}

} // verus!
