use vstd::prelude::*;

use crate::bytes::{lemma_pow256_eight, push_le, to_le};
use crate::data::{encode_entry, entry_size, entry_wf, parse_entry, CodecError, Entry, EntryView};
use crate::hash::{checksum, xxh32};
use crate::hint::{encode_hint, hint_of, read_hint_file, Hint};
use crate::segment::{replay_entries, hints_of, Entries, Hints, RecreateHints};

verus! {

/// Size at which the active data file is sealed and a new one begun: 100 MiB.
pub const DEFAULT_SIZE_THRESHOLD: u64 = 104857600;

/// Largest size threshold a log accepts.
pub const MAX_SIZE_THRESHOLD: u64 = 0x4000_0000_0000_0000;

/// Upper bound of the encoded size of one entry.
pub const MAX_ENTRY_SIZE: u64 = 0x4_0000_0000;

pub open spec fn strictly_increasing(s: Seq<u32>) -> bool {
    forall|i: int, j: int| 0 <= i < j < s.len() ==> s[i] < s[j]
}

/// Segment ids, ascending and without repeats, holding exactly the ids of `v`.
pub fn sorted_ids(v: &Vec<u32>) -> (r: Vec<u32>)
    ensures
        strictly_increasing(r@),
        r@.to_set() == v@.to_set(),
{
    let mut r: Vec<u32> = Vec::new();
    let mut i: usize = 0;
    while i < v.len()
        invariant
            i <= v@.len(),
            strictly_increasing(r@),
            r@.to_set() == v@.subrange(0, i as int).to_set(),
        decreases v@.len() - i,
    {
        let x = v[i];
        let mut j: usize = 0;
        while j < r.len() && r[j] < x
            invariant
                j <= r@.len(),
                forall|k: int| 0 <= k < j ==> r@[k] < x,
            decreases r@.len() - j,
        {
            j = j + 1;
        }
        let ghost old_r = r@;
        if j < r.len() && r[j] == x {
            assert(old_r.to_set().contains(x)) by {
                assert(old_r.contains(x));
            }
        } else {
            r.insert(j, x);
            assert(r@ =~= old_r.insert(j as int, x));
            assert(r@.to_set() =~= old_r.to_set().insert(x)) by {
                broadcast use vstd::seq_lib::group_seq_properties;
                assert forall|y: u32| r@.contains(y) <==> old_r.contains(y) || y == x by {
                    if r@.contains(y) {
                        let k = choose|k: int| 0 <= k < r@.len() && r@[k] == y;
                        if k < j {
                            assert(old_r[k] == y);
                        } else if k > j {
                            assert(old_r[k - 1] == y);
                        }
                    }
                    if old_r.contains(y) {
                        let k = choose|k: int| 0 <= k < old_r.len() && old_r[k] == y;
                        if k < j {
                            assert(r@[k] == y);
                        } else {
                            assert(r@[k + 1] == y);
                        }
                    }
                    if y == x {
                        assert(r@[j as int] == x);
                    }
                }
            }
        }
        assert(v@.subrange(0, i + 1) =~= v@.subrange(0, i as int).push(x));
        assert(v@.subrange(0, i + 1).to_set() =~= v@.subrange(0, i as int).to_set().insert(x))
            by {
            v@.subrange(0, i as int).lemma_push_to_set_commute(x);
        }
        i = i + 1;
    }
    assert(v@.subrange(0, v@.len() as int) =~= v@);
    r
}

/// The id for a segment created at time `now` after the segment `last`:
/// `now` when it is later, else one more than `last`; `None` when no
/// greater id exists.
pub fn next_segment_id(last: Option<u32>, now: u32) -> (r: Option<u32>)
    ensures
        match last {
            None => r == Some(now),
            Some(l) => if now > l {
                r == Some(now)
            } else if l < u32::MAX {
                r == Some((l + 1) as u32)
            } else {
                r is None
            },
        },
{
    match last {
        None => Some(now),
        Some(l) => if now > l {
            Some(now)
        } else if l < u32::MAX {
            Some(l + 1)
        } else {
            None
        },
    }
}

/// What appending `e` at time `now` does to a log, and the action it asks
/// for: the threshold and sync flag are kept; when the active data file would
/// pass the threshold, the active segment is sealed and a segment with a
/// greater id begins; the entry lies whole in one segment; `None`, with
/// nothing changed, only when a new segment is needed and no id is left.
pub open spec fn write_outcome(pre: Log, post: Log, e: EntryView, now: u32, r: Option<Append>) -> bool {
    &&& post.threshold() == pre.threshold()
    &&& post.syncs() == pre.syncs()
    &&& {
        let rotate = pre.active_size() + entry_size(e) > pre.threshold();
        match r {
            None => {
                &&& rotate
                &&& pre.current() == u32::MAX
                &&& now <= pre.current()
                &&& post.ids() == pre.ids()
                &&& post.active_size() == pre.active_size()
                &&& post.payload() == pre.payload()
            },
            Some(a) => {
                &&& a.data@ == encode_entry(e)
                &&& a.hint@ == encode_hint(hint_of(e, a.offset))
                &&& a.sync == pre.syncs()
                &&& a.file_id == post.current()
                &&& post.active_size() == a.offset + entry_size(e)
                &&& if rotate {
                    &&& a.sealed is Some
                    &&& a.sealed->Some_0.0 == pre.current()
                    &&& a.sealed->Some_0.1@ == to_le(xxh32(pre.payload()) as nat, 4)
                    &&& post.current() > pre.current()
                    &&& post.current() == (if now > pre.current() {
                        now
                    } else {
                        (pre.current() + 1) as u32
                    })
                    &&& post.ids() == pre.ids().push(post.current())
                    &&& a.offset == 0
                    &&& post.payload() == encode_hint(hint_of(e, 0))
                } else {
                    &&& a.sealed is None
                    &&& post.current() == pre.current()
                    &&& post.ids() == pre.ids()
                    &&& a.offset == pre.active_size()
                    &&& post.payload() == pre.payload() + encode_hint(
                        hint_of(e, a.offset),
                    )
                }
            },
        }
    }
}

/// What the caller does for one append: if `sealed` is present, append its
/// bytes (the checksum trailer) to that segment's hint file and begin new
/// data and hint files for `file_id`; then append `data` to the data file
/// and `hint` to the hint file of `file_id`, and force the data file to
/// storage when `sync` holds. The entry's location is `(file_id, offset)`.
pub struct Append {
    pub sealed: Option<(u32, Vec<u8>)>,
    pub file_id: u32,
    pub offset: u64,
    pub data: Vec<u8>,
    pub hint: Vec<u8>,
    pub sync: bool,
}

/// The segment manager: the known segments, the active one, how full it is,
/// and the hint bytes written to it so far, from which its checksum comes.
pub struct Log {
    sync: bool,
    size_threshold: u64,
    files: Vec<u32>,
    current_file_id: u32,
    active_size: u64,
    hint_payload: Vec<u8>,
}

impl Log {
    /// Segment ids, ascending: the sealed ones, then the active one.
    pub closed spec fn ids(&self) -> Seq<u32> {
        self.files@
    }

    pub closed spec fn current(&self) -> u32 {
        self.current_file_id
    }

    /// Bytes written to the active data file.
    pub closed spec fn active_size(&self) -> nat {
        self.active_size as nat
    }

    pub closed spec fn threshold(&self) -> nat {
        self.size_threshold as nat
    }

    pub closed spec fn syncs(&self) -> bool {
        self.sync
    }

    /// Hint bytes written to the active hint file.
    pub closed spec fn payload(&self) -> Seq<u8> {
        self.hint_payload@
    }

    pub closed spec fn wf(&self) -> bool {
        &&& strictly_increasing(self.files@)
        &&& self.files@.len() > 0
        &&& self.files@.last() == self.current_file_id
        &&& self.size_threshold <= MAX_SIZE_THRESHOLD
        &&& self.active_size <= self.size_threshold + MAX_ENTRY_SIZE
    }

    /// Opens a log over the segments `existing` found in its directory, with
    /// a new, empty active segment created at time `now`; `None` when no id
    /// above the existing ones is left.
    pub fn open(existing: &Vec<u32>, now: u32, sync: bool) -> (r: Option<Log>)
        ensures
            match r {
                Some(log) => {
                    &&& log.wf()
                    &&& strictly_increasing(log.ids())
                    &&& log.ids().len() > 0
                    &&& log.ids().last() == log.current()
                    &&& log.ids().drop_last().to_set() == existing@.to_set()
                    &&& forall|i: int| 0 <= i < existing@.len() ==> existing@[i] < log.current()
                    &&& (log.current() == now || (now < log.current() && existing@.contains(
                        (log.current() - 1) as u32,
                    )))
                    &&& log.active_size() == 0
                    &&& log.payload().len() == 0
                    &&& log.threshold() == DEFAULT_SIZE_THRESHOLD
                    &&& log.syncs() == sync
                },
                None => existing@.contains(u32::MAX),
            },
    {
        Log::open_with_threshold(existing, now, sync, DEFAULT_SIZE_THRESHOLD)
    }

    /// As `open`, with a chosen size threshold.
    pub fn open_with_threshold(existing: &Vec<u32>, now: u32, sync: bool, size_threshold: u64) -> (r: Option<Log>)
        requires
            size_threshold <= MAX_SIZE_THRESHOLD,
        ensures
            match r {
                Some(log) => {
                    &&& log.wf()
                    &&& strictly_increasing(log.ids())
                    &&& log.ids().len() > 0
                    &&& log.ids().last() == log.current()
                    &&& log.ids().drop_last().to_set() == existing@.to_set()
                    &&& forall|i: int| 0 <= i < existing@.len() ==> existing@[i] < log.current()
                    &&& (log.current() == now || (now < log.current() && existing@.contains(
                        (log.current() - 1) as u32,
                    )))
                    &&& log.active_size() == 0
                    &&& log.payload().len() == 0
                    &&& log.threshold() == size_threshold
                    &&& log.syncs() == sync
                },
                None => existing@.contains(u32::MAX),
            },
    {
        let mut files = sorted_ids(existing);
        let n = files.len();
        let last = if n == 0 {
            None
        } else {
            Some(files[n - 1])
        };
        proof {
            if n > 0 {
                assert(files@.contains(files@[n - 1]));
                assert(existing@.to_set().contains(files@[n - 1]));
                assert(existing@.contains(files@[n - 1]));
            }
        }
        match next_segment_id(last, now) {
            None => {
                assert(existing@.contains(u32::MAX));
                None
            },
            Some(id) => {
                let ghost before = files@;
                files.push(id);
                assert(files@.drop_last() =~= before);
                assert forall|i: int| 0 <= i < existing@.len() implies existing@[i] < id by {
                    assert(existing@.to_set().contains(existing@[i]));
                    assert(before.to_set().contains(existing@[i]));
                    assert(before.contains(existing@[i]));
                    let k = choose|k: int| 0 <= k < before.len() && before[k] == existing@[i];
                    if k < n - 1 {
                        assert(before[k] < before[n - 1]);
                    }
                }
                Some(
                    Log {
                        sync,
                        size_threshold,
                        files,
                        current_file_id: id,
                        active_size: 0,
                        hint_payload: Vec::new(),
                    },
                )
            },
        }
    }

    /// The segment ids, ascending.
    pub fn files(&self) -> (r: Vec<u32>)
        ensures
            r@ == self.ids(),
            self.wf() ==> strictly_increasing(r@) && r@.len() > 0 && r@.last() == self.current(),
    {
        let mut r: Vec<u32> = Vec::new();
        let mut i: usize = 0;
        while i < self.files.len()
            invariant
                i <= self.files@.len(),
                r@ == self.files@.subrange(0, i as int),
            decreases self.files@.len() - i,
        {
            r.push(self.files[i]);
            assert(r@ =~= self.files@.subrange(0, i + 1));
            i = i + 1;
        }
        assert(r@ =~= self.files@);
        r
    }

    pub fn current_file_id(&self) -> (r: u32)
        ensures
            r == self.current(),
    {
        self.current_file_id
    }

    /// The entries of a data file, given its contents.
    pub fn entries(&self, data: Vec<u8>) -> (r: Entries)
        ensures
            r.wf(),
            r.remaining() == replay_entries(data@, 0),
    {
        Entries::new(data)
    }

    /// The hints of a hint file, given its contents; `None` where it is not
    /// a valid hint file and must be rebuilt from its data file.
    pub fn hints(&self, hint_file: &[u8]) -> (r: Option<Hints>)
        ensures
            match r {
                Some(h) => h.wf() && read_hint_file(hint_file@) == Some(h.remaining()),
                None => read_hint_file(hint_file@) is None,
            },
    {
        Hints::new(hint_file)
    }

    /// Rebuilds a segment's hints from the contents of its data file.
    pub fn recreate_hints(&self, data: Vec<u8>) -> (r: RecreateHints)
        ensures
            r.wf(),
            r.rebuilt() == hints_of(replay_entries(data@, 0)),
            r.remaining() == r.rebuilt(),
    {
        RecreateHints::new(data)
    }

    /// The entry at offset `pos` of a data file, given its contents.
    pub fn read_entry(&self, data: &[u8], pos: u64) -> (r: Result<Entry, CodecError>)
        ensures
            pos > data@.len() ==> r == Err::<Entry, CodecError>(CodecError::Truncated),
            pos <= data@.len() ==> match r {
                Ok(e) => parse_entry(data@.skip(pos as int)) is Ok
                    && parse_entry(data@.skip(pos as int))->Ok_0.0 == e@,
                Err(err) => parse_entry(data@.skip(pos as int)) == Err::<(EntryView, nat), CodecError>(err),
            },
    {
        if pos > data.len() as u64 {
            return Err(CodecError::Truncated);
        }
        match Entry::from_bytes(data, pos as usize) {
            Ok((e, _)) => Ok(e),
            Err(err) => Err(err),
        }
    }

    /// The checksum trailer that seals the active segment's hint file.
    pub fn seal(&self) -> (r: Vec<u8>)
        ensures
            r@ == to_le(xxh32(self.payload()) as nat, 4),
    {
        let sum = checksum(self.hint_payload.as_slice());
        let mut r: Vec<u8> = Vec::new();
        proof {
            lemma_pow256_eight();
        }
        push_le(&mut r, sum as u64, 4);
        r
    }

    /// Appends `entry` at time `now`. When the active data file would grow
    /// past the size threshold, the active segment is sealed first and a new
    /// one, with a greater id, becomes active. `None`, with nothing changed,
    /// when that is needed and no greater id is left.
    pub fn write_entry(&mut self, entry: &Entry, now: u32) -> (r: Option<Append>)
        requires
            old(self).wf(),
            entry_wf(entry@),
        ensures
            final(self).wf(),
            final(self).threshold() == old(self).threshold(),
            final(self).syncs() == old(self).syncs(),
            write_outcome(*old(self), *final(self), entry@, now, r),
    {
        let size = entry.size();
        let mut sealed: Option<(u32, Vec<u8>)> = None;
        if self.active_size + size > self.size_threshold {
            match next_segment_id(Some(self.current_file_id), now) {
                None => {
                    return None;
                },
                Some(id) => {
                    let trailer = self.seal();
                    sealed = Some((self.current_file_id, trailer));
                    let ghost before = self.files@;
                    self.files.push(id);
                    assert forall|i: int, j: int|
                        0 <= i < j < self.files@.len() implies self.files@[i] < self.files@[j] by {
                        if j == self.files@.len() - 1 && i < j {
                            assert(before[i] <= before.last());
                        }
                    }
                    self.current_file_id = id;
                    self.active_size = 0;
                    self.hint_payload = Vec::new();
                },
            }
        }
        let offset = self.active_size;
        let hint = Hint::from_entry(entry, offset);
        let hint_bytes = hint.to_bytes();
        let ghost before_payload = self.hint_payload@;
        crate::bytes::append_bytes(&mut self.hint_payload, hint_bytes.as_slice());
        self.active_size = offset + size;
        Some(
            Append {
                sealed,
                file_id: self.current_file_id,
                offset,
                data: entry.to_bytes(),
                hint: hint_bytes,
                sync: self.sync,
            },
        )
    }

    /// The segment ids of a well-formed log are ascending, without repeats,
    /// and end with the active one.
    pub proof fn lemma_ids(&self)
        requires
            self.wf(),
        ensures
            strictly_increasing(self.ids()),
            self.ids().len() > 0,
            self.ids().last() == self.current(),
            self.active_size() <= self.threshold() + MAX_ENTRY_SIZE,
    {
    }

    /// Every known segment id is at most the active one.
    pub proof fn lemma_ids_below_current(&self, id: u32)
        requires
            self.wf(),
            self.ids().contains(id),
        ensures
            id <= self.current(),
    {
        let i = choose|i: int| 0 <= i < self.files@.len() && self.files@[i] == id;
        if i < self.files@.len() - 1 {
            assert(self.files@[i] < self.files@[self.files@.len() - 1]);
        }
    }

    /// Forgets a sealed segment whose files were deleted.
    pub fn forget(&mut self, file_id: u32)
        requires
            old(self).wf(),
            file_id != old(self).current(),
        ensures
            final(self).wf(),
            final(self).ids().to_set() == old(self).ids().to_set().remove(file_id),
            final(self).current() == old(self).current(),
            final(self).active_size() == old(self).active_size(),
            final(self).payload() == old(self).payload(),
            final(self).threshold() == old(self).threshold(),
            final(self).syncs() == old(self).syncs(),
    {
        let mut i: usize = 0;
        while i < self.files.len()
            invariant
                i <= self.files@.len(),
                forall|j: int| 0 <= j < i ==> self.files@[j] != file_id,
            ensures
                i <= self.files@.len(),
                forall|j: int| 0 <= j < i ==> self.files@[j] != file_id,
                i < self.files@.len() ==> self.files@[i as int] == file_id,
            decreases self.files@.len() - i,
        {
            if self.files[i] == file_id {
                break;
            }
            i = i + 1;
        }
        if i < self.files.len() {
            let ghost o = self.files@;
            self.files.remove(i);
            proof {
                assert(self.files@ =~= o.remove(i as int));
                assert(o[o.len() - 1] == o.last());
                assert(i < o.len() - 1);
                assert(self.files@.last() == o.last());
                assert forall|a: int, b: int| 0 <= a < b < self.files@.len() implies self.files@[a]
                    < self.files@[b] by {
                    let oa = if a < i { a } else { a + 1 };
                    let ob = if b < i { b } else { b + 1 };
                    assert(self.files@[a] == o[oa] && self.files@[b] == o[ob]);
                }
                assert forall|x: u32| self.files@.contains(x) <==> o.contains(x) && x != file_id by {
                    if self.files@.contains(x) {
                        let a = choose|a: int| 0 <= a < self.files@.len() && self.files@[a] == x;
                        let oa = if a < i { a } else { a + 1 };
                        assert(o[oa] == x);
                        if oa != i {
                            if oa < i {
                                assert(o[oa] < o[i as int]);
                            } else {
                                assert(o[i as int] < o[oa]);
                            }
                        }
                    }
                    if o.contains(x) && x != file_id {
                        let a = choose|a: int| 0 <= a < o.len() && o[a] == x;
                        if a < i {
                            assert(self.files@[a] == x);
                        } else {
                            assert(a != i);
                            assert(self.files@[a - 1] == x);
                        }
                    }
                }
                assert(self.files@.to_set() =~= o.to_set().remove(file_id));
            }
        } else {
            assert(!self.files@.contains(file_id));
            assert(self.files@.to_set() =~= self.files@.to_set().remove(file_id));
        }
    }
}

} // verus!
