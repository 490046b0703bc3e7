use vstd::prelude::*;

use crate::data::{encode_entry, entry_wf, parse_entry, CodecError, Entry, EntryView, TOMBSTONE};
use crate::hint::{hint_file, encode_hints, read_hint_file, HintView};
use crate::index::{apply_hint, references, KeyDir, Location};
use crate::log::{write_outcome, Append, Log};
use crate::segment::{hints_of, replay_entries};

verus! {

/// `hs`, each hint tagged with the segment id `file_id`.
pub open spec fn tagged(file_id: u32, hs: Seq<HintView>) -> Seq<(u32, HintView)> {
    hs.map_values(|h: HintView| (file_id, h))
}

/// The value that the location `l` holds on a disk that maps segment ids
/// to the contents of their data files: the value of the entry that
/// decodes there, if any.
pub open spec fn value_at(disk: Map<u32, Seq<u8>>, l: Location) -> Option<Seq<u8>> {
    if disk.contains_key(l.file_id) && l.entry_pos <= disk[l.file_id].len() {
        match parse_entry(disk[l.file_id].skip(l.entry_pos as int)) {
            Ok((e, _)) => e.value,
            Err(_) => None,
        }
    } else {
        None
    }
}

/// A key keeps its value when merge rewrites it: where the entry found at
/// the old location is written whole at the new one, both locations hold
/// the same value.
pub proof fn lemma_relocation_keeps_value(
    disk: Map<u32, Seq<u8>>,
    old_loc: Location,
    new_loc: Location,
    e: EntryView,
    rest: Seq<u8>,
)
    requires
        entry_wf(e),
        disk.contains_key(old_loc.file_id),
        old_loc.entry_pos <= disk[old_loc.file_id].len(),
        parse_entry(disk[old_loc.file_id].skip(old_loc.entry_pos as int)) is Ok,
        parse_entry(disk[old_loc.file_id].skip(old_loc.entry_pos as int))->Ok_0.0 == e,
        disk.contains_key(new_loc.file_id),
        new_loc.entry_pos <= disk[new_loc.file_id].len(),
        disk[new_loc.file_id].skip(new_loc.entry_pos as int) == encode_entry(e) + rest,
    ensures
        value_at(disk, new_loc) == value_at(disk, old_loc),
{
    crate::data::lemma_entry_round_trip(e, rest);
}

/// Deleting the files of a segment that no key points into changes the
/// value of no key.
pub proof fn lemma_unreferenced_removal(disk: Map<u32, Seq<u8>>, m: Map<Seq<u8>, Location>, file_id: u32)
    requires
        !references(m, file_id),
    ensures
        forall|k: Seq<u8>| #[trigger] m.contains_key(k) ==> value_at(disk.remove(file_id), m[k]) == value_at(disk, m[k]),
{
    assert forall|k: Seq<u8>| #[trigger] m.contains_key(k) implies value_at(disk.remove(file_id), m[k]) == value_at(disk, m[k]) by {
        assert(m[k].file_id != file_id);
    }
}

/// The value stored by the entry at offset `pos` of a data file, checked to
/// be a write of `key`: `Corrupt` where the entry there is of another key or
/// is a deletion, and the decoding error where none decodes.
pub fn read_value(key: &[u8], data: &[u8], pos: u64) -> (r: Result<Vec<u8>, CodecError>)
    ensures
        pos > data@.len() ==> r == Err::<Vec<u8>, CodecError>(CodecError::Truncated),
        pos <= data@.len() ==> match parse_entry(data@.skip(pos as int)) {
            Err(err) => r == Err::<Vec<u8>, CodecError>(err),
            Ok((e, _)) => if e.key == key@ && e.value is Some {
                r is Ok && r->Ok_0@ == e.value->Some_0
            } else {
                r == Err::<Vec<u8>, CodecError>(CodecError::Corrupt)
            },
        },
{
    if pos > data.len() as u64 {
        return Err(CodecError::Truncated);
    }
    match Entry::from_bytes(data, pos as usize) {
        Err(err) => Err(err),
        Ok((e, _)) => {
            if !crate::index::bytes_eq(e.key.as_slice(), key) {
                return Err(CodecError::Corrupt);
            }
            match e.value {
                Some(v) => Ok(v),
                None => Err(CodecError::Corrupt),
            }
        },
    }
}

/// The engine: the segment manager and the index of live keys.
pub struct Cask {
    pub log: Log,
    pub keydir: KeyDir,
}

impl Cask {
    pub open spec fn wf(&self) -> bool {
        self.log.wf() && self.keydir.wf()
    }

    /// A store over the segments `existing`, with an empty index to be
    /// filled by recovery; `None` when no new segment id is left.
    pub fn open(existing: &Vec<u32>, now: u32, sync: bool) -> (r: Option<Cask>)
        ensures
            match r {
                Some(c) => c.wf() && c.keydir.view() == Map::<Seq<u8>, Location>::empty()
                    && c.log.ids().drop_last().to_set() == existing@.to_set()
                    && c.log.syncs() == sync,
                None => existing@.contains(u32::MAX),
            },
    {
        match Log::open(existing, now, sync) {
            None => None,
            Some(log) => Some(Cask { log, keydir: KeyDir::new() }),
        }
    }

    /// Replays the hint file of segment `file_id` into the index; `false`,
    /// with the index unchanged, when the hint file is not valid.
    pub fn recover_from_hints(&mut self, file_id: u32, hint_file: &[u8]) -> (r: bool)
        requires
            old(self).wf(),
        ensures
            final(self).wf(),
            final(self).log == old(self).log,
            r == read_hint_file(hint_file@) is Some,
            r ==> final(self).keydir.view() == crate::index::replay_hints(
                old(self).keydir.view(),
                tagged(file_id, read_hint_file(hint_file@)->Some_0),
            ),
            !r ==> final(self).keydir.view() == old(self).keydir.view(),
    {
        match self.log.hints(hint_file) {
            None => false,
            Some(hints) => {
                let mut hints = hints;
                let ghost all = hints.remaining();
                let ghost start = self.keydir.view();
                assert(all.skip(0) =~= all);
                assert(tagged(file_id, all.take(0)) =~= Seq::<(u32, HintView)>::empty());
                loop
                    invariant
                        hints.wf(),
                        self.wf(),
                        self.log == old(self).log,
                        exists|k: int|
                            0 <= k <= all.len() && hints.remaining() == all.skip(k)
                                && self.keydir.view() == crate::index::replay_hints(
                                start,
                                tagged(file_id, all.take(k)),
                            ),
                    ensures
                        self.wf(),
                        self.log == old(self).log,
                        self.keydir.view() == crate::index::replay_hints(start, tagged(file_id, all)),
                    decreases hints.remaining().len(),
                {
                    let ghost k = choose|k: int|
                        0 <= k <= all.len() && hints.remaining() == all.skip(k)
                            && self.keydir.view() == crate::index::replay_hints(
                            start,
                            tagged(file_id, all.take(k)),
                        );
                    match hints.next() {
                        None => {
                            assert(k == all.len());
                            assert(all.take(k) =~= all);
                            break;
                        },
                        Some(h) => {
                            self.keydir.apply_hint(file_id, &h);
                            proof {
                                assert(all[k] == h@);
                                assert(hints.remaining() =~= all.skip(k + 1));
                                let t = tagged(file_id, all.take(k + 1));
                                assert(t.drop_last() =~= tagged(file_id, all.take(k)));
                                assert(t.last() == (file_id, h@));
                            }
                        },
                    }
                }
                true
            },
        }
    }

    /// Rebuilds the hints of segment `file_id` from the contents of its data
    /// file, replays them into the index, and gives the new hint file.
    pub fn recover_from_data(&mut self, file_id: u32, data: Vec<u8>) -> (r: Vec<u8>)
        requires
            old(self).wf(),
        ensures
            final(self).wf(),
            final(self).log == old(self).log,
            final(self).keydir.view() == crate::index::replay_hints(
                old(self).keydir.view(),
                tagged(file_id, hints_of(replay_entries(data@, 0))),
            ),
            r@ == hint_file(encode_hints(hints_of(replay_entries(data@, 0)))),
    {
        let mut rebuild = self.log.recreate_hints(data);
        let ghost all = rebuild.rebuilt();
        let ghost start = self.keydir.view();
        assert(all.skip(0) =~= all);
        assert(tagged(file_id, all.take(0)) =~= Seq::<(u32, HintView)>::empty());
        loop
            invariant
                rebuild.wf(),
                rebuild.rebuilt() == all,
                self.wf(),
                self.log == old(self).log,
                exists|k: int|
                    0 <= k <= all.len() && rebuild.remaining() == all.skip(k)
                        && self.keydir.view() == crate::index::replay_hints(
                        start,
                        tagged(file_id, all.take(k)),
                    ),
            ensures
                rebuild.wf(),
                rebuild.rebuilt() == all,
                self.wf(),
                self.log == old(self).log,
                self.keydir.view() == crate::index::replay_hints(start, tagged(file_id, all)),
            decreases rebuild.remaining().len(),
        {
            let ghost k = choose|k: int|
                0 <= k <= all.len() && rebuild.remaining() == all.skip(k)
                    && self.keydir.view() == crate::index::replay_hints(
                    start,
                    tagged(file_id, all.take(k)),
                );
            match rebuild.next() {
                None => {
                    assert(k == all.len());
                    assert(all.take(k) =~= all);
                    break;
                },
                Some(h) => {
                    self.keydir.apply_hint(file_id, &h);
                    proof {
                        assert(all[k] == h@);
                        assert(rebuild.remaining() =~= all.skip(k + 1));
                        let t = tagged(file_id, all.take(k + 1));
                        assert(t.drop_last() =~= tagged(file_id, all.take(k)));
                        assert(t.last() == (file_id, h@));
                    }
                },
            }
        }
        rebuild.finish()
    }
    /// Recovers segment `file_id` at startup: from its stored hint file when
    /// that is valid, giving `None`; else from the contents of its data file,
    /// giving the rebuilt hint file to write in place of the stored one.
    pub fn recover_segment(&mut self, file_id: u32, stored: &[u8], data: Vec<u8>) -> (r: Option<Vec<u8>>)
        requires
            old(self).wf(),
        ensures
            final(self).wf(),
            final(self).log == old(self).log,
            r is None <==> read_hint_file(stored@) is Some,
            r is None ==> final(self).keydir.view() == crate::index::replay_hints(
                old(self).keydir.view(),
                tagged(file_id, read_hint_file(stored@)->Some_0),
            ),
            r is Some ==> final(self).keydir.view() == crate::index::replay_hints(
                old(self).keydir.view(),
                tagged(file_id, hints_of(replay_entries(data@, 0))),
            ) && r->Some_0@ == hint_file(encode_hints(hints_of(replay_entries(data@, 0)))),
    {
        if self.recover_from_hints(file_id, stored) {
            None
        } else {
            Some(self.recover_from_data(file_id, data))
        }
    }

    /// The sealed segments for one bounded merge pass: the oldest `limit`
    /// of them, ascending.
    pub fn merge_candidates(&self, limit: usize) -> (r: Vec<u32>)
        requires
            self.wf(),
        ensures
            r@ == self.log.ids().drop_last().take(
                if limit < self.log.ids().len() - 1 { limit as int } else { self.log.ids().len() - 1 },
            ),
    {
        let ids = self.log.files();
        let n: usize = ids.len() - 1;
        let m: usize = if limit < n { limit } else { n };
        let mut r: Vec<u32> = Vec::new();
        let mut i: usize = 0;
        while i < m
            invariant
                i <= m,
                m <= n,
                n + 1 == ids@.len(),
                r@ == ids@.take(i as int),
            decreases m - i,
        {
            r.push(ids[i]);
            assert(r@ =~= ids@.take(i + 1));
            i = i + 1;
        }
        assert(r@ =~= ids@.drop_last().take(m as int));
        r
    }

    /// Writes `value` under `key` at time `now`, then points the key at the
    /// new entry. `None`, with nothing changed, when the log needs a new
    /// segment and no id is left.
    pub fn put(&mut self, key: Vec<u8>, value: Vec<u8>, now: u32) -> (r: Option<Append>)
        requires
            old(self).wf(),
            key@.len() <= u32::MAX,
            value@.len() < TOMBSTONE,
        ensures
            final(self).wf(),
            write_outcome(
                old(self).log,
                final(self).log,
                EntryView { timestamp: now, key: key@, value: Some(value@) },
                now,
                r,
            ),
            match r {
                None => final(self).keydir.view() == old(self).keydir.view(),
                Some(a) => {
                    &&& final(self).keydir.view() == old(self).keydir.view().insert(
                        key@,
                        Location {
                            file_id: a.file_id,
                            entry_pos: a.offset,
                            value_size: value@.len() as u32,
                            timestamp: now,
                        },
                    )
                },
            },
    {
        let k = crate::bytes::copy_range(key.as_slice(), 0, key.len());
        assert(k@ =~= key@);
        let value_size = value.len() as u32;
        let entry = Entry::new(key, value, now);
        match self.log.write_entry(&entry, now) {
            None => None,
            Some(a) => {
                self.keydir.insert(
                    k,
                    Location { file_id: a.file_id, entry_pos: a.offset, value_size, timestamp: now },
                );
                Some(a)
            },
        }
    }

    /// Writes a deletion of `key` at time `now`, then drops the key from the
    /// index. `None`, with nothing changed, when no segment id is left.
    pub fn delete(&mut self, key: Vec<u8>, now: u32) -> (r: Option<Append>)
        requires
            old(self).wf(),
            key@.len() <= u32::MAX,
        ensures
            final(self).wf(),
            write_outcome(
                old(self).log,
                final(self).log,
                EntryView { timestamp: now, key: key@, value: None },
                now,
                r,
            ),
            match r {
                None => final(self).keydir.view() == old(self).keydir.view(),
                Some(_) => final(self).keydir.view() == old(self).keydir.view().remove(key@),
            },
    {
        let k = crate::bytes::copy_range(key.as_slice(), 0, key.len());
        assert(k@ =~= key@);
        let entry = Entry::deleted(key, now);
        match self.log.write_entry(&entry, now) {
            None => None,
            Some(a) => {
                self.keydir.remove(k.as_slice());
                Some(a)
            },
        }
    }

    /// Whether the entry `entry` found at offset `pos` of segment `file_id`
    /// is the latest write of its key.
    pub fn is_live(&self, file_id: u32, pos: u64, entry: &Entry) -> (r: bool)
        requires
            self.wf(),
        ensures
            r == (self.keydir.view().contains_key(entry.key@)
                && self.keydir.view()[entry.key@].file_id == file_id
                && self.keydir.view()[entry.key@].entry_pos == pos),
    {
        match self.keydir.get(entry.key.as_slice()) {
            None => false,
            Some(l) => l.file_id == file_id && l.entry_pos == pos,
        }
    }

    /// One merge step over the entry `entry` found at offset `pos` of the
    /// sealed segment `file_id`: a live entry is written again, unchanged,
    /// to the active segment and its key pointed there; any other is
    /// skipped. `None` when nothing was written.
    pub fn merge_entry(&mut self, file_id: u32, pos: u64, entry: &Entry, now: u32) -> (r: Option<Append>)
        requires
            old(self).wf(),
            entry_wf(entry@),
            old(self).log.ids().contains(file_id),
            file_id != old(self).log.current(),
        ensures
            final(self).wf(),
            match r {
                None => final(self).keydir.view() == old(self).keydir.view(),
                Some(a) => {
                    &&& old(self).keydir.view().contains_key(entry.key@)
                    &&& old(self).keydir.view()[entry.key@].file_id == file_id
                    &&& old(self).keydir.view()[entry.key@].entry_pos == pos
                    &&& a.data@ == encode_entry(entry@)
                    &&& a.file_id == final(self).log.current()
                    &&& a.file_id != file_id
                    &&& final(self).keydir.view() == old(self).keydir.view().insert(
                        entry.key@,
                        Location {
                            file_id: a.file_id,
                            entry_pos: a.offset,
                            value_size: old(self).keydir.view()[entry.key@].value_size,
                            timestamp: old(self).keydir.view()[entry.key@].timestamp,
                        },
                    )
                },
            },
            ({
                let live = old(self).keydir.view().contains_key(entry.key@)
                    && old(self).keydir.view()[entry.key@].file_id == file_id
                    && old(self).keydir.view()[entry.key@].entry_pos == pos;
                &&& !live ==> r is None && final(self).log == old(self).log
                &&& live ==> write_outcome(old(self).log, final(self).log, entry@, now, r)
            }),
    {
        match self.keydir.get(entry.key.as_slice()) {
            None => None,
            Some(l) => {
                if l.file_id != file_id || l.entry_pos != pos {
                    return None;
                }
                proof {
                    self.log.lemma_ids_below_current(file_id);
                }
                match self.log.write_entry(entry, now) {
                    None => None,
                    Some(a) => {
                        let k = crate::bytes::copy_range(entry.key.as_slice(), 0, entry.key.len());
                        assert(k@ =~= entry.key@);
                        self.keydir.insert(
                            k,
                            Location {
                                file_id: a.file_id,
                                entry_pos: a.offset,
                                value_size: l.value_size,
                                timestamp: l.timestamp,
                            },
                        );
                        Some(a)
                    },
                }
            },
        }
    }

    /// Whether some live key still points into segment `file_id`.
    pub fn references(&self, file_id: u32) -> (r: bool)
        requires
            self.wf(),
        ensures
            r == references(self.keydir.view(), file_id),
    {
        self.keydir.references(file_id)
    }

    /// Forgets sealed segment `file_id` once no live key points into it, so
    /// that its files can be deleted; `false`, with nothing changed, where a
    /// key still points into it or it is the active segment.
    pub fn remove_segment(&mut self, file_id: u32) -> (r: bool)
        requires
            old(self).wf(),
        ensures
            final(self).wf(),
            final(self).keydir.view() == old(self).keydir.view(),
            r == (!references(old(self).keydir.view(), file_id) && file_id != old(self).log.current()),
            r ==> final(self).log.ids().to_set() == old(self).log.ids().to_set().remove(file_id),
            !r ==> final(self).log.ids() == old(self).log.ids(),
    {
        if file_id == self.log.current_file_id() || self.keydir.references(file_id) {
            return false;
        }
        self.log.forget(file_id);
        true
    }
}

} // verus!
