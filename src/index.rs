use vstd::prelude::*;

use crate::data::TOMBSTONE;
use crate::hint::{Hint, HintView};

verus! {

/// Where the live value of a key lies.
#[derive(Clone, Copy, Debug, PartialEq, Eq, Structural)]
pub struct Location {
    pub file_id: u32,
    pub entry_pos: u64,
    pub value_size: u32,
    pub timestamp: u32,
}

/// The location that hint `h` of segment `file_id` records.
pub open spec fn location_of(file_id: u32, h: HintView) -> Location {
    Location {
        file_id,
        entry_pos: h.entry_pos,
        value_size: h.value_size,
        timestamp: h.timestamp,
    }
}

/// The index after replaying hint `h` of segment `file_id`: a deletion
/// removes the key, any other write points the key at its entry.
pub open spec fn apply_hint(m: Map<Seq<u8>, Location>, file_id: u32, h: HintView) -> Map<
    Seq<u8>,
    Location,
> {
    if h.value_size == TOMBSTONE {
        m.remove(h.key)
    } else {
        m.insert(h.key, location_of(file_id, h))
    }
}

/// The index after replaying `hs`, each hint with its segment id, in order.
pub open spec fn replay_hints(m: Map<Seq<u8>, Location>, hs: Seq<(u32, HintView)>) -> Map<
    Seq<u8>,
    Location,
>
    decreases hs.len(),
{
    if hs.len() == 0 {
        m
    } else {
        apply_hint(replay_hints(m, hs.drop_last()), hs.last().0, hs.last().1)
    }
}

/// After a replay, a key whose last hint is a write points at that write,
/// and a key whose last hint is a deletion is absent: the most recent write
/// of each key wins, however the writes are spread over segments.
pub proof fn lemma_last_write_wins(m: Map<Seq<u8>, Location>, hs: Seq<(u32, HintView)>, i: int)
    requires
        0 <= i < hs.len(),
        forall|j: int| i < j < hs.len() ==> (#[trigger] hs[j]).1.key != hs[i].1.key,
    ensures
        hs[i].1.value_size == TOMBSTONE ==> !replay_hints(m, hs).contains_key(hs[i].1.key),
        hs[i].1.value_size != TOMBSTONE ==> replay_hints(m, hs).contains_key(hs[i].1.key)
            && replay_hints(m, hs)[hs[i].1.key] == location_of(hs[i].0, hs[i].1),
    decreases hs.len(),
{
    if i < hs.len() - 1 {
        let p = hs.drop_last();
        assert forall|j: int| i < j < p.len() implies (#[trigger] p[j]).1.key != p[i].1.key by {
            assert(p[j] == hs[j]);
        }
        lemma_last_write_wins(m, p, i);
        assert(hs.last() == hs[hs.len() - 1]);
    }
}

/// The keys whose index entry points into segment `file_id`.
pub open spec fn references(m: Map<Seq<u8>, Location>, file_id: u32) -> bool {
    exists|k: Seq<u8>| m.contains_key(k) && (#[trigger] m[k]).file_id == file_id
}

/// Whether two byte strings are equal.
pub fn bytes_eq(a: &[u8], b: &[u8]) -> (r: bool)
    ensures
        r == (a@ == b@),
{
    if a.len() != b.len() {
        return false;
    }
    let mut i: usize = 0;
    while i < a.len()
        invariant
            i <= a@.len(),
            a@.len() == b@.len(),
            forall|j: int| 0 <= j < i ==> a@[j] == b@[j],
        decreases a@.len() - i,
    {
        if a[i] != b[i] {
            return false;
        }
        i = i + 1;
    }
    assert(a@ =~= b@);
    true
}

/// The in-memory index: each live key with the location of its latest write.
pub struct KeyDir {
    keys: Vec<Vec<u8>>,
    locs: Vec<Location>,
}

impl KeyDir {
    pub closed spec fn wf(&self) -> bool {
        &&& self.keys@.len() == self.locs@.len()
        &&& forall|i: int, j: int|
            0 <= i < j < self.keys@.len() ==> (#[trigger] self.keys@[i])@ != (#[trigger] self.keys@[j])@
    }

    closed spec fn has(&self, k: Seq<u8>) -> bool {
        exists|i: int| 0 <= i < self.keys@.len() && (#[trigger] self.keys@[i])@ == k
    }

    pub closed spec fn view(&self) -> Map<Seq<u8>, Location> {
        Map::new(
            |k: Seq<u8>| self.has(k),
            |k: Seq<u8>|
                self.locs@[choose|i: int| 0 <= i < self.keys@.len() && (#[trigger] self.keys@[i])@ == k],
        )
    }

    proof fn lemma_at(&self, i: int)
        requires
            self.wf(),
            0 <= i < self.keys@.len(),
        ensures
            self.view().contains_key(self.keys@[i]@),
            self.view()[self.keys@[i]@] == self.locs@[i],
    {
        let k = self.keys@[i]@;
        assert(self.has(k));
        let j = choose|j: int| 0 <= j < self.keys@.len() && (#[trigger] self.keys@[j])@ == k;
        if j != i {
            if j < i {
                assert(self.keys@[j]@ != self.keys@[i]@);
            } else {
                assert(self.keys@[i]@ != self.keys@[j]@);
            }
        }
    }

    pub fn new() -> (r: KeyDir)
        ensures
            r.wf(),
            r.view() == Map::<Seq<u8>, Location>::empty(),
    {
        let r = KeyDir { keys: Vec::new(), locs: Vec::new() };
        assert(r.view() =~= Map::<Seq<u8>, Location>::empty());
        r
    }

    fn find(&self, key: &[u8]) -> (r: Option<usize>)
        requires
            self.wf(),
        ensures
            match r {
                Some(i) => i < self.keys@.len() && self.keys@[i as int]@ == key@,
                None => !self.view().contains_key(key@),
            },
    {
        let mut i: usize = 0;
        while i < self.keys.len()
            invariant
                i <= self.keys@.len(),
                forall|j: int| 0 <= j < i ==> (#[trigger] self.keys@[j])@ != key@,
            decreases self.keys@.len() - i,
        {
            if bytes_eq(self.keys[i].as_slice(), key) {
                return Some(i);
            }
            i = i + 1;
        }
        None
    }

    /// The location of `key`'s latest write, if it is live.
    pub fn get(&self, key: &[u8]) -> (r: Option<Location>)
        requires
            self.wf(),
        ensures
            r == (if self.view().contains_key(key@) {
                Some(self.view()[key@])
            } else {
                None
            }),
    {
        match self.find(key) {
            None => None,
            Some(i) => {
                proof {
                    self.lemma_at(i as int);
                }
                Some(self.locs[i])
            },
        }
    }

    pub fn len(&self) -> (r: usize)
        requires
            self.wf(),
        ensures
            r == self.view().len(),
    {
        proof {
            self.lemma_len();
        }
        self.keys.len()
    }

    proof fn lemma_len(&self)
        requires
            self.wf(),
        ensures
            self.view().dom().len() == self.keys@.len(),
            self.view().dom().finite(),
    {
        let ks = self.keys@.map_values(|v: Vec<u8>| v@);
        assert(self.view().dom() =~= ks.to_set()) by {
            assert forall|k: Seq<u8>| self.view().dom().contains(k) <==> ks.to_set().contains(k) by {
                if self.has(k) {
                    let i = choose|i: int| 0 <= i < self.keys@.len() && (#[trigger] self.keys@[i])@ == k;
                    assert(ks[i] == k);
                }
                if ks.contains(k) {
                    let i = choose|i: int| 0 <= i < ks.len() && ks[i] == k;
                    assert(self.keys@[i]@ == k);
                }
            }
        }
        assert(ks.no_duplicates()) by {
            assert forall|i: int, j: int| 0 <= i < ks.len() && 0 <= j < ks.len() && i != j implies ks[i] != ks[j] by {
                if i < j {
                    assert(self.keys@[i]@ != self.keys@[j]@);
                } else {
                    assert(self.keys@[j]@ != self.keys@[i]@);
                }
            }
        }
        ks.unique_seq_to_set();
    }

    /// Points `key` at `loc`.
    pub fn insert(&mut self, key: Vec<u8>, loc: Location)
        requires
            old(self).wf(),
        ensures
            final(self).wf(),
            final(self).view() == old(self).view().insert(key@, loc),
    {
        match self.find(key.as_slice()) {
            Some(i) => {
                let ghost o = *self;
                self.locs.set(i, loc);
                proof {
                    o.lemma_at(i as int);
                    assert forall|k: Seq<u8>| #[trigger] self.view().contains_key(k) implies self.view()[k]
                        == o.view().insert(key@, loc)[k] by {
                        let j = choose|j: int| 0 <= j < self.keys@.len() && (#[trigger] self.keys@[j])@ == k;
                        self.lemma_at(j);
                        if j != i {
                            o.lemma_at(j);
                        }
                    }
                    assert(self.view() =~= o.view().insert(key@, loc));
                }
            },
            None => {
                let ghost o = *self;
                let ghost kv = key@;
                self.keys.push(key);
                self.locs.push(loc);
                proof {
                    let n = o.keys@.len() as int;
                    assert(self.keys@[n]@ == kv);
                    assert forall|i: int, j: int|
                        0 <= i < j < self.keys@.len() implies (#[trigger] self.keys@[i])@ != (
                        #[trigger] self.keys@[j])@ by {
                        if j == n {
                            assert(o.keys@[i] == self.keys@[i]);
                            if o.keys@[i]@ == kv {
                                o.lemma_at(i);
                            }
                        } else {
                            assert(o.keys@[i] == self.keys@[i] && o.keys@[j] == self.keys@[j]);
                        }
                    }
                    assert forall|k: Seq<u8>| #[trigger] self.view().contains_key(k) <==> o.view().insert(kv, loc).contains_key(k) by {
                        if self.has(k) {
                            let j = choose|j: int| 0 <= j < self.keys@.len() && (#[trigger] self.keys@[j])@ == k;
                            if j < n {
                                assert(o.keys@[j] == self.keys@[j]);
                            }
                        }
                        if o.has(k) {
                            let j = choose|j: int| 0 <= j < o.keys@.len() && (#[trigger] o.keys@[j])@ == k;
                            assert(o.keys@[j] == self.keys@[j]);
                        }
                        if k == kv {
                            assert(self.keys@[n]@ == kv);
                        }
                    }
                    assert forall|k: Seq<u8>| #[trigger] self.view().contains_key(k) implies self.view()[k]
                        == o.view().insert(kv, loc)[k] by {
                        let j = choose|j: int| 0 <= j < self.keys@.len() && (#[trigger] self.keys@[j])@ == k;
                        self.lemma_at(j);
                        if j < n {
                            assert(o.keys@[j] == self.keys@[j]);
                            o.lemma_at(j);
                        }
                    }
                    assert(self.view() =~= o.view().insert(kv, loc));
                }
            },
        }
    }

    /// Removes `key`.
    pub fn remove(&mut self, key: &[u8])
        requires
            old(self).wf(),
        ensures
            final(self).wf(),
            final(self).view() == old(self).view().remove(key@),
    {
        match self.find(key) {
            None => {
                assert(self.view() =~= self.view().remove(key@));
            },
            Some(i) => {
                let ghost o = *self;
                let n: usize = self.keys.len() - 1;
                self.keys.swap_remove(i);
                self.locs.swap_remove(i);
                proof {
                    assert(self.keys@ =~= o.keys@.update(i as int, o.keys@[n as int]).drop_last());
                    assert(self.locs@ =~= o.locs@.update(i as int, o.locs@[n as int]).drop_last());
                    // position in the old vectors of the key now at j
                    assert forall|a: int, b: int|
                        0 <= a < b < self.keys@.len() implies (#[trigger] self.keys@[a])@ != (
                        #[trigger] self.keys@[b])@ by {
                        let oa = if a == i { n as int } else { a };
                        let ob = if b == i { n as int } else { b };
                        assert(self.keys@[a] == o.keys@[oa]);
                        assert(self.keys@[b] == o.keys@[ob]);
                        if oa < ob {
                            assert(o.keys@[oa]@ != o.keys@[ob]@);
                        } else {
                            assert(o.keys@[ob]@ != o.keys@[oa]@);
                        }
                    }
                    assert forall|k: Seq<u8>| #[trigger] self.view().contains_key(k) <==> o.view().remove(key@).contains_key(k) by {
                        if self.has(k) {
                            let j = choose|j: int| 0 <= j < self.keys@.len() && (#[trigger] self.keys@[j])@ == k;
                            let oj = if j == i { n as int } else { j };
                            assert(self.keys@[j] == o.keys@[oj]);
                            o.lemma_at(oj);
                            o.lemma_at(i as int);
                        }
                        if o.has(k) && k != key@ {
                            let j = choose|j: int| 0 <= j < o.keys@.len() && (#[trigger] o.keys@[j])@ == k;
                            if j == n {
                                assert(self.keys@[i as int] == o.keys@[j]);
                            } else {
                                assert(self.keys@[j] == o.keys@[j]);
                            }
                        }
                    }
                    assert forall|k: Seq<u8>| #[trigger] self.view().contains_key(k) implies self.view()[k]
                        == o.view().remove(key@)[k] by {
                        let j = choose|j: int| 0 <= j < self.keys@.len() && (#[trigger] self.keys@[j])@ == k;
                        let oj = if j == i { n as int } else { j };
                        assert(self.keys@[j] == o.keys@[oj]);
                        self.lemma_at(j);
                        o.lemma_at(oj);
                    }
                    assert(self.view() =~= o.view().remove(key@));
                }
            },
        }
    }

    /// Whether some key points into segment `file_id`.
    pub fn references(&self, file_id: u32) -> (r: bool)
        requires
            self.wf(),
        ensures
            r == references(self.view(), file_id),
    {
        let mut i: usize = 0;
        while i < self.locs.len()
            invariant
                self.wf(),
                i <= self.locs@.len(),
                forall|j: int| 0 <= j < i ==> (#[trigger] self.locs@[j]).file_id != file_id,
            decreases self.locs@.len() - i,
        {
            if self.locs[i].file_id == file_id {
                proof {
                    self.lemma_at(i as int);
                }
                return true;
            }
            i = i + 1;
        }
        proof {
            if references(self.view(), file_id) {
                let k = choose|k: Seq<u8>| self.view().contains_key(k) && (#[trigger] self.view()[k]).file_id == file_id;
                let j = choose|j: int| 0 <= j < self.keys@.len() && (#[trigger] self.keys@[j])@ == k;
                self.lemma_at(j);
            }
        }
        false
    }

    /// Replays hint `h` of segment `file_id`.
    pub fn apply_hint(&mut self, file_id: u32, h: &Hint)
        requires
            old(self).wf(),
        ensures
            final(self).wf(),
            final(self).view() == apply_hint(old(self).view(), file_id, h@),
    {
        if h.value_size == TOMBSTONE {
            self.remove(h.key.as_slice());
        } else {
            let key = crate::bytes::copy_range(h.key.as_slice(), 0, h.key.len());
            assert(key@ =~= h.key@);
            self.insert(
                key,
                Location {
                    file_id,
                    entry_pos: h.entry_pos,
                    value_size: h.value_size,
                    timestamp: h.timestamp,
                },
            );
        }
    }
}

} // verus!
