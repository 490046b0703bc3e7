use vstd::prelude::*;

use crate::bytes::{append_bytes, lemma_pow256_eight, push_le};
use crate::data::{
    encode_entry, entry_size, entry_wf, lemma_encode_entry_len, lemma_entry_round_trip,
    parse_entry, Entry, EntryView,
};
use crate::hash::checksum;
use crate::hint::{
    all_hints_wf, encode_hint, encode_hints, hint_file, hint_of, hint_wf,
    lemma_hint_file_round_trip, parse_hints, read_hint_file, Hint, HintView,
};

verus! {

/// The entries of a data file region `b` that starts at offset `base`, each
/// with its offset, in order, up to the first that does not decode.
pub open spec fn replay_entries(b: Seq<u8>, base: nat) -> Seq<(nat, EntryView)>
    decreases b.len(),
{
    if b.len() == 0 {
        Seq::empty()
    } else {
        match parse_entry(b) {
            Ok((e, n)) => if 0 < n <= b.len() {
                seq![(base, e)] + replay_entries(b.skip(n as int), base + n)
            } else {
                Seq::empty()
            },
            Err(_) => Seq::empty(),
        }
    }
}

/// The hints of positioned entries.
pub open spec fn hints_of(r: Seq<(nat, EntryView)>) -> Seq<HintView> {
    r.map_values(|p: (nat, EntryView)| hint_of(p.1, p.0 as u64))
}

/// The bytes of a data file that holds `es` back to back.
pub open spec fn data_of(es: Seq<EntryView>) -> Seq<u8>
    decreases es.len(),
{
    if es.len() == 0 {
        Seq::empty()
    } else {
        encode_entry(es[0]) + data_of(es.drop_first())
    }
}

/// `es` with the offset at which each is appended, the first at `base`.
pub open spec fn positioned(es: Seq<EntryView>, base: nat) -> Seq<(nat, EntryView)>
    decreases es.len(),
{
    if es.len() == 0 {
        Seq::empty()
    } else {
        seq![(base, es[0])] + positioned(es.drop_first(), base + entry_size(es[0]))
    }
}

pub open spec fn all_entries_wf(es: Seq<EntryView>) -> bool {
    forall|i: int| 0 <= i < es.len() ==> entry_wf(#[trigger] es[i])
}

proof fn lemma_replay_data(es: Seq<EntryView>, base: nat)
    requires
        all_entries_wf(es),
    ensures
        replay_entries(data_of(es), base) == positioned(es, base),
        data_of(es).len() == positioned_end(es, base) - base,
    decreases es.len(),
{
    if es.len() > 0 {
        let e = es[0];
        let rest = es.drop_first();
        assert(all_entries_wf(rest)) by {
            assert forall|i: int| 0 <= i < rest.len() implies entry_wf(#[trigger] rest[i]) by {
                assert(rest[i] == es[i + 1]);
            }
        }
        lemma_replay_data(rest, base + entry_size(e));
        lemma_entry_round_trip(e, data_of(rest));
        lemma_encode_entry_len(e);
        let b = data_of(es);
        assert(b.skip(entry_size(e) as int) =~= data_of(rest));
    }
}

/// Where the data of `es` ends when it starts at `base`.
pub open spec fn positioned_end(es: Seq<EntryView>, base: nat) -> nat
    decreases es.len(),
{
    if es.len() == 0 {
        base
    } else {
        positioned_end(es.drop_first(), base + entry_size(es[0]))
    }
}

proof fn lemma_hints_of_wf(es: Seq<EntryView>, base: nat)
    requires
        all_entries_wf(es),
    ensures
        all_hints_wf(hints_of(positioned(es, base))),
        hints_of(positioned(es, base)).len() == es.len(),
    decreases es.len(),
{
    if es.len() > 0 {
        let rest = es.drop_first();
        assert(all_entries_wf(rest)) by {
            assert forall|i: int| 0 <= i < rest.len() implies entry_wf(#[trigger] rest[i]) by {
                assert(rest[i] == es[i + 1]);
            }
        }
        lemma_hints_of_wf(rest, base + entry_size(es[0]));
        let all = hints_of(positioned(es, base));
        let tail = hints_of(positioned(rest, base + entry_size(es[0])));
        assert(all =~= seq![hint_of(es[0], base as u64)] + tail);
        assert forall|i: int| 0 <= i < all.len() implies hint_wf(#[trigger] all[i]) by {
            if i > 0 {
                assert(all[i] == tail[i - 1]);
            }
        }
    }
}

/// Rebuilding the hints of a segment from its data file gives the hints that
/// were written live while its entries were appended, in the same order; and
/// the hint file written live reads back as exactly those hints.
pub proof fn lemma_hint_fidelity(es: Seq<EntryView>)
    requires
        all_entries_wf(es),
    ensures
        hints_of(replay_entries(data_of(es), 0)) == hints_of(positioned(es, 0)),
        read_hint_file(hint_file(encode_hints(hints_of(positioned(es, 0))))) == Some(
            hints_of(replay_entries(data_of(es), 0)),
        ),
{
    lemma_replay_data(es, 0);
    lemma_hints_of_wf(es, 0);
    lemma_hint_file_round_trip(hints_of(positioned(es, 0)));
}

/// The entries of a data file, decoded one at a time in file order.
pub struct Entries {
    data: Vec<u8>,
    pos: usize,
    done: bool,
}

impl Entries {
    /// Reads the whole of `data`, the contents of a data file.
    pub fn new(data: Vec<u8>) -> (r: Entries)
        ensures
            r.wf(),
            r.remaining() == replay_entries(data@, 0),
    {
        let r = Entries { data, pos: 0, done: false };
        assert(r.data@.skip(0) =~= r.data@);
        r
    }

    pub closed spec fn wf(&self) -> bool {
        self.pos <= self.data@.len()
    }

    /// The entries, with their offsets, that are still to come.
    pub closed spec fn remaining(&self) -> Seq<(nat, EntryView)> {
        if self.done {
            Seq::empty()
        } else {
            replay_entries(self.data@.skip(self.pos as int), self.pos as nat)
        }
    }

    /// The next entry and its offset; `None` at the end of the data or at the
    /// first record that does not decode, after which nothing more comes.
    pub fn next(&mut self) -> (r: Option<(u64, Entry)>)
        requires
            old(self).wf(),
        ensures
            final(self).wf(),
            match r {
                None => old(self).remaining().len() == 0 && final(self).remaining().len() == 0,
                Some((pos, e)) => {
                    &&& old(self).remaining().len() > 0
                    &&& old(self).remaining()[0] == (pos as nat, e@)
                    &&& final(self).remaining() == old(self).remaining().drop_first()
                    &&& entry_wf(e@)
                },
            },
    {
        if self.done || self.pos == self.data.len() {
            self.done = true;
            return None;
        }
        let ghost b = self.data@.skip(self.pos as int);
        match Entry::from_bytes(self.data.as_slice(), self.pos) {
            Err(_) => {
                self.done = true;
                None
            },
            Ok((e, n)) => {
                let at = self.pos;
                assert(b.skip(n as int) =~= self.data@.skip(at + n));
                self.pos = at + n as usize;
                proof {
                    let tail = replay_entries(b.skip(n as int), (at + n) as nat);
                    assert((seq![(at as nat, e@)] + tail).drop_first() =~= tail);
                }
                Some((at as u64, e))
            },
        }
    }
}

/// The hints of a hint file whose checksum matched, decoded in file order.
pub struct Hints {
    payload: Vec<u8>,
    pos: usize,
}

impl Hints {
    pub closed spec fn wf(&self) -> bool {
        &&& self.pos <= self.payload@.len()
        &&& parse_hints(self.payload@.skip(self.pos as int)) is Some
    }

    /// The hints that are still to come.
    pub closed spec fn remaining(&self) -> Seq<HintView> {
        parse_hints(self.payload@.skip(self.pos as int))->Some_0
    }

    /// Reads a hint file; `None` exactly where the file is not a valid one.
    pub fn new(file: &[u8]) -> (r: Option<Hints>)
        ensures
            match r {
                Some(h) => h.wf() && read_hint_file(file@) == Some(h.remaining()),
                None => read_hint_file(file@) is None,
            },
    {
        match crate::hint::decode_hint_file(file) {
            None => None,
            Some(_) => {
                let len = file.len();
                let payload = crate::bytes::copy_range(file, 0, len - 4);
                let h = Hints { payload, pos: 0 };
                assert(h.payload@.skip(0) =~= h.payload@);
                Some(h)
            },
        }
    }

    /// The next hint, or `None` once all are read.
    pub fn next(&mut self) -> (r: Option<Hint>)
        requires
            old(self).wf(),
        ensures
            final(self).wf(),
            match r {
                None => old(self).remaining().len() == 0 && final(self).remaining().len() == 0,
                Some(h) => {
                    &&& old(self).remaining().len() > 0
                    &&& old(self).remaining()[0] == h@
                    &&& final(self).remaining() == old(self).remaining().drop_first()
                },
            },
    {
        if self.pos == self.payload.len() {
            assert(self.payload@.skip(self.pos as int) =~= Seq::<u8>::empty());
            return None;
        }
        let ghost b = self.payload@.skip(self.pos as int);
        match Hint::from_bytes(self.payload.as_slice(), self.pos) {
            None => {
                None
            },
            Some((h, n)) => {
                let at = self.pos;
                assert(b.skip(n as int) =~= self.payload@.skip(at + n));
                self.pos = at + n as usize;
                proof {
                    let tail = parse_hints(b.skip(n as int))->Some_0;
                    assert((seq![h@] + tail).drop_first() =~= tail);
                }
                Some(h)
            },
        }
    }
}

/// Rebuilds the hint file of a segment from its data file: each hint is
/// handed out as it is derived, and `finish` gives the whole new hint file.
pub struct RecreateHints {
    entries: Entries,
    payload: Vec<u8>,
    all: Ghost<Seq<(nat, EntryView)>>,
}

impl RecreateHints {
    pub fn new(data: Vec<u8>) -> (r: RecreateHints)
        ensures
            r.wf(),
            r.rebuilt() == hints_of(replay_entries(data@, 0)),
            r.remaining() == r.rebuilt(),
    {
        let entries = Entries::new(data);
        let ghost all = entries.remaining();
        let r = RecreateHints { entries, payload: Vec::new(), all: Ghost(all) };
        assert(all.skip(0) =~= all);
        assert(r.payload@ + encode_hints(hints_of(entries.remaining())) =~= encode_hints(hints_of(all)));
        r
    }

    pub closed spec fn wf(&self) -> bool {
        &&& self.entries.wf()
        &&& self.payload@ + encode_hints(hints_of(self.entries.remaining())) == encode_hints(
            hints_of(self.all@),
        )
        &&& exists|k: int| 0 <= k <= self.all@.len() && self.entries.remaining() =~= self.all@.skip(k)
    }

    /// The hints of the whole data file, those handed out and those to come.
    pub closed spec fn rebuilt(&self) -> Seq<HintView> {
        hints_of(self.all@)
    }

    /// The hints still to be handed out.
    pub closed spec fn remaining(&self) -> Seq<HintView> {
        hints_of(self.entries.remaining())
    }

    /// The next rebuilt hint, or `None` once all are handed out.
    pub fn next(&mut self) -> (r: Option<Hint>)
        requires
            old(self).wf(),
        ensures
            final(self).wf(),
            final(self).rebuilt() == old(self).rebuilt(),
            match r {
                None => old(self).remaining().len() == 0 && final(self).remaining().len() == 0,
                Some(h) => {
                    &&& old(self).remaining().len() > 0
                    &&& old(self).remaining()[0] == h@
                    &&& final(self).remaining() == old(self).remaining().drop_first()
                },
            },
    {
        let ghost rem = self.entries.remaining();
        match self.entries.next() {
            None => None,
            Some((pos, e)) => {
                let h = Hint::from_entry(&e, pos);
                let bytes = h.to_bytes();
                let ghost before = self.payload@;
                append_bytes(&mut self.payload, bytes.as_slice());
                proof {
                    assert(hints_of(rem) =~= seq![h@] + hints_of(rem.drop_first()));
                    assert(encode_hints(hints_of(rem)) == encode_hint(h@) + encode_hints(
                        hints_of(rem.drop_first()),
                    )) by {
                        assert(hints_of(rem).drop_first() =~= hints_of(rem.drop_first()));
                    }
                    assert(self.payload@ + encode_hints(hints_of(rem.drop_first())) =~= before
                        + encode_hints(hints_of(rem)));
                    let k = choose|k: int| 0 <= k <= self.all@.len() && rem =~= self.all@.skip(k);
                    assert(self.entries.remaining() =~= self.all@.skip(k + 1));
                    assert(hints_of(rem).drop_first() =~= hints_of(rem.drop_first()));
                }
                Some(h)
            },
        }
    }

    /// Hands out what is left, then gives the rebuilt hint file: the hints
    /// of the whole data file followed by their checksum.
    pub fn finish(self) -> (r: Vec<u8>)
        requires
            self.wf(),
        ensures
            r@ == hint_file(encode_hints(self.rebuilt())),
    {
        let mut s = self;
        loop
            invariant
                s.wf(),
                s.rebuilt() == self.rebuilt(),
            ensures
                s.wf(),
                s.rebuilt() == self.rebuilt(),
                s.remaining().len() == 0,
            decreases s.remaining().len(),
        {
            match s.next() {
                None => break,
                Some(_) => {},
            }
        }
        assert(hints_of(s.entries.remaining()) =~= Seq::<HintView>::empty());
        assert(encode_hints(hints_of(s.entries.remaining())) =~= Seq::<u8>::empty());
        assert(s.payload@ =~= encode_hints(self.rebuilt()));
        let sum = checksum(s.payload.as_slice());
        let mut r = s.payload;
        proof {
            lemma_pow256_eight();
        }
        push_le(&mut r, sum as u64, 4);
        r
    }
}

} // verus!
