use std::collections::BTreeMap;

use cask::index::{KeyDir, Location};
use cask::log::{Append, Log};
use cask::{read_value, Cask, Entry, Hint};

/// Segment files kept in memory: id -> (data file, hint file).
#[derive(Default)]
struct Disk {
    segs: BTreeMap<u32, (Vec<u8>, Vec<u8>)>,
}

impl Disk {
    fn apply(&mut self, a: Append) {
        if let Some((id, trailer)) = a.sealed {
            self.segs.get_mut(&id).unwrap().1.extend(trailer);
        }
        let seg = self.segs.entry(a.file_id).or_default();
        assert_eq!(seg.0.len() as u64, a.offset);
        seg.0.extend(a.data);
        seg.1.extend(a.hint);
    }

    fn open(&mut self, now: u32, threshold: u64) -> Cask {
        let existing: Vec<u32> = self.segs.keys().copied().collect();
        let log = Log::open_with_threshold(&existing, now, false, threshold).unwrap();
        let mut c = Cask { log, keydir: KeyDir::new() };
        let current = c.log.current_file_id();
        for id in c.log.files() {
            if id == current {
                continue;
            }
            let (data, hint) = self.segs[&id].clone();
            if let Some(rebuilt) = c.recover_segment(id, &hint, data) {
                self.segs.get_mut(&id).unwrap().1 = rebuilt;
            }
        }
        self.segs.insert(current, (Vec::new(), Vec::new()));
        c
    }

    fn close(&mut self, c: Cask) {
        let id = c.log.current_file_id();
        self.segs.get_mut(&id).unwrap().1.extend(c.log.seal());
    }

    fn get(&self, c: &Cask, key: &[u8]) -> Option<Vec<u8>> {
        c.keydir
            .get(key)
            .map(|l| read_value(key, &self.segs[&l.file_id].0, l.entry_pos).unwrap())
    }
}

fn put(disk: &mut Disk, c: &mut Cask, k: &[u8], v: &[u8], now: u32) {
    let a = c.put(k.to_vec(), v.to_vec(), now).unwrap();
    disk.apply(a);
}

fn del(disk: &mut Disk, c: &mut Cask, k: &[u8], now: u32) {
    let a = c.delete(k.to_vec(), now).unwrap();
    disk.apply(a);
}

#[test]
fn restart_after_put_and_delete() {
    let mut disk = Disk::default();
    let mut c = disk.open(1000, 100 * 1024 * 1024);
    put(&mut disk, &mut c, b"a", b"1", 1000);
    put(&mut disk, &mut c, b"b", b"2", 1000);
    del(&mut disk, &mut c, b"a", 1000);
    disk.close(c);
    let c = disk.open(1000, 100 * 1024 * 1024);
    assert_eq!(disk.get(&c, b"a"), None);
    assert_eq!(disk.get(&c, b"b"), Some(b"2".to_vec()));
    assert_eq!(c.log.files(), vec![1000, 1001]);
}

#[test]
fn last_write_wins_across_rotations() {
    let mut disk = Disk::default();
    let mut c = disk.open(10, 30);
    put(&mut disk, &mut c, b"k", b"v1", 10);
    put(&mut disk, &mut c, b"k", b"v2", 11);
    del(&mut disk, &mut c, b"k", 12);
    put(&mut disk, &mut c, b"k", b"v3", 13);
    assert!(c.log.files().len() >= 3);
    assert_eq!(disk.get(&c, b"k"), Some(b"v3".to_vec()));
    disk.close(c);
    let c = disk.open(14, 30);
    assert_eq!(disk.get(&c, b"k"), Some(b"v3".to_vec()));
    assert_eq!(c.keydir.len(), 1);
}

#[test]
fn recovery_from_data_when_hint_file_missing() {
    let mut disk = Disk::default();
    let mut c = disk.open(10, 1024);
    put(&mut disk, &mut c, b"x", b"1", 10);
    put(&mut disk, &mut c, b"y", b"2", 10);
    let live_hint = {
        let mut h = disk.segs[&10].1.clone();
        h.extend(c.log.seal());
        h
    };
    disk.close(c);
    disk.segs.get_mut(&10).unwrap().1 = vec![1, 2];
    let c = disk.open(20, 1024);
    assert_eq!(disk.get(&c, b"x"), Some(b"1".to_vec()));
    assert_eq!(disk.get(&c, b"y"), Some(b"2".to_vec()));
    assert_eq!(disk.segs[&10].1, live_hint);
}

#[test]
fn recovery_from_data_when_hint_file_corrupt() {
    let mut disk = Disk::default();
    let mut c = disk.open(10, 1024);
    put(&mut disk, &mut c, b"x", b"1", 10);
    disk.close(c);
    disk.segs.get_mut(&10).unwrap().1[0] ^= 0xff;
    let c = disk.open(20, 1024);
    assert_eq!(disk.get(&c, b"x"), Some(b"1".to_vec()));
}

#[test]
fn rebuilt_hints_match_live_hints() {
    let mut log = Log::open_with_threshold(&vec![], 5, false, 1 << 20).unwrap();
    let mut data = Vec::new();
    let mut live = Vec::new();
    let entries = vec![
        Entry::new(b"one".to_vec(), b"1".to_vec(), 1),
        Entry::deleted(b"two".to_vec(), 2),
        Entry::new(b"three".to_vec(), b"333".to_vec(), 3),
    ];
    for e in &entries {
        let a = log.write_entry(e, 5).unwrap();
        assert!(a.sealed.is_none());
        data.extend(a.data);
        live.extend(a.hint);
    }
    live.extend(log.seal());
    let mut r = log.recreate_hints(data.clone());
    let first = r.next().unwrap();
    assert_eq!(first.key, b"one".to_vec());
    assert_eq!(first.entry_pos, 0);
    // abandoned after one hint: finish still writes the whole file
    assert_eq!(r.finish(), live);
    let mut r = log.recreate_hints(data);
    let mut got: Vec<Hint> = Vec::new();
    while let Some(h) = r.next() {
        got.push(h);
    }
    assert_eq!(got.len(), 3);
    assert_eq!(got[1].entry_pos, 20);
    assert!(got[1].is_deleted());
    assert_eq!(got[2].entry_pos, 20 + 19);
    assert_eq!(r.finish(), live);
    let mut hs = log.hints(&live).unwrap();
    assert_eq!(hs.next().unwrap().key, b"one".to_vec());
}

#[test]
fn entries_stop_at_partial_record() {
    let log = Log::open(&vec![], 5, false).unwrap();
    let mut data = Entry::new(b"a".to_vec(), b"1".to_vec(), 1).to_bytes();
    let second = Entry::new(b"b".to_vec(), b"2".to_vec(), 1).to_bytes();
    data.extend(&second[..7]);
    let mut it = log.entries(data);
    let (pos, e) = it.next().unwrap();
    assert_eq!(pos, 0);
    assert_eq!(e.key, b"a".to_vec());
    assert!(it.next().is_none());
    assert!(it.next().is_none());
}

#[test]
fn rotation_creates_one_greater_segment() {
    let mut log = Log::open_with_threshold(&vec![], 100, false, 50).unwrap();
    let e = Entry::new(b"key".to_vec(), vec![0; 11], 1);
    assert_eq!(e.size(), 30);
    let a = log.write_entry(&e, 100).unwrap();
    assert!(a.sealed.is_none());
    assert_eq!((a.file_id, a.offset), (100, 0));
    let b = log.write_entry(&e, 100).unwrap();
    let (sealed_id, trailer) = b.sealed.unwrap();
    assert_eq!(sealed_id, 100);
    assert_eq!(trailer.len(), 4);
    assert_eq!((b.file_id, b.offset), (101, 0));
    assert_eq!(log.files(), vec![100, 101]);
    let c = log.write_entry(&e, 500).unwrap();
    assert_eq!((c.file_id, c.offset), (500, 0));
    assert_eq!(log.files(), vec![100, 101, 500]);
}

#[test]
fn entry_fills_segment_exactly() {
    let mut log = Log::open_with_threshold(&vec![], 7, false, 60).unwrap();
    let e = Entry::new(b"key".to_vec(), vec![0; 11], 1);
    log.write_entry(&e, 7).unwrap();
    let b = log.write_entry(&e, 7).unwrap();
    assert!(b.sealed.is_none());
    assert_eq!(b.offset, 30);
}

#[test]
fn open_orders_existing_segments() {
    let log = Log::open(&vec![9, 3, 5, 3], 4, true).unwrap();
    assert_eq!(log.files(), vec![3, 5, 9, 10]);
    assert_eq!(log.current_file_id(), 10);
    let log = Log::open(&vec![9, 3], 20, true).unwrap();
    assert_eq!(log.files(), vec![3, 9, 20]);
    assert!(Log::open(&vec![u32::MAX], 20, true).is_none());
}

#[test]
fn no_segment_id_left() {
    let mut log = Log::open_with_threshold(&vec![], u32::MAX, false, 20).unwrap();
    let e = Entry::new(b"k".to_vec(), b"v".to_vec(), 1);
    let a = log.write_entry(&e, 0).unwrap();
    assert!(a.sealed.is_none());
    assert!(log.write_entry(&e, 0).is_none());
    assert_eq!(log.files(), vec![u32::MAX]);
}

#[test]
fn sync_flag_is_carried() {
    let mut log = Log::open(&vec![], 1, true).unwrap();
    let a = log.write_entry(&Entry::new(vec![1], vec![2], 1), 1).unwrap();
    assert!(a.sync);
}

#[test]
fn merge_keeps_live_values_and_drops_superseded_segments() {
    let mut disk = Disk::default();
    let mut c = disk.open(100, 40);
    put(&mut disk, &mut c, b"a", b"1", 100);
    put(&mut disk, &mut c, b"b", b"2", 100);
    put(&mut disk, &mut c, b"a", b"3", 100);
    put(&mut disk, &mut c, b"c", b"4", 100);
    put(&mut disk, &mut c, b"c", b"5", 100);
    let before: Vec<Option<Vec<u8>>> =
        [b"a", b"b", b"c"].iter().map(|k| disk.get(&c, *k)).collect();
    let sealed = c.merge_candidates(usize::MAX);
    let mut expected = c.log.files();
    expected.pop();
    assert_eq!(sealed, expected);
    assert_eq!(c.merge_candidates(1), vec![sealed[0]]);
    assert!(sealed.len() >= 2);
    for id in &sealed {
        let mut it = c.log.entries(disk.segs[id].0.clone());
        while let Some((pos, e)) = it.next() {
            if let Some(a) = c.merge_entry(*id, pos, &e, 100) {
                disk.apply(a);
            }
        }
    }
    for id in &sealed {
        if c.remove_segment(*id) {
            disk.segs.remove(id);
        }
    }
    for id in &sealed {
        assert!(!disk.segs.contains_key(id));
        assert!(!c.log.files().contains(id));
    }
    let after: Vec<Option<Vec<u8>>> =
        [b"a", b"b", b"c"].iter().map(|k| disk.get(&c, *k)).collect();
    assert_eq!(before, after);
    assert_eq!(after[0], Some(b"3".to_vec()));
}

#[test]
fn segment_with_live_key_is_kept() {
    let mut disk = Disk::default();
    let mut c = disk.open(100, 40);
    put(&mut disk, &mut c, b"a", b"1", 100);
    put(&mut disk, &mut c, b"b", b"2", 100);
    let current = c.log.current_file_id();
    assert!(c.references(100));
    assert!(!c.remove_segment(100));
    assert!(!c.remove_segment(current));
    assert!(c.log.files().contains(&100));
    let e = Entry::new(b"zz".to_vec(), b"1".to_vec(), 1);
    assert!(c.merge_entry(100, 0, &e, 100).is_none());
}

#[test]
fn keydir_operations() {
    let mut kd = KeyDir::new();
    let l1 = Location { file_id: 1, entry_pos: 0, value_size: 1, timestamp: 1 };
    let l2 = Location { file_id: 2, entry_pos: 8, value_size: 2, timestamp: 2 };
    kd.insert(b"a".to_vec(), l1);
    kd.insert(b"b".to_vec(), l1);
    kd.insert(b"a".to_vec(), l2);
    assert_eq!(kd.len(), 2);
    assert_eq!(kd.get(b"a"), Some(l2));
    kd.remove(b"a");
    assert_eq!(kd.get(b"a"), None);
    assert_eq!(kd.get(b"b"), Some(l1));
    kd.remove(b"missing");
    assert_eq!(kd.len(), 1);
    assert!(kd.references(1));
    assert!(!kd.references(2));
}

#[test]
fn recovery_prefers_valid_hint_file() {
    let mut disk = Disk::default();
    let mut c = disk.open(10, 1024);
    put(&mut disk, &mut c, b"x", b"1", 10);
    disk.close(c);
    let log = Log::open(&vec![10], 20, false).unwrap();
    let mut c = Cask { log, keydir: KeyDir::new() };
    let (data, hint) = disk.segs[&10].clone();
    assert!(c.recover_segment(10, &hint, data.clone()).is_none());
    assert_eq!(c.keydir.get(b"x").unwrap().entry_pos, 0);
    let mut c2 = Cask { log: Log::open(&vec![10], 20, false).unwrap(), keydir: KeyDir::new() };
    let rebuilt = c2.recover_segment(10, &[0, 0], data).unwrap();
    assert_eq!(rebuilt, hint);
    assert_eq!(c2.keydir.get(b"x"), c.keydir.get(b"x"));
}

#[test]
fn put_reports_location_and_rotation() {
    let mut c = Cask { log: Log::open_with_threshold(&vec![], 50, false, 40).unwrap(), keydir: KeyDir::new() };
    let a = c.put(b"k".to_vec(), b"v1".to_vec(), 50).unwrap();
    assert_eq!((a.file_id, a.offset), (50, 0));
    assert!(a.sealed.is_none());
    let b = c.put(b"k".to_vec(), b"v2".to_vec(), 50).unwrap();
    assert_eq!((b.file_id, b.offset), (50, 19));
    let d = c.delete(b"k".to_vec(), 50).unwrap();
    assert_eq!(d.sealed.as_ref().unwrap().0, 50);
    assert_eq!((d.file_id, d.offset), (51, 0));
    assert_eq!(c.keydir.get(b"k"), None);
    assert_eq!(c.log.files(), vec![50, 51]);
}
