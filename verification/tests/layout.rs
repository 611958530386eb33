//! The on-disk layout of a node's state, over an ordered map standing in
//! for the store: what each write is, that a scan of what was written
//! loads back, and how damage is reported.

use std::collections::BTreeMap;

use landsraad::layout::{
    decode_hard_state, decode_log, encode_entry_value, encode_hard_state, entry_key, DiskLog,
    LayoutError, ENTRY_PREFIX, HARD_STATE_KEY, NO_VOTE,
};
use landsraad::{Entry, Term};

fn e(term: Term, c: &[u8]) -> Entry {
    Entry {
        term,
        command: c.to_vec(),
    }
}

/// A store: the entry keys in order, as a prefix scan returns them.
#[derive(Default)]
struct Store {
    map: BTreeMap<Vec<u8>, Vec<u8>>,
    log: Option<DiskLog>,
}

impl Store {
    fn open() -> Store {
        let mut s = Store::default();
        s.log = Some(DiskLog::at(s.scan().len() as u64));
        s
    }
    fn scan(&self) -> Vec<(Vec<u8>, Vec<u8>)> {
        self.map
            .iter()
            .filter(|(k, _)| k.first() == Some(&ENTRY_PREFIX))
            .map(|(k, v)| (k.clone(), v.clone()))
            .collect()
    }
    fn append(&mut self, entries: &[Entry]) {
        for (k, v) in self.log.as_mut().unwrap().append(entries) {
            self.map.insert(k, v);
        }
    }
    fn truncate_from(&mut self, index: u64) {
        for k in self.log.as_mut().unwrap().truncate_from(index) {
            self.map.remove(&k);
        }
    }
    fn load(&self) -> Vec<Entry> {
        decode_log(&self.scan()).unwrap()
    }
}

#[test]
fn keys_and_values_have_the_documented_bytes() {
    assert_eq!(HARD_STATE_KEY, b'h');
    assert_eq!(ENTRY_PREFIX, b'e');
    assert_eq!(entry_key(1), vec![b'e', 0, 0, 0, 0, 0, 0, 0, 1]);
    assert_eq!(entry_key(0x0102), vec![b'e', 0, 0, 0, 0, 0, 0, 1, 2]);
    assert_eq!(
        encode_entry_value(&e(2, b"xy")),
        vec![2, 0, 0, 0, 0, 0, 0, 0, b'x', b'y']
    );
    let mut hs = vec![5, 0, 0, 0, 0, 0, 0, 0];
    hs.extend([3, 0, 0, 0, 0, 0, 0, 0]);
    assert_eq!(encode_hard_state(5, Some(3)), hs);
    assert_eq!(encode_hard_state(5, None)[8..], NO_VOTE.to_le_bytes());
}

#[test]
fn the_hard_state_loads_back_and_damage_is_reported() {
    assert_eq!(decode_hard_state(None), Ok((0, None)));
    assert_eq!(
        decode_hard_state(Some(encode_hard_state(7, Some(2)).as_slice())),
        Ok((7, Some(2)))
    );
    assert_eq!(
        decode_hard_state(Some(encode_hard_state(7, None).as_slice())),
        Ok((7, None))
    );
    assert_eq!(
        decode_hard_state(Some(&[1u8, 2, 3][..])),
        Err(LayoutError::CorruptHardState)
    );
}

#[test]
fn a_damaged_log_is_reported_where_it_is_damaged() {
    let good = (entry_key(1), encode_entry_value(&e(1, b"a")));
    let gap = (entry_key(3), encode_entry_value(&e(1, b"c")));
    assert_eq!(
        decode_log(&[good.clone(), gap]),
        Err(LayoutError::LogGap(1))
    );
    let short = (entry_key(2), vec![1, 2, 3]);
    assert_eq!(
        decode_log(&[good.clone(), short]),
        Err(LayoutError::CorruptEntry(1))
    );
    assert_eq!(decode_log(&[]), Ok(vec![]));
}

#[test]
fn appends_and_truncations_load_back_as_the_log() {
    let mut s = Store::open();
    assert!(s.load().is_empty());
    s.append(&[e(1, b"a"), e(1, b""), e(2, b"c")]);
    assert_eq!(s.log.as_ref().unwrap().last_index(), 3);
    s.truncate_from(3);
    s.append(&[e(3, b"d")]);
    assert_eq!(s.load(), vec![e(1, b"a"), e(1, b""), e(3, b"d")]);
    s.truncate_from(1);
    assert!(s.load().is_empty());
    assert_eq!(s.log.as_ref().unwrap().last_index(), 0);
    s.truncate_from(1);
    s.append(&[e(9, b"z")]);
    assert_eq!(s.load(), vec![e(9, b"z")]);
}

#[test]
fn appending_writes_each_entry_under_the_next_index() {
    let mut d = DiskLog::at(4);
    let w = d.append(&[e(2, b"p"), e(3, b"")]);
    assert_eq!(
        w,
        vec![
            (entry_key(5), encode_entry_value(&e(2, b"p"))),
            (entry_key(6), encode_entry_value(&e(3, b""))),
        ]
    );
    assert_eq!(d.last_index(), 6);
    assert!(d.append(&[]).is_empty());
    assert_eq!(d.last_index(), 6);
}

#[test]
fn truncating_deletes_from_the_index_to_the_end_and_past_the_end_nothing() {
    let mut d = DiskLog::at(5);
    assert!(d.truncate_from(6).is_empty());
    assert_eq!(d.last_index(), 5);
    assert_eq!(d.truncate_from(4), vec![entry_key(4), entry_key(5)]);
    assert_eq!(d.last_index(), 3);
    assert_eq!(
        d.truncate_from(0),
        vec![entry_key(0), entry_key(1), entry_key(2), entry_key(3)]
    );
    assert_eq!(d.last_index(), 0);
}

#[test]
fn entry_keys_sort_as_their_indices() {
    let idx = [0u64, 1, 2, 255, 256, 257, 65_535, 65_536, 1 << 40, u64::MAX - 1, u64::MAX];
    for &i in &idx {
        for &j in &idx {
            assert_eq!(i < j, entry_key(i) < entry_key(j), "{i} vs {j}");
            assert_eq!(i == j, entry_key(i) == entry_key(j));
        }
    }
}
