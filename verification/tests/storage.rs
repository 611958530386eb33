use landsraad::{Entry, MemStorage, Persistent, Storage, Term};

fn e(term: Term, c: &[u8]) -> Entry {
    Entry {
        term,
        command: c.to_vec(),
    }
}

fn exercise<S: Storage>(s: &mut S) {
    assert_eq!(s.load(), Persistent::default());
    s.save_hard_state(3, Some(2));
    s.append(&[e(1, b"a"), e(1, b""), e(2, b"c")]);
    s.truncate_from(3);
    s.append(&[e(3, b"d")]);
    s.save_hard_state(4, None);
    assert_eq!(
        s.load(),
        Persistent {
            term: 4,
            voted_for: None,
            log: vec![e(1, b"a"), e(1, b""), e(3, b"d")]
        }
    );
    s.truncate_from(1);
    assert!(s.load().log.is_empty());
    s.truncate_from(1);
    s.append(&[e(9, b"z")]);
    assert_eq!(s.load().log, vec![e(9, b"z")]);
}

#[test]
fn mem_storage_behaves() {
    exercise(&mut MemStorage::new());
}

#[test]
fn truncating_past_the_end_or_at_zero() {
    let mut s = MemStorage::new();
    s.append(&[e(1, b"a"), e(2, b"b")]);
    s.truncate_from(9);
    assert_eq!(s.snapshot().log.len(), 2);
    s.truncate_from(0);
    assert!(s.snapshot().log.is_empty());
}

#[test]
fn a_snapshot_is_what_was_stored() {
    let mut s = MemStorage::new();
    s.save_hard_state(5, Some(1));
    s.append(&[e(5, b"q")]);
    let p = s.snapshot();
    assert_eq!((p.term, p.voted_for, p.log), (5, Some(1), vec![e(5, b"q")]));
}

#[test]
fn a_clone_starts_with_the_same_state_and_is_written_separately() {
    let mut a = MemStorage::new();
    a.save_hard_state(5, Some(1));
    a.append(&[e(1, b"x")]);
    let b = a.clone();
    assert_eq!(b.snapshot(), a.snapshot());
    assert_eq!(b.snapshot().clone(), a.snapshot());
    a.save_hard_state(6, None);
    assert_eq!(b.snapshot().term, 5);
}
