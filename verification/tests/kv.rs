use landsraad::{replay, Command, Entry, Store};

fn entry(c: Command) -> Entry {
    Entry {
        term: 1,
        command: c.encode(),
    }
}

#[test]
fn put_get_overwrite_delete() {
    let mut s = Store::new();
    let put = |k: &str, v: &str| {
        entry(Command::Put {
            key: k.into(),
            value: v.into(),
        })
    };
    s.apply(&put("a", "1"));
    s.apply(&put("a", "2"));
    s.apply(&put("b", ""));
    assert_eq!(s.get(b"a"), Some(&b"2"[..]));
    assert_eq!(s.get(b"b"), Some(&b""[..]));
    s.apply(&entry(Command::Delete { key: b"a".to_vec() }));
    assert_eq!(s.get(b"a"), None);
    assert_eq!(s.len(), 1);
}

#[test]
fn empty_and_malformed_commands_are_ignored() {
    let mut s = Store::new();
    for c in [
        vec![],
        vec![9],
        vec![1],
        vec![1, 255, 255, 255, 255, 1],
        vec![1, 3, 0, 0, 0, 1],
    ] {
        s.apply(&Entry {
            term: 1,
            command: c,
        });
    }
    assert!(s.is_empty());
}

#[test]
fn commands_round_trip_including_awkward_keys() {
    for c in [
        Command::Put {
            key: vec![],
            value: vec![],
        },
        Command::Put {
            key: vec![0, 1, 2],
            value: vec![9; 40],
        },
        Command::Delete { key: vec![] },
        Command::Delete { key: vec![1, 2, 3] },
    ] {
        assert_eq!(Command::decode(&c.encode()), Some(c));
    }
}

#[test]
fn encodings_have_the_documented_layout() {
    let put = Command::Put {
        key: vec![7, 8],
        value: vec![9],
    };
    assert_eq!(put.encode(), vec![1, 2, 0, 0, 0, 7, 8, 9]);
    let del = Command::Delete { key: vec![5] };
    assert_eq!(del.encode(), vec![2, 5]);
    assert_eq!(
        Command::decode(&[1, 1, 0, 0, 0, 4]),
        Some(Command::Put {
            key: vec![4],
            value: vec![]
        })
    );
    assert_eq!(Command::decode(&[3]), None);
}

#[test]
fn iteration_is_in_key_order() {
    let mut s = Store::new();
    for k in [&b"b"[..], &b"a"[..], &b"ab"[..], &b""[..], &b"c"[..]] {
        s.apply(&entry(Command::Put {
            key: k.to_vec(),
            value: k.to_vec(),
        }));
    }
    let keys: Vec<&[u8]> = s.iter().into_iter().map(|(k, _)| k).collect();
    assert_eq!(keys, vec![&b""[..], &b"a"[..], &b"ab"[..], &b"b"[..], &b"c"[..]]);
    assert_eq!(s.len(), 5);
}

#[test]
fn replay_composes_over_prefixes() {
    let cmds = vec![
        Command::Put { key: b"x".to_vec(), value: b"1".to_vec() },
        Command::Put { key: b"y".to_vec(), value: b"2".to_vec() },
        Command::Delete { key: b"x".to_vec() },
        Command::Put { key: b"y".to_vec(), value: b"3".to_vec() },
    ];
    let mut entries: Vec<Entry> = cmds.into_iter().map(entry).collect();
    entries.insert(1, Entry { term: 1, command: vec![] });
    let full = replay(&entries);
    for cut in 0..=entries.len() {
        let mut incremental = replay(&entries[..cut]);
        entries[cut..].iter().for_each(|e| incremental.apply(e));
        assert_eq!(incremental, full);
    }
    assert_eq!(full.get(b"x"), None);
    assert_eq!(full.get(b"y"), Some(&b"3"[..]));
    assert_eq!(full.len(), 1);
}

#[test]
fn a_clone_holds_the_same_pairs_and_then_goes_its_own_way() {
    let mut s = Store::new();
    s.apply(&entry(Command::Put {
        key: b"k".to_vec(),
        value: b"v".to_vec(),
    }));
    let c = s.clone();
    assert_eq!(c, s);
    s.apply(&entry(Command::Delete { key: b"k".to_vec() }));
    assert_eq!(c.get(b"k"), Some(&b"v"[..]));
    assert!(s.is_empty());
}
