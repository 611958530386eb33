//! The safety checker on hand-built nodes: each breach on a state that
//! has it, and what the checker remembers on states that have none.

use landsraad::{
    Breach, Checker, Config, Entry, MemStorage, Message, Node, NodeId, Role, Storage, Term,
    Violation,
};

fn e(term: Term, c: &[u8]) -> Entry {
    Entry {
        term,
        command: c.to_vec(),
    }
}

fn cfg(id: NodeId, n: usize) -> Config {
    let mut c = Config::new(id, n, 1);
    c.election_timeout = (100, 100);
    c
}

/// A node booted from a disk holding `term` and `log`.
fn node(id: NodeId, n: usize, term: Term, log: &[Entry]) -> Node<MemStorage> {
    let mut d = MemStorage::new();
    d.save_hard_state(term, None);
    d.append(log);
    Node::new(cfg(id, n), d, 0)
}

/// A one-node cluster that has elected itself at tick 100 and so
/// committed its own no-op, after booting from `term` and `log`.
fn lone_leader(term: Term, log: &[Entry]) -> Node<MemStorage> {
    let mut n = node(0, 1, term, log);
    assert!(n.tick(100).is_empty());
    assert_eq!(n.role(), Role::Leader);
    n
}

#[test]
fn a_quiet_cluster_passes_and_nothing_is_learned() {
    let mut c = Checker::new(3);
    let nodes = vec![Some(node(0, 3, 0, &[])), None, Some(node(2, 3, 0, &[]))];
    assert_eq!(c.check(1, &nodes), Ok(()));
    assert!(c.committed().is_empty());
    assert_eq!(c.terms_with_a_leader(), 0);
    assert_eq!(c.max_commit_seen(0), 0);
}

#[test]
fn a_leader_and_what_it_committed_are_remembered() {
    let mut c = Checker::new(2);
    let nodes = vec![Some(lone_leader(0, &[])), None];
    assert_eq!(c.check(1, &nodes), Ok(()));
    assert_eq!(c.terms_with_a_leader(), 1);
    assert_eq!(c.committed(), &[e(1, b"")][..]);
    assert_eq!(c.max_commit_seen(0), 1);
    assert_eq!(c.max_commit_seen(1), 0);
    // The same leader again is no breach.
    assert_eq!(c.check(2, &nodes), Ok(()));
    assert_eq!(c.terms_with_a_leader(), 1);
}

#[test]
fn a_term_that_goes_backwards_is_a_breach() {
    let mut c = Checker::new(1);
    assert_eq!(c.check(1, &vec![Some(node(0, 1, 3, &[]))]), Ok(()));
    assert_eq!(
        c.check(2, &vec![Some(node(0, 1, 1, &[]))]),
        Err(Violation {
            tick: 2,
            breach: Breach::TermWentBackwards {
                node: 0,
                from: 3,
                to: 1
            }
        })
    );
}

#[test]
fn two_leaders_of_one_term_are_a_breach() {
    let mut c = Checker::new(2);
    let nodes = vec![Some(lone_leader(0, &[])), Some(lone_leader(0, &[]))];
    assert_eq!(
        c.check(5, &nodes),
        Err(Violation {
            tick: 5,
            breach: Breach::TwoLeaders {
                first: 0,
                second: 1,
                term: 1
            }
        })
    );
}

#[test]
fn a_leader_of_a_term_already_led_by_another_node_is_a_breach() {
    let mut c = Checker::new(2);
    assert_eq!(c.check(1, &vec![Some(lone_leader(0, &[])), None]), Ok(()));
    assert_eq!(
        c.check(2, &vec![None, Some(lone_leader(0, &[]))]),
        Err(Violation {
            tick: 2,
            breach: Breach::TwoLeaders {
                first: 0,
                second: 1,
                term: 1
            }
        })
    );
}

#[test]
fn two_different_entries_committed_at_one_index_are_a_breach() {
    let mut c = Checker::new(2);
    // Node 0 committed its term-1 no-op; node 1, from term 1 on disk,
    // committed its term-2 no-op at the same index.
    let nodes = vec![Some(lone_leader(0, &[])), Some(lone_leader(1, &[]))];
    assert_eq!(
        c.check(3, &nodes),
        Err(Violation {
            tick: 3,
            breach: Breach::CommittedEntryDiffers { node: 1, index: 1 }
        })
    );
}

#[test]
fn logs_that_agree_on_a_term_but_differ_before_it_are_a_breach() {
    let mut c = Checker::new(2);
    let nodes = vec![
        Some(node(0, 2, 2, &[e(1, b"a"), e(2, b"b")])),
        Some(node(1, 2, 2, &[e(1, b"c"), e(2, b"b")])),
    ];
    assert_eq!(
        c.check(4, &nodes),
        Err(Violation {
            tick: 4,
            breach: Breach::LogMismatch { a: 0, b: 1, index: 2 }
        })
    );
}

#[test]
fn a_leader_missing_an_earlier_committed_entry_is_a_breach() {
    let mut c = Checker::new(2);
    // Node 0 commits [t1 no-op, t1 "x"]; later node 1 leads term 3 with
    // a log that lacks "x".
    let mut a = lone_leader(0, &[]);
    a.propose(100, b"x".to_vec()).unwrap();
    assert_eq!(c.check(1, &vec![Some(a), None]), Ok(()));
    assert_eq!(c.committed().len(), 2);
    // Node 1, of a three-node cluster, wins term 3 with one vote; nothing
    // of its term is replicated, so it commits nothing.
    let mut b = node(1, 3, 2, &[e(1, b"")]);
    b.tick(100);
    b.handle(
        100,
        0,
        Message::VoteResponse {
            term: 3,
            granted: true,
        },
    );
    assert_eq!(b.role(), Role::Leader);
    assert_eq!(b.commit_index(), 0);
    assert_eq!(
        c.check(2, &vec![None, Some(b)]),
        Err(Violation {
            tick: 2,
            breach: Breach::LeaderLacksCommitted {
                node: 1,
                term: 3,
                index: 2
            }
        })
    );
}

#[test]
fn a_restarted_node_must_still_hold_what_it_committed() {
    let mut c = Checker::new(1);
    let mut a = lone_leader(0, &[]);
    a.propose(100, b"x".to_vec()).unwrap();
    assert_eq!(c.check(1, &vec![Some(a)]), Ok(()));
    assert_eq!(c.check_recovered(2, 0, &[e(1, b""), e(1, b"x")]), Ok(()));
    assert_eq!(
        c.check_recovered(2, 0, &[e(1, b""), e(1, b"y")]),
        Err(Violation {
            tick: 2,
            breach: Breach::LostCommittedEntries { node: 0, commit: 2 }
        })
    );
    assert!(c.check_recovered(3, 0, &[e(1, b"")]).is_err());
}

#[test]
fn entries_compare_by_term_and_command() {
    assert!(landsraad::checker::entry_eq(&e(1, b"a"), &e(1, b"a")));
    assert!(!landsraad::checker::entry_eq(&e(1, b"a"), &e(2, b"a")));
    assert!(!landsraad::checker::entry_eq(&e(1, b"a"), &e(1, b"ab")));
}

#[test]
fn after_a_breach_the_checker_keeps_what_it_learned_before_it() {
    // Node 0 leads term 1 and is recorded; node 1 leading term 1 too is
    // the breach, and nothing after it is looked at.
    let mut c = Checker::new(2);
    let nodes = vec![Some(lone_leader(0, &[])), Some(lone_leader(0, &[]))];
    assert!(c.check(1, &nodes).is_err());
    assert_eq!(c.terms_with_a_leader(), 1);
    assert!(c.committed().is_empty(), "committed prefixes come after the term rules");
    assert_eq!(c.max_commit_seen(0), 0);

    // Node 0's committed no-op is merged before node 1's differs.
    let mut c = Checker::new(2);
    let nodes = vec![Some(lone_leader(0, &[])), Some(lone_leader(1, &[]))];
    assert!(c.check(1, &nodes).is_err());
    assert_eq!(c.terms_with_a_leader(), 2);
    assert_eq!(c.committed(), &[e(1, b"")][..]);
    assert_eq!(c.max_commit_seen(0), 1);
    assert_eq!(c.max_commit_seen(1), 0);
}
