//! The simulated cluster driven over a perfect network held by the test:
//! everything sent on one tick arrives on the next, in order. Scripted
//! scenarios for elections, replication, partitions, crashes and restarts,
//! with the safety checker run after every tick.

use landsraad::{
    Breach, Cluster, Entry, MemStorage, Message, NodeId, Outgoing, ProposeError, Role, Stats,
    Storage, Violation,
};

struct Net {
    c: Cluster<MemStorage>,
    in_flight: Vec<(NodeId, Outgoing)>,
}

impl Net {
    fn new(n: usize, seed: u64) -> Net {
        let disks = (0..n).map(|_| MemStorage::new()).collect();
        Net {
            c: Cluster::new(n, seed, (150, 300), 50, disks),
            in_flight: Vec::new(),
        }
    }

    fn send(&mut self, from: NodeId, out: Vec<Outgoing>) {
        self.in_flight.extend(out.into_iter().map(|o| (from, o)));
    }

    fn step(&mut self) -> Result<(), Violation> {
        self.c.advance();
        let arriving = std::mem::take(&mut self.in_flight);
        for (from, o) in arriving {
            let to = o.to;
            assert!(self.c.can_deliver(from, to, &o.message));
            let out = self.c.deliver(from, to, Some(o.message), false);
            self.send(to, out);
        }
        for i in 0..self.c.node_count() {
            assert!(self.c.can_tick(i));
            let out = self.c.tick_node(i);
            self.send(i, out);
        }
        self.c.check()
    }

    fn run(&mut self, ticks: u64) -> Result<(), Violation> {
        for _ in 0..ticks {
            self.step()?;
        }
        Ok(())
    }

    fn propose(&mut self, command: &[u8]) -> Result<(NodeId, u64), ProposeError> {
        assert!(self.c.can_propose());
        let (l, index, out) = self.c.propose(command.to_vec())?;
        self.send(l, out);
        Ok((l, index))
    }

    fn wait_for_leader(&mut self, max_ticks: u64) -> NodeId {
        for _ in 0..max_ticks {
            self.step().unwrap();
            if let Some(l) = self.c.leader() {
                return l;
            }
        }
        panic!("no leader within {max_ticks} ticks");
    }
}

fn commands(log: &[Entry]) -> Vec<Vec<u8>> {
    log.iter().map(|e| e.command.clone()).collect()
}

#[test]
fn a_new_cluster_has_every_node_up_and_nothing_counted() {
    let net = Net::new(3, 1);
    assert_eq!(net.c.node_count(), 3);
    assert_eq!(net.c.now(), 0);
    assert_eq!(net.c.stats(), Stats::default());
    assert!(net.c.committed().is_empty());
    assert_eq!(net.c.leader(), None);
    for i in 0..3 {
        assert!(net.c.is_up(i));
        let n = net.c.node(i).unwrap();
        assert_eq!(n.id(), i);
        assert_eq!(n.role(), Role::Follower);
    }
}

#[test]
fn a_clean_cluster_elects_one_leader_and_commits_client_commands_everywhere() {
    let mut net = Net::new(3, 1);
    let leader = net.wait_for_leader(1000);
    for i in 0..5 {
        let (l, index) = net.propose(format!("v{i}").as_bytes()).unwrap();
        assert_eq!(l, leader);
        assert_eq!(index, 2 + i);
    }
    net.run(500).unwrap();
    let committed = commands(net.c.committed());
    assert_eq!(committed.len(), 6, "no-op plus five commands: {committed:?}");
    assert!(committed[0].is_empty());
    assert_eq!(committed[1], b"v0");
    for i in 0..3 {
        assert_eq!(net.c.node(i).unwrap().commit_index(), 6, "node {i}");
    }
    let leaders = (0..3)
        .filter(|&i| net.c.node(i).unwrap().role() == Role::Leader)
        .count();
    assert_eq!(leaders, 1);
    let s = net.c.stats();
    assert_eq!(s.proposals_accepted, 5);
    assert_eq!(s.terms_with_a_leader, 1);
    assert!(s.delivered <= s.sent);
    assert_eq!(s.dropped_by_partition, 0);
}

#[test]
fn the_same_seed_reproduces_the_same_run_and_another_may_not() {
    let run = |seed: u64| {
        let mut net = Net::new(5, seed);
        net.wait_for_leader(2000);
        net.propose(b"x").unwrap();
        net.run(300).unwrap();
        (net.c.stats(), net.c.committed().to_vec(), net.c.leader())
    };
    assert_eq!(run(42), run(42));
}

#[test]
fn without_a_leader_a_proposal_is_refused() {
    let mut net = Net::new(3, 2);
    assert_eq!(
        net.c.propose(b"early".to_vec()).unwrap_err(),
        ProposeError::NotLeader(None)
    );
    assert_eq!(net.c.stats().proposals_accepted, 0);
}

#[test]
fn an_isolated_leader_cannot_commit_and_its_entry_is_overwritten_after_healing() {
    let mut net = Net::new(3, 7);
    let old = net.wait_for_leader(1000);
    net.propose(b"before").unwrap();
    net.run(300).unwrap();
    assert!(net.c.committed().len() >= 2);

    net.c.isolate(old);
    let (l, _) = net.propose(b"doomed").unwrap();
    assert_eq!(l, old, "the stranded leader still accepts the write");
    net.run(1500).unwrap();
    let new = (0..3)
        .filter(|&i| i != old)
        .find(|&i| net.c.node(i).unwrap().role() == Role::Leader)
        .expect("the majority side elects a new leader");
    assert!(net.c.node(new).unwrap().term() > net.c.node(old).unwrap().term());
    assert_eq!(net.c.leader(), Some(new), "the newest leader is the one chosen");
    assert!(!commands(net.c.committed()).contains(&b"doomed".to_vec()));
    assert!(net.c.stats().dropped_by_partition > 0);

    net.propose(b"after").unwrap();
    net.run(300).unwrap();
    net.c.heal();
    net.run(1000).unwrap();
    for i in 0..3 {
        let log = commands(net.c.node(i).unwrap().log());
        assert!(!log.contains(&b"doomed".to_vec()), "node {i} kept a doomed entry");
        assert!(log.contains(&b"after".to_vec()), "node {i} missed a committed entry");
    }
    assert_eq!(net.c.node(old).unwrap().role(), Role::Follower);
}

#[test]
fn a_partition_into_sides_cuts_only_links_between_the_sides() {
    let mut net = Net::new(3, 5);
    net.wait_for_leader(1000);
    net.run(10).unwrap();
    // Nodes 0 and 1 together, node 2 alone: the majority side keeps going.
    net.c.partition(&[false, false, true]);
    net.run(1000).unwrap();
    let l = net.c.leader().unwrap();
    assert!(l == 0 || l == 1);
    let (_, index) = net.propose(b"majority").unwrap();
    net.run(200).unwrap();
    assert!(net.c.node(0).unwrap().commit_index() >= index);
    assert!(net.c.node(1).unwrap().commit_index() >= index);
    assert!(net.c.node(2).unwrap().commit_index() < index);
    net.c.heal();
    net.run(500).unwrap();
    assert!(net.c.node(2).unwrap().commit_index() >= index);
}

#[test]
fn committed_entries_survive_crashing_every_node() {
    let mut net = Net::new(3, 3);
    net.wait_for_leader(1000);
    for i in 0..4 {
        net.propose(format!("k{i}").as_bytes()).unwrap();
    }
    net.run(400).unwrap();
    let before = net.c.committed().to_vec();
    assert!(before.len() >= 5);
    for i in 0..3 {
        net.c.crash(i);
        assert!(!net.c.is_up(i));
    }
    net.c.crash(0); // crashing a crashed node changes nothing
    assert_eq!(net.c.stats().crashes, 3);
    assert_eq!(net.c.leader(), None);
    net.run(50).unwrap();
    for i in 0..3 {
        net.c.restart(i).unwrap(); // the durability check runs inside restart
    }
    net.c.restart(1).unwrap(); // restarting a live node changes nothing
    assert_eq!(net.c.stats().restarts, 3);
    net.wait_for_leader(2000);
    net.propose(b"post-crash").unwrap();
    net.run(500).unwrap();
    assert!(net.c.committed().len() > before.len());
    assert_eq!(&net.c.committed()[..before.len()], &before[..]);
}

#[test]
fn quiesce_heals_and_restarts_every_crashed_node() {
    let mut net = Net::new(3, 9);
    net.wait_for_leader(1000);
    net.c.isolate(0);
    net.c.crash(1);
    net.c.crash(2);
    net.c.quiesce().unwrap();
    for i in 0..3 {
        assert!(net.c.is_up(i));
    }
    assert_eq!(net.c.stats().restarts, 2);
    net.wait_for_leader(2000);
    net.propose(b"healed").unwrap();
    net.run(300).unwrap();
    assert_eq!(net.c.stats().dropped_by_partition, 0);
    for i in 0..3 {
        assert!(commands(net.c.node(i).unwrap().log()).contains(&b"healed".to_vec()));
    }
}

#[test]
fn a_node_restarted_on_an_empty_disk_is_reported_as_having_lost_committed_entries() {
    let mut net = Net::new(3, 4);
    net.wait_for_leader(1000);
    net.propose(b"kept").unwrap();
    net.run(300).unwrap();
    let commit = net.c.node(2).unwrap().commit_index();
    assert!(commit >= 2);
    net.c.crash(2);
    let v = net.c.restart_with(2, MemStorage::new()).unwrap_err();
    assert_eq!(
        v,
        Violation {
            tick: net.c.now(),
            breach: Breach::LostCommittedEntries { node: 2, commit },
        }
    );
}

#[test]
fn a_node_restarted_on_a_disk_holding_its_log_passes_the_durability_check() {
    let mut net = Net::new(3, 4);
    net.wait_for_leader(1000);
    net.propose(b"kept").unwrap();
    net.run(300).unwrap();
    let log = net.c.node(2).unwrap().log().to_vec();
    let term = net.c.node(2).unwrap().term();
    net.c.crash(2);
    let mut disk = MemStorage::new();
    disk.save_hard_state(term, None);
    disk.append(&log);
    net.c.restart_with(2, disk).unwrap();
    assert_eq!(net.c.node(2).unwrap().log(), &log[..]);
}

#[test]
fn a_datagram_for_a_crashed_node_or_one_that_does_not_decode_is_counted_and_dropped() {
    let mut net = Net::new(3, 6);
    net.c.crash(1);
    let hello = Message::VoteResponse {
        term: 0,
        granted: false,
    };
    assert!(net.c.deliver(0, 1, Some(hello.clone()), false).is_empty());
    assert!(net.c.deliver(0, 2, None, false).is_empty());
    let s = net.c.stats();
    assert_eq!(s.dropped_to_crashed_node, 1);
    assert_eq!(s.rejected_by_codec, 1);
    assert_eq!(s.delivered, 0);
    assert!(net.c.deliver(0, 2, Some(hello), false).is_empty());
    assert_eq!(net.c.stats().delivered, 1);
}

#[test]
fn a_crash_right_after_handling_keeps_what_was_persisted_and_sends_nothing() {
    let mut net = Net::new(3, 8);
    let vote = Message::RequestVote {
        term: 4,
        last_log_index: 0,
        last_log_term: 0,
    };
    let out = net.c.deliver(0, 1, Some(vote), true);
    assert!(out.is_empty(), "the reply is lost with the node");
    assert!(!net.c.is_up(1));
    assert_eq!(net.c.stats().crashes, 1);
    net.c.restart(1).unwrap();
    let n = net.c.node(1).unwrap();
    assert_eq!(n.term(), 4);
    assert_eq!(n.voted_for(), Some(0), "the vote was persisted before the crash");
}

/// A hostile network and fault schedule drawn from a seed: messages are
/// lost, duplicated and delayed; nodes crash (also right after handling a
/// message) and restart; partitions come and go; clients propose.
struct Chaos {
    c: Cluster<MemStorage>,
    rng: landsraad::Rng,
    /// (arrival tick, from, message)
    in_flight: Vec<(u64, NodeId, Outgoing)>,
    next_command: u64,
}

impl Chaos {
    fn new(n: usize, seed: u64) -> Chaos {
        let disks = (0..n).map(|_| MemStorage::new()).collect();
        Chaos {
            c: Cluster::new(n, seed, (150, 300), 50, disks),
            rng: landsraad::Rng::new(seed ^ 0x5EED),
            in_flight: Vec::new(),
            next_command: 0,
        }
    }

    /// True with probability `per_mille / 1000`.
    fn chance(&mut self, per_mille: usize) -> bool {
        self.rng.below(1000) < per_mille
    }

    fn send(&mut self, from: NodeId, out: Vec<Outgoing>, lossy: bool) {
        let now = self.c.now();
        for o in out {
            if lossy && self.chance(100) {
                continue;
            }
            let delay = 1 + if lossy { self.rng.below(10) as u64 } else { 0 };
            if lossy && self.chance(50) {
                self.in_flight.push((now + delay + 3, from, o.clone()));
            }
            self.in_flight.push((now + delay, from, o));
        }
    }

    fn step(&mut self, chaos: bool) -> Result<(), Violation> {
        let n = self.c.node_count();
        self.c.advance();
        let now = self.c.now();
        if chaos {
            if self.chance(5) {
                let i = self.rng.below(n);
                self.c.crash(i);
            }
            if self.chance(20) {
                let i = self.rng.below(n);
                self.c.restart(i)?;
            }
            if self.chance(5) {
                let side: Vec<bool> = (0..n).map(|_| self.rng.below(2) == 1).collect();
                self.c.partition(&side);
            }
            if self.chance(20) {
                self.c.heal();
            }
            if self.chance(100) {
                let cmd = format!("cmd{}", self.next_command).into_bytes();
                if let Ok((l, _, out)) = self.c.propose(cmd) {
                    self.next_command += 1;
                    self.send(l, out, chaos);
                }
            }
        }
        let (due, later): (Vec<_>, Vec<_>) =
            std::mem::take(&mut self.in_flight).into_iter().partition(|m| m.0 <= now);
        self.in_flight = later;
        for (_, from, o) in due {
            let to = o.to;
            assert!(self.c.can_deliver(from, to, &o.message));
            let crash_after = chaos && self.c.is_up(to) && self.chance(1);
            let out = self.c.deliver(from, to, Some(o.message), crash_after);
            self.send(to, out, chaos);
        }
        for i in 0..n {
            let out = self.c.tick_node(i);
            self.send(i, out, chaos);
        }
        self.c.check()
    }
}

#[test]
fn churn_across_seeds_never_breaks_safety_and_the_cluster_recovers_after_it() {
    for seed in 0..6u64 {
        let n = if seed % 2 == 0 { 3 } else { 5 };
        let mut x = Chaos::new(n, seed);
        for _ in 0..3000 {
            x.step(true).unwrap_or_else(|v| panic!("seed {seed}: {v:?}"));
        }
        assert!(x.c.stats().crashes > 0, "seed {seed}: the test must crash nodes");
        x.c.quiesce().unwrap();
        let mut leader = None;
        for _ in 0..2000 {
            x.step(false).unwrap();
            if let Some(l) = x.c.leader() {
                leader = Some(l);
                break;
            }
        }
        assert!(leader.is_some(), "seed {seed}: no leader after the chaos");
        let (_, index, out) = x.c.propose(b"sync".to_vec()).unwrap();
        let l = leader.unwrap();
        x.send(l, out, false);
        let mut done = false;
        for _ in 0..2000 {
            x.step(false).unwrap();
            if (0..n).all(|i| x.c.node(i).unwrap().commit_index() >= index) {
                done = true;
                break;
            }
        }
        assert!(done, "seed {seed}: the command did not commit everywhere");
    }
}
