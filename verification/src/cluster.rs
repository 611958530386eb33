//! The simulated cluster's own logic: its nodes, which links a partition
//! cuts, crashes and restarts, routing, counters, and the safety checker
//! run after every tick. Moving datagrams over the network, and drawing
//! the random fault schedule, is done by its caller: each step here takes
//! what arrived (or what was decided) and hands back what to send.

use vstd::prelude::*;

use crate::checker::{
    breach_holds, checker_after, first_breach, live_leader, next_view, observe, safe, Breach, Checker,
    CheckerView, Observed, Violation,
};
use crate::laws::law_messages_go_to_peers;
use crate::message::{view_entries, Entry, EntryView, Index, Message, NodeId, Term};
use crate::model::{timeouts_ok, Config, NodeState, OutgoingView, ProposeError, Role};
use crate::node::{boot_state, view_outgoing, Node, Outgoing};
use crate::storage::{PersistentView, Storage};

verus! {

/// Counters of what happened during a run.
#[derive(Debug, Clone, Copy, PartialEq, Eq, Structural)]
pub struct Stats {
    pub sent: u64,
    pub delivered: u64,
    pub rejected_by_codec: u64,
    pub dropped_by_partition: u64,
    pub dropped_to_crashed_node: u64,
    pub crashes: u64,
    pub restarts: u64,
    pub proposals_accepted: u64,
    pub terms_with_a_leader: u64,
}

impl Stats {
    /// All counters at zero.
    pub open spec fn zeroed() -> Stats {
        Stats {
            sent: 0,
            delivered: 0,
            rejected_by_codec: 0,
            dropped_by_partition: 0,
            dropped_to_crashed_node: 0,
            crashes: 0,
            restarts: 0,
            proposals_accepted: 0,
            terms_with_a_leader: 0,
        }
    }
}

impl Default for Stats {
    fn default() -> (s: Stats)
        ensures
            s == Stats::zeroed(),
    {
        Stats {
            sent: 0,
            delivered: 0,
            rejected_by_codec: 0,
            dropped_by_partition: 0,
            dropped_to_crashed_node: 0,
            crashes: 0,
            restarts: 0,
            proposals_accepted: 0,
            terms_with_a_leader: 0,
        }
    }
}

/// A counter after counting `k` more: `x + k`, held at the largest `u64`.
pub open spec fn bumped(x: u64, k: int) -> u64 {
    if x + k > u64::MAX {
        u64::MAX
    } else {
        (x + k) as u64
    }
}

fn bump(x: u64) -> (r: u64)
    ensures
        r == bumped(x, 1),
{
    if x < u64::MAX {
        x + 1
    } else {
        x
    }
}

proof fn lemma_bumped_step(x: u64, k: int)
    requires
        k >= 0,
    ensures
        bumped(bumped(x, k), 1) == bumped(x, k + 1),
{
}

/// The messages of `out`, sent by `from`, that no partition stops: those
/// whose link `from -> to` is not blocked.
pub open spec fn unblocked(blocked: Seq<bool>, n: int, from: NodeId, out: Seq<OutgoingView>) -> Seq<
    OutgoingView,
>
    decreases out.len(),
{
    if out.len() == 0 {
        out
    } else {
        let rest = unblocked(blocked, n, from, out.drop_last());
        if blocked[from * n + out.last().to] {
            rest
        } else {
            rest.push(out.last())
        }
    }
}

/// The live leader of the highest term, the last one in node order among
/// equals.
pub open spec fn newest_leader(o: Observed, l: int) -> bool {
    &&& live_leader(o, l)
    &&& forall|j: int|
        #![trigger live_leader(o, j)]
        live_leader(o, j) ==> o[j]->0.term < o[l]->0.term || (o[j]->0.term == o[l]->0.term && j
            <= l)
}

/// The links a partition into two sides cuts: `cut[from * n + to]` holds
/// when `from` and `to` are different nodes on different sides.
pub open spec fn cut(side: Seq<bool>, n: int) -> Seq<bool> {
    Seq::new((n * n) as nat, |k: int| k / n != k % n && side[k / n] != side[k % n])
}

/// A partition cuts the link between two nodes exactly when they are
/// different nodes on different sides, and then in both directions; no
/// node is ever cut off from itself.
pub proof fn law_partition_cuts_both_ways(side: Seq<bool>, n: int, a: int, b: int)
    requires
        0 <= a < n,
        0 <= b < n,
        side.len() >= n,
    ensures
        cut(side, n)[a * n + b] == (a != b && side[a] != side[b]),
        cut(side, n)[a * n + b] == cut(side, n)[b * n + a],
        !cut(side, n)[a * n + a],
{
    assert(a * n + b < n * n && b * n + a < n * n && a * n + a < n * n) by (nonlinear_arith)
        requires
            0 <= a < n,
            0 <= b < n,
    ;
    vstd::arithmetic::div_mod::lemma_fundamental_div_mod_converse(a * n + b, n, a, b);
    vstd::arithmetic::div_mod::lemma_fundamental_div_mod_converse(b * n + a, n, b, a);
    vstd::arithmetic::div_mod::lemma_fundamental_div_mod_converse(a * n + a, n, a, a);
}

/// The cluster as plain values.
pub struct ClusterView {
    pub n: usize,
    pub seed: u64,
    pub election_timeout: (u64, u64),
    pub heartbeat_interval: u64,
    pub now: u64,
    /// `blocked[from * n + to]`: the link `from -> to` is cut.
    pub blocked: Seq<bool>,
    /// The live nodes; `None` for a crashed one.
    pub nodes: Observed,
    /// What a crashed node's storage holds; `None` for a live one.
    pub disks: Seq<Option<PersistentView>>,
    pub stats: Stats,
    pub checker: CheckerView,
}

impl ClusterView {
    /// The configuration node `i` runs with.
    pub open spec fn node_config(self, i: NodeId) -> Config {
        Config {
            id: i,
            cluster_size: self.n,
            election_timeout: self.election_timeout,
            heartbeat_interval: self.heartbeat_interval,
            max_batch: 32,
            seed: self.seed,
        }
    }

    pub open spec fn with_stats(self, stats: Stats) -> ClusterView {
        ClusterView { stats, ..self }
    }

    pub open spec fn with_blocked(self, blocked: Seq<bool>) -> ClusterView {
        ClusterView { blocked, ..self }
    }

    pub open spec fn with_node(self, i: NodeId, s: NodeState) -> ClusterView {
        ClusterView { nodes: self.nodes.update(i as int, Some(s)), ..self }
    }

    pub open spec fn with_checker(self, checker: CheckerView) -> ClusterView {
        ClusterView { checker, ..self }
    }

    /// After node `from` sends `out`: every message counts as sent, and
    /// those on a cut link as dropped.
    pub open spec fn after_route(self, from: NodeId, out: Seq<OutgoingView>) -> ClusterView {
        let kept = unblocked(self.blocked, self.n as int, from, out);
        self.with_stats(
            Stats {
                sent: bumped(self.stats.sent, out.len() as int),
                dropped_by_partition: bumped(
                    self.stats.dropped_by_partition,
                    out.len() - kept.len(),
                ),
                ..self.stats
            },
        )
    }

    /// The cluster with node `i` booted, at the current tick, from `p`.
    pub open spec fn booted(self, i: NodeId, p: PersistentView) -> ClusterView {
        ClusterView {
            nodes: self.nodes.update(i as int, Some(boot_state(self.node_config(i), p, self.now))),
            disks: self.disks.update(i as int, None),
            ..self
        }
    }

    /// The cluster with node `i` crashed, its storage holding `p`.
    pub open spec fn crashed(self, i: NodeId, p: PersistentView) -> ClusterView {
        ClusterView {
            nodes: self.nodes.update(i as int, None),
            disks: self.disks.update(i as int, Some(p)),
            stats: Stats { crashes: bumped(self.stats.crashes, 1), ..self.stats },
            ..self
        }
    }

    /// Whether node `i` has nothing committed before its crash missing
    /// from `log`: the first `min(commit, committed)` entries of the
    /// committed log seen so far.
    pub open spec fn recovered(self, i: NodeId, log: Seq<EntryView>) -> bool {
        let g = self.checker.committed;
        let c = self.checker.max_commit[i as int];
        let known = if c < g.len() {
            c as int
        } else {
            g.len() as int
        };
        g.take(known).is_prefix_of(log)
    }
}

/// The cluster after restarting, in order, the crashed nodes among
/// `0..i`, and whether each still held what it had committed; restarting
/// stops at the first that did not.
pub open spec fn restarted_upto(c: ClusterView, i: int) -> (ClusterView, bool)
    decreases i,
{
    if i <= 0 {
        (c, true)
    } else {
        let (p, ok) = restarted_upto(c, i - 1);
        if !ok {
            (p, false)
        } else {
            match p.disks[i - 1] {
                None => (p, true),
                Some(d) => (
                    p.booted((i - 1) as NodeId, d).with_stats(
                        Stats { restarts: bumped(p.stats.restarts, 1), ..p.stats },
                    ),
                    p.recovered((i - 1) as NodeId, d.log),
                ),
            }
        }
    }
}

/// Once a restart found lost entries, nothing more is restarted.
proof fn lemma_restarts_stop(c: ClusterView, i: int, j: int)
    requires
        0 <= i <= j,
        !restarted_upto(c, i).1,
    ensures
        restarted_upto(c, j) == restarted_upto(c, i),
    decreases j - i,
{
    if j > i {
        lemma_restarts_stop(c, i, j - 1);
    }
}

/// What the storage of each crashed node holds.
pub open spec fn view_disks<S: Storage>(disks: Seq<Option<S>>) -> Seq<Option<PersistentView>> {
    disks.map_values(|d: Option<S>| match d {
        Some(s) => Some(s.persisted()),
        None => None,
    })
}

/// A simulated cluster of `n` nodes over the storage `S`.
pub struct Cluster<S: Storage> {
    n: usize,
    seed: u64,
    election_timeout: (u64, u64),
    heartbeat_interval: u64,
    now: u64,
    blocked: Vec<bool>,
    nodes: Vec<Option<Node<S>>>,
    disks: Vec<Option<S>>,
    stats: Stats,
    checker: Checker,
}

impl<S: Storage> View for Cluster<S> {
    type V = ClusterView;

    closed spec fn view(&self) -> ClusterView {
        ClusterView {
            n: self.n,
            seed: self.seed,
            election_timeout: self.election_timeout,
            heartbeat_interval: self.heartbeat_interval,
            now: self.now,
            blocked: self.blocked@,
            nodes: observe(self.nodes@),
            disks: view_disks(self.disks@),
            stats: self.stats,
            checker: self.checker@,
        }
    }
}

impl<S: Storage> Cluster<S> {
    /// Every node is live with its own configuration, or crashed with its
    /// storage kept; the link table and the checker fit the cluster's size.
    pub closed spec fn wf(&self) -> bool {
        &&& self.nodes@.len() == self.n
        &&& self.disks@.len() == self.n
        &&& self.blocked@.len() == self.n * self.n
        &&& self.n * self.n <= usize::MAX
        &&& self.checker@.max_commit.len() == self.n
        &&& self.checker@.max_term.len() == self.n
        &&& timeouts_ok(self.election_timeout)
        &&& forall|i: int|
            0 <= i < self.n ==> match #[trigger] self.nodes@[i] {
                Some(node) => {
                    &&& node.wf()
                    &&& node@.cfg == self@.node_config(i as NodeId)
                    &&& self.disks@[i] is None
                },
                None => self.disks@[i] matches Some(d) && d.persisted().log.len() < u64::MAX,
            }
    }

    /// A cluster of `n` nodes, each booted at tick 0 from its storage in
    /// `disks`, with no link cut and nothing seen yet.
    pub fn new(
        n: usize,
        seed: u64,
        election_timeout: (u64, u64),
        heartbeat_interval: u64,
        disks: Vec<S>,
    ) -> (c: Cluster<S>)
        requires
            disks@.len() == n,
            n * n <= usize::MAX,
            timeouts_ok(election_timeout),
            forall|i: int| 0 <= i < n ==> (#[trigger] disks@[i]).persisted().log.len() < u64::MAX,
        ensures
            c.wf(),
            c@.n == n,
            c@.seed == seed,
            c@.election_timeout == election_timeout,
            c@.heartbeat_interval == heartbeat_interval,
            c@.now == 0,
            c@.blocked == Seq::new((n * n) as nat, |k: int| false),
            c@.nodes == Seq::new(
                n as nat,
                |i: int| Some(boot_state(c@.node_config(i as NodeId), disks@[i].persisted(), 0)),
            ),
            c@.disks == Seq::new(n as nat, |i: int| None::<PersistentView>),
            c@.stats == Stats::zeroed(),
            c@.checker.leaders == Map::<Term, NodeId>::empty(),
            c@.checker.committed == Seq::<EntryView>::empty(),
            c@.checker.max_commit == Seq::new(n as nat, |i: int| 0 as Index),
            c@.checker.max_term == Seq::new(n as nat, |i: int| 0 as Term),
    {
        let ghost orig = disks@;
        let mut disks = disks;
        let mut nodes: Vec<Option<Node<S>>> = Vec::new();
        let mut kept: Vec<Option<S>> = Vec::new();
        let mut i: usize = 0;
        while i < n
            invariant
                i <= n,
                orig.len() == n,
                disks@ == orig.skip(i as int),
                nodes@.len() == i,
                kept@.len() == i,
                timeouts_ok(election_timeout),
                forall|k: int| 0 <= k < n ==> (#[trigger] orig[k]).persisted().log.len() < u64::MAX,
                forall|k: int|
                    0 <= k < i ==> ((#[trigger] nodes@[k]) matches Some(node) && node.wf() && node@
                        == boot_state(
                        Config {
                            id: k as NodeId,
                            cluster_size: n,
                            election_timeout,
                            heartbeat_interval,
                            max_batch: 32,
                            seed,
                        },
                        orig[k].persisted(),
                        0,
                    )),
                forall|k: int| 0 <= k < i ==> (#[trigger] kept@[k]) is None,
            decreases n - i,
        {
            let storage = disks.remove(0);
            assert(storage == orig[i as int]);
            let mut cfg = Config::new(i, n, seed);
            cfg.election_timeout = election_timeout;
            cfg.heartbeat_interval = heartbeat_interval;
            let node = Node::new(cfg, storage, 0);
            nodes.push(Some(node));
            kept.push(None);
            assert(disks@ =~= orig.skip(i + 1));
            i = i + 1;
        }
        let c = Cluster {
            n,
            seed,
            election_timeout,
            heartbeat_interval,
            now: 0,
            blocked: vec![false; n * n],
            nodes,
            disks: kept,
            stats: Stats::default(),
            checker: Checker::new(n),
        };
        assert(c@.blocked =~= Seq::new((n * n) as nat, |k: int| false));
        assert(c@.nodes =~= Seq::new(
            n as nat,
            |i: int| Some(boot_state(c@.node_config(i as NodeId), orig[i].persisted(), 0)),
        ));
        assert(c@.disks =~= Seq::new(n as nat, |i: int| None::<PersistentView>));
        c
    }

    pub fn node_count(&self) -> (n: usize)
        ensures
            n == self@.n,
    {
        self.n
    }

    pub fn now(&self) -> (t: u64)
        ensures
            t == self@.now,
    {
        self.now
    }

    pub fn stats(&self) -> (s: Stats)
        ensures
            s == self@.stats,
    {
        self.stats
    }

    /// Node `i`, unless it is crashed.
    pub fn node(&self, i: NodeId) -> (r: Option<&Node<S>>)
        requires
            self.wf(),
            i < self@.n,
        ensures
            match r {
                Some(node) => self@.nodes[i as int] == Some(node@) && node.wf(),
                None => self@.nodes[i as int] is None,
            },
    {
        self.nodes[i].as_ref()
    }

    pub fn is_up(&self, i: NodeId) -> (b: bool)
        requires
            self.wf(),
            i < self@.n,
        ensures
            b == self@.nodes[i as int] is Some,
    {
        self.nodes[i].is_some()
    }

    /// The committed log seen so far.
    pub fn committed(&self) -> (log: &[Entry])
        ensures
            view_entries(log@) == self@.checker.committed,
    {
        self.checker.committed()
    }

    /// The live leader of the highest term, if any (the last in node
    /// order among leaders of that term).
    pub fn leader(&self) -> (r: Option<NodeId>)
        requires
            self.wf(),
        ensures
            match r {
                Some(l) => newest_leader(self@.nodes, l as int),
                None => forall|j: int| 0 <= j < self@.n ==> !live_leader(self@.nodes, j),
            },
    {
        let ghost o = self@.nodes;
        let mut best: Option<NodeId> = None;
        let mut best_term: Term = 0;
        let mut i: usize = 0;
        while i < self.n
            invariant
                self.wf(),
                o == self@.nodes,
                o.len() == self.n,
                i <= self.n,
                match best {
                    Some(l) => {
                        &&& l < i
                        &&& live_leader(o, l as int)
                        &&& best_term == o[l as int]->0.term
                        &&& forall|j: int|
                            #![trigger live_leader(o, j)]
                            0 <= j < i && live_leader(o, j) ==> o[j]->0.term < best_term || (
                            o[j]->0.term == best_term && j <= l)
                    },
                    None => forall|j: int|
                        #![trigger live_leader(o, j)]
                        0 <= j < i ==> !live_leader(o, j),
                },
            decreases self.n - i,
        {
            if let Some(node) = self.nodes[i].as_ref() {
                assert(o[i as int] == Some(node@));
                if node.role() == Role::Leader {
                    let t = node.term();
                    if best.is_none() || t >= best_term {
                        best = Some(i);
                        best_term = t;
                    }
                }
            }
            i = i + 1;
        }
        best
    }

    /// Crashes node `i` if it is live; its storage is kept for a restart.
    pub fn crash(&mut self, i: NodeId)
        requires
            old(self).wf(),
            i < old(self)@.n,
        ensures
            final(self).wf(),
            final(self)@ == match old(self)@.nodes[i as int] {
                Some(s) => old(self)@.crashed(i, s.persistent()),
                None => old(self)@,
            },
    {
        proof {
            self.lemma_slot(i as int);
        }
        let slot = self.nodes[i].take();
        match slot {
            Some(node) => {
                assert(old(self).nodes@[i as int] == Some(node));
                let storage = node.into_storage();
                self.disks.set(i, Some(storage));
                self.stats.crashes = bump(self.stats.crashes);
                proof {
                    assert(self@.nodes =~= old(self)@.nodes.update(i as int, None));
                    assert(self@.disks =~= old(self)@.disks.update(i as int, Some(storage.persisted())));
                    assert forall|k: int| 0 <= k < self.n implies match #[trigger] self.nodes@[k] {
                        Some(node) => {
                            &&& node.wf()
                            &&& node@.cfg == self@.node_config(k as NodeId)
                            &&& self.disks@[k] is None
                        },
                        None => self.disks@[k] matches Some(d) && d.persisted().log.len() < u64::MAX,
                    } by {
                        old(self).lemma_slot(k);
                    }
                }
            },
            None => {
                assert(self.nodes@ =~= old(self).nodes@);
            },
        }
    }

    /// Restarts node `i` if it is crashed, from the storage it kept, and
    /// checks that it still holds everything it had committed.
    pub fn restart(&mut self, i: NodeId) -> (r: Result<(), Violation>)
        requires
            old(self).wf(),
            i < old(self)@.n,
            old(self)@.now + old(self)@.election_timeout.1 <= u64::MAX,
        ensures
            final(self).wf(),
            ({
                let c = old(self)@;
                match c.disks[i as int] {
                    None => r is Ok && final(self)@ == c,
                    Some(p) => {
                        &&& final(self)@ == c.booted(i, p).with_stats(
                            Stats { restarts: bumped(c.stats.restarts, 1), ..c.stats },
                        )
                        &&& r is Ok <==> c.recovered(i, p.log)
                        &&& r is Err ==> r == Err::<(), Violation>(
                            Violation {
                                tick: c.now,
                                breach: Breach::LostCommittedEntries {
                                    node: i,
                                    commit: c.checker.max_commit[i as int],
                                },
                            },
                        )
                    },
                }
            }),
    {
        proof {
            self.lemma_slot(i as int);
        }
        if self.nodes[i].is_some() {
            return Ok(());
        }
        let slot = self.disks[i].take();
        match slot {
            Some(storage) => {
                assert(old(self).disks@[i as int] == Some(storage));
                let ghost p = storage.persisted();
                self.boot(i, storage);
                assert(self@.disks =~= old(self)@.booted(i, p).disks);
                assert(self@.nodes =~= old(self)@.booted(i, p).nodes);
                self.stats.restarts = bump(self.stats.restarts);
                match self.nodes[i].as_ref() {
                    Some(node) => self.checker.check_recovered(self.now, i, node.log()),
                    None => Ok(()),
                }
            },
            None => Ok(()),
        }
    }

    /// Restarts node `i`, if it is crashed, from `storage` in place of
    /// the storage it kept (a reopened disk), and checks that it still
    /// holds everything it had committed.
    pub fn restart_with(&mut self, i: NodeId, storage: S) -> (r: Result<(), Violation>)
        requires
            old(self).wf(),
            i < old(self)@.n,
            old(self)@.now + old(self)@.election_timeout.1 <= u64::MAX,
            storage.persisted().log.len() < u64::MAX,
        ensures
            final(self).wf(),
            ({
                let c = old(self)@;
                let p = storage.persisted();
                match c.nodes[i as int] {
                    Some(_) => r is Ok && final(self)@ == c,
                    None => {
                        &&& final(self)@ == c.booted(i, p).with_stats(
                            Stats { restarts: bumped(c.stats.restarts, 1), ..c.stats },
                        )
                        &&& r is Ok <==> c.recovered(i, p.log)
                        &&& r is Err ==> r == Err::<(), Violation>(
                            Violation {
                                tick: c.now,
                                breach: Breach::LostCommittedEntries {
                                    node: i,
                                    commit: c.checker.max_commit[i as int],
                                },
                            },
                        )
                    },
                }
            }),
    {
        proof {
            self.lemma_slot(i as int);
        }
        if self.nodes[i].is_some() {
            return Ok(());
        }
        self.boot(i, storage);
        self.stats.restarts = bump(self.stats.restarts);
        match self.nodes[i].as_ref() {
            Some(node) => self.checker.check_recovered(self.now, i, node.log()),
            None => Ok(()),
        }
    }

    /// Boots node `i`, crashed, from `storage` at the current tick.
    fn boot(&mut self, i: NodeId, storage: S)
        requires
            old(self).wf() || (old(self).wf_except(i) && old(self).disks@[i as int] is None),
            i < old(self)@.n,
            old(self).nodes@[i as int] is None,
            old(self)@.now + old(self)@.election_timeout.1 <= u64::MAX,
            storage.persisted().log.len() < u64::MAX,
        ensures
            final(self).wf(),
            final(self)@ == old(self)@.booted(i, storage.persisted()),
            final(self).nodes@[i as int] matches Some(node) && node@ == boot_state(
                old(self)@.node_config(i),
                storage.persisted(),
                old(self)@.now,
            ),
    {
        let mut cfg = Config::new(i, self.n, self.seed);
        cfg.election_timeout = self.election_timeout;
        cfg.heartbeat_interval = self.heartbeat_interval;
        let node = Node::new(cfg, storage, self.now);
        self.nodes.set(i, Some(node));
        self.disks.set(i, None);
        proof {
            assert(self@.nodes =~= old(self)@.nodes.update(
                i as int,
                Some(boot_state(old(self)@.node_config(i), storage.persisted(), old(self)@.now)),
            ));
            assert(self@.disks =~= old(self)@.disks.update(i as int, None));
            assert forall|k: int| 0 <= k < self.n implies match #[trigger] self.nodes@[k] {
                Some(node) => {
                    &&& node.wf()
                    &&& node@.cfg == self@.node_config(k as NodeId)
                    &&& self.disks@[k] is None
                },
                None => self.disks@[k] matches Some(d) && d.persisted().log.len() < u64::MAX,
            } by {
                if k != i {
                    assert(self.nodes@[k] == old(self).nodes@[k]);
                }
            }
        }
    }

    /// The sizes a well-formed cluster's tables have: one entry per node,
    /// one link flag per ordered pair, one checker entry per node.
    pub proof fn lemma_wf_sizes(&self)
        requires
            self.wf(),
        ensures
            self@.nodes.len() == self@.n,
            self@.disks.len() == self@.n,
            self@.blocked.len() == self@.n * self@.n,
            self@.checker.max_commit.len() == self@.n,
            self@.checker.max_term.len() == self@.n,
            timeouts_ok(self@.election_timeout),
    {
    }

    /// What `wf` says of node `i`.
    proof fn lemma_slot(&self, i: int)
        requires
            self.wf(),
            0 <= i < self.n,
        ensures
            match self.nodes@[i] {
                Some(node) => {
                    &&& node.wf()
                    &&& node@.cfg == self@.node_config(i as NodeId)
                    &&& self.disks@[i] is None
                },
                None => self.disks@[i] matches Some(d) && d.persisted().log.len() < u64::MAX,
            },
    {
    }

    /// `wf` depends only on the nodes, the kept storage, the configuration
    /// and the sizes of the link table and the checker.
    proof fn lemma_frame(a: Self, b: Self)
        requires
            a.wf(),
            b.n == a.n,
            b.seed == a.seed,
            b.election_timeout == a.election_timeout,
            b.heartbeat_interval == a.heartbeat_interval,
            b.nodes@ == a.nodes@,
            b.disks@ == a.disks@,
            b.blocked@.len() == a.blocked@.len(),
            b.checker@.max_commit.len() == a.checker@.max_commit.len(),
            b.checker@.max_term.len() == a.checker@.max_term.len(),
        ensures
            b.wf(),
    {
        assert forall|k: int| 0 <= k < b.n implies match #[trigger] b.nodes@[k] {
            Some(node) => {
                &&& node.wf()
                &&& node@.cfg == b@.node_config(k as NodeId)
                &&& b.disks@[k] is None
            },
            None => b.disks@[k] matches Some(d) && d.persisted().log.len() < u64::MAX,
        } by {
            assert(a.nodes@[k] == b.nodes@[k]);
        }
    }

    /// `wf`, except that node `i` may be crashed without kept storage.
    closed spec fn wf_except(&self, i: NodeId) -> bool {
        &&& self.nodes@.len() == self.n
        &&& self.disks@.len() == self.n
        &&& self.blocked@.len() == self.n * self.n
        &&& self.n * self.n <= usize::MAX
        &&& self.checker@.max_commit.len() == self.n
        &&& self.checker@.max_term.len() == self.n
        &&& timeouts_ok(self.election_timeout)
        &&& forall|k: int|
            0 <= k < self.n && k != i ==> match #[trigger] self.nodes@[k] {
                Some(node) => {
                    &&& node.wf()
                    &&& node@.cfg == self@.node_config(k as NodeId)
                    &&& self.disks@[k] is None
                },
                None => self.disks@[k] matches Some(d) && d.persisted().log.len() < u64::MAX,
            }
    }

    /// Cuts the network into two sides: `side[i]` is node `i`'s side, and
    /// every link between different sides is cut, both ways.
    pub fn partition(&mut self, side: &[bool])
        requires
            old(self).wf(),
            side@.len() >= old(self)@.n,
        ensures
            final(self).wf(),
            final(self)@ == old(self)@.with_blocked(cut(side@, old(self)@.n as int)),
    {
        let n = self.n;
        let ghost want = cut(side@, n as int);
        let mut v: Vec<bool> = Vec::new();
        let mut a: usize = 0;
        while a < n
            invariant
                n == self.n,
                n * n <= usize::MAX,
                side@.len() >= n,
                want == cut(side@, n as int),
                a <= n,
                v@.len() == a * n,
                v@ == want.take(v@.len() as int),
            decreases n - a,
        {
            let mut b: usize = 0;
            while b < n
                invariant
                    n == self.n,
                    n * n <= usize::MAX,
                    side@.len() >= n,
                    want == cut(side@, n as int),
                    a < n,
                    b <= n,
                    v@.len() == a * n + b,
                    v@ == want.take(v@.len() as int),
                decreases n - b,
            {
                proof {
                    let k = a * n + b;
                    assert(k < n * n) by (nonlinear_arith)
                        requires
                            a < n,
                            b < n,
                            k == a * n + b,
                    ;
                    vstd::arithmetic::div_mod::lemma_fundamental_div_mod_converse(
                        k,
                        n as int,
                        a as int,
                        b as int,
                    );
                }
                v.push(a != b && side[a] != side[b]);
                assert(v@ =~= want.take(v@.len() as int));
                b = b + 1;
            }
            assert((a + 1) * n == a * n + n) by (nonlinear_arith);
            a = a + 1;
        }
        assert(v@ =~= want);
        self.blocked = v;
        proof {
            Self::lemma_frame(*old(self), *self);
        }
    }

    /// Cuts node `i` off from every other node.
    pub fn isolate(&mut self, i: NodeId)
        requires
            old(self).wf(),
            i < old(self)@.n,
        ensures
            final(self).wf(),
            final(self)@ == old(self)@.with_blocked(
                cut(Seq::new(old(self)@.n as nat, |j: int| j == i), old(self)@.n as int),
            ),
    {
        let mut side = vec![false; self.n];
        side.set(i, true);
        assert(side@ =~= Seq::new(self@.n as nat, |j: int| j == i));
        self.partition(side.as_slice());
    }

    /// Removes every partition.
    pub fn heal(&mut self)
        requires
            old(self).wf(),
        ensures
            final(self).wf(),
            final(self)@ == old(self)@.with_blocked(
                Seq::new((old(self)@.n * old(self)@.n) as nat, |k: int| false),
            ),
    {
        self.blocked = vec![false; self.n * self.n];
        proof {
            assert(self@.blocked =~= Seq::new((old(self)@.n * old(self)@.n) as nat, |k: int| false));
            Self::lemma_frame(*old(self), *self);
        }
    }

    /// Node `from` sends `out`: each message counts as sent; one on a cut
    /// link is dropped, the others are handed back for the network, in
    /// order.
    fn route(&mut self, from: NodeId, out: Vec<Outgoing>) -> (sent: Vec<Outgoing>)
        requires
            old(self).wf(),
            from < old(self)@.n,
            forall|k: int| 0 <= k < out@.len() ==> (#[trigger] out@[k]).to < old(self)@.n,
        ensures
            final(self).wf(),
            final(self)@ == old(self)@.after_route(from, view_outgoing(out@)),
            view_outgoing(sent@) == unblocked(
                old(self)@.blocked,
                old(self)@.n as int,
                from,
                view_outgoing(out@),
            ),
    {
        let ghost c = self@;
        let ghost orig = view_outgoing(out@);
        let n = self.n;
        let len = out.len();
        let mut out = out;
        let mut sent: Vec<Outgoing> = Vec::new();
        let mut stats = self.stats;
        let mut k: usize = 0;
        while k < len
            invariant
                c == self@,
                self.wf(),
                n == c.n,
                from < n,
                n * n <= usize::MAX,
                self.blocked@.len() == n * n,
                c.blocked == self.blocked@,
                orig.len() == len,
                k <= len,
                out@.len() == len - k,
                forall|q: int| 0 <= q < out@.len() ==> (#[trigger] out@[q])@ == orig[k + q],
                forall|q: int| 0 <= q < orig.len() ==> (#[trigger] orig[q]).to < n,
                view_outgoing(sent@) == unblocked(c.blocked, n as int, from, orig.take(k as int)),
                sent@.len() <= k,
                stats == (Stats {
                    sent: bumped(c.stats.sent, k as int),
                    dropped_by_partition: bumped(
                        c.stats.dropped_by_partition,
                        k - sent@.len(),
                    ),
                    ..c.stats
                }),
            decreases len - k,
        {
            let o = out.remove(0);
            assert(o@ == orig[k as int]);
            assert(orig.take(k + 1).drop_last() =~= orig.take(k as int));
            assert(orig.take(k + 1).last() == orig[k as int]);
            proof {
                lemma_bumped_step(c.stats.sent, k as int);
                lemma_bumped_step(c.stats.dropped_by_partition, k - sent@.len());
                assert(from * n + o.to < n * n) by (nonlinear_arith)
                    requires
                        from < n,
                        o.to < n,
                ;
            }
            stats.sent = bump(stats.sent);
            if self.blocked[from * n + o.to] {
                stats.dropped_by_partition = bump(stats.dropped_by_partition);
            } else {
                sent.push(o);
                assert(view_outgoing(sent@) =~= view_outgoing(sent@.drop_last()).push(o@));
            }
            k = k + 1;
            assert(forall|q: int| 0 <= q < out@.len() ==> (#[trigger] out@[q])@ == orig[k + q]);
        }
        assert(orig.take(len as int) =~= orig);
        self.stats = stats;
        proof {
            Self::lemma_frame(*old(self), *self);
        }
        sent
    }

    /// Time moves on by one tick.
    pub fn advance(&mut self)
        requires
            old(self).wf(),
            old(self)@.now < u64::MAX,
        ensures
            final(self).wf(),
            final(self)@ == (ClusterView { now: (old(self)@.now + 1) as u64, ..old(self)@ }),
    {
        self.now = self.now + 1;
        proof {
            Self::lemma_frame(*old(self), *self);
        }
    }

    /// A datagram from `from` arrives at `to`: `None` when it could not be
    /// decoded. A crashed node drops it and an undecodable one is
    /// rejected; else the node handles it and then, unless it crashes
    /// right after (`crash_after`), sends its replies. Hands back what to
    /// put on the network.
    pub fn deliver(
        &mut self,
        from: NodeId,
        to: NodeId,
        message: Option<Message>,
        crash_after: bool,
    ) -> (sent: Vec<Outgoing>)
        requires
            old(self).wf(),
            from < old(self)@.n,
            to < old(self)@.n,
            old(self)@.nodes[to as int] matches Some(s) ==> (message matches Some(m)
                ==> s.handle_fits(old(self)@.now, from, m@)),
        ensures
            final(self).wf(),
            ({
                let c = old(self)@;
                match c.nodes[to as int] {
                    None => sent@.len() == 0 && final(self)@ == c.with_stats(
                        Stats {
                            dropped_to_crashed_node: bumped(c.stats.dropped_to_crashed_node, 1),
                            ..c.stats
                        },
                    ),
                    Some(s) => match message {
                        None => sent@.len() == 0 && final(self)@ == c.with_stats(
                            Stats { rejected_by_codec: bumped(c.stats.rejected_by_codec, 1), ..c.stats },
                        ),
                        Some(m) => {
                            let (s1, out) = s.handle(c.now, from, m@);
                            let c1 = c.with_node(to, s1).with_stats(
                                Stats { delivered: bumped(c.stats.delivered, 1), ..c.stats },
                            );
                            if crash_after {
                                sent@.len() == 0 && final(self)@ == c1.crashed(to, s1.persistent())
                            } else {
                                &&& final(self)@ == c1.after_route(to, out)
                                &&& view_outgoing(sent@) == unblocked(c.blocked, c.n as int, to, out)
                            }
                        },
                    },
                }
            }),
    {
        proof {
            self.lemma_slot(to as int);
        }
        if self.nodes[to].is_none() {
            self.stats.dropped_to_crashed_node = bump(self.stats.dropped_to_crashed_node);
            proof {
                Self::lemma_frame(*old(self), *self);
            }
            return Vec::new();
        }
        let msg = match message {
            Some(m) => m,
            None => {
                self.stats.rejected_by_codec = bump(self.stats.rejected_by_codec);
                proof {
                    Self::lemma_frame(*old(self), *self);
                }
                return Vec::new();
            },
        };
        self.stats.delivered = bump(self.stats.delivered);
        let ghost c1 = self@;
        let slot = self.nodes[to].take();
        let mut node = match slot {
            Some(node) => node,
            None => {
                return Vec::new();
            },
        };
        assert(old(self).nodes@[to as int] == Some(node));
        let out = node.handle(self.now, from, msg);
        let ghost s1 = node@;
        proof {
            law_messages_go_to_peers(old(self)@.nodes[to as int]->0, old(self)@.now, from, msg@, Seq::empty());
        }
        self.nodes.set(to, Some(node));
        proof {
            assert(self.nodes@ =~= old(self).nodes@.update(to as int, Some(node)));
            assert(self@.nodes =~= old(self)@.nodes.update(to as int, Some(s1)));
            self.lemma_replace_node(*old(self), to);
        }
        if crash_after {
            self.crash(to);
            Vec::new()
        } else {
            assert forall|k: int| 0 <= k < out@.len() implies (#[trigger] out@[k]).to < self@.n by {
                assert(view_outgoing(out@)[k] == out@[k]@);
            }
            self.route(to, out)
        }
    }

    /// `self` is `old` with node `i` replaced by a well-formed node of the
    /// same configuration.
    proof fn lemma_replace_node(&self, old: Self, i: NodeId)
        requires
            old.wf(),
            i < old.n,
            self.n == old.n,
            self.seed == old.seed,
            self.election_timeout == old.election_timeout,
            self.heartbeat_interval == old.heartbeat_interval,
            self.disks@ == old.disks@,
            self.blocked@.len() == old.blocked@.len(),
            self.checker@.max_commit.len() == old.checker@.max_commit.len(),
            self.checker@.max_term.len() == old.checker@.max_term.len(),
            self.nodes@.len() == old.nodes@.len(),
            old.nodes@[i as int] is Some,
            self.nodes@[i as int] matches Some(node) && node.wf() && node@.cfg == old.nodes@[i as int]->0@.cfg,
            forall|k: int| 0 <= k < old.n && k != i ==> self.nodes@[k] == old.nodes@[k],
        ensures
            self.wf(),
    {
        assert forall|k: int| 0 <= k < self.n implies match #[trigger] self.nodes@[k] {
            Some(node) => {
                &&& node.wf()
                &&& node@.cfg == self@.node_config(k as NodeId)
                &&& self.disks@[k] is None
            },
            None => self.disks@[k] matches Some(d) && d.persisted().log.len() < u64::MAX,
        } by {
            old.lemma_slot(k);
            if k != i {
                assert(self.nodes@[k] == old.nodes@[k]);
            }
        }
    }

    /// Node `i`'s timer runs at the current tick, if it is live; hands
    /// back what it sends.
    pub fn tick_node(&mut self, i: NodeId) -> (sent: Vec<Outgoing>)
        requires
            old(self).wf(),
            i < old(self)@.n,
            old(self)@.nodes[i as int] matches Some(s) ==> s.tick_fits(old(self)@.now),
        ensures
            final(self).wf(),
            ({
                let c = old(self)@;
                match c.nodes[i as int] {
                    None => sent@.len() == 0 && final(self)@ == c,
                    Some(s) => {
                        let (s1, out) = s.tick(c.now);
                        &&& final(self)@ == c.with_node(i, s1).after_route(i, out)
                        &&& view_outgoing(sent@) == unblocked(c.blocked, c.n as int, i, out)
                    },
                }
            }),
    {
        proof {
            self.lemma_slot(i as int);
        }
        let slot = self.nodes[i].take();
        let mut node = match slot {
            Some(node) => node,
            None => {
                assert(self.nodes@ =~= old(self).nodes@);
                return Vec::new();
            },
        };
        assert(old(self).nodes@[i as int] == Some(node));
        let out = node.tick(self.now);
        let ghost s1 = node@;
        proof {
            law_messages_go_to_peers(old(self)@.nodes[i as int]->0, old(self)@.now, 0, crate::message::MessageView::VoteResponse { term: 0, granted: false }, Seq::empty());
        }
        self.nodes.set(i, Some(node));
        proof {
            assert(self.nodes@ =~= old(self).nodes@.update(i as int, Some(node)));
            assert(self@.nodes =~= old(self)@.nodes.update(i as int, Some(s1)));
            self.lemma_replace_node(*old(self), i);
        }
        assert forall|k: int| 0 <= k < out@.len() implies (#[trigger] out@[k]).to < self@.n by {
            assert(view_outgoing(out@)[k] == out@[k]@);
        }
        self.route(i, out)
    }

    /// Whether `propose` is defined here: the newest leader, if any, has
    /// room for one more entry.
    pub open spec fn propose_fits(c: ClusterView) -> bool {
        forall|l: int| newest_leader(c.nodes, l) ==> (#[trigger] c.nodes[l])->0.propose_fits()
    }

    /// Submits a client command to the live leader of the highest term.
    /// On success hands back that leader, the command's index in its log
    /// and what the leader sends.
    pub fn propose(&mut self, command: Vec<u8>) -> (r: Result<
        (NodeId, Index, Vec<Outgoing>),
        ProposeError,
    >)
        requires
            old(self).wf(),
            Self::propose_fits(old(self)@),
        ensures
            final(self).wf(),
            ({
                let c = old(self)@;
                &&& (forall|j: int| 0 <= j < c.n ==> !live_leader(c.nodes, j)) ==> (r == Err::<
                    (NodeId, Index, Vec<Outgoing>),
                    ProposeError,
                >(ProposeError::NotLeader(None)) && final(self)@ == c)
                &&& forall|l: int|
                    #![trigger newest_leader(c.nodes, l)]
                    newest_leader(c.nodes, l) ==> match c.nodes[l]->0.propose(command@) {
                        (s1, Ok((index, out))) => r matches Ok((l2, index2, sent)) && {
                            &&& l2 == l
                            &&& index2 == index
                            &&& final(self)@ == c.with_node(l as NodeId, s1).with_stats(
                                Stats {
                                    proposals_accepted: bumped(c.stats.proposals_accepted, 1),
                                    ..c.stats
                                },
                            ).after_route(l as NodeId, out)
                            &&& view_outgoing(sent@) == unblocked(c.blocked, c.n as int, l as NodeId, out)
                        },
                        (s1, Err(e)) => r == Err::<(NodeId, Index, Vec<Outgoing>), ProposeError>(e)
                            && final(self)@ == c.with_node(l as NodeId, s1),
                    }
            }),
    {
        let l = match self.leader() {
            Some(l) => l,
            None => {
                return Err(ProposeError::NotLeader(None));
            },
        };
        proof {
            self.lemma_slot(l as int);
        }
        let slot = self.nodes[l].take();
        let mut node = match slot {
            Some(node) => node,
            None => {
                return Err(ProposeError::NotLeader(None));
            },
        };
        assert(old(self).nodes@[l as int] == Some(node));
        assert(old(self)@.nodes[l as int] == Some(node@));
        let ghost cmd = command@;
        let res = node.propose(self.now, command);
        let ghost s1 = node@;
        proof {
            law_messages_go_to_peers(old(self)@.nodes[l as int]->0, old(self)@.now, 0, crate::message::MessageView::VoteResponse { term: 0, granted: false }, cmd);
        }
        self.nodes.set(l, Some(node));
        proof {
            assert(self.nodes@ =~= old(self).nodes@.update(l as int, Some(node)));
            assert(self@.nodes =~= old(self)@.nodes.update(l as int, Some(s1)));
            self.lemma_replace_node(*old(self), l);
        }
        match res {
            Ok((index, out)) => {
                self.stats.proposals_accepted = bump(self.stats.proposals_accepted);
                proof {
                    self.lemma_replace_node(*old(self), l);
                }
                assert forall|k: int| 0 <= k < out@.len() implies (#[trigger] out@[k]).to < self@.n by {
                    assert(view_outgoing(out@)[k] == out@[k]@);
                }
                let sent = self.route(l, out);
                Ok((l, index, sent))
            },
            Err(e) => Err(e),
        }
    }

    /// Checks every safety property of the live nodes against what was
    /// seen before, and remembers what it saw when they all hold.
    pub fn check(&mut self) -> (r: Result<(), Violation>)
        requires
            old(self).wf(),
        ensures
            final(self).wf(),
            ({
                let c = old(self)@;
                let k = checker_after(c.checker, c.nodes);
                &&& r is Ok <==> safe(c.checker, c.nodes)
                &&& r is Ok ==> k == next_view(c.checker, c.nodes)
                &&& final(self)@ == c.with_checker(k).with_stats(
                    Stats { terms_with_a_leader: k.leaders.len() as u64, ..c.stats },
                )
                &&& r matches Err(v) ==> v.tick == c.now && breach_holds(c.checker, c.nodes, v.breach)
                    && first_breach(c.checker, c.nodes) == Some(v.breach)
            }),
    {
        let r = self.checker.check(self.now, &self.nodes);
        self.stats.terms_with_a_leader = self.checker.terms_with_a_leader() as u64;
        proof {
            Self::lemma_frame(*old(self), *self);
        }
        r
    }

    /// Whether `tick_node(i)` is defined here.
    pub fn can_tick(&self, i: NodeId) -> (b: bool)
        requires
            self.wf(),
            i < self@.n,
        ensures
            b == (self@.nodes[i as int] matches Some(s) ==> s.tick_fits(self@.now)),
    {
        match self.nodes[i].as_ref() {
            Some(node) => node.can_tick(self.now),
            None => true,
        }
    }

    /// Whether `deliver(from, to, Some(message), _)` is defined here.
    pub fn can_deliver(&self, from: NodeId, to: NodeId, message: &Message) -> (b: bool)
        requires
            self.wf(),
            to < self@.n,
        ensures
            b == (self@.nodes[to as int] matches Some(s) ==> s.handle_fits(
                self@.now,
                from,
                message@,
            )),
    {
        match self.nodes[to].as_ref() {
            Some(node) => node.can_handle(self.now, from, message),
            None => true,
        }
    }

    /// Whether `propose` is defined here.
    pub fn can_propose(&self) -> (b: bool)
        requires
            self.wf(),
        ensures
            b == Self::propose_fits(self@),
    {
        match self.leader() {
            Some(l) => match self.nodes[l].as_ref() {
                Some(node) => {
                    let b = node.can_propose();
                    proof {
                        assert forall|j: int| newest_leader(self@.nodes, j) implies (#[trigger] self@.nodes[j])->0.propose_fits() == b by {
                            assert(j == l as int);
                        }
                    }
                    b
                },
                None => true,
            },
            None => true,
        }
    }

    /// Ends the disruptions: every partition healed and every crashed node
    /// restarted, in order, stopping at one that lost committed entries.
    pub fn quiesce(&mut self) -> (r: Result<(), Violation>)
        requires
            old(self).wf(),
            old(self)@.now + old(self)@.election_timeout.1 <= u64::MAX,
        ensures
            final(self).wf(),
            ({
                let c = old(self)@.with_blocked(
                    Seq::new((old(self)@.n * old(self)@.n) as nat, |k: int| false),
                );
                let (f, ok) = restarted_upto(c, c.n as int);
                &&& final(self)@ == f
                &&& r is Ok <==> ok
                &&& r matches Err(v) ==> v.tick == c.now && v.breach is LostCommittedEntries
            }),
    {
        self.heal();
        let ghost c = self@;
        let mut i: usize = 0;
        while i < self.n
            invariant
                self.wf(),
                i <= self@.n,
                c == old(self)@.with_blocked(
                    Seq::new((old(self)@.n * old(self)@.n) as nat, |k: int| false),
                ),
                c.n == self@.n,
                c.now == self@.now,
                c.election_timeout == self@.election_timeout,
                self@.now + self@.election_timeout.1 <= u64::MAX,
                restarted_upto(c, i as int) == (self@, true),
            decreases self@.n - i,
        {
            let r = self.restart(i);
            if r.is_err() {
                proof {
                    assert(!restarted_upto(c, i + 1).1);
                    lemma_restarts_stop(c, i + 1, c.n as int);
                }
                return r;
            }
            i = i + 1;
        }
        Ok(())
    }
}

} // verus!
