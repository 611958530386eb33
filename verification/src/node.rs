//! The consensus node: a deterministic, I/O-free state machine.
//!
//! Inputs are `tick(now)`, `handle(now, from, message)` and
//! `propose(now, command)`; outputs are the messages to send. `now` is a
//! virtual tick supplied by the caller. Each input is proved to act as its
//! function in `model.rs` says, and everything that must survive a crash
//! (term, vote, log) is on the node's storage before the input returns the
//! messages that depend on it.

use vstd::prelude::*;

use crate::message::{copy_range, view_entries, Entry, Index, Message, NodeId, Term};
use crate::model::{
    count_matched, count_true, first_conflict, no_messages, one_message, term_at,
    timeouts_ok, Config, NodeState, OutgoingView, ProposeError, Role,
};
use crate::rng::{mix, splitmix_advance, splitmix_mix, GOLDEN_GAMMA};
use crate::storage::{PersistentView, Storage};

verus! {

impl Config {
    /// The default timing: election timeouts in 150..=300 ticks, a
    /// heartbeat every 50 ticks, at most 32 entries per AppendEntries.
    pub fn new(id: NodeId, cluster_size: usize, seed: u64) -> (c: Config)
        ensures
            c == (Config {
                id,
                cluster_size,
                election_timeout: (150, 300),
                heartbeat_interval: 50,
                max_batch: 32,
                seed,
            }),
    {
        Config {
            id,
            cluster_size,
            election_timeout: (150, 300),
            heartbeat_interval: 50,
            max_batch: 32,
            seed,
        }
    }
}

/// A message to send and its destination.
#[derive(Debug, Clone, PartialEq, Eq)]
pub struct Outgoing {
    pub to: NodeId,
    pub message: Message,
}

impl View for Outgoing {
    type V = OutgoingView;

    open spec fn view(&self) -> OutgoingView {
        OutgoingView { to: self.to, message: self.message@ }
    }
}

pub open spec fn view_outgoing(s: Seq<Outgoing>) -> Seq<OutgoingView> {
    s.map_values(|o: Outgoing| o@)
}

pub open spec fn view_committed(s: Seq<(Index, Entry)>) -> Seq<(Index, crate::message::EntryView)> {
    s.map_values(|p: (Index, Entry)| (p.0, p.1@))
}

pub open spec fn view_proposal(r: Result<(Index, Vec<Outgoing>), ProposeError>) -> Result<
    (Index, Seq<OutgoingView>),
    ProposeError,
> {
    match r {
        Ok((i, out)) => Ok((i, view_outgoing(out@))),
        Err(e) => Err(e),
    }
}

/// The state a node starts (or restarts) in from what storage holds:
/// follower, nothing committed or delivered, a fresh election deadline.
pub open spec fn boot_state(cfg: Config, p: PersistentView, now: u64) -> NodeState {
    let n = cfg.cluster_size as nat;
    NodeState {
        cfg,
        term: p.term,
        voted_for: p.voted_for,
        log: p.log,
        role: Role::Follower,
        leader_id: None,
        commit_index: 0,
        applied_index: 0,
        votes: Seq::new(n, |i: int| false),
        next_index: Seq::new(n, |i: int| 1 as Index),
        match_index: Seq::new(n, |i: int| 0 as Index),
        election_deadline: 0,
        heartbeat_deadline: 0,
        rng: cfg.seed ^ (cfg.id as u64).wrapping_mul(GOLDEN_GAMMA) ^ p.term,
    }.with_timer(now)
}

/// A sequence that is `true` exactly at `id` counts one `true` once it
/// reaches past `id`.
pub(crate) proof fn lemma_count_single(n: nat, id: int, k: nat)
    requires
        k <= n,
        0 <= id < n,
    ensures
        count_true(Seq::new(n, |i: int| i == id).take(k as int)) == if k > id {
            1nat
        } else {
            0nat
        },
    decreases k,
{
    let s = Seq::new(n, |i: int| i == id);
    if k > 0 {
        lemma_count_single(n, id, (k - 1) as nat);
        assert(s.take(k as int).drop_last() =~= s.take(k - 1));
    } else {
        assert(s.take(0) =~= Seq::<bool>::empty());
    }
    if k == n {
        assert(s.take(k as int) =~= s);
    }
}

/// A consensus node over the storage `S`.
pub struct Node<S: Storage> {
    cfg: Config,
    storage: S,
    term: Term,
    voted_for: Option<NodeId>,
    log: Vec<Entry>,
    role: Role,
    leader_id: Option<NodeId>,
    commit_index: Index,
    applied_index: Index,
    votes: Vec<bool>,
    next_index: Vec<Index>,
    match_index: Vec<Index>,
    election_deadline: u64,
    heartbeat_deadline: u64,
    rng: u64,
}

impl<S: Storage> View for Node<S> {
    type V = NodeState;

    closed spec fn view(&self) -> NodeState {
        NodeState {
            cfg: self.cfg,
            term: self.term,
            voted_for: self.voted_for,
            log: view_entries(self.log@),
            role: self.role,
            leader_id: self.leader_id,
            commit_index: self.commit_index,
            applied_index: self.applied_index,
            votes: self.votes@,
            next_index: self.next_index@,
            match_index: self.match_index@,
            election_deadline: self.election_deadline,
            heartbeat_deadline: self.heartbeat_deadline,
            rng: self.rng,
        }
    }
}

impl<S: Storage> Node<S> {
    /// What the node's storage holds.
    pub closed spec fn stored(&self) -> PersistentView {
        self.storage.persisted()
    }

    /// The node's state has the shape of a reachable state, and its storage
    /// holds exactly its term, vote and log.
    pub open spec fn wf(&self) -> bool {
        &&& self@.inv()
        &&& self.stored() == self@.persistent()
    }

    /// Starts (or restarts after a crash) a node from whatever `storage`
    /// holds. Volatile state (commit index, role) always restarts fresh.
    pub fn new(cfg: Config, storage: S, now: u64) -> (node: Node<S>)
        requires
            cfg.id < cfg.cluster_size,
            timeouts_ok(cfg.election_timeout),
            now + cfg.election_timeout.1 <= u64::MAX,
            storage.persisted().log.len() < u64::MAX,
        ensures
            node.wf(),
            node@ == boot_state(cfg, storage.persisted(), now),
            node.stored() == node@.persistent(),
            node.stored() == storage.persisted(),
    {
        let mut storage = storage;
        let p = storage.load();
        let n = cfg.cluster_size;
        let rng = cfg.seed ^ (cfg.id as u64).wrapping_mul(GOLDEN_GAMMA) ^ p.term;
        let mut node = Node {
            cfg,
            storage,
            term: p.term,
            voted_for: p.voted_for,
            log: p.log,
            role: Role::Follower,
            leader_id: None,
            commit_index: 0,
            applied_index: 0,
            votes: vec![false; n],
            next_index: vec![1; n],
            match_index: vec![0; n],
            election_deadline: 0,
            heartbeat_deadline: 0,
            rng,
        };
        assert(node.votes@ =~= Seq::new(n as nat, |i: int| false));
        assert(node.next_index@ =~= Seq::new(n as nat, |i: int| 1 as Index));
        assert(node.match_index@ =~= Seq::new(n as nat, |i: int| 0 as Index));
        node.reset_election_timer(now);
        node
    }

    pub fn id(&self) -> (id: NodeId)
        ensures
            id == self@.cfg.id,
    {
        self.cfg.id
    }

    pub fn role(&self) -> (r: Role)
        ensures
            r == self@.role,
    {
        self.role
    }

    pub fn term(&self) -> (t: Term)
        ensures
            t == self@.term,
    {
        self.term
    }

    pub fn leader_id(&self) -> (l: Option<NodeId>)
        ensures
            l == self@.leader_id,
    {
        self.leader_id
    }

    pub fn voted_for(&self) -> (v: Option<NodeId>)
        ensures
            v == self@.voted_for,
    {
        self.voted_for
    }

    pub fn commit_index(&self) -> (c: Index)
        ensures
            c == self@.commit_index,
    {
        self.commit_index
    }

    pub fn log(&self) -> (log: &[Entry])
        ensures
            view_entries(log@) == self@.log,
    {
        self.log.as_slice()
    }

    pub fn last_index(&self) -> (i: Index)
        ensures
            i == self@.log.len(),
    {
        self.log.len() as Index
    }

    /// The node's storage; it holds the node's term, vote and log.
    pub fn storage(&self) -> (s: &S)
        requires
            self.wf(),
        ensures
            s.persisted() == self@.persistent(),
    {
        &self.storage
    }

    /// Stops the node (a crash) and hands back its storage, from which a
    /// restarted node recovers.
    pub fn into_storage(self) -> (s: S)
        ensures
            s.persisted() == self.stored(),
    {
        self.storage
    }

    fn quorum(&self) -> (q: usize)
        ensures
            q == self@.quorum(),
    {
        self.cfg.cluster_size / 2 + 1
    }

    fn next_rand(&mut self) -> (r: u64)
        ensures
            final(self)@ == (NodeState { rng: splitmix_advance(old(self)@.rng), ..old(self)@ }),
            r == splitmix_mix(splitmix_advance(old(self)@.rng)),
            final(self).stored() == old(self).stored(),
    {
        self.rng = self.rng.wrapping_add(GOLDEN_GAMMA);
        mix(self.rng)
    }

    fn reset_election_timer(&mut self, now: u64)
        requires
            timeouts_ok(old(self)@.cfg.election_timeout),
            old(self)@.timer_fits(now),
        ensures
            final(self)@ == old(self)@.with_timer(now),
            final(self).stored() == old(self).stored(),
    {
        let (lo, hi) = self.cfg.election_timeout;
        let span = hi - lo + 1;
        let r = self.next_rand();
        self.election_deadline = now + lo + r % span;
    }

    fn term_at(&self, index: Index) -> (t: Term)
        requires
            index <= self@.log.len(),
        ensures
            t == term_at(self@.log, index as int),
    {
        let len = self.log.len();
        assert(self@.log.len() == len);
        if index == 0 {
            0
        } else {
            let i = (index - 1) as usize;
            self.log[i].term
        }
    }

    fn last_term(&self) -> (t: Term)
        ensures
            t == self@.last_term(),
    {
        self.term_at(self.last_index())
    }

    fn persist_hard_state(&mut self)
        ensures
            final(self)@ == old(self)@,
            final(self).stored() == old(self).stored().with_hard_state(
                old(self)@.term,
                old(self)@.voted_for,
            ),
    {
        self.storage.save_hard_state(self.term, self.voted_for);
    }

    /// Adopts a newer term: forget any vote, become a follower.
    fn step_down(&mut self, now: u64, term: Term)
        requires
            old(self).wf(),
            old(self)@.timer_fits(now),
        ensures
            final(self)@ == old(self)@.stepped_down(now, term),
            final(self).wf(),
    {
        self.term = term;
        self.voted_for = None;
        self.persist_hard_state();
        self.role = Role::Follower;
        self.leader_id = None;
        self.reset_election_timer(now);
    }

    /// The peers of this node, in ascending order.
    fn peers(&self) -> (ps: Vec<NodeId>)
        requires
            self@.inv(),
        ensures
            ps@ == self@.peers(),
    {
        let n = self.cfg.cluster_size;
        let me = self.cfg.id;
        let mut ps: Vec<NodeId> = Vec::new();
        let mut p: usize = 0;
        while p < n
            invariant
                me < n,
                n == self@.cfg.cluster_size,
                me == self@.cfg.id,
                p <= n,
                ps@.len() == if p <= me {
                    p as int
                } else {
                    p - 1
                },
                forall|k: int|
                    0 <= k < ps@.len() ==> #[trigger] ps@[k] == if k < me {
                        k
                    } else {
                        k + 1
                    },
            decreases n - p,
        {
            if p != me {
                ps.push(p);
            }
            p = p + 1;
        }
        assert(ps@ =~= self@.peers());
        ps
    }

    /// The AppendEntries for `peer`, from its next index.
    fn append_for(&self, peer: NodeId) -> (o: Outgoing)
        requires
            self@.inv(),
            self@.role == Role::Leader,
            peer < self@.cfg.cluster_size,
        ensures
            o@ == self@.append_for(peer),
    {
        let next = self.next_index[peer];
        let prev_index = next - 1;
        let len = self.log.len();
        assert(self@.log.len() == len);
        let start = prev_index as usize;
        let end = if self.cfg.max_batch > len - start {
            len
        } else {
            start + self.cfg.max_batch
        };
        let entries = copy_range(self.log.as_slice(), start, end);
        let prev_term = self.term_at(prev_index);
        Outgoing {
            to: peer,
            message: Message::AppendEntries {
                term: self.term,
                prev_index,
                prev_term,
                entries,
                leader_commit: self.commit_index,
            },
        }
    }

    /// An AppendEntries to every peer.
    fn broadcast_append(&self) -> (out: Vec<Outgoing>)
        requires
            self@.inv(),
            self@.role == Role::Leader,
        ensures
            view_outgoing(out@) == self@.broadcast(),
    {
        let peers = self.peers();
        let mut out: Vec<Outgoing> = Vec::new();
        let mut i: usize = 0;
        while i < peers.len()
            invariant
                self@.inv(),
                self@.role == Role::Leader,
                peers@ == self@.peers(),
                i <= peers@.len(),
                view_outgoing(out@) == self@.broadcast().take(i as int),
            decreases peers@.len() - i,
        {
            let o = self.append_for(peers[i]);
            let ghost before = out@;
            out.push(o);
            i = i + 1;
            assert(view_outgoing(out@) =~= view_outgoing(before).push(o@));
            assert(view_outgoing(out@) =~= self@.broadcast().take(i as int));
        }
        assert(self@.broadcast().take(i as int) =~= self@.broadcast());
        out
    }

    /// How many peers have a match index of at least `index`.
    fn count_matched(&self, index: Index) -> (c: usize)
        requires
            self@.inv(),
        ensures
            c == count_matched(self@.match_index, self@.cfg.id as int, index as int, self@.cfg.cluster_size as int),
    {
        let n = self.cfg.cluster_size;
        let mut c: usize = 0;
        let mut p: usize = 0;
        while p < n
            invariant
                self@.inv(),
                n == self@.cfg.cluster_size,
                p <= n,
                c <= p,
                c == count_matched(self@.match_index, self@.cfg.id as int, index as int, p as int),
            decreases n - p,
        {
            if p != self.cfg.id && self.match_index[p] >= index {
                c = c + 1;
            }
            p = p + 1;
        }
        c
    }

    /// Commits the highest entry of the current term stored on a majority.
    fn advance_commit(&mut self)
        requires
            old(self)@.inv(),
        ensures
            final(self)@ == old(self)@.with_commit_advanced(),
            final(self)@.inv(),
            final(self).stored() == old(self).stored(),
    {
        proof {
            crate::laws::lemma_commit_scan(self@, self@.log.len() as int);
        }
        let quorum = self.quorum();
        let mut n = self.last_index();
        let mut target = self.commit_index;
        let mut searching = true;
        while searching && n > self.commit_index
            invariant
                self@ == old(self)@,
                self.stored() == old(self).stored(),
                self@.inv(),
                quorum == self@.quorum(),
                n <= self@.log.len(),
                searching ==> target == self@.commit_index,
                searching ==> self@.commit_scan(self@.log.len() as int) == self@.commit_scan(n as int),
                !searching ==> self@.commit_scan(self@.log.len() as int) == target,
            decreases n + if searching { 1int } else { 0int },
        {
            if self.term_at(n) != self.term {
                target = self.commit_index;
                searching = false;
            } else if self.count_matched(n) >= quorum - 1 {
                target = n;
                searching = false;
            } else {
                n = n - 1;
            }
        }
        self.commit_index = target;
        assert(self@ == old(self)@.with_commit_advanced());
    }

    /// How many votes this candidate holds.
    fn vote_count(&self) -> (c: usize)
        ensures
            c == count_true(self@.votes),
    {
        let mut c: usize = 0;
        let mut i: usize = 0;
        while i < self.votes.len()
            invariant
                i <= self.votes@.len(),
                c <= i,
                c == count_true(self.votes@.take(i as int)),
            decreases self.votes@.len() - i,
        {
            assert(self.votes@.take(i + 1).drop_last() =~= self.votes@.take(i as int));
            if self.votes[i] {
                c = c + 1;
            }
            i = i + 1;
        }
        assert(self.votes@.take(i as int) =~= self.votes@);
        c
    }

    /// A RequestVote for every peer.
    fn request_votes(&self) -> (out: Vec<Outgoing>)
        requires
            self@.inv(),
        ensures
            view_outgoing(out@) == self@.peers().map_values(
                |p: NodeId| OutgoingView { to: p, message: self@.vote_request() },
            ),
    {
        let peers = self.peers();
        let last_log_index = self.last_index();
        let last_log_term = self.last_term();
        let ghost want = self@.peers().map_values(
            |p: NodeId| OutgoingView { to: p, message: self@.vote_request() },
        );
        let mut out: Vec<Outgoing> = Vec::new();
        let mut i: usize = 0;
        while i < peers.len()
            invariant
                peers@ == self@.peers(),
                last_log_index == self@.log.len(),
                last_log_term == self@.last_term(),
                want == self@.peers().map_values(
                    |p: NodeId| OutgoingView { to: p, message: self@.vote_request() },
                ),
                i <= peers@.len(),
                view_outgoing(out@) == want.take(i as int),
            decreases peers@.len() - i,
        {
            let o = Outgoing {
                to: peers[i],
                message: Message::RequestVote { term: self.term, last_log_index, last_log_term },
            };
            let ghost before = out@;
            out.push(o);
            i = i + 1;
            assert(view_outgoing(out@) =~= view_outgoing(before).push(o@));
            assert(view_outgoing(out@) =~= want.take(i as int));
        }
        assert(want.take(i as int) =~= want);
        out
    }

    /// Starts an election in the next term, voting for itself.
    fn start_election(&mut self, now: u64) -> (out: Vec<Outgoing>)
        requires
            old(self).wf(),
            old(self)@.election_fits(now),
        ensures
            (final(self)@, view_outgoing(out@)) == old(self)@.start_election(now),
            final(self).wf(),
    {
        let ghost s0 = self@;
        let n = self.cfg.cluster_size;
        self.term = self.term + 1;
        self.voted_for = Some(self.cfg.id);
        self.persist_hard_state();
        self.role = Role::Candidate;
        self.leader_id = None;
        let mut votes = vec![false; n];
        votes.set(self.cfg.id, true);
        self.votes = votes;
        self.reset_election_timer(now);
        proof {
            let id = s0.cfg.id as int;
            assert(self.votes@ =~= Seq::new(n as nat, |i: int| i == id));
            assert(self@ == s0.candidate(now));
        }
        if self.vote_count() >= self.quorum() {
            return self.become_leader(now);
        }
        self.request_votes()
    }

    /// Time passes: a leader sends heartbeats when due; a follower or
    /// candidate whose deadline has come starts an election.
    pub fn tick(&mut self, now: u64) -> (out: Vec<Outgoing>)
        requires
            old(self).wf(),
            old(self)@.tick_fits(now),
        ensures
            (final(self)@, view_outgoing(out@)) == old(self)@.tick(now),
            final(self).stored() == final(self)@.persistent(),
            final(self).wf(),
    {
        match self.role {
            Role::Leader => {
                if now >= self.heartbeat_deadline {
                    self.heartbeat_deadline = now + self.cfg.heartbeat_interval;
                    return self.broadcast_append();
                }
                Vec::new()
            },
            _ => {
                if now >= self.election_deadline {
                    return self.start_election(now);
                }
                Vec::new()
            },
        }
    }

    /// Appends a client command to the leader's log and starts replicating
    /// it. Returns the entry's index; it is *not* committed yet.
    pub fn propose(&mut self, now: u64, command: Vec<u8>) -> (r: Result<
        (Index, Vec<Outgoing>),
        ProposeError,
    >)
        requires
            old(self).wf(),
            old(self)@.propose_fits(),
        ensures
            (final(self)@, view_proposal(r)) == old(self)@.propose(command@),
            final(self).stored() == final(self)@.persistent(),
            final(self).wf(),
    {
        if self.role != Role::Leader {
            return Err(ProposeError::NotLeader(self.leader_id));
        }
        let ghost s0 = self@;
        let e = Entry { term: self.term, command };
        let ghost ev = e@;
        let mut one: Vec<Entry> = Vec::new();
        one.push(e);
        assert(view_entries(one@) =~= seq![ev]);
        assert(s0.log + seq![ev] =~= s0.log.push(ev));
        self.storage.append(one.as_slice());
        self.log.append(&mut one);
        assert(view_entries(self.log@) =~= s0.log.push(ev));
        self.advance_commit();
        let out = self.broadcast_append();
        Ok((self.last_index(), out))
    }

    fn reply(to: NodeId, message: Message) -> (out: Vec<Outgoing>)
        ensures
            view_outgoing(out@) == one_message(to, message@),
    {
        let mut out: Vec<Outgoing> = Vec::new();
        let o = Outgoing { to, message };
        out.push(o);
        assert(view_outgoing(out@) =~= one_message(to, o.message@));
        out
    }

    fn on_request_vote(
        &mut self,
        now: u64,
        from: NodeId,
        term: Term,
        last_log_index: Index,
        last_log_term: Term,
    ) -> (out: Vec<Outgoing>)
        requires
            old(self).wf(),
            old(self)@.grants_vote(from, term, last_log_index, last_log_term) ==> old(
                self,
            )@.timer_fits(now),
        ensures
            (final(self)@, view_outgoing(out@)) == old(self)@.on_request_vote(
                now,
                from,
                term,
                last_log_index,
                last_log_term,
            ),
            final(self).wf(),
    {
        let mut granted = false;
        if term == self.term {
            let my_last_term = self.last_term();
            let up_to_date = last_log_term > my_last_term || (last_log_term == my_last_term
                && last_log_index >= self.last_index());
            let can_vote = match self.voted_for {
                None => true,
                Some(v) => v == from,
            };
            if can_vote && up_to_date {
                self.voted_for = Some(from);
                self.persist_hard_state();
                self.reset_election_timer(now);
                granted = true;
            }
        }
        Self::reply(from, Message::VoteResponse { term: self.term, granted })
    }

    fn on_vote_response(&mut self, now: u64, from: NodeId, term: Term, granted: bool) -> (out: Vec<
        Outgoing,
    >)
        requires
            old(self).wf(),
            from < old(self)@.cfg.cluster_size,
            (old(self)@.counts_vote(term, granted) && count_true(
                old(self)@.with_vote_from(from).votes,
            ) >= old(self)@.quorum()) ==> old(self)@.leader_fits(now),
        ensures
            (final(self)@, view_outgoing(out@)) == old(self)@.on_vote_response(
                now,
                from,
                term,
                granted,
            ),
            final(self).wf(),
    {
        if self.role != Role::Candidate || term != self.term || !granted {
            return Vec::new();
        }
        self.votes.set(from, true);
        if self.vote_count() >= self.quorum() {
            return self.become_leader(now);
        }
        Vec::new()
    }

    fn on_append_response(&mut self, from: NodeId, term: Term, success: bool, match_index: Index) -> (out:
        Vec<Outgoing>)
        requires
            old(self).wf(),
            from < old(self)@.cfg.cluster_size,
        ensures
            (final(self)@, view_outgoing(out@)) == old(self)@.on_append_response(
                from,
                term,
                success,
                match_index,
            ),
            final(self).wf(),
    {
        if self.role != Role::Leader || term != self.term {
            return Vec::new();
        }
        let last = self.last_index();
        if success {
            let m = if match_index <= last {
                match_index
            } else {
                last
            };
            let current = self.match_index[from];
            let new_match = if current >= m {
                current
            } else {
                m
            };
            let ghost s0 = self@;
            self.match_index.set(from, new_match);
            self.next_index.set(from, new_match + 1);
            proof {
                let s1 = self@;
                assert forall|p: int| 0 <= p < s1.cfg.cluster_size implies 1 <= #[trigger] s1.next_index[p]
                    <= s1.log.len() + 1 && s1.match_index[p] <= s1.log.len() by {
                    if p != from as int {
                        assert(s1.next_index[p] == s0.next_index[p]);
                        assert(s1.match_index[p] == s0.match_index[p]);
                    }
                }
                assert(s1.inv());
            }
            self.advance_commit();
            let mut out: Vec<Outgoing> = Vec::new();
            if self.next_index[from] <= self.last_index() {
                let o = self.append_for(from);
                out.push(o);
                assert(view_outgoing(out@) =~= seq![o@]);
            } else {
                assert(view_outgoing(out@) =~= no_messages());
            }
            out
        } else {
            let lowest = self.match_index[from] + 1;
            let next = self.next_index[from];
            let capped = if match_index >= next {
                next
            } else {
                match_index + 1
            };
            let new_next = if lowest >= capped {
                lowest
            } else {
                capped
            };
            let ghost s0 = self@;
            self.next_index.set(from, new_next);
            proof {
                let s1 = self@;
                assert forall|p: int| 0 <= p < s1.cfg.cluster_size implies 1 <= #[trigger] s1.next_index[p]
                    <= s1.log.len() + 1 && s1.match_index[p] <= s1.log.len() by {
                    if p != from as int {
                        assert(s1.next_index[p] == s0.next_index[p]);
                    }
                }
                assert(s1.inv());
            }
            let mut out: Vec<Outgoing> = Vec::new();
            let o = self.append_for(from);
            out.push(o);
            assert(view_outgoing(out@) =~= seq![o@]);
            out
        }
    }

    /// Whether the log holds an entry of `term` at `index`.
    fn holds(&self, index: Index, term: Term) -> (b: bool)
        ensures
            b == (1 <= index <= self@.log.len() && term_at(self@.log, index as int) == term),
    {
        index >= 1 && index <= self.last_index() && self.term_at(index) == term
    }

    fn on_append_entries(
        &mut self,
        now: u64,
        from: NodeId,
        term: Term,
        prev_index: Index,
        prev_term: Term,
        entries: Vec<Entry>,
        leader_commit: Index,
    ) -> (out: Vec<Outgoing>)
        requires
            old(self).wf(),
            term >= old(self)@.term ==> {
                &&& old(self)@.timer_fits(now)
                &&& (prev_index <= old(self)@.log.len() && term_at(old(self)@.log, prev_index as int)
                    == prev_term) ==> prev_index + entries@.len() < u64::MAX
            },
        ensures
            (final(self)@, view_outgoing(out@)) == old(self)@.on_append_entries(
                now,
                from,
                term,
                prev_index,
                prev_term,
                view_entries(entries@),
                leader_commit,
            ),
            final(self).wf(),
    {
        if term < self.term {
            return Self::reply(
                from,
                Message::AppendResponse { term: self.term, success: false, match_index: 0 },
            );
        }
        // A valid AppendEntries for our term: there is a leader, so any
        // candidacy is over.
        self.role = Role::Follower;
        self.leader_id = Some(from);
        self.reset_election_timer(now);
        let ghost s1 = self@;
        if prev_index > self.last_index() {
            return Self::reply(
                from,
                Message::AppendResponse {
                    term: self.term,
                    success: false,
                    match_index: self.last_index(),
                },
            );
        }
        if self.term_at(prev_index) != prev_term {
            let hint = if prev_index == 0 {
                0
            } else {
                prev_index - 1
            };
            return Self::reply(
                from,
                Message::AppendResponse { term: self.term, success: false, match_index: hint },
            );
        }
        let ghost es = view_entries(entries@);
        let count = entries.len();
        let mut entries = entries;
        // Skip what the log already holds (a duplicate or overlapping resend).
        let mut k: usize = 0;
        while k < count && self.holds(prev_index + 1 + k as Index, entries[k].term)
            invariant
                self@ == s1,
                self.wf(),
                count == entries@.len(),
                es == view_entries(entries@),
                prev_index + count < u64::MAX,
                k <= count,
                prev_index + k <= s1.log.len(),
                first_conflict(s1.log, prev_index as int, es, 0) == first_conflict(
                    s1.log,
                    prev_index as int,
                    es,
                    k as int,
                ),
            decreases count - k,
        {
            k = k + 1;
        }
        assert(first_conflict(s1.log, prev_index as int, es, 0) == k);
        if k < count {
            let index = prev_index + 1 + k as Index;
            let ghost log0 = self.log@;
            if index <= self.last_index() {
                self.storage.truncate_from(index);
                self.log.truncate((index - 1) as usize);
                assert(view_entries(self.log@) =~= s1.log.take(prev_index + k));
            } else {
                assert(s1.log.take(prev_index + k) =~= s1.log);
            }
            assert(view_entries(self.log@) =~= s1.log.take(prev_index + k));
            let mut suffix = entries.split_off(k);
            assert(view_entries(suffix@) =~= es.skip(k as int));
            self.storage.append(suffix.as_slice());
            let ghost log1 = self.log@;
            self.log.append(&mut suffix);
            assert(view_entries(self.log@) =~= s1.log.take(prev_index + k) + es.skip(k as int));
        }
        assert(view_entries(self.log@) == s1.merged_log(prev_index as int, es));
        let matched = prev_index + count as Index;
        let verified = if leader_commit <= matched {
            leader_commit
        } else {
            matched
        };
        if verified > self.commit_index {
            self.commit_index = verified;
        }
        Self::reply(from, Message::AppendResponse { term: self.term, success: true, match_index: matched })
    }

    /// A message from `from` arrives. Messages from this node itself or from
    /// outside the cluster are ignored; a newer term is adopted first.
    pub fn handle(&mut self, now: u64, from: NodeId, msg: Message) -> (out: Vec<Outgoing>)
        requires
            old(self).wf(),
            old(self)@.handle_fits(now, from, msg@),
        ensures
            (final(self)@, view_outgoing(out@)) == old(self)@.handle(now, from, msg@),
            final(self).stored() == final(self)@.persistent(),
            final(self).wf(),
    {
        if from == self.cfg.id || from >= self.cfg.cluster_size {
            return Vec::new();
        }
        let t = msg.term();
        if t > self.term {
            self.step_down(now, t);
        }
        match msg {
            Message::RequestVote { term, last_log_index, last_log_term } => {
                self.on_request_vote(now, from, term, last_log_index, last_log_term)
            },
            Message::VoteResponse { term, granted } => {
                self.on_vote_response(now, from, term, granted)
            },
            Message::AppendEntries { term, prev_index, prev_term, entries, leader_commit } => {
                self.on_append_entries(
                    now,
                    from,
                    term,
                    prev_index,
                    prev_term,
                    entries,
                    leader_commit,
                )
            },
            Message::AppendResponse { term, success, match_index } => {
                self.on_append_response(from, term, success, match_index)
            },
        }
    }

    /// Newly committed entries since the last call, in order, with their
    /// indices: what the state machine should apply next.
    pub fn take_committed(&mut self) -> (out: Vec<(Index, Entry)>)
        requires
            old(self).wf(),
            old(self)@.committed_in_log(),
        ensures
            (final(self)@, view_committed(out@)) == old(self)@.take_committed(),
            final(self).stored() == final(self)@.persistent(),
            final(self).wf(),
    {
        let ghost s0 = self@;
        let mut out: Vec<(Index, Entry)> = Vec::new();
        let mut i = self.applied_index;
        let commit = self.commit_index;
        let len = self.log.len();
        assert(s0.log.len() == len);
        if i > commit {
            i = commit;
        }
        while i < commit
            invariant
                self@ == s0,
                s0.committed_in_log(),
                commit == s0.commit_index,
                len == s0.log.len(),
                self.wf(),
                i <= commit,
                s0.applied_index <= i || i == commit,
                s0.applied_index >= commit ==> out@.len() == 0,
                s0.applied_index < commit ==> view_committed(out@) =~= Seq::new(
                    (i - s0.applied_index) as nat,
                    |j: int| ((s0.applied_index + 1 + j) as Index, s0.log[s0.applied_index + j]),
                ),
            decreases commit - i,
        {
            let e = self.log[i as usize].duplicate();
            let ghost before = out@;
            out.push((i + 1, e));
            i = i + 1;
            assert(view_committed(out@) =~= view_committed(before).push((i, e@)));
        }
        self.applied_index = self.commit_index;
        assert(self@ == (NodeState { applied_index: s0.commit_index, ..s0 }));
        assert(self.stored() == self@.persistent());
        proof {
            if !(s0.commit_index > s0.applied_index) {
                assert(view_committed(out@) =~= Seq::<(Index, crate::message::EntryView)>::empty());
            }
        }
        out
    }

    /// Whether an election deadline can be drawn at `now`.
    fn timer_fits(&self, now: u64) -> (b: bool)
        ensures
            b == self@.timer_fits(now),
    {
        now <= u64::MAX - self.cfg.election_timeout.1
    }

    /// Whether leadership can be taken at `now`.
    fn leader_fits(&self, now: u64) -> (b: bool)
        ensures
            b == self@.leader_fits(now),
    {
        now <= u64::MAX - self.cfg.heartbeat_interval && (self.log.len() as u64) < u64::MAX - 1
    }

    /// Whether `tick(now)` is defined here: it would overflow no counter.
    pub fn can_tick(&self, now: u64) -> (b: bool)
        requires
            self.wf(),
        ensures
            b == self@.tick_fits(now),
    {
        proof {
            lemma_count_single(self@.cfg.cluster_size as nat, self@.cfg.id as int, self@.cfg.cluster_size as nat);
            let c = self@.candidate(now);
            let sv = Seq::new(self@.cfg.cluster_size as nat, |i: int| i == self@.cfg.id as int);
            assert(sv.take(self@.cfg.cluster_size as int) =~= sv);
            assert(c.votes =~= sv);
            assert(count_true(c.votes) == 1);
        }
        if self.role == Role::Leader {
            now < self.heartbeat_deadline || now <= u64::MAX - self.cfg.heartbeat_interval
        } else {
            now < self.election_deadline || (self.term < u64::MAX && self.timer_fits(now) && (1
                < self.quorum() || self.leader_fits(now)))
        }
    }

    /// Whether `propose` is defined here: the log has room for one more
    /// entry.
    pub fn can_propose(&self) -> (b: bool)
        ensures
            b == self@.propose_fits(),
    {
        self.role != Role::Leader || (self.log.len() as u64) < u64::MAX - 1
    }

    /// How many votes a candidate would hold with one more from `from`.
    fn vote_count_with(&self, from: NodeId) -> (c: usize)
        requires
            from < self@.votes.len(),
        ensures
            c == count_true(self@.votes.update(from as int, true)),
    {
        let ghost v = self@.votes.update(from as int, true);
        let mut c: usize = 0;
        let mut i: usize = 0;
        while i < self.votes.len()
            invariant
                v == self@.votes.update(from as int, true),
                v.len() == self.votes@.len(),
                self@.votes == self.votes@,
                from < self.votes@.len(),
                i <= self.votes@.len(),
                c <= i,
                c == count_true(v.take(i as int)),
            decreases self.votes@.len() - i,
        {
            assert(v.take(i + 1).drop_last() =~= v.take(i as int));
            assert(v.take(i + 1).last() == v[i as int]);
            assert(v[i as int] == (i == from || self.votes@[i as int]));
            if i == from || self.votes[i] {
                c = c + 1;
            }
            i = i + 1;
        }
        assert(v.take(i as int) =~= v);
        c
    }

    /// Whether `handle(now, from, msg)` is defined here: it would overflow
    /// no counter.
    pub fn can_handle(&self, now: u64, from: NodeId, msg: &Message) -> (b: bool)
        requires
            self.wf(),
        ensures
            b == self@.handle_fits(now, from, msg@),
    {
        if from == self.cfg.id || from >= self.cfg.cluster_size {
            return true;
        }
        let t = msg.term();
        let newer = t > self.term;
        if newer && !self.timer_fits(now) {
            return false;
        }
        // The node's term, vote and role once it has seen the message.
        let term = if newer {
            t
        } else {
            self.term
        };
        let voted_for = if newer {
            None
        } else {
            self.voted_for
        };
        let role = if newer {
            Role::Follower
        } else {
            self.role
        };
        let ghost s0 = self@.after_term_check(now, msg@);
        assert(s0.term == term && s0.voted_for == voted_for && s0.role == role);
        assert(s0.log == self@.log && s0.votes == self@.votes && s0.cfg == self@.cfg);
        match msg {
            Message::RequestVote { term: t2, last_log_index, last_log_term } => {
                let my_last_term = self.last_term();
                let up_to_date = *last_log_term > my_last_term || (*last_log_term == my_last_term
                    && *last_log_index >= self.last_index());
                let can_vote = match voted_for {
                    None => true,
                    Some(v) => v == from,
                };
                !(*t2 == term && up_to_date && can_vote) || self.timer_fits(now)
            },
            Message::VoteResponse { term: t2, granted } => {
                if role == Role::Candidate && *t2 == term && *granted {
                    self.vote_count_with(from) < self.quorum() || self.leader_fits(now)
                } else {
                    true
                }
            },
            Message::AppendEntries { term: t2, prev_index, prev_term, entries, .. } => {
                if *t2 >= term {
                    self.timer_fits(now) && (!(*prev_index <= self.last_index() && self.term_at(
                        *prev_index,
                    ) == *prev_term) || (entries.len() as u64) < u64::MAX - *prev_index)
                } else {
                    true
                }
            },
            Message::AppendResponse { .. } => true,
        }
    }

    /// Takes leadership and appends the no-op that lets this leader commit
    /// entries from earlier terms.
    fn become_leader(&mut self, now: u64) -> (out: Vec<Outgoing>)
        requires
            old(self).wf(),
            old(self)@.voted_for == Some(old(self)@.cfg.id),
            old(self)@.leader_fits(now),
        ensures
            (final(self)@, view_outgoing(out@)) == old(self)@.become_leader(now),
            final(self).wf(),
    {
        let ghost s0 = self@;
        let n = self.cfg.cluster_size;
        self.role = Role::Leader;
        self.leader_id = Some(self.cfg.id);
        let next = self.last_index() + 1;
        self.next_index = vec![next; n];
        self.match_index = vec![0; n];
        let noop = Entry { term: self.term, command: Vec::new() };
        let mut one: Vec<Entry> = Vec::new();
        one.push(noop);
        let ghost noop_view = crate::message::EntryView { term: s0.term, command: Seq::empty() };
        assert(view_entries(one@) =~= seq![noop_view]);
        assert(s0.log + seq![noop_view] =~= s0.log.push(noop_view));
        self.storage.append(one.as_slice());
        let ghost before = self.log@;
        self.log.append(&mut one);
        proof {
            let s1 = NodeState {
                role: Role::Leader,
                leader_id: Some(s0.cfg.id),
                next_index: Seq::new(n as nat, |i: int| next),
                match_index: Seq::new(n as nat, |i: int| 0 as Index),
                log: s0.log.push(crate::message::EntryView { term: s0.term, command: Seq::empty() }),
                ..s0
            };
            assert(self.next_index@ =~= s1.next_index);
            assert(self.match_index@ =~= s1.match_index);
            assert(view_entries(self.log@) =~= s1.log);
            assert(self@ == s1);
            assert(self.stored() == s1.persistent());
            assert(s1.inv());
        }
        self.advance_commit();
        self.heartbeat_deadline = now + self.cfg.heartbeat_interval;
        self.broadcast_append()
    }
}

} // verus!
