//! The mathematical model of a consensus node: its state as plain values,
//! and each input (`tick`, `propose`, `handle`, `take_committed`) as a
//! function from a state to the next state and the messages to send. The
//! executable node in `node.rs` is proved to follow these functions
//! exactly; the laws in `laws.rs` are proved over them.

use vstd::prelude::*;

use crate::message::{EntryView, Index, MessageView, NodeId, Term};
use crate::rng::{splitmix_advance, splitmix_mix};
use crate::storage::PersistentView;

verus! {

/// A node's role in its current term.
#[derive(Debug, Clone, Copy, PartialEq, Eq, Structural)]
pub enum Role {
    Follower,
    Candidate,
    Leader,
}

/// A node's static configuration.
#[derive(Debug, Clone, Copy)]
pub struct Config {
    pub id: NodeId,
    pub cluster_size: usize,
    /// Inclusive range of randomized election timeouts, in ticks.
    pub election_timeout: (u64, u64),
    pub heartbeat_interval: u64,
    /// Most entries sent in one AppendEntries.
    pub max_batch: usize,
    /// Seeds this node's timeout randomness (mixed with `id`).
    pub seed: u64,
}

/// Why a proposal was refused.
#[derive(Debug, Clone, Copy, PartialEq, Eq, Structural)]
pub enum ProposeError {
    /// Not the leader; carries the last known leader.
    NotLeader(Option<NodeId>),
}

/// A message and the node it is for.
pub struct OutgoingView {
    pub to: NodeId,
    pub message: MessageView,
}

/// An inclusive, non-empty range of positive election timeouts.
pub open spec fn timeouts_ok(t: (u64, u64)) -> bool {
    0 < t.0 <= t.1
}

/// The term of the entry at `index` (1-based); 0 for index 0 and outside
/// the log.
pub open spec fn term_at(log: Seq<EntryView>, index: int) -> Term {
    if 1 <= index <= log.len() {
        log[index - 1].term
    } else {
        0
    }
}

/// How many of `votes` are `true`.
pub open spec fn count_true(votes: Seq<bool>) -> nat
    decreases votes.len(),
{
    if votes.len() == 0 {
        0
    } else {
        count_true(votes.drop_last()) + if votes.last() {
            1nat
        } else {
            0nat
        }
    }
}

/// The nodes `0..n` other than `me`, in ascending order.
pub open spec fn peer_list(n: nat, me: nat) -> Seq<NodeId> {
    Seq::new((n - 1) as nat, |k: int| if k < me { k as NodeId } else { (k + 1) as NodeId })
}

/// How many of the nodes `0..upto`, other than `me`, have `matched[p] >= index`.
pub open spec fn count_matched(matched: Seq<Index>, me: int, index: int, upto: int) -> nat
    decreases upto,
{
    if upto <= 0 {
        0
    } else {
        count_matched(matched, me, index, upto - 1) + if upto - 1 != me && matched[upto - 1]
            >= index {
            1nat
        } else {
            0nat
        }
    }
}

/// The index of the first entry of `entries` (sent after `prev`) that the
/// log does not already hold with the same term; `entries.len()` if it
/// holds them all.
pub open spec fn first_conflict(log: Seq<EntryView>, prev: int, entries: Seq<EntryView>, k: int) -> int
    decreases entries.len() - k,
{
    if k >= entries.len() {
        entries.len() as int
    } else if !holds_at(log, prev, entries, k) {
        k
    } else {
        first_conflict(log, prev, entries, k + 1)
    }
}

/// Whether the log already holds, with the same term, the `j`-th of
/// `entries` sent after `prev`.
pub open spec fn holds_at(log: Seq<EntryView>, prev: int, entries: Seq<EntryView>, j: int) -> bool {
    prev + 1 + j <= log.len() && term_at(log, prev + 1 + j) == entries[j].term
}

pub open spec fn min_int(a: int, b: int) -> int {
    if a <= b {
        a
    } else {
        b
    }
}

pub open spec fn max_int(a: int, b: int) -> int {
    if a >= b {
        a
    } else {
        b
    }
}

pub open spec fn no_messages() -> Seq<OutgoingView> {
    Seq::empty()
}

pub open spec fn one_message(to: NodeId, message: MessageView) -> Seq<OutgoingView> {
    seq![OutgoingView { to, message }]
}

/// A node's complete state as plain values.
pub struct NodeState {
    pub cfg: Config,
    pub term: Term,
    pub voted_for: Option<NodeId>,
    pub log: Seq<EntryView>,
    pub role: Role,
    pub leader_id: Option<NodeId>,
    pub commit_index: Index,
    pub applied_index: Index,
    pub votes: Seq<bool>,
    pub next_index: Seq<Index>,
    pub match_index: Seq<Index>,
    pub election_deadline: u64,
    pub heartbeat_deadline: u64,
    pub rng: u64,
}

impl NodeState {
    /// The shape every reachable state has.
    pub open spec fn inv(self) -> bool {
        &&& self.cfg.id < self.cfg.cluster_size
        &&& timeouts_ok(self.cfg.election_timeout)
        &&& self.votes.len() == self.cfg.cluster_size
        &&& self.next_index.len() == self.cfg.cluster_size
        &&& self.match_index.len() == self.cfg.cluster_size
        &&& self.log.len() < u64::MAX
        &&& self.applied_index <= self.commit_index
        &&& self.role != Role::Follower ==> self.voted_for == Some(self.cfg.id)
        &&& self.role == Role::Leader ==> self.leader_id == Some(self.cfg.id)
        &&& self.role == Role::Leader ==> forall|p: int|
            0 <= p < self.cfg.cluster_size ==> 1 <= #[trigger] self.next_index[p]
                <= self.log.len() + 1 && self.match_index[p] <= self.log.len()
    }

    /// What must be on storage.
    pub open spec fn persistent(self) -> PersistentView {
        PersistentView { term: self.term, voted_for: self.voted_for, log: self.log }
    }

    pub open spec fn last_index(self) -> nat {
        self.log.len()
    }

    pub open spec fn last_term(self) -> Term {
        term_at(self.log, self.log.len() as int)
    }

    /// A strict majority of the cluster.
    pub open spec fn quorum(self) -> nat {
        (self.cfg.cluster_size / 2 + 1) as nat
    }

    pub open spec fn peers(self) -> Seq<NodeId> {
        peer_list(self.cfg.cluster_size as nat, self.cfg.id as nat)
    }

    /// The nodes known to hold the entry at `index`: this node and every
    /// peer whose match index reaches it.
    pub open spec fn replicas(self, index: int) -> nat {
        1 + count_matched(self.match_index, self.cfg.id as int, index, self.cfg.cluster_size as int)
    }

    /// An election deadline can be drawn at `now` without overflow.
    pub open spec fn timer_fits(self, now: u64) -> bool {
        now + self.cfg.election_timeout.1 <= u64::MAX
    }

    /// Draws a new election deadline at `now`, in
    /// `now + lo ..= now + hi`, advancing the generator.
    pub open spec fn with_timer(self, now: u64) -> NodeState {
        let rng = splitmix_advance(self.rng);
        let lo = self.cfg.election_timeout.0;
        let hi = self.cfg.election_timeout.1;
        let span = (hi - lo + 1) as u64;
        NodeState { rng, election_deadline: (now + lo + splitmix_mix(rng) % span) as u64, ..self }
    }

    /// Adopts a newer term: no vote, follower, leader unknown, new deadline.
    pub open spec fn stepped_down(self, now: u64, term: Term) -> NodeState {
        NodeState {
            term,
            voted_for: None,
            role: Role::Follower,
            leader_id: None,
            ..self
        }.with_timer(now)
    }

    /// The AppendEntries a leader sends `peer`: from its next index, at
    /// most `max_batch` entries.
    pub open spec fn append_for(self, peer: NodeId) -> OutgoingView {
        let prev = self.next_index[peer as int] - 1;
        let end = min_int(self.log.len() as int, prev + self.cfg.max_batch);
        OutgoingView {
            to: peer,
            message: MessageView::AppendEntries {
                term: self.term,
                prev_index: prev as Index,
                prev_term: term_at(self.log, prev),
                entries: self.log.subrange(prev, end),
                leader_commit: self.commit_index,
            },
        }
    }

    /// An AppendEntries to every peer, in ascending order.
    pub open spec fn broadcast(self) -> Seq<OutgoingView> {
        self.peers().map_values(|p: NodeId| self.append_for(p))
    }

    /// The RequestVote a candidate sends.
    pub open spec fn vote_request(self) -> MessageView {
        MessageView::RequestVote {
            term: self.term,
            last_log_index: self.log.len() as Index,
            last_log_term: self.last_term(),
        }
    }

    /// Scanning down from `index`: the highest index above the commit index,
    /// within the run of current-term entries at the end of the log, that a
    /// quorum holds; the commit index if there is none.
    pub open spec fn commit_scan(self, index: int) -> Index
        decreases index,
    {
        if index <= self.commit_index as int || index > self.log.len() {
            self.commit_index
        } else if term_at(self.log, index) != self.term {
            self.commit_index
        } else if self.replicas(index) >= self.quorum() {
            index as Index
        } else {
            self.commit_scan(index - 1)
        }
    }

    /// Commits the highest current-term entry stored on a quorum.
    pub open spec fn with_commit_advanced(self) -> NodeState {
        NodeState { commit_index: self.commit_scan(self.log.len() as int), ..self }
    }

    /// Becoming leader at `now` can be done without overflow.
    pub open spec fn leader_fits(self, now: u64) -> bool {
        &&& now + self.cfg.heartbeat_interval <= u64::MAX
        &&& self.log.len() + 1 < u64::MAX
    }

    /// Takes leadership: resets replication progress, appends the no-op of
    /// its term, commits what it can, schedules the next heartbeat and
    /// sends every peer an AppendEntries.
    pub open spec fn become_leader(self, now: u64) -> (NodeState, Seq<OutgoingView>) {
        let n = self.cfg.cluster_size as nat;
        let next = (self.log.len() + 1) as Index;
        let s1 = NodeState {
            role: Role::Leader,
            leader_id: Some(self.cfg.id),
            next_index: Seq::new(n, |i: int| next),
            match_index: Seq::new(n, |i: int| 0 as Index),
            log: self.log.push(EntryView { term: self.term, command: Seq::empty() }),
            ..self
        };
        let s2 = NodeState {
            heartbeat_deadline: (now + self.cfg.heartbeat_interval) as u64,
            ..s1.with_commit_advanced()
        };
        (s2, s2.broadcast())
    }

    /// The state right after starting an election: next term, own vote,
    /// candidate, new deadline.
    pub open spec fn candidate(self, now: u64) -> NodeState {
        let n = self.cfg.cluster_size as nat;
        let id = self.cfg.id as int;
        NodeState {
            term: (self.term + 1) as Term,
            voted_for: Some(self.cfg.id),
            role: Role::Candidate,
            leader_id: None,
            votes: Seq::new(n, |i: int| i == id),
            ..self
        }.with_timer(now)
    }

    pub open spec fn election_fits(self, now: u64) -> bool {
        &&& self.term < u64::MAX
        &&& self.timer_fits(now)
        &&& count_true(self.candidate(now).votes) >= self.quorum() ==> self.leader_fits(now)
    }

    /// Starts an election: becomes leader at once when its own vote is a
    /// quorum, else asks every peer for its vote.
    pub open spec fn start_election(self, now: u64) -> (NodeState, Seq<OutgoingView>) {
        let s1 = self.candidate(now);
        if count_true(s1.votes) >= s1.quorum() {
            s1.become_leader(now)
        } else {
            (s1, s1.peers().map_values(|p: NodeId| OutgoingView { to: p, message: s1.vote_request() }))
        }
    }

    pub open spec fn tick_fits(self, now: u64) -> bool {
        if self.role == Role::Leader {
            now >= self.heartbeat_deadline ==> now + self.cfg.heartbeat_interval <= u64::MAX
        } else {
            now >= self.election_deadline ==> self.election_fits(now)
        }
    }

    /// Time passes: a leader sends heartbeats when due; anyone else starts
    /// an election when its deadline has come.
    pub open spec fn tick(self, now: u64) -> (NodeState, Seq<OutgoingView>) {
        if self.role == Role::Leader {
            if now >= self.heartbeat_deadline {
                let s1 = NodeState {
                    heartbeat_deadline: (now + self.cfg.heartbeat_interval) as u64,
                    ..self
                };
                (s1, s1.broadcast())
            } else {
                (self, no_messages())
            }
        } else if now >= self.election_deadline {
            self.start_election(now)
        } else {
            (self, no_messages())
        }
    }

    pub open spec fn propose_fits(self) -> bool {
        self.role == Role::Leader ==> self.log.len() + 1 < u64::MAX
    }

    /// A client command: a leader appends it in its term, commits what it
    /// can and replicates; anyone else refuses and names the last known
    /// leader.
    pub open spec fn propose(self, command: Seq<u8>) -> (
        NodeState,
        Result<(Index, Seq<OutgoingView>), ProposeError>,
    ) {
        if self.role != Role::Leader {
            (self, Err(ProposeError::NotLeader(self.leader_id)))
        } else {
            let s1 = NodeState {
                log: self.log.push(EntryView { term: self.term, command }),
                ..self
            }.with_commit_advanced();
            (s1, Ok((s1.log.len() as Index, s1.broadcast())))
        }
    }

    /// The vote rule: same term, candidate's log at least as up to date,
    /// and no vote yet in this term for anyone else.
    pub open spec fn grants_vote(
        self,
        from: NodeId,
        term: Term,
        last_log_index: Index,
        last_log_term: Term,
    ) -> bool {
        let up_to_date = last_log_term > self.last_term() || (last_log_term == self.last_term()
            && last_log_index >= self.log.len());
        let can_vote = self.voted_for is None || self.voted_for == Some(from);
        term == self.term && up_to_date && can_vote
    }

    pub open spec fn on_request_vote(
        self,
        now: u64,
        from: NodeId,
        term: Term,
        last_log_index: Index,
        last_log_term: Term,
    ) -> (NodeState, Seq<OutgoingView>) {
        if self.grants_vote(from, term, last_log_index, last_log_term) {
            let s1 = NodeState { voted_for: Some(from), ..self }.with_timer(now);
            (s1, one_message(from, MessageView::VoteResponse { term: s1.term, granted: true }))
        } else {
            (self, one_message(from, MessageView::VoteResponse { term: self.term, granted: false }))
        }
    }

    /// Whether a vote response counts: to a candidate, for its term, granted.
    pub open spec fn counts_vote(self, term: Term, granted: bool) -> bool {
        self.role == Role::Candidate && term == self.term && granted
    }

    pub open spec fn with_vote_from(self, from: NodeId) -> NodeState {
        NodeState { votes: self.votes.update(from as int, true), ..self }
    }

    pub open spec fn on_vote_response(self, now: u64, from: NodeId, term: Term, granted: bool) -> (
        NodeState,
        Seq<OutgoingView>,
    ) {
        if !self.counts_vote(term, granted) {
            (self, no_messages())
        } else {
            let s1 = self.with_vote_from(from);
            if count_true(s1.votes) >= s1.quorum() {
                s1.become_leader(now)
            } else {
                (s1, no_messages())
            }
        }
    }

    /// The log after accepting `entries` after `prev`: entries it already
    /// holds with the same term are kept, and from the first conflict on
    /// its suffix is replaced by the rest of `entries`.
    pub open spec fn merged_log(self, prev: int, entries: Seq<EntryView>) -> Seq<EntryView> {
        let k = first_conflict(self.log, prev, entries, 0);
        if k < entries.len() {
            self.log.take(prev + k) + entries.skip(k)
        } else {
            self.log
        }
    }

    /// The state after a current-term AppendEntries from `from`: follower
    /// of `from`, with a new deadline.
    pub open spec fn following(self, now: u64, from: NodeId) -> NodeState {
        NodeState { role: Role::Follower, leader_id: Some(from), ..self }.with_timer(now)
    }

    pub open spec fn on_append_entries(
        self,
        now: u64,
        from: NodeId,
        term: Term,
        prev_index: Index,
        prev_term: Term,
        entries: Seq<EntryView>,
        leader_commit: Index,
    ) -> (NodeState, Seq<OutgoingView>) {
        if term < self.term {
            (
                self,
                one_message(
                    from,
                    MessageView::AppendResponse { term: self.term, success: false, match_index: 0 },
                ),
            )
        } else {
            let s1 = self.following(now, from);
            if prev_index > s1.log.len() {
                (
                    s1,
                    one_message(
                        from,
                        MessageView::AppendResponse {
                            term: s1.term,
                            success: false,
                            match_index: s1.log.len() as Index,
                        },
                    ),
                )
            } else if term_at(s1.log, prev_index as int) != prev_term {
                let hint = if prev_index == 0 {
                    0
                } else {
                    (prev_index - 1) as Index
                };
                (
                    s1,
                    one_message(
                        from,
                        MessageView::AppendResponse { term: s1.term, success: false, match_index: hint },
                    ),
                )
            } else {
                let matched = prev_index + entries.len();
                let verified = min_int(leader_commit as int, matched);
                let commit = if verified > s1.commit_index {
                    verified as Index
                } else {
                    s1.commit_index
                };
                let s2 = NodeState {
                    log: s1.merged_log(prev_index as int, entries),
                    commit_index: commit,
                    ..s1
                };
                (
                    s2,
                    one_message(
                        from,
                        MessageView::AppendResponse {
                            term: s2.term,
                            success: true,
                            match_index: matched as Index,
                        },
                    ),
                )
            }
        }
    }

    pub open spec fn on_append_response(
        self,
        from: NodeId,
        term: Term,
        success: bool,
        match_index: Index,
    ) -> (NodeState, Seq<OutgoingView>) {
        if self.role != Role::Leader || term != self.term {
            (self, no_messages())
        } else if success {
            let m = min_int(match_index as int, self.log.len() as int);
            let new_match = max_int(self.match_index[from as int] as int, m);
            let s1 = NodeState {
                match_index: self.match_index.update(from as int, new_match as Index),
                next_index: self.next_index.update(from as int, (new_match + 1) as Index),
                ..self
            }.with_commit_advanced();
            if s1.next_index[from as int] <= s1.log.len() {
                (s1, seq![s1.append_for(from)])
            } else {
                (s1, no_messages())
            }
        } else {
            let lowest = self.match_index[from as int] + 1;
            let next = max_int(
                lowest,
                min_int(self.next_index[from as int] as int, match_index + 1),
            );
            let s1 = NodeState { next_index: self.next_index.update(from as int, next as Index), ..self };
            (s1, seq![s1.append_for(from)])
        }
    }

    /// The state after adopting the term of a newer message, if it is newer.
    pub open spec fn after_term_check(self, now: u64, msg: MessageView) -> NodeState {
        if msg.term() > self.term {
            self.stepped_down(now, msg.term())
        } else {
            self
        }
    }

    /// Whether the message's sender is a peer of this node.
    pub open spec fn from_peer(self, from: NodeId) -> bool {
        from != self.cfg.id && from < self.cfg.cluster_size
    }

    pub open spec fn dispatch(self, now: u64, from: NodeId, msg: MessageView) -> (
        NodeState,
        Seq<OutgoingView>,
    ) {
        match msg {
            MessageView::RequestVote { term, last_log_index, last_log_term } => self.on_request_vote(
                now,
                from,
                term,
                last_log_index,
                last_log_term,
            ),
            MessageView::VoteResponse { term, granted } => self.on_vote_response(
                now,
                from,
                term,
                granted,
            ),
            MessageView::AppendEntries { term, prev_index, prev_term, entries, leader_commit } =>
                self.on_append_entries(
                now,
                from,
                term,
                prev_index,
                prev_term,
                entries,
                leader_commit,
            ),
            MessageView::AppendResponse { term, success, match_index } => self.on_append_response(
                from,
                term,
                success,
                match_index,
            ),
        }
    }

    /// A message from `from` arrives: ignored unless from a peer; a newer
    /// term is adopted first; then the message's own rule applies.
    pub open spec fn handle(self, now: u64, from: NodeId, msg: MessageView) -> (
        NodeState,
        Seq<OutgoingView>,
    ) {
        if !self.from_peer(from) {
            (self, no_messages())
        } else {
            self.after_term_check(now, msg).dispatch(now, from, msg)
        }
    }

    pub open spec fn dispatch_fits(self, now: u64, from: NodeId, msg: MessageView) -> bool {
        match msg {
            MessageView::RequestVote { term, last_log_index, last_log_term } => self.grants_vote(
                from,
                term,
                last_log_index,
                last_log_term,
            ) ==> self.timer_fits(now),
            MessageView::VoteResponse { term, granted } => (self.counts_vote(term, granted)
                && count_true(self.with_vote_from(from).votes) >= self.quorum()) ==> self.leader_fits(
                now,
            ),
            MessageView::AppendEntries { term, prev_index, prev_term, entries, leader_commit } =>
                term >= self.term ==> {
                &&& self.timer_fits(now)
                &&& (prev_index <= self.log.len() && term_at(self.log, prev_index as int)
                    == prev_term) ==> prev_index + entries.len() < u64::MAX
            },
            MessageView::AppendResponse { .. } => true,
        }
    }

    /// The message can be handled without overflow.
    pub open spec fn handle_fits(self, now: u64, from: NodeId, msg: MessageView) -> bool {
        self.from_peer(from) ==> {
            &&& msg.term() > self.term ==> self.timer_fits(now)
            &&& self.after_term_check(now, msg).dispatch_fits(now, from, msg)
        }
    }

    /// The entries committed since the last delivery, with their indices,
    /// in order; marks them delivered.
    pub open spec fn take_committed(self) -> (NodeState, Seq<(Index, EntryView)>) {
        let out = if self.commit_index > self.applied_index {
            Seq::new(
                (self.commit_index - self.applied_index) as nat,
                |j: int| ((self.applied_index + 1 + j) as Index, self.log[self.applied_index + j]),
            )
        } else {
            Seq::empty()
        };
        (NodeState { applied_index: self.commit_index, ..self }, out)
    }

    /// What `take_committed` delivers lies within the log.
    pub open spec fn committed_in_log(self) -> bool {
        self.commit_index <= self.applied_index || self.commit_index <= self.log.len()
    }
}

} // verus!
