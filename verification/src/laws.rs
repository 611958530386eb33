//! Laws of the consensus node, proved over its model (`model.rs`). The
//! executable node follows the model exactly, so each law holds of every
//! run of `Node`.

use vstd::prelude::*;

use crate::message::{EntryView, Index, MessageView, NodeId, Term};
use crate::model::{
    count_true, first_conflict, holds_at, term_at, timeouts_ok, NodeState, OutgoingView, Role,
};
use crate::node::boot_state;
use crate::storage::PersistentView;

verus! {

/// The commit index a leader computes is either unchanged or a
/// current-term index, above the old one, that a quorum holds.
pub proof fn lemma_commit_scan(s: NodeState, index: int)
    requires
        index <= s.log.len(),
        s.log.len() <= u64::MAX,
    ensures
        s.commit_scan(index) >= s.commit_index,
        s.commit_scan(index) == s.commit_index || ({
            let c = s.commit_scan(index);
            &&& s.commit_index < c <= index
            &&& term_at(s.log, c as int) == s.term
            &&& s.replicas(c as int) >= s.quorum()
        }),
    decreases index,
{
    if index <= s.commit_index as int || index > s.log.len() {
    } else if term_at(s.log, index) != s.term {
    } else if s.replicas(index) >= s.quorum() {
    } else {
        lemma_commit_scan(s, index - 1);
    }
}

/// What `first_conflict` finds: every entry before it is already held with
/// the same term, and at it (if inside `entries`) the log is too short or
/// holds another term.
pub proof fn lemma_first_conflict(log: Seq<EntryView>, prev: int, entries: Seq<EntryView>, k: int)
    requires
        0 <= k <= entries.len(),
    ensures
        k <= first_conflict(log, prev, entries, k) <= entries.len(),
        forall|j: int|
            k <= j < first_conflict(log, prev, entries, k) ==> #[trigger] holds_at(
                log,
                prev,
                entries,
                j,
            ),
        first_conflict(log, prev, entries, k) < entries.len() ==> !holds_at(
            log,
            prev,
            entries,
            first_conflict(log, prev, entries, k),
        ),
    decreases entries.len() - k,
{
    if k >= entries.len() {
    } else if !holds_at(log, prev, entries, k) {
    } else {
        lemma_first_conflict(log, prev, entries, k + 1);
    }
}

/// Adopting a newer term only moves the term up and drops the vote.
proof fn lemma_term_check(s: NodeState, now: u64, msg: MessageView)
    ensures
        ({
            let s0 = s.after_term_check(now, msg);
            &&& s0.term >= s.term
            &&& s0.term == s.term ==> s0.voted_for == s.voted_for && s0.role == s.role
            &&& s0.log == s.log
            &&& s0.commit_index == s.commit_index
            &&& s0.match_index == s.match_index
            &&& s0.term > s.term ==> s0.role == Role::Follower
        }),
{
}

/// Terms never go backwards: no input lowers a node's term.
pub proof fn law_term_never_decreases(
    s: NodeState,
    now: u64,
    from: NodeId,
    msg: MessageView,
    command: Seq<u8>,
)
    requires
        s.inv(),
        s.tick_fits(now),
    ensures
        s.tick(now).0.term >= s.term,
        s.handle(now, from, msg).0.term >= s.term,
        s.propose(command).0.term == s.term,
        s.take_committed().0.term == s.term,
{
    lemma_term_check(s, now, msg);
}

/// A node votes at most once per term: once it has voted in a term, no
/// input changes that vote while the term stays the same.
pub proof fn law_one_vote_per_term(s: NodeState, now: u64, from: NodeId, msg: MessageView)
    requires
        s.inv(),
        s.tick_fits(now),
    ensures
        ({
            let s1 = s.handle(now, from, msg).0;
            s1.term == s.term && s.voted_for is Some ==> s1.voted_for == s.voted_for
        }),
        ({
            let s1 = s.tick(now).0;
            s1.term == s.term && s.voted_for is Some ==> s1.voted_for == s.voted_for
        }),
{
    lemma_term_check(s, now, msg);
}

/// A vote is granted only to a candidate of the node's current term whose
/// log is at least as up to date as the node's own, and the reply reports
/// the node's term; a granted vote is recorded as the node's vote.
pub proof fn law_vote_rule(
    s: NodeState,
    now: u64,
    from: NodeId,
    term: Term,
    last_log_index: Index,
    last_log_term: Term,
)
    requires
        s.inv(),
        s.from_peer(from),
    ensures
        ({
            let msg = MessageView::RequestVote { term, last_log_index, last_log_term };
            let (s1, out) = s.handle(now, from, msg);
            &&& out.len() == 1
            &&& out[0].to == from
            &&& out[0].message matches MessageView::VoteResponse { term: t, granted } && {
                &&& t == s1.term
                &&& t >= term
                &&& granted ==> {
                    &&& s1.term == term
                    &&& s1.voted_for == Some(from)
                    &&& s1.persistent().voted_for == Some(from)
                    &&& (last_log_term > term_at(s.log, s.log.len() as int) || (last_log_term
                        == term_at(s.log, s.log.len() as int) && last_log_index >= s.log.len()))
                }
            }
        }),
{
    let msg = MessageView::RequestVote { term, last_log_index, last_log_term };
    lemma_term_check(s, now, msg);
}

/// While a node stays leader of the same term its log only grows: a leader
/// never overwrites or deletes its own entries.
pub proof fn law_leader_log_only_grows(
    s: NodeState,
    now: u64,
    from: NodeId,
    msg: MessageView,
    command: Seq<u8>,
)
    requires
        s.inv(),
        s.role == Role::Leader,
    ensures
        ({
            let s1 = s.handle(now, from, msg).0;
            s1.role == Role::Leader && s1.term == s.term ==> s.log.is_prefix_of(s1.log)
        }),
        s.log.is_prefix_of(s.tick(now).0.log),
        s.log.is_prefix_of(s.propose(command).0.log),
{
    lemma_term_check(s, now, msg);
    assert(s.log.is_prefix_of(s.log));
    assert(s.log.is_prefix_of(s.log.push(EntryView { term: s.term, command })));
}

/// A leader commits only by counting replicas of an entry from its own
/// term (the rule that makes Raft's Figure 8 safe): whenever an input
/// leaves a leader with a different commit index, the entry at that index
/// is from the leader's term and a quorum holds it.
pub proof fn law_leader_commits_only_current_term(
    s: NodeState,
    now: u64,
    from: NodeId,
    msg: MessageView,
    command: Seq<u8>,
)
    requires
        s.inv(),
        s.handle_fits(now, from, msg),
        s.tick_fits(now),
    ensures
        ({
            let s1 = s.handle(now, from, msg).0;
            s1.role == Role::Leader && s1.commit_index != s.commit_index ==> {
                &&& term_at(s1.log, s1.commit_index as int) == s1.term
                &&& s1.replicas(s1.commit_index as int) >= s1.quorum()
            }
        }),
        ({
            let s1 = s.tick(now).0;
            s1.role == Role::Leader && s1.commit_index != s.commit_index ==> {
                &&& term_at(s1.log, s1.commit_index as int) == s1.term
                &&& s1.replicas(s1.commit_index as int) >= s1.quorum()
            }
        }),
        ({
            let s1 = s.propose(command).0;
            s1.role == Role::Leader && s1.commit_index != s.commit_index ==> {
                &&& term_at(s1.log, s1.commit_index as int) == s1.term
                &&& s1.replicas(s1.commit_index as int) >= s1.quorum()
            }
        }),
{
    // Every commit advance goes through `with_commit_advanced`.
    if s.role == Role::Leader {
        let p1 = NodeState { log: s.log.push(EntryView { term: s.term, command }), ..s };
        lemma_commit_scan(p1, p1.log.len() as int);
    } else {
        let c = s.candidate(now);
        lemma_become_leader_commit(c, now);
    }
    let s0 = s.after_term_check(now, msg);
    match msg {
        MessageView::VoteResponse { term, granted } => {
            if s0.counts_vote(term, granted) {
                lemma_become_leader_commit(s0.with_vote_from(from), now);
            }
        },
        MessageView::AppendResponse { term, success, match_index } => {
            if s0.role == Role::Leader && term == s0.term && success {
                let m = crate::model::min_int(match_index as int, s0.log.len() as int);
                let new_match = crate::model::max_int(s0.match_index[from as int] as int, m);
                let p1 = NodeState {
                    match_index: s0.match_index.update(from as int, new_match as Index),
                    next_index: s0.next_index.update(from as int, (new_match + 1) as Index),
                    ..s0
                };
                lemma_commit_scan(p1, p1.log.len() as int);
            }
        },
        _ => {},
    }
}

/// What `become_leader` commits is unchanged or a current-term index a
/// quorum holds.
proof fn lemma_become_leader_commit(s: NodeState, now: u64)
    requires
        s.log.len() < u64::MAX,
    ensures
        s.become_leader(now).0.commit_index >= s.commit_index,
        ({
            let s2 = s.become_leader(now).0;
            s2.commit_index == s.commit_index || (term_at(s2.log, s2.commit_index as int) == s2.term
                && s2.replicas(s2.commit_index as int) >= s2.quorum())
        }),
{
    let n = s.cfg.cluster_size as nat;
    let next = (s.log.len() + 1) as Index;
    let s1 = NodeState {
        role: Role::Leader,
        leader_id: Some(s.cfg.id),
        next_index: Seq::new(n, |i: int| next),
        match_index: Seq::new(n, |i: int| 0 as Index),
        log: s.log.push(EntryView { term: s.term, command: Seq::empty() }),
        ..s
    };
    lemma_commit_scan(s1, s1.log.len() as int);
}

/// A resend that carries nothing the log holds under another term never
/// deletes an entry: a stale or duplicated AppendEntries can only extend
/// the log.
pub proof fn law_stale_append_never_deletes(
    s: NodeState,
    now: u64,
    from: NodeId,
    term: Term,
    prev_index: Index,
    prev_term: Term,
    entries: Seq<EntryView>,
    leader_commit: Index,
)
    requires
        s.inv(),
        forall|j: int|
            0 <= j < entries.len() && prev_index + 1 + j <= s.log.len() ==> #[trigger] holds_at(
                s.log,
                prev_index as int,
                entries,
                j,
            ),
    ensures
        ({
            let msg = MessageView::AppendEntries {
                term,
                prev_index,
                prev_term,
                entries,
                leader_commit,
            };
            s.log.is_prefix_of(s.handle(now, from, msg).0.log)
        }),
{
    let msg = MessageView::AppendEntries { term, prev_index, prev_term, entries, leader_commit };
    lemma_term_check(s, now, msg);
    let prev = prev_index as int;
    lemma_first_conflict(s.log, prev, entries, 0);
    let k = first_conflict(s.log, prev, entries, 0);
    if k < entries.len() && prev_index <= s.log.len() {
        if k > 0 {
            assert(holds_at(s.log, prev, entries, k - 1));
        }
        assert(prev + k == s.log.len());
        assert(s.log.take(prev + k) =~= s.log);
    }
    assert(s.log.is_prefix_of(s.log));
}

/// An accepted AppendEntries leaves the log agreeing with the leader: the
/// entries before `prev_index` are untouched, and at every position the
/// message covers the log holds an entry of the term the leader sent; the
/// reply reports success with the last index the message covers.
pub proof fn law_accepted_append_matches_leader(
    s: NodeState,
    now: u64,
    from: NodeId,
    term: Term,
    prev_index: Index,
    prev_term: Term,
    entries: Seq<EntryView>,
    leader_commit: Index,
)
    requires
        s.inv(),
        s.from_peer(from),
        term >= s.term,
        prev_index <= s.log.len(),
        term_at(s.log, prev_index as int) == prev_term,
        prev_index + entries.len() < u64::MAX,
    ensures
        ({
            let msg = MessageView::AppendEntries {
                term,
                prev_index,
                prev_term,
                entries,
                leader_commit,
            };
            let (s1, out) = s.handle(now, from, msg);
            &&& out == crate::model::one_message(
                from,
                MessageView::AppendResponse {
                    term: s1.term,
                    success: true,
                    match_index: (prev_index + entries.len()) as Index,
                },
            )
            &&& s1.term == term
            &&& s1.role == Role::Follower
            &&& s1.leader_id == Some(from)
            &&& s1.log.take(prev_index as int) == s.log.take(prev_index as int)
            &&& s1.log.len() >= prev_index + entries.len()
            &&& forall|j: int|
                0 <= j < entries.len() ==> term_at(s1.log, prev_index + 1 + j)
                    == #[trigger] entries[j].term
        }),
{
    let msg = MessageView::AppendEntries { term, prev_index, prev_term, entries, leader_commit };
    lemma_term_check(s, now, msg);
    let prev = prev_index as int;
    let s0 = s.after_term_check(now, msg);
    let s1 = s0.following(now, from);
    lemma_first_conflict(s.log, prev, entries, 0);
    let k = first_conflict(s.log, prev, entries, 0);
    let merged = s1.merged_log(prev, entries);
    if k < entries.len() {
        if k > 0 {
            assert(holds_at(s.log, prev, entries, k - 1));
        }
        assert(prev + k <= s.log.len());
        assert(merged == s.log.take(prev + k) + entries.skip(k));
        assert(merged.take(prev) =~= s.log.take(prev));
        assert forall|j: int| 0 <= j < entries.len() implies term_at(merged, prev + 1 + j)
            == #[trigger] entries[j].term by {
            if j < k {
                assert(holds_at(s.log, prev, entries, j));
                assert(merged[prev + j] == s.log[prev + j]);
            } else {
                assert(merged[prev + j] == entries.skip(k)[j - k]);
            }
        }
    } else {
        assert forall|j: int| 0 <= j < entries.len() implies term_at(merged, prev + 1 + j)
            == #[trigger] entries[j].term by {
            assert(holds_at(s.log, prev, entries, j));
        }
        if entries.len() > 0 {
            assert(holds_at(s.log, prev, entries, entries.len() - 1));
        }
    }
}

/// The commit index never moves backwards: no tick, proposal or message
/// lowers it, and a delivery of committed entries leaves it as it is.
pub proof fn law_commit_never_decreases(
    s: NodeState,
    now: u64,
    from: NodeId,
    msg: MessageView,
    command: Seq<u8>,
)
    requires
        s.inv(),
    ensures
        s.handle(now, from, msg).0.commit_index >= s.commit_index,
        s.tick(now).0.commit_index >= s.commit_index,
        s.propose(command).0.commit_index >= s.commit_index,
        s.take_committed().0.commit_index == s.commit_index,
{
    lemma_term_check(s, now, msg);
    if s.role == Role::Leader {
        let p1 = NodeState { log: s.log.push(EntryView { term: s.term, command }), ..s };
        lemma_commit_scan(p1, p1.log.len() as int);
    } else {
        lemma_become_leader_commit(s.candidate(now), now);
    }
    let s0 = s.after_term_check(now, msg);
    match msg {
        MessageView::VoteResponse { term, granted } => {
            if s0.counts_vote(term, granted) {
                lemma_become_leader_commit(s0.with_vote_from(from), now);
            }
        },
        MessageView::AppendResponse { term, success, match_index } => {
            if s0.role == Role::Leader && term == s0.term && success {
                let m = crate::model::min_int(match_index as int, s0.log.len() as int);
                let new_match = crate::model::max_int(s0.match_index[from as int] as int, m);
                let p1 = NodeState {
                    match_index: s0.match_index.update(from as int, new_match as Index),
                    next_index: s0.next_index.update(from as int, (new_match + 1) as Index),
                    ..s0
                };
                lemma_commit_scan(p1, p1.log.len() as int);
            }
        },
        _ => {},
    }
}

/// A follower never commits past what the leader verified: after an
/// AppendEntries the commit index is unchanged or at most both the
/// leader's commit index and the last index the message covers.
pub proof fn law_follower_commit_bounded(
    s: NodeState,
    now: u64,
    from: NodeId,
    term: Term,
    prev_index: Index,
    prev_term: Term,
    entries: Seq<EntryView>,
    leader_commit: Index,
)
    requires
        s.inv(),
    ensures
        ({
            let msg = MessageView::AppendEntries {
                term,
                prev_index,
                prev_term,
                entries,
                leader_commit,
            };
            let s1 = s.handle(now, from, msg).0;
            s1.commit_index == s.commit_index || (s1.commit_index <= leader_commit
                && s1.commit_index <= prev_index + entries.len())
        }),
{
}

/// A leader's knowledge of what a follower holds only grows: while it
/// stays leader of the same term, no input lowers a match index.
pub proof fn law_leader_match_index_never_decreases(
    s: NodeState,
    now: u64,
    from: NodeId,
    msg: MessageView,
    command: Seq<u8>,
)
    requires
        s.inv(),
        s.role == Role::Leader,
    ensures
        ({
            let s1 = s.handle(now, from, msg).0;
            s1.role == Role::Leader && s1.term == s.term ==> forall|p: int|
                0 <= p < s.cfg.cluster_size ==> #[trigger] s1.match_index[p] >= s.match_index[p]
        }),
        s.tick(now).0.match_index == s.match_index,
        s.propose(command).0.match_index == s.match_index,
{
    lemma_term_check(s, now, msg);
}

/// Every election deadline a node draws lies within the configured range
/// after the time it was drawn.
pub proof fn law_election_deadline_in_range(
    s: NodeState,
    now: u64,
    from: NodeId,
    msg: MessageView,
    cfg: crate::model::Config,
    stored: PersistentView,
)
    requires
        s.inv(),
        s.handle_fits(now, from, msg),
        s.tick_fits(now),
        timeouts_ok(cfg.election_timeout),
        now + cfg.election_timeout.1 <= u64::MAX,
    ensures
        ({
            let s1 = s.handle(now, from, msg).0;
            s1.election_deadline != s.election_deadline ==> now + s.cfg.election_timeout.0
                <= s1.election_deadline <= now + s.cfg.election_timeout.1
        }),
        ({
            let s1 = s.tick(now).0;
            s1.election_deadline != s.election_deadline ==> now + s.cfg.election_timeout.0
                <= s1.election_deadline <= now + s.cfg.election_timeout.1
        }),
        ({
            let b = boot_state(cfg, stored, now);
            now + cfg.election_timeout.0 <= b.election_deadline <= now + cfg.election_timeout.1
        }),
{
    lemma_term_check(s, now, msg);
}

/// A node started at `now` stays silent and unchanged on every tick
/// before its first election deadline, which lies in `now + lo ..= now +
/// hi` and depends only on its configuration, its stored term and `now`.
/// On the deadline it starts an election: in a cluster of two or more it
/// asks each of the other nodes for its vote.
pub proof fn law_first_election_in_window(cfg: crate::model::Config, p: PersistentView, now: u64, t: u64)
    requires
        cfg.id < cfg.cluster_size,
        timeouts_ok(cfg.election_timeout),
        now + cfg.election_timeout.1 <= u64::MAX,
    ensures
        ({
            let b = boot_state(cfg, p, now);
            &&& now + cfg.election_timeout.0 <= b.election_deadline <= now
                + cfg.election_timeout.1
            &&& t < b.election_deadline ==> b.tick(t) == (b, crate::model::no_messages())
            &&& t >= b.election_deadline ==> b.tick(t) == b.start_election(t)
            &&& (t >= b.election_deadline && cfg.cluster_size >= 2) ==> b.tick(t).1.len()
                == cfg.cluster_size - 1
        }),
{
    let b = boot_state(cfg, p, now);
    if t >= b.election_deadline && cfg.cluster_size >= 2 {
        let c = b.candidate(t);
        let n = cfg.cluster_size as nat;
        crate::node::lemma_count_single(n, cfg.id as int, n);
        let sv = Seq::new(n, |i: int| i == cfg.id as int);
        assert(sv.take(n as int) =~= sv);
        assert(c.votes =~= sv);
        assert(count_true(c.votes) == 1);
    }
}

/// Messages from the node itself or from outside the cluster change
/// nothing and are not answered.
pub proof fn law_foreign_messages_ignored(s: NodeState, now: u64, from: NodeId, msg: MessageView)
    requires
        !s.from_peer(from),
    ensures
        s.handle(now, from, msg) == (s, crate::model::no_messages()),
{
}

/// Committed entries are delivered once each, in order, with their
/// indices: a delivery hands out the entries after the last delivered one
/// up to the commit index, and a second delivery right after it hands out
/// nothing.
pub proof fn law_committed_delivered_once(s: NodeState)
    requires
        s.committed_in_log(),
    ensures
        ({
            let (s1, out) = s.take_committed();
            &&& out.len() == if s.commit_index > s.applied_index {
                s.commit_index - s.applied_index
            } else {
                0
            }
            &&& forall|j: int|
                0 <= j < out.len() ==> (#[trigger] out[j]).0 == s.applied_index + 1 + j
                    && out[j].1 == s.log[s.applied_index + j]
            &&& s1.take_committed().1.len() == 0
        }),
{
}

/// Each committed index is delivered once, in increasing order: a node
/// never has delivered past its commit index; no tick, proposal or message
/// changes what it has delivered, and none lowers the commit index; and a
/// delivery hands out exactly the indices after the last delivered one up
/// to the commit index, and then has delivered them all.
pub proof fn law_each_committed_index_delivered_once(
    s: NodeState,
    now: u64,
    from: NodeId,
    msg: MessageView,
    command: Seq<u8>,
)
    requires
        s.inv(),
    ensures
        s.applied_index <= s.commit_index,
        s.tick(now).0.applied_index == s.applied_index,
        s.propose(command).0.applied_index == s.applied_index,
        s.handle(now, from, msg).0.applied_index == s.applied_index,
        s.tick(now).0.commit_index >= s.commit_index,
        s.propose(command).0.commit_index >= s.commit_index,
        s.handle(now, from, msg).0.commit_index >= s.commit_index,
        ({
            let (s1, out) = s.take_committed();
            &&& out.len() == s.commit_index - s.applied_index
            &&& forall|j: int| 0 <= j < out.len() ==> (#[trigger] out[j]).0 == s.applied_index + 1 + j
            &&& s1.applied_index == s.commit_index
            &&& s1.commit_index == s.commit_index
        }),
{
    law_commit_never_decreases(s, now, from, msg, command);
    lemma_term_check(s, now, msg);
}

/// An input to a node.
pub enum NodeInput {
    Tick(u64),
    Propose(Seq<u8>),
    Handle(u64, NodeId, MessageView),
    TakeCommitted,
}

/// A node's state after one input, and the indices it delivers.
pub open spec fn step(s: NodeState, input: NodeInput) -> (NodeState, Seq<Index>) {
    match input {
        NodeInput::Tick(now) => (s.tick(now).0, Seq::empty()),
        NodeInput::Propose(command) => (s.propose(command).0, Seq::empty()),
        NodeInput::Handle(now, from, msg) => (s.handle(now, from, msg).0, Seq::empty()),
        NodeInput::TakeCommitted => {
            let (s1, out) = s.take_committed();
            (s1, out.map_values(|p: (Index, EntryView)| p.0))
        },
    }
}

/// A node's state after a run of inputs, and every index delivered along
/// the way, in order.
pub open spec fn run(s: NodeState, inputs: Seq<NodeInput>) -> (NodeState, Seq<Index>)
    decreases inputs.len(),
{
    if inputs.len() == 0 {
        (s, Seq::empty())
    } else {
        let (s1, d1) = step(s, inputs[0]);
        let (s2, d2) = run(s1, inputs.drop_first());
        (s2, d1 + d2)
    }
}

/// Every state of the run has the shape of a reachable state (as every
/// state of an executable node has).
pub open spec fn run_stays_valid(s: NodeState, inputs: Seq<NodeInput>) -> bool
    decreases inputs.len(),
{
    &&& s.inv()
    &&& inputs.len() > 0 ==> run_stays_valid(step(s, inputs[0]).0, inputs.drop_first())
}

/// Over any run, the indices delivered are exactly those after the ones
/// delivered before it, each once, in increasing order, up to what has
/// been delivered at its end, which never passes the commit index. From a
/// fresh node they are 1, 2, 3, ...
pub proof fn law_run_delivers_each_index_once(s: NodeState, inputs: Seq<NodeInput>)
    requires
        run_stays_valid(s, inputs),
    ensures
        ({
            let (f, d) = run(s, inputs);
            &&& s.applied_index <= f.applied_index <= f.commit_index
            &&& d == Seq::new(
                (f.applied_index - s.applied_index) as nat,
                |j: int| (s.applied_index + 1 + j) as Index,
            )
        }),
    decreases inputs.len(),
{
    if inputs.len() == 0 {
        let (f, d) = run(s, inputs);
        assert(d =~= Seq::new(
            (f.applied_index - s.applied_index) as nat,
            |j: int| (s.applied_index + 1 + j) as Index,
        ));
    } else {
        let input = inputs[0];
        let (s1, d1) = step(s, input);
        law_run_delivers_each_index_once(s1, inputs.drop_first());
        let (f, d2) = run(s1, inputs.drop_first());
        match input {
            NodeInput::Tick(now) => {
                law_each_committed_index_delivered_once(s, now, 0, MessageView::VoteResponse { term: 0, granted: false }, Seq::empty());
                assert(d1 + d2 =~= d2);
            },
            NodeInput::Propose(command) => {
                law_each_committed_index_delivered_once(s, 0, 0, MessageView::VoteResponse { term: 0, granted: false }, command);
                assert(d1 + d2 =~= d2);
            },
            NodeInput::Handle(now, from, msg) => {
                law_each_committed_index_delivered_once(s, now, from, msg, Seq::empty());
                assert(d1 + d2 =~= d2);
            },
            NodeInput::TakeCommitted => {
                law_each_committed_index_delivered_once(s, 0, 0, MessageView::VoteResponse { term: 0, granted: false }, Seq::empty());
                assert(d1 =~= Seq::new(
                    (s1.applied_index - s.applied_index) as nat,
                    |j: int| (s.applied_index + 1 + j) as Index,
                ));
                assert(d1 + d2 =~= Seq::new(
                    (f.applied_index - s.applied_index) as nat,
                    |j: int| (s.applied_index + 1 + j) as Index,
                ));
            },
        }
    }
}

/// Scanning down from `index` commits at least `i` when every entry from
/// `i` up to `index` is from the current term and a quorum holds `i`.
proof fn lemma_commit_scan_reaches(s: NodeState, index: int, i: int)
    requires
        s.commit_index < i <= index <= s.log.len(),
        s.log.len() <= u64::MAX,
        forall|j: int| i <= j <= index ==> #[trigger] term_at(s.log, j) == s.term,
        s.replicas(i) >= s.quorum(),
    ensures
        s.commit_scan(index) >= i,
    decreases index - i,
{
    assert(term_at(s.log, index) == s.term);
    if index > i && s.replicas(index) < s.quorum() {
        lemma_commit_scan_reaches(s, index - 1, i);
    }
}

/// The leader's commit rule, maximal: advancing the commit index commits
/// every index in the final run of current-term entries that a quorum
/// holds (and, by `lemma_commit_scan`, nothing that is not such an index).
pub proof fn law_commit_advances_to_highest_quorum_index(s: NodeState, i: int)
    requires
        s.log.len() <= u64::MAX,
        s.commit_index < i <= s.log.len(),
        forall|j: int| i <= j <= s.log.len() ==> #[trigger] term_at(s.log, j) == s.term,
        s.replicas(i) >= s.quorum(),
    ensures
        s.with_commit_advanced().commit_index >= i,
{
    lemma_commit_scan_reaches(s, s.log.len() as int, i);
}

/// A leader's handling of a successful AppendEntries reply for its term:
/// the peer's match index becomes the larger of the old one and the
/// reported index (capped at the log), its next index the one after; every
/// index of the final run of current-term entries that a quorum now holds
/// is committed; and while the peer still lacks entries the leader sends it
/// the next AppendEntries at once, starting right after what it holds.
pub proof fn law_success_reply_advances_the_follower(
    s: NodeState,
    now: u64,
    from: NodeId,
    match_index: Index,
)
    requires
        s.inv(),
        s.role == Role::Leader,
        s.from_peer(from),
    ensures
        ({
            let msg = MessageView::AppendResponse { term: s.term, success: true, match_index };
            let (s1, out) = s.handle(now, from, msg);
            let m = if match_index <= s.log.len() {
                match_index as int
            } else {
                s.log.len() as int
            };
            let new_match = if s.match_index[from as int] >= m {
                s.match_index[from as int] as int
            } else {
                m
            };
            &&& s1.role == Role::Leader
            &&& s1.term == s.term
            &&& s1.log == s.log
            &&& s1.match_index[from as int] == new_match
            &&& s1.next_index[from as int] == new_match + 1
            &&& s1.commit_index >= s.commit_index
            &&& forall|i: int|
                s.commit_index < i <= s.log.len() && (forall|j: int|
                    i <= j <= s.log.len() ==> #[trigger] term_at(s.log, j) == s.term)
                    && s1.replicas(i) >= s1.quorum() ==> s1.commit_index >= i
            &&& new_match < s.log.len() ==> {
                &&& out.len() == 1
                &&& out[0].to == from
                &&& out[0].message == MessageView::AppendEntries {
                    term: s.term,
                    prev_index: new_match as Index,
                    prev_term: term_at(s.log, new_match),
                    entries: s.log.subrange(
                        new_match,
                        if s.log.len() <= new_match + s.cfg.max_batch {
                            s.log.len() as int
                        } else {
                            new_match + s.cfg.max_batch
                        },
                    ),
                    leader_commit: s1.commit_index,
                }
            }
            &&& new_match >= s.log.len() ==> out.len() == 0
        }),
{
    let msg = MessageView::AppendResponse { term: s.term, success: true, match_index };
    let m = crate::model::min_int(match_index as int, s.log.len() as int);
    let new_match = crate::model::max_int(s.match_index[from as int] as int, m);
    let p1 = NodeState {
        match_index: s.match_index.update(from as int, new_match as Index),
        next_index: s.next_index.update(from as int, (new_match + 1) as Index),
        ..s
    };
    lemma_commit_scan(p1, p1.log.len() as int);
    let s1 = s.handle(now, from, msg).0;
    assert(s1 == p1.with_commit_advanced());
    assert forall|i: int|
        s.commit_index < i <= s.log.len() && (forall|j: int|
            i <= j <= s.log.len() ==> #[trigger] term_at(s.log, j) == s.term) && s1.replicas(i)
            >= s1.quorum() implies s1.commit_index >= i by {
        law_commit_advances_to_highest_quorum_index(p1, i);
    }
}

/// The vote rule, both ways: a RequestVote from a peer is answered with
/// the node's term after adopting the candidate's (if newer), and the vote
/// is granted exactly when the request is for that term, the node has not
/// voted for another candidate in it, and the candidate's last entry is
/// from a newer term than the node's own last entry, or from the same term
/// at an index at least the node's log length.
pub proof fn law_vote_granted_exactly_by_the_rule(
    s: NodeState,
    now: u64,
    from: NodeId,
    term: Term,
    last_log_index: Index,
    last_log_term: Term,
)
    requires
        s.inv(),
        s.from_peer(from),
    ensures
        ({
            let msg = MessageView::RequestVote { term, last_log_index, last_log_term };
            let (s1, out) = s.handle(now, from, msg);
            let current = if term > s.term {
                term
            } else {
                s.term
            };
            let vote = if term > s.term {
                None
            } else {
                s.voted_for
            };
            let own_last = term_at(s.log, s.log.len() as int);
            let granted = term == current && (vote is None || vote == Some(from)) && (last_log_term
                > own_last || (last_log_term == own_last && last_log_index >= s.log.len()));
            &&& out.len() == 1
            &&& out[0].to == from
            &&& out[0].message == MessageView::VoteResponse { term: current, granted }
            &&& s1.term == current
            &&& s1.log == s.log
            &&& s1.voted_for == if granted {
                Some(from)
            } else {
                vote
            }
        }),
{
    let msg = MessageView::RequestVote { term, last_log_index, last_log_term };
    lemma_term_check(s, now, msg);
}

/// A crash loses a message but never a promise: a node restarted from
/// what its storage holds has the term, vote and log it had, so in that
/// term it still refuses its vote to any other candidate.
pub proof fn law_restart_keeps_promises(
    s: NodeState,
    now: u64,
    from: NodeId,
    term: Term,
    last_log_index: Index,
    last_log_term: Term,
)
    ensures
        ({
            let b = boot_state(s.cfg, s.persistent(), now);
            &&& b.term == s.term
            &&& b.voted_for == s.voted_for
            &&& b.log == s.log
            &&& b.role == Role::Follower
            &&& (s.voted_for matches Some(v) && v != from) ==> !b.grants_vote(
                from,
                term,
                last_log_index,
                last_log_term,
            )
        }),
{
}

/// Every message in `out` goes to a peer of the node: a node in the
/// cluster other than itself.
pub open spec fn to_peers(s: NodeState, out: Seq<OutgoingView>) -> bool {
    forall|k: int|
        0 <= k < out.len() ==> (#[trigger] out[k]).to < s.cfg.cluster_size && out[k].to
            != s.cfg.id
}

proof fn lemma_peers(s: NodeState)
    requires
        s.cfg.id < s.cfg.cluster_size,
    ensures
        forall|k: int|
            0 <= k < s.peers().len() ==> (#[trigger] s.peers()[k]) < s.cfg.cluster_size
                && s.peers()[k] != s.cfg.id,
{
}

proof fn lemma_broadcast_to_peers(s: NodeState)
    requires
        s.cfg.id < s.cfg.cluster_size,
    ensures
        to_peers(s, s.broadcast()),
{
    lemma_peers(s);
    assert forall|k: int| 0 <= k < s.broadcast().len() implies (#[trigger] s.broadcast()[k]).to
        < s.cfg.cluster_size && s.broadcast()[k].to != s.cfg.id by {
        assert(s.broadcast()[k].to == s.peers()[k]);
    }
}

proof fn lemma_become_leader_to_peers(s: NodeState, now: u64)
    requires
        s.cfg.id < s.cfg.cluster_size,
    ensures
        s.become_leader(now).0.cfg == s.cfg,
        to_peers(s, s.become_leader(now).1),
{
    lemma_broadcast_to_peers(s.become_leader(now).0);
}

/// A node never changes its configuration, and every message it sends, on
/// a tick, a proposal or a message, goes to a peer: a node of the cluster
/// other than itself.
pub proof fn law_messages_go_to_peers(
    s: NodeState,
    now: u64,
    from: NodeId,
    msg: MessageView,
    command: Seq<u8>,
)
    requires
        s.cfg.id < s.cfg.cluster_size,
    ensures
        s.tick(now).0.cfg == s.cfg,
        to_peers(s, s.tick(now).1),
        s.propose(command).0.cfg == s.cfg,
        s.propose(command).1 matches Ok((_, out)) ==> to_peers(s, out),
        s.handle(now, from, msg).0.cfg == s.cfg,
        to_peers(s, s.handle(now, from, msg).1),
{
    // tick
    if s.role == Role::Leader {
        if now >= s.heartbeat_deadline {
            let s1 = NodeState { heartbeat_deadline: (now + s.cfg.heartbeat_interval) as u64, ..s };
            lemma_broadcast_to_peers(s1);
        }
    } else if now >= s.election_deadline {
        let s1 = s.candidate(now);
        if count_true(s1.votes) >= s1.quorum() {
            lemma_become_leader_to_peers(s1, now);
        } else {
            lemma_peers(s1);
            let out = s.tick(now).1;
            assert forall|k: int| 0 <= k < out.len() implies (#[trigger] out[k]).to
                < s.cfg.cluster_size && out[k].to != s.cfg.id by {
                assert(out[k].to == s1.peers()[k]);
            }
        }
    }
    // propose
    if s.role == Role::Leader {
        let s1 = NodeState { log: s.log.push(EntryView { term: s.term, command }), ..s }.with_commit_advanced();
        lemma_broadcast_to_peers(s1);
    }
    // handle
    if s.from_peer(from) {
        let t = s.after_term_check(now, msg);
        match msg {
            MessageView::VoteResponse { term, granted } => {
                if t.counts_vote(term, granted) {
                    lemma_become_leader_to_peers(t.with_vote_from(from), now);
                }
            },
            _ => {},
        }
    }
}

} // verus!
