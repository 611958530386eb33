//! The safety checker of the simulated cluster. After every tick it looks
//! at every live node and verifies Raft's safety properties against what
//! it has seen before:
//!
//! - terms never go backwards on a node, even across restarts;
//! - election safety: at most one leader per term;
//! - state-machine safety: every node's committed prefix agrees with the
//!   committed log seen so far, which only ever grows;
//! - leader completeness: a leader holds every committed entry from an
//!   earlier term than its own;
//! - log matching: two logs that agree on the term at an index agree on
//!   everything up to it.

use vstd::prelude::*;

use crate::message::{view_entries, Entry, EntryView, Index, NodeId, Term};
use crate::model::{NodeState, Role};
use crate::node::Node;
use crate::storage::Storage;
use std::collections::BTreeMap;

verus! {

broadcast use vstd::std_specs::btree::group_btree_axioms, vstd::laws_cmp::group_laws_cmp;

/// A broken safety property and where it was seen.
#[derive(Debug, Clone, Copy, PartialEq, Eq, Structural)]
pub enum Breach {
    /// A node's term is below one it had before.
    TermWentBackwards { node: NodeId, from: Term, to: Term },
    /// Two nodes lead the same term.
    TwoLeaders { first: NodeId, second: NodeId, term: Term },
    /// A node's commit index is past the end of its log.
    CommitBeyondLog { node: NodeId },
    /// A node committed an entry different from the one committed at the
    /// same index before (1-based).
    CommittedEntryDiffers { node: NodeId, index: Index },
    /// A leader lacks a committed entry from an earlier term (1-based).
    LeaderLacksCommitted { node: NodeId, term: Term, index: Index },
    /// Two logs agree on the term at an index (1-based) but differ before it.
    LogMismatch { a: NodeId, b: NodeId, index: Index },
    /// A restarted node lost entries it had committed before its crash.
    LostCommittedEntries { node: NodeId, commit: Index },
}

/// A safety violation and the tick it was seen on.
#[derive(Debug, Clone, Copy, PartialEq, Eq, Structural)]
pub struct Violation {
    pub tick: u64,
    pub breach: Breach,
}

/// What the checker remembers between ticks.
pub struct CheckerView {
    /// The node that led each term seen with a leader.
    pub leaders: Map<Term, NodeId>,
    /// The committed log seen so far.
    pub committed: Seq<EntryView>,
    /// Per node, the highest commit index seen.
    pub max_commit: Seq<Index>,
    /// Per node, the highest term seen.
    pub max_term: Seq<Term>,
}

/// The states of the nodes, `None` for a crashed one.
pub type Observed = Seq<Option<NodeState>>;

/// `a` is a prefix of `b` or `b` of `a`.
pub open spec fn compatible(a: Seq<EntryView>, b: Seq<EntryView>) -> bool {
    a.is_prefix_of(b) || b.is_prefix_of(a)
}

/// A node's committed prefix.
pub open spec fn committed_prefix(s: NodeState) -> Seq<EntryView> {
    s.log.take(s.commit_index as int)
}

/// The committed log after looking at nodes `0..i`: each live node's
/// committed prefix extends it when longer.
pub open spec fn merged_committed(g: Seq<EntryView>, o: Observed, i: int) -> Seq<EntryView>
    decreases i,
{
    if i <= 0 {
        g
    } else {
        let prev = merged_committed(g, o, i - 1);
        match o[i - 1] {
            Some(s) => if committed_prefix(s).len() > prev.len() {
                committed_prefix(s)
            } else {
                prev
            },
            None => prev,
        }
    }
}

/// How many entries at the front of `g` are from a term before `t`.
pub open spec fn before_term(g: Seq<EntryView>, t: Term) -> int
    decreases g.len(),
{
    if g.len() == 0 || g[0].term >= t {
        0
    } else {
        1 + before_term(g.drop_first(), t)
    }
}

pub open spec fn live_leader(o: Observed, i: int) -> bool {
    0 <= i < o.len() && o[i] is Some && o[i]->0.role == Role::Leader
}

/// Terms never went backwards.
pub open spec fn terms_ok(c: CheckerView, o: Observed) -> bool {
    forall|i: int| 0 <= i < o.len() && #[trigger] o[i] is Some ==> o[i]->0.term >= c.max_term[i]
}

/// At most one leader per term, counting those seen before.
pub open spec fn leaders_ok(c: CheckerView, o: Observed) -> bool {
    &&& forall|i: int|
        #![trigger live_leader(o, i)]
        live_leader(o, i) && c.leaders.contains_key(o[i]->0.term) ==> c.leaders[o[i]->0.term]
            == i
    &&& forall|i: int, j: int|
        #![trigger live_leader(o, i), live_leader(o, j)]
        i < j && live_leader(o, i) && live_leader(o, j) ==> o[i]->0.term != o[j]->0.term
}

/// Every live node's commit index is within its log, and the committed
/// prefixes agree with each other and with the committed log seen so far.
pub open spec fn committed_ok(c: CheckerView, o: Observed) -> bool {
    &&& forall|i: int|
        0 <= i < o.len() && #[trigger] o[i] is Some ==> o[i]->0.commit_index <= o[i]->0.log.len()
    &&& forall|i: int|
        0 <= i < o.len() && #[trigger] o[i] is Some ==> compatible(
            c.committed,
            committed_prefix(o[i]->0),
        )
    &&& forall|i: int, j: int|
        0 <= i < j < o.len() && #[trigger] o[i] is Some && #[trigger] o[j] is Some ==> compatible(
            committed_prefix(o[i]->0),
            committed_prefix(o[j]->0),
        )
}

/// Every live leader holds the entries of `g` from terms before its own.
pub open spec fn leaders_hold(g: Seq<EntryView>, o: Observed) -> bool {
    forall|i: int|
        #![trigger live_leader(o, i)]
        live_leader(o, i) ==> g.take(before_term(g, o[i]->0.term)).is_prefix_of(o[i]->0.log)
}

/// Every live leader holds the committed entries from terms before its own.
pub open spec fn completeness_ok(c: CheckerView, o: Observed) -> bool {
    leaders_hold(merged_committed(c.committed, o, o.len() as int), o)
}

/// Wherever two logs agree on the term at an index, they agree on
/// everything up to it.
pub open spec fn logs_match(la: Seq<EntryView>, lb: Seq<EntryView>) -> bool {
    forall|k: int|
        #![trigger la[k], lb[k]]
        0 <= k < la.len() && k < lb.len() && la[k].term == lb[k].term ==> la.take(k + 1) == lb.take(
            k + 1,
        )
}

/// Two live logs that agree on the term at an index agree up to it.
pub open spec fn matching_ok(o: Observed) -> bool {
    forall|a: int, b: int|
        0 <= a < b < o.len() && #[trigger] o[a] is Some && #[trigger] o[b] is Some ==> logs_match(
            o[a]->0.log,
            o[b]->0.log,
        )
}

/// All the safety properties hold of the live nodes.
pub open spec fn safe(c: CheckerView, o: Observed) -> bool {
    &&& terms_ok(c, o)
    &&& leaders_ok(c, o)
    &&& committed_ok(c, o)
    &&& completeness_ok(c, o)
    &&& matching_ok(o)
}

/// What the live nodes look like.
pub open spec fn observe<S: Storage>(nodes: Seq<Option<Node<S>>>) -> Observed {
    nodes.map_values(|o: Option<Node<S>>| match o {
        Some(n) => Some(n@),
        None => None,
    })
}

/// The leaders known after looking at nodes `0..i`: each live leader of a
/// term with no known leader becomes its leader.
pub open spec fn leaders_upto(leaders: Map<Term, NodeId>, o: Observed, i: int) -> Map<Term, NodeId>
    decreases i,
{
    if i <= 0 {
        leaders
    } else {
        let prev = leaders_upto(leaders, o, i - 1);
        if live_leader(o, i - 1) && !prev.contains_key(o[i - 1]->0.term) {
            prev.insert(o[i - 1]->0.term, (i - 1) as NodeId)
        } else {
            prev
        }
    }
}

/// What the checker remembers after a tick on which every property held.
pub open spec fn next_view(c: CheckerView, o: Observed) -> CheckerView {
    CheckerView {
        leaders: leaders_upto(c.leaders, o, o.len() as int),
        committed: merged_committed(c.committed, o, o.len() as int),
        max_commit: Seq::new(
            c.max_commit.len(),
            |i: int|
                if o[i] is Some && o[i]->0.commit_index > c.max_commit[i] {
                    o[i]->0.commit_index
                } else {
                    c.max_commit[i]
                },
        ),
        max_term: Seq::new(
            c.max_term.len(),
            |i: int|
                if o[i] is Some {
                    o[i]->0.term
                } else {
                    c.max_term[i]
                },
        ),
    }
}

/// The breach did happen: what it reports is true of the nodes and of
/// what the checker saw before.
pub open spec fn breach_holds(c: CheckerView, o: Observed, b: Breach) -> bool {
    let g = merged_committed(c.committed, o, o.len() as int);
    match b {
        Breach::TermWentBackwards { node, from, to } => {
            &&& node < o.len()
            &&& o[node as int] is Some
            &&& from == c.max_term[node as int]
            &&& to == o[node as int]->0.term
            &&& to < from
        },
        Breach::TwoLeaders { first, second, term } => {
            &&& live_leader(o, second as int)
            &&& o[second as int]->0.term == term
            &&& first != second
            &&& ((c.leaders.contains_key(term) && c.leaders[term] == first) || (live_leader(
                o,
                first as int,
            ) && o[first as int]->0.term == term))
        },
        Breach::CommitBeyondLog { node } => {
            &&& node < o.len()
            &&& o[node as int] is Some
            &&& o[node as int]->0.commit_index > o[node as int]->0.log.len()
        },
        Breach::CommittedEntryDiffers { node, index } => {
            let s = o[node as int]->0;
            let r = merged_committed(c.committed, o, node as int);
            &&& node < o.len()
            &&& o[node as int] is Some
            &&& 1 <= index <= s.commit_index
            &&& index <= s.log.len()
            &&& index <= r.len()
            &&& r[index - 1] != s.log[index - 1]
        },
        Breach::LeaderLacksCommitted { node, term, index } => {
            let s = o[node as int]->0;
            &&& live_leader(o, node as int)
            &&& term == s.term
            &&& 1 <= index <= before_term(g, term)
            &&& (index > s.log.len() || s.log[index - 1] != g[index - 1])
        },
        Breach::LogMismatch { a, b, index } => {
            let la = o[a as int]->0.log;
            let lb = o[b as int]->0.log;
            &&& a < b < o.len()
            &&& o[a as int] is Some
            &&& o[b as int] is Some
            &&& 1 <= index <= la.len()
            &&& index <= lb.len()
            &&& la[index - 1].term == lb[index - 1].term
            &&& la.take(index as int) != lb.take(index as int)
        },
        Breach::LostCommittedEntries { .. } => false,
    }
}

/// The breach of the term rules at node `i`, given the leaders known
/// from the nodes before it: a term below one seen before, or leading a
/// term another node leads.
pub open spec fn term_breach_at(c: CheckerView, o: Observed, i: int) -> Option<Breach> {
    match o[i] {
        None => None,
        Some(s) => {
            let known = leaders_upto(c.leaders, o, i);
            if s.term < c.max_term[i] {
                Some(
                    Breach::TermWentBackwards { node: i as NodeId, from: c.max_term[i], to: s.term },
                )
            } else if s.role == Role::Leader && known.contains_key(s.term) && known[s.term]
                != i {
                Some(Breach::TwoLeaders { first: known[s.term], second: i as NodeId, term: s.term })
            } else {
                None
            }
        },
    }
}

/// The first position from `k` below `m` where `a` and `b` differ.
pub open spec fn first_diff_from(a: Seq<EntryView>, b: Seq<EntryView>, k: int, m: int) -> Option<int>
    decreases m - k,
{
    if k >= m {
        None
    } else if a[k] != b[k] {
        Some(k)
    } else {
        first_diff_from(a, b, k + 1, m)
    }
}

/// The breach of state-machine safety at node `i`, given the committed
/// log merged from the nodes before it: a commit index past the log, or
/// the first committed entry that differs from the committed log.
pub open spec fn committed_breach_at(g: Seq<EntryView>, o: Observed, i: int) -> Option<Breach> {
    match o[i] {
        None => None,
        Some(s) => if s.commit_index > s.log.len() {
            Some(Breach::CommitBeyondLog { node: i as NodeId })
        } else {
            let g0 = merged_committed(g, o, i);
            let m = if s.commit_index < g0.len() {
                s.commit_index as int
            } else {
                g0.len() as int
            };
            match first_diff_from(g0, s.log, 0, m) {
                Some(k) => Some(
                    Breach::CommittedEntryDiffers { node: i as NodeId, index: (k + 1) as Index },
                ),
                None => None,
            }
        },
    }
}

/// The first entry of `g` before its first entry from term `t` that
/// `log` does not hold, from position `k`.
pub open spec fn first_lack_from(g: Seq<EntryView>, log: Seq<EntryView>, t: Term, k: int) -> Option<
    int,
>
    decreases g.len() - k,
{
    if k >= g.len() || g[k].term >= t {
        None
    } else if k >= log.len() || log[k] != g[k] {
        Some(k)
    } else {
        first_lack_from(g, log, t, k + 1)
    }
}

/// The breach of leader completeness at node `i` against the committed
/// log `g`.
pub open spec fn completeness_breach_at(g: Seq<EntryView>, o: Observed, i: int) -> Option<Breach> {
    if live_leader(o, i) {
        let s = o[i]->0;
        match first_lack_from(g, s.log, s.term, 0) {
            Some(k) => Some(
                Breach::LeaderLacksCommitted { node: i as NodeId, term: s.term, index: (k + 1) as Index },
            ),
            None => None,
        }
    } else {
        None
    }
}

/// The last position below `k` where the logs agree on the term.
pub open spec fn last_agreement(la: Seq<EntryView>, lb: Seq<EntryView>, k: int) -> Option<int>
    decreases k,
{
    if k <= 0 {
        None
    } else if la[k - 1].term == lb[k - 1].term {
        Some(k - 1)
    } else {
        last_agreement(la, lb, k - 1)
    }
}

/// The breach of log matching between nodes `a` and `b`: they agree on
/// the term at the last position where they do, but differ before it.
pub open spec fn matching_breach_at(o: Observed, a: int, b: int) -> Option<Breach> {
    match (o[a], o[b]) {
        (Some(x), Some(y)) => {
            let m = if x.log.len() < y.log.len() {
                x.log.len() as int
            } else {
                y.log.len() as int
            };
            match last_agreement(x.log, y.log, m) {
                Some(k) => if x.log.take(k + 1) != y.log.take(k + 1) {
                    Some(
                        Breach::LogMismatch {
                            a: a as NodeId,
                            b: b as NodeId,
                            index: (k + 1) as Index,
                        },
                    )
                } else {
                    None
                },
                None => None,
            }
        },
        _ => None,
    }
}

/// The first node from `i` with a breach found by `at`.
pub open spec fn first_at(n: int, i: int, at: spec_fn(int) -> Option<Breach>) -> Option<Breach>
    decreases n - i,
{
    if i >= n {
        None
    } else if at(i) is Some {
        at(i)
    } else {
        first_at(n, i + 1, at)
    }
}

/// The first node from `i` at which `at` finds a breach; `n` if none.
pub open spec fn first_index(n: int, i: int, at: spec_fn(int) -> Option<Breach>) -> int
    decreases n - i,
{
    if i >= n {
        n
    } else if at(i) is Some {
        i
    } else {
        first_index(n, i + 1, at)
    }
}

/// What the checker remembers after looking at the term rules: every node
/// before the first breach (all nodes when there is none) has its term
/// recorded, and each of them that leads a term with no known leader is
/// recorded as its leader; at a node leading a term another node leads,
/// its term is recorded too.
pub open spec fn after_terms(c: CheckerView, o: Observed) -> CheckerView {
    let k = first_index(o.len() as int, 0, |i: int| term_breach_at(c, o, i));
    CheckerView {
        leaders: leaders_upto(c.leaders, o, k),
        max_term: Seq::new(
            c.max_term.len(),
            |j: int|
                if o[j] is Some && (j < k || (j == k && o[j]->0.term >= c.max_term[j])) {
                    o[j]->0.term
                } else {
                    c.max_term[j]
                },
        ),
        ..c
    }
}

/// What the checker remembers after looking at the committed prefixes:
/// those of the nodes before the first breach (all nodes when there is
/// none) are merged into the committed log, and their commit indices
/// recorded.
pub open spec fn after_committed(c: CheckerView, o: Observed) -> CheckerView {
    let k = first_index(o.len() as int, 0, |i: int| committed_breach_at(c.committed, o, i));
    CheckerView {
        committed: merged_committed(c.committed, o, k),
        max_commit: Seq::new(
            c.max_commit.len(),
            |j: int|
                if j < k && o[j] is Some && o[j]->0.commit_index > c.max_commit[j] {
                    o[j]->0.commit_index
                } else {
                    c.max_commit[j]
                },
        ),
        ..c
    }
}

/// What the checker remembers after a check, whether or not it found a
/// breach: what it learned up to the first breach, in the order it looks.
pub open spec fn checker_after(c: CheckerView, o: Observed) -> CheckerView {
    if first_term_breach(c, o) is Some {
        after_terms(c, o)
    } else {
        after_committed(after_terms(c, o), o)
    }
}

/// When `at` finds nothing before `i`, the first index from 0 is the
/// first from `i`.
proof fn lemma_first_index_skip(n: int, i: int, at: spec_fn(int) -> Option<Breach>)
    requires
        0 <= i,
        forall|j: int| 0 <= j < i && j < n ==> #[trigger] at(j) is None,
    ensures
        first_index(n, 0, at) == first_index(n, i, at),
    decreases i,
{
    if i > 0 {
        lemma_first_index_skip(n, i - 1, at);
        if i - 1 < n {
            assert(at(i - 1) is None);
        }
    }
}

/// The first pair of nodes from `(a, b)`, in order, with a breach of log
/// matching.
pub open spec fn first_pair_from(o: Observed, a: int, b: int) -> Option<Breach>
    decreases o.len() - a, o.len() - b,
{
    if a >= o.len() {
        None
    } else if b >= o.len() {
        first_pair_from(o, a + 1, a + 2)
    } else if matching_breach_at(o, a, b) is Some {
        matching_breach_at(o, a, b)
    } else {
        first_pair_from(o, a, b + 1)
    }
}

/// The first node with a breach of the term rules.
pub open spec fn first_term_breach(c: CheckerView, o: Observed) -> Option<Breach> {
    first_at(o.len() as int, 0, |i: int| term_breach_at(c, o, i))
}

/// The first node with a breach of state-machine safety.
pub open spec fn first_committed_breach(g: Seq<EntryView>, o: Observed) -> Option<Breach> {
    first_at(o.len() as int, 0, |i: int| committed_breach_at(g, o, i))
}

/// The first leader with a breach of leader completeness against `g`.
pub open spec fn first_completeness_breach(g: Seq<EntryView>, o: Observed) -> Option<Breach> {
    first_at(o.len() as int, 0, |i: int| completeness_breach_at(g, o, i))
}

/// The breach the checker reports: it checks the term rules node by node,
/// then state-machine safety node by node, then leader completeness
/// against the merged committed log, then log matching pair by pair, and
/// reports the first breach it meets.
pub open spec fn first_breach(c: CheckerView, o: Observed) -> Option<Breach> {
    let terms = first_term_breach(c, o);
    let committed = first_committed_breach(c.committed, o);
    let complete = first_completeness_breach(merged_committed(c.committed, o, o.len() as int), o);
    if terms is Some {
        terms
    } else if committed is Some {
        committed
    } else if complete is Some {
        complete
    } else {
        first_pair_from(o, 0, 1)
    }
}

/// When `at` finds nothing before `i`, the first breach from 0 is the
/// first from `i`.
proof fn lemma_first_at_skip(n: int, i: int, at: spec_fn(int) -> Option<Breach>)
    requires
        0 <= i,
        forall|j: int| 0 <= j < i && j < n ==> #[trigger] at(j) is None,
    ensures
        first_at(n, 0, at) == first_at(n, i, at),
    decreases i,
{
    if i > 0 {
        lemma_first_at_skip(n, i - 1, at);
        if i - 1 < n {
            assert(at(i - 1) is None);
        }
    }
}

/// `first_diff_from` finds `k` when the sequences agree from `j` up to it.
proof fn lemma_first_diff(a: Seq<EntryView>, b: Seq<EntryView>, j: int, m: int, k: int)
    requires
        0 <= j <= k <= m,
        forall|q: int| j <= q < k ==> a[q] == b[q],
        k == m || a[k] != b[k],
    ensures
        first_diff_from(a, b, j, m) == if k < m {
            Some(k)
        } else {
            None
        },
    decreases k - j,
{
    if j < k {
        lemma_first_diff(a, b, j + 1, m, k);
    }
}

/// `first_lack_from` finds `k` when `log` holds `g` from `j` up to it.
proof fn lemma_first_lack(g: Seq<EntryView>, log: Seq<EntryView>, t: Term, j: int, k: int)
    requires
        0 <= j <= k,
        k <= g.len(),
        k <= log.len(),
        forall|q: int| j <= q < k ==> (#[trigger] g[q]).term < t,
        forall|q: int| j <= q < k ==> log[q] == #[trigger] g[q],
        k >= g.len() || g[k].term >= t || k >= log.len() || log[k] != g[k],
    ensures
        first_lack_from(g, log, t, j) == if k < g.len() && g[k].term < t {
            Some(k)
        } else {
            None
        },
    decreases k - j,
{
    if j < k {
        lemma_first_lack(g, log, t, j + 1, k);
    }
}

/// Positions where the logs disagree on the term do not change the last
/// agreement below them.
proof fn lemma_last_agreement(la: Seq<EntryView>, lb: Seq<EntryView>, j: int, m: int)
    requires
        0 <= j <= m,
        forall|q: int| j <= q < m ==> #[trigger] la[q].term != #[trigger] lb[q].term,
    ensures
        last_agreement(la, lb, m) == last_agreement(la, lb, j),
    decreases m - j,
{
    if j < m {
        lemma_last_agreement(la, lb, j, m - 1);
        assert(la[m - 1].term != lb[m - 1].term);
    }
}

/// Whether two entries are equal.
pub fn entry_eq(a: &Entry, b: &Entry) -> (r: bool)
    ensures
        r == (a@ == b@),
{
    a.term == b.term && crate::kv::key_eq(a.command.as_slice(), b.command.as_slice())
}

proof fn lemma_prefix_trans(a: Seq<EntryView>, b: Seq<EntryView>, c: Seq<EntryView>)
    requires
        a.is_prefix_of(b),
        b.is_prefix_of(c),
    ensures
        a.is_prefix_of(c),
{
    assert(a =~= c.take(a.len() as int));
}

proof fn lemma_common_prefix(a: Seq<EntryView>, b: Seq<EntryView>, c: Seq<EntryView>)
    requires
        a.is_prefix_of(c),
        b.is_prefix_of(c),
    ensures
        compatible(a, b),
{
    if a.len() <= b.len() {
        assert(a =~= b.take(a.len() as int));
    } else {
        assert(b =~= a.take(b.len() as int));
    }
}

/// Two sequences that differ at a position inside both are not
/// compatible.
proof fn lemma_differ_incompatible(a: Seq<EntryView>, b: Seq<EntryView>, k: int)
    requires
        0 <= k < a.len(),
        k < b.len(),
        a[k] != b[k],
    ensures
        !compatible(a, b),
{
    if a.is_prefix_of(b) {
        assert(a[k] == b.take(a.len() as int)[k]);
    }
    if b.is_prefix_of(a) {
        assert(b[k] == a.take(b.len() as int)[k]);
    }
}

/// The merged committed log is the starting one or some node's committed
/// prefix.
proof fn lemma_merged_is_one_of(g: Seq<EntryView>, o: Observed, i: int)
    requires
        0 <= i <= o.len(),
    ensures
        merged_committed(g, o, i) == g || exists|j: int|
            0 <= j < i && #[trigger] o[j] is Some && merged_committed(g, o, i) == committed_prefix(
                o[j]->0,
            ),
    decreases i,
{
    if i > 0 {
        lemma_merged_is_one_of(g, o, i - 1);
        if merged_committed(g, o, i) != merged_committed(g, o, i - 1) {
            assert(o[i - 1] is Some);
        }
    }
}

/// `before_term` counts the entries before the first one from term `t` or
/// later.
proof fn lemma_before_term(g: Seq<EntryView>, t: Term)
    ensures
        0 <= before_term(g, t) <= g.len(),
        forall|q: int| 0 <= q < before_term(g, t) ==> (#[trigger] g[q]).term < t,
        before_term(g, t) < g.len() ==> g[before_term(g, t)].term >= t,
    decreases g.len(),
{
    if g.len() > 0 && g[0].term < t {
        lemma_before_term(g.drop_first(), t);
        assert forall|q: int| 0 <= q < before_term(g, t) implies (#[trigger] g[q]).term < t by {
            if q > 0 {
                assert(g[q] == g.drop_first()[q - 1]);
            }
        }
    }
}

/// The merged committed log extends the starting one when every
/// committed prefix looked at agrees with it.
proof fn lemma_merged_extends(g: Seq<EntryView>, o: Observed, i: int)
    requires
        0 <= i <= o.len(),
        forall|j: int| 0 <= j < i && #[trigger] o[j] is Some ==> compatible(g, committed_prefix(o[j]->0)),
    ensures
        g.is_prefix_of(merged_committed(g, o, i)),
    decreases i,
{
    if i > 0 {
        lemma_merged_extends(g, o, i - 1);
        let prev = merged_committed(g, o, i - 1);
        if let Some(s) = o[i - 1] {
            let p = committed_prefix(s);
            if p.len() > prev.len() {
                assert(compatible(g, p));
                assert(g.is_prefix_of(p));
            }
        }
    }
}

/// The leaders known after looking at more nodes keep every leader known
/// before.
proof fn lemma_leaders_kept(leaders: Map<Term, NodeId>, o: Observed, i: int)
    requires
        0 <= i <= o.len(),
    ensures
        forall|t: Term| #[trigger] leaders.contains_key(t) ==> leaders_upto(leaders, o, i).contains_key(t)
            && leaders_upto(leaders, o, i)[t] == leaders[t],
    decreases i,
{
    if i > 0 {
        lemma_leaders_kept(leaders, o, i - 1);
    }
}

/// The merged committed log extends every committed prefix merged into
/// it, when those prefixes and the starting log pairwise agree.
proof fn lemma_prefixes_in_merged(g: Seq<EntryView>, o: Observed, i: int)
    requires
        0 <= i <= o.len(),
        forall|j: int| 0 <= j < i && #[trigger] o[j] is Some ==> compatible(g, committed_prefix(o[j]->0)),
        forall|j: int, k: int|
            0 <= j < k < i && #[trigger] o[j] is Some && #[trigger] o[k] is Some ==> compatible(
                committed_prefix(o[j]->0),
                committed_prefix(o[k]->0),
            ),
    ensures
        forall|j: int|
            0 <= j < i && #[trigger] o[j] is Some ==> committed_prefix(o[j]->0).is_prefix_of(
                merged_committed(g, o, i),
            ),
    decreases i,
{
    if i > 0 {
        lemma_prefixes_in_merged(g, o, i - 1);
        lemma_merged_extends(g, o, i - 1);
        lemma_merged_is_one_of(g, o, i - 1);
        let prev = merged_committed(g, o, i - 1);
        let cur = merged_committed(g, o, i);
        if let Some(s) = o[i - 1] {
            let p = committed_prefix(s);
            // `prev` is `g` or an earlier prefix, so it agrees with `p`.
            assert(compatible(prev, p)) by {
                if prev != g {
                    let j = choose|j: int|
                        0 <= j < i - 1 && #[trigger] o[j] is Some && prev == committed_prefix(
                            o[j]->0,
                        );
                    assert(compatible(committed_prefix(o[j]->0), p));
                }
            }
            if p.len() > prev.len() {
                assert(prev.is_prefix_of(p));
                assert forall|j: int| 0 <= j < i && #[trigger] o[j] is Some implies committed_prefix(
                    o[j]->0,
                ).is_prefix_of(cur) by {
                    if j < i - 1 {
                        lemma_prefix_trans(committed_prefix(o[j]->0), prev, p);
                    }
                }
            } else {
                assert(p.is_prefix_of(prev));
            }
        }
    }
}

/// Every live node's committed prefix is a prefix of the committed log
/// the checker keeps after a tick on which every property held.
pub proof fn law_committed_prefixes_in_committed_log(c: CheckerView, o: Observed)
    requires
        c.max_commit.len() == o.len(),
        c.max_term.len() == o.len(),
        safe(c, o),
    ensures
        forall|i: int|
            0 <= i < o.len() && #[trigger] o[i] is Some ==> committed_prefix(o[i]->0).is_prefix_of(
                next_view(c, o).committed,
            ),
{
    lemma_prefixes_in_merged(c.committed, o, o.len() as int);
}

/// What the checker remembers only grows: after a tick on which every
/// property held, the committed log extends the one before, every leader
/// known before is still known for its term, and no node's highest commit
/// index or term seen went down.
pub proof fn law_checker_only_learns(c: CheckerView, o: Observed)
    requires
        c.max_commit.len() == o.len(),
        c.max_term.len() == o.len(),
        safe(c, o),
    ensures
        ({
            let c1 = next_view(c, o);
            &&& c.committed.is_prefix_of(c1.committed)
            &&& forall|t: Term| #[trigger] c.leaders.contains_key(t) ==> c1.leaders.contains_key(t)
                && c1.leaders[t] == c.leaders[t]
            &&& forall|i: int| 0 <= i < o.len() ==> #[trigger] c1.max_commit[i] >= c.max_commit[i]
            &&& forall|i: int| 0 <= i < o.len() ==> #[trigger] c1.max_term[i] >= c.max_term[i]
        }),
{
    lemma_merged_extends(c.committed, o, o.len() as int);
    lemma_leaders_kept(c.leaders, o, o.len() as int);
    let c1 = next_view(c, o);
    assert forall|i: int| 0 <= i < o.len() implies #[trigger] c1.max_term[i] >= c.max_term[i] by {
        if o[i] is Some {
            assert(o[i]->0.term >= c.max_term[i]);
        }
    }
}

/// The safety checker's memory.
pub struct Checker {
    leaders_by_term: BTreeMap<Term, NodeId>,
    committed: Vec<Entry>,
    max_commit_seen: Vec<Index>,
    max_term_seen: Vec<Term>,
}

impl View for Checker {
    type V = CheckerView;

    closed spec fn view(&self) -> CheckerView {
        CheckerView {
            leaders: self.leaders_by_term@,
            committed: view_entries(self.committed@),
            max_commit: self.max_commit_seen@,
            max_term: self.max_term_seen@,
        }
    }
}

impl Checker {
    /// A checker for `n` nodes that has seen nothing yet.
    pub fn new(n: usize) -> (c: Checker)
        ensures
            c@.leaders == Map::<Term, NodeId>::empty(),
            c@.committed == Seq::<EntryView>::empty(),
            c@.max_commit == Seq::new(n as nat, |i: int| 0 as Index),
            c@.max_term == Seq::new(n as nat, |i: int| 0 as Term),
    {
        let c = Checker {
            leaders_by_term: BTreeMap::new(),
            committed: Vec::new(),
            max_commit_seen: vec![0; n],
            max_term_seen: vec![0; n],
        };
        assert(c@.committed =~= Seq::<EntryView>::empty());
        assert(c@.max_commit =~= Seq::new(n as nat, |i: int| 0 as Index));
        assert(c@.max_term =~= Seq::new(n as nat, |i: int| 0 as Term));
        c
    }

    /// The committed log seen so far.
    pub fn committed(&self) -> (log: &[Entry])
        ensures
            view_entries(log@) == self@.committed,
    {
        self.committed.as_slice()
    }

    /// How many terms were seen with a leader.
    pub fn terms_with_a_leader(&self) -> (n: usize)
        ensures
            n == self@.leaders.len(),
    {
        self.leaders_by_term.len()
    }

    /// The highest commit index seen on node `i`.
    pub fn max_commit_seen(&self, i: NodeId) -> (c: Index)
        requires
            i < self@.max_commit.len(),
        ensures
            c == self@.max_commit[i as int],
    {
        self.max_commit_seen[i]
    }

    /// Looks at the live nodes after a tick and verifies every safety
    /// property against what was seen before. On success it remembers
    /// what it saw; on failure it reports a breach that did happen.
    pub fn check<S: Storage>(&mut self, tick: u64, nodes: &Vec<Option<Node<S>>>) -> (r: Result<
        (),
        Violation,
    >)
        requires
            old(self)@.max_term.len() == nodes@.len(),
            old(self)@.max_commit.len() == nodes@.len(),
        ensures
            ({
                let c = old(self)@;
                let o = observe(nodes@);
                &&& r is Ok <==> safe(c, o)
                &&& r is Ok ==> final(self)@ == next_view(c, o)
                &&& r matches Err(v) ==> v.tick == tick && breach_holds(c, o, v.breach)
                &&& r is Ok <==> first_breach(c, o) is None
                &&& r matches Err(v) ==> first_breach(c, o) == Some(v.breach)
                &&& final(self)@ == checker_after(c, o)
                &&& final(self)@.max_commit.len() == c.max_commit.len()
                &&& final(self)@.max_term.len() == c.max_term.len()
            }),
    {
        let ghost c = self@;
        let ghost o = observe(nodes@);
        match self.check_terms(tick, nodes) {
            Ok(()) => {},
            Err(v) => {
                return Err(v);
            },
        }
        let ghost c1 = self@;
        assert(c1.committed == c.committed && c1.max_commit == c.max_commit);
        match self.check_committed(tick, nodes) {
            Ok(()) => {},
            Err(v) => {
                return Err(v);
            },
        }
        let ghost c2 = self@;
        match self.check_completeness(tick, nodes) {
            Ok(()) => {},
            Err(v) => {
                return Err(v);
            },
        }
        match self.check_matching(tick, nodes) {
            Ok(()) => {},
            Err(v) => {
                return Err(v);
            },
        }
        assert(self@.max_commit =~= next_view(c, o).max_commit);
        assert(self@.max_term =~= next_view(c, o).max_term);
        assert(self@.committed =~= next_view(c, o).committed);
        assert(self@.leaders =~= next_view(c, o).leaders);
        Ok(())
    }

    /// After a restart, node `i` must still hold everything it had
    /// committed before its crash: the first `min(commit, committed)`
    /// entries of the committed log seen so far.
    pub fn check_recovered(&self, tick: u64, i: NodeId, log: &[Entry]) -> (r: Result<(), Violation>)
        requires
            i < self@.max_commit.len(),
        ensures
            ({
                let g = self@.committed;
                let c = self@.max_commit[i as int];
                let known = if c < g.len() {
                    c as int
                } else {
                    g.len() as int
                };
                &&& r is Ok <==> g.take(known).is_prefix_of(view_entries(log@))
                &&& r is Err ==> r == Err::<(), Violation>(
                    Violation {
                        tick,
                        breach: Breach::LostCommittedEntries { node: i, commit: c },
                    },
                )
            }),
    {
        let c = self.max_commit_seen[i];
        let glen = self.committed.len();
        let known: usize = if c < glen as u64 {
            c as usize
        } else {
            glen
        };
        let ghost g = self@.committed;
        let ghost lv = view_entries(log@);
        let lost = Err(Violation { tick, breach: Breach::LostCommittedEntries { node: i, commit: c } });
        if log.len() < known {
            assert(g.take(known as int).len() > lv.len());
            return lost;
        }
        let mut k: usize = 0;
        while k < known
            invariant
                g == self@.committed,
                lv == view_entries(log@),
                i < self@.max_commit.len(),
                c == self@.max_commit[i as int],
                known == (if c < g.len() {
                    c as int
                } else {
                    g.len() as int
                }),
                lost == Err::<(), Violation>(
                    Violation { tick, breach: Breach::LostCommittedEntries { node: i, commit: c } },
                ),
                known <= g.len(),
                known <= lv.len(),
                k <= known,
                forall|q: int| 0 <= q < k ==> #[trigger] g[q] == lv[q],
            decreases known - k,
        {
            if !entry_eq(&self.committed[k], &log[k]) {
                assert(g.take(known as int)[k as int] != lv.take(known as int)[k as int]);
                return lost;
            }
            k = k + 1;
        }
        assert(g.take(known as int) =~= lv.take(known as int));
        Ok(())
    }

    /// Terms never go backwards, and at most one node leads each term.
    fn check_terms<S: Storage>(&mut self, tick: u64, nodes: &Vec<Option<Node<S>>>) -> (r: Result<
        (),
        Violation,
    >)
        requires
            old(self)@.max_term.len() == nodes@.len(),
        ensures
            ({
                let c = old(self)@;
                let o = observe(nodes@);
                &&& r is Ok <==> (terms_ok(c, o) && leaders_ok(c, o))
                &&& r is Ok ==> {
                    &&& final(self)@.leaders == next_view(c, o).leaders
                    &&& final(self)@.max_term == next_view(c, o).max_term
                }
                &&& r matches Err(v) ==> v.tick == tick && breach_holds(c, o, v.breach)
                &&& r is Ok ==> first_term_breach(c, o) is None
                &&& r matches Err(v) ==> first_term_breach(c, o) == Some(v.breach)
                &&& final(self)@ == after_terms(c, o)
                &&& final(self)@.committed == c.committed
                &&& final(self)@.max_commit == c.max_commit
                &&& final(self)@.max_term.len() == c.max_term.len()
            }),
    {
        let ghost c = self@;
        let ghost o = observe(nodes@);
        let n = nodes.len();
        let mut i: usize = 0;
        while i < n
            invariant
                c == old(self)@,
                n == nodes@.len(),
                o == observe(nodes@),
                o.len() == n,
                c.max_term.len() == n,
                self@.committed == c.committed,
                self@.max_commit == c.max_commit,
                i <= n,
                self@.max_term == Seq::new(
                    n as nat,
                    |j: int|
                        if j < i && o[j] is Some {
                            o[j]->0.term
                        } else {
                            c.max_term[j]
                        },
                ),
                self@.leaders == leaders_upto(c.leaders, o, i as int),
                forall|j: int| 0 <= j < i && #[trigger] o[j] is Some ==> o[j]->0.term >= c.max_term[j],
                forall|j: int| 0 <= j < i ==> #[trigger] term_breach_at(c, o, j) is None,
                forall|j: int|
                    #![trigger live_leader(o, j)]
                    0 <= j < i && live_leader(o, j) && c.leaders.contains_key(o[j]->0.term)
                        ==> c.leaders[o[j]->0.term] == j,
                forall|j: int, k: int|
                    #![trigger live_leader(o, j), live_leader(o, k)]
                    j < k < i && live_leader(o, j) && live_leader(o, k) ==> o[j]->0.term
                        != o[k]->0.term,
                forall|t: Term|
                    #[trigger] c.leaders.contains_key(t) ==> leaders_upto(
                        c.leaders,
                        o,
                        i as int,
                    ).contains_key(t) && leaders_upto(c.leaders, o, i as int)[t] == c.leaders[t],
                forall|t: Term|
                    #[trigger] leaders_upto(c.leaders, o, i as int).contains_key(t) ==> (
                    c.leaders.contains_key(t) && leaders_upto(c.leaders, o, i as int)[t]
                        == c.leaders[t]) || (!c.leaders.contains_key(t) && live_leader(
                        o,
                        leaders_upto(c.leaders, o, i as int)[t] as int,
                    ) && leaders_upto(c.leaders, o, i as int)[t] < i && o[leaders_upto(
                        c.leaders,
                        o,
                        i as int,
                    )[t] as int]->0.term == t),
                forall|j: int|
                    #![trigger live_leader(o, j)]
                    0 <= j < i && live_leader(o, j) ==> leaders_upto(
                        c.leaders,
                        o,
                        i as int,
                    ).contains_key(o[j]->0.term),
            decreases n - i,
        {
            let ghost before = self@;
            match &nodes[i] {
                None => {},
                Some(node) => {
                    let term = node.term();
                    assert(o[i as int] == Some(node@));
                    if term < self.max_term_seen[i] {
                        proof {
                            assert(self@.max_term[i as int] == c.max_term[i as int]);
                            assert(!terms_ok(c, o));
                            assert(breach_holds(
                                c,
                                o,
                                Breach::TermWentBackwards {
                                    node: i,
                                    from: self.max_term_seen@[i as int],
                                    to: term,
                                },
                            ));
                            lemma_first_at_skip(n as int, i as int, |j: int| term_breach_at(c, o, j));
                            lemma_first_index_skip(n as int, i as int, |j: int| term_breach_at(c, o, j));
                            assert(self@.max_term =~= after_terms(c, o).max_term);
                        }
                        return Err(
                            Violation {
                                tick,
                                breach: Breach::TermWentBackwards {
                                    node: i,
                                    from: self.max_term_seen[i],
                                    to: term,
                                },
                            },
                        );
                    }
                    self.max_term_seen.set(i, term);
                    if node.role() == Role::Leader {
                        match self.leaders_by_term.get(&term) {
                            Some(p) => {
                                let p = *p;
                                if p != i {
                                    proof {
                                        assert(live_leader(o, i as int));
                                        let m = leaders_upto(c.leaders, o, i as int);
                                        assert(m.contains_key(term) && m[term] == p);
                                        if c.leaders.contains_key(term) {
                                            assert(!leaders_ok(c, o));
                                        } else {
                                            assert(live_leader(o, p as int));
                                            assert(!leaders_ok(c, o));
                                        }
                                        lemma_first_at_skip(n as int, i as int, |j: int| term_breach_at(c, o, j));
                                        lemma_first_index_skip(n as int, i as int, |j: int| term_breach_at(c, o, j));
                                        assert(self@.max_term =~= after_terms(c, o).max_term);
                                    }
                                    return Err(
                                        Violation {
                                            tick,
                                            breach: Breach::TwoLeaders {
                                                first: p,
                                                second: i,
                                                term,
                                            },
                                        },
                                    );
                                }
                            },
                            None => {
                                self.leaders_by_term.insert(term, i);
                            },
                        }
                    }
                },
            }
            proof {
                assert(self@.max_term =~= Seq::new(
                    n as nat,
                    |j: int|
                        if j < i + 1 && o[j] is Some {
                            o[j]->0.term
                        } else {
                            c.max_term[j]
                        },
                ));
            }
            i = i + 1;
        }
        proof {
            assert(self@.max_term =~= next_view(c, o).max_term);
            lemma_first_at_skip(n as int, n as int, |j: int| term_breach_at(c, o, j));
            lemma_first_index_skip(n as int, n as int, |j: int| term_breach_at(c, o, j));
            assert(self@.max_term =~= after_terms(c, o).max_term);
        }
        Ok(())
    }

    /// Every live node's commit index is within its log, and every
    /// committed prefix agrees with the committed log seen so far, which
    /// grows to the longest of them.
    fn check_committed<S: Storage>(&mut self, tick: u64, nodes: &Vec<Option<Node<S>>>) -> (r: Result<
        (),
        Violation,
    >)
        requires
            old(self)@.max_commit.len() == nodes@.len(),
        ensures
            ({
                let c = old(self)@;
                let o = observe(nodes@);
                &&& r is Ok <==> committed_ok(c, o)
                &&& r is Ok ==> {
                    &&& final(self)@.committed == next_view(c, o).committed
                    &&& final(self)@.max_commit == next_view(c, o).max_commit
                }
                &&& r matches Err(v) ==> v.tick == tick && breach_holds(c, o, v.breach) && (
                v.breach is CommitBeyondLog || v.breach is CommittedEntryDiffers)
                &&& r is Ok ==> first_committed_breach(c.committed, o) is None
                &&& r matches Err(v) ==> first_committed_breach(c.committed, o) == Some(v.breach)
                &&& final(self)@ == after_committed(c, o)
                &&& final(self)@.leaders == c.leaders
                &&& final(self)@.max_term == c.max_term
                &&& final(self)@.max_commit.len() == c.max_commit.len()
            }),
    {
        let ghost c = self@;
        let ghost o = observe(nodes@);
        let n = nodes.len();
        let mut i: usize = 0;
        while i < n
            invariant
                c == old(self)@,
                n == nodes@.len(),
                o == observe(nodes@),
                o.len() == n,
                c.max_commit.len() == n,
                self@.leaders == c.leaders,
                self@.max_term == c.max_term,
                i <= n,
                self@.committed == merged_committed(c.committed, o, i as int),
                self@.max_commit == Seq::new(
                    n as nat,
                    |j: int|
                        if j < i && o[j] is Some && o[j]->0.commit_index > c.max_commit[j] {
                            o[j]->0.commit_index
                        } else {
                            c.max_commit[j]
                        },
                ),
                c.committed.is_prefix_of(self@.committed),
                forall|j: int| 0 <= j < i ==> #[trigger] committed_breach_at(c.committed, o, j) is None,
                forall|j: int|
                    0 <= j < i && #[trigger] o[j] is Some ==> o[j]->0.commit_index <= o[j]->0.log.len(),
                forall|j: int|
                    0 <= j < i && #[trigger] o[j] is Some ==> committed_prefix(o[j]->0).is_prefix_of(
                        self@.committed,
                    ),
                forall|j: int|
                    0 <= j < i && #[trigger] o[j] is Some ==> compatible(
                        c.committed,
                        committed_prefix(o[j]->0),
                    ),
                forall|j: int, k: int|
                    0 <= j < k < i && #[trigger] o[j] is Some && #[trigger] o[k] is Some
                        ==> compatible(committed_prefix(o[j]->0), committed_prefix(o[k]->0)),
            decreases n - i,
        {
            match &nodes[i] {
                None => {
                    proof {
                        assert(self@.max_commit =~= Seq::new(
                            n as nat,
                            |j: int|
                                if j < i + 1 && o[j] is Some && o[j]->0.commit_index
                                    > c.max_commit[j] {
                                    o[j]->0.commit_index
                                } else {
                                    c.max_commit[j]
                                },
                        ));
                    }
                },
                Some(node) => {
                    assert(o[i as int] == Some(node@));
                    let commit = node.commit_index();
                    let log = node.log();
                    if commit > log.len() as u64 {
                        proof {
                            assert(!committed_ok(c, o));
                            lemma_first_at_skip(n as int, i as int, |j: int| committed_breach_at(c.committed, o, j));
                            lemma_first_index_skip(n as int, i as int, |j: int| committed_breach_at(c.committed, o, j));
                            assert(self@.max_commit =~= after_committed(c, o).max_commit);
                        }
                        return Err(Violation { tick, breach: Breach::CommitBeyondLog { node: i } });
                    }
                    let ghost g0 = self@.committed;
                    let ghost mc0 = self@.max_commit;
                    let ghost p = committed_prefix(node@);
                    let ghost lv = view_entries(log@);
                    assert(lv == node@.log);
                    let cu = commit as usize;
                    let mut k: usize = 0;
                    while k < cu
                        invariant
                            c == old(self)@,
                            n == nodes@.len(),
                            o == observe(nodes@),
                            i < n,
                            o[i as int] == Some(node@),
                            lv == view_entries(log@),
                            lv == node@.log,
                            cu == node@.commit_index,
                            cu <= lv.len(),
                            p == lv.take(cu as int),
                            g0 == merged_committed(c.committed, o, i as int),
                            self@.leaders == c.leaders,
                            self@.max_term == c.max_term,
                            self@.max_commit == mc0,
                            mc0.len() == c.max_commit.len(),
                            mc0 == Seq::new(
                                n as nat,
                                |j: int|
                                    if j < i && o[j] is Some && o[j]->0.commit_index > c.max_commit[j] {
                                        o[j]->0.commit_index
                                    } else {
                                        c.max_commit[j]
                                    },
                            ),
                            forall|j: int| 0 <= j < i ==> #[trigger] committed_breach_at(c.committed, o, j) is None,
                            k <= cu,
                            self@.committed == if k <= g0.len() {
                                g0
                            } else {
                                lv.take(k as int)
                            },
                            forall|q: int| 0 <= q < k && q < g0.len() ==> #[trigger] g0[q] == lv[q],
                        decreases cu - k,
                    {
                        if k < self.committed.len() {
                            assert(k < g0.len()) by {
                                if k > g0.len() {
                                    assert(self@.committed.len() == k);
                                }
                            }
                            assert(self@.committed == g0);
                            if !entry_eq(&self.committed[k], &log[k]) {
                                proof {
                                    lemma_differ_incompatible(g0, p, k as int);
                                    lemma_merged_is_one_of(c.committed, o, i as int);
                                    assert(!committed_ok(c, o));
                                    let m = if cu < g0.len() { cu as int } else { g0.len() as int };
                                    lemma_first_diff(g0, lv, 0, m, k as int);
                                    lemma_first_at_skip(n as int, i as int, |j: int| committed_breach_at(c.committed, o, j));
                                    lemma_first_index_skip(n as int, i as int, |j: int| committed_breach_at(c.committed, o, j));
                                    assert(self@.max_commit =~= after_committed(c, o).max_commit);
                                }
                                return Err(
                                    Violation {
                                        tick,
                                        breach: Breach::CommittedEntryDiffers {
                                            node: i,
                                            index: (k + 1) as Index,
                                        },
                                    },
                                );
                            }
                        } else {
                            let e = log[k].duplicate();
                            let ghost before = self@.committed;
                            assert(before =~= lv.take(k as int)) by {
                                if k <= g0.len() {
                                    assert(before == g0);
                                    assert(g0.len() <= k);
                                    assert(g0 =~= lv.take(k as int));
                                }
                            }
                            assert(e@ == lv[k as int]);
                            self.committed.push(e);
                            assert(self@.committed =~= before.push(e@));
                            assert(self@.committed =~= lv.take(k + 1));
                        }
                        k = k + 1;
                    }
                    proof {
                        let m = if cu < g0.len() { cu as int } else { g0.len() as int };
                        lemma_first_diff(g0, lv, 0, m, m);
                        assert(committed_breach_at(c.committed, o, i as int) is None);
                        // The node's prefix and the log so far agree where both reach.
                        if cu <= g0.len() {
                            assert(p =~= g0.take(cu as int));
                            assert(p.is_prefix_of(g0));
                        } else {
                            assert(g0 =~= p.take(g0.len() as int));
                            assert(g0.is_prefix_of(p));
                            assert(self@.committed == p);
                        }
                        let g1 = self@.committed;
                        assert(g1 == merged_committed(c.committed, o, i + 1));
                        assert(g0.is_prefix_of(g1));
                        assert(p.is_prefix_of(g1));
                        lemma_prefix_trans(c.committed, g0, g1);
                        lemma_common_prefix(c.committed, p, g1);
                        assert forall|j: int| 0 <= j < i + 1 && #[trigger] o[j] is Some implies committed_prefix(
                            o[j]->0,
                        ).is_prefix_of(g1) by {
                            if j < i {
                                lemma_prefix_trans(committed_prefix(o[j]->0), g0, g1);
                            }
                        }
                        assert forall|j: int, q: int|
                            0 <= j < q < i + 1 && #[trigger] o[j] is Some && #[trigger] o[q] is Some implies compatible(
                            committed_prefix(o[j]->0),
                            committed_prefix(o[q]->0),
                        ) by {
                            if q == i {
                                lemma_common_prefix(committed_prefix(o[j]->0), p, g1);
                            }
                        }
                    }
                    if commit > self.max_commit_seen[i] {
                        self.max_commit_seen.set(i, commit);
                    }
                    proof {
                        assert(self@.max_commit =~= Seq::new(
                            n as nat,
                            |j: int|
                                if j < i + 1 && o[j] is Some && o[j]->0.commit_index
                                    > c.max_commit[j] {
                                    o[j]->0.commit_index
                                } else {
                                    c.max_commit[j]
                                },
                        ));
                    }
                },
            }
            i = i + 1;
        }
        proof {
            assert(self@.max_commit =~= next_view(c, o).max_commit);
            lemma_first_at_skip(n as int, n as int, |j: int| committed_breach_at(c.committed, o, j));
            lemma_first_index_skip(n as int, n as int, |j: int| committed_breach_at(c.committed, o, j));
            assert(self@.max_commit =~= after_committed(c, o).max_commit);
        }
        Ok(())
    }

    /// Every live leader holds the committed entries from terms before its
    /// own.
    fn check_completeness<S: Storage>(&self, tick: u64, nodes: &Vec<Option<Node<S>>>) -> (r: Result<
        (),
        Violation,
    >)
        ensures
            ({
                let g = self@.committed;
                let o = observe(nodes@);
                &&& r is Ok <==> leaders_hold(g, o)
                &&& r matches Err(v) ==> v.tick == tick && (v.breach matches Breach::LeaderLacksCommitted {
                    node,
                    term,
                    index,
                } && {
                    let s = o[node as int]->0;
                    &&& live_leader(o, node as int)
                    &&& term == s.term
                    &&& 1 <= index <= before_term(g, term)
                    &&& (index > s.log.len() || s.log[index - 1] != g[index - 1])
                })
                &&& r is Ok ==> first_completeness_breach(g, o) is None
                &&& r matches Err(v) ==> first_completeness_breach(g, o) == Some(v.breach)
            }),
    {
        let ghost g = self@.committed;
        let ghost o = observe(nodes@);
        let n = nodes.len();
        let mut i: usize = 0;
        while i < n
            invariant
                g == self@.committed,
                n == nodes@.len(),
                o == observe(nodes@),
                o.len() == n,
                i <= n,
                forall|j: int|
                    #![trigger live_leader(o, j)]
                    0 <= j < i && live_leader(o, j) ==> g.take(before_term(g, o[j]->0.term)).is_prefix_of(
                        o[j]->0.log,
                    ),
                forall|j: int| 0 <= j < i ==> #[trigger] completeness_breach_at(g, o, j) is None,
            decreases n - i,
        {
            match &nodes[i] {
                None => {},
                Some(node) => {
                    assert(o[i as int] == Some(node@));
                    if node.role() == Role::Leader {
                        let t = node.term();
                        proof {
                            lemma_before_term(g, t);
                        }
                        let committed = self.committed.as_slice();
                        assert(view_entries(committed@) == g);
                        match first_lack(committed, node.log(), t) {
                            Some(k) => {
                                let clen = committed.len();
                                assert(k < clen);
                                proof {
                                    let lv = node@.log;
                                    let bt = before_term(g, t);
                                    lemma_before_term(g, t);
                                    assert(live_leader(o, i as int));
                                    if k < lv.len() {
                                        assert(g.take(bt)[k as int] == g[k as int]);
                                    }
                                    assert(!g.take(bt).is_prefix_of(lv));
                                    assert(!leaders_hold(g, o));
                                    lemma_first_at_skip(n as int, i as int, |j: int| completeness_breach_at(g, o, j));
                                }
                                return Err(
                                    Violation {
                                        tick,
                                        breach: Breach::LeaderLacksCommitted {
                                            node: i,
                                            term: t,
                                            index: (k + 1) as Index,
                                        },
                                    },
                                );
                            },
                            None => {},
                        }
                    }
                },
            }
            i = i + 1;
        }
        proof {
            lemma_first_at_skip(n as int, n as int, |j: int| completeness_breach_at(g, o, j));
        }
        Ok(())
    }

    /// Two live logs that agree on the term at an index agree up to it.
    fn check_matching<S: Storage>(&self, tick: u64, nodes: &Vec<Option<Node<S>>>) -> (r: Result<
        (),
        Violation,
    >)
        ensures
            ({
                let o = observe(nodes@);
                &&& r is Ok <==> matching_ok(o)
                &&& r matches Err(v) ==> v.tick == tick && (v.breach matches Breach::LogMismatch {
                    a,
                    b,
                    index,
                } && {
                    let la = o[a as int]->0.log;
                    let lb = o[b as int]->0.log;
                    &&& a < b < o.len()
                    &&& o[a as int] is Some
                    &&& o[b as int] is Some
                    &&& 1 <= index <= la.len()
                    &&& index <= lb.len()
                    &&& la[index - 1].term == lb[index - 1].term
                    &&& la.take(index as int) != lb.take(index as int)
                })
                &&& r is Ok ==> first_pair_from(o, 0, 1) is None
                &&& r matches Err(v) ==> first_pair_from(o, 0, 1) == Some(v.breach)
            }),
    {
        let ghost o = observe(nodes@);
        let n = nodes.len();
        let mut a: usize = 0;
        while a < n
            invariant
                n == nodes@.len(),
                o == observe(nodes@),
                o.len() == n,
                a <= n,
                forall|x: int, y: int|
                    0 <= x < a && x < y < n && #[trigger] o[x] is Some && #[trigger] o[y] is Some
                        ==> logs_match(o[x]->0.log, o[y]->0.log),
                first_pair_from(o, 0, 1) == first_pair_from(o, a as int, a + 1),
            decreases n - a,
        {
            let mut b: usize = a + 1;
            while b < n
                invariant
                    n == nodes@.len(),
                    o == observe(nodes@),
                    o.len() == n,
                    a < n,
                    a < b <= n,
                    forall|x: int, y: int|
                        0 <= x < a && x < y < n && #[trigger] o[x] is Some && #[trigger] o[y] is Some
                            ==> logs_match(o[x]->0.log, o[y]->0.log),
                    forall|y: int|
                        a < y < b && o[a as int] is Some && #[trigger] o[y] is Some ==> logs_match(
                            o[a as int]->0.log,
                            o[y]->0.log,
                        ),
                    first_pair_from(o, 0, 1) == first_pair_from(o, a as int, b as int),
                decreases n - b,
            {
                match (&nodes[a], &nodes[b]) {
                    (Some(x), Some(y)) => {
                        assert(o[a as int] == Some(x@));
                        assert(o[b as int] == Some(y@));
                        match first_mismatch(x.log(), y.log()) {
                            Some(index) => {
                                proof {
                                    assert(!logs_match(x@.log, y@.log));
                                    assert(!matching_ok(o));
                                    assert(matching_breach_at(o, a as int, b as int) == Some(
                                        Breach::LogMismatch { a, b, index },
                                    ));
                                }
                                return Err(
                                    Violation { tick, breach: Breach::LogMismatch { a, b, index } },
                                );
                            },
                            None => {
                                assert(matching_breach_at(o, a as int, b as int) is None);
                            },
                        }
                    },
                    _ => {
                        assert(matching_breach_at(o, a as int, b as int) is None);
                    },
                }
                assert(first_pair_from(o, a as int, b as int) == first_pair_from(
                    o,
                    a as int,
                    b + 1,
                ));
                b = b + 1;
            }
            assert(first_pair_from(o, a as int, b as int) == first_pair_from(o, a + 1, a + 2));
            a = a + 1;
        }
        assert(first_pair_from(o, a as int, a + 1) is None);
        Ok(())
    }
}

/// The first position before the first entry of `g` from term `t` or later
/// where `log` does not hold `g`'s entry, if any.
fn first_lack(g: &[Entry], log: &[Entry], t: Term) -> (r: Option<usize>)
    ensures
        ({
            let gv = view_entries(g@);
            let lv = view_entries(log@);
            let bt = before_term(gv, t);
            &&& match r {
                None => gv.take(bt).is_prefix_of(lv),
                Some(k) => k < bt && (k >= lv.len() || lv[k as int] != gv[k as int]),
            }
            &&& first_lack_from(gv, lv, t, 0) == match r {
                Some(k) => Some(k as int),
                None => None::<int>,
            }
        }),
{
    let ghost gv = view_entries(g@);
    let ghost lv = view_entries(log@);
    proof {
        lemma_before_term(gv, t);
    }
    let ghost bt = before_term(gv, t);
    let mut k: usize = 0;
    while k < g.len() && g[k].term < t
        invariant
            gv == view_entries(g@),
            lv == view_entries(log@),
            bt == before_term(gv, t),
            0 <= bt <= gv.len(),
            forall|q: int| 0 <= q < bt ==> (#[trigger] gv[q]).term < t,
            bt < gv.len() ==> gv[bt].term >= t,
            k <= bt,
            forall|q: int| 0 <= q < k ==> q < lv.len() && #[trigger] lv[q] == gv[q],
        decreases gv.len() - k,
    {
        if k >= log.len() || !entry_eq(&log[k], &g[k]) {
            proof {
                if k > 0 {
                    assert(lv[k - 1] == gv[k - 1]);
                }
                lemma_first_lack(gv, lv, t, 0, k as int);
            }
            return Some(k);
        }
        k = k + 1;
    }
    if k < g.len() {
        assert(gv[k as int].term == g@[k as int].term);
    }
    proof {
        if k > 0 {
            assert(lv[k - 1] == gv[k - 1]);
        }
        lemma_first_lack(gv, lv, t, 0, k as int);
    }
    assert(k == bt);
    proof {
        if bt > 0 {
            assert(lv[bt - 1] == gv[bt - 1]);
        }
    }
    assert(gv.take(bt) =~= lv.take(bt));
    None
}

/// The 1-based index of the last position where the logs agree on the
/// term, if they differ somewhere before it.
fn first_mismatch(la: &[Entry], lb: &[Entry]) -> (r: Option<Index>)
    ensures
        ({
            let va = view_entries(la@);
            let vb = view_entries(lb@);
            match r {
                None => logs_match(va, vb),
                Some(index) => {
                    &&& 1 <= index <= va.len()
                    &&& index <= vb.len()
                    &&& va[index - 1].term == vb[index - 1].term
                    &&& va.take(index as int) != vb.take(index as int)
                },
            }
        }),
        ({
            let va = view_entries(la@);
            let vb = view_entries(lb@);
            let m = if va.len() < vb.len() {
                va.len() as int
            } else {
                vb.len() as int
            };
            match last_agreement(va, vb, m) {
                Some(k) => r == if va.take(k + 1) != vb.take(k + 1) {
                    Some((k + 1) as Index)
                } else {
                    None
                },
                None => r is None,
            }
        }),
{
    let ghost va = view_entries(la@);
    let ghost vb = view_entries(lb@);
    let m = if la.len() < lb.len() {
        la.len()
    } else {
        lb.len()
    };
    let mut j: usize = m;
    while j > 0 && la[j - 1].term != lb[j - 1].term
        invariant
            va == view_entries(la@),
            vb == view_entries(lb@),
            m <= va.len(),
            m <= vb.len(),
            j <= m,
            forall|q: int| j <= q < m ==> #[trigger] va[q].term != #[trigger] vb[q].term,
        decreases j,
    {
        j = j - 1;
    }
    proof {
        lemma_last_agreement(va, vb, j as int, m as int);
    }
    if j == 0 {
        assert forall|k: int|
            #![trigger va[k], vb[k]]
            0 <= k < va.len() && k < vb.len() && va[k].term == vb[k].term implies va.take(k + 1)
            == vb.take(k + 1) by {
            assert(k >= m);
        }
        return None;
    }
    let mut q: usize = 0;
    while q < j
        invariant
            va == view_entries(la@),
            vb == view_entries(lb@),
            0 < j <= m,
            m <= va.len(),
            m <= vb.len(),
            m == (if va.len() < vb.len() {
                va.len() as int
            } else {
                vb.len() as int
            }),
            va[j - 1].term == vb[j - 1].term,
            forall|p: int| j <= p < m ==> #[trigger] va[p].term != #[trigger] vb[p].term,
            q <= j,
            forall|p: int| 0 <= p < q ==> #[trigger] va[p] == vb[p],
        decreases j - q,
    {
        if !entry_eq(&la[q], &lb[q]) {
            assert(va.take(j as int)[q as int] != vb.take(j as int)[q as int]);
            proof {
                lemma_last_agreement(va, vb, j as int, m as int);
                assert(last_agreement(va, vb, j as int) == Some(j - 1));
            }
            return Some(j as Index);
        }
        q = q + 1;
    }
    assert(va.take(j as int) =~= vb.take(j as int));
    assert forall|k: int|
        #![trigger va[k], vb[k]]
        0 <= k < va.len() && k < vb.len() && va[k].term == vb[k].term implies va.take(k + 1)
        == vb.take(k + 1) by {
        assert(k < j);
        assert(va.take(k + 1) =~= va.take(j as int).take(k + 1));
        assert(vb.take(k + 1) =~= vb.take(j as int).take(k + 1));
    }
    None
}

} // verus!
