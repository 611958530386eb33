//! A node's persistent state (current term, vote, log) behind a trait, and
//! an in-memory implementation.
//!
//! The trait states each operation over the persisted value, so a node
//! built on any implementation can prove that what it promised is on
//! storage before it answers.

use vstd::prelude::*;

use crate::message::{view_entries, copy_entries, Entry, EntryView, Index, NodeId, Term};

verus! {

/// Everything a node must not forget across a crash.
#[derive(Debug, PartialEq, Eq, Default)]
pub struct Persistent {
    pub term: Term,
    pub voted_for: Option<NodeId>,
    /// `log[i]` is the entry at index `i + 1`.
    pub log: Vec<Entry>,
}

/// The mathematical value of a node's persistent state.
pub struct PersistentView {
    pub term: Term,
    pub voted_for: Option<NodeId>,
    pub log: Seq<EntryView>,
}

impl View for Persistent {
    type V = PersistentView;

    open spec fn view(&self) -> PersistentView {
        PersistentView { term: self.term, voted_for: self.voted_for, log: view_entries(self.log@) }
    }
}

/// The log left after removing the entry at `index` and everything after
/// it: its first `index - 1` entries (none for index 0), or all of it when
/// it is shorter.
pub open spec fn truncated_log(log: Seq<EntryView>, index: int) -> Seq<EntryView> {
    let keep = if index <= 0 { 0 } else { index - 1 };
    if keep < log.len() {
        log.take(keep)
    } else {
        log
    }
}

impl PersistentView {
    /// The state of a storage that was never written.
    pub open spec fn empty() -> PersistentView {
        PersistentView { term: 0, voted_for: None, log: Seq::empty() }
    }

    pub open spec fn with_hard_state(self, term: Term, voted_for: Option<NodeId>) -> PersistentView {
        PersistentView { term, voted_for, log: self.log }
    }

    pub open spec fn with_appended(self, entries: Seq<EntryView>) -> PersistentView {
        PersistentView { log: self.log + entries, ..self }
    }

    pub open spec fn with_truncated(self, index: Index) -> PersistentView {
        PersistentView { log: truncated_log(self.log, index as int), ..self }
    }
}

/// Durable storage for a node. Each operation is stated over the persisted
/// value; a failure to persist is not an outcome (an implementation that
/// cannot persist must stop the process).
pub trait Storage: Sized {
    /// What is on storage.
    spec fn persisted(&self) -> PersistentView;

    /// Reads back everything persisted.
    fn load(&mut self) -> (p: Persistent)
        ensures
            p@ == old(self).persisted(),
            final(self).persisted() == old(self).persisted(),
    ;

    /// Records the current term and vote.
    fn save_hard_state(&mut self, term: Term, voted_for: Option<NodeId>)
        ensures
            final(self).persisted() == old(self).persisted().with_hard_state(term, voted_for),
    ;

    /// Appends entries after the current last index.
    fn append(&mut self, entries: &[Entry])
        ensures
            final(self).persisted() == old(self).persisted().with_appended(
                view_entries(entries@),
            ),
    ;

    /// Removes the entry at `index` and everything after it.
    fn truncate_from(&mut self, index: Index)
        ensures
            final(self).persisted() == old(self).persisted().with_truncated(index),
    ;
}

impl Clone for Persistent {
    /// A copy holding the same term, vote and log.
    fn clone(&self) -> (p: Persistent)
        ensures
            p@ == self@,
    {
        Persistent { term: self.term, voted_for: self.voted_for, log: copy_entries(self.log.as_slice()) }
    }
}

/// In-memory storage. A node owns it; the node hands it back on a crash
/// (`Node::into_storage`) so a restarted node can recover from it. A clone
/// is a copy of what is persisted, from then on written separately.
#[derive(Debug, Default)]
pub struct MemStorage {
    state: Persistent,
}

impl Clone for MemStorage {
    /// A storage holding what this one persists.
    fn clone(&self) -> (s: MemStorage)
        ensures
            s.persisted() == self.persisted(),
    {
        MemStorage { state: self.state.clone() }
    }
}

impl MemStorage {
    pub closed spec fn contents(&self) -> PersistentView {
        self.state@
    }

    /// An empty storage.
    pub fn new() -> (s: MemStorage)
        ensures
            s.persisted() == PersistentView::empty(),
    {
        let s = MemStorage { state: Persistent { term: 0, voted_for: None, log: Vec::new() } };
        assert(s.state@.log =~= Seq::<EntryView>::empty());
        s
    }

    /// A copy of what is persisted.
    pub fn snapshot(&self) -> (p: Persistent)
        ensures
            p@ == self.persisted(),
    {
        let log = copy_entries(self.state.log.as_slice());
        Persistent { term: self.state.term, voted_for: self.state.voted_for, log }
    }
}

impl Storage for MemStorage {
    open spec fn persisted(&self) -> PersistentView {
        self.contents()
    }

    fn load(&mut self) -> (p: Persistent) {
        self.snapshot()
    }

    fn save_hard_state(&mut self, term: Term, voted_for: Option<NodeId>) {
        self.state.term = term;
        self.state.voted_for = voted_for;
    }

    fn append(&mut self, entries: &[Entry]) {
        let ghost old_log = self.state.log@;
        let mut i: usize = 0;
        while i < entries.len()
            invariant
                i <= entries@.len(),
                self.state.term == old(self).state.term,
                self.state.voted_for == old(self).state.voted_for,
                view_entries(self.state.log@) == view_entries(old_log) + view_entries(
                    entries@.subrange(0, i as int),
                ),
            decreases entries@.len() - i,
        {
            let e = entries[i].duplicate();
            let ghost before = self.state.log@;
            self.state.log.push(e);
            i = i + 1;
            assert(view_entries(self.state.log@) =~= view_entries(before).push(e@));
            assert(view_entries(entries@.subrange(0, i as int)) =~= view_entries(
                entries@.subrange(0, i - 1),
            ).push(e@));
            assert(view_entries(self.state.log@) =~= view_entries(old_log) + view_entries(
                entries@.subrange(0, i as int),
            ));
        }
        assert(entries@.subrange(0, i as int) =~= entries@);
        assert(self.state@.log =~= old(self).state@.log + view_entries(entries@));
    }

    fn truncate_from(&mut self, index: Index) {
        let keep: u64 = if index == 0 { 0 } else { index - 1 };
        if keep < self.state.log.len() as u64 {
            self.state.log.truncate(keep as usize);
            assert(view_entries(self.state.log@) =~= view_entries(old(self).state.log@).take(
                keep as int,
            ));
        }
    }
}

} // verus!
