//! The four consensus messages, the log entry they carry, and the payload
//! codec. On the wire a message is the payload of a frame whose type byte
//! is the message kind; this module owns the kind byte and the payload
//! bytes, little-endian:
//!
//! ```text
//! RequestVote      (1): term u64, last_log_index u64, last_log_term u64
//! VoteResponse     (2): term u64, granted u8
//! AppendEntries    (3): term u64, prev_index u64, prev_term u64,
//!                       leader_commit u64, count u32,
//!                       count x (entry_term u64, len u32, command bytes)
//! AppendResponse   (4): term u64, success u8, match_index u64
//! ```
//! Decoding arbitrary bytes never panics: every malformed payload is a
//! typed error.

use vstd::prelude::*;

verus! {

pub type NodeId = usize;

pub type Term = u64;

/// 1-based log position; 0 means "before the first entry".
pub type Index = u64;

/// One log entry. The command is opaque to consensus; an empty command is
/// the no-op a new leader appends.
#[derive(Debug, Clone, PartialEq, Eq)]
pub struct Entry {
    pub term: Term,
    pub command: Vec<u8>,
}

/// The mathematical value of an entry.
pub struct EntryView {
    pub term: Term,
    pub command: Seq<u8>,
}

impl View for Entry {
    type V = EntryView;

    open spec fn view(&self) -> EntryView {
        EntryView { term: self.term, command: self.command@ }
    }
}

/// The entries of a sequence, each by its value.
pub open spec fn view_entries(s: Seq<Entry>) -> Seq<EntryView> {
    s.map_values(|e: Entry| e@)
}

impl Entry {
    /// A copy of this entry with the same term and command.
    pub fn duplicate(&self) -> (e: Entry)
        ensures
            e@ == self@,
    {
        let command = self.command.clone();
        assert(command@ =~= self.command@);
        Entry { term: self.term, command }
    }
}

/// A consensus message. The sender is not part of the message: it is the
/// link the datagram arrived on.
#[derive(Debug, Clone, PartialEq, Eq)]
pub enum Message {
    RequestVote { term: Term, last_log_index: Index, last_log_term: Term },
    VoteResponse { term: Term, granted: bool },
    AppendEntries {
        term: Term,
        prev_index: Index,
        prev_term: Term,
        entries: Vec<Entry>,
        leader_commit: Index,
    },
    AppendResponse { term: Term, success: bool, match_index: Index },
}

/// The mathematical value of a message.
pub enum MessageView {
    RequestVote { term: Term, last_log_index: Index, last_log_term: Term },
    VoteResponse { term: Term, granted: bool },
    AppendEntries {
        term: Term,
        prev_index: Index,
        prev_term: Term,
        entries: Seq<EntryView>,
        leader_commit: Index,
    },
    AppendResponse { term: Term, success: bool, match_index: Index },
}

impl View for Message {
    type V = MessageView;

    open spec fn view(&self) -> MessageView {
        match self {
            Message::RequestVote { term, last_log_index, last_log_term } => MessageView::RequestVote {
                term: *term,
                last_log_index: *last_log_index,
                last_log_term: *last_log_term,
            },
            Message::VoteResponse { term, granted } => MessageView::VoteResponse {
                term: *term,
                granted: *granted,
            },
            Message::AppendEntries { term, prev_index, prev_term, entries, leader_commit } =>
                MessageView::AppendEntries {
                term: *term,
                prev_index: *prev_index,
                prev_term: *prev_term,
                entries: view_entries(entries@),
                leader_commit: *leader_commit,
            },
            Message::AppendResponse { term, success, match_index } => MessageView::AppendResponse {
                term: *term,
                success: *success,
                match_index: *match_index,
            },
        }
    }
}

impl MessageView {
    /// The term every message carries.
    pub open spec fn term(self) -> Term {
        match self {
            MessageView::RequestVote { term, .. } => term,
            MessageView::VoteResponse { term, .. } => term,
            MessageView::AppendEntries { term, .. } => term,
            MessageView::AppendResponse { term, .. } => term,
        }
    }
}

impl Message {
    /// The sender's term.
    pub fn term(&self) -> (t: Term)
        ensures
            t == self@.term(),
    {
        match self {
            Message::RequestVote { term, .. } => *term,
            Message::VoteResponse { term, .. } => *term,
            Message::AppendEntries { term, .. } => *term,
            Message::AppendResponse { term, .. } => *term,
        }
    }
}

/// Copies the entries at positions `start..end`.
pub fn copy_range(entries: &[Entry], start: usize, end: usize) -> (out: Vec<Entry>)
    requires
        start <= end <= entries@.len(),
    ensures
        view_entries(out@) == view_entries(entries@).subrange(start as int, end as int),
{
    let mut out: Vec<Entry> = Vec::new();
    let mut i: usize = start;
    while i < end
        invariant
            start <= i <= end <= entries@.len(),
            view_entries(out@) == view_entries(entries@).subrange(start as int, i as int),
        decreases end - i,
    {
        let e = entries[i].duplicate();
        let ghost before = out@;
        out.push(e);
        i = i + 1;
        assert(view_entries(out@) =~= view_entries(before).push(e@));
        assert(view_entries(out@) =~= view_entries(entries@).subrange(start as int, i as int));
    }
    out
}

/// Copies a run of entries.
pub fn copy_entries(entries: &[Entry]) -> (out: Vec<Entry>)
    ensures
        view_entries(out@) == view_entries(entries@),
{
    let out = copy_range(entries, 0, entries.len());
    assert(view_entries(entries@).subrange(0, entries@.len() as int) =~= view_entries(entries@));
    out
}

} // verus!
