//! The payload codec of the consensus messages. A message travels as the
//! payload of a frame whose type byte is the message kind; this module
//! turns a message into its kind and payload bytes and back. Layouts
//! (little-endian):
//!
//! ```text
//! RequestVote      (1): term u64, last_log_index u64, last_log_term u64
//! VoteResponse     (2): term u64, granted u8
//! AppendEntries    (3): term u64, prev_index u64, prev_term u64,
//!                       leader_commit u64, count u32,
//!                       count x (entry_term u64, len u32, command bytes)
//! AppendResponse   (4): term u64, success u8, match_index u64
//! ```
//! Decoding never panics: a malformed payload is a typed error.

use vstd::prelude::*;
use vstd::bytes::{
    lemma_auto_spec_u32_to_from_le_bytes, lemma_auto_spec_u64_to_from_le_bytes,
    spec_u32_from_le_bytes, spec_u32_to_le_bytes, spec_u64_from_le_bytes, spec_u64_to_le_bytes,
    u32_from_le_bytes, u32_to_le_bytes, u64_from_le_bytes, u64_to_le_bytes,
};

use crate::message::{view_entries, Entry, EntryView, Message, MessageView};

verus! {

/// Why a payload could not be decoded.
#[derive(Debug, Clone, Copy, PartialEq, Eq, Structural)]
pub enum CodecError {
    /// The frame type is not a message kind.
    UnknownType(u8),
    /// The payload ends before the message does.
    Truncated,
    /// The payload goes on after the message ends.
    TrailingBytes,
    /// A boolean field holds something other than 0 or 1.
    BadBool(u8),
}

// ---------------------------------------------------------------------
// The layout, as bytes.

pub open spec fn le_u64(x: u64) -> Seq<u8> {
    spec_u64_to_le_bytes(x)
}

pub open spec fn le_u32(x: u32) -> Seq<u8> {
    spec_u32_to_le_bytes(x)
}

pub open spec fn bool_byte(b: bool) -> u8 {
    if b {
        1
    } else {
        0
    }
}

/// An entry: its term, its command's length (as a `u32`) and its command.
pub open spec fn entry_bytes(e: EntryView) -> Seq<u8> {
    le_u64(e.term) + le_u32(e.command.len() as u32) + e.command
}

/// The entries, one after another.
pub open spec fn entries_bytes(es: Seq<EntryView>) -> Seq<u8> {
    es.map_values(|e: EntryView| entry_bytes(e)).flatten()
}

/// The frame type of a message.
pub open spec fn message_kind(m: MessageView) -> u8 {
    match m {
        MessageView::RequestVote { .. } => 1,
        MessageView::VoteResponse { .. } => 2,
        MessageView::AppendEntries { .. } => 3,
        MessageView::AppendResponse { .. } => 4,
    }
}

/// The payload of a message.
pub open spec fn payload_bytes(m: MessageView) -> Seq<u8> {
    match m {
        MessageView::RequestVote { term, last_log_index, last_log_term } => le_u64(term) + le_u64(
            last_log_index,
        ) + le_u64(last_log_term),
        MessageView::VoteResponse { term, granted } => le_u64(term) + seq![bool_byte(granted)],
        MessageView::AppendEntries { term, prev_index, prev_term, entries, leader_commit } => le_u64(
            term,
        ) + le_u64(prev_index) + le_u64(prev_term) + le_u64(leader_commit) + le_u32(
            entries.len() as u32,
        ) + entries_bytes(entries),
        MessageView::AppendResponse { term, success, match_index } => le_u64(term) + seq![
            bool_byte(success),
        ] + le_u64(match_index),
    }
}

// ---------------------------------------------------------------------
// Reading, field by field: each read yields the value and the rest.

pub open spec fn read_bytes(s: Seq<u8>, n: int) -> Result<(Seq<u8>, Seq<u8>), CodecError> {
    if s.len() < n {
        Err(CodecError::Truncated)
    } else {
        Ok((s.take(n), s.skip(n)))
    }
}

pub open spec fn read_u64(s: Seq<u8>) -> Result<(u64, Seq<u8>), CodecError> {
    if s.len() < 8 {
        Err(CodecError::Truncated)
    } else {
        Ok((spec_u64_from_le_bytes(s.take(8)), s.skip(8)))
    }
}

pub open spec fn read_u32(s: Seq<u8>) -> Result<(u32, Seq<u8>), CodecError> {
    if s.len() < 4 {
        Err(CodecError::Truncated)
    } else {
        Ok((spec_u32_from_le_bytes(s.take(4)), s.skip(4)))
    }
}

pub open spec fn read_bool(s: Seq<u8>) -> Result<(bool, Seq<u8>), CodecError> {
    if s.len() < 1 {
        Err(CodecError::Truncated)
    } else if s[0] == 0 {
        Ok((false, s.skip(1)))
    } else if s[0] == 1 {
        Ok((true, s.skip(1)))
    } else {
        Err(CodecError::BadBool(s[0]))
    }
}

pub open spec fn read_entry(s: Seq<u8>) -> Result<(EntryView, Seq<u8>), CodecError> {
    match read_u64(s) {
        Err(e) => Err(e),
        Ok((term, r1)) => match read_u32(r1) {
            Err(e) => Err(e),
            Ok((len, r2)) => match read_bytes(r2, len as int) {
                Err(e) => Err(e),
                Ok((command, r3)) => Ok((EntryView { term, command }, r3)),
            },
        },
    }
}

pub open spec fn read_entries(s: Seq<u8>, n: nat) -> Result<(Seq<EntryView>, Seq<u8>), CodecError>
    decreases n,
{
    if n == 0 {
        Ok((Seq::empty(), s))
    } else {
        match read_entry(s) {
            Err(e) => Err(e),
            Ok((e, r1)) => match read_entries(r1, (n - 1) as nat) {
                Err(err) => Err(err),
                Ok((es, r2)) => Ok((seq![e] + es, r2)),
            },
        }
    }
}

/// A message, once its fields are read: anything left over is an error.
pub open spec fn finish(rest: Seq<u8>, m: MessageView) -> Result<MessageView, CodecError> {
    if rest.len() == 0 {
        Ok(m)
    } else {
        Err(CodecError::TrailingBytes)
    }
}

pub open spec fn parse_request_vote(p: Seq<u8>) -> Result<MessageView, CodecError> {
    match read_u64(p) {
        Err(e) => Err(e),
        Ok((term, r1)) => match read_u64(r1) {
            Err(e) => Err(e),
            Ok((last_log_index, r2)) => match read_u64(r2) {
                Err(e) => Err(e),
                Ok((last_log_term, r3)) => finish(
                    r3,
                    MessageView::RequestVote { term, last_log_index, last_log_term },
                ),
            },
        },
    }
}

pub open spec fn parse_vote_response(p: Seq<u8>) -> Result<MessageView, CodecError> {
    match read_u64(p) {
        Err(e) => Err(e),
        Ok((term, r1)) => match read_bool(r1) {
            Err(e) => Err(e),
            Ok((granted, r2)) => finish(r2, MessageView::VoteResponse { term, granted }),
        },
    }
}

/// The entries of an AppendEntries after its header. A declared count
/// above what the rest could hold at 12 bytes an entry is refused before
/// anything is read.
pub open spec fn parse_append_body(
    r: Seq<u8>,
    term: u64,
    prev_index: u64,
    prev_term: u64,
    leader_commit: u64,
    count: u32,
) -> Result<MessageView, CodecError> {
    if count > r.len() / 12 {
        Err(CodecError::Truncated)
    } else {
        match read_entries(r, count as nat) {
            Err(e) => Err(e),
            Ok((entries, rest)) => finish(
                rest,
                MessageView::AppendEntries { term, prev_index, prev_term, entries, leader_commit },
            ),
        }
    }
}

pub open spec fn parse_append_entries(p: Seq<u8>) -> Result<MessageView, CodecError> {
    match read_u64(p) {
        Err(e) => Err(e),
        Ok((term, r1)) => match read_u64(r1) {
            Err(e) => Err(e),
            Ok((prev_index, r2)) => match read_u64(r2) {
                Err(e) => Err(e),
                Ok((prev_term, r3)) => match read_u64(r3) {
                    Err(e) => Err(e),
                    Ok((leader_commit, r4)) => match read_u32(r4) {
                        Err(e) => Err(e),
                        Ok((count, r5)) => parse_append_body(
                            r5,
                            term,
                            prev_index,
                            prev_term,
                            leader_commit,
                            count,
                        ),
                    },
                },
            },
        },
    }
}

pub open spec fn parse_append_response(p: Seq<u8>) -> Result<MessageView, CodecError> {
    match read_u64(p) {
        Err(e) => Err(e),
        Ok((term, r1)) => match read_bool(r1) {
            Err(e) => Err(e),
            Ok((success, r2)) => match read_u64(r2) {
                Err(e) => Err(e),
                Ok((match_index, r3)) => finish(
                    r3,
                    MessageView::AppendResponse { term, success, match_index },
                ),
            },
        },
    }
}

/// The message a frame of type `kind` with payload `p` holds.
pub open spec fn parse_payload(kind: u8, p: Seq<u8>) -> Result<MessageView, CodecError> {
    if kind == 1 {
        parse_request_vote(p)
    } else if kind == 2 {
        parse_vote_response(p)
    } else if kind == 3 {
        parse_append_entries(p)
    } else if kind == 4 {
        parse_append_response(p)
    } else {
        Err(CodecError::UnknownType(kind))
    }
}

pub open spec fn view_decoded(r: Result<Message, CodecError>) -> Result<MessageView, CodecError> {
    match r {
        Ok(m) => Ok(m@),
        Err(e) => Err(e),
    }
}

// ---------------------------------------------------------------------
// Executable reader.

/// Reads fields off the front of a payload.
pub struct Reader<'a>(&'a [u8]);

impl<'a> Reader<'a> {
    pub closed spec fn rest(&self) -> Seq<u8> {
        self.0@
    }

    pub fn new(data: &'a [u8]) -> (r: Reader<'a>)
        ensures
            r.rest() == data@,
    {
        Reader(data)
    }

    /// Whether everything was read.
    pub fn is_empty(&self) -> (b: bool)
        ensures
            b == (self.rest().len() == 0),
    {
        self.0.len() == 0
    }

    pub fn remaining(&self) -> (n: usize)
        ensures
            n == self.rest().len(),
    {
        self.0.len()
    }

    pub fn take(&mut self, n: usize) -> (r: Result<&'a [u8], CodecError>)
        ensures
            match (r, read_bytes(old(self).rest(), n as int)) {
                (Ok(a), Ok((b, rest))) => a@ == b && final(self).rest() == rest,
                (Err(e), Err(f)) => e == f && final(self).rest() == old(self).rest(),
                _ => false,
            },
    {
        if self.0.len() < n {
            return Err(CodecError::Truncated);
        }
        let (a, b) = self.0.split_at(n);
        self.0 = b;
        Ok(a)
    }

    pub fn u64(&mut self) -> (r: Result<u64, CodecError>)
        ensures
            match (r, read_u64(old(self).rest())) {
                (Ok(a), Ok((b, rest))) => a == b && final(self).rest() == rest,
                (Err(e), Err(f)) => e == f,
                _ => false,
            },
    {
        let b = self.take(8)?;
        Ok(u64_from_le_bytes(b))
    }

    pub fn u32(&mut self) -> (r: Result<u32, CodecError>)
        ensures
            match (r, read_u32(old(self).rest())) {
                (Ok(a), Ok((b, rest))) => a == b && final(self).rest() == rest,
                (Err(e), Err(f)) => e == f,
                _ => false,
            },
    {
        let b = self.take(4)?;
        Ok(u32_from_le_bytes(b))
    }

    pub fn bool(&mut self) -> (r: Result<bool, CodecError>)
        ensures
            match (r, read_bool(old(self).rest())) {
                (Ok(a), Ok((b, rest))) => a == b && final(self).rest() == rest,
                (Err(e), Err(f)) => e == f,
                _ => false,
            },
    {
        let b = self.take(1)?;
        let v = b[0];
        if v == 0 {
            Ok(false)
        } else if v == 1 {
            Ok(true)
        } else {
            Err(CodecError::BadBool(v))
        }
    }
}

/// Entries already read, in front of what reading the rest gives.
pub open spec fn after_read(pre: Seq<EntryView>, r: Result<(Seq<EntryView>, Seq<u8>), CodecError>) -> Result<
    (Seq<EntryView>, Seq<u8>),
    CodecError,
> {
    match r {
        Ok((es, rest)) => Ok((pre + es, rest)),
        Err(e) => Err(e),
    }
}

/// Reads `count` entries.
fn read_entries_exec(r: &mut Reader, count: usize) -> (res: Result<Vec<Entry>, CodecError>)
    ensures
        read_entries(old(r).rest(), count as nat) == match res {
            Ok(v) => Ok((view_entries(v@), final(r).rest())),
            Err(e) => Err(e),
        },
{
    let ghost rest0 = r.rest();
    assert(rest0 == old(r).rest());
    let mut entries: Vec<Entry> = Vec::new();
    let mut i: usize = 0;
    assert(view_entries(entries@) =~= Seq::<EntryView>::empty());
    assert(Seq::<EntryView>::empty() + Seq::<EntryView>::empty() =~= Seq::<EntryView>::empty());
    while i < count
        invariant
            i <= count,
            rest0 == old(r).rest(),
            read_entries(rest0, count as nat) == after_read(
                view_entries(entries@),
                read_entries(r.rest(), (count - i) as nat),
            ),
        decreases count - i,
    {
        let ghost cur = r.rest();
        let ghost pre = view_entries(entries@);
        assert(count - i > 0);
        assert(read_entries(cur, (count - i) as nat) == match read_entry(cur) {
            Err(e) => Err(e),
            Ok((e, r1)) => match read_entries(r1, (count - i - 1) as nat) {
                Err(err) => Err(err),
                Ok((es, r2)) => Ok((seq![e] + es, r2)),
            },
        });
        let term = match r.u64() {
            Ok(t) => t,
            Err(e) => {
                assert(read_u64(cur) == Err::<(u64, Seq<u8>), CodecError>(e));
                assert(read_entry(cur) == Err::<(EntryView, Seq<u8>), CodecError>(e));
                assert(read_entries(cur, (count - i) as nat) == Err::<(Seq<EntryView>, Seq<u8>), CodecError>(e));
                assert(read_entries(rest0, count as nat) == Err::<(Seq<EntryView>, Seq<u8>), CodecError>(e));
                return Err(e);
            },
        };
        let ghost r1 = r.rest();
        assert(read_u64(cur) == Ok::<(u64, Seq<u8>), CodecError>((term, r1)));
        let len = match r.u32() {
            Ok(l) => l,
            Err(e) => {
                assert(read_u32(r1) == Err::<(u32, Seq<u8>), CodecError>(e));
                assert(read_entry(cur) == Err::<(EntryView, Seq<u8>), CodecError>(e));
                assert(read_entries(cur, (count - i) as nat) == Err::<(Seq<EntryView>, Seq<u8>), CodecError>(e));
                assert(read_entries(rest0, count as nat) == Err::<(Seq<EntryView>, Seq<u8>), CodecError>(e));
                return Err(e);
            },
        };
        let command = match r.take(len as usize) {
            Ok(c) => c,
            Err(e) => {
                assert(read_entry(cur) == Err::<(EntryView, Seq<u8>), CodecError>(e));
                return Err(e);
            },
        };
        let e = Entry { term, command: vstd::slice::slice_to_vec(command) };
        let ghost ev = e@;
        assert(read_entry(cur) == Ok::<(EntryView, Seq<u8>), CodecError>((ev, r.rest())));
        entries.push(e);
        i = i + 1;
        assert(view_entries(entries@) =~= pre.push(ev));
        proof {
            match read_entries(r.rest(), (count - i) as nat) {
                Ok((es, rest)) => {
                    assert(pre + (seq![ev] + es) =~= pre.push(ev) + es);
                },
                Err(_) => {},
            }
        }
    }
    assert(view_entries(entries@) + Seq::<EntryView>::empty() =~= view_entries(entries@));
    Ok(entries)
}

/// Decodes the payload of a frame of type `frame_type`. Every malformed
/// payload is a typed error; nothing here can panic.
pub fn decode_payload(frame_type: u8, payload: &[u8]) -> (res: Result<Message, CodecError>)
    ensures
        view_decoded(res) == parse_payload(frame_type, payload@),
{
    let mut r = Reader::new(payload);
    let msg = if frame_type == 1 {
        let term = r.u64()?;
        let last_log_index = r.u64()?;
        let last_log_term = r.u64()?;
        Message::RequestVote { term, last_log_index, last_log_term }
    } else if frame_type == 2 {
        let term = r.u64()?;
        let granted = r.bool()?;
        Message::VoteResponse { term, granted }
    } else if frame_type == 3 {
        let term = r.u64()?;
        let prev_index = r.u64()?;
        let prev_term = r.u64()?;
        let leader_commit = r.u64()?;
        let count = r.u32()? as usize;
        // Each entry needs at least 12 bytes, so a huge declared count
        // cannot make us allocate more than the payload can justify.
        if count > r.remaining() / 12 {
            return Err(CodecError::Truncated);
        }
        let entries = read_entries_exec(&mut r, count)?;
        Message::AppendEntries { term, prev_index, prev_term, entries, leader_commit }
    } else if frame_type == 4 {
        let term = r.u64()?;
        let success = r.bool()?;
        let match_index = r.u64()?;
        Message::AppendResponse { term, success, match_index }
    } else {
        return Err(CodecError::UnknownType(frame_type));
    };
    if !r.is_empty() {
        return Err(CodecError::TrailingBytes);
    }
    Ok(msg)
}

fn put_u64(p: &mut Vec<u8>, x: u64)
    ensures
        final(p)@ == old(p)@ + le_u64(x),
{
    let mut b = u64_to_le_bytes(x);
    p.append(&mut b);
}

fn put_u32(p: &mut Vec<u8>, x: u32)
    ensures
        final(p)@ == old(p)@ + le_u32(x),
{
    let mut b = u32_to_le_bytes(x);
    p.append(&mut b);
}

fn put_entry(p: &mut Vec<u8>, e: &Entry)
    ensures
        final(p)@ == old(p)@ + entry_bytes(e@),
{
    let ghost start = p@;
    put_u64(p, e.term);
    put_u32(p, e.command.len() as u32);
    let ghost mid = p@;
    p.extend_from_slice(e.command.as_slice());
    assert(p@ =~= mid + e.command@);
    assert(p@ =~= start + entry_bytes(e@));
}

/// The kind byte and payload bytes of a message.
pub fn encode_payload(msg: &Message) -> (r: (u8, Vec<u8>))
    ensures
        r.0 == message_kind(msg@),
        r.1@ == payload_bytes(msg@),
{
    let mut p: Vec<u8> = Vec::new();
    let ghost empty = p@;
    assert(empty =~= Seq::<u8>::empty());
    let kind = match msg {
        Message::RequestVote { term, last_log_index, last_log_term } => {
            put_u64(&mut p, *term);
            put_u64(&mut p, *last_log_index);
            put_u64(&mut p, *last_log_term);
            assert(p@ =~= payload_bytes(msg@));
            1
        },
        Message::VoteResponse { term, granted } => {
            put_u64(&mut p, *term);
            p.push(if *granted {
                1
            } else {
                0
            });
            assert(p@ =~= payload_bytes(msg@));
            2
        },
        Message::AppendEntries { term, prev_index, prev_term, entries, leader_commit } => {
            put_u64(&mut p, *term);
            put_u64(&mut p, *prev_index);
            put_u64(&mut p, *prev_term);
            put_u64(&mut p, *leader_commit);
            put_u32(&mut p, entries.len() as u32);
            let ghost header = p@;
            let ghost es = view_entries(entries@);
            let mut i: usize = 0;
            assert(es.take(0).map_values(|e: EntryView| entry_bytes(e)) =~= Seq::<Seq<u8>>::empty());
            assert(p@ =~= header + entries_bytes(es.take(0)));
            while i < entries.len()
                invariant
                    i <= entries@.len(),
                    es == view_entries(entries@),
                    p@ == header + entries_bytes(es.take(i as int)),
                decreases entries@.len() - i,
            {
                let ghost before = p@;
                put_entry(&mut p, &entries[i]);
                proof {
                    let f = |e: EntryView| entry_bytes(e);
                    assert(es.take(i + 1).map_values(f) =~= es.take(i as int).map_values(f).push(
                        entry_bytes(es[i as int]),
                    ));
                    es.take(i as int).map_values(f).lemma_flatten_push(entry_bytes(es[i as int]));
                }
                i = i + 1;
                assert(p@ =~= header + entries_bytes(es.take(i as int)));
            }
            assert(es.take(i as int) =~= es);
            assert(p@ =~= payload_bytes(msg@));
            3
        },
        Message::AppendResponse { term, success, match_index } => {
            put_u64(&mut p, *term);
            p.push(if *success {
                1
            } else {
                0
            });
            put_u64(&mut p, *match_index);
            assert(p@ =~= payload_bytes(msg@));
            4
        },
    };
    (kind, p)
}

// ---------------------------------------------------------------------
// Round trip.

proof fn lemma_read_u64(x: u64, rest: Seq<u8>)
    ensures
        read_u64(le_u64(x) + rest) == Ok::<(u64, Seq<u8>), CodecError>((x, rest)),
{
    lemma_auto_spec_u64_to_from_le_bytes();
    let s = le_u64(x) + rest;
    assert(s.take(8) =~= le_u64(x));
    assert(s.skip(8) =~= rest);
}

proof fn lemma_read_u32(x: u32, rest: Seq<u8>)
    ensures
        read_u32(le_u32(x) + rest) == Ok::<(u32, Seq<u8>), CodecError>((x, rest)),
{
    lemma_auto_spec_u32_to_from_le_bytes();
    let s = le_u32(x) + rest;
    assert(s.take(4) =~= le_u32(x));
    assert(s.skip(4) =~= rest);
}

proof fn lemma_read_bool(b: bool, rest: Seq<u8>)
    ensures
        read_bool(seq![bool_byte(b)] + rest) == Ok::<(bool, Seq<u8>), CodecError>((b, rest)),
{
    assert((seq![bool_byte(b)] + rest).skip(1) =~= rest);
}

/// Whether every command of `es` has a length that fits the `u32` length
/// field.
pub open spec fn commands_fit(es: Seq<EntryView>) -> bool {
    forall|i: int| 0 <= i < es.len() ==> (#[trigger] es[i]).command.len() <= u32::MAX
}

proof fn lemma_read_entry(e: EntryView, rest: Seq<u8>)
    requires
        e.command.len() <= u32::MAX,
    ensures
        read_entry(entry_bytes(e) + rest) == Ok::<(EntryView, Seq<u8>), CodecError>((e, rest)),
{
    let len = e.command.len() as u32;
    let r1 = le_u32(len) + e.command + rest;
    let r2 = e.command + rest;
    assert(entry_bytes(e) + rest =~= le_u64(e.term) + r1);
    lemma_read_u64(e.term, r1);
    assert(r1 =~= le_u32(len) + r2);
    lemma_read_u32(len, r2);
    assert(r2.take(len as int) =~= e.command);
    assert(r2.skip(len as int) =~= rest);
}

proof fn lemma_entries_bytes_first(es: Seq<EntryView>)
    requires
        es.len() > 0,
    ensures
        entries_bytes(es) == entry_bytes(es[0]) + entries_bytes(es.drop_first()),
{
    let f = |e: EntryView| entry_bytes(e);
    assert(es.map_values(f).drop_first() =~= es.drop_first().map_values(f));
}

proof fn lemma_read_entries(es: Seq<EntryView>, rest: Seq<u8>)
    requires
        commands_fit(es),
    ensures
        read_entries(entries_bytes(es) + rest, es.len()) == Ok::<
            (Seq<EntryView>, Seq<u8>),
            CodecError,
        >((es, rest)),
        entries_bytes(es).len() >= 12 * es.len(),
    decreases es.len(),
{
    if es.len() == 0 {
        let f = |e: EntryView| entry_bytes(e);
        assert(es.map_values(f) =~= Seq::<Seq<u8>>::empty());
        assert(entries_bytes(es) + rest =~= rest);
        assert(es =~= Seq::<EntryView>::empty());
    } else {
        let tail = es.drop_first();
        assert(commands_fit(tail)) by {
            assert forall|i: int| 0 <= i < tail.len() implies (#[trigger] tail[i]).command.len()
                <= u32::MAX by {
                assert(tail[i] == es[i + 1]);
            }
        }
        assert(es[0].command.len() <= u32::MAX);
        lemma_entries_bytes_first(es);
        lemma_read_entries(tail, rest);
        let r1 = entries_bytes(tail) + rest;
        assert(entries_bytes(es) + rest =~= entry_bytes(es[0]) + r1);
        lemma_read_entry(es[0], r1);
        assert(seq![es[0]] + tail =~= es);
    }
}

proof fn lemma_round_trip_request_vote(term: u64, last_log_index: u64, last_log_term: u64)
    ensures
        ({
            let m = MessageView::RequestVote { term, last_log_index, last_log_term };
            parse_request_vote(payload_bytes(m)) == Ok::<MessageView, CodecError>(m)
        }),
{
    let m = MessageView::RequestVote { term, last_log_index, last_log_term };
    let empty = Seq::<u8>::empty();
    let r2 = le_u64(last_log_term) + empty;
    let r1 = le_u64(last_log_index) + r2;
    assert(payload_bytes(m) =~= le_u64(term) + r1);
    lemma_read_u64(term, r1);
    lemma_read_u64(last_log_index, r2);
    lemma_read_u64(last_log_term, empty);
}

proof fn lemma_round_trip_vote_response(term: u64, granted: bool)
    ensures
        ({
            let m = MessageView::VoteResponse { term, granted };
            parse_vote_response(payload_bytes(m)) == Ok::<MessageView, CodecError>(m)
        }),
{
    let m = MessageView::VoteResponse { term, granted };
    let empty = Seq::<u8>::empty();
    let r1 = seq![bool_byte(granted)] + empty;
    assert(payload_bytes(m) =~= le_u64(term) + r1);
    lemma_read_u64(term, r1);
    lemma_read_bool(granted, empty);
}

proof fn lemma_round_trip_append_response(term: u64, success: bool, match_index: u64)
    ensures
        ({
            let m = MessageView::AppendResponse { term, success, match_index };
            parse_append_response(payload_bytes(m)) == Ok::<MessageView, CodecError>(m)
        }),
{
    let m = MessageView::AppendResponse { term, success, match_index };
    let empty = Seq::<u8>::empty();
    let r2 = le_u64(match_index) + empty;
    let r1 = seq![bool_byte(success)] + r2;
    assert(payload_bytes(m) =~= le_u64(term) + r1);
    lemma_read_u64(term, r1);
    lemma_read_bool(success, r2);
    lemma_read_u64(match_index, empty);
}

proof fn lemma_round_trip_append_entries(
    term: u64,
    prev_index: u64,
    prev_term: u64,
    entries: Seq<EntryView>,
    leader_commit: u64,
)
    requires
        entries.len() <= u32::MAX,
        commands_fit(entries),
    ensures
        ({
            let m = MessageView::AppendEntries {
                term,
                prev_index,
                prev_term,
                entries,
                leader_commit,
            };
            parse_append_entries(payload_bytes(m)) == Ok::<MessageView, CodecError>(m)
        }),
{
    let m = MessageView::AppendEntries { term, prev_index, prev_term, entries, leader_commit };
    let empty = Seq::<u8>::empty();
    let eb = entries_bytes(entries) + empty;
    let r4 = le_u32(entries.len() as u32) + eb;
    let r3 = le_u64(leader_commit) + r4;
    let r2 = le_u64(prev_term) + r3;
    let r1 = le_u64(prev_index) + r2;
    assert(payload_bytes(m) =~= le_u64(term) + r1);
    lemma_read_u64(term, r1);
    lemma_read_u64(prev_index, r2);
    lemma_read_u64(prev_term, r3);
    lemma_read_u64(leader_commit, r4);
    lemma_read_u32(entries.len() as u32, eb);
    lemma_read_entries(entries, empty);
    assert(eb =~= entries_bytes(entries));
    assert(parse_append_body(eb, term, prev_index, prev_term, leader_commit, entries.len() as u32)
        == Ok::<MessageView, CodecError>(m));
}

/// Decoding what encoding produced gives back the message, for every
/// message whose entry count and command lengths fit their `u32` fields.
pub proof fn law_codec_round_trip(m: MessageView)
    requires
        m matches MessageView::AppendEntries { entries, .. } ==> entries.len() <= u32::MAX
            && commands_fit(entries),
    ensures
        parse_payload(message_kind(m), payload_bytes(m)) == Ok::<MessageView, CodecError>(m),
{
    match m {
        MessageView::RequestVote { term, last_log_index, last_log_term } => {
            lemma_round_trip_request_vote(term, last_log_index, last_log_term);
        },
        MessageView::VoteResponse { term, granted } => {
            lemma_round_trip_vote_response(term, granted);
        },
        MessageView::AppendEntries { term, prev_index, prev_term, entries, leader_commit } => {
            lemma_round_trip_append_entries(term, prev_index, prev_term, entries, leader_commit);
        },
        MessageView::AppendResponse { term, success, match_index } => {
            lemma_round_trip_append_response(term, success, match_index);
        },
    }
}

// ---------------------------------------------------------------------
// Strict prefixes of a payload.

/// What a read gives on the first `k` bytes of `s`, from what it gives on
/// all of `s`: the same value and the rest cut to fit, or `Truncated` when
/// the prefix ends before the read does.
pub open spec fn on_prefix<T>(full: Result<(T, Seq<u8>), CodecError>, len: int, k: int) -> Result<
    (T, Seq<u8>),
    CodecError,
> {
    match full {
        Ok((v, r)) => if k < len - r.len() {
            Err(CodecError::Truncated)
        } else {
            Ok((v, r.take(k - (len - r.len()))))
        },
        Err(e) => Err(e),
    }
}

proof fn lemma_bytes_prefix(s: Seq<u8>, n: int, k: int)
    requires
        0 <= n,
        0 <= k <= s.len(),
        read_bytes(s, n) is Ok,
    ensures
        read_bytes(s.take(k), n) == on_prefix(read_bytes(s, n), s.len() as int, k),
{
    if k >= n {
        assert(s.take(k).take(n) =~= s.take(n));
        assert(s.take(k).skip(n) =~= s.skip(n).take(k - n));
    }
}

proof fn lemma_u64_prefix(s: Seq<u8>, k: int)
    requires
        0 <= k <= s.len(),
        read_u64(s) is Ok,
    ensures
        read_u64(s.take(k)) == on_prefix(read_u64(s), s.len() as int, k),
{
    if k >= 8 {
        assert(s.take(k).take(8) =~= s.take(8));
        assert(s.take(k).skip(8) =~= s.skip(8).take(k - 8));
    }
}

proof fn lemma_u32_prefix(s: Seq<u8>, k: int)
    requires
        0 <= k <= s.len(),
        read_u32(s) is Ok,
    ensures
        read_u32(s.take(k)) == on_prefix(read_u32(s), s.len() as int, k),
{
    if k >= 4 {
        assert(s.take(k).take(4) =~= s.take(4));
        assert(s.take(k).skip(4) =~= s.skip(4).take(k - 4));
    }
}

proof fn lemma_bool_prefix(s: Seq<u8>, k: int)
    requires
        0 <= k <= s.len(),
        read_bool(s) is Ok,
    ensures
        read_bool(s.take(k)) == on_prefix(read_bool(s), s.len() as int, k),
{
    if k >= 1 {
        assert(s.take(k)[0] == s[0]);
        assert(s.take(k).skip(1) =~= s.skip(1).take(k - 1));
    }
}

proof fn lemma_entry_prefix(s: Seq<u8>, k: int)
    requires
        0 <= k <= s.len(),
        read_entry(s) is Ok,
    ensures
        read_entry(s.take(k)) == on_prefix(read_entry(s), s.len() as int, k),
{
    lemma_u64_prefix(s, k);
    if k >= 8 {
        let r1 = s.skip(8);
        lemma_u32_prefix(r1, k - 8);
        if k >= 12 {
            let r2 = r1.skip(4);
            let len = spec_u32_from_le_bytes(r1.take(4));
            lemma_bytes_prefix(r2, len as int, k - 12);
        }
    }
}

proof fn lemma_entries_prefix(s: Seq<u8>, n: nat, k: int)
    requires
        0 <= k <= s.len(),
        read_entries(s, n) is Ok,
    ensures
        read_entries(s.take(k), n) == on_prefix(read_entries(s, n), s.len() as int, k),
        read_entries(s, n)->Ok_0.1.len() <= s.len(),
    decreases n,
{
    if n > 0 {
        lemma_entry_prefix(s, k);
        let (e, r1) = read_entry(s)->Ok_0;
        let c1 = s.len() - r1.len();
        lemma_entries_prefix(r1, (n - 1) as nat, 0);
        if k >= c1 {
            lemma_entries_prefix(r1, (n - 1) as nat, k - c1);
        }
    }
}

/// No strict prefix of a payload that decodes to a message decodes: each
/// is refused as truncated.
pub proof fn law_strict_prefix_is_truncated(kind: u8, p: Seq<u8>, k: int)
    requires
        parse_payload(kind, p) is Ok,
        0 <= k < p.len(),
    ensures
        parse_payload(kind, p.take(k)) == Err::<MessageView, CodecError>(CodecError::Truncated),
{
    lemma_u64_prefix(p, k);
    if k >= 8 {
        let r1 = p.skip(8);
        if kind == 1 {
            lemma_u64_prefix(r1, k - 8);
            if k >= 16 {
                lemma_u64_prefix(r1.skip(8), k - 16);
            }
        } else if kind == 2 {
            lemma_bool_prefix(r1, k - 8);
        } else if kind == 4 {
            lemma_bool_prefix(r1, k - 8);
            if k >= 9 {
                lemma_u64_prefix(r1.skip(1), k - 9);
            }
        } else {
            let r2 = r1.skip(8);
            let r3 = r2.skip(8);
            let r4 = r3.skip(8);
            let r5 = r4.skip(4);
            lemma_u64_prefix(r1, k - 8);
            if k >= 16 {
                lemma_u64_prefix(r2, k - 16);
                if k >= 24 {
                    lemma_u64_prefix(r3, k - 24);
                    if k >= 32 {
                        lemma_u32_prefix(r4, k - 32);
                        if k >= 36 {
                            let count = spec_u32_from_le_bytes(r4.take(4));
                            let rq = r5.take(k - 36);
                            if count <= rq.len() / 12 {
                                lemma_entries_prefix(r5, count as nat, k - 36);
                            }
                        }
                    }
                }
            }
        }
    }
}

/// No strict prefix of an encoded message decodes.
pub proof fn law_encoded_prefix_is_truncated(m: MessageView, k: int)
    requires
        m matches MessageView::AppendEntries { entries, .. } ==> entries.len() <= u32::MAX
            && commands_fit(entries),
        0 <= k < payload_bytes(m).len(),
    ensures
        parse_payload(message_kind(m), payload_bytes(m).take(k)) == Err::<MessageView, CodecError>(
            CodecError::Truncated,
        ),
{
    law_codec_round_trip(m);
    law_strict_prefix_is_truncated(message_kind(m), payload_bytes(m), k);
}

} // verus!
