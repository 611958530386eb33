//! How a node's persistent state is laid out in an ordered key-value
//! store: the hard state (term, vote) under key `h`, and each log entry
//! under `e` followed by its index in big-endian, so that a scan of the
//! prefix `e` returns the log in order. This module owns the keys and the
//! bytes; the store itself is driven from outside.

use vstd::prelude::*;
use vstd::bytes::{
    lemma_auto_spec_u64_to_from_le_bytes, spec_u64_from_le_bytes, u64_from_le_bytes,
    u64_to_le_bytes,
};

use crate::codec::le_u64;
use crate::kv::{key_eq, lex_lt};
use crate::message::{view_entries, Entry, EntryView, Index, NodeId, Term};

verus! {

/// The key of the hard state.
pub const HARD_STATE_KEY: u8 = 0x68;

/// The first byte of every log entry's key.
pub const ENTRY_PREFIX: u8 = 0x65;

/// The vote field's value when there is no vote.
pub const NO_VOTE: u64 = 0xFFFF_FFFF_FFFF_FFFF;

/// Why stored state cannot be loaded. Either means the store was damaged,
/// and a node must not run on it.
#[derive(Debug, Clone, Copy, PartialEq, Eq, Structural)]
pub enum LayoutError {
    /// The hard state is not 16 bytes.
    CorruptHardState,
    /// The scanned log has a gap or a misordered key at this position.
    LogGap(usize),
    /// The entry at this position is shorter than its term.
    CorruptEntry(usize),
}

pub open spec fn be_u64(x: u64) -> Seq<u8> {
    le_u64(x).reverse()
}

/// The key under which the entry at `index` is stored.
pub open spec fn entry_key_bytes(index: Index) -> Seq<u8> {
    seq![ENTRY_PREFIX] + be_u64(index)
}

/// The stored hard state: term, then the vote (or `NO_VOTE`), both
/// little-endian.
pub open spec fn hard_state_bytes(term: Term, voted_for: Option<NodeId>) -> Seq<u8> {
    le_u64(term) + le_u64(
        match voted_for {
            Some(n) => n as u64,
            None => NO_VOTE,
        },
    )
}

/// The stored value of an entry: its term, little-endian, then its
/// command.
pub open spec fn entry_value_bytes(e: EntryView) -> Seq<u8> {
    le_u64(e.term) + e.command
}

/// The hard state that stored bytes hold; nothing stored is term 0 and no
/// vote.
pub open spec fn parse_hard_state(stored: Option<Seq<u8>>) -> Result<(Term, Option<NodeId>), LayoutError> {
    match stored {
        None => Ok((0, None)),
        Some(b) => if b.len() == 16 {
            let vote = spec_u64_from_le_bytes(b.subrange(8, 16));
            Ok(
                (
                    spec_u64_from_le_bytes(b.subrange(0, 8)),
                    if vote != NO_VOTE {
                        Some(vote as NodeId)
                    } else {
                        None
                    },
                ),
            )
        } else {
            Err(LayoutError::CorruptHardState)
        },
    }
}

/// The entry a stored value holds, if it is long enough.
pub open spec fn parse_entry_value(v: Seq<u8>) -> Option<EntryView> {
    if v.len() >= 8 {
        Some(EntryView { term: spec_u64_from_le_bytes(v.take(8)), command: v.skip(8) })
    } else {
        None
    }
}

/// The log a scan of the entry keys holds: the `i`-th pair must have the
/// key of index `i + 1` and a value holding an entry.
pub open spec fn parse_log(scan: Seq<(Seq<u8>, Seq<u8>)>) -> Result<Seq<EntryView>, LayoutError>
    decreases scan.len(),
{
    if scan.len() == 0 {
        Ok(Seq::empty())
    } else {
        match parse_log(scan.drop_last()) {
            Err(e) => Err(e),
            Ok(log) => {
                let i = scan.len() - 1;
                if scan.last().0 != entry_key_bytes((i + 1) as Index) {
                    Err(LayoutError::LogGap(i as usize))
                } else {
                    match parse_entry_value(scan.last().1) {
                        None => Err(LayoutError::CorruptEntry(i as usize)),
                        Some(e) => Ok(log.push(e)),
                    }
                }
            },
        }
    }
}

pub open spec fn view_scan(scan: Seq<(Vec<u8>, Vec<u8>)>) -> Seq<(Seq<u8>, Seq<u8>)> {
    scan.map_values(|p: (Vec<u8>, Vec<u8>)| (p.0@, p.1@))
}

/// The key of the entry at `index`.
pub fn entry_key(index: Index) -> (k: Vec<u8>)
    ensures
        k@ == entry_key_bytes(index),
{
    let le = u64_to_le_bytes(index);
    let mut k: Vec<u8> = Vec::new();
    k.push(ENTRY_PREFIX);
    let mut i: usize = 8;
    proof {
        lemma_auto_spec_u64_to_from_le_bytes();
    }
    assert(le@.len() == 8);
    while i > 0
        invariant
            i <= 8,
            le@ == le_u64(index),
            le@.len() == 8,
            k@ == seq![ENTRY_PREFIX] + le@.reverse().take(8 - i),
        decreases i,
    {
        i = i - 1;
        let b = le[i];
        let ghost before = k@;
        k.push(b);
        assert(le@.reverse().take(8 - i) =~= le@.reverse().take(8 - i - 1).push(b));
    }
    assert(le@.reverse().take(8) =~= le@.reverse());
    k
}

/// The bytes of a hard state.
pub fn encode_hard_state(term: Term, voted_for: Option<NodeId>) -> (v: Vec<u8>)
    ensures
        v@ == hard_state_bytes(term, voted_for),
{
    let mut v = u64_to_le_bytes(term);
    let vote: u64 = match voted_for {
        Some(n) => n as u64,
        None => NO_VOTE,
    };
    let mut w = u64_to_le_bytes(vote);
    v.append(&mut w);
    v
}

/// The stored value of an entry.
pub fn encode_entry_value(e: &Entry) -> (v: Vec<u8>)
    ensures
        v@ == entry_value_bytes(e@),
{
    let mut v = u64_to_le_bytes(e.term);
    let ghost t = v@;
    v.extend_from_slice(e.command.as_slice());
    assert(v@ =~= t + e.command@);
    v
}

/// The hard state in what the store holds under its key.
pub fn decode_hard_state(stored: Option<&[u8]>) -> (r: Result<(Term, Option<NodeId>), LayoutError>)
    ensures
        r == parse_hard_state(
            match stored {
                Some(b) => Some(b@),
                None => None,
            },
        ),
{
    match stored {
        None => Ok((0, None)),
        Some(b) => {
            if b.len() == 16 {
                let term = u64_from_le_bytes(&b[0..8]);
                let vote = u64_from_le_bytes(&b[8..16]);
                let voted_for = if vote != NO_VOTE {
                    Some(vote as NodeId)
                } else {
                    None
                };
                Ok((term, voted_for))
            } else {
                Err(LayoutError::CorruptHardState)
            }
        },
    }
}

/// The log in a scan of the entry keys, in key order.
pub fn decode_log(scan: &[(Vec<u8>, Vec<u8>)]) -> (r: Result<Vec<Entry>, LayoutError>)
    ensures
        match r {
            Ok(log) => parse_log(view_scan(scan@)) == Ok::<Seq<EntryView>, LayoutError>(
                view_entries(log@),
            ),
            Err(e) => parse_log(view_scan(scan@)) == Err::<Seq<EntryView>, LayoutError>(e),
        },
{
    let mut log: Vec<Entry> = Vec::new();
    let mut i: usize = 0;
    assert(view_scan(scan@).take(0) =~= Seq::<(Seq<u8>, Seq<u8>)>::empty());
    assert(view_entries(log@) =~= Seq::<EntryView>::empty());
    while i < scan.len()
        invariant
            i <= scan@.len(),
            parse_log(view_scan(scan@).take(i as int)) == Ok::<Seq<EntryView>, LayoutError>(
                view_entries(log@),
            ),
        decreases scan@.len() - i,
    {
        let ghost prefix = view_scan(scan@).take(i + 1);
        assert(prefix.drop_last() =~= view_scan(scan@).take(i as int));
        let key = &scan[i].0;
        let val = &scan[i].1;
        let expected = entry_key(i as u64 + 1);
        if !key_eq(key.as_slice(), expected.as_slice()) {
            proof {
                assert(prefix.last().0 == key@);
                lemma_parse_log_prefix_err(view_scan(scan@), i as int + 1, LayoutError::LogGap(i));
            }
            return Err(LayoutError::LogGap(i));
        }
        if val.len() < 8 {
            proof {
                lemma_parse_log_prefix_err(view_scan(scan@), i as int + 1, LayoutError::CorruptEntry(i));
            }
            return Err(LayoutError::CorruptEntry(i));
        }
        let term = u64_from_le_bytes(&val.as_slice()[0..8]);
        let command = vstd::slice::slice_to_vec(&val.as_slice()[8..val.len()]);
        let e = Entry { term, command };
        assert(val@.take(8) =~= val@.subrange(0, 8));
        assert(command@ =~= val@.skip(8));
        let ghost before = view_entries(log@);
        log.push(e);
        assert(view_entries(log@) =~= before.push(e@));
        i = i + 1;
    }
    assert(view_scan(scan@).take(i as int) =~= view_scan(scan@));
    Ok(log)
}

/// An error in a prefix of a scan is the error of the whole scan.
proof fn lemma_parse_log_prefix_err(scan: Seq<(Seq<u8>, Seq<u8>)>, n: int, e: LayoutError)
    requires
        0 < n <= scan.len(),
        parse_log(scan.take(n)) == Err::<Seq<EntryView>, LayoutError>(e),
    ensures
        parse_log(scan) == Err::<Seq<EntryView>, LayoutError>(e),
    decreases scan.len() - n,
{
    if n < scan.len() {
        assert(scan.take(n + 1).drop_last() =~= scan.take(n));
        lemma_parse_log_prefix_err(scan, n + 1, e);
    } else {
        assert(scan.take(n) =~= scan);
    }
}

/// The scan of a store that holds `log` under the entry keys.
pub open spec fn log_scan(log: Seq<EntryView>) -> Seq<(Seq<u8>, Seq<u8>)> {
    Seq::new(log.len(), |i: int| (entry_key_bytes((i + 1) as Index), entry_value_bytes(log[i])))
}

/// Loading what was stored gives the hard state back (a vote is stored as
/// a `u64`, so a vote for the node id equal to `NO_VOTE` reads as none).
pub proof fn law_hard_state_round_trip(term: Term, voted_for: Option<NodeId>)
    requires
        voted_for matches Some(n) ==> n as u64 != NO_VOTE,
    ensures
        parse_hard_state(Some(hard_state_bytes(term, voted_for))) == Ok::<
            (Term, Option<NodeId>),
            LayoutError,
        >((term, voted_for)),
{
    lemma_auto_spec_u64_to_from_le_bytes();
    let vote: u64 = match voted_for {
        Some(n) => n as u64,
        None => NO_VOTE,
    };
    let b = hard_state_bytes(term, voted_for);
    assert(b.subrange(0, 8) =~= le_u64(term));
    assert(b.subrange(8, 16) =~= le_u64(vote));
}

/// Loading the entries a log was stored as gives the log back.
pub proof fn law_log_round_trip(log: Seq<EntryView>)
    requires
        log.len() < u64::MAX,
    ensures
        parse_log(log_scan(log)) == Ok::<Seq<EntryView>, LayoutError>(log),
    decreases log.len(),
{
    if log.len() > 0 {
        let init = log.drop_last();
        law_log_round_trip(init);
        assert(log_scan(log).drop_last() =~= log_scan(init));
        lemma_auto_spec_u64_to_from_le_bytes();
        let v = entry_value_bytes(log.last());
        assert(v.take(8) =~= le_u64(log.last().term));
        assert(v.skip(8) =~= log.last().command);
        assert(init.push(log.last()) =~= log);
        assert(log_scan(log).last() == (entry_key_bytes(log.len() as Index), v));
        assert(parse_entry_value(v) == Some(log.last()));
    } else {
        assert(log =~= Seq::<EntryView>::empty());
        assert(log_scan(log) =~= Seq::<(Seq<u8>, Seq<u8>)>::empty());
    }
}

/// The writes that store `entries` after the entry at `last`: each under
/// the key of its index.
pub open spec fn append_writes(last: Index, entries: Seq<EntryView>) -> Seq<(Seq<u8>, Seq<u8>)> {
    Seq::new(
        entries.len(),
        |i: int| (entry_key_bytes((last + 1 + i) as Index), entry_value_bytes(entries[i])),
    )
}

/// The keys deleted to remove the entries from `index` to `last`.
pub open spec fn truncate_deletes(index: Index, last: Index) -> Seq<Seq<u8>> {
    Seq::new((last - index + 1) as nat, |j: int| entry_key_bytes((index + j) as Index))
}

pub open spec fn view_keys(keys: Seq<Vec<u8>>) -> Seq<Seq<u8>> {
    keys.map_values(|k: Vec<u8>| k@)
}

/// Where a node's log ends in the store: the index of its last entry. The
/// writes for appending and truncating follow from it.
pub struct DiskLog {
    last_index: Index,
}

impl View for DiskLog {
    type V = Index;

    closed spec fn view(&self) -> Index {
        self.last_index
    }
}

impl DiskLog {
    /// A log whose last entry is at `last_index` (the number of entries
    /// a scan found).
    pub fn at(last_index: Index) -> (d: DiskLog)
        ensures
            d@ == last_index,
    {
        DiskLog { last_index }
    }

    pub fn last_index(&self) -> (i: Index)
        ensures
            i == self@,
    {
        self.last_index
    }

    /// The writes that append `entries`; the log then ends after them.
    pub fn append(&mut self, entries: &[Entry]) -> (writes: Vec<(Vec<u8>, Vec<u8>)>)
        requires
            old(self)@ + entries@.len() <= u64::MAX,
        ensures
            view_scan(writes@) == append_writes(old(self)@, view_entries(entries@)),
            final(self)@ == old(self)@ + entries@.len(),
    {
        let ghost want = append_writes(self.last_index, view_entries(entries@));
        let mut writes: Vec<(Vec<u8>, Vec<u8>)> = Vec::new();
        let mut i: usize = 0;
        while i < entries.len()
            invariant
                i <= entries@.len(),
                self@ + entries@.len() <= u64::MAX,
                want == append_writes(self@, view_entries(entries@)),
                view_scan(writes@) == want.take(i as int),
                writes@.len() == i,
                want.len() == entries@.len(),
            decreases entries@.len() - i,
        {
            let key = entry_key(self.last_index + 1 + i as u64);
            let value = encode_entry_value(&entries[i]);
            assert(view_entries(entries@)[i as int] == entries@[i as int]@);
            let ghost before = writes@;
            writes.push((key, value));
            assert forall|q: int| 0 <= q < i implies view_scan(writes@)[q] == want[q] by {
                assert(view_scan(before)[q] == want.take(i as int)[q]);
            }
            assert(view_scan(writes@) =~= want.take(i + 1));
            i = i + 1;
        }
        assert(want.take(i as int) =~= want);
        self.last_index = self.last_index + entries.len() as u64;
        writes
    }

    /// The keys to delete to remove the entry at `index` and everything
    /// after it: none when `index` is past the last entry. The log then
    /// ends before `index`.
    pub fn truncate_from(&mut self, index: Index) -> (deletes: Vec<Vec<u8>>)
        ensures
            old(self)@ < index ==> deletes@.len() == 0 && final(self)@ == old(self)@,
            index <= old(self)@ ==> {
                &&& view_keys(deletes@) == truncate_deletes(index, old(self)@)
                &&& final(self)@ == if index == 0 {
                    0
                } else {
                    index - 1
                }
            },
    {
        let mut deletes: Vec<Vec<u8>> = Vec::new();
        if index > self.last_index {
            return deletes;
        }
        let ghost want = truncate_deletes(index, self.last_index);
        let span = self.last_index - index;
        let mut k: u64 = 0;
        while k < span
            invariant
                k <= span,
                span == self@ - index,
                index <= self@,
                want == truncate_deletes(index, self@),
                view_keys(deletes@) == want.take(k as int),
                deletes@.len() == k,
                want.len() == span + 1,
            decreases span - k,
        {
            let ghost before = deletes@;
            deletes.push(entry_key(index + k));
            assert forall|q: int| 0 <= q < k implies view_keys(deletes@)[q] == want[q] by {
                assert(view_keys(before)[q] == want.take(k as int)[q]);
            }
            assert(view_keys(deletes@) =~= want.take(k + 1));
            k = k + 1;
        }
        let ghost before = deletes@;
        deletes.push(entry_key(index + span));
        assert forall|q: int| 0 <= q < span implies view_keys(deletes@)[q] == want[q] by {
            assert(view_keys(before)[q] == want.take(span as int)[q]);
        }
        assert(view_keys(deletes@) =~= want);
        self.last_index = if index == 0 { 0 } else { index - 1 };
        deletes
    }
}

/// The byte of `x` at bit offset `shift`.
pub open spec fn byte(x: u64, shift: u64) -> u8 {
    ((x >> shift) & 0xff) as u8
}

/// The bytes of `be_u64(x)`, most significant first.
proof fn lemma_be_u64_bytes(x: u64)
    ensures
        be_u64(x).len() == 8,
        be_u64(x)[0] == byte(x, 56),
        be_u64(x)[1] == byte(x, 48),
        be_u64(x)[2] == byte(x, 40),
        be_u64(x)[3] == byte(x, 32),
        be_u64(x)[4] == byte(x, 24),
        be_u64(x)[5] == byte(x, 16),
        be_u64(x)[6] == byte(x, 8),
        be_u64(x)[7] == byte(x, 0),
{
    vstd::bytes::spec_u64_to_le_bytes_to_open(x);
    assert(x >> 0u64 == x) by (bit_vector);
}

/// Bytewise order of two 8-byte sequences from position `k` on.
spec fn lex_from(a: Seq<u8>, b: Seq<u8>, k: int) -> bool
    decreases 8 - k,
{
    if k < 0 || k >= 8 {
        false
    } else {
        a[k] < b[k] || (a[k] == b[k] && lex_from(a, b, k + 1))
    }
}

proof fn lemma_lex_from(a: Seq<u8>, b: Seq<u8>, k: int)
    requires
        a.len() == 8,
        b.len() == 8,
        0 <= k <= 8,
    ensures
        lex_lt(a.skip(k), b.skip(k)) == lex_from(a, b, k),
    decreases 8 - k,
{
    if k < 8 {
        lemma_lex_from(a, b, k + 1);
        assert(a.skip(k).drop_first() =~= a.skip(k + 1));
        assert(b.skip(k).drop_first() =~= b.skip(k + 1));
    } else {
        assert(a.skip(k).len() == 0 && b.skip(k).len() == 0);
    }
}

/// The order of the `k` low bytes of `i` and `j`, for `k` from 1 to 8,
/// is their bytewise order, most significant first.
proof fn lemma_low_bytes_order(i: u64, j: u64)
    ensures
        (byte(i, 0) < byte(j, 0)) == (i % 0x100 < j % 0x100),
        (i % 0x1_0000 < j % 0x1_0000) == (byte(i, 8) < byte(j, 8) || (byte(i, 8) == byte(j, 8) && i % 0x100 < j % 0x100)),
        (i % 0x100_0000 < j % 0x100_0000) == (byte(i, 16) < byte(j, 16) || (byte(i, 16) == byte(j, 16) && i % 0x1_0000 < j % 0x1_0000)),
        (i % 0x1_0000_0000 < j % 0x1_0000_0000) == (byte(i, 24) < byte(j, 24) || (byte(i, 24) == byte(j, 24) && i % 0x100_0000 < j % 0x100_0000)),
        (i % 0x100_0000_0000 < j % 0x100_0000_0000) == (byte(i, 32) < byte(j, 32) || (byte(i, 32) == byte(j, 32) && i % 0x1_0000_0000 < j % 0x1_0000_0000)),
        (i % 0x1_0000_0000_0000 < j % 0x1_0000_0000_0000) == (byte(i, 40) < byte(j, 40) || (byte(i, 40) == byte(j, 40) && i % 0x100_0000_0000 < j % 0x100_0000_0000)),
        (i % 0x100_0000_0000_0000 < j % 0x100_0000_0000_0000) == (byte(i, 48) < byte(j, 48) || (byte(i, 48) == byte(j, 48) && i % 0x1_0000_0000_0000 < j % 0x1_0000_0000_0000)),
        (i < j) == (byte(i, 56) < byte(j, 56) || (byte(i, 56) == byte(j, 56) && i % 0x100_0000_0000_0000 < j % 0x100_0000_0000_0000)),
{
    assert((byte(i, 0) < byte(j, 0)) == (i % 0x100 < j % 0x100)) by (bit_vector);
    assert((i % 0x1_0000 < j % 0x1_0000) == (byte(i, 8) < byte(j, 8) || (byte(i, 8) == byte(j, 8) && i % 0x100 < j % 0x100))) by (bit_vector);
    assert((i % 0x100_0000 < j % 0x100_0000) == (byte(i, 16) < byte(j, 16) || (byte(i, 16) == byte(j, 16) && i % 0x1_0000 < j % 0x1_0000))) by (bit_vector);
    assert((i % 0x1_0000_0000 < j % 0x1_0000_0000) == (byte(i, 24) < byte(j, 24) || (byte(i, 24) == byte(j, 24) && i % 0x100_0000 < j % 0x100_0000))) by (bit_vector);
    assert((i % 0x100_0000_0000 < j % 0x100_0000_0000) == (byte(i, 32) < byte(j, 32) || (byte(i, 32) == byte(j, 32) && i % 0x1_0000_0000 < j % 0x1_0000_0000))) by (bit_vector);
    assert((i % 0x1_0000_0000_0000 < j % 0x1_0000_0000_0000) == (byte(i, 40) < byte(j, 40) || (byte(i, 40) == byte(j, 40) && i % 0x100_0000_0000 < j % 0x100_0000_0000))) by (bit_vector);
    assert((i % 0x100_0000_0000_0000 < j % 0x100_0000_0000_0000) == (byte(i, 48) < byte(j, 48) || (byte(i, 48) == byte(j, 48) && i % 0x1_0000_0000_0000 < j % 0x1_0000_0000_0000))) by (bit_vector);
    assert((i < j) == (byte(i, 56) < byte(j, 56) || (byte(i, 56) == byte(j, 56) && i % 0x100_0000_0000_0000 < j % 0x100_0000_0000_0000))) by (bit_vector);
}

/// Big-endian bytes order as the numbers do.
proof fn lemma_be_u64_order(i: u64, j: u64)
    ensures
        lex_lt(be_u64(i), be_u64(j)) == (i < j),
{
    let a = be_u64(i);
    let b = be_u64(j);
    lemma_be_u64_bytes(i);
    lemma_be_u64_bytes(j);
    lemma_low_bytes_order(i, j);
    lemma_lex_from(a, b, 0);
    assert(a.skip(0) =~= a);
    assert(b.skip(0) =~= b);
    assert(!lex_from(a, b, 8));
    assert(lex_from(a, b, 7) == (i % 0x100 < j % 0x100));
    assert(lex_from(a, b, 6) == (i % 0x1_0000 < j % 0x1_0000));
    assert(lex_from(a, b, 5) == (i % 0x100_0000 < j % 0x100_0000));
    assert(lex_from(a, b, 4) == (i % 0x1_0000_0000 < j % 0x1_0000_0000));
    assert(lex_from(a, b, 3) == (i % 0x100_0000_0000 < j % 0x100_0000_0000));
    assert(lex_from(a, b, 2) == (i % 0x1_0000_0000_0000 < j % 0x1_0000_0000_0000));
    assert(lex_from(a, b, 1) == (i % 0x100_0000_0000_0000 < j % 0x100_0000_0000_0000));
    assert(lex_from(a, b, 0) == (i < j));
}

/// The keys of log entries sort as their indices do, so a scan of the
/// entry prefix returns the log in index order; two indices share a key
/// only if they are equal.
pub proof fn law_entry_keys_sort_by_index(i: Index, j: Index)
    ensures
        i < j <==> lex_lt(entry_key_bytes(i), entry_key_bytes(j)),
        i == j <==> entry_key_bytes(i) == entry_key_bytes(j),
{
    let ki = entry_key_bytes(i);
    let kj = entry_key_bytes(j);
    lemma_be_u64_bytes(i);
    lemma_be_u64_bytes(j);
    assert(ki.drop_first() =~= be_u64(i));
    assert(kj.drop_first() =~= be_u64(j));
    lemma_be_u64_order(i, j);
    lemma_be_u64_order(j, i);
    crate::kv::lemma_lex_irreflexive(ki);
    if i != j {
        assert(lex_lt(ki, kj) || lex_lt(kj, ki));
        assert(ki != kj);
    }
}

/// Appending writes exactly the scan entries that a store holding the
/// longer log has beyond those of the shorter one.
pub proof fn law_append_extends_scan(log: Seq<EntryView>, entries: Seq<EntryView>)
    requires
        log.len() + entries.len() <= u64::MAX,
    ensures
        log_scan(log) + append_writes(log.len() as Index, entries) == log_scan(log + entries),
{
    assert(log_scan(log) + append_writes(log.len() as Index, entries) =~= log_scan(log + entries));
}

/// Truncating from an index within the log deletes exactly the keys of
/// the scan entries that the truncated log no longer has.
pub proof fn law_truncate_shortens_scan(log: Seq<EntryView>, index: Index)
    requires
        1 <= index <= log.len(),
        log.len() <= u64::MAX,
    ensures
        log_scan(log) == log_scan(crate::storage::truncated_log(log, index as int)) + log_scan(
            log,
        ).skip(index - 1),
        log_scan(log).skip(index - 1).map_values(|p: (Seq<u8>, Seq<u8>)| p.0) == truncate_deletes(
            index,
            log.len() as Index,
        ),
{
    let kept = crate::storage::truncated_log(log, index as int);
    assert(kept =~= log.take(index - 1));
    assert(log_scan(log) =~= log_scan(kept) + log_scan(log).skip(index - 1));
    assert(log_scan(log).skip(index - 1).map_values(|p: (Seq<u8>, Seq<u8>)| p.0) =~= truncate_deletes(
        index,
        log.len() as Index,
    ));
}

} // verus!
