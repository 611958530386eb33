//! A replicated key-value state machine. Commands are opaque bytes to
//! consensus; this module defines their meaning. Applying the same
//! committed log always yields the same map: `apply` is deterministic and
//! total, and malformed or empty commands (the leadership no-op is empty)
//! are ignored the same way everywhere.
//!
//! The map is kept as a list of key-value pairs in strictly increasing
//! key order (bytewise lexicographic), so it iterates in key order and two
//! stores are equal exactly when they hold the same pairs.

use vstd::prelude::*;
use vstd::bytes::{lemma_auto_spec_u32_to_from_le_bytes, spec_u32_from_le_bytes, u32_from_le_bytes, u32_to_le_bytes};

use crate::codec::le_u32;
use crate::message::Entry;

verus! {

/// A key-value command.
#[derive(Debug, Clone, PartialEq, Eq)]
pub enum Command {
    Put { key: Vec<u8>, value: Vec<u8> },
    Delete { key: Vec<u8> },
}

/// The mathematical value of a command.
pub enum CommandView {
    Put { key: Seq<u8>, value: Seq<u8> },
    Delete { key: Seq<u8> },
}

impl View for Command {
    type V = CommandView;

    open spec fn view(&self) -> CommandView {
        match self {
            Command::Put { key, value } => CommandView::Put { key: key@, value: value@ },
            Command::Delete { key } => CommandView::Delete { key: key@ },
        }
    }
}

/// `1, key_len u32 LE, key, value` for Put; `2, key` for Delete.
pub open spec fn command_bytes(c: CommandView) -> Seq<u8> {
    match c {
        CommandView::Put { key, value } => seq![1u8] + le_u32(key.len() as u32) + key + value,
        CommandView::Delete { key } => seq![2u8] + key,
    }
}

/// The command that `bytes` encode, if any.
pub open spec fn parse_command(bytes: Seq<u8>) -> Option<CommandView> {
    if bytes.len() == 0 {
        None
    } else if bytes[0] == 1 {
        let rest = bytes.skip(1);
        if rest.len() < 4 {
            None
        } else {
            let len = spec_u32_from_le_bytes(rest.take(4));
            let body = rest.skip(4);
            if body.len() < len {
                None
            } else {
                Some(CommandView::Put { key: body.take(len as int), value: body.skip(len as int) })
            }
        }
    } else if bytes[0] == 2 {
        Some(CommandView::Delete { key: bytes.skip(1) })
    } else {
        None
    }
}

pub open spec fn view_command(c: Option<Command>) -> Option<CommandView> {
    match c {
        Some(c) => Some(c@),
        None => None,
    }
}

impl Command {
    /// The command's bytes.
    pub fn encode(&self) -> (v: Vec<u8>)
        ensures
            v@ == command_bytes(self@),
    {
        match self {
            Command::Put { key, value } => {
                let mut v: Vec<u8> = Vec::new();
                v.push(1);
                let mut len = u32_to_le_bytes(key.len() as u32);
                v.append(&mut len);
                v.extend_from_slice(key.as_slice());
                let ghost mid = v@;
                v.extend_from_slice(value.as_slice());
                assert(v@ =~= command_bytes(self@));
                v
            },
            Command::Delete { key } => {
                let mut v: Vec<u8> = Vec::new();
                v.push(2);
                v.extend_from_slice(key.as_slice());
                assert(v@ =~= command_bytes(self@));
                v
            },
        }
    }

    /// The command `bytes` encode; `None` for empty or malformed bytes.
    pub fn decode(bytes: &[u8]) -> (c: Option<Command>)
        ensures
            view_command(c) == parse_command(bytes@),
    {
        if bytes.len() == 0 {
            return None;
        }
        if bytes[0] == 1 {
            if bytes.len() - 1 < 4 {
                return None;
            }
            let len_bytes = &bytes[1..5];
            let len = u32_from_le_bytes(len_bytes) as usize;
            assert(len_bytes@ =~= bytes@.skip(1).take(4));
            if bytes.len() - 5 < len {
                return None;
            }
            let key = vstd::slice::slice_to_vec(&bytes[5..5 + len]);
            let value = vstd::slice::slice_to_vec(&bytes[5 + len..bytes.len()]);
            assert(key@ =~= bytes@.skip(1).skip(4).take(len as int));
            assert(value@ =~= bytes@.skip(1).skip(4).skip(len as int));
            Some(Command::Put { key, value })
        } else if bytes[0] == 2 {
            let key = vstd::slice::slice_to_vec(&bytes[1..bytes.len()]);
            assert(key@ =~= bytes@.skip(1));
            Some(Command::Delete { key })
        } else {
            None
        }
    }
}

/// Decoding what encoding produced gives the command back, for every key
/// whose length fits the `u32` length field.
pub proof fn law_command_round_trip(c: CommandView)
    requires
        c matches CommandView::Put { key, .. } ==> key.len() <= u32::MAX,
    ensures
        parse_command(command_bytes(c)) == Some(c),
{
    lemma_auto_spec_u32_to_from_le_bytes();
    match c {
        CommandView::Put { key, value } => {
            let b = command_bytes(c);
            let rest = b.skip(1);
            assert(rest =~= le_u32(key.len() as u32) + key + value);
            assert(rest.take(4) =~= le_u32(key.len() as u32));
            assert(rest.skip(4) =~= key + value);
            assert((key + value).take(key.len() as int) =~= key);
            assert((key + value).skip(key.len() as int) =~= value);
        },
        CommandView::Delete { key } => {
            assert(command_bytes(c).skip(1) =~= key);
        },
    }
}

// ---------------------------------------------------------------------
// Key order: bytewise lexicographic, a proper prefix first.

pub open spec fn lex_lt(a: Seq<u8>, b: Seq<u8>) -> bool
    decreases a.len(),
{
    if a.len() == 0 {
        b.len() > 0
    } else if b.len() == 0 {
        false
    } else if a[0] < b[0] {
        true
    } else if a[0] > b[0] {
        false
    } else {
        lex_lt(a.drop_first(), b.drop_first())
    }
}

pub(crate) proof fn lemma_lex_irreflexive(a: Seq<u8>)
    ensures
        !lex_lt(a, a),
    decreases a.len(),
{
    if a.len() > 0 {
        lemma_lex_irreflexive(a.drop_first());
    }
}

proof fn lemma_lex_transitive(a: Seq<u8>, b: Seq<u8>, c: Seq<u8>)
    requires
        lex_lt(a, b),
        lex_lt(b, c),
    ensures
        lex_lt(a, c),
    decreases a.len(),
{
    if a.len() > 0 && b.len() > 0 && c.len() > 0 && a[0] == b[0] && b[0] == c[0] {
        lemma_lex_transitive(a.drop_first(), b.drop_first(), c.drop_first());
    }
}

proof fn lemma_lex_total(a: Seq<u8>, b: Seq<u8>)
    ensures
        a == b || lex_lt(a, b) || lex_lt(b, a),
    decreases a.len(),
{
    if a.len() > 0 && b.len() > 0 && a[0] == b[0] {
        lemma_lex_total(a.drop_first(), b.drop_first());
        if a.drop_first() == b.drop_first() {
            assert(a =~= seq![a[0]] + a.drop_first());
            assert(b =~= seq![b[0]] + b.drop_first());
        }
    } else if a.len() == 0 && b.len() == 0 {
        assert(a =~= b);
    }
}

/// Whether `a` orders before `b`.
fn key_lt(a: &[u8], b: &[u8]) -> (r: bool)
    ensures
        r == lex_lt(a@, b@),
{
    let mut i: usize = 0;
    assert(a@.skip(0) =~= a@);
    assert(b@.skip(0) =~= b@);
    while i < a.len() && i < b.len()
        invariant
            i <= a@.len(),
            i <= b@.len(),
            lex_lt(a@, b@) == lex_lt(a@.skip(i as int), b@.skip(i as int)),
        decreases a@.len() - i,
    {
        if a[i] < b[i] {
            return true;
        }
        if a[i] > b[i] {
            return false;
        }
        assert(a@.skip(i as int).drop_first() =~= a@.skip(i + 1));
        assert(b@.skip(i as int).drop_first() =~= b@.skip(i + 1));
        i = i + 1;
    }
    i == a.len() && i < b.len()
}

/// Whether two keys are equal.
pub(crate) fn key_eq(a: &[u8], b: &[u8]) -> (r: bool)
    ensures
        r == (a@ == b@),
{
    if a.len() != b.len() {
        return false;
    }
    let mut i: usize = 0;
    while i < a.len()
        invariant
            i <= a@.len(),
            a@.len() == b@.len(),
            a@.take(i as int) == b@.take(i as int),
        decreases a@.len() - i,
    {
        if a[i] != b[i] {
            return false;
        }
        assert(a@.take(i + 1) =~= a@.take(i as int).push(a@[i as int]));
        assert(b@.take(i + 1) =~= b@.take(i as int).push(b@[i as int]));
        i = i + 1;
    }
    assert(a@ =~= a@.take(i as int));
    assert(b@ =~= b@.take(i as int));
    true
}

// ---------------------------------------------------------------------
// The store.

/// Keys in strictly increasing order.
pub open spec fn sorted_keys(s: Seq<(Seq<u8>, Seq<u8>)>) -> bool {
    forall|i: int, j: int| 0 <= i < j < s.len() ==> lex_lt(#[trigger] s[i].0, #[trigger] s[j].0)
}

pub open spec fn has_key(s: Seq<(Seq<u8>, Seq<u8>)>, k: Seq<u8>) -> bool {
    exists|i: int| 0 <= i < s.len() && #[trigger] s[i].0 == k
}

pub open spec fn key_index(s: Seq<(Seq<u8>, Seq<u8>)>, k: Seq<u8>) -> int {
    choose|i: int| 0 <= i < s.len() && #[trigger] s[i].0 == k
}

/// The map a list of key-value pairs stands for.
pub open spec fn pairs_map(s: Seq<(Seq<u8>, Seq<u8>)>) -> Map<Seq<u8>, Seq<u8>> {
    Map::new(|k: Seq<u8>| has_key(s, k), |k: Seq<u8>| s[key_index(s, k)].1)
}

/// What applying a command's bytes does to a map: Put inserts, Delete
/// removes, anything else changes nothing.
pub open spec fn apply_command(m: Map<Seq<u8>, Seq<u8>>, command: Seq<u8>) -> Map<Seq<u8>, Seq<u8>> {
    match parse_command(command) {
        Some(CommandView::Put { key, value }) => m.insert(key, value),
        Some(CommandView::Delete { key }) => m.remove(key),
        None => m,
    }
}

/// The map after applying the commands of `entries` in order.
pub open spec fn apply_all(m: Map<Seq<u8>, Seq<u8>>, entries: Seq<crate::message::EntryView>) -> Map<
    Seq<u8>,
    Seq<u8>,
>
    decreases entries.len(),
{
    if entries.len() == 0 {
        m
    } else {
        apply_command(apply_all(m, entries.drop_last()), entries.last().command)
    }
}

proof fn lemma_sorted_unique(s: Seq<(Seq<u8>, Seq<u8>)>, i: int, j: int)
    requires
        sorted_keys(s),
        0 <= i < s.len(),
        0 <= j < s.len(),
        s[i].0 == s[j].0,
    ensures
        i == j,
{
    if i < j {
        lemma_lex_irreflexive(s[i].0);
    } else if j < i {
        lemma_lex_irreflexive(s[i].0);
    }
}

proof fn lemma_lookup(s: Seq<(Seq<u8>, Seq<u8>)>, i: int)
    requires
        sorted_keys(s),
        0 <= i < s.len(),
    ensures
        pairs_map(s).contains_key(s[i].0),
        pairs_map(s)[s[i].0] == s[i].1,
{
    let k = s[i].0;
    assert(has_key(s, k));
    let j = key_index(s, k);
    lemma_sorted_unique(s, i, j);
}

/// Where `k` goes in `s`: after every smaller key, at or before the rest.
pub open spec fn is_position(s: Seq<(Seq<u8>, Seq<u8>)>, k: Seq<u8>, i: int) -> bool {
    &&& 0 <= i <= s.len()
    &&& forall|j: int| 0 <= j < i ==> lex_lt(#[trigger] s[j].0, k)
    &&& i < s.len() ==> !lex_lt(s[i].0, k)
}

/// Everything at or after a position holding a larger key is larger.
proof fn lemma_after_position(s: Seq<(Seq<u8>, Seq<u8>)>, k: Seq<u8>, i: int)
    requires
        sorted_keys(s),
        is_position(s, k, i),
        i < s.len() ==> s[i].0 != k,
    ensures
        forall|j: int| i <= j < s.len() ==> lex_lt(k, #[trigger] s[j].0),
        !has_key(s, k),
{
    if i < s.len() {
        lemma_lex_total(k, s[i].0);
        assert forall|j: int| i <= j < s.len() implies lex_lt(k, #[trigger] s[j].0) by {
            if j > i {
                lemma_lex_transitive(k, s[i].0, s[j].0);
            }
        }
    }
    if has_key(s, k) {
        let j = choose|j: int| 0 <= j < s.len() && #[trigger] s[j].0 == k;
        lemma_lex_irreflexive(k);
    }
}

proof fn lemma_put_existing(s: Seq<(Seq<u8>, Seq<u8>)>, i: int, k: Seq<u8>, v: Seq<u8>)
    requires
        sorted_keys(s),
        0 <= i < s.len(),
        s[i].0 == k,
    ensures
        sorted_keys(s.update(i, (k, v))),
        pairs_map(s.update(i, (k, v))) == pairs_map(s).insert(k, v),
{
    let t = s.update(i, (k, v));
    assert(sorted_keys(t)) by {
        assert forall|a: int, b: int| 0 <= a < b < t.len() implies lex_lt(#[trigger] t[a].0, #[trigger] t[b].0) by {
            assert(t[a].0 == s[a].0 && t[b].0 == s[b].0);
        }
    }
    let m = pairs_map(s).insert(k, v);
    assert forall|x: Seq<u8>| #[trigger] pairs_map(t).contains_key(x) == m.contains_key(x) by {
        if has_key(t, x) {
            let j = choose|j: int| 0 <= j < t.len() && #[trigger] t[j].0 == x;
            if j != i {
                assert(s[j].0 == x);
            }
        }
        if has_key(s, x) {
            let j = choose|j: int| 0 <= j < s.len() && #[trigger] s[j].0 == x;
            assert(t[j].0 == x);
        }
        if x == k {
            assert(t[i].0 == x);
        }
    }
    assert forall|x: Seq<u8>| #[trigger] pairs_map(t).contains_key(x) implies pairs_map(t)[x] == m[x] by {
        if x == k {
            lemma_lookup(t, i);
        } else {
            let j = choose|j: int| 0 <= j < t.len() && #[trigger] t[j].0 == x;
            assert(j != i);
            lemma_lookup(t, j);
            lemma_lookup(s, j);
        }
    }
    assert(pairs_map(t) =~= m);
}

proof fn lemma_put_new(s: Seq<(Seq<u8>, Seq<u8>)>, i: int, k: Seq<u8>, v: Seq<u8>)
    requires
        sorted_keys(s),
        is_position(s, k, i),
        i < s.len() ==> s[i].0 != k,
    ensures
        sorted_keys(s.insert(i, (k, v))),
        pairs_map(s.insert(i, (k, v))) == pairs_map(s).insert(k, v),
{
    lemma_after_position(s, k, i);
    let t = s.insert(i, (k, v));
    assert(sorted_keys(t)) by {
        assert forall|a: int, b: int| 0 <= a < b < t.len() implies lex_lt(#[trigger] t[a].0, #[trigger] t[b].0) by {
            if b < i {
            } else if b == i {
                assert(lex_lt(s[a].0, k));
            } else if a < i {
                assert(t[b].0 == s[b - 1].0);
                assert(lex_lt(k, s[b - 1].0));
                lemma_lex_transitive(s[a].0, k, s[b - 1].0);
            } else if a == i {
                assert(t[b].0 == s[b - 1].0);
            } else {
                assert(t[a].0 == s[a - 1].0 && t[b].0 == s[b - 1].0);
            }
        }
    }
    let m = pairs_map(s).insert(k, v);
    assert forall|x: Seq<u8>| #[trigger] pairs_map(t).contains_key(x) == m.contains_key(x) by {
        if has_key(t, x) {
            let j = choose|j: int| 0 <= j < t.len() && #[trigger] t[j].0 == x;
            if j < i {
                assert(s[j].0 == x);
            } else if j > i {
                assert(s[j - 1].0 == x);
            }
        }
        if has_key(s, x) {
            let j = choose|j: int| 0 <= j < s.len() && #[trigger] s[j].0 == x;
            if j < i {
                assert(t[j].0 == x);
            } else {
                assert(t[j + 1].0 == x);
            }
        }
        if x == k {
            assert(t[i].0 == x);
        }
    }
    assert forall|x: Seq<u8>| #[trigger] pairs_map(t).contains_key(x) implies pairs_map(t)[x] == m[x] by {
        if x == k {
            lemma_lookup(t, i);
        } else {
            let j = choose|j: int| 0 <= j < s.len() && #[trigger] s[j].0 == x;
            lemma_lookup(s, j);
            if j < i {
                lemma_lookup(t, j);
            } else {
                assert(t[j + 1] == s[j]);
                lemma_lookup(t, j + 1);
            }
        }
    }
    assert(pairs_map(t) =~= m);
}

proof fn lemma_delete_existing(s: Seq<(Seq<u8>, Seq<u8>)>, i: int, k: Seq<u8>)
    requires
        sorted_keys(s),
        0 <= i < s.len(),
        s[i].0 == k,
    ensures
        sorted_keys(s.remove(i)),
        pairs_map(s.remove(i)) == pairs_map(s).remove(k),
{
    let t = s.remove(i);
    assert(sorted_keys(t)) by {
        assert forall|a: int, b: int| 0 <= a < b < t.len() implies lex_lt(#[trigger] t[a].0, #[trigger] t[b].0) by {
            let a0 = if a < i { a } else { a + 1 };
            let b0 = if b < i { b } else { b + 1 };
            assert(t[a] == s[a0] && t[b] == s[b0]);
        }
    }
    let m = pairs_map(s).remove(k);
    assert forall|x: Seq<u8>| #[trigger] pairs_map(t).contains_key(x) == m.contains_key(x) by {
        if has_key(t, x) {
            let j = choose|j: int| 0 <= j < t.len() && #[trigger] t[j].0 == x;
            let j0 = if j < i { j } else { j + 1 };
            assert(s[j0].0 == x);
            if x == k {
                lemma_sorted_unique(s, i, j0);
            }
        }
        if has_key(s, x) && x != k {
            let j = choose|j: int| 0 <= j < s.len() && #[trigger] s[j].0 == x;
            assert(j != i);
            if j < i {
                assert(t[j].0 == x);
            } else {
                assert(t[j - 1].0 == x);
            }
        }
    }
    assert forall|x: Seq<u8>| #[trigger] pairs_map(t).contains_key(x) implies pairs_map(t)[x] == m[x] by {
        let j = choose|j: int| 0 <= j < t.len() && #[trigger] t[j].0 == x;
        let j0 = if j < i { j } else { j + 1 };
        assert(t[j] == s[j0]);
        lemma_lookup(t, j);
        lemma_lookup(s, j0);
    }
    assert(pairs_map(t) =~= m);
}

/// A replicated key-value store.
#[derive(Debug, PartialEq, Eq)]
pub struct Store {
    map: Vec<(Vec<u8>, Vec<u8>)>,
}

pub open spec fn view_pairs(v: Seq<(Vec<u8>, Vec<u8>)>) -> Seq<(Seq<u8>, Seq<u8>)> {
    v.map_values(|p: (Vec<u8>, Vec<u8>)| (p.0@, p.1@))
}

impl Store {
    /// The key-value pairs, in key order.
    pub closed spec fn pairs(&self) -> Seq<(Seq<u8>, Seq<u8>)> {
        view_pairs(self.map@)
    }

    #[verifier::type_invariant]
    spec fn keys_sorted(&self) -> bool {
        sorted_keys(self.pairs())
    }
}

impl Store {
    /// An empty store.
    pub fn new() -> (s: Store)
        ensures
            s@ == Map::<Seq<u8>, Seq<u8>>::empty(),
    {
        let s = Store { map: Vec::new() };
        assert(s.pairs() =~= Seq::<(Seq<u8>, Seq<u8>)>::empty());
        assert(s@ =~= Map::<Seq<u8>, Seq<u8>>::empty());
        s
    }

    /// Where `key` is or would go.
    fn position(&self, key: &[u8]) -> (i: usize)
        ensures
            is_position(self.pairs(), key@, i as int),
    {
        let mut i: usize = 0;
        while i < self.map.len() && key_lt(self.map[i].0.as_slice(), key)
            invariant
                i <= self.map@.len(),
                forall|j: int| 0 <= j < i ==> lex_lt(#[trigger] self.pairs()[j].0, key@),
            decreases self.map@.len() - i,
        {
            i = i + 1;
        }
        i
    }

    fn put(&mut self, key: Vec<u8>, value: Vec<u8>)
        ensures
            final(self)@ == old(self)@.insert(key@, value@),
    {
        proof {
            use_type_invariant(&*self);
        }
        let ghost s = self.pairs();
        let i = self.position(key.as_slice());
        let ghost k = key@;
        let ghost v = value@;
        if i < self.map.len() && key_eq(self.map[i].0.as_slice(), key.as_slice()) {
            proof {
                lemma_put_existing(s, i as int, k, v);
                assert(view_pairs(self.map@.update(i as int, (key, value))) =~= s.update(i as int, (k, v)));
            }
            let mut map: Vec<(Vec<u8>, Vec<u8>)> = Vec::new();
            std::mem::swap(&mut map, &mut self.map);
            map.set(i, (key, value));
            self.map = map;
        } else {
            proof {
                lemma_put_new(s, i as int, k, v);
                assert(view_pairs(self.map@.insert(i as int, (key, value))) =~= s.insert(i as int, (k, v)));
            }
            let mut map: Vec<(Vec<u8>, Vec<u8>)> = Vec::new();
            std::mem::swap(&mut map, &mut self.map);
            map.insert(i, (key, value));
            self.map = map;
        }
    }

    fn delete(&mut self, key: &[u8])
        ensures
            final(self)@ == old(self)@.remove(key@),
    {
        proof {
            use_type_invariant(&*self);
        }
        let ghost s = self.pairs();
        let i = self.position(key);
        if i < self.map.len() && key_eq(self.map[i].0.as_slice(), key) {
            proof {
                lemma_delete_existing(s, i as int, key@);
                assert(view_pairs(self.map@.remove(i as int)) =~= s.remove(i as int));
            }
            let mut map: Vec<(Vec<u8>, Vec<u8>)> = Vec::new();
            std::mem::swap(&mut map, &mut self.map);
            map.remove(i);
            self.map = map;
        } else {
            proof {
                lemma_after_position(s, key@, i as int);
                assert(pairs_map(s).remove(key@) =~= pairs_map(s));
            }
        }
    }

    /// Applies a committed entry: Put inserts, Delete removes, an empty or
    /// malformed command is ignored.
    pub fn apply(&mut self, entry: &Entry)
        ensures
            final(self)@ == apply_command(old(self)@, entry.command@),
    {
        match Command::decode(entry.command.as_slice()) {
            Some(Command::Put { key, value }) => {
                self.put(key, value);
            },
            Some(Command::Delete { key }) => {
                self.delete(key.as_slice());
            },
            None => {},
        }
    }

    /// The value stored under `key`.
    pub fn get(&self, key: &[u8]) -> (v: Option<&[u8]>)
        ensures
            match v {
                Some(v) => self@.contains_key(key@) && v@ == self@[key@],
                None => !self@.contains_key(key@),
            },
    {
        proof {
            use_type_invariant(self);
        }
        let i = self.position(key);
        if i < self.map.len() && key_eq(self.map[i].0.as_slice(), key) {
            proof {
                lemma_lookup(self.pairs(), i as int);
            }
            Some(self.map[i].1.as_slice())
        } else {
            proof {
                lemma_after_position(self.pairs(), key@, i as int);
            }
            None
        }
    }

    /// How many keys are stored.
    pub fn len(&self) -> (n: usize)
        ensures
            n == self@.len(),
    {
        proof {
            use_type_invariant(self);
            lemma_map_len(self.pairs());
        }
        self.map.len()
    }

    pub fn is_empty(&self) -> (b: bool)
        ensures
            b == (self@.len() == 0),
    {
        self.len() == 0
    }

    /// The key-value pairs, in increasing key order.
    pub fn iter(&self) -> (out: Vec<(&[u8], &[u8])>)
        ensures
            out@.map_values(|p: (&[u8], &[u8])| (p.0@, p.1@)) == self.pairs(),
            sorted_keys(self.pairs()),
            pairs_map(self.pairs()) == self@,
    {
        proof {
            use_type_invariant(self);
        }
        let mut out: Vec<(&[u8], &[u8])> = Vec::new();
        let mut i: usize = 0;
        while i < self.map.len()
            invariant
                i <= self.map@.len(),
                out@.map_values(|p: (&[u8], &[u8])| (p.0@, p.1@)) == self.pairs().take(i as int),
            decreases self.map@.len() - i,
        {
            let ghost before = out@;
            let k = self.map[i].0.as_slice();
            let v = self.map[i].1.as_slice();
            assert(k@ == self.pairs()[i as int].0 && v@ == self.pairs()[i as int].1);
            out.push((k, v));
            assert(out@.map_values(|p: (&[u8], &[u8])| (p.0@, p.1@)) =~= before.map_values(
                |p: (&[u8], &[u8])| (p.0@, p.1@),
            ).push((k@, v@)));
            i = i + 1;
            assert(self.pairs().take(i as int) =~= self.pairs().take(i - 1).push(self.pairs()[i - 1]));
        }
        assert(self.pairs().take(i as int) =~= self.pairs());
        out
    }
}

impl Default for Store {
    fn default() -> (s: Store)
        ensures
            s@ == Map::<Seq<u8>, Seq<u8>>::empty(),
    {
        Store::new()
    }
}

impl Clone for Store {
    /// A copy holding the same pairs.
    fn clone(&self) -> (s: Store)
        ensures
            s@ == self@,
    {
        proof {
            use_type_invariant(self);
        }
        let mut map: Vec<(Vec<u8>, Vec<u8>)> = Vec::new();
        let mut i: usize = 0;
        while i < self.map.len()
            invariant
                i <= self.map@.len(),
                view_pairs(map@) == view_pairs(self.map@).take(i as int),
                map@.len() == i,
            decreases self.map@.len() - i,
        {
            let k = vstd::slice::slice_to_vec(self.map[i].0.as_slice());
            let v = vstd::slice::slice_to_vec(self.map[i].1.as_slice());
            let ghost before = map@;
            map.push((k, v));
            assert forall|q: int| 0 <= q < i implies view_pairs(map@)[q] == view_pairs(
                self.map@,
            )[q] by {
                assert(view_pairs(before)[q] == view_pairs(self.map@).take(i as int)[q]);
            }
            assert(view_pairs(map@) =~= view_pairs(self.map@).take(i + 1));
            i = i + 1;
        }
        assert(view_pairs(self.map@).take(i as int) =~= view_pairs(self.map@));
        Store { map }
    }
}

/// The state after applying `entries` in order to an empty store.
pub fn replay(entries: &[Entry]) -> (s: Store)
    ensures
        s@ == apply_all(Map::empty(), crate::message::view_entries(entries@)),
{
    let mut s = Store::new();
    let mut i: usize = 0;
    while i < entries.len()
        invariant
            i <= entries@.len(),
            s@ == apply_all(Map::empty(), crate::message::view_entries(entries@.take(i as int))),
        decreases entries@.len() - i,
    {
        s.apply(&entries[i]);
        i = i + 1;
        assert(crate::message::view_entries(entries@.take(i as int)).drop_last()
            =~= crate::message::view_entries(entries@.take(i - 1)));
    }
    assert(entries@.take(i as int) =~= entries@);
    s
}

/// Replaying a log in two parts gives what replaying it whole gives: the
/// state after a prefix, with the rest applied on top, is the state after
/// the whole log. So a node that applies committed entries in batches, or
/// restarts and replays, ends with the same map.
pub proof fn law_replay_composes(
    m: Map<Seq<u8>, Seq<u8>>,
    a: Seq<crate::message::EntryView>,
    b: Seq<crate::message::EntryView>,
)
    ensures
        apply_all(m, a + b) == apply_all(apply_all(m, a), b),
    decreases b.len(),
{
    if b.len() == 0 {
        assert(a + b =~= a);
    } else {
        law_replay_composes(m, a, b.drop_last());
        assert((a + b).drop_last() =~= a + b.drop_last());
    }
}

/// An empty or malformed command (the leadership no-op is empty) leaves
/// the map as it is.
pub proof fn law_malformed_commands_ignored(m: Map<Seq<u8>, Seq<u8>>, command: Seq<u8>)
    requires
        parse_command(command) is None,
    ensures
        apply_command(m, command) == m,
{
}

/// The empty command decodes to nothing.
pub proof fn law_empty_command_is_malformed()
    ensures
        parse_command(Seq::empty()) is None,
{
}

/// The number of keys of a sorted pair list is its length.
proof fn lemma_map_len(s: Seq<(Seq<u8>, Seq<u8>)>)
    requires
        sorted_keys(s),
    ensures
        pairs_map(s).len() == s.len(),
        pairs_map(s).dom().finite(),
    decreases s.len(),
{
    if s.len() == 0 {
        assert(pairs_map(s).dom() =~= Set::<Seq<u8>>::empty());
    } else {
        let t = s.drop_last();
        assert(sorted_keys(t)) by {
            assert forall|a: int, b: int| 0 <= a < b < t.len() implies lex_lt(#[trigger] t[a].0, #[trigger] t[b].0) by {
                assert(t[a] == s[a] && t[b] == s[b]);
            }
        }
        lemma_map_len(t);
        let k = s.last().0;
        assert(!has_key(t, k)) by {
            if has_key(t, k) {
                let j = choose|j: int| 0 <= j < t.len() && #[trigger] t[j].0 == k;
                assert(s[j].0 == k);
                lemma_sorted_unique(s, j, s.len() - 1);
            }
        }
        assert(pairs_map(s).dom() =~= pairs_map(t).dom().insert(k)) by {
            assert forall|x: Seq<u8>| #[trigger] pairs_map(s).dom().contains(x) == pairs_map(t).dom().insert(k).contains(x) by {
                if has_key(s, x) {
                    let j = choose|j: int| 0 <= j < s.len() && #[trigger] s[j].0 == x;
                    if j < s.len() - 1 {
                        assert(t[j].0 == x);
                    }
                }
                if has_key(t, x) {
                    let j = choose|j: int| 0 <= j < t.len() && #[trigger] t[j].0 == x;
                    assert(s[j].0 == x);
                }
                if x == k {
                    assert(s[s.len() - 1].0 == x);
                }
            }
        }
    }
}

impl View for Store {
    type V = Map<Seq<u8>, Seq<u8>>;

    open spec fn view(&self) -> Map<Seq<u8>, Seq<u8>> {
        pairs_map(self.pairs())
    }
}

} // verus!
