//! The key/value state that committed commands build.
use vstd::prelude::*;

use crate::ordered::OrderedMap;
use crate::types::{Command, CommandV, LogEntryV};

verus! {

/// The contents of a key/value state.
pub type KvMap = Map<Seq<char>, Seq<char>>;

/// A key/value state in memory.
#[derive(Debug)]
pub struct InMemoryStateMachine {
    pub data: OrderedMap<String>,
}

impl View for InMemoryStateMachine {
    type V = KvMap;

    open spec fn view(&self) -> KvMap {
        self.data@
    }
}

/// The state after one command.
pub open spec fn applied(state: KvMap, command: CommandV) -> KvMap {
    match command {
        CommandV::Put { key, value } => state.insert(key, value),
        CommandV::Delete { key } => state.remove(key),
    }
}

/// The key that a command writes.
pub open spec fn key_of(command: CommandV) -> Seq<char> {
    match command {
        CommandV::Put { key, .. } => key,
        CommandV::Delete { key } => key,
    }
}

/// The value under `key`, if there is one.
pub open spec fn lookup(state: KvMap, key: Seq<char>) -> Option<Seq<char>> {
    if state.contains_key(key) {
        Some(state[key])
    } else {
        None
    }
}

/// The state after the commands of the entries, in order.
pub open spec fn replayed(state: KvMap, entries: Seq<LogEntryV>) -> KvMap
    decreases entries.len(),
{
    if entries.len() == 0 {
        state
    } else {
        applied(replayed(state, entries.drop_last()), entries.last().command)
    }
}

/// Replaying one part after the other replays the whole.
pub proof fn replay_in_parts(state: KvMap, a: Seq<LogEntryV>, b: Seq<LogEntryV>)
    ensures
        replayed(state, a + b) == replayed(replayed(state, a), b),
    decreases b.len(),
{
    if b.len() == 0 {
        assert(a + b =~= a);
    } else {
        assert((a + b).drop_last() =~= a + b.drop_last());
        replay_in_parts(state, a, b.drop_last());
    }
}

impl Default for InMemoryStateMachine {
    fn default() -> (r: Self)
        ensures
            r.wf(),
            r@ == KvMap::empty(),
    {
        InMemoryStateMachine { data: OrderedMap::new() }
    }
}

impl Clone for InMemoryStateMachine {
    fn clone(&self) -> (r: Self)
        ensures
            r@ == self@,
            self.wf() ==> r.wf(),
    {
        InMemoryStateMachine { data: self.data.clone() }
    }
}

impl InMemoryStateMachine {
    pub open spec fn wf(&self) -> bool {
        self.data.wf()
    }

    /// Applies a command and returns the value that its key held before.
    pub fn apply(&mut self, command: &Command) -> (r: Option<String>)
        requires
            old(self).wf(),
        ensures
            final(self).wf(),
            final(self)@ == applied(old(self)@, command@),
            r is Some <==> lookup(old(self)@, key_of(command@)) is Some,
            r matches Some(value) ==> lookup(old(self)@, key_of(command@)) == Some(value@),
    {
        match command {
            Command::Put { key, value } => self.data.insert(key.clone(), value.clone()),
            Command::Delete { key } => self.data.remove(key.as_str()),
        }
    }

    /// The value under `key`.
    pub fn get(&self, key: &str) -> (r: Option<&str>)
        requires
            self.wf(),
        ensures
            r is Some <==> lookup(self@, key@) is Some,
            r matches Some(value) ==> lookup(self@, key@) == Some(value@),
    {
        match self.data.get(key) {
            Some(value) => Some(value.as_str()),
            None => None,
        }
    }

    /// A copy of the whole state.
    pub fn snapshot(&self) -> (r: OrderedMap<String>)
        requires
            self.wf(),
        ensures
            r.wf(),
            r@ == self@,
    {
        self.data.clone()
    }

    /// Replaces the whole state.
    pub fn replace_with_snapshot(&mut self, snapshot: OrderedMap<String>)
        requires
            snapshot.wf(),
        ensures
            final(self).wf(),
            final(self)@ == snapshot@,
    {
        self.data = snapshot;
    }
}

/// A put key reads as the value put, a deleted key as absent, and no other key
/// changes.
pub proof fn put_then_read(state: KvMap, key: Seq<char>, value: Seq<char>, other: Seq<char>)
    ensures
        lookup(applied(state, CommandV::Put { key, value }), key) == Some(value),
        lookup(applied(state, CommandV::Delete { key }), key) is None,
        other != key ==> lookup(applied(state, CommandV::Put { key, value }), other) == lookup(
            state,
            other,
        ),
        other != key ==> lookup(applied(state, CommandV::Delete { key }), other) == lookup(
            state,
            other,
        ),
{
}

} // verus!
