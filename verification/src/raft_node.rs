//! One member of a replicated cluster: its log, its state, its term and vote,
//! and how it answers appends, snapshots and vote requests.
use vstd::prelude::*;

use crate::memlog;
use crate::memlog::{MemLog, MemLogV};
use crate::ordered::OrderedMap;
use crate::snapshot_codec::{SnapshotData, SnapshotDataV};
use crate::state_machine;
use crate::state_machine::{InMemoryStateMachine, KvMap};
use crate::types;
use crate::types::{
    Command, CommandV, DbError, DbErrorV, DbResult, Index, LogEntry, LogEntryV, NodeId, Term,
};
use crate::wal;
use crate::wal::{apply_entry, recover_node_from_wal, Wal, WalV};

verus! {

pub const DEFAULT_HEARTBEAT_INTERVAL_TICKS: u64 = 2;

pub const DEFAULT_ELECTION_TIMEOUT_BASE_TICKS: u64 = 6;

pub const DEFAULT_ELECTION_TIMEOUT_SPREAD_TICKS: u64 = 5;

pub const MAX_ELECTION_BACKOFF_EXPONENT: u32 = 4;

pub const MIN_ELECTION_TIMEOUT_TICKS: u64 = 6;

/// The ticks by which node and term spread the election timeouts, computed in
/// the integers modulo two to the sixty-fourth.
pub open spec fn election_jitter(id: NodeId, term: Term) -> int {
    let wrap = 0x1_0000_0000_0000_0000int;
    (((id * 37) % wrap + (term * 17) % wrap) % wrap) % 5
}

/// Two to the number of lost rounds, which count up to the fourth.
pub open spec fn backoff_multiplier(rounds: u32) -> int {
    if rounds == 0 {
        1
    } else if rounds == 1 {
        2
    } else if rounds == 2 {
        4
    } else if rounds == 3 {
        8
    } else {
        16
    }
}

/// The ticks without a leader after which a node stands for election.
pub open spec fn election_timeout(id: NodeId, term: Term, rounds: u32) -> u64 {
    (DEFAULT_ELECTION_TIMEOUT_BASE_TICKS * backoff_multiplier(rounds) + election_jitter(
        id,
        term,
    )) as u64
}

pub fn election_jitter_for(node_id: NodeId, term: Term) -> (r: u64)
    ensures
        r == election_jitter(node_id, term),
        r < DEFAULT_ELECTION_TIMEOUT_SPREAD_TICKS,
{
    let wrap: u128 = 0x1_0000_0000_0000_0000;
    let a: u128 = (node_id as u128 * 37) % wrap;
    let b: u128 = (term as u128 * 17) % wrap;
    (((a + b) % wrap) % 5) as u64
}

pub fn election_timeout_for(node_id: NodeId, term: Term, backoff_rounds: u32) -> (r: u64)
    ensures
        r == election_timeout(node_id, term, backoff_rounds),
        r == DEFAULT_ELECTION_TIMEOUT_BASE_TICKS * backoff_multiplier(backoff_rounds)
            + election_jitter(node_id, term),
{
    let multiplier: u64 = if backoff_rounds == 0 {
        1
    } else if backoff_rounds == 1 {
        2
    } else if backoff_rounds == 2 {
        4
    } else if backoff_rounds == 3 {
        8
    } else {
        16
    };
    DEFAULT_ELECTION_TIMEOUT_BASE_TICKS * multiplier + election_jitter_for(node_id, term)
}

/// What a node takes itself for.
#[derive(Debug, Clone, Copy, PartialEq, Eq, Structural)]
pub enum Role {
    Leader,
    Follower,
    Candidate,
}

/// A candidate's request for a vote.
#[derive(Debug, Clone, Copy)]
pub struct RequestVote {
    pub term: Term,
    pub candidate_id: NodeId,
    pub last_log_index: Index,
    pub last_log_term: Term,
}

/// The answer to a [`RequestVote`].
#[derive(Debug, Clone, Copy, PartialEq, Eq, Structural)]
pub struct VoteResponse {
    pub term: Term,
    pub vote_granted: bool,
}

/// A member of the cluster.
#[derive(Debug)]
pub struct RaftNode {
    pub id: NodeId,
    pub role: Role,
    pub current_term: Term,
    pub voted_for: Option<NodeId>,
    pub commit_index: Index,
    pub last_applied: Index,
    pub election_elapsed: u64,
    pub election_timeout_ticks: u64,
    pub heartbeat_elapsed: u64,
    pub election_backoff_rounds: u32,
    pub log: MemLog,
    pub state_machine: InMemoryStateMachine,
    pub snapshot: Option<SnapshotData>,
    pub wal: Option<Wal>,
}

/// A [`RaftNode`] over the views of its parts.
#[verifier::ext_equal]
pub struct NodeV {
    pub id: NodeId,
    pub role: Role,
    pub current_term: Term,
    pub voted_for: Option<NodeId>,
    pub commit_index: Index,
    pub last_applied: Index,
    pub election_elapsed: u64,
    pub election_timeout_ticks: u64,
    pub heartbeat_elapsed: u64,
    pub election_backoff_rounds: u32,
    pub log: MemLogV,
    pub state: KvMap,
    pub snapshot: Option<SnapshotDataV>,
    pub wal: Option<WalV>,
}

pub open spec fn snapshot_view(snapshot: Option<SnapshotData>) -> Option<SnapshotDataV> {
    match snapshot {
        Some(data) => Some(data@),
        None => None,
    }
}

pub open spec fn wal_view(wal: Option<Wal>) -> Option<WalV> {
    match wal {
        Some(image) => Some(image@),
        None => None,
    }
}

impl View for RaftNode {
    type V = NodeV;

    open spec fn view(&self) -> NodeV {
        NodeV {
            id: self.id,
            role: self.role,
            current_term: self.current_term,
            voted_for: self.voted_for,
            commit_index: self.commit_index,
            last_applied: self.last_applied,
            election_elapsed: self.election_elapsed,
            election_timeout_ticks: self.election_timeout_ticks,
            heartbeat_elapsed: self.heartbeat_elapsed,
            election_backoff_rounds: self.election_backoff_rounds,
            log: self.log@,
            state: self.state_machine@,
            snapshot: snapshot_view(self.snapshot),
            wal: wal_view(self.wal),
        }
    }
}

/// The smaller of two indexes.
pub open spec fn smaller(a: Index, b: Index) -> Index {
    if a <= b {
        a
    } else {
        b
    }
}

/// How far the incoming entries agree with the log, and whether the next one
/// contradicts it.
pub open spec fn first_new_entry(log: MemLogV, entries: Seq<LogEntryV>, k: int) -> (int, bool)
    decreases entries.len() - k,
{
    if k >= entries.len() {
        (entries.len() as int, false)
    } else {
        match log.get(entries[k].index) {
            Some(existing) => if existing.term != entries[k].term {
                (k, true)
            } else {
                first_new_entry(log, entries, k + 1)
            },
            None => (k, false),
        }
    }
}

impl NodeV {
    /// What holds of every node: its log counts up by one, what it has
    /// committed it has applied, and its log starts where its snapshot ends.
    pub open spec fn wf(self) -> bool {
        &&& self.log.wf()
        &&& self.last_applied == self.commit_index
        &&& self.log.base_index <= self.commit_index
        &&& match self.snapshot {
            Some(data) => data.last_included_index == self.log.base_index
                && data.last_included_term == self.log.base_term,
            None => self.log.base_index == 0 && self.log.base_term == 0,
        }
    }

    /// A node that starts from the given log, state and commit index.
    pub open spec fn started(
        id: NodeId,
        role: Role,
        term: Term,
        vote: Option<NodeId>,
        wal: Option<WalV>,
        log: MemLogV,
        state: KvMap,
        snapshot: Option<SnapshotDataV>,
        commit: Index,
    ) -> NodeV {
        NodeV {
            id,
            role,
            current_term: term,
            voted_for: vote,
            commit_index: commit,
            last_applied: commit,
            election_elapsed: 0,
            election_timeout_ticks: election_timeout(id, term, 0),
            heartbeat_elapsed: 0,
            election_backoff_rounds: 0,
            log,
            state,
            snapshot,
            wal,
        }
    }

    /// A node that has nothing and keeps nothing.
    pub open spec fn fresh(id: NodeId, role: Role, term: Term) -> NodeV {
        NodeV::started(
            id,
            role,
            term,
            None,
            None,
            MemLogV::empty(),
            KvMap::empty(),
            None,
            0,
        )
    }

    /// The node that the files of a write-ahead log stand for. Its term is the
    /// greatest of the given one, the last entry's and the persisted one; its
    /// vote counts only in the term that it was cast in.
    #[verifier::opaque]
    pub open spec fn restored(id: NodeId, role: Role, term: Term, wal: WalV) -> Result<
        NodeV,
        DbErrorV,
    > {
        match wal::recovered_node(wal) {
            Err(error) => Err(error),
            Ok((log, state, commit)) => match wal.load_snapshot() {
                Err(error) => Err(error),
                Ok(snapshot) => match wal.load_raft_meta() {
                    Err(error) => Err(error),
                    Ok(meta) => {
                        let seen = if log.last_term() > term {
                            log.last_term()
                        } else {
                            term
                        };
                        let recovered = if meta.current_term > seen {
                            meta.current_term
                        } else {
                            seen
                        };
                        let vote = if meta.current_term == recovered {
                            meta.voted_for
                        } else {
                            None
                        };
                        Ok(
                            NodeV::started(
                                id,
                                role,
                                recovered,
                                vote,
                                Some(wal),
                                log,
                                state,
                                snapshot,
                                commit,
                            ),
                        )
                    },
                },
            },
        }
    }

    pub open spec fn persist_meta(self) -> NodeV {
        NodeV {
            wal: match self.wal {
                Some(image) => Some(image.persist_raft_meta(self.current_term, self.voted_for)),
                None => None,
            },
            ..self
        }
    }

    pub open spec fn reset_timeout(self) -> NodeV {
        NodeV {
            election_timeout_ticks: election_timeout(
                self.id,
                self.current_term,
                self.election_backoff_rounds,
            ),
            ..self
        }
    }

    pub open spec fn clear_backoff(self) -> NodeV {
        NodeV { election_backoff_rounds: 0, ..self }.reset_timeout()
    }

    pub open spec fn increase_backoff(self) -> NodeV {
        NodeV {
            election_backoff_rounds: if self.election_backoff_rounds
                >= MAX_ELECTION_BACKOFF_EXPONENT {
                MAX_ELECTION_BACKOFF_EXPONENT
            } else {
                (self.election_backoff_rounds + 1) as u32
            },
            ..self
        }.reset_timeout()
    }

    /// A follower in `term`; a later term than the node's own takes its vote
    /// away and is persisted.
    pub open spec fn become_follower(self, term: Term) -> NodeV {
        if term > self.current_term {
            NodeV {
                current_term: term,
                voted_for: None,
                role: Role::Follower,
                election_elapsed: 0,
                heartbeat_elapsed: 0,
                ..self
            }.clear_backoff().persist_meta()
        } else {
            NodeV {
                role: Role::Follower,
                election_elapsed: 0,
                heartbeat_elapsed: 0,
                ..self
            }.clear_backoff()
        }
    }

    /// A candidate in the next term, with its own vote.
    pub open spec fn become_candidate(self) -> NodeV {
        NodeV {
            current_term: (self.current_term + 1) as u64,
            role: Role::Candidate,
            voted_for: Some(self.id),
            election_elapsed: 0,
            heartbeat_elapsed: 0,
            ..self
        }.reset_timeout().persist_meta()
    }

    pub open spec fn become_leader(self) -> NodeV {
        NodeV {
            role: Role::Leader,
            election_elapsed: 0,
            heartbeat_elapsed: 0,
            ..self
        }.clear_backoff()
    }

    /// One tick of a leader's heartbeat clock, and whether it rang.
    pub open spec fn heartbeat_tick(self, interval: u64) -> (NodeV, bool) {
        if self.role != Role::Leader {
            (self, false)
        } else if self.heartbeat_elapsed + 1 >= interval {
            (NodeV { heartbeat_elapsed: 0, ..self }, true)
        } else {
            (NodeV { heartbeat_elapsed: (self.heartbeat_elapsed + 1) as u64, ..self }, false)
        }
    }

    /// One tick of the election clock of any other node, and whether it rang.
    pub open spec fn election_tick(self) -> (NodeV, bool) {
        if self.role == Role::Leader {
            (self, false)
        } else {
            (
                NodeV { election_elapsed: (self.election_elapsed + 1) as u64, ..self },
                self.election_elapsed + 1 >= self.election_timeout_ticks,
            )
        }
    }

    /// The entries after what is applied, through `index`, are applied in
    /// order; an index already committed changes nothing.
    pub open spec fn commit_to(self, index: Index) -> NodeV {
        if index <= self.commit_index {
            self
        } else {
            NodeV {
                commit_index: index,
                last_applied: index,
                state: state_machine::replayed(
                    self.state,
                    self.log.entries.subrange(
                        self.last_applied - self.log.base_index,
                        index - self.log.base_index,
                    ),
                ),
                wal: match self.wal {
                    Some(image) => Some(image.persist_commit_index(index)),
                    None => None,
                },
                ..self
            }
        }
    }

    /// A new entry at the end of the log, on disk first.
    pub open spec fn append_local(self, command: CommandV, term: Term) -> (
        NodeV,
        Result<LogEntryV, DbErrorV>,
    ) {
        let entry = LogEntryV { term, index: (self.log.last_index() + 1) as u64, command };
        match self.wal {
            None => (NodeV { log: self.log.appended(seq![entry]), ..self }, Ok(entry)),
            Some(image) => match image.append_batch(seq![entry]) {
                (next, Err(error)) => (NodeV { wal: Some(next), ..self }, Err(error)),
                (next, Ok(_)) => (
                    NodeV { wal: Some(next), log: self.log.appended(seq![entry]), ..self },
                    Ok(entry),
                ),
            },
        }
    }

    /// A message from a leader of a later term, or to a candidate, makes a
    /// follower.
    pub open spec fn heed(self, leader_term: Term) -> NodeV {
        if leader_term > self.current_term || self.role == Role::Candidate {
            self.become_follower(leader_term)
        } else {
            self
        }
    }

    /// The log without the entries at `index` and after it, on disk first.
    pub open spec fn cut(self, index: Index) -> (NodeV, Result<(), DbErrorV>) {
        match self.wal {
            None => (NodeV { log: self.log.truncated_from(index), ..self }, Ok(())),
            Some(image) => {
                let before = if index > 0 {
                    (index - 1) as u64
                } else {
                    0
                };
                match image.truncate_to(before) {
                    (next, Err(error)) => (NodeV { wal: Some(next), ..self }, Err(error)),
                    (next, Ok(_)) => (
                        NodeV { wal: Some(next), log: self.log.truncated_from(index), ..self },
                        Ok(()),
                    ),
                }
            },
        }
    }

    /// The log with more entries at its end, on disk first.
    pub open spec fn extend(self, entries: Seq<LogEntryV>) -> (NodeV, Result<(), DbErrorV>) {
        match self.wal {
            None => (NodeV { log: self.log.appended(entries), ..self }, Ok(())),
            Some(image) => match image.append_batch(entries) {
                (next, Err(error)) => (NodeV { wal: Some(next), ..self }, Err(error)),
                (next, Ok(_)) => (
                    NodeV { wal: Some(next), log: self.log.appended(entries), ..self },
                    Ok(()),
                ),
            },
        }
    }

    /// The log after a leader's entries: what they contradict is cut, what is
    /// new is appended.
    pub open spec fn merge(self, entries: Seq<LogEntryV>) -> (NodeV, Result<(), DbErrorV>) {
        let (k, conflict) = first_new_entry(self.log, entries, 0);
        let (kept, cut) = if conflict {
            self.cut(entries[k].index)
        } else {
            (self, Ok(()))
        };
        if cut is Err {
            (kept, cut)
        } else if k < entries.len() {
            kept.extend(entries.skip(k))
        } else {
            (kept, Ok(()))
        }
    }

    /// Whether the entry before a leader's entries stands in the log.
    pub open spec fn agrees(self, prev_index: Index, prev_term: Term) -> bool {
        &&& prev_index <= self.log.last_index()
        &&& prev_index > 0 ==> self.log.term_at(prev_index) == Some(prev_term)
    }

    /// How a node takes a leader's entries: not from a leader of an earlier
    /// term, not where the entry before them is missing or different, and not
    /// into the part of the log that a snapshot has replaced.
    #[verifier::opaque]
    pub open spec fn append_entries(
        self,
        leader_term: Term,
        prev_index: Index,
        prev_term: Term,
        entries: Seq<LogEntryV>,
        leader_commit: Index,
    ) -> (NodeV, Result<bool, DbErrorV>) {
        if leader_term < self.current_term {
            (self, Ok(false))
        } else {
            let node = self.heed(leader_term);
            if !node.agrees(prev_index, prev_term) || (prev_index < node.log.base_index
                && entries.len() > 0) {
                (node, Ok(false))
            } else {
                match node.merge(entries) {
                    (merged, Err(error)) => (merged, Err(error)),
                    (merged, Ok(_)) => (
                        NodeV {
                            election_elapsed: 0,
                            ..merged.commit_to(smaller(leader_commit, merged.log.last_index()))
                        },
                        Ok(true),
                    ),
                }
            }
        }
    }

    /// Whether a candidate's log is at least as far as the node's own.
    pub open spec fn up_to_date(self, request: RequestVote) -> bool {
        ||| request.last_log_term > self.log.last_term()
        ||| (request.last_log_term == self.log.last_term() && request.last_log_index
            >= self.log.last_index())
    }

    /// Whether the node's vote in its term is free for the candidate.
    pub open spec fn can_vote_for(self, candidate: NodeId) -> bool {
        self.voted_for is None || self.voted_for == Some(candidate) || self.id == candidate
    }

    /// How a node votes: not in an earlier term, once per term, and only for a
    /// candidate that is up to date.
    #[verifier::opaque]
    pub open spec fn request_vote(self, request: RequestVote) -> (NodeV, VoteResponse) {
        if request.term < self.current_term {
            (self, VoteResponse { term: self.current_term, vote_granted: false })
        } else {
            let node = if request.term > self.current_term {
                self.become_follower(request.term)
            } else {
                self
            };
            let granted = node.up_to_date(request) && node.can_vote_for(request.candidate_id);
            let response = VoteResponse { term: node.current_term, vote_granted: granted };
            if granted {
                (
                    NodeV {
                        voted_for: Some(request.candidate_id),
                        election_elapsed: 0,
                        ..node
                    }.clear_backoff().persist_meta(),
                    response,
                )
            } else {
                (node, response)
            }
        }
    }

    /// The write-ahead log after a snapshot was put in place of its prefix.
    pub open spec fn store_snapshot(self, data: SnapshotDataV) -> (NodeV, Result<(), DbErrorV>) {
        match self.wal {
            None => (self, Ok(())),
            Some(image) => match image.persist_snapshot(data) {
                (next, Err(error)) => (NodeV { wal: Some(next), ..self }, Err(error)),
                (next, Ok(_)) => match next.truncate_prefix(data.last_included_index) {
                    (last, result) => (NodeV { wal: Some(last), ..self }, result),
                },
            },
        }
    }

    pub open spec fn persist_commit(self, index: Index) -> NodeV {
        NodeV {
            wal: match self.wal {
                Some(image) => Some(image.persist_commit_index(index)),
                None => None,
            },
            ..self
        }
    }

    /// The committed state becomes a snapshot, and the log behind it goes.
    #[verifier::opaque]
    pub open spec fn create_snapshot(self) -> (NodeV, Result<Option<SnapshotDataV>, DbErrorV>) {
        if self.commit_index == 0 {
            (self, Ok(None))
        } else {
            match self.log.term_at(self.commit_index) {
                None => (self, Err(DbErrorV::MissingLogEntry(self.commit_index))),
                Some(term) => {
                    let data = SnapshotDataV {
                        last_included_index: self.commit_index,
                        last_included_term: term,
                        state: self.state,
                    };
                    match self.store_snapshot(data) {
                        (node, Err(error)) => (node, Err(error)),
                        (node, Ok(_)) => (
                            NodeV {
                                log: self.log.compacted(self.commit_index, term),
                                snapshot: Some(data),
                                ..node.persist_commit(self.commit_index)
                            },
                            Ok(Some(data)),
                        ),
                    }
                },
            }
        }
    }

    /// Whether the node's own snapshot reaches as far as the given one.
    pub open spec fn has_snapshot(self, data: SnapshotDataV) -> bool {
        match self.snapshot {
            Some(own) => own.last_included_index >= data.last_included_index,
            None => false,
        }
    }

    /// Whether the log holds another entry where the snapshot ends.
    pub open spec fn contradicts(self, data: SnapshotDataV) -> bool {
        match self.log.term_at(data.last_included_index) {
            Some(term) => term != data.last_included_term,
            None => false,
        }
    }

    /// The node without the entries that a snapshot contradicts: where the log
    /// holds another entry at the snapshot's end, that one and all after it go.
    pub open spec fn yield_to(self, data: SnapshotDataV) -> (NodeV, Result<(), DbErrorV>) {
        if self.contradicts(data) {
            self.cut(data.last_included_index)
        } else {
            (self, Ok(()))
        }
    }

    /// The node with a snapshot in place of its state and of the log behind it.
    pub open spec fn with_snapshot(self, data: SnapshotDataV) -> NodeV {
        let node = NodeV {
            state: data.state,
            log: self.log.compacted(data.last_included_index, data.last_included_term),
            snapshot: Some(data),
            ..self
        };
        if self.commit_index < data.last_included_index {
            NodeV {
                commit_index: data.last_included_index,
                last_applied: data.last_included_index,
                ..node.persist_commit(data.last_included_index)
            }
        } else {
            node
        }
    }

    /// How a node takes a leader's snapshot: not from a leader of an earlier
    /// term, and not where its own reaches as far. Entries behind the snapshot
    /// stay only where the log agrees with it.
    #[verifier::opaque]
    pub open spec fn install_snapshot(
        self,
        leader_term: Term,
        data: SnapshotDataV,
        leader_commit: Index,
    ) -> (NodeV, Result<bool, DbErrorV>) {
        if leader_term < self.current_term {
            (self, Ok(false))
        } else {
            let node = self.heed(leader_term);
            if node.has_snapshot(data) {
                (node, Ok(true))
            } else {
                match node.yield_to(data) {
                    (kept, Err(error)) => (kept, Err(error)),
                    (kept, Ok(_)) => match kept.store_snapshot(data) {
                        (stored, Err(error)) => (stored, Err(error)),
                        (stored, Ok(_)) => {
                            let installed = stored.with_snapshot(data);
                            (
                                NodeV {
                                    election_elapsed: 0,
                                    ..installed.commit_to(
                                        smaller(leader_commit, installed.log.last_index()),
                                    )
                                },
                                Ok(true),
                            )
                        },
                    },
                }
            }
        }
    }
}

/// The larger of two numbers.
fn larger_of(a: u64, b: u64) -> (r: u64)
    ensures
        r == if b > a {
            b
        } else {
            a
        },
{
    if b > a {
        b
    } else {
        a
    }
}

fn smaller_of(a: u64, b: u64) -> (r: u64)
    ensures
        r == smaller(a, b),
{
    if a <= b {
        a
    } else {
        b
    }
}

/// How far the incoming entries agree with the log, and whether the next one
/// contradicts it.
fn first_new_entry_offset(log: &MemLog, entries: &Vec<LogEntry>) -> (r: (usize, bool))
    ensures
        (r.0 as int, r.1) == first_new_entry(log@, types::entry_views(entries@), 0),
        r.0 <= entries@.len(),
        r.1 ==> r.0 < entries@.len(),
{
    let ghost all = types::entry_views(entries@);
    let mut offset: usize = 0;
    while offset < entries.len()
        invariant
            offset <= entries@.len(),
            all == types::entry_views(entries@),
            first_new_entry(log@, all, 0) == first_new_entry(log@, all, offset as int),
        decreases entries@.len() - offset,
    {
        assert(all[offset as int] == entries@[offset as int]@);
        match log.get(entries[offset].index) {
            Some(existing) => {
                if existing.term != entries[offset].term {
                    return (offset, true);
                }
            },
            None => {
                return (offset, false);
            },
        }
        offset += 1;
    }
    (offset, false)
}

/// Where entries that follow a known index begin to be new: right after the
/// end of the log, or at an entry that the log contradicts.
pub proof fn first_new_entry_shape(log: MemLogV, entries: Seq<LogEntryV>, prev: Index, k: int)
    requires
        log.wf(),
        log.base_index <= prev,
        0 <= k <= entries.len(),
        prev + k <= log.last_index(),
        memlog::contiguous(entries, prev + 1),
    ensures
        ({
            let (j, conflict) = first_new_entry(log, entries, k);
            &&& k <= j <= entries.len()
            &&& conflict ==> j < entries.len() && prev + j < log.last_index()
            &&& !conflict && j < entries.len() ==> prev + j == log.last_index()
            &&& prev + j <= log.last_index()
            &&& forall|i: int|
                k <= i < j ==> log.get((#[trigger] entries[i]).index) is Some && log.get(
                    entries[i].index,
                )->0.term == entries[i].term
        }),
    decreases entries.len() - k,
{
    assert(log.last_index() == log.base_index + log.entries.len());
    if k < entries.len() {
        assert(entries[k].index == prev + 1 + k);
        if log.get(entries[k].index) is Some && log.get(entries[k].index)->0.term
            == entries[k].term {
            first_new_entry_shape(log, entries, prev, k + 1);
        }
    }
}

impl RaftNode {
    /// The parts are valid and fit together.
    pub open spec fn wf(&self) -> bool {
        &&& self@.wf()
        &&& self.state_machine.wf()
        &&& self.snapshot matches Some(data) ==> data.wf()
    }

    /// A node that keeps nothing on disk.
    pub fn new(id: NodeId, role: Role, current_term: Term) -> (r: Self)
        ensures
            r.wf(),
            r@ == NodeV::fresh(id, role, current_term),
    {
        let log = MemLog::default();
        let state_machine = InMemoryStateMachine::default();
        Self::new_internal(id, role, current_term, None, None, log, state_machine, None, 0)
    }

    /// A node restored from its files.
    pub fn new_with_wal(id: NodeId, role: Role, current_term: Term, wal: Wal) -> (r: DbResult<Self>)
        ensures
            match NodeV::restored(id, role, current_term, wal@) {
                Ok(node) => r matches Ok(found) && found@ == node && found.wf(),
                Err(error) => r matches Err(e) && e@ == error,
            },
    {
        proof {
            reveal(NodeV::restored);
        }
        let (log, state_machine, commit_index) = match recover_node_from_wal(&wal) {
            Ok(found) => found,
            Err(error) => {
                return Err(error);
            },
        };
        let snapshot = match wal.load_snapshot() {
            Ok(snapshot) => snapshot,
            Err(error) => {
                return Err(error);
            },
        };
        let meta = match wal.load_raft_meta() {
            Ok(meta) => meta,
            Err(error) => {
                return Err(error);
            },
        };
        let recovered_term: u64 = larger_of(
            larger_of(current_term, log.last_term()),
            meta.current_term,
        );
        let recovered_vote = if meta.current_term == recovered_term {
            meta.voted_for
        } else {
            None
        };
        proof {
            reveal(wal::recovered_node);
        }
        Ok(
            Self::new_internal(
                id,
                role,
                recovered_term,
                recovered_vote,
                Some(wal),
                log,
                state_machine,
                snapshot,
                commit_index,
            ),
        )
    }

    fn new_internal(
        id: NodeId,
        role: Role,
        current_term: Term,
        voted_for: Option<NodeId>,
        wal: Option<Wal>,
        log: MemLog,
        state_machine: InMemoryStateMachine,
        snapshot: Option<SnapshotData>,
        commit_index: Index,
    ) -> (r: Self)
        ensures
            r@ == NodeV::started(
                id,
                role,
                current_term,
                voted_for,
                wal_view(wal),
                log@,
                state_machine@,
                snapshot_view(snapshot),
                commit_index,
            ),
            r.state_machine == state_machine,
            r.snapshot == snapshot,
    {
        RaftNode {
            id,
            role,
            current_term,
            voted_for,
            commit_index,
            last_applied: commit_index,
            election_elapsed: 0,
            election_timeout_ticks: election_timeout_for(id, current_term, 0),
            heartbeat_elapsed: 0,
            election_backoff_rounds: 0,
            log,
            state_machine,
            snapshot,
            wal,
        }
    }

    pub fn persist_term_vote_metadata(&mut self)
        ensures
            final(self)@ == old(self)@.persist_meta(),
            old(self).wf() ==> final(self).wf(),
    {
        let (term, vote) = (self.current_term, self.voted_for);
        if let Some(wal) = &mut self.wal {
            let _ = wal.persist_raft_meta(term, vote);
        }
    }

    pub fn reset_timeout_with_current_backoff(&mut self)
        ensures
            final(self)@ == old(self)@.reset_timeout(),
            old(self).wf() ==> final(self).wf(),
    {
        self.election_timeout_ticks = election_timeout_for(
            self.id,
            self.current_term,
            self.election_backoff_rounds,
        );
    }

    pub fn clear_election_backoff(&mut self)
        ensures
            final(self)@ == old(self)@.clear_backoff(),
            old(self).wf() ==> final(self).wf(),
    {
        self.election_backoff_rounds = 0;
        self.reset_timeout_with_current_backoff();
    }

    pub fn increase_election_backoff(&mut self)
        ensures
            final(self)@ == old(self)@.increase_backoff(),
            old(self).wf() ==> final(self).wf(),
    {
        if self.election_backoff_rounds >= MAX_ELECTION_BACKOFF_EXPONENT {
            self.election_backoff_rounds = MAX_ELECTION_BACKOFF_EXPONENT;
        } else {
            self.election_backoff_rounds = self.election_backoff_rounds + 1;
        }
        self.reset_timeout_with_current_backoff();
    }

    pub fn become_follower(&mut self, new_term: Term)
        ensures
            final(self)@ == old(self)@.become_follower(new_term),
            old(self).wf() ==> final(self).wf(),
    {
        let advanced_term = new_term > self.current_term;
        if advanced_term {
            self.current_term = new_term;
            self.voted_for = None;
        }
        self.role = Role::Follower;
        self.election_elapsed = 0;
        self.heartbeat_elapsed = 0;
        self.clear_election_backoff();
        if advanced_term {
            self.persist_term_vote_metadata();
        }
    }

    pub fn become_candidate(&mut self)
        requires
            old(self).current_term < u64::MAX,
        ensures
            final(self)@ == old(self)@.become_candidate(),
            old(self).wf() ==> final(self).wf(),
    {
        self.current_term = self.current_term + 1;
        self.role = Role::Candidate;
        self.voted_for = Some(self.id);
        self.election_elapsed = 0;
        self.heartbeat_elapsed = 0;
        self.reset_timeout_with_current_backoff();
        self.persist_term_vote_metadata();
    }

    pub fn become_leader(&mut self)
        ensures
            final(self)@ == old(self)@.become_leader(),
            old(self).wf() ==> final(self).wf(),
    {
        self.role = Role::Leader;
        self.election_elapsed = 0;
        self.heartbeat_elapsed = 0;
        self.clear_election_backoff();
    }

    /// Advances a leader's heartbeat clock by one tick and says whether a
    /// heartbeat is due.
    pub fn should_send_heartbeat(&mut self, heartbeat_interval_ticks: u64) -> (r: bool)
        requires
            old(self).heartbeat_elapsed < u64::MAX,
        ensures
            (final(self)@, r) == old(self)@.heartbeat_tick(heartbeat_interval_ticks),
            old(self).wf() ==> final(self).wf(),
    {
        if self.role != Role::Leader {
            return false;
        }
        self.heartbeat_elapsed = self.heartbeat_elapsed + 1;
        if self.heartbeat_elapsed >= heartbeat_interval_ticks {
            self.heartbeat_elapsed = 0;
            return true;
        }
        false
    }

    /// Advances the election clock by one tick and says whether the node has
    /// waited long enough for a leader.
    pub fn has_election_timeout(&mut self) -> (r: bool)
        requires
            old(self).election_elapsed < u64::MAX,
        ensures
            (final(self)@, r) == old(self)@.election_tick(),
            old(self).wf() ==> final(self).wf(),
    {
        if self.role == Role::Leader {
            return false;
        }
        self.election_elapsed = self.election_elapsed + 1;
        self.election_elapsed >= self.election_timeout_ticks
    }

    /// Commits and applies everything through `commit_index`.
    pub fn commit_to(&mut self, commit_index: Index)
        requires
            old(self).wf(),
            commit_index <= old(self)@.log.last_index() || commit_index
                <= old(self)@.commit_index,
        ensures
            final(self).wf(),
            final(self)@ == old(self)@.commit_to(commit_index),
    {
        if commit_index <= self.commit_index {
            return;
        }
        let ghost before = self@;
        let ghost base = self@.log.base_index as int;
        if let Some(wal) = &mut self.wal {
            let _ = wal.persist_commit_index(commit_index);
        }
        let ghost image = wal_view(self.wal);
        self.commit_index = commit_index;
        let ghost snapshot = self.snapshot;
        assert(before.log.entries.subrange(
            before.last_applied - base,
            before.last_applied - base,
        ) =~= Seq::empty());
        while self.last_applied < self.commit_index
            invariant
                before.wf(),
                before.log.base_index == base,
                before.commit_index < commit_index <= before.log.last_index(),
                before.last_applied <= self.last_applied <= commit_index,
                self.state_machine.wf(),
                self.snapshot == snapshot,
                self@ == (NodeV {
                    commit_index,
                    last_applied: self.last_applied,
                    wal: image,
                    state: state_machine::replayed(
                        before.state,
                        before.log.entries.subrange(
                            before.last_applied - base,
                            self.last_applied - base,
                        ),
                    ),
                    ..before
                }),
            decreases commit_index - self.last_applied,
        {
            let next: u64 = self.last_applied + 1;
            let ghost done = before.log.entries.subrange(
                before.last_applied - base,
                self.last_applied - base,
            );
            let ghost more = before.log.entries.subrange(before.last_applied - base, next - base);
            assert(more.drop_last() =~= done);
            assert(before.log.last_index() == base + before.log.entries.len());
            assert(self.log@.get(next) == Some(more.last()));
            let _ = apply_entry(&self.log, &mut self.state_machine, next);
            self.last_applied = next;
        }
    }

    /// Appends a new entry for `command`.
    pub fn append_local_entry(&mut self, command: Command, term: Term) -> (r: DbResult<LogEntry>)
        requires
            old(self).wf(),
            old(self)@.log.last_index() < u64::MAX,
        ensures
            final(self).wf(),
            final(self)@ == old(self)@.append_local(command@, term).0,
            types::result_view(r) == old(self)@.append_local(command@, term).1,
    {
        let entry = LogEntry { term, index: self.log.last_index() + 1, command };
        if let Some(wal) = &mut self.wal {
            match wal.append(&entry) {
                Ok(()) => {},
                Err(error) => {
                    return Err(error);
                },
            }
        }
        self.log.append(entry.clone());
        Ok(entry)
    }

    /// Merges a leader's entries into the log: cuts what they contradict and
    /// appends what is new.
    fn merge_entries(&mut self, prev_log_index: Index, entries: &Vec<LogEntry>) -> (r: DbResult<()>)
        requires
            old(self).wf(),
            memlog::contiguous(types::entry_views(entries@), prev_log_index + 1),
            prev_log_index <= old(self)@.log.last_index(),
            old(self)@.log.base_index <= prev_log_index || entries@.len() == 0,
        ensures
            final(self).wf(),
            final(self)@ == old(self)@.merge(types::entry_views(entries@)).0,
            types::result_view(r) == old(self)@.merge(types::entry_views(entries@)).1,
    {
        let ghost node = self@;
        let ghost all = types::entry_views(entries@);
        let count: usize = entries.len();
        let (first_new, conflict) = first_new_entry_offset(&self.log, entries);
        proof {
            if count > 0 {
                first_new_entry_shape(node.log, all, prev_log_index, 0);
            }
        }
        if conflict {
            let cut_index: u64 = entries[first_new].index;
            assert(cut_index == all[first_new as int].index);
            if let Some(wal) = &mut self.wal {
                match wal.truncate_to(cut_index - 1) {
                    Ok(()) => {},
                    Err(error) => {
                        return Err(error);
                    },
                }
            }
            self.log.truncate_from(cut_index);
            assert(self@ == node.cut(cut_index).0);
        }
        let ghost kept = self@;
        if first_new < count {
            let new_entries = memlog::copy_entries(entries, first_new);
            let ghost fresh = all.skip(first_new as int);
            assert(kept.log.last_index() == prev_log_index + first_new);
            assert(memlog::contiguous(fresh, kept.log.last_index() + 1));
            assert(fresh.last().index == prev_log_index + count) by {
                assert(fresh.last() == all[count - 1]);
            }
            if let Some(wal) = &mut self.wal {
                match wal.append_batch(new_entries.as_slice()) {
                    Ok(()) => {},
                    Err(error) => {
                        return Err(error);
                    },
                }
            }
            self.log.append_entries(new_entries);
        }
        Ok(())
    }

    /// Takes what a leader sends: cuts what its entries contradict, appends
    /// what is new, and commits as far as the leader has.
    pub fn append_entries_from_leader(
        &mut self,
        leader_term: Term,
        prev_log_index: Index,
        prev_log_term: Term,
        entries: &Vec<LogEntry>,
        leader_commit: Index,
    ) -> (r: DbResult<bool>)
        requires
            old(self).wf(),
            memlog::contiguous(types::entry_views(entries@), prev_log_index + 1),
        ensures
            final(self).wf(),
            final(self)@ == old(self)@.append_entries(
                leader_term,
                prev_log_index,
                prev_log_term,
                types::entry_views(entries@),
                leader_commit,
            ).0,
            types::result_view(r) == old(self)@.append_entries(
                leader_term,
                prev_log_index,
                prev_log_term,
                types::entry_views(entries@),
                leader_commit,
            ).1,
    {
        proof {
            reveal(NodeV::append_entries);
        }
        if leader_term < self.current_term {
            return Ok(false);
        }
        if leader_term > self.current_term || self.role == Role::Candidate {
            self.become_follower(leader_term);
        }
        if prev_log_index > self.log.last_index() {
            return Ok(false);
        }
        if prev_log_index > 0 && self.log.term_at(prev_log_index) != Some(prev_log_term) {
            return Ok(false);
        }
        let count: usize = entries.len();
        if prev_log_index < self.log.base_index() && count > 0 {
            return Ok(false);
        }
        match self.merge_entries(prev_log_index, entries) {
            Ok(()) => {},
            Err(error) => {
                return Err(error);
            },
        }
        let new_commit: u64 = smaller_of(leader_commit, self.log.last_index());
        self.commit_to(new_commit);
        self.election_elapsed = 0;
        Ok(true)
    }

    /// Answers a candidate.
    pub fn request_vote(&mut self, request: &RequestVote) -> (r: VoteResponse)
        ensures
            (final(self)@, r) == old(self)@.request_vote(*request),
            old(self).wf() ==> final(self).wf(),
    {
        proof {
            reveal(NodeV::request_vote);
        }
        if request.term < self.current_term {
            return VoteResponse { term: self.current_term, vote_granted: false };
        }
        if request.term > self.current_term {
            self.become_follower(request.term);
        }
        let local_last_term: u64 = self.log.last_term();
        let local_last_index: u64 = self.log.last_index();
        let candidate_up_to_date = request.last_log_term > local_last_term || (
        request.last_log_term == local_last_term && request.last_log_index >= local_last_index);
        let can_vote_for_candidate = self.id == request.candidate_id || match self.voted_for {
            None => true,
            Some(id) => id == request.candidate_id,
        };
        let vote_granted = candidate_up_to_date && can_vote_for_candidate;
        if vote_granted {
            self.voted_for = Some(request.candidate_id);
            self.election_elapsed = 0;
            self.clear_election_backoff();
            self.persist_term_vote_metadata();
        }
        VoteResponse { term: self.current_term, vote_granted }
    }

    /// Puts a snapshot in place of the log's prefix, on disk.
    fn store_snapshot(&mut self, data: &SnapshotData) -> (r: DbResult<()>)
        requires
            data.wf(),
        ensures
            final(self)@ == old(self)@.store_snapshot(data@).0,
            types::result_view(r) == old(self)@.store_snapshot(data@).1,
            old(self).wf() ==> final(self).wf(),
            final(self).state_machine == old(self).state_machine,
            final(self).snapshot == old(self).snapshot,
    {
        if let Some(wal) = &mut self.wal {
            match wal.persist_snapshot(data) {
                Ok(()) => {},
                Err(error) => {
                    return Err(error);
                },
            }
            return wal.truncate_prefix(data.last_included_index);
        }
        Ok(())
    }

    /// Turns the committed state into a snapshot and drops the log behind it.
    pub fn create_snapshot(&mut self) -> (r: DbResult<Option<SnapshotData>>)
        requires
            old(self).wf(),
        ensures
            final(self).wf(),
            final(self)@ == old(self)@.create_snapshot().0,
            match old(self)@.create_snapshot().1 {
                Ok(Some(data)) => r matches Ok(Some(found)) && found@ == data && found.wf(),
                Ok(None) => r == Ok::<Option<SnapshotData>, DbError>(None),
                Err(error) => r matches Err(e) && e@ == error,
            },
    {
        proof {
            reveal(NodeV::create_snapshot);
        }
        if self.commit_index == 0 {
            return Ok(None);
        }
        let last_included_index: u64 = self.commit_index;
        let last_included_term: u64 = match self.log.term_at(last_included_index) {
            Some(term) => term,
            None => {
                return Err(DbError::MissingLogEntry(last_included_index));
            },
        };
        let snapshot = SnapshotData {
            last_included_index,
            last_included_term,
            state: self.state_machine.snapshot(),
        };
        match self.store_snapshot(&snapshot) {
            Ok(()) => {},
            Err(error) => {
                return Err(error);
            },
        }
        if let Some(wal) = &mut self.wal {
            let _ = wal.persist_commit_index(last_included_index);
        }
        self.log.install_snapshot(last_included_index, last_included_term);
        self.snapshot = Some(snapshot.clone());
        Ok(Some(snapshot))
    }

    /// Cuts the entries that a snapshot contradicts.
    fn yield_to_snapshot(&mut self, snapshot: &SnapshotData) -> (r: DbResult<()>)
        requires
            old(self).wf(),
        ensures
            final(self).wf(),
            final(self)@ == old(self)@.yield_to(snapshot@).0,
            types::result_view(r) == old(self)@.yield_to(snapshot@).1,
    {
        let index: u64 = snapshot.last_included_index;
        let other = match self.log.term_at(index) {
            Some(term) => term != snapshot.last_included_term,
            None => false,
        };
        if other {
            if let Some(wal) = &mut self.wal {
                match wal.truncate_to(index - 1) {
                    Ok(()) => {},
                    Err(error) => {
                        return Err(error);
                    },
                }
            }
            self.log.truncate_from(index);
        }
        Ok(())
    }

    /// Puts a snapshot in place of the state and of the log behind it.
    fn replace_with(&mut self, snapshot: &SnapshotData)
        requires
            old(self).wf(),
            snapshot.wf(),
            !old(self)@.has_snapshot(snapshot@),
        ensures
            final(self).wf(),
            final(self)@ == old(self)@.with_snapshot(snapshot@),
    {
        let ghost before = self@;
        self.state_machine.replace_with_snapshot(snapshot.state.clone());
        self.log.install_snapshot(snapshot.last_included_index, snapshot.last_included_term);
        self.snapshot = Some(snapshot.clone());
        if self.commit_index < snapshot.last_included_index {
            if let Some(wal) = &mut self.wal {
                let _ = wal.persist_commit_index(snapshot.last_included_index);
            }
            self.commit_index = snapshot.last_included_index;
        }
        self.last_applied = larger_of(self.last_applied, snapshot.last_included_index);
        assert(self@ == before.with_snapshot(snapshot@));
    }

    /// Takes a leader's snapshot in place of the state and the log behind it.
    pub fn install_snapshot_from_leader(
        &mut self,
        leader_term: Term,
        snapshot: &SnapshotData,
        leader_commit: Index,
    ) -> (r: DbResult<bool>)
        requires
            old(self).wf(),
            snapshot.wf(),
        ensures
            final(self).wf(),
            final(self)@ == old(self)@.install_snapshot(
                leader_term,
                snapshot@,
                leader_commit,
            ).0,
            types::result_view(r) == old(self)@.install_snapshot(
                leader_term,
                snapshot@,
                leader_commit,
            ).1,
    {
        proof {
            reveal(NodeV::install_snapshot);
        }
        if leader_term < self.current_term {
            return Ok(false);
        }
        if leader_term > self.current_term || self.role == Role::Candidate {
            self.become_follower(leader_term);
        }
        let reaches = match &self.snapshot {
            Some(own) => own.last_included_index >= snapshot.last_included_index,
            None => false,
        };
        if reaches {
            return Ok(true);
        }
        match self.yield_to_snapshot(snapshot) {
            Ok(()) => {},
            Err(error) => {
                return Err(error);
            },
        }
        match self.store_snapshot(snapshot) {
            Ok(()) => {},
            Err(error) => {
                return Err(error);
            },
        }
        self.replace_with(snapshot);
        let new_commit: u64 = smaller_of(leader_commit, self.log.last_index());
        self.commit_to(new_commit);
        self.election_elapsed = 0;
        Ok(true)
    }

    pub fn last_index(&self) -> (r: Index)
        ensures
            r == self@.log.last_index(),
    {
        self.log.last_index()
    }

    pub fn last_term(&self) -> (r: Term)
        ensures
            r == self@.log.last_term(),
    {
        self.log.last_term()
    }

    pub fn term_at(&self, index: Index) -> (r: Option<Term>)
        ensures
            r == self@.log.term_at(index),
    {
        self.log.term_at(index)
    }

    pub fn entries_from(&self, index: Index) -> (r: Vec<LogEntry>)
        ensures
            types::entry_views(r@) == self@.log.entries_from(index),
    {
        self.log.entries_from(index)
    }

    pub fn id(&self) -> (r: NodeId)
        ensures
            r == self@.id,
    {
        self.id
    }

    pub fn role(&self) -> (r: Role)
        ensures
            r == self@.role,
    {
        self.role
    }

    pub fn current_term(&self) -> (r: Term)
        ensures
            r == self@.current_term,
    {
        self.current_term
    }

    pub fn commit_index(&self) -> (r: Index)
        ensures
            r == self@.commit_index,
    {
        self.commit_index
    }

    pub fn log_len(&self) -> (r: usize)
        ensures
            r == self@.log.entries.len(),
    {
        self.log.len()
    }

    pub fn log_base_index(&self) -> (r: Index)
        ensures
            r == self@.log.base_index,
    {
        self.log.base_index()
    }

    /// The entry at `index`, unless it was compacted or never written.
    pub fn entry(&self, index: Index) -> (r: Option<&LogEntry>)
        ensures
            r is Some <==> self@.log.get(index) is Some,
            r matches Some(entry) ==> Some(entry@) == self@.log.get(index),
    {
        self.log.get(index)
    }

    /// The committed value under `key`.
    pub fn get(&self, key: &str) -> (r: Option<&str>)
        requires
            self.wf(),
        ensures
            r is Some <==> state_machine::lookup(self@.state, key@) is Some,
            r matches Some(value) ==> state_machine::lookup(self@.state, key@) == Some(value@),
    {
        self.state_machine.get(key)
    }

    /// A copy of the committed state.
    pub fn snapshot(&self) -> (r: OrderedMap<String>)
        requires
            self.wf(),
        ensures
            r.wf(),
            r@ == self@.state,
    {
        self.state_machine.snapshot()
    }
}

impl Clone for RaftNode {
    fn clone(&self) -> (r: Self)
        ensures
            r@ == self@,
            self.wf() ==> r.wf(),
    {
        RaftNode {
            id: self.id,
            role: self.role,
            current_term: self.current_term,
            voted_for: self.voted_for,
            commit_index: self.commit_index,
            last_applied: self.last_applied,
            election_elapsed: self.election_elapsed,
            election_timeout_ticks: self.election_timeout_ticks,
            heartbeat_elapsed: self.heartbeat_elapsed,
            election_backoff_rounds: self.election_backoff_rounds,
            log: self.log.clone(),
            state_machine: self.state_machine.clone(),
            snapshot: match &self.snapshot {
                Some(data) => Some(data.clone()),
                None => None,
            },
            wal: match &self.wal {
                Some(image) => Some(image.clone()),
                None => None,
            },
        }
    }
}

} // verus!
