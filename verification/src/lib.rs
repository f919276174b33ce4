//! A replicated key/value database: a log kept by a cluster of members under an
//! elected leader, a versioned view of its state, and a client interface with a
//! small SQL.
#![allow(unused_imports)]

pub mod api_calls;
pub mod api_health;
pub mod api_laws;
pub mod api_model;
pub mod api_order;
pub mod api_service;
pub mod api_sql;
pub mod api_types;
pub mod api_versions;
pub mod api_visibility;
pub mod bytes;
pub mod file_layout;
pub mod memlog;
pub mod mvcc;
pub mod ordered;
pub mod raft_build;
pub mod raft_calls;
pub mod raft_clock;
pub mod raft_cluster;
pub mod raft_durability;
pub mod raft_files;
pub mod raft_guarantees;
pub mod raft_health;
pub mod raft_history;
pub mod raft_laws;
pub mod raft_member;
pub mod raft_model;
pub mod raft_node;
pub mod raft_node_laws;
pub mod raft_persistence;
pub mod raft_progress;
pub mod raft_restart;
pub mod raft_runs;
pub mod raft_safety;
pub mod raft_soundness;
pub mod raft_steps;
pub mod raft_visibility;
pub mod raft_votes;
pub mod snapshot_codec;
pub mod sql_ast;
pub mod sql_grammar;
pub mod sql_laws;
pub mod sql_lexer;
pub mod sql_parser;
pub mod sql_plan;
pub mod sql_refusals;
pub mod sql_spelling;
pub mod state_machine;
pub mod text;
pub mod transport;
pub mod types;
pub mod wal;
pub mod wal_codec;
pub mod wire_codec;
pub mod wire_fields;
pub mod wire_laws;
pub mod wire_layout;
