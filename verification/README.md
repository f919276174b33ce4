# AnvilDB

A replicated key/value database. A cluster of members keeps one log under an
elected leader; clients write, read and send SQL statements to the members, in
the process or over a byte wire.

The library under `src/` is verified with Verus. Every function states in its
contract what it returns or changes, over mathematical models of the data; what
holds of several functions together is stated and proved as public proof
functions.

## Layout

| Module | What it holds |
| --- | --- |
| `types`, `text`, `bytes`, `ordered` | commands, log entries and errors; text and little-endian helpers; the ordered map |
| `memlog`, `state_machine` | the log in memory and the key/value state |
| `wal_codec`, `snapshot_codec`, `wal` | the record formats, and the write-ahead log with the files beside it |
| `raft_node`, `raft_node_laws` | one member: terms, votes, log, commits, snapshots |
| `raft_model`, `raft_cluster`, `raft_build` | the cluster: replication, elections, time, and how it is put together |
| `raft_laws`, `raft_safety`, `raft_health` | what each call keeps and does |
| `raft_history`, `raft_soundness`, `raft_steps`, `raft_guarantees` | what holds in every state that calls lead to: logs match, what is committed is held by a quorum and stays |
| `raft_progress`, `raft_visibility` | what a leader achieves: followers catch up, a majority commits, and every leader to come has committed what was acknowledged |
| `raft_durability`, `raft_persistence`, `raft_restart` | what is on disk, and what a restart gives back |
| `raft_runs` | what holds after any calls and restarts, in any order |
| `sql_ast`, `sql_lexer`, `sql_parser`, `sql_plan`, `sql_laws` | the SQL subset |
| `mvcc` | versions of values over time |
| `api_types`, `api_model`, `api_service` | requests, responses and the client interface |
| `api_laws`, `api_versions`, `api_order`, `api_visibility`, `api_health` | what holds of requests: what reads return, what writes leave behind |
| `wire_fields`, `wire_codec`, `wire_laws`, `transport` | the wire format and the transports |

A `Wal` is the image of a member's files. The library reads and changes images;
`app/disk.rs` moves them to and from a directory. `app/main.rs` is a small
program that writes, reads and selects a value.
