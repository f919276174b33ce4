//! Versions of values over time, and what is visible when.
use vstd::prelude::*;

use crate::ordered;
use crate::ordered::OrderedMap;
use crate::text;

verus! {

pub type TxnId = u64;

pub type Timestamp = u64;

/// A value, or its absence, over a span of time.
#[derive(Debug, PartialEq, Eq)]
pub struct VersionedValue {
    pub begin_ts: Timestamp,
    pub end_ts: Option<Timestamp>,
    pub value: Option<String>,
    pub writer_txn: TxnId,
}

/// A [`VersionedValue`] over the characters of its value.
pub struct VersionV {
    pub begin_ts: Timestamp,
    pub end_ts: Option<Timestamp>,
    pub value: Option<Seq<char>>,
    pub writer_txn: TxnId,
}

/// The view of a text that may be absent.
pub open spec fn text_view(value: Option<String>) -> Option<Seq<char>> {
    match value {
        Some(v) => Some(v@),
        None => None,
    }
}

impl View for VersionedValue {
    type V = VersionV;

    open spec fn view(&self) -> VersionV {
        VersionV {
            begin_ts: self.begin_ts,
            end_ts: self.end_ts,
            value: text_view(self.value),
            writer_txn: self.writer_txn,
        }
    }
}

impl Clone for VersionedValue {
    fn clone(&self) -> (r: Self)
        ensures
            r == *self,
    {
        VersionedValue {
            begin_ts: self.begin_ts,
            end_ts: self.end_ts,
            value: match &self.value {
                Some(v) => Some(v.clone()),
                None => None,
            },
            writer_txn: self.writer_txn,
        }
    }
}

impl VersionV {
    /// The time lies in the span: not before its begin, and before its end.
    pub open spec fn visible_at(self, ts: Timestamp) -> bool {
        &&& self.begin_ts <= ts
        &&& match self.end_ts {
            Some(end) => ts < end,
            None => true,
        }
    }
}

/// The versions of one key, oldest first.
#[derive(Debug, PartialEq, Eq)]
pub struct VersionChain {
    pub versions: Vec<VersionedValue>,
}

impl View for VersionChain {
    type V = Seq<VersionV>;

    open spec fn view(&self) -> Seq<VersionV> {
        Seq::new(self.versions@.len(), |i: int| self.versions@[i]@)
    }
}

/// The latest version that is visible at a time.
pub open spec fn latest(versions: Seq<VersionV>, ts: Timestamp) -> Option<VersionV>
    decreases versions.len(),
{
    if versions.len() == 0 {
        None
    } else if versions.last().visible_at(ts) {
        Some(versions.last())
    } else {
        latest(versions.drop_last(), ts)
    }
}

/// The versions with the last one ended where it was open.
pub open spec fn ended(versions: Seq<VersionV>, ts: Timestamp) -> Seq<VersionV> {
    if versions.len() > 0 && versions.last().end_ts is None {
        versions.update(versions.len() - 1, VersionV { end_ts: Some(ts), ..versions.last() })
    } else {
        versions
    }
}

/// The versions after one more was committed.
pub open spec fn with_version(
    versions: Seq<VersionV>,
    txn: TxnId,
    ts: Timestamp,
    value: Option<Seq<char>>,
) -> Seq<VersionV> {
    ended(versions, ts).push(
        VersionV { begin_ts: ts, end_ts: None, value, writer_txn: txn },
    )
}

impl Default for VersionChain {
    fn default() -> (r: Self)
        ensures
            r@ == Seq::<VersionV>::empty(),
    {
        let r = VersionChain { versions: Vec::new() };
        assert(r@ =~= Seq::<VersionV>::empty());
        r
    }
}

impl Clone for VersionChain {
    fn clone(&self) -> (r: Self)
        ensures
            r@ == self@,
    {
        let mut versions: Vec<VersionedValue> = Vec::new();
        let mut i: usize = 0;
        while i < self.versions.len()
            invariant
                i <= self.versions@.len(),
                versions@.len() == i,
                forall|k: int| 0 <= k < i ==> #[trigger] versions@[k] == self.versions@[k],
            decreases self.versions@.len() - i,
        {
            versions.push(self.versions[i].clone());
            i += 1;
        }
        let r = VersionChain { versions };
        assert(r@ =~= self@);
        r
    }
}

impl VersionChain {
    pub fn versions(&self) -> (r: &[VersionedValue])
        ensures
            r@ == self.versions@,
    {
        self.versions.as_slice()
    }

    /// The latest version that is visible at `read_ts`.
    pub fn latest_visible(&self, read_ts: Timestamp) -> (r: Option<&VersionedValue>)
        ensures
            match latest(self@, read_ts) {
                Some(version) => r matches Some(found) && found@ == version,
                None => r is None,
            },
    {
        let mut i: usize = self.versions.len();
        assert(self@.take(i as int) =~= self@);
        while i > 0
            invariant
                i <= self.versions@.len(),
                latest(self@, read_ts) == latest(self@.take(i as int), read_ts),
            decreases i,
        {
            assert(self@.take(i as int).drop_last() =~= self@.take(i - 1));
            assert(self@.take(i as int).last() == self.versions@[i - 1]@);
            i -= 1;
            let version = &self.versions[i];
            let open = match version.end_ts {
                Some(end) => read_ts < end,
                None => true,
            };
            if version.begin_ts <= read_ts && open {
                return Some(version);
            }
        }
        None
    }

    /// Commits one more version, which ends the one before it.
    pub fn append_committed(
        &mut self,
        writer_txn: TxnId,
        commit_ts: Timestamp,
        value: Option<String>,
    )
        ensures
            final(self)@ == with_version(old(self)@, writer_txn, commit_ts, text_view(value)),
    {
        let ghost before = self@;
        let ghost v = text_view(value);
        let n: usize = self.versions.len();
        if n > 0 && self.versions[n - 1].end_ts.is_none() {
            self.versions[n - 1].end_ts = Some(commit_ts);
        }
        assert(self@ =~= ended(before, commit_ts));
        self.versions.push(
            VersionedValue { begin_ts: commit_ts, end_ts: None, value, writer_txn },
        );
        assert(self@ =~= with_version(before, writer_txn, commit_ts, v));
    }
}

/// A reader and the time that it reads at.
#[derive(Debug, Clone, Copy, PartialEq, Eq, Structural)]
pub struct Transaction {
    pub id: TxnId,
    pub read_ts: Timestamp,
}

/// The versions of all keys.
#[derive(Debug)]
pub struct MvccCatalog {
    pub next_txn_id: TxnId,
    pub chains: OrderedMap<VersionChain>,
}

/// The versions of the keys of a catalog.
pub type Chains = Map<Seq<char>, Seq<VersionV>>;

/// A [`MvccCatalog`] over its versions.
#[verifier::ext_equal]
pub struct CatalogV {
    pub next_txn_id: TxnId,
    pub chains: Chains,
}

impl View for MvccCatalog {
    type V = CatalogV;

    open spec fn view(&self) -> CatalogV {
        CatalogV { next_txn_id: self.next_txn_id, chains: self.chains@ }
    }
}

/// The versions of a key, none where it was never written.
pub open spec fn versions_of(chains: Chains, key: Seq<char>) -> Seq<VersionV> {
    if chains.contains_key(key) {
        chains[key]
    } else {
        Seq::empty()
    }
}

/// The value among versions at a time; none where the latest is a deletion.
pub open spec fn value_at(versions: Seq<VersionV>, ts: Timestamp) -> Option<Seq<char>> {
    match latest(versions, ts) {
        Some(version) => version.value,
        None => None,
    }
}

/// The visible rows among pairs of keys and versions, in the same order.
pub open spec fn rows_among(pairs: Seq<(Seq<char>, Seq<VersionV>)>, ts: Timestamp) -> Seq<
    (Seq<char>, Seq<char>),
>
    decreases pairs.len(),
{
    if pairs.len() == 0 {
        Seq::empty()
    } else {
        let rest = rows_among(pairs.drop_last(), ts);
        match value_at(pairs.last().1, ts) {
            Some(value) => rest.push((pairs.last().0, value)),
            None => rest,
        }
    }
}

impl CatalogV {
    pub open spec fn empty() -> CatalogV {
        CatalogV { next_txn_id: 0, chains: Map::empty() }
    }

    /// The id of the next transaction; ids stop at the greatest.
    pub open spec fn next_id(self) -> TxnId {
        if self.next_txn_id == u64::MAX {
            u64::MAX
        } else {
            (self.next_txn_id + 1) as u64
        }
    }

    /// The catalog after one more version of a key was committed.
    pub open spec fn committed(
        self,
        key: Seq<char>,
        value: Option<Seq<char>>,
        ts: Timestamp,
        txn: TxnId,
    ) -> CatalogV {
        CatalogV {
            chains: self.chains.insert(
                key,
                with_version(versions_of(self.chains, key), txn, ts, value),
            ),
            ..self
        }
    }

    /// The value of a key at a time.
    pub open spec fn read(self, key: Seq<char>, ts: Timestamp) -> Option<Seq<char>> {
        value_at(versions_of(self.chains, key), ts)
    }

    /// The visible rows at a time, in ascending key order.
    pub open spec fn rows(self, ts: Timestamp) -> Seq<(Seq<char>, Seq<char>)> {
        rows_among(ordered::sorted_pairs(self.chains), ts)
    }
}

/// The views of rows.
pub open spec fn row_views(rows: Seq<(String, String)>) -> Seq<(Seq<char>, Seq<char>)> {
    Seq::new(rows.len(), |i: int| (rows[i].0@, rows[i].1@))
}

impl Default for MvccCatalog {
    fn default() -> (r: Self)
        ensures
            r.wf(),
            r@ == CatalogV::empty(),
    {
        MvccCatalog { next_txn_id: 0, chains: OrderedMap::new() }
    }
}

impl Clone for MvccCatalog {
    fn clone(&self) -> (r: Self)
        ensures
            r@ == self@,
            self.wf() ==> r.wf(),
    {
        let mut entries: Vec<(String, VersionChain)> = Vec::new();
        let mut i: usize = 0;
        while i < self.chains.entries.len()
            invariant
                i <= self.chains.entries@.len(),
                entries@.len() == i,
                forall|k: int|
                    0 <= k < i ==> (#[trigger] entries@[k]).0 == self.chains.entries@[k].0
                        && entries@[k].1@ == self.chains.entries@[k].1@,
            decreases self.chains.entries@.len() - i,
        {
            entries.push((self.chains.entries[i].0.clone(), self.chains.entries[i].1.clone()));
            i += 1;
        }
        let chains = OrderedMap { entries };
        assert(chains.pairs() =~= self.chains.pairs());
        MvccCatalog { next_txn_id: self.next_txn_id, chains }
    }
}

impl MvccCatalog {
    pub open spec fn wf(&self) -> bool {
        self.chains.wf()
    }

    /// Starts a reader at a time.
    pub fn begin_transaction(&mut self, read_ts: Timestamp) -> (r: Transaction)
        ensures
            final(self)@ == (CatalogV { next_txn_id: old(self)@.next_id(), ..old(self)@ }),
            r == (Transaction { id: old(self)@.next_id(), read_ts }),
            final(self).chains == old(self).chains,
    {
        self.next_txn_id = self.next_txn_id.saturating_add(1);
        Transaction { id: self.next_txn_id, read_ts }
    }

    fn commit_version(
        &mut self,
        key: String,
        value: Option<String>,
        commit_ts: Timestamp,
        writer_txn: TxnId,
    )
        requires
            old(self).wf(),
        ensures
            final(self).wf(),
            final(self)@ == old(self)@.committed(key@, text_view(value), commit_ts, writer_txn),
    {
        let ghost before = self@;
        let ghost k = key@;
        let ghost v = text_view(value);
        let mut chain = match self.chains.remove(key.as_str()) {
            Some(chain) => chain,
            None => VersionChain::default(),
        };
        chain.append_committed(writer_txn, commit_ts, value);
        let ghost c = chain@;
        self.chains.insert(key, chain);
        assert(before.chains.remove(k).insert(k, c) =~= before.chains.insert(k, c));
    }

    /// Commits a value of a key.
    pub fn apply_committed_put(
        &mut self,
        key: String,
        value: String,
        commit_ts: Timestamp,
        writer_txn: TxnId,
    )
        requires
            old(self).wf(),
        ensures
            final(self).wf(),
            final(self)@ == old(self)@.committed(key@, Some(value@), commit_ts, writer_txn),
    {
        self.commit_version(key, Some(value), commit_ts, writer_txn);
    }

    /// Commits the absence of a key.
    pub fn apply_committed_delete(
        &mut self,
        key: String,
        commit_ts: Timestamp,
        writer_txn: TxnId,
    )
        requires
            old(self).wf(),
        ensures
            final(self).wf(),
            final(self)@ == old(self)@.committed(key@, None, commit_ts, writer_txn),
    {
        self.commit_version(key, None, commit_ts, writer_txn);
    }

    /// The value of a key at a time.
    pub fn read_visible(&self, key: &str, read_ts: Timestamp) -> (r: Option<&str>)
        requires
            self.wf(),
        ensures
            match self@.read(key@, read_ts) {
                Some(value) => r matches Some(found) && found@ == value,
                None => r is None,
            },
    {
        match self.chains.get(key) {
            Some(chain) => match chain.latest_visible(read_ts) {
                Some(version) => match &version.value {
                    Some(value) => Some(value.as_str()),
                    None => None,
                },
                None => None,
            },
            None => None,
        }
    }

    /// The visible rows at a time, in ascending key order.
    pub fn visible_rows(&self, read_ts: Timestamp) -> (r: Vec<(String, String)>)
        requires
            self.wf(),
        ensures
            row_views(r@) == self@.rows(read_ts),
    {
        let ghost pairs = self.chains.pairs();
        proof {
            self.chains.pairs_are_sorted();
        }
        let mut rows: Vec<(String, String)> = Vec::new();
        let mut i: usize = 0;
        assert(row_views(rows@) =~= rows_among(pairs.take(0), read_ts));
        while i < self.chains.entries.len()
            invariant
                i <= self.chains.entries@.len(),
                pairs == self.chains.pairs(),
                row_views(rows@) == rows_among(pairs.take(i as int), read_ts),
            decreases self.chains.entries@.len() - i,
        {
            let ghost before = row_views(rows@);
            assert(pairs.take(i + 1).drop_last() =~= pairs.take(i as int));
            assert(pairs.take(i + 1).last() == pairs[i as int]);
            match self.chains.entries[i].1.latest_visible(read_ts) {
                Some(version) => match &version.value {
                    Some(value) => {
                        rows.push((self.chains.entries[i].0.clone(), value.clone()));
                        assert(row_views(rows@) =~= before.push(
                            (pairs[i as int].0, value@),
                        ));
                    },
                    None => {},
                },
                None => {},
            }
            i += 1;
        }
        assert(pairs.take(i as int) =~= pairs);
        rows
    }

    /// The versions of a key.
    pub fn chain(&self, key: &str) -> (r: Option<&VersionChain>)
        requires
            self.wf(),
        ensures
            r is Some <==> self@.chains.contains_key(key@),
            r matches Some(chain) ==> chain@ == self@.chains[key@],
    {
        self.chains.get(key)
    }
}

/// Versions that follow each other without overlap: each ends where the next
/// begins, and only the last is open.
pub open spec fn in_order(versions: Seq<VersionV>) -> bool {
    &&& forall|i: int, j: int|
        0 <= i < versions.len() && j == i + 1 && j < versions.len() ==> (
        #[trigger] versions[i]).end_ts == Some((#[trigger] versions[j]).begin_ts)
    &&& versions.len() > 0 ==> versions.last().end_ts is None
    &&& forall|i: int, j: int|
        0 <= i < j < versions.len() ==> (#[trigger] versions[i]).begin_ts <= (
        #[trigger] versions[j]).begin_ts
}

/// Committing at a time not before the last commit keeps versions in order.
pub proof fn committing_keeps_order(
    versions: Seq<VersionV>,
    txn: TxnId,
    ts: Timestamp,
    value: Option<Seq<char>>,
)
    requires
        in_order(versions),
        versions.len() > 0 ==> versions.last().begin_ts <= ts,
    ensures
        in_order(with_version(versions, txn, ts, value)),
{
    let after = with_version(versions, txn, ts, value);
    assert forall|i: int, j: int|
        0 <= i < after.len() && j == i + 1 && j < after.len() implies (
    #[trigger] after[i]).end_ts == Some((#[trigger] after[j]).begin_ts) by {
        if j < versions.len() {
            assert(versions[i].end_ts == Some(versions[j].begin_ts));
        }
    }
    assert forall|i: int, j: int| 0 <= i < j < after.len() implies (#[trigger] after[i]).begin_ts
        <= (#[trigger] after[j]).begin_ts by {
        if j < versions.len() {
            assert(versions[i].begin_ts <= versions[j].begin_ts);
        } else {
            assert(versions[i].begin_ts <= versions[versions.len() - 1].begin_ts);
        }
    }
}

/// A reader at or after a commit sees what was committed; a reader before it
/// sees what it would have seen without it.
pub proof fn commits_are_seen_from_their_time_on(
    versions: Seq<VersionV>,
    txn: TxnId,
    ts: Timestamp,
    value: Option<Seq<char>>,
    read_ts: Timestamp,
)
    ensures
        ts <= read_ts ==> value_at(with_version(versions, txn, ts, value), read_ts) == value,
        read_ts < ts ==> value_at(with_version(versions, txn, ts, value), read_ts) == value_at(
            versions,
            read_ts,
        ),
{
    let after = with_version(versions, txn, ts, value);
    assert(after.drop_last() =~= ended(versions, ts));
    if read_ts < ts && versions.len() > 0 {
        let open = ended(versions, ts);
        assert(open.drop_last() =~= versions.drop_last());
        assert(open.last().visible_at(read_ts) == versions.last().visible_at(read_ts));
        assert(open.last().value == versions.last().value);
        assert(latest(after, read_ts) == latest(open, read_ts));
        assert(value_at(open, read_ts) == value_at(versions, read_ts));
    }
}

/// Of versions in order, a time sees exactly the one whose span it lies in.
pub proof fn one_version_is_visible(versions: Seq<VersionV>, i: int, ts: Timestamp)
    requires
        in_order(versions),
        0 <= i < versions.len(),
        versions[i].visible_at(ts),
    ensures
        latest(versions, ts) == Some(versions[i]),
{
    visible_prefix(versions, versions.len(), i, ts);
    assert(versions.take(versions.len() as int) =~= versions);
}

proof fn visible_prefix(versions: Seq<VersionV>, n: nat, i: int, ts: Timestamp)
    requires
        in_order(versions),
        0 <= i < n <= versions.len(),
        versions[i].visible_at(ts),
    ensures
        latest(versions.take(n as int), ts) == Some(versions[i]),
    decreases n,
{
    let prefix = versions.take(n as int);
    assert(prefix.last() == versions[n - 1]);
    if n - 1 > i {
        assert(versions[i].end_ts == Some(versions[i + 1].begin_ts));
        if i + 1 < n - 1 {
            assert(versions[i + 1].begin_ts <= versions[n - 1].begin_ts);
        }
        assert(prefix.drop_last() =~= versions.take(n - 1));
        visible_prefix(versions, (n - 1) as nat, i, ts);
    }
}

/// A row is visible exactly when its key has a value at the time.
pub proof fn rows_are_the_readable_keys(
    pairs: Seq<(Seq<char>, Seq<VersionV>)>,
    ts: Timestamp,
    key: Seq<char>,
    value: Seq<char>,
)
    requires
        ordered::ascending(pairs),
    ensures
        rows_among(pairs, ts).contains((key, value)) <==> value_at(
            versions_of(ordered::map_of(pairs), key),
            ts,
        ) == Some(value),
    decreases pairs.len(),
{
    if pairs.len() > 0 {
        let rest = pairs.drop_last();
        let last = pairs.last();
        assert(ordered::ascending(rest)) by {
            assert forall|a: int, b: int| 0 <= a < b < rest.len() implies text::text_lt(
                #[trigger] rest[a].0,
                #[trigger] rest[b].0,
            ) by {
                assert(text::text_lt(pairs[a].0, pairs[b].0));
            }
        }
        rows_are_the_readable_keys(rest, ts, key, value);
        let before = rows_among(rest, ts);
        let after = rows_among(pairs, ts);
        if key == last.0 {
            ordered::map_of_contains(rest, key);
            if ordered::map_of(rest).contains_key(key) {
                let i = choose|i: int| 0 <= i < rest.len() && #[trigger] rest[i].0 == key;
                assert(text::text_lt(pairs[i].0, pairs[pairs.len() - 1].0));
                text::text_lt_irreflexive(key);
            }
            assert(!before.contains((key, value)));
        }
        match value_at(last.1, ts) {
            Some(v) => {
                if before.contains((key, value)) {
                    let i = choose|i: int| 0 <= i < before.len() && before[i] == (key, value);
                    assert(after[i] == (key, value));
                }
                assert(after[before.len() as int] == (last.0, v));
                if after.contains((key, value)) {
                    let i = choose|i: int| 0 <= i < after.len() && after[i] == (key, value);
                    if i < before.len() {
                        assert(before[i] == (key, value));
                    }
                }
            },
            None => {},
        }
    }
}

/// The keys stand in some ascending order, as those of every catalog do.
pub open spec fn sortable(chains: Chains) -> bool {
    exists|pairs: Seq<(Seq<char>, Seq<VersionV>)>|
        ordered::ascending(pairs) && #[trigger] ordered::map_of(pairs) == chains
}

/// Committing keeps the keys of a catalog sortable.
pub proof fn committing_stays_sortable(
    catalog: CatalogV,
    key: Seq<char>,
    value: Option<Seq<char>>,
    ts: Timestamp,
    txn: TxnId,
)
    requires
        sortable(catalog.chains),
    ensures
        sortable(catalog.committed(key, value, ts, txn).chains),
{
    let pairs = choose|pairs: Seq<(Seq<char>, Seq<VersionV>)>|
        ordered::ascending(pairs) && #[trigger] ordered::map_of(pairs) == catalog.chains;
    let more = ordered::inserting_keeps_order(
        pairs,
        key,
        with_version(versions_of(catalog.chains, key), txn, ts, value),
    );
    assert(ordered::map_of(more) == catalog.committed(key, value, ts, txn).chains);
}

/// Visible rows come from pairs, in the same order.
proof fn rows_come_from_pairs(
    pairs: Seq<(Seq<char>, Seq<VersionV>)>,
    ts: Timestamp,
    i: int,
)
    requires
        0 <= i < rows_among(pairs, ts).len(),
    ensures
        exists|k: int|
            0 <= k < pairs.len() && #[trigger] pairs[k].0 == rows_among(pairs, ts)[i].0,
    decreases pairs.len(),
{
    let rest = pairs.drop_last();
    let before = rows_among(rest, ts);
    if i < before.len() {
        rows_come_from_pairs(rest, ts, i);
        let k = choose|k: int| 0 <= k < rest.len() && #[trigger] rest[k].0 == before[i].0;
        assert(pairs[k].0 == rows_among(pairs, ts)[i].0);
    } else {
        assert(pairs[pairs.len() - 1].0 == rows_among(pairs, ts)[i].0);
    }
}

/// Visible rows stand in ascending key order, so that no key occurs twice.
pub proof fn rows_ascend(pairs: Seq<(Seq<char>, Seq<VersionV>)>, ts: Timestamp)
    requires
        ordered::ascending(pairs),
    ensures
        ordered::ascending(rows_among(pairs, ts)),
    decreases pairs.len(),
{
    if pairs.len() > 0 {
        let rest = pairs.drop_last();
        assert(ordered::ascending(rest)) by {
            assert forall|a: int, b: int| 0 <= a < b < rest.len() implies text::text_lt(
                #[trigger] rest[a].0,
                #[trigger] rest[b].0,
            ) by {
                assert(text::text_lt(pairs[a].0, pairs[b].0));
            }
        }
        rows_ascend(rest, ts);
        let before = rows_among(rest, ts);
        let after = rows_among(pairs, ts);
        assert forall|a: int, b: int| 0 <= a < b < after.len() implies text::text_lt(
            #[trigger] after[a].0,
            #[trigger] after[b].0,
        ) by {
            if b < before.len() {
                assert(text::text_lt(before[a].0, before[b].0));
            } else {
                rows_come_from_pairs(rest, ts, a);
                let k = choose|k: int| 0 <= k < rest.len() && #[trigger] rest[k].0 == before[a].0;
                assert(text::text_lt(pairs[k].0, pairs[pairs.len() - 1].0));
            }
        }
    }
}

/// The visible rows of a catalog: one for each key that has a value at the time,
/// in ascending key order.
pub proof fn rows_of_a_catalog(
    catalog: CatalogV,
    ts: Timestamp,
    key: Seq<char>,
    value: Seq<char>,
)
    requires
        sortable(catalog.chains),
    ensures
        ordered::ascending(catalog.rows(ts)),
        catalog.rows(ts).contains((key, value)) <==> catalog.read(key, ts) == Some(value),
{
    let pairs = ordered::sorted_pairs(catalog.chains);
    rows_ascend(pairs, ts);
    rows_are_the_readable_keys(pairs, ts, key, value);
}

/// A version is visible from its begin on, and no more at its end.
pub proof fn versions_are_visible_in_their_span(version: VersionV, ts: Timestamp)
    ensures
        ts < version.begin_ts ==> !version.visible_at(ts),
        version.end_ts is None && version.begin_ts <= ts ==> version.visible_at(ts),
        version.end_ts is Some && version.begin_ts <= ts < version.end_ts->0
            ==> version.visible_at(ts),
        version.end_ts is Some && version.end_ts->0 <= ts ==> !version.visible_at(ts),
{
}

/// Of the visible versions the last one counts.
pub proof fn the_last_visible_version_counts(versions: Seq<VersionV>, ts: Timestamp)
    ensures
        forall|i: int|
            0 <= i < versions.len() && (#[trigger] versions[i]).visible_at(ts) && (forall|j: int|
                i < j < versions.len() ==> !(#[trigger] versions[j]).visible_at(ts)) ==> latest(
                versions,
                ts,
            ) == Some(versions[i]),
        (forall|i: int| 0 <= i < versions.len() ==> !(#[trigger] versions[i]).visible_at(ts))
            ==> latest(versions, ts) is None,
    decreases versions.len(),
{
    if versions.len() > 0 && !versions.last().visible_at(ts) {
        let rest = versions.drop_last();
        the_last_visible_version_counts(rest, ts);
        assert forall|i: int|
            0 <= i < versions.len() && (#[trigger] versions[i]).visible_at(ts) && (forall|j: int|
                i < j < versions.len() ==> !(#[trigger] versions[j]).visible_at(ts)) implies latest(
            versions,
            ts,
        ) == Some(versions[i]) by {
            assert(rest[i] == versions[i]);
            assert forall|j: int| i < j < rest.len() implies !(#[trigger] rest[j]).visible_at(
                ts,
            ) by {
                assert(rest[j] == versions[j]);
            }
        }
        if forall|i: int| 0 <= i < versions.len() ==> !(#[trigger] versions[i]).visible_at(ts) {
            assert forall|i: int| 0 <= i < rest.len() implies !(#[trigger] rest[i]).visible_at(
                ts,
            ) by {
                assert(rest[i] == versions[i]);
            }
        }
    } else if versions.len() > 0 {
        assert forall|i: int|
            0 <= i < versions.len() && (#[trigger] versions[i]).visible_at(ts) && (forall|j: int|
                i < j < versions.len() ==> !(#[trigger] versions[j]).visible_at(ts)) implies latest(
            versions,
            ts,
        ) == Some(versions[i]) by {
            assert(versions[versions.len() - 1].visible_at(ts));
        }
    }
}

/// A commit adds one version to its key, open from the time of the commit on,
/// with the value and the writer; the version before it ends at that time where
/// it was open; and earlier versions, other keys and the number of readers stay.
pub proof fn commits_add_one_version(
    catalog: CatalogV,
    key: Seq<char>,
    value: Option<Seq<char>>,
    ts: Timestamp,
    txn: TxnId,
)
    ensures
        ({
            let after = catalog.committed(key, value, ts, txn);
            let old_versions = versions_of(catalog.chains, key);
            let n = old_versions.len() as int;
            let versions = versions_of(after.chains, key);
            &&& after.next_txn_id == catalog.next_txn_id
            &&& forall|other: Seq<char>|
                other != key ==> versions_of(after.chains, other) == #[trigger] versions_of(
                    catalog.chains,
                    other,
                )
            &&& versions.len() == n + 1
            &&& versions[n].begin_ts == ts && versions[n].end_ts is None && versions[n].value
                == value && versions[n].writer_txn == txn
            &&& forall|i: int| 0 <= i < n - 1 ==> #[trigger] versions[i] == old_versions[i]
            &&& n > 0 ==> {
                let before = old_versions[n - 1];
                &&& before.end_ts is Some ==> versions[n - 1] == before
                &&& before.end_ts is None ==> versions[n - 1] == (VersionV {
                    end_ts: Some(ts),
                    ..before
                })
            }
        }),
{
}

/// Readers are numbered one after the other, from one on; the greatest number
/// is given again and again.
pub proof fn readers_are_counted(catalog: CatalogV)
    ensures
        CatalogV::empty().next_id() == 1,
        catalog.next_txn_id < u64::MAX ==> catalog.next_id() == catalog.next_txn_id + 1,
        catalog.next_txn_id == u64::MAX ==> catalog.next_id() == u64::MAX,
{
}

} // verus!
