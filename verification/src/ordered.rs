//! A map from strings to values, kept in ascending key order.
use vstd::prelude::*;

use crate::text;

verus! {

/// Keys in strictly ascending order, and so without repetition.
pub open spec fn ascending<W>(pairs: Seq<(Seq<char>, W)>) -> bool {
    forall|i: int, j: int|
        0 <= i < j < pairs.len() ==> text::text_lt(#[trigger] pairs[i].0, #[trigger] pairs[j].0)
}

/// The map that inserting the pairs one after the other builds.
pub open spec fn map_of<W>(pairs: Seq<(Seq<char>, W)>) -> Map<Seq<char>, W>
    decreases pairs.len(),
{
    if pairs.len() == 0 {
        Map::empty()
    } else {
        map_of(pairs.drop_last()).insert(pairs.last().0, pairs.last().1)
    }
}

/// The pairs of a map in ascending key order.
pub open spec fn sorted_pairs<W>(m: Map<Seq<char>, W>) -> Seq<(Seq<char>, W)> {
    choose|pairs: Seq<(Seq<char>, W)>| ascending(pairs) && map_of(pairs) == m
}

/// A key is in the built map exactly when some pair holds it.
pub proof fn map_of_contains<W>(pairs: Seq<(Seq<char>, W)>, k: Seq<char>)
    ensures
        map_of(pairs).contains_key(k) <==> exists|i: int|
            0 <= i < pairs.len() && #[trigger] pairs[i].0 == k,
    decreases pairs.len(),
{
    if pairs.len() > 0 {
        let rest = pairs.drop_last();
        map_of_contains(rest, k);
        if map_of(pairs).contains_key(k) {
            if k == pairs.last().0 {
                assert(pairs[pairs.len() - 1].0 == k);
            } else {
                let i = choose|i: int| 0 <= i < rest.len() && #[trigger] rest[i].0 == k;
                assert(pairs[i].0 == k);
            }
        }
        if exists|i: int| 0 <= i < pairs.len() && #[trigger] pairs[i].0 == k {
            let i = choose|i: int| 0 <= i < pairs.len() && #[trigger] pairs[i].0 == k;
            if i < rest.len() {
                assert(rest[i].0 == k);
            }
        }
    }
}

/// In ascending pairs every pair is the one that the built map holds.
pub proof fn map_of_value<W>(pairs: Seq<(Seq<char>, W)>, i: int)
    requires
        ascending(pairs),
        0 <= i < pairs.len(),
    ensures
        map_of(pairs).contains_key(pairs[i].0),
        map_of(pairs)[pairs[i].0] == pairs[i].1,
    decreases pairs.len(),
{
    let rest = pairs.drop_last();
    if i < rest.len() {
        assert(ascending(rest)) by {
            assert forall|a: int, b: int| 0 <= a < b < rest.len() implies text::text_lt(
                #[trigger] rest[a].0,
                #[trigger] rest[b].0,
            ) by {
                assert(text::text_lt(pairs[a].0, pairs[b].0));
            }
        }
        map_of_value(rest, i);
        text::text_lt_irreflexive(pairs[i].0);
        assert(text::text_lt(pairs[i].0, pairs[pairs.len() - 1].0));
    }
}

/// A pair whose key is above all others keeps the pairs ascending at their end.
proof fn pushing_keeps_order<W>(pairs: Seq<(Seq<char>, W)>, k: Seq<char>, w: W)
    requires
        ascending(pairs),
        forall|i: int| 0 <= i < pairs.len() ==> text::text_lt(#[trigger] pairs[i].0, k),
    ensures
        ascending(pairs.push((k, w))),
        map_of(pairs.push((k, w))) == map_of(pairs).insert(k, w),
{
    let all = pairs.push((k, w));
    assert forall|a: int, b: int| 0 <= a < b < all.len() implies text::text_lt(
        #[trigger] all[a].0,
        #[trigger] all[b].0,
    ) by {
        assert(all[a] == pairs[a]);
        if b < pairs.len() {
            assert(all[b] == pairs[b]);
        }
    }
    assert(all.drop_last() =~= pairs);
}

/// Where a map has pairs in ascending order, so has the map with a key less.
pub proof fn removing_keeps_order<W>(pairs: Seq<(Seq<char>, W)>, k: Seq<char>) -> (r: Seq<
    (Seq<char>, W),
>)
    requires
        ascending(pairs),
    ensures
        ascending(r),
        map_of(r) == map_of(pairs).remove(k),
        forall|i: int| 0 <= i < r.len() ==> pairs.contains(#[trigger] r[i]),
    decreases pairs.len(),
{
    if pairs.len() == 0 {
        assert(map_of(pairs).remove(k) =~= map_of(pairs));
        pairs
    } else {
        let rest = pairs.drop_last();
        let last = pairs.last();
        assert(ascending(rest)) by {
            assert forall|a: int, b: int| 0 <= a < b < rest.len() implies text::text_lt(
                #[trigger] rest[a].0,
                #[trigger] rest[b].0,
            ) by {
                assert(text::text_lt(pairs[a].0, pairs[b].0));
            }
        }
        assert forall|i: int| 0 <= i < rest.len() implies pairs.contains(#[trigger] rest[i]) by {
            assert(pairs[i] == rest[i]);
        }
        if last.0 == k {
            map_of_contains(rest, k);
            assert forall|i: int| 0 <= i < rest.len() implies #[trigger] rest[i].0 != k by {
                assert(text::text_lt(pairs[i].0, pairs[pairs.len() - 1].0));
                text::text_lt_irreflexive(k);
            }
            assert(map_of(pairs).remove(k) =~= map_of(rest));
            rest
        } else {
            let left = removing_keeps_order(rest, k);
            let r = left.push(last);
            assert(r.drop_last() =~= left);
            assert(map_of(r) =~= map_of(pairs).remove(k));
            assert forall|i: int| 0 <= i < left.len() implies text::text_lt(
                #[trigger] left[i].0,
                last.0,
            ) by {
                assert(rest.contains(left[i]));
                let j = choose|j: int| 0 <= j < rest.len() && rest[j] == left[i];
                assert(text::text_lt(pairs[j].0, pairs[pairs.len() - 1].0));
            }
            assert forall|a: int, b: int| 0 <= a < b < r.len() implies text::text_lt(
                #[trigger] r[a].0,
                #[trigger] r[b].0,
            ) by {
                if b < left.len() {
                    assert(text::text_lt(left[a].0, left[b].0));
                } else {
                    assert(text::text_lt(left[a].0, last.0));
                }
            }
            assert forall|i: int| 0 <= i < r.len() implies pairs.contains(#[trigger] r[i]) by {
                if i < left.len() {
                    assert(rest.contains(left[i]));
                    let j = choose|j: int| 0 <= j < rest.len() && rest[j] == left[i];
                    assert(pairs[j] == r[i]);
                } else {
                    assert(pairs[pairs.len() - 1] == r[i]);
                }
            }
            r
        }
    }
}

/// Where a map has pairs in ascending order, so has the map with one more key,
/// or with a new value for a key.
pub proof fn inserting_keeps_order<W>(pairs: Seq<(Seq<char>, W)>, k: Seq<char>, w: W) -> (r: Seq<
    (Seq<char>, W),
>)
    requires
        ascending(pairs),
    ensures
        ascending(r),
        map_of(r) == map_of(pairs).insert(k, w),
    decreases pairs.len(),
{
    if pairs.len() == 0 {
        pushing_keeps_order(pairs, k, w);
        pairs.push((k, w))
    } else {
        let rest = pairs.drop_last();
        let last = pairs.last();
        assert(ascending(rest)) by {
            assert forall|a: int, b: int| 0 <= a < b < rest.len() implies text::text_lt(
                #[trigger] rest[a].0,
                #[trigger] rest[b].0,
            ) by {
                assert(text::text_lt(pairs[a].0, pairs[b].0));
            }
        }
        text::text_lt_total(last.0, k);
        if text::text_lt(last.0, k) {
            assert forall|i: int| 0 <= i < pairs.len() implies text::text_lt(
                #[trigger] pairs[i].0,
                k,
            ) by {
                if i < rest.len() {
                    assert(text::text_lt(pairs[i].0, pairs[pairs.len() - 1].0));
                    text::text_lt_transitive(pairs[i].0, last.0, k);
                }
            }
            pushing_keeps_order(pairs, k, w);
            pairs.push((k, w))
        } else if last.0 == k {
            assert forall|i: int| 0 <= i < rest.len() implies text::text_lt(
                #[trigger] rest[i].0,
                k,
            ) by {
                assert(text::text_lt(pairs[i].0, pairs[pairs.len() - 1].0));
            }
            pushing_keeps_order(rest, k, w);
            assert(map_of(rest).insert(k, last.1).insert(k, w) =~= map_of(rest).insert(k, w));
            rest.push((k, w))
        } else {
            let more = inserting_keeps_order(rest, k, w);
            assert forall|i: int| 0 <= i < more.len() implies text::text_lt(
                #[trigger] more[i].0,
                last.0,
            ) by {
                map_of_contains(more, more[i].0);
                if more[i].0 != k {
                    map_of_contains(rest, more[i].0);
                    let j = choose|j: int|
                        0 <= j < rest.len() && #[trigger] rest[j].0 == more[i].0;
                    assert(text::text_lt(pairs[j].0, pairs[pairs.len() - 1].0));
                }
            }
            pushing_keeps_order(more, last.0, last.1);
            text::text_lt_irreflexive(k);
            assert(map_of(rest).insert(k, w).insert(last.0, last.1) =~= map_of(rest).insert(
                last.0,
                last.1,
            ).insert(k, w));
            more.push(last)
        }
    }
}

/// Ascending pairs are determined by the map that they build.
pub proof fn ascending_pairs_unique<W>(p: Seq<(Seq<char>, W)>, q: Seq<(Seq<char>, W)>)
    requires
        ascending(p),
        ascending(q),
        map_of(p) == map_of(q),
    ensures
        p == q,
    decreases p.len(),
{
    if p.len() == 0 {
        if q.len() > 0 {
            map_of_value(q, 0);
        }
        assert(p =~= q);
    } else if q.len() == 0 {
        map_of_value(p, 0);
    } else {
        let a = p.last();
        let b = q.last();
        map_of_value(p, p.len() - 1);
        map_of_value(q, q.len() - 1);
        map_of_contains(q, a.0);
        map_of_contains(p, b.0);
        let i = choose|i: int| 0 <= i < q.len() && #[trigger] q[i].0 == a.0;
        let j = choose|j: int| 0 <= j < p.len() && #[trigger] p[j].0 == b.0;
        if a.0 != b.0 {
            assert(text::text_lt(q[i].0, q[q.len() - 1].0));
            assert(text::text_lt(p[j].0, p[p.len() - 1].0));
            text::text_lt_transitive(a.0, b.0, a.0);
            text::text_lt_irreflexive(a.0);
        }
        assert(a == b);
        let pr = p.drop_last();
        let qr = q.drop_last();
        assert(ascending(pr)) by {
            assert forall|x: int, y: int| 0 <= x < y < pr.len() implies text::text_lt(
                #[trigger] pr[x].0,
                #[trigger] pr[y].0,
            ) by {
                assert(text::text_lt(p[x].0, p[y].0));
            }
        }
        assert(ascending(qr)) by {
            assert forall|x: int, y: int| 0 <= x < y < qr.len() implies text::text_lt(
                #[trigger] qr[x].0,
                #[trigger] qr[y].0,
            ) by {
                assert(text::text_lt(q[x].0, q[y].0));
            }
        }
        assert(map_of(pr) =~= map_of(p).remove(a.0)) by {
            map_of_contains(pr, a.0);
            if map_of(pr).contains_key(a.0) {
                let x = choose|x: int| 0 <= x < pr.len() && #[trigger] pr[x].0 == a.0;
                assert(text::text_lt(p[x].0, p[p.len() - 1].0));
                text::text_lt_irreflexive(a.0);
            }
        }
        assert(map_of(qr) =~= map_of(q).remove(a.0)) by {
            map_of_contains(qr, a.0);
            if map_of(qr).contains_key(a.0) {
                let x = choose|x: int| 0 <= x < qr.len() && #[trigger] qr[x].0 == a.0;
                assert(text::text_lt(q[x].0, q[q.len() - 1].0));
                text::text_lt_irreflexive(a.0);
            }
        }
        ascending_pairs_unique(pr, qr);
        assert(p =~= pr.push(a));
        assert(q =~= qr.push(b));
    }
}

/// A map with string keys. The entries stand in ascending key order.
#[derive(Debug, PartialEq, Eq)]
pub struct OrderedMap<V> {
    pub entries: Vec<(String, V)>,
}

impl<V: View> OrderedMap<V> {
    /// The entries as pairs of views, in the order in which they stand.
    pub open spec fn pairs(&self) -> Seq<(Seq<char>, V::V)> {
        Seq::new(self.entries@.len(), |i: int| (self.entries@[i].0@, self.entries@[i].1@))
    }

    /// The entries stand in strictly ascending key order.
    pub open spec fn wf(&self) -> bool {
        ascending(self.pairs())
    }
}

impl<V: View> View for OrderedMap<V> {
    type V = Map<Seq<char>, V::V>;

    open spec fn view(&self) -> Map<Seq<char>, V::V> {
        map_of(self.pairs())
    }
}

/// The pairs with one more put in at position `p`, between smaller and greater
/// keys, build the map with that key inserted.
proof fn insert_at<W>(pairs: Seq<(Seq<char>, W)>, p: int, k: Seq<char>, w: W)
    requires
        ascending(pairs),
        0 <= p <= pairs.len(),
        forall|i: int| 0 <= i < p ==> text::text_lt(#[trigger] pairs[i].0, k),
        forall|i: int| p <= i < pairs.len() ==> text::text_lt(k, #[trigger] pairs[i].0),
    ensures
        ascending(pairs.insert(p, (k, w))),
        map_of(pairs.insert(p, (k, w))) == map_of(pairs).insert(k, w),
        !map_of(pairs).contains_key(k),
{
    let next = pairs.insert(p, (k, w));
    assert(ascending(next)) by {
        assert forall|a: int, b: int| 0 <= a < b < next.len() implies text::text_lt(
            #[trigger] next[a].0,
            #[trigger] next[b].0,
        ) by {
            let a0 = if a < p {
                a
            } else {
                a - 1
            };
            let b0 = if b < p {
                b
            } else {
                b - 1
            };
            if a != p && b != p {
                assert(text::text_lt(pairs[a0].0, pairs[b0].0));
            } else if a == p {
                assert(text::text_lt(k, pairs[b0].0));
            } else {
                assert(text::text_lt(pairs[a0].0, k));
            }
        }
    }
    map_of_contains(pairs, k);
    if map_of(pairs).contains_key(k) {
        let i = choose|i: int| 0 <= i < pairs.len() && #[trigger] pairs[i].0 == k;
        text::text_lt_irreflexive(k);
        assert(false);
    }
    assert(map_of(next) =~= map_of(pairs).insert(k, w)) by {
        assert forall|x: Seq<char>| #[trigger] map_of(next).contains_key(x) <==> map_of(
            pairs,
        ).insert(k, w).contains_key(x) by {
            map_of_contains(next, x);
            map_of_contains(pairs, x);
            if map_of(next).contains_key(x) {
                let i = choose|i: int| 0 <= i < next.len() && #[trigger] next[i].0 == x;
                if i < p {
                    assert(pairs[i].0 == x);
                } else if i > p {
                    assert(pairs[i - 1].0 == x);
                }
            }
            if map_of(pairs).contains_key(x) {
                let i = choose|i: int| 0 <= i < pairs.len() && #[trigger] pairs[i].0 == x;
                if i < p {
                    assert(next[i].0 == x);
                } else {
                    assert(next[i + 1].0 == x);
                }
            }
            if x == k {
                assert(next[p].0 == x);
            }
        }
        assert forall|x: Seq<char>| #[trigger] map_of(next).contains_key(x) implies map_of(next)[x]
            == map_of(pairs).insert(k, w)[x] by {
            map_of_contains(next, x);
            let i = choose|i: int| 0 <= i < next.len() && #[trigger] next[i].0 == x;
            map_of_value(next, i);
            if i < p {
                map_of_value(pairs, i);
                text::text_lt_irreflexive(k);
            } else if i > p {
                map_of_value(pairs, i - 1);
                text::text_lt_irreflexive(k);
            }
        }
    }
}

/// Replacing the value at position `p` builds the map with that key's value
/// replaced.
proof fn update_at<W>(pairs: Seq<(Seq<char>, W)>, p: int, w: W)
    requires
        ascending(pairs),
        0 <= p < pairs.len(),
    ensures
        ascending(pairs.update(p, (pairs[p].0, w))),
        map_of(pairs.update(p, (pairs[p].0, w))) == map_of(pairs).insert(pairs[p].0, w),
{
    let k = pairs[p].0;
    let next = pairs.update(p, (k, w));
    assert forall|i: int| 0 <= i < next.len() implies #[trigger] next[i].0 == pairs[i].0 by {}
    assert(ascending(next)) by {
        assert forall|a: int, b: int| 0 <= a < b < next.len() implies text::text_lt(
            #[trigger] next[a].0,
            #[trigger] next[b].0,
        ) by {
            assert(text::text_lt(pairs[a].0, pairs[b].0));
        }
    }
    map_of_value(pairs, p);
    assert(map_of(next) =~= map_of(pairs).insert(k, w)) by {
        assert forall|x: Seq<char>| #[trigger] map_of(next).contains_key(x) <==> map_of(
            pairs,
        ).insert(k, w).contains_key(x) by {
            map_of_contains(next, x);
            map_of_contains(pairs, x);
            if map_of(next).contains_key(x) {
                let i = choose|i: int| 0 <= i < next.len() && #[trigger] next[i].0 == x;
                assert(pairs[i].0 == x);
            }
            if map_of(pairs).contains_key(x) {
                let i = choose|i: int| 0 <= i < pairs.len() && #[trigger] pairs[i].0 == x;
                assert(next[i].0 == x);
            }
        }
        assert forall|x: Seq<char>| #[trigger] map_of(next).contains_key(x) implies map_of(next)[x]
            == map_of(pairs).insert(k, w)[x] by {
            map_of_contains(next, x);
            let i = choose|i: int| 0 <= i < next.len() && #[trigger] next[i].0 == x;
            map_of_value(next, i);
            map_of_value(pairs, i);
            if i != p {
                text::text_lt_irreflexive(k);
                if i < p {
                    assert(text::text_lt(pairs[i].0, pairs[p].0));
                } else {
                    assert(text::text_lt(pairs[p].0, pairs[i].0));
                }
            }
        }
    }
}

/// Taking out the pair at position `p` builds the map without that key.
proof fn remove_at<W>(pairs: Seq<(Seq<char>, W)>, p: int)
    requires
        ascending(pairs),
        0 <= p < pairs.len(),
    ensures
        ascending(pairs.remove(p)),
        map_of(pairs.remove(p)) == map_of(pairs).remove(pairs[p].0),
{
    let k = pairs[p].0;
    let next = pairs.remove(p);
    assert(ascending(next)) by {
        assert forall|a: int, b: int| 0 <= a < b < next.len() implies text::text_lt(
            #[trigger] next[a].0,
            #[trigger] next[b].0,
        ) by {
            let a0 = if a < p {
                a
            } else {
                a + 1
            };
            let b0 = if b < p {
                b
            } else {
                b + 1
            };
            assert(text::text_lt(pairs[a0].0, pairs[b0].0));
        }
    }
    assert forall|i: int| 0 <= i < pairs.len() && i != p implies #[trigger] pairs[i].0 != k by {
        text::text_lt_irreflexive(k);
        if i < p {
            assert(text::text_lt(pairs[i].0, pairs[p].0));
        } else {
            assert(text::text_lt(pairs[p].0, pairs[i].0));
        }
    }
    assert(map_of(next) =~= map_of(pairs).remove(k)) by {
        assert forall|x: Seq<char>| #[trigger] map_of(next).contains_key(x) <==> map_of(
            pairs,
        ).remove(k).contains_key(x) by {
            map_of_contains(next, x);
            map_of_contains(pairs, x);
            if map_of(next).contains_key(x) {
                let i = choose|i: int| 0 <= i < next.len() && #[trigger] next[i].0 == x;
                if i < p {
                    assert(pairs[i].0 == x);
                } else {
                    assert(pairs[i + 1].0 == x);
                }
            }
            if map_of(pairs).contains_key(x) && x != k {
                let i = choose|i: int| 0 <= i < pairs.len() && #[trigger] pairs[i].0 == x;
                if i < p {
                    assert(next[i].0 == x);
                } else {
                    assert(next[i - 1].0 == x);
                }
            }
        }
        assert forall|x: Seq<char>| #[trigger] map_of(next).contains_key(x) implies map_of(next)[x]
            == map_of(pairs).remove(k)[x] by {
            map_of_contains(next, x);
            let i = choose|i: int| 0 <= i < next.len() && #[trigger] next[i].0 == x;
            map_of_value(next, i);
            if i < p {
                map_of_value(pairs, i);
            } else {
                map_of_value(pairs, i + 1);
            }
        }
    }
}

impl<V: View> OrderedMap<V> {
    /// The empty map.
    pub fn new() -> (r: Self)
        ensures
            r.wf(),
            r@ == Map::<Seq<char>, V::V>::empty(),
            r.pairs().len() == 0,
    {
        OrderedMap { entries: Vec::new() }
    }

    /// The number of keys.
    pub fn len(&self) -> (r: usize)
        ensures
            r == self.pairs().len(),
    {
        self.entries.len()
    }

    /// The number of keys below `key`, and whether the next entry holds `key`.
    pub fn position(&self, key: &str) -> (r: (usize, bool))
        requires
            self.wf(),
        ensures
            r.0 <= self.entries@.len(),
            r.1 == self@.contains_key(key@),
            r.1 ==> r.0 < self.entries@.len() && self.pairs()[r.0 as int].0 == key@,
            forall|i: int|
                0 <= i < r.0 ==> text::text_lt(#[trigger] self.pairs()[i].0, key@),
            !r.1 ==> forall|i: int|
                r.0 <= i < self.entries@.len() ==> text::text_lt(
                    key@,
                    #[trigger] self.pairs()[i].0,
                ),
    {
        let mut i: usize = 0;
        while i < self.entries.len() && text::text_less(self.entries[i].0.as_str(), key)
            invariant
                i <= self.entries@.len(),
                forall|k: int| 0 <= k < i ==> text::text_lt(#[trigger] self.pairs()[k].0, key@),
            decreases self.entries@.len() - i,
        {
            assert(text::text_lt(self.pairs()[i as int].0, key@));
            i += 1;
        }
        let found = i < self.entries.len() && text::text_equal(self.entries[i].0.as_str(), key);
        proof {
            map_of_contains(self.pairs(), key@);
            if found {
                assert(self.pairs()[i as int].0 == key@);
            } else {
                if i < self.entries@.len() {
                    text::text_lt_total(self.pairs()[i as int].0, key@);
                }
                assert forall|k: int| i <= k < self.entries@.len() implies text::text_lt(
                    key@,
                    #[trigger] self.pairs()[k].0,
                ) by {
                    if k > i {
                        assert(text::text_lt(self.pairs()[i as int].0, self.pairs()[k].0));
                        text::text_lt_transitive(key@, self.pairs()[i as int].0, self.pairs()[k].0);
                    }
                }
                text::text_lt_irreflexive(key@);
            }
        }
        (i, found)
    }

    /// The value under `key`, if there is one.
    pub fn get(&self, key: &str) -> (r: Option<&V>)
        requires
            self.wf(),
        ensures
            r is Some <==> self@.contains_key(key@),
            r matches Some(v) ==> v@ == self@[key@],
    {
        let (i, found) = self.position(key);
        if found {
            proof {
                map_of_value(self.pairs(), i as int);
            }
            Some(&self.entries[i].1)
        } else {
            None
        }
    }

    /// Puts `value` under `key` and returns what stood there before.
    pub fn insert(&mut self, key: String, value: V) -> (r: Option<V>)
        requires
            old(self).wf(),
        ensures
            final(self).wf(),
            final(self)@ == old(self)@.insert(key@, value@),
            r is Some <==> old(self)@.contains_key(key@),
            r matches Some(v) ==> v@ == old(self)@[key@],
    {
        let (i, found) = self.position(key.as_str());
        let ghost before = self.pairs();
        let ghost k = key@;
        let ghost w = value@;
        if found {
            let mut value = value;
            std::mem::swap(&mut self.entries[i].1, &mut value);
            proof {
                map_of_value(before, i as int);
                update_at(before, i as int, w);
                assert(self.pairs() =~= before.update(i as int, (before[i as int].0, w)));
            }
            Some(value)
        } else {
            self.entries.insert(i, (key, value));
            proof {
                insert_at(before, i as int, k, w);
                assert(self.pairs() =~= before.insert(i as int, (k, w)));
            }
            None
        }
    }

    /// Takes `key` out and returns what stood there.
    pub fn remove(&mut self, key: &str) -> (r: Option<V>)
        requires
            old(self).wf(),
        ensures
            final(self).wf(),
            final(self)@ == old(self)@.remove(key@),
            r is Some <==> old(self)@.contains_key(key@),
            r matches Some(v) ==> v@ == old(self)@[key@],
    {
        let (i, found) = self.position(key);
        let ghost before = self.pairs();
        if found {
            let (_, value) = self.entries.remove(i);
            proof {
                map_of_value(before, i as int);
                remove_at(before, i as int);
                assert(self.pairs() =~= before.remove(i as int));
            }
            Some(value)
        } else {
            assert(self@ =~= self@.remove(key@));
            None
        }
    }

    /// The pairs of a map are the sorted pairs of its view.
    pub proof fn pairs_are_sorted(&self)
        requires
            self.wf(),
        ensures
            self.pairs() == sorted_pairs(self@),
    {
        ascending_pairs_unique(self.pairs(), sorted_pairs(self@));
    }
}

impl Clone for OrderedMap<String> {
    fn clone(&self) -> (r: Self)
        ensures
            r.pairs() == self.pairs(),
            r@ == self@,
            self.wf() ==> r.wf(),
    {
        let mut entries: Vec<(String, String)> = Vec::new();
        let mut i: usize = 0;
        while i < self.entries.len()
            invariant
                i <= self.entries@.len(),
                entries@.len() == i,
                forall|k: int| 0 <= k < i ==> #[trigger] entries@[k] == self.entries@[k],
            decreases self.entries@.len() - i,
        {
            entries.push((self.entries[i].0.clone(), self.entries[i].1.clone()));
            i += 1;
        }
        let r = OrderedMap { entries };
        assert(r.pairs() =~= self.pairs());
        r
    }
}

} // verus!
