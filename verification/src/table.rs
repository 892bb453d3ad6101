//! The mapping from key to summary, and the merge of two such mappings.
//!
//! The mapping is a hash map with the Fx hasher, keyed by `bytes::Bytes`.
//! Verus does not look inside it: its contents have a name, `contents`, and
//! the four operations the library uses are stated over that name.

use vstd::prelude::*;
use std::collections::HashMap;
use rustc_hash::FxBuildHasher;
use bytes::Bytes;
use crate::stats::{Stats, Summary};

verus! {

/// `rustc_hash::FxBuildHasher`, the hasher that the mapping is built with.
/// Nothing is stated of it.
#[verifier::external_type_specification]
#[verifier::external_body]
pub struct ExFxBuildHasher(rustc_hash::FxBuildHasher);

/// `bytes::Bytes`, the owned byte string under which the mapping keeps a
/// key. Nothing is stated of it.
#[verifier::external_type_specification]
#[verifier::external_body]
pub struct ExBytes(bytes::Bytes);

/// What a hash map holds: the summary stored under each key, the key taken
/// as the bytes it holds. `Bytes` hashes and compares by those bytes.
pub uninterp spec fn contents(m: HashMap<Bytes, Stats, FxBuildHasher>) -> Map<Seq<u8>, Stats>;

/// `HashMap::with_hasher` with `rustc_hash::FxBuildHasher`: the new map
/// holds nothing.
#[verifier::external_body]
fn fx_new() -> (m: HashMap<Bytes, Stats, FxBuildHasher>)
    ensures
        contents(m).dom() == Set::<Seq<u8>>::empty(),
{
    HashMap::with_hasher(FxBuildHasher)
}

/// `HashMap::get`: the summary stored under `key`, if there is one.
#[verifier::external_body]
fn fx_get<'a>(m: &'a HashMap<Bytes, Stats, FxBuildHasher>, key: &[u8]) -> (found: Option<&'a Stats>)
    ensures
        found.is_some() == contents(*m).dom().contains(key@),
        found.is_some() ==> *found.unwrap() == contents(*m)[key@],
{
    m.get(key)
}

/// `HashMap::insert` under a key made by `Bytes::copy_from_slice`:
/// afterwards the bytes `key` hold `value`, and every other key what it
/// held before.
#[verifier::external_body]
fn fx_insert(m: &mut HashMap<Bytes, Stats, FxBuildHasher>, key: &[u8], value: Stats)
    ensures
        contents(*final(m)) == contents(*old(m)).insert(key@, value),
{
    m.insert(Bytes::copy_from_slice(key), value);
}

/// `HashMap::iter`, copied out: every key of the map once, each with the
/// summary stored under it, in no stated order.
#[verifier::external_body]
fn fx_entries(m: &HashMap<Bytes, Stats, FxBuildHasher>) -> (entries: Vec<Entry>)
    ensures
        lists(entries@, contents(*m)),
{
    let mut entries = Vec::new();
    for (key, stats) in m.iter() {
        entries.push(Entry { key: key.to_vec(), stats: *stats });
    }
    entries
}

/// One key with its summary.
#[derive(Debug)]
pub struct Entry {
    pub key: Vec<u8>,
    pub stats: Stats,
}

/// `entries` holds every key of `m` exactly once, with the summary that `m`
/// stores under it.
pub open spec fn lists(entries: Seq<Entry>, m: Map<Seq<u8>, Stats>) -> bool {
    &&& forall|i: int, j: int|
        0 <= i < j < entries.len() ==> (#[trigger] entries[i]).key@ != (#[trigger] entries[j]).key@
    &&& forall|i: int|
        0 <= i < entries.len() ==> m.dom().contains((#[trigger] entries[i]).key@) && m[entries[i].key@]
            == entries[i].stats
    &&& forall|k: Seq<u8>|
        m.dom().contains(k) ==> exists|i: int| 0 <= i < entries.len() && (#[trigger] entries[i]).key@ == k
}

/// The summary that `m` gives for `k`: the empty summary for a key it does
/// not hold.
pub open spec fn summary_at(m: Map<Seq<u8>, Summary>, k: Seq<u8>) -> Summary {
    if m.dom().contains(k) {
        m[k]
    } else {
        Summary::empty()
    }
}

/// `m` after one more value `v` for the key `k`.
pub open spec fn record_into(m: Map<Seq<u8>, Summary>, k: Seq<u8>, v: int) -> Map<Seq<u8>, Summary> {
    m.insert(k, summary_at(m, k).record(v))
}

/// The merge of two mappings: the keys of both, each with the fold of what
/// the two hold for it.
pub open spec fn merge_tables(a: Map<Seq<u8>, Summary>, b: Map<Seq<u8>, Summary>) -> Map<
    Seq<u8>,
    Summary,
> {
    Map::new(
        |k: Seq<u8>| a.dom().contains(k) || b.dom().contains(k),
        |k: Seq<u8>| summary_at(a, k).combine(summary_at(b, k)),
    )
}

/// Every summary of `m` has extremes that are `i64` values.
pub open spec fn bounded(m: Map<Seq<u8>, Summary>) -> bool {
    forall|k: Seq<u8>| #[trigger]
        m.dom().contains(k) ==> i64::MIN <= m[k].min <= i64::MAX && i64::MIN <= m[k].max
            <= i64::MAX
}

/// The fold of the mappings `tables` in their order, starting from the
/// mapping without keys.
pub open spec fn merge_all(tables: Seq<Map<Seq<u8>, Summary>>) -> Map<Seq<u8>, Summary>
    decreases tables.len(),
{
    if tables.len() == 0 {
        Map::empty()
    } else {
        merge_tables(merge_all(tables.drop_last()), tables.last())
    }
}

/// No key of `m` has more than `n` values.
pub open spec fn counts_within(m: Map<Seq<u8>, Summary>, n: int) -> bool {
    forall|k: Seq<u8>| #[trigger] m.dom().contains(k) ==> m[k].count <= n
}

/// A mapping from key to summary.
pub struct Table {
    map: HashMap<Bytes, Stats, FxBuildHasher>,
    total: u64,
}

impl View for Table {
    type V = Map<Seq<u8>, Summary>;

    closed spec fn view(&self) -> Map<Seq<u8>, Summary> {
        contents(self.map).map_values(|s: Stats| s@)
    }
}

impl Table {
    /// Every summary in the table is well formed and has at least one value.
    pub closed spec fn entries_wf(&self) -> bool {
        forall|k: Seq<u8>| #[trigger]
            contents(self.map).dom().contains(k) ==> contents(self.map)[k].wf() && contents(
                self.map,
            )[k].count > 0
    }

    /// The number of values that were folded into the table, over all keys.
    pub closed spec fn total(&self) -> nat {
        self.total as nat
    }

    /// Every summary in the table is well formed and has at least one value,
    /// and none has more values than the table has in all.
    pub closed spec fn wf(&self) -> bool {
        self.entries_wf() && counts_within(self@, self.total as int)
    }

    /// In a well-formed table every summary has `i64` extremes, at least one
    /// value and at most `u64::MAX`.
    pub proof fn lemma_wf(&self)
        requires
            self.wf(),
        ensures
            forall|k: Seq<u8>| #[trigger]
                self@.dom().contains(k) ==> {
                    &&& i64::MIN <= self@[k].min <= self@[k].max <= i64::MAX
                    &&& 0 < self@[k].count <= self.total()
                },
            self.total() <= u64::MAX,
    {
    }

    /// The number of values that were folded into the table, over all keys.
    pub fn values(&self) -> (n: u64)
        ensures
            n == self.total(),
    {
        self.total
    }

    /// The table without keys.
    pub fn new() -> (t: Table)
        ensures
            t@ == Map::<Seq<u8>, Summary>::empty(),
            t.total() == 0,
            t.wf(),
    {
        let t = Table { map: fx_new(), total: 0 };
        assert(t@ =~= Map::<Seq<u8>, Summary>::empty());
        t
    }

    /// The summary stored under `key`, if the table holds the key.
    pub fn get(&self, key: &[u8]) -> (found: Option<Stats>)
        ensures
            found.is_some() == self@.dom().contains(key@),
            found.is_some() ==> found.unwrap()@ == self@[key@],
            self.wf() ==> found.is_some() ==> found.unwrap().wf(),
    {
        match fx_get(&self.map, key) {
            Some(stats) => Some(*stats),
            None => None,
        }
    }

    /// The keys of the table with their summaries: each key once, in no
    /// stated order.
    pub fn entries(&self) -> (entries: Vec<Entry>)
        ensures
            forall|i: int, j: int|
                0 <= i < j < entries.len() ==> (#[trigger] entries[i]).key@ != (
                #[trigger] entries[j]).key@,
            forall|i: int|
                0 <= i < entries.len() ==> self@.dom().contains((#[trigger] entries[i]).key@)
                    && self@[entries[i].key@] == entries[i].stats@,
            forall|k: Seq<u8>|
                self@.dom().contains(k) ==> exists|i: int|
                    0 <= i < entries.len() && (#[trigger] entries[i]).key@ == k,
    {
        fx_entries(&self.map)
    }

    /// Folds one more value for `key` into the table.
    pub fn record(&mut self, key: &[u8], value: i64)
        requires
            old(self).wf(),
            old(self).total() < u64::MAX,
        ensures
            final(self).wf(),
            final(self)@ == record_into(old(self)@, key@, value as int),
            final(self).total() == old(self).total() + 1,
    {
        let before = match fx_get(&self.map, key) {
            Some(stats) => *stats,
            None => Stats::new(),
        };
        proof {
            if contents(self.map).dom().contains(key@) {
                assert(self@.dom().contains(key@));
                assert(self@[key@].count <= self.total);
            }
        }
        let after = before.record(value);
        fx_insert(&mut self.map, key, after);
        self.total = self.total + 1;
        assert(self@ =~= record_into(old(self)@, key@, value as int));
    }

    /// Folds the table `other` into this one.
    pub fn merge_from(&mut self, other: &Table)
        requires
            old(self).wf(),
            other.wf(),
            old(self).total() + other.total() <= u64::MAX,
        ensures
            final(self).wf(),
            final(self)@ == merge_tables(old(self)@, other@),
            final(self).total() == old(self).total() + other.total(),
    {
        let entries = fx_entries(&other.map);
        let ghost start = self@;
        let ghost mut done: Set<Seq<u8>> = Set::empty();
        assert(self@ =~= merge_tables(start, other@.restrict(done)));
        let mut i: usize = 0;
        while i < entries.len()
            invariant
                i <= entries.len(),
                self.entries_wf(),
                self.total == old(self).total,
                other.wf(),
                start == old(self)@,
                counts_within(start, old(self).total as int),
                lists(entries@, contents(other.map)),
                old(self).total + other.total <= u64::MAX,
                forall|j: int| 0 <= j < i ==> done.contains((#[trigger] entries[j]).key@),
                forall|j: int| i <= j < entries.len() ==> !done.contains((#[trigger] entries[j]).key@),
                self@ == merge_tables(start, other@.restrict(done)),
            decreases entries.len() - i,
        {
            let ghost before = self@;
            let ghost k = entries[i as int].key@;
            let incoming = entries[i].stats;
            assert(contents(other.map).dom().contains(k));
            assert(other@.dom().contains(k) && other@[k] == incoming@);
            assert(summary_at(start, k).count <= old(self).total) by {
                if start.dom().contains(k) {
                }
            }
            assert(summary_at(other@, k).count <= other.total);
            assert(summary_at(before, k) == summary_at(start, k));
            let ghost old_map = self.map;
            let merged = match fx_get(&self.map, entries[i].key.as_slice()) {
                Some(stats) => stats.merge(incoming),
                None => incoming,
            };
            fx_insert(&mut self.map, entries[i].key.as_slice(), merged);
            proof {
                assert(merged@ == summary_at(start, k).combine(incoming@));
                let ghost narrow = other@.restrict(done);
                let ghost wide = other@.restrict(done.insert(k));
                let ghost target = merge_tables(start, wide);
                assert(contents(self.map) == contents(old_map).insert(k, merged));
                assert forall|q: Seq<u8>| self@.dom().contains(q) == target.dom().contains(
                    q,
                ) by {
                    if q != k {
                        assert(before.dom().contains(q) == self@.dom().contains(q));
                        assert(narrow.dom().contains(q) == wide.dom().contains(q));
                    }
                }
                assert forall|q: Seq<u8>| self@.dom().contains(q) implies self@[q] == target[q] by {
                    if q != k {
                        assert(before.dom().contains(q));
                        assert(self@[q] == before[q]);
                        assert(summary_at(narrow, q) == summary_at(wide, q));
                    } else {
                        assert(summary_at(wide, k) == incoming@);
                    }
                }
                assert(self@ =~= target);
                done = done.insert(k);
            }
            i += 1;
        }
        proof {
            assert(other@.restrict(done) =~= other@);
        }
        self.total = self.total + other.total;
    }
}

/// The merge of two mappings does not depend on their order.
pub proof fn lemma_merge_commutes(a: Map<Seq<u8>, Summary>, b: Map<Seq<u8>, Summary>)
    ensures
        merge_tables(a, b) == merge_tables(b, a),
{
    assert(merge_tables(a, b) =~= merge_tables(b, a));
}

/// Merging three mappings gives the same result however they are grouped.
pub proof fn lemma_merge_associates(
    a: Map<Seq<u8>, Summary>,
    b: Map<Seq<u8>, Summary>,
    c: Map<Seq<u8>, Summary>,
)
    ensures
        merge_tables(merge_tables(a, b), c) == merge_tables(a, merge_tables(b, c)),
{
    assert(merge_tables(merge_tables(a, b), c) =~= merge_tables(a, merge_tables(b, c)));
}

/// Merging with the mapping without keys changes nothing.
pub proof fn lemma_merge_empty(m: Map<Seq<u8>, Summary>)
    requires
        bounded(m),
    ensures
        merge_tables(m, Map::empty()) == m,
        merge_tables(Map::empty(), m) == m,
{
    assert(merge_tables(m, Map::empty()) =~= m);
    assert(merge_tables(Map::empty(), m) =~= m);
}

/// The fold of mappings whose summaries have `i64` extremes has them too.
pub proof fn lemma_merge_all_bounded(tables: Seq<Map<Seq<u8>, Summary>>)
    requires
        forall|i: int| 0 <= i < tables.len() ==> bounded(#[trigger] tables[i]),
    ensures
        bounded(merge_all(tables)),
    decreases tables.len(),
{
    if tables.len() > 0 {
        lemma_merge_all_bounded(tables.drop_last());
        assert(bounded(tables.last()));
    }
}

/// Folding two runs of mappings each on its own and merging the results
/// gives the fold of the two runs put together.
pub proof fn lemma_merge_all_concat(
    a: Seq<Map<Seq<u8>, Summary>>,
    b: Seq<Map<Seq<u8>, Summary>>,
)
    requires
        forall|i: int| 0 <= i < a.len() ==> bounded(#[trigger] a[i]),
    ensures
        merge_all(a + b) == merge_tables(merge_all(a), merge_all(b)),
    decreases b.len(),
{
    if b.len() == 0 {
        assert(a + b =~= a);
        lemma_merge_all_bounded(a);
        lemma_merge_empty(merge_all(a));
    } else {
        assert((a + b).drop_last() =~= a + b.drop_last());
        lemma_merge_all_concat(a, b.drop_last());
        lemma_merge_associates(merge_all(a), merge_all(b.drop_last()), b.last());
    }
}

/// Taking one mapping out of the run and merging it in last changes
/// nothing.
pub proof fn lemma_merge_all_remove(tables: Seq<Map<Seq<u8>, Summary>>, j: int)
    requires
        0 <= j < tables.len(),
        forall|i: int| 0 <= i < tables.len() ==> bounded(#[trigger] tables[i]),
    ensures
        merge_all(tables) == merge_tables(merge_all(tables.remove(j)), tables[j]),
{
    let head = tables.take(j);
    let one = seq![tables[j]];
    let tail = tables.skip(j + 1);
    assert(tables =~= head + (one + tail));
    assert(tables.remove(j) =~= head + tail);
    assert(bounded(tables[j]));
    assert forall|i: int| 0 <= i < head.len() implies bounded(#[trigger] head[i]) by {
        assert(head[i] == tables[i]);
    }
    assert(one.drop_last() =~= Seq::<Map<Seq<u8>, Summary>>::empty());
    assert(merge_all(one) == merge_tables(merge_all(one.drop_last()), one.last()));
    lemma_merge_empty(tables[j]);
    lemma_merge_all_concat(one, tail);
    lemma_merge_all_concat(head, one + tail);
    lemma_merge_all_concat(head, tail);
    lemma_merge_commutes(tables[j], merge_all(tail));
    lemma_merge_associates(merge_all(head), merge_all(tail), tables[j]);
}

/// The order in which the mappings arrive does not matter: the same
/// mappings, each as often, fold to the same mapping.
pub proof fn lemma_merge_all_any_order(
    a: Seq<Map<Seq<u8>, Summary>>,
    b: Seq<Map<Seq<u8>, Summary>>,
)
    requires
        a.to_multiset() == b.to_multiset(),
        forall|i: int| 0 <= i < a.len() ==> bounded(#[trigger] a[i]),
    ensures
        merge_all(a) == merge_all(b),
    decreases a.len(),
{
    broadcast use vstd::seq_lib::to_multiset_len, vstd::seq_lib::to_multiset_contains;

    assert(a.len() == b.len()) by {
        assert(a.to_multiset().len() == a.len());
        assert(b.to_multiset().len() == b.len());
    }
    assert forall|i: int| 0 <= i < b.len() implies bounded(#[trigger] b[i]) by {
        assert(b.contains(b[i]));
        assert(b.to_multiset().count(b[i]) > 0);
        assert(a.to_multiset().count(b[i]) > 0);
        assert(a.contains(b[i]));
    }
    if a.len() > 0 {
        let x = a.last();
        assert(a.contains(x)) by {
            assert(a[a.len() - 1] == x);
        }
        assert(a.to_multiset().count(x) > 0);
        assert(b.to_multiset().count(x) > 0);
        assert(b.contains(x));
        let j = choose|j: int| 0 <= j < b.len() && b[j] == x;
        vstd::seq_lib::to_multiset_remove(a, a.len() - 1);
        vstd::seq_lib::to_multiset_remove(b, j);
        assert(a.remove(a.len() - 1) =~= a.drop_last());
        assert forall|i: int| 0 <= i < a.drop_last().len() implies bounded(
            #[trigger] a.drop_last()[i],
        ) by {
            assert(a.drop_last()[i] == a[i]);
        }
        lemma_merge_all_any_order(a.drop_last(), b.remove(j));
        lemma_merge_all_remove(b, j);
    }
}

} // verus!
