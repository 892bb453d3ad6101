//! The summary kept for one key, and the fold that combines summaries.

use vstd::prelude::*;

verus! {

/// The mathematical summary of a collection of values: unbounded integers,
/// so that the fold's laws hold without side conditions.
pub struct Summary {
    pub min: int,
    pub max: int,
    pub sum: int,
    pub count: nat,
}

impl Summary {
    /// The summary of no values: the identity of `combine` over `i64` values.
    pub open spec fn empty() -> Summary {
        Summary { min: i64::MAX as int, max: i64::MIN as int, sum: 0, count: 0 }
    }

    /// The summary of the one value `v`.
    pub open spec fn single(v: int) -> Summary {
        Summary { min: v, max: v, sum: v, count: 1 }
    }

    /// The fold of two summaries.
    pub open spec fn combine(self, other: Summary) -> Summary {
        Summary {
            min: if other.min < self.min { other.min } else { self.min },
            max: if other.max > self.max { other.max } else { self.max },
            sum: self.sum + other.sum,
            count: self.count + other.count,
        }
    }

    /// The fold of one more value into a summary.
    pub open spec fn record(self, v: int) -> Summary {
        self.combine(Summary::single(v))
    }

    /// The summary of `values`, folded one by one from the left.
    pub open spec fn of(values: Seq<i64>) -> Summary
        decreases values.len(),
    {
        if values.len() == 0 {
            Summary::empty()
        } else {
            Summary::of(values.drop_last()).record(values.last() as int)
        }
    }
}

/// The summary of the values seen for one key. Values are fixed-point
/// numbers held as `i64`; the sum has room for `u64::MAX` of them.
#[derive(Clone, Copy, Debug, PartialEq, Eq, Structural)]
pub struct Stats {
    pub min: i64,
    pub max: i64,
    pub sum: i128,
    pub count: u64,
}

impl View for Stats {
    type V = Summary;

    open spec fn view(&self) -> Summary {
        Summary {
            min: self.min as int,
            max: self.max as int,
            sum: self.sum as int,
            count: self.count as nat,
        }
    }
}

impl Stats {
    /// Holds of every summary that `new`, `record` and `merge` build: with
    /// no value it is the identity, with one or more `min <= max`, and the
    /// sum lies between `count` times the least and the greatest `i64`.
    pub open spec fn wf(&self) -> bool {
        &&& self.count == 0 ==> self@ == Summary::empty()
        &&& self.count > 0 ==> self.min <= self.max
        &&& self.count * (i64::MIN as int) <= self.sum <= self.count * (i64::MAX as int)
    }

    /// The summary of no values.
    pub fn new() -> (s: Stats)
        ensures
            s@ == Summary::empty(),
            s.wf(),
    {
        Stats { min: i64::MAX, max: i64::MIN, sum: 0, count: 0 }
    }

    /// Folds one value into the summary.
    pub fn record(self, value: i64) -> (s: Stats)
        requires
            self.wf(),
            self.count < u64::MAX,
        ensures
            s@ == self@.record(value as int),
            s.wf(),
    {
        Stats {
            min: if value < self.min { value } else { self.min },
            max: if value > self.max { value } else { self.max },
            sum: self.sum + value as i128,
            count: self.count + 1,
        }
    }

    /// Folds two summaries into one.
    pub fn merge(self, other: Stats) -> (s: Stats)
        requires
            self.wf(),
            other.wf(),
            self.count + other.count <= u64::MAX,
        ensures
            s@ == self@.combine(other@),
            s.wf(),
    {
        Stats {
            min: if other.min < self.min { other.min } else { self.min },
            max: if other.max > self.max { other.max } else { self.max },
            sum: self.sum + other.sum,
            count: self.count + other.count,
        }
    }
}

/// The fold is commutative.
pub proof fn lemma_combine_commutes(a: Summary, b: Summary)
    ensures
        a.combine(b) == b.combine(a),
{
}

/// The fold is associative.
pub proof fn lemma_combine_associates(a: Summary, b: Summary, c: Summary)
    ensures
        a.combine(b).combine(c) == a.combine(b.combine(c)),
{
}

/// The empty summary is the identity of the fold on every summary whose
/// extremes are `i64` values.
pub proof fn lemma_combine_identity(a: Summary)
    requires
        i64::MIN <= a.min <= i64::MAX,
        i64::MIN <= a.max <= i64::MAX,
    ensures
        a.combine(Summary::empty()) == a,
        Summary::empty().combine(a) == a,
{
}

/// Folding two groups of values each on its own and combining the two
/// summaries gives the summary of all the values folded in one pass.
pub proof fn lemma_summary_of_groups(a: Seq<i64>, b: Seq<i64>)
    ensures
        Summary::of(a + b) == Summary::of(a).combine(Summary::of(b)),
    decreases b.len(),
{
    lemma_summary_bounds(a);
    if b.len() == 0 {
        assert(a + b =~= a);
    } else {
        assert((a + b).drop_last() =~= a + b.drop_last());
        lemma_summary_of_groups(a, b.drop_last());
    }
}

/// The groups `groups` put together, first to last.
pub open spec fn joined(groups: Seq<Seq<i64>>) -> Seq<i64>
    decreases groups.len(),
{
    if groups.len() == 0 {
        seq![]
    } else {
        joined(groups.drop_last()) + groups.last()
    }
}

/// The fold of the summaries of `groups`, each group summarised on its own.
pub open spec fn summary_of_groups(groups: Seq<Seq<i64>>) -> Summary
    decreases groups.len(),
{
    if groups.len() == 0 {
        Summary::empty()
    } else {
        summary_of_groups(groups.drop_last()).combine(Summary::of(groups.last()))
    }
}

/// However many groups the values are cut into, folding each group on its
/// own and merging the groups' summaries gives the summary of all the
/// values folded in one pass.
pub proof fn lemma_summary_of_partition(groups: Seq<Seq<i64>>)
    ensures
        summary_of_groups(groups) == Summary::of(joined(groups)),
    decreases groups.len(),
{
    if groups.len() > 0 {
        lemma_summary_of_partition(groups.drop_last());
        lemma_summary_of_groups(joined(groups.drop_last()), groups.last());
    }
}

/// Taking one value out of the values and folding it in last changes
/// nothing.
pub proof fn lemma_summary_remove(values: Seq<i64>, j: int)
    requires
        0 <= j < values.len(),
    ensures
        Summary::of(values) == Summary::of(values.remove(j)).record(values[j] as int),
{
    let head = values.take(j);
    let one = seq![values[j]];
    let tail = values.skip(j + 1);
    assert(values =~= head + (one + tail));
    assert(values.remove(j) =~= head + tail);
    assert(one.drop_last() =~= Seq::<i64>::empty());
    assert(Summary::of(one) == Summary::of(one.drop_last()).record(one.last() as int));
    lemma_summary_of_groups(one, tail);
    lemma_summary_of_groups(head, one + tail);
    lemma_summary_of_groups(head, tail);
    lemma_summary_bounds(head);
    lemma_summary_bounds(tail);
}

/// The summary does not depend on the order of the values: the same values,
/// each as often, give the same summary.
pub proof fn lemma_summary_any_order(a: Seq<i64>, b: Seq<i64>)
    requires
        a.to_multiset() == b.to_multiset(),
    ensures
        Summary::of(a) == Summary::of(b),
    decreases a.len(),
{
    broadcast use vstd::seq_lib::to_multiset_len, vstd::seq_lib::to_multiset_contains;

    assert(a.len() == b.len()) by {
        assert(a.to_multiset().len() == a.len());
        assert(b.to_multiset().len() == b.len());
    }
    if a.len() > 0 {
        let x = a.last();
        assert(a.contains(x)) by {
            assert(a[a.len() - 1] == x);
        }
        assert(a.to_multiset().count(x) > 0);
        assert(b.to_multiset().count(x) > 0);
        assert(b.contains(x));
        let j = choose|j: int| 0 <= j < b.len() && b[j] == x;
        vstd::seq_lib::to_multiset_remove(a, a.len() - 1);
        vstd::seq_lib::to_multiset_remove(b, j);
        assert(a.remove(a.len() - 1) =~= a.drop_last());
        lemma_summary_any_order(a.drop_last(), b.remove(j));
        lemma_summary_remove(b, j);
    }
}

/// The extremes of a summary of `i64` values are `i64` values.
pub proof fn lemma_summary_bounds(values: Seq<i64>)
    ensures
        i64::MIN <= Summary::of(values).min <= i64::MAX,
        i64::MIN <= Summary::of(values).max <= i64::MAX,
        Summary::of(values).count == values.len(),
    decreases values.len(),
{
    if values.len() > 0 {
        lemma_summary_bounds(values.drop_last());
    }
}

} // verus!
