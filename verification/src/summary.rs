//! The mathematics of the aggregation: what the statistics of a station are,
//! what a table of stations is after a sequence of observations, and why
//! neither depends on the order of arrival.

use crate::lexical::lemma_lex_asymmetric;
use crate::lexical::lemma_lex_irreflexive;
use crate::lexical::lemma_lex_total;
use crate::lexical::lex_lt;
use vstd::prelude::*;

verus! {

/// The statistics of one station: the least and the greatest reading, the
/// sum of the readings and their number. Readings are whole numbers of units.
pub struct Summary {
    pub min: int,
    pub max: int,
    pub sum: int,
    pub count: nat,
}

/// The least of `values`.
pub open spec fn minimum(values: Seq<int>) -> int
    recommends
        values.len() > 0,
    decreases values.len(),
{
    if values.len() <= 1 {
        values[0]
    } else if values.last() < minimum(values.drop_last()) {
        values.last()
    } else {
        minimum(values.drop_last())
    }
}

/// The greatest of `values`.
pub open spec fn maximum(values: Seq<int>) -> int
    recommends
        values.len() > 0,
    decreases values.len(),
{
    if values.len() <= 1 {
        values[0]
    } else if values.last() > maximum(values.drop_last()) {
        values.last()
    } else {
        maximum(values.drop_last())
    }
}

/// The sum of `values`.
pub open spec fn total(values: Seq<int>) -> int
    decreases values.len(),
{
    if values.len() == 0 {
        0
    } else {
        total(values.drop_last()) + values.last()
    }
}

impl Summary {
    /// The statistics of a station with the one reading `v`.
    pub open spec fn single(v: int) -> Summary {
        Summary { min: v, max: v, sum: v, count: 1 }
    }

    /// The statistics after one more reading `v`.
    pub open spec fn with(self, v: int) -> Summary {
        Summary {
            min: if v < self.min {
                v
            } else {
                self.min
            },
            max: if v > self.max {
                v
            } else {
                self.max
            },
            sum: self.sum + v,
            count: self.count + 1,
        }
    }

    /// The statistics of a station with the readings `values`.
    pub open spec fn of(values: Seq<int>) -> Summary
        recommends
            values.len() > 0,
    {
        Summary {
            min: minimum(values),
            max: maximum(values),
            sum: total(values),
            count: values.len(),
        }
    }

    /// What holds of the statistics of any readings: there is at least one
    /// reading, and the mean lies between the least and the greatest.
    pub open spec fn well_formed(self) -> bool {
        &&& self.count >= 1
        &&& self.min <= self.max
        &&& self.count * self.min <= self.sum <= self.count * self.max
    }
}

/// [`minimum`] is one of the values, and none is less.
pub proof fn lemma_minimum_is_least(values: Seq<int>)
    requires
        values.len() > 0,
    ensures
        values.contains(minimum(values)),
        forall|i: int| 0 <= i < values.len() ==> minimum(values) <= values[i],
    decreases values.len(),
{
    if values.len() <= 1 {
        assert(values[0] == minimum(values));
    } else {
        let front = values.drop_last();
        lemma_minimum_is_least(front);
        let j = choose|j: int| 0 <= j < front.len() && front[j] == minimum(front);
        assert(values[j] == front[j]);
        assert(values[values.len() - 1] == values.last());
        assert forall|i: int| 0 <= i < values.len() implies minimum(values) <= values[i] by {
            if i < front.len() {
                assert(values[i] == front[i]);
            }
        }
    }
}

/// [`maximum`] is one of the values, and none is greater.
pub proof fn lemma_maximum_is_greatest(values: Seq<int>)
    requires
        values.len() > 0,
    ensures
        values.contains(maximum(values)),
        forall|i: int| 0 <= i < values.len() ==> maximum(values) >= values[i],
    decreases values.len(),
{
    if values.len() <= 1 {
        assert(values[0] == maximum(values));
    } else {
        let front = values.drop_last();
        lemma_maximum_is_greatest(front);
        let j = choose|j: int| 0 <= j < front.len() && front[j] == maximum(front);
        assert(values[j] == front[j]);
        assert(values[values.len() - 1] == values.last());
        assert forall|i: int| 0 <= i < values.len() implies maximum(values) >= values[i] by {
            if i < front.len() {
                assert(values[i] == front[i]);
            }
        }
    }
}

/// One more reading changes the statistics as [`Summary::with`] says.
pub proof fn lemma_summary_push(values: Seq<int>, v: int)
    requires
        values.len() > 0,
    ensures
        Summary::of(values.push(v)) == Summary::of(values).with(v),
{
    assert(values.push(v).drop_last() =~= values);
}

/// The statistics of any readings are well formed.
pub proof fn lemma_summary_well_formed(values: Seq<int>)
    requires
        values.len() > 0,
    ensures
        Summary::of(values).well_formed(),
    decreases values.len(),
{
    if values.len() > 1 {
        let front = values.drop_last();
        lemma_summary_well_formed(front);
        assert(values =~= front.push(values.last()));
        lemma_summary_push(front, values.last());
        lemma_with_well_formed(Summary::of(front), values.last());
    } else {
        assert(total(values.drop_last()) == 0);
    }
}

/// One more reading keeps statistics well formed.
pub proof fn lemma_with_well_formed(s: Summary, v: int)
    requires
        s.well_formed(),
    ensures
        s.with(v).well_formed(),
{
    let t = s.with(v);
    assert(s.count * t.min <= s.count * s.min) by (nonlinear_arith)
        requires
            t.min <= s.min,
    ;
    assert(s.count * t.max >= s.count * s.max) by (nonlinear_arith)
        requires
            t.max >= s.max,
    ;
    assert(t.count * t.min == s.count * t.min + t.min) by (nonlinear_arith)
        requires
            t.count == s.count + 1,
    ;
    assert(t.count * t.max == s.count * t.max + t.max) by (nonlinear_arith)
        requires
            t.count == s.count + 1,
    ;
}

/// The table after one more observation: a station seen for the first time
/// gets the statistics of the one reading, a known one gets the reading added.
pub open spec fn observe(table: Map<Seq<u8>, Summary>, key: Seq<u8>, value: int) -> Map<
    Seq<u8>,
    Summary,
> {
    if table.contains_key(key) {
        table.insert(key, table[key].with(value))
    } else {
        table.insert(key, Summary::single(value))
    }
}

/// The table after the observations `obs`, in their order.
pub open spec fn observe_all(table: Map<Seq<u8>, Summary>, obs: Seq<(Seq<u8>, int)>) -> Map<
    Seq<u8>,
    Summary,
>
    decreases obs.len(),
{
    if obs.len() == 0 {
        table
    } else {
        observe(observe_all(table, obs.drop_last()), obs.last().0, obs.last().1)
    }
}

/// The readings that `obs` holds for the station `key`, in their order.
pub open spec fn values_for(obs: Seq<(Seq<u8>, int)>, key: Seq<u8>) -> Seq<int>
    decreases obs.len(),
{
    if obs.len() == 0 {
        Seq::empty()
    } else if obs.last().0 == key {
        values_for(obs.drop_last(), key).push(obs.last().1)
    } else {
        values_for(obs.drop_last(), key)
    }
}

/// The stations that occur in `obs`.
pub open spec fn keys_of(obs: Seq<(Seq<u8>, int)>) -> Set<Seq<u8>> {
    Set::new(|k: Seq<u8>| exists|i: int| 0 <= i < obs.len() && (#[trigger] obs[i]).0 == k)
}

/// After any observations, starting from nothing, the table holds a station
/// exactly if a reading of it was observed, and its statistics are those of
/// its readings: the least, the greatest, their sum and their number.
pub proof fn lemma_observe_all_summarizes(obs: Seq<(Seq<u8>, int)>, key: Seq<u8>)
    ensures
        observe_all(Map::empty(), obs).contains_key(key) <==> values_for(obs, key).len() > 0,
        observe_all(Map::empty(), obs).contains_key(key) ==> observe_all(Map::empty(), obs)[key]
            == Summary::of(values_for(obs, key)),
    decreases obs.len(),
{
    if obs.len() > 0 {
        let front = obs.drop_last();
        lemma_observe_all_summarizes(front, key);
        let values = values_for(front, key);
        if obs.last().0 == key {
            if values.len() > 0 {
                lemma_summary_push(values, obs.last().1);
            } else {
                assert(values.push(obs.last().1).drop_last() =~= values);
                assert(total(values) == 0);
            }
        }
    }
}

/// After any observations, starting from nothing, the stations of the table
/// are those that occur in the observations, and they are finitely many.
pub proof fn lemma_observe_all_keys(obs: Seq<(Seq<u8>, int)>)
    ensures
        observe_all(Map::empty(), obs).dom() == keys_of(obs),
        observe_all(Map::empty(), obs).dom().finite(),
    decreases obs.len(),
{
    let table = observe_all(Map::empty(), obs);
    if obs.len() == 0 {
        assert(table.dom() =~= keys_of(obs));
    } else {
        let front = obs.drop_last();
        lemma_observe_all_keys(front);
        assert forall|k: Seq<u8>| table.dom().contains(k) <==> keys_of(obs).contains(k) by {
            if keys_of(obs).contains(k) {
                let i = choose|i: int| 0 <= i < obs.len() && (#[trigger] obs[i]).0 == k;
                if i < front.len() {
                    assert(front[i].0 == k);
                }
            }
            if keys_of(front).contains(k) {
                let i = choose|i: int| 0 <= i < front.len() && (#[trigger] front[i]).0 == k;
                assert(obs[i].0 == k);
            }
            if obs.last().0 == k {
                assert(obs[obs.len() - 1].0 == k);
            }
        }
        assert(table.dom() =~= keys_of(obs));
    }
}

/// Two observations may change places.
pub proof fn lemma_observe_commutes(
    table: Map<Seq<u8>, Summary>,
    a: (Seq<u8>, int),
    b: (Seq<u8>, int),
)
    ensures
        observe(observe(table, a.0, a.1), b.0, b.1) == observe(observe(table, b.0, b.1), a.0, a.1),
{
    assert(observe(observe(table, a.0, a.1), b.0, b.1) =~= observe(
        observe(table, b.0, b.1),
        a.0,
        a.1,
    ));
}

/// The table is the same whether the observation at `i` arrives in its place
/// or last.
proof fn lemma_observe_all_move_last(table: Map<Seq<u8>, Summary>, obs: Seq<(Seq<u8>, int)>, i: int)
    requires
        0 <= i < obs.len(),
    ensures
        observe_all(table, obs.remove(i).push(obs[i])) == observe_all(table, obs),
    decreases obs.len(),
{
    let moved = obs.remove(i).push(obs[i]);
    assert(moved.drop_last() =~= obs.remove(i));
    if i == obs.len() - 1 {
        assert(moved =~= obs);
    } else {
        let front = obs.drop_last();
        lemma_observe_all_move_last(table, front, i);
        let inner = front.remove(i);
        let base = observe_all(table, inner);
        assert(obs.remove(i).drop_last() =~= inner);
        assert(obs.remove(i).last() == obs.last());
        assert(observe_all(table, obs.remove(i)) == observe(base, obs.last().0, obs.last().1));
        assert(inner.push(front[i]).drop_last() =~= inner);
        assert(observe_all(table, inner.push(front[i])) == observe(base, obs[i].0, obs[i].1));
        lemma_observe_commutes(base, obs.last(), obs[i]);
    }
}

/// The table does not depend on the order in which the observations arrive.
pub proof fn lemma_observe_all_permutation(
    table: Map<Seq<u8>, Summary>,
    a: Seq<(Seq<u8>, int)>,
    b: Seq<(Seq<u8>, int)>,
)
    requires
        a.to_multiset() == b.to_multiset(),
    ensures
        observe_all(table, a) == observe_all(table, b),
    decreases b.len(),
{
    a.to_multiset_ensures();
    b.to_multiset_ensures();
    if b.len() > 0 {
        let x = b.last();
        assert(b[b.len() - 1] == x);
        assert(b.contains(x));
        assert(b.to_multiset().count(x) > 0);
        assert(a.to_multiset().count(x) > 0);
        assert(a.contains(x));
        let i = choose|i: int| 0 <= i < a.len() && a[i] == x;
        assert(b.drop_last() =~= b.remove(b.len() - 1));
        lemma_observe_all_permutation(table, a.remove(i), b.drop_last());
        lemma_observe_all_move_last(table, a, i);
        assert(a.remove(i).push(x).drop_last() =~= a.remove(i));
    } else {
        assert(a.len() == 0);
    }
}

/// The table that holds, for each entry, its statistics under its name.
pub open spec fn table_of(entries: Seq<(Seq<u8>, Summary)>) -> Map<Seq<u8>, Summary>
    decreases entries.len(),
{
    if entries.len() == 0 {
        Map::empty()
    } else {
        table_of(entries.drop_last()).insert(entries.last().0, entries.last().1)
    }
}

/// The entries stand in strictly ascending order of their names, so that no
/// name occurs twice.
pub open spec fn strictly_sorted(entries: Seq<(Seq<u8>, Summary)>) -> bool {
    forall|i: int, j: int|
        0 <= i < j < entries.len() ==> lex_lt((#[trigger] entries[i]).0, (#[trigger] entries[j]).0)
}

/// Sorted entries without the last of them are sorted.
proof fn lemma_sorted_drop_last(entries: Seq<(Seq<u8>, Summary)>)
    requires
        strictly_sorted(entries),
        entries.len() > 0,
    ensures
        strictly_sorted(entries.drop_last()),
{
    let front = entries.drop_last();
    assert forall|a: int, b: int| 0 <= a < b < front.len() implies lex_lt(
        (#[trigger] front[a]).0,
        (#[trigger] front[b]).0,
    ) by {
        assert(front[a] == entries[a] && front[b] == entries[b]);
    }
}

/// A table holds a station exactly if one of its entries bears the name.
pub proof fn lemma_table_of_contains(entries: Seq<(Seq<u8>, Summary)>, key: Seq<u8>)
    ensures
        table_of(entries).contains_key(key) <==> exists|i: int|
            0 <= i < entries.len() && (#[trigger] entries[i]).0 == key,
    decreases entries.len(),
{
    if entries.len() > 0 {
        let front = entries.drop_last();
        lemma_table_of_contains(front, key);
        if exists|i: int| 0 <= i < front.len() && (#[trigger] front[i]).0 == key {
            let i = choose|i: int| 0 <= i < front.len() && (#[trigger] front[i]).0 == key;
            assert(entries[i].0 == key);
        }
        if exists|i: int| 0 <= i < entries.len() && (#[trigger] entries[i]).0 == key {
            let i = choose|i: int| 0 <= i < entries.len() && (#[trigger] entries[i]).0 == key;
            if i < front.len() {
                assert(front[i].0 == key);
            }
        }
        if entries.last().0 == key {
            assert(entries[entries.len() - 1].0 == key);
        }
    }
}

/// A table of sorted entries holds each entry's statistics under its name.
pub proof fn lemma_table_of_lookup(entries: Seq<(Seq<u8>, Summary)>, i: int)
    requires
        strictly_sorted(entries),
        0 <= i < entries.len(),
    ensures
        table_of(entries).contains_key(entries[i].0),
        table_of(entries)[entries[i].0] == entries[i].1,
    decreases entries.len(),
{
    if i < entries.len() - 1 {
        let front = entries.drop_last();
        lemma_sorted_drop_last(entries);
        lemma_table_of_lookup(front, i);
        assert(lex_lt(entries[i].0, entries[entries.len() - 1].0));
        lemma_lex_irreflexive(entries[i].0);
    }
}

/// A table of sorted entries has as many stations as there are entries.
pub proof fn lemma_table_of_len(entries: Seq<(Seq<u8>, Summary)>)
    requires
        strictly_sorted(entries),
    ensures
        table_of(entries).dom().finite(),
        table_of(entries).dom().len() == entries.len(),
    decreases entries.len(),
{
    if entries.len() > 0 {
        let front = entries.drop_last();
        let last = entries[entries.len() - 1];
        lemma_sorted_drop_last(entries);
        lemma_table_of_len(front);
        lemma_table_of_contains(front, last.0);
        if table_of(front).contains_key(last.0) {
            let i = choose|i: int| 0 <= i < front.len() && (#[trigger] front[i]).0 == last.0;
            assert(lex_lt(entries[i].0, last.0));
            lemma_lex_irreflexive(last.0);
        }
        assert(table_of(entries).dom() =~= table_of(front).dom().insert(last.0));
    }
}

/// Placing a new name where the order wants it adds it to the table and
/// keeps the entries sorted.
pub proof fn lemma_table_of_insert(
    entries: Seq<(Seq<u8>, Summary)>,
    at: int,
    key: Seq<u8>,
    summary: Summary,
)
    requires
        strictly_sorted(entries),
        0 <= at <= entries.len(),
        forall|j: int| 0 <= j < at ==> lex_lt((#[trigger] entries[j]).0, key),
        forall|j: int| at <= j < entries.len() ==> lex_lt(key, (#[trigger] entries[j]).0),
    ensures
        strictly_sorted(entries.insert(at, (key, summary))),
        table_of(entries.insert(at, (key, summary))) == table_of(entries).insert(key, summary),
        !table_of(entries).contains_key(key),
{
    let grown = entries.insert(at, (key, summary));
    assert forall|i: int, j: int| 0 <= i < j < grown.len() implies lex_lt(
        (#[trigger] grown[i]).0,
        (#[trigger] grown[j]).0,
    ) by {
        let a = if i < at {
            i
        } else {
            i - 1
        };
        let b = if j < at {
            j
        } else {
            j - 1
        };
        if i != at && j != at {
            assert(grown[i] == entries[a] && grown[j] == entries[b]);
        } else if i == at {
            assert(grown[j] == entries[b]);
        } else {
            assert(grown[i] == entries[a]);
        }
    }
    lemma_table_of_contains(entries, key);
    if table_of(entries).contains_key(key) {
        let i = choose|i: int| 0 <= i < entries.len() && (#[trigger] entries[i]).0 == key;
        lemma_lex_irreflexive(key);
    }
    let left = table_of(grown);
    let right = table_of(entries).insert(key, summary);
    assert forall|k: Seq<u8>| left.contains_key(k) <==> right.contains_key(k) by {
        lemma_table_of_contains(grown, k);
        lemma_table_of_contains(entries, k);
        if exists|i: int| 0 <= i < entries.len() && (#[trigger] entries[i]).0 == k {
            let i = choose|i: int| 0 <= i < entries.len() && (#[trigger] entries[i]).0 == k;
            let g = if i < at {
                i
            } else {
                i + 1
            };
            assert(grown[g].0 == k);
        }
        if exists|i: int| 0 <= i < grown.len() && (#[trigger] grown[i]).0 == k {
            let i = choose|i: int| 0 <= i < grown.len() && (#[trigger] grown[i]).0 == k;
            if i != at {
                let e = if i < at {
                    i
                } else {
                    i - 1
                };
                assert(entries[e].0 == k);
            }
        }
        assert(grown[at].0 == key);
    }
    assert forall|k: Seq<u8>| left.contains_key(k) implies left[k] == right[k] by {
        lemma_table_of_contains(grown, k);
        let i = choose|i: int| 0 <= i < grown.len() && (#[trigger] grown[i]).0 == k;
        lemma_table_of_lookup(grown, i);
        if i != at {
            let e = if i < at {
                i
            } else {
                i - 1
            };
            assert(grown[i] == entries[e]);
            lemma_table_of_lookup(entries, e);
        }
    }
    assert(left =~= right);
}

/// Replacing the statistics of an entry replaces them in the table and keeps
/// the entries sorted.
pub proof fn lemma_table_of_update(entries: Seq<(Seq<u8>, Summary)>, at: int, summary: Summary)
    requires
        strictly_sorted(entries),
        0 <= at < entries.len(),
    ensures
        strictly_sorted(entries.update(at, (entries[at].0, summary))),
        table_of(entries.update(at, (entries[at].0, summary))) == table_of(entries).insert(
            entries[at].0,
            summary,
        ),
{
    let key = entries[at].0;
    let changed = entries.update(at, (key, summary));
    assert forall|i: int, j: int| 0 <= i < j < changed.len() implies lex_lt(
        (#[trigger] changed[i]).0,
        (#[trigger] changed[j]).0,
    ) by {
        assert(changed[i].0 == entries[i].0 && changed[j].0 == entries[j].0);
    }
    let left = table_of(changed);
    let right = table_of(entries).insert(key, summary);
    assert forall|k: Seq<u8>| left.contains_key(k) <==> right.contains_key(k) by {
        lemma_table_of_contains(changed, k);
        lemma_table_of_contains(entries, k);
        if exists|i: int| 0 <= i < entries.len() && (#[trigger] entries[i]).0 == k {
            let i = choose|i: int| 0 <= i < entries.len() && (#[trigger] entries[i]).0 == k;
            assert(changed[i].0 == k);
        }
        if exists|i: int| 0 <= i < changed.len() && (#[trigger] changed[i]).0 == k {
            let i = choose|i: int| 0 <= i < changed.len() && (#[trigger] changed[i]).0 == k;
            assert(entries[i].0 == k);
        }
        assert(changed[at].0 == key);
    }
    assert forall|k: Seq<u8>| left.contains_key(k) implies left[k] == right[k] by {
        lemma_table_of_contains(changed, k);
        let i = choose|i: int| 0 <= i < changed.len() && (#[trigger] changed[i]).0 == k;
        lemma_table_of_lookup(changed, i);
        if i != at {
            assert(changed[i] == entries[i]);
            lemma_table_of_lookup(entries, i);
            if k == key {
                assert(lex_lt(entries[i].0, entries[at].0) || lex_lt(entries[at].0, entries[i].0));
                lemma_lex_irreflexive(key);
            }
        }
    }
    assert(left =~= right);
}

/// A table has one report only: sorted entries are determined by the table
/// that they make, whatever the order in which its stations arrived.
pub proof fn lemma_sorted_entries_unique(a: Seq<(Seq<u8>, Summary)>, b: Seq<(Seq<u8>, Summary)>)
    requires
        strictly_sorted(a),
        strictly_sorted(b),
        table_of(a) == table_of(b),
    ensures
        a == b,
    decreases a.len(),
{
    lemma_table_of_len(a);
    lemma_table_of_len(b);
    if a.len() == 0 {
        assert(a =~= b);
    } else {
        let n = a.len() - 1;
        let x = a[n];
        let y = b[n];
        lemma_table_of_lookup(a, n);
        lemma_table_of_lookup(b, n);
        lemma_table_of_contains(a, y.0);
        lemma_table_of_contains(b, x.0);
        let i = choose|i: int| 0 <= i < a.len() && (#[trigger] a[i]).0 == y.0;
        let j = choose|j: int| 0 <= j < b.len() && (#[trigger] b[j]).0 == x.0;
        lemma_lex_total(x.0, y.0);
        if lex_lt(x.0, y.0) {
            assert(i == n || lex_lt(a[i].0, a[n].0));
            lemma_lex_asymmetric(x.0, y.0);
            lemma_lex_irreflexive(x.0);
        }
        if lex_lt(y.0, x.0) {
            assert(j == n || lex_lt(b[j].0, b[n].0));
            lemma_lex_asymmetric(y.0, x.0);
            lemma_lex_irreflexive(y.0);
        }
        assert(x == y);
        let front_a = a.drop_last();
        let front_b = b.drop_last();
        lemma_sorted_drop_last(a);
        lemma_sorted_drop_last(b);
        lemma_table_of_contains(front_a, x.0);
        lemma_table_of_contains(front_b, x.0);
        if table_of(front_a).contains_key(x.0) {
            let k = choose|k: int| 0 <= k < front_a.len() && (#[trigger] front_a[k]).0 == x.0;
            assert(lex_lt(a[k].0, a[n].0));
            lemma_lex_irreflexive(x.0);
        }
        if table_of(front_b).contains_key(x.0) {
            let k = choose|k: int| 0 <= k < front_b.len() && (#[trigger] front_b[k]).0 == x.0;
            assert(lex_lt(b[k].0, b[n].0));
            lemma_lex_irreflexive(x.0);
        }
        assert(table_of(front_a) =~= table_of(a).remove(x.0));
        assert(table_of(front_b) =~= table_of(b).remove(x.0));
        lemma_sorted_entries_unique(front_a, front_b);
        assert(a =~= front_a.push(x));
        assert(b =~= front_b.push(y));
    }
}

} // verus!
