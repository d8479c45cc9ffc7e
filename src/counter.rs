//! The counter: a registry from attribute-set identity to accumulator, with a
//! dedicated accumulator for the empty attribute set and a destructive collect.

use crate::attributes::{
    attrs_view, copy_pairs, lemma_sort_idempotent, lemma_sort_len, lemma_sort_multiset,
    lemma_sort_permutation, sort_by_key, sorted_by_key, MetricAttributes,
};
use crate::common::{KeyValue, KeyValueModel};
use crate::metric::{points_view, Metric, MetricModel};
use crate::metricpoint::{sum_after, MetricPoint};
use vstd::prelude::*;

verus! {

/// A map slot: an attribute sequence and the index of its accumulator.
pub type EntryModel = (Seq<KeyValueModel>, int);

/// Model of a counter: its name, its map slots in insertion order, the sums of
/// its accumulators by index, and the sum of the empty attribute set.
pub struct CounterModel {
    pub name: Seq<char>,
    pub entries: Seq<EntryModel>,
    pub points: Seq<u64>,
    pub zero: u64,
}

/// The slot holding exactly the sequence `a`, if any.
pub open spec fn find_entry(es: Seq<EntryModel>, a: Seq<KeyValueModel>) -> Option<int> {
    if exists|i: int| 0 <= i < es.len() && es[i].0 == a {
        Some(choose|i: int| 0 <= i < es.len() && es[i].0 == a)
    } else {
        None
    }
}

/// Some slot holds the key-sorted form of slot `i`'s sequence, with the same
/// accumulator.
pub open spec fn has_sorted_slot(es: Seq<EntryModel>, i: int) -> bool {
    exists|j: int| 0 <= j < es.len() && es[j].0 == sort_by_key(es[i].0) && es[j].1 == es[i].1
}

impl CounterModel {
    /// Every slot refers to an accumulator; no two slots hold the same
    /// sequence; no slot holds the empty sequence; every slot has a slot for
    /// its key-sorted form that shares its accumulator; and slots that share an
    /// accumulator have one key-sorted form.
    pub open spec fn inv(self) -> bool {
        &&& forall|i: int| 0 <= i < self.entries.len() ==> 0 <= #[trigger] self.entries[i].1 < self.points.len()
        &&& forall|i: int, j: int|
            0 <= i < self.entries.len() && 0 <= j < self.entries.len() && i != j
                ==> #[trigger] self.entries[i].0 != #[trigger] self.entries[j].0
        &&& forall|i: int| 0 <= i < self.entries.len() ==> (#[trigger] self.entries[i]).0.len() > 0
        &&& forall|i: int| 0 <= i < self.entries.len() ==> #[trigger] has_sorted_slot(self.entries, i)
        &&& forall|i: int, j: int|
            0 <= i < self.entries.len() && 0 <= j < self.entries.len() && #[trigger] self.entries[i].1
                == #[trigger] self.entries[j].1 ==> sort_by_key(self.entries[i].0) == sort_by_key(
                self.entries[j].0,
            )
    }

    /// The counter with `value` added to accumulator `p`.
    pub open spec fn bump(self, p: int, value: u32) -> CounterModel {
        CounterModel { points: self.points.update(p, sum_after(self.points[p], value)), ..self }
    }

    /// The counter after `add(value, a)`.
    pub open spec fn after_add(self, value: u32, a: Seq<KeyValueModel>) -> CounterModel {
        if a.len() == 0 {
            CounterModel { zero: sum_after(self.zero, value), ..self }
        } else {
            match find_entry(self.entries, a) {
                Some(i) => self.bump(self.entries[i].1, value),
                None => {
                    let s = sort_by_key(a);
                    match find_entry(self.entries, s) {
                        Some(j) => self.bump(self.entries[j].1, value),
                        None => {
                            let n = self.points.len() as int;
                            CounterModel {
                                entries: if a == s {
                                    self.entries.push((a, n))
                                } else {
                                    self.entries.push((a, n)).push((s, n))
                                },
                                points: self.points.push(sum_after(0, value)),
                                ..self
                            }
                        },
                    }
                },
            }
        }
    }

    /// The snapshot rows: one per slot, in slot order, with the sum of its
    /// accumulator, then the empty attribute set with its own sum.
    pub open spec fn rows(self) -> Seq<(Seq<KeyValueModel>, u64)> {
        self.entries.map_values(|e: EntryModel| (e.0, self.points[e.1])).push(
            (Seq::empty(), self.zero),
        )
    }

    /// The counter after a collect: no slots, no accumulators, a zero sum.
    pub open spec fn drained(self) -> CounterModel {
        CounterModel { name: self.name, entries: Seq::empty(), points: Seq::empty(), zero: 0 }
    }
}

struct PointEntry {
    attributes: MetricAttributes,
    point: usize,
}

/// The state of a counter.
pub struct CounterInner {
    metric_points_map: Vec<PointEntry>,
    points: Vec<MetricPoint>,
    zero_attribute_point: MetricPoint,
    name: String,
}

impl View for CounterInner {
    type V = CounterModel;

    closed spec fn view(&self) -> CounterModel {
        CounterModel {
            name: self.name@,
            entries: self.metric_points_map@.map_values(
                |e: PointEntry| (e.attributes@, e.point as int),
            ),
            points: self.points@.map_values(|p: MetricPoint| p@),
            zero: self.zero_attribute_point@,
        }
    }
}

impl CounterInner {
    /// Each stored identity carries its own hash, and the model holds its invariant.
    pub closed spec fn wf(&self) -> bool {
        &&& forall|i: int|
            0 <= i < self.metric_points_map@.len() ==> (
            #[trigger] self.metric_points_map@[i]).attributes.wf()
        &&& self@.inv()
    }

    /// A counter named `name`, with nothing recorded.
    pub fn new(name: String) -> (r: CounterInner)
        ensures
            r.wf(),
            r@ == (CounterModel {
                name: name@,
                entries: Seq::empty(),
                points: Seq::empty(),
                zero: 0,
            }),
    {
        let r = CounterInner {
            metric_points_map: Vec::new(),
            points: Vec::new(),
            zero_attribute_point: MetricPoint::new(),
            name,
        };
        assert(r@.entries =~= Seq::<EntryModel>::empty());
        assert(r@.points =~= Seq::<u64>::empty());
        r
    }

    /// The counter's name.
    pub fn name(&self) -> (r: &String)
        ensures
            r@ == self@.name,
    {
        &self.name
    }

    /// The slot holding exactly the sequence of `attributes`, if any. Slots are
    /// skipped on a differing hash, and compared pair by pair on an equal one.
    fn lookup(&self, attributes: &MetricAttributes) -> (r: Option<usize>)
        requires
            self.wf(),
            attributes.wf(),
        ensures
            r matches Some(i) ==> find_entry(self@.entries, attributes@) == Some(i as int),
            r is None ==> find_entry(self@.entries, attributes@) is None,
    {
        let mut i: usize = 0;
        while i < self.metric_points_map.len()
            invariant
                self.wf(),
                attributes.wf(),
                i <= self.metric_points_map@.len(),
                forall|j: int| 0 <= j < i ==> self@.entries[j].0 != attributes@,
            decreases self.metric_points_map@.len() - i,
        {
            if self.metric_points_map[i].attributes.same_as(attributes) {
                assert(self@.entries[i as int].0 == attributes@);
                return Some(i);
            }
            i += 1;
        }
        None
    }

    /// Adds `value` to the sum of the attribute set `attributes`.
    ///
    /// The empty set goes to its own accumulator. Otherwise the sequence as
    /// given is looked up; on a miss, its key-sorted form is; on a second miss a
    /// new accumulator, holding `value`, is stored under both sequences.
    pub fn add(&mut self, value: u32, attributes: &[KeyValue])
        requires
            old(self).wf(),
        ensures
            final(self).wf(),
            final(self)@ == old(self)@.after_add(value, attrs_view(attributes@)),
    {
        let ghost c = self@;
        if attributes.len() == 0 {
            self.zero_attribute_point.add(value);
            assert(self@.entries =~= c.entries);
            assert(self@.points =~= c.points);
            return;
        }
        let metric_attributes = MetricAttributes::new(attributes);
        match self.lookup(&metric_attributes) {
            Some(i) => {
                let p = self.metric_points_map[i].point;
                assert(self@.entries[i as int].1 == p as int);
                self.add_to_point(p, value);
            },
            None => {
                let sorted = MetricAttributes::new_from_vec(sorted_by_key(attributes));
                match self.lookup(&sorted) {
                    Some(j) => {
                        let p = self.metric_points_map[j].point;
                        assert(self@.entries[j as int].1 == p as int);
                        self.add_to_point(p, value);
                    },
                    None => {
                        self.insert_new(metric_attributes, sorted, value);
                    },
                }
            },
        }
    }

    fn add_to_point(&mut self, p: usize, value: u32)
        requires
            old(self).wf(),
            p < old(self)@.points.len(),
        ensures
            final(self).wf(),
            final(self)@ == old(self)@.bump(p as int, value),
    {
        let ghost c = self@;
        self.points[p].add(value);
        assert(self@.points =~= c.points.update(p as int, sum_after(c.points[p as int], value)));
        assert(self@.entries =~= c.entries);
    }

    fn insert_new(&mut self, given: MetricAttributes, sorted: MetricAttributes, value: u32)
        requires
            old(self).wf(),
            given.wf(),
            sorted.wf(),
            given@.len() > 0,
            sorted@ == sort_by_key(given@),
            find_entry(old(self)@.entries, given@) is None,
            find_entry(old(self)@.entries, sorted@) is None,
        ensures
            final(self).wf(),
            final(self)@ == ({
                let c = old(self)@;
                let n = c.points.len() as int;
                CounterModel {
                    entries: if given@ == sorted@ {
                        c.entries.push((given@, n))
                    } else {
                        c.entries.push((given@, n)).push((sorted@, n))
                    },
                    points: c.points.push(sum_after(0, value)),
                    ..c
                }
            }),
    {
        let ghost c = self@;
        let ghost a = given@;
        let ghost s = sorted@;
        let n = self.points.len();
        let mut mp = MetricPoint::new();
        mp.add(value);
        self.points.push(mp);
        let same = given.same_as(&sorted);
        self.metric_points_map.push(PointEntry { attributes: given, point: n });
        if !same {
            self.metric_points_map.push(PointEntry { attributes: sorted, point: n });
        }
        proof {
            let e = self@.entries;
            assert(self@.points =~= c.points.push(sum_after(0, value)));
            if a == s {
                assert(e =~= c.entries.push((a, n as int)));
            } else {
                assert(e =~= c.entries.push((a, n as int)).push((s, n as int)));
            }
            assert(self@ == c.after_add(value, a));
            lemma_after_add_inv(c, value, a);
        }
    }

    /// The rows that a collect would emit now, leaving the counter as it is.
    pub fn snapshot(&self) -> (r: Metric)
        requires
            self.wf(),
        ensures
            r@ == (MetricModel { name: self@.name, points: self@.rows() }),
    {
        let mut rows: Vec<(Vec<KeyValue>, u64)> = Vec::new();
        let mut i: usize = 0;
        while i < self.metric_points_map.len()
            invariant
                self.wf(),
                i <= self.metric_points_map@.len(),
                rows@.len() == i,
                forall|j: int|
                    0 <= j < i ==> (attrs_view((#[trigger] rows@[j]).0@), rows@[j].1)
                        == self@.rows()[j],
            decreases self.metric_points_map@.len() - i,
        {
            let entry = &self.metric_points_map[i];
            assert(self@.entries[i as int] == (entry.attributes@, entry.point as int));
            assert(0 <= self@.entries[i as int].1 < self@.points.len());
            assert(self@.points[entry.point as int] == self.points@[entry.point as int]@);
            let attributes = copy_pairs(entry.attributes.attributes.as_slice());
            let sum = self.points[entry.point].get_sum();
            rows.push((attributes, sum));
            assert(self@.rows()[i as int] == (entry.attributes@, sum));
            i += 1;
        }
        let zero_row: Vec<KeyValue> = Vec::new();
        assert(attrs_view(zero_row@) =~= Seq::<KeyValueModel>::empty());
        rows.push((zero_row, self.zero_attribute_point.get_sum()));
        assert(self@.rows().len() == rows@.len());
        assert forall|j: int| 0 <= j < rows@.len() implies points_view(rows@)[j] == self@.rows()[j] by {
            assert(points_view(rows@)[j] == (attrs_view(rows@[j].0@), rows@[j].1));
        }
        assert(points_view(rows@) =~= self@.rows());
        Metric::new(self.name.clone(), rows)
    }

    /// Emits one row per slot with the sum of its accumulator, then the empty
    /// attribute set's row; then empties the map and sets the empty set's sum
    /// to zero.
    pub fn collect(&mut self) -> (r: Metric)
        requires
            old(self).wf(),
        ensures
            final(self).wf(),
            r@ == (MetricModel { name: old(self)@.name, points: old(self)@.rows() }),
            final(self)@ == old(self)@.drained(),
    {
        let r = self.snapshot();
        self.metric_points_map.clear();
        self.points.clear();
        self.zero_attribute_point.reset();
        assert(self@.entries =~= Seq::<EntryModel>::empty());
        assert(self@.points =~= Seq::<u64>::empty());
        r
    }
}

/// Adding keeps the model's invariant.
pub proof fn lemma_after_add_inv(c: CounterModel, value: u32, a: Seq<KeyValueModel>)
    requires
        c.inv(),
    ensures
        c.after_add(value, a).inv(),
{
    let d = c.after_add(value, a);
    if a.len() == 0 || find_entry(c.entries, a) is Some || find_entry(c.entries, sort_by_key(a)) is Some {
        assert(d.entries == c.entries);
        assert(d.points.len() == c.points.len());
        assert forall|i: int| 0 <= i < d.entries.len() implies #[trigger] has_sorted_slot(d.entries, i) by {
            assert(has_sorted_slot(c.entries, i));
        }
    } else {
        let s = sort_by_key(a);
        let n = c.points.len() as int;
        let e = d.entries;
        lemma_sort_idempotent(a);
        lemma_sort_len(a);
        assert(forall|i: int| 0 <= i < c.entries.len() ==> c.entries[i].0 != a);
        assert(forall|i: int| 0 <= i < c.entries.len() ==> c.entries[i].0 != s);
        assert forall|i: int| 0 <= i < e.len() implies #[trigger] has_sorted_slot(e, i) by {
            if i < c.entries.len() {
                assert(has_sorted_slot(c.entries, i));
                let j = choose|j: int|
                    0 <= j < c.entries.len() && c.entries[j].0 == sort_by_key(c.entries[i].0)
                        && c.entries[j].1 == c.entries[i].1;
                assert(e[j] == c.entries[j] && e[i] == c.entries[i]);
            } else if a == s {
                assert(e[c.entries.len() as int].0 == sort_by_key(e[i].0));
            } else {
                assert(e[c.entries.len() as int + 1].0 == sort_by_key(e[i].0));
            }
        }
        assert forall|i: int, j: int|
            0 <= i < e.len() && 0 <= j < e.len() && i != j implies #[trigger] e[i].0
            != #[trigger] e[j].0 by {
            if i < c.entries.len() && j >= c.entries.len() {
                assert(c.entries[i].0 != e[j].0);
            }
            if j < c.entries.len() && i >= c.entries.len() {
                assert(c.entries[j].0 != e[i].0);
            }
        }
        assert forall|i: int, j: int|
            0 <= i < e.len() && 0 <= j < e.len() && #[trigger] e[i].1 == #[trigger] e[j].1 implies sort_by_key(
                e[i].0,
            ) == sort_by_key(e[j].0) by {
            if i < c.entries.len() && j < c.entries.len() {
                assert(e[i] == c.entries[i] && e[j] == c.entries[j]);
            } else if i < c.entries.len() {
                assert(e[i] == c.entries[i]);
                assert(c.entries[i].1 < n);
            } else if j < c.entries.len() {
                assert(e[j] == c.entries[j]);
                assert(c.entries[j].1 < n);
            }
        }
        assert forall|i: int| 0 <= i < e.len() implies 0 <= #[trigger] e[i].1 < d.points.len() by {
            if i < c.entries.len() {
                assert(e[i] == c.entries[i]);
            }
        }
    }
}

/// A counter: a name, the accumulators of its labelled series, and the
/// accumulator of the empty attribute set.
pub struct Counter {
    inner: CounterInner,
}

impl View for Counter {
    type V = CounterModel;

    closed spec fn view(&self) -> CounterModel {
        self.inner@
    }
}

/// The counter named `name` with nothing recorded.
pub open spec fn fresh_counter(name: Seq<char>) -> CounterModel {
    CounterModel { name, entries: Seq::empty(), points: Seq::empty(), zero: 0 }
}

/// The snapshot a collect of `c` emits.
pub open spec fn snapshot_of(c: CounterModel) -> MetricModel {
    MetricModel { name: c.name, points: c.rows() }
}

impl Counter {
    /// The state is well formed: see [`CounterInner::wf`].
    pub closed spec fn wf(&self) -> bool {
        self.inner.wf()
    }

    /// A counter named `name`, with nothing recorded.
    pub fn new(name: String) -> (r: Counter)
        ensures
            r.wf(),
            r@ == fresh_counter(name@),
    {
        Counter { inner: CounterInner::new(name) }
    }

    /// The counter's name.
    pub fn name(&self) -> (r: &String)
        ensures
            r@ == self@.name,
    {
        self.inner.name()
    }

    /// Adds `value` to the sum of the attribute set `attributes`.
    pub fn add(&mut self, value: u32, attributes: &[KeyValue])
        requires
            old(self).wf(),
        ensures
            final(self).wf(),
            final(self)@ == old(self)@.after_add(value, attrs_view(attributes@)),
    {
        self.inner.add(value, attributes);
    }

    /// The rows a collect would emit now, leaving the counter as it is.
    pub fn snapshot(&self) -> (r: Metric)
        requires
            self.wf(),
        ensures
            r@ == snapshot_of(self@),
    {
        self.inner.snapshot()
    }

    /// Emits every row and resets the counter: see [`CounterInner::collect`].
    pub fn collect(&mut self) -> (r: Metric)
        requires
            old(self).wf(),
        ensures
            final(self).wf(),
            r@ == snapshot_of(old(self)@),
            final(self)@ == old(self)@.drained(),
    {
        self.inner.collect()
    }
}

/// The empty attribute set and the labelled series never touch: adding under
/// the empty set changes its sum alone, and adding under a non-empty set leaves
/// that sum as it was.
pub proof fn lemma_zero_attribute_isolation(c: CounterModel, value: u32, a: Seq<KeyValueModel>)
    ensures
        a.len() == 0 ==> c.after_add(value, a) == (CounterModel {
            zero: sum_after(c.zero, value),
            ..c
        }),
        a.len() > 0 ==> c.after_add(value, a).zero == c.zero,
{
}

/// A collect right after a collect emits the empty set's row alone, at zero,
/// and leaves the counter as it found it.
pub proof fn lemma_collect_after_collect(c: CounterModel)
    ensures
        c.drained().rows() == seq![(Seq::<KeyValueModel>::empty(), 0u64)],
        c.drained().drained() == c.drained(),
{
    assert(c.drained().rows() =~= seq![(Seq::<KeyValueModel>::empty(), 0u64)]);
}

/// Attribute sequences whose key-sorted forms differ are never merged, whatever
/// their hashes: adding under `a` keeps every slot whose key-sorted form differs
/// from that of `a`, with its sum unchanged.
pub proof fn lemma_distinct_sets_stay_apart(
    c: CounterModel,
    value: u32,
    a: Seq<KeyValueModel>,
    i: int,
)
    requires
        c.inv(),
        0 <= i < c.entries.len(),
        sort_by_key(c.entries[i].0) != sort_by_key(a),
    ensures
        ({
            let d = c.after_add(value, a);
            &&& i < d.entries.len()
            &&& d.entries[i] == c.entries[i]
            &&& d.points[c.entries[i].1] == c.points[c.entries[i].1]
        }),
{
    let p = c.entries[i].1;
    if a.len() > 0 {
        lemma_sort_idempotent(a);
        match find_entry(c.entries, a) {
            Some(k) => {
                assert(c.entries[k].1 != p);
            },
            None => {
                match find_entry(c.entries, sort_by_key(a)) {
                    Some(k) => {
                        assert(c.entries[k].1 != p);
                    },
                    None => {},
                }
            },
        }
    }
}

/// The sum of `values`.
pub open spec fn sum_of(values: Seq<u32>) -> nat
    decreases values.len(),
{
    if values.len() == 0 {
        0
    } else {
        sum_of(values.drop_last()) + values.last() as nat
    }
}

/// The counter after adding `values[k]` under `sets[k]`, for each `k` in order.
pub open spec fn after_adds(c: CounterModel, sets: Seq<Seq<KeyValueModel>>, values: Seq<u32>) -> CounterModel
    decreases sets.len(),
{
    if sets.len() == 0 || values.len() == 0 {
        c
    } else {
        after_adds(c, sets.drop_last(), values.drop_last()).after_add(values.last(), sets.last())
    }
}

proof fn lemma_sum_after_mod(values: Seq<u32>, v: u32)
    ensures
        sum_after(((sum_of(values) % 0x10000000000000000nat) as u64), v) == ((sum_of(values) + v as nat)
            % 0x10000000000000000nat) as u64,
{
    let m = 0x10000000000000000int;
    let x = sum_of(values) as int;
    vstd::arithmetic::div_mod::lemma_add_mod_noop(x, v as int, m);
    vstd::arithmetic::div_mod::lemma_small_mod(v as nat, m as nat);
    vstd::arithmetic::div_mod::lemma_mod_pos_bound(x, m);
}

proof fn lemma_adds_one_set(
    c: CounterModel,
    canon: Seq<KeyValueModel>,
    sets: Seq<Seq<KeyValueModel>>,
    values: Seq<u32>,
)
    requires
        c.entries.len() == 0,
        sets.len() == values.len(),
        forall|k: int| 0 <= k < sets.len() ==> (#[trigger] sets[k]).len() > 0 && sort_by_key(sets[k]) == canon,
    ensures
        after_adds(c, sets, values).inv(),
        sets.len() == 0 ==> after_adds(c, sets, values).entries.len() == 0,
        sets.len() > 0 ==> exists|j: int|
            0 <= j < after_adds(c, sets, values).entries.len()
                && (#[trigger] after_adds(c, sets, values).entries[j]).0 == canon
                && after_adds(c, sets, values).points[after_adds(c, sets, values).entries[j].1]
                == ((sum_of(values) % 0x10000000000000000nat) as u64),
    decreases sets.len(),
{
    if sets.len() > 0 {
        let s1 = sets.drop_last();
        let v1 = values.drop_last();
        assert forall|k: int| 0 <= k < s1.len() implies (#[trigger] s1[k]).len() > 0 && sort_by_key(s1[k]) == canon by {
            assert(s1[k] == sets[k]);
        }
        lemma_adds_one_set(c, canon, s1, v1);
        let d = after_adds(c, s1, v1);
        let a = sets.last();
        let v = values.last();
        assert(sets[sets.len() - 1] == a);
        lemma_sort_idempotent(a);
        lemma_sum_after_mod(v1, v);
        let e = d.after_add(v, a);
        lemma_after_add_inv(d, v, a);
        if s1.len() == 0 {
            assert(sum_of(v1) == 0);
            let n = d.points.len() as int;
            if a == canon {
                assert(e.entries[0].0 == canon && e.entries[0].1 == n);
            } else {
                assert(e.entries[1].0 == canon && e.entries[1].1 == n);
            }
        } else {
            let j = choose|j: int|
                0 <= j < d.entries.len() && (#[trigger] d.entries[j]).0 == canon && d.points[d.entries[j].1]
                    == ((sum_of(v1) % 0x10000000000000000nat) as u64);
            match find_entry(d.entries, a) {
                Some(i) => {
                    assert(has_sorted_slot(d.entries, i));
                    let j2 = choose|j2: int|
                        0 <= j2 < d.entries.len() && d.entries[j2].0 == sort_by_key(d.entries[i].0)
                            && d.entries[j2].1 == d.entries[i].1;
                    assert(j2 == j);
                    assert(e.entries[j] == d.entries[j]);
                },
                None => {
                    assert(find_entry(d.entries, canon) == Some(j));
                    assert(e.entries[j] == d.entries[j]);
                },
            }
        }
    }
}

/// Order independence: starting from a counter with an empty map (new, or just
/// collected), add `values[k]` under `sets[k]`, each an ordering of the pairs
/// of `s`, in which no two pairs share a key unless equal. Then every slot
/// holding an ordering of `s` reports the sum of all the values (wrapping at
/// 2^64), and at least one slot does, once a value was added.
pub proof fn lemma_order_independence(
    c: CounterModel,
    s: Seq<KeyValueModel>,
    sets: Seq<Seq<KeyValueModel>>,
    values: Seq<u32>,
)
    requires
        c.entries.len() == 0,
        s.len() > 0,
        forall|i: int, j: int|
            0 <= i < s.len() && 0 <= j < s.len() && s[i].key == s[j].key ==> s[i] == s[j],
        sets.len() == values.len(),
        forall|k: int| 0 <= k < sets.len() ==> (#[trigger] sets[k]).to_multiset() == s.to_multiset(),
    ensures
        ({
            let d = after_adds(c, sets, values);
            &&& forall|i: int|
                0 <= i < d.entries.len() && (#[trigger] d.entries[i]).0.to_multiset() == s.to_multiset()
                    ==> d.points[d.entries[i].1] == ((sum_of(values) % 0x10000000000000000nat) as u64)
            &&& sets.len() > 0 ==> exists|i: int|
                0 <= i < d.entries.len() && (#[trigger] d.entries[i]).0.to_multiset() == s.to_multiset()
        }),
{
    broadcast use vstd::seq_lib::group_to_multiset_ensures;

    let canon = sort_by_key(s);
    assert forall|k: int| 0 <= k < sets.len() implies (#[trigger] sets[k]).len() > 0 && sort_by_key(sets[k]) == canon by {
        lemma_sort_permutation(sets[k], s);
        assert(sets[k].to_multiset().len() == sets[k].len());
        assert(s.to_multiset().len() == s.len());
    }
    lemma_adds_one_set(c, canon, sets, values);
    let d = after_adds(c, sets, values);
    lemma_sort_multiset(s);
    if sets.len() > 0 {
        let j = choose|j: int|
            0 <= j < d.entries.len() && (#[trigger] d.entries[j]).0 == canon && d.points[d.entries[j].1]
                == ((sum_of(values) % 0x10000000000000000nat) as u64);
        assert(d.entries[j].0.to_multiset() == s.to_multiset());
        assert forall|i: int|
            0 <= i < d.entries.len() && (#[trigger] d.entries[i]).0.to_multiset() == s.to_multiset()
                implies d.points[d.entries[i].1] == ((sum_of(values) % 0x10000000000000000nat) as u64) by {
            lemma_sort_permutation(d.entries[i].0, s);
            assert(has_sorted_slot(d.entries, i));
            let j2 = choose|j2: int|
                0 <= j2 < d.entries.len() && d.entries[j2].0 == sort_by_key(d.entries[i].0)
                    && d.entries[j2].1 == d.entries[i].1;
            assert(j2 == j);
        }
    }
}

} // verus!
