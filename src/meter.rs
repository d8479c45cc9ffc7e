//! The meter: a registry of counters by name.

use crate::attributes::attrs_view;
use crate::common::KeyValue;
use crate::counter::{fresh_counter, snapshot_of, Counter, CounterModel};
use crate::metric::{Metric, MetricModel};
use vstd::prelude::*;

verus! {

/// Model of a meter: its name and its counters in registration order.
pub struct MeterModel {
    pub name: Seq<char>,
    pub counters: Seq<CounterModel>,
}

/// The index of the counter named `name`, if any.
pub open spec fn find_counter(cs: Seq<CounterModel>, name: Seq<char>) -> Option<int> {
    if exists|i: int| 0 <= i < cs.len() && cs[i].name == name {
        Some(choose|i: int| 0 <= i < cs.len() && cs[i].name == name)
    } else {
        None
    }
}

/// The models of a sequence of snapshots, one for one.
pub open spec fn metrics_view(ms: Seq<Metric>) -> Seq<MetricModel> {
    ms.map_values(|m: Metric| m@)
}

impl MeterModel {
    /// No two counters share a name.
    pub open spec fn inv(self) -> bool {
        forall|i: int, j: int|
            0 <= i < self.counters.len() && 0 <= j < self.counters.len() && i != j
                ==> #[trigger] self.counters[i].name != #[trigger] self.counters[j].name
    }

    /// The meter after `create_counter(name)`, and the index returned.
    pub open spec fn after_create(self, name: Seq<char>) -> (MeterModel, int) {
        match find_counter(self.counters, name) {
            Some(i) => (self, i),
            None => (
                MeterModel { counters: self.counters.push(fresh_counter(name)), ..self },
                self.counters.len() as int,
            ),
        }
    }

    /// The snapshots a collect emits, one per counter in registration order.
    pub open spec fn batch(self) -> Seq<MetricModel> {
        self.counters.map_values(|c: CounterModel| snapshot_of(c))
    }

    /// The meter after a collect: every counter drained.
    pub open spec fn drained(self) -> MeterModel {
        MeterModel {
            counters: self.counters.map_values(|c: CounterModel| c.drained()),
            ..self
        }
    }
}

/// The state of a meter.
pub struct MeterInner {
    name: String,
    counters: Vec<Counter>,
}

impl View for MeterInner {
    type V = MeterModel;

    closed spec fn view(&self) -> MeterModel {
        MeterModel { name: self.name@, counters: self.counters@.map_values(|c: Counter| c@) }
    }
}

impl MeterInner {
    /// Every counter is well formed and no two share a name.
    pub closed spec fn wf(&self) -> bool {
        &&& forall|i: int| 0 <= i < self.counters@.len() ==> (#[trigger] self.counters@[i]).wf()
        &&& self@.inv()
    }

    fn new(name: &str) -> (r: MeterInner)
        ensures
            r.wf(),
            r@ == (MeterModel { name: name@, counters: Seq::empty() }),
    {
        let r = MeterInner { name: name.to_string(), counters: Vec::new() };
        assert(r@.counters =~= Seq::<CounterModel>::empty());
        r
    }

    /// The counter named `name`: the one registered earlier, if any, else a new
    /// one, registered now. Returns its index.
    pub fn create_counter(&mut self, name: &str) -> (r: usize)
        requires
            old(self).wf(),
        ensures
            final(self).wf(),
            (final(self)@, r as int) == old(self)@.after_create(name@),
    {
        let wanted = name.to_string();
        let mut i: usize = 0;
        while i < self.counters.len()
            invariant
                self.wf(),
                wanted@ == name@,
                i <= self.counters@.len(),
                forall|j: int| 0 <= j < i ==> self@.counters[j].name != name@,
            decreases self.counters@.len() - i,
        {
            if self.counters[i].name().eq(&wanted) {
                assert(self@.counters[i as int].name == name@);
                return i;
            }
            i += 1;
        }
        let ghost m = self@;
        let n = self.counters.len();
        self.counters.push(Counter::new(wanted));
        assert(self@.counters =~= m.counters.push(fresh_counter(name@)));
        n
    }

    /// Adds `value` to the series `attributes` of counter `counter`.
    pub fn add(&mut self, counter: usize, value: u32, attributes: &[KeyValue])
        requires
            old(self).wf(),
            counter < old(self)@.counters.len(),
        ensures
            final(self).wf(),
            final(self)@ == (MeterModel {
                counters: old(self)@.counters.update(
                    counter as int,
                    old(self)@.counters[counter as int].after_add(value, attrs_view(attributes@)),
                ),
                ..old(self)@
            }),
    {
        let ghost m = self@;
        self.counters[counter].add(value, attributes);
        assert(self@.counters =~= m.counters.update(
            counter as int,
            m.counters[counter as int].after_add(value, attrs_view(attributes@)),
        ));
        assert forall|i: int| 0 <= i < self.counters@.len() implies (
        #[trigger] self.counters@[i]).wf() by {}
    }

    /// Collects every counter, in registration order.
    pub fn collect(&mut self) -> (r: Vec<Metric>)
        requires
            old(self).wf(),
        ensures
            final(self).wf(),
            metrics_view(r@) == old(self)@.batch(),
            final(self)@ == old(self)@.drained(),
    {
        let ghost m = self@;
        let mut metrics: Vec<Metric> = Vec::new();
        let mut i: usize = 0;
        while i < self.counters.len()
            invariant
                self.wf(),
                i <= self.counters@.len(),
                self.counters@.len() == m.counters.len(),
                self@.name == m.name,
                metrics@.len() == i,
                forall|j: int| 0 <= j < i ==> (#[trigger] metrics@[j])@ == snapshot_of(m.counters[j]),
                forall|j: int| 0 <= j < i ==> #[trigger] self@.counters[j] == m.counters[j].drained(),
                forall|j: int| i <= j < m.counters.len() ==> #[trigger] self@.counters[j] == m.counters[j],
            decreases self.counters@.len() - i,
        {
            let ghost before = self@;
            assert(before.counters[i as int] == m.counters[i as int]);
            let metric = self.counters[i].collect();
            metrics.push(metric);
            assert(self@.counters =~= before.counters.update(i as int, m.counters[i as int].drained()));
            assert forall|j: int| 0 <= j < self.counters@.len() implies (
            #[trigger] self.counters@[j]).wf() by {}
            i += 1;
        }
        assert(metrics_view(metrics@) =~= m.batch());
        assert(self@.counters =~= m.drained().counters);
        metrics
    }
}

/// A meter: a named registry of counters, each created once per name.
pub struct Meter {
    inner: MeterInner,
}

impl View for Meter {
    type V = MeterModel;

    closed spec fn view(&self) -> MeterModel {
        self.inner@
    }
}

impl Meter {
    /// The state is well formed: see [`MeterInner::wf`].
    pub closed spec fn wf(&self) -> bool {
        self.inner.wf()
    }

    /// A meter named `name`, with no counters.
    pub fn new(name: &str) -> (r: Meter)
        ensures
            r.wf(),
            r@ == (MeterModel { name: name@, counters: Seq::empty() }),
    {
        Meter { inner: MeterInner::new(name) }
    }

    /// The counter named `name`, created on first use. Returns its index: two
    /// calls with one name return the same index, and so reach the same counter.
    pub fn create_counter(&mut self, name: &str) -> (r: usize)
        requires
            old(self).wf(),
        ensures
            final(self).wf(),
            (final(self)@, r as int) == old(self)@.after_create(name@),
    {
        self.inner.create_counter(name)
    }

    /// Adds `value` to the series `attributes` of counter `counter`.
    pub fn add(&mut self, counter: usize, value: u32, attributes: &[KeyValue])
        requires
            old(self).wf(),
            counter < old(self)@.counters.len(),
        ensures
            final(self).wf(),
            final(self)@ == (MeterModel {
                counters: old(self)@.counters.update(
                    counter as int,
                    old(self)@.counters[counter as int].after_add(value, attrs_view(attributes@)),
                ),
                ..old(self)@
            }),
    {
        self.inner.add(counter, value, attributes);
    }

    /// The counter at index `counter`.
    pub fn counter(&self, counter: usize) -> (r: &Counter)
        requires
            self.wf(),
            counter < self@.counters.len(),
        ensures
            r.wf(),
            r@ == self@.counters[counter as int],
    {
        &self.inner.counters[counter]
    }

    /// Whether the meter is named `name`.
    pub fn name_is(&self, name: &str) -> (r: bool)
        ensures
            r == (self@.name == name@),
    {
        self.inner.name.eq(&name.to_string())
    }

    /// The number of counters.
    pub fn len(&self) -> (r: usize)
        ensures
            r == self@.counters.len(),
    {
        self.inner.counters.len()
    }

    /// Collects every counter, in registration order.
    pub fn collect(&mut self) -> (r: Vec<Metric>)
        requires
            old(self).wf(),
        ensures
            final(self).wf(),
            metrics_view(r@) == old(self)@.batch(),
            final(self)@ == old(self)@.drained(),
    {
        self.inner.collect()
    }
}

/// Asking a meter twice for one name gives one counter: the second call returns
/// the index of the first and changes nothing, so adds made through either
/// index reach the same counter.
pub proof fn lemma_create_counter_idempotent(m: MeterModel, name: Seq<char>)
    ensures
        ({
            let (once, first) = m.after_create(name);
            let (twice, second) = once.after_create(name);
            &&& twice == once
            &&& second == first
            &&& 0 <= first < once.counters.len()
            &&& once.counters[first].name == name
        }),
{
    let (once, first) = m.after_create(name);
    if find_counter(m.counters, name) is None {
        assert(once.counters[m.counters.len() as int].name == name);
        let k = choose|k: int| 0 <= k < once.counters.len() && once.counters[k].name == name;
        if k < m.counters.len() {
            assert(m.counters[k] == once.counters[k]);
        }
    }
}

} // verus!
