//! The meter provider: a registry of meters by name, and the collection of all
//! their counters into one batch.

use crate::attributes::attrs_view;
use crate::common::KeyValue;
use crate::meter::{metrics_view, Meter, MeterModel};
use crate::metric::{Metric, MetricModel};
use vstd::prelude::*;

verus! {

/// Model of a provider: its meters in registration order.
pub struct MeterProviderModel {
    pub meters: Seq<MeterModel>,
}

/// The index of the meter named `name`, if any.
pub open spec fn find_meter(ms: Seq<MeterModel>, name: Seq<char>) -> Option<int> {
    if exists|i: int| 0 <= i < ms.len() && ms[i].name == name {
        Some(choose|i: int| 0 <= i < ms.len() && ms[i].name == name)
    } else {
        None
    }
}

/// The snapshots of every meter, meter after meter.
pub open spec fn batch_of(ms: Seq<MeterModel>) -> Seq<MetricModel>
    decreases ms.len(),
{
    if ms.len() == 0 {
        Seq::empty()
    } else {
        batch_of(ms.drop_last()) + ms.last().batch()
    }
}

impl MeterProviderModel {
    /// No two meters share a name.
    pub open spec fn inv(self) -> bool {
        forall|i: int, j: int|
            0 <= i < self.meters.len() && 0 <= j < self.meters.len() && i != j
                ==> #[trigger] self.meters[i].name != #[trigger] self.meters[j].name
    }

    /// The provider after `get_meter(name)`, and the index returned.
    pub open spec fn after_get_meter(self, name: Seq<char>) -> (MeterProviderModel, int) {
        match find_meter(self.meters, name) {
            Some(i) => (self, i),
            None => (
                MeterProviderModel {
                    meters: self.meters.push(MeterModel { name, counters: Seq::empty() }),
                },
                self.meters.len() as int,
            ),
        }
    }

    /// The provider with meter `i` replaced by `m`.
    pub open spec fn with_meter(self, i: int, m: MeterModel) -> MeterProviderModel {
        MeterProviderModel { meters: self.meters.update(i, m) }
    }

    /// The provider after a collect: every meter drained.
    pub open spec fn drained(self) -> MeterProviderModel {
        MeterProviderModel { meters: self.meters.map_values(|m: MeterModel| m.drained()) }
    }
}

struct MeterProviderInner {
    meters: Vec<Meter>,
}

impl View for MeterProviderInner {
    type V = MeterProviderModel;

    closed spec fn view(&self) -> MeterProviderModel {
        MeterProviderModel { meters: self.meters@.map_values(|m: Meter| m@) }
    }
}

impl MeterProviderInner {
    /// Every meter is well formed and no two share a name.
    pub closed spec fn wf(&self) -> bool {
        &&& forall|i: int| 0 <= i < self.meters@.len() ==> (#[trigger] self.meters@[i]).wf()
        &&& self@.inv()
    }

    /// The meter named `name`: the one registered earlier, if any, else a new
    /// one, registered now. Returns its index.
    fn get_meter(&mut self, name: &str) -> (r: usize)
        requires
            old(self).wf(),
        ensures
            final(self).wf(),
            (final(self)@, r as int) == old(self)@.after_get_meter(name@),
    {
        let mut i: usize = 0;
        while i < self.meters.len()
            invariant
                self.wf(),
                i <= self.meters@.len(),
                forall|j: int| 0 <= j < i ==> self@.meters[j].name != name@,
            decreases self.meters@.len() - i,
        {
            if self.meters[i].name_is(name) {
                assert(self@.meters[i as int].name == name@);
                return i;
            }
            i += 1;
        }
        let ghost p = self@;
        let n = self.meters.len();
        self.meters.push(Meter::new(name));
        assert(self@.meters =~= p.meters.push(MeterModel { name: name@, counters: Seq::empty() }));
        n
    }

    /// Collects every counter of every meter into one batch, meter after meter.
    pub fn collect(&mut self) -> (r: Vec<Metric>)
        requires
            old(self).wf(),
        ensures
            final(self).wf(),
            metrics_view(r@) == batch_of(old(self)@.meters),
            final(self)@ == old(self)@.drained(),
    {
        let ghost p = self@;
        let mut metrics: Vec<Metric> = Vec::new();
        let mut i: usize = 0;
        assert(metrics_view(metrics@) =~= batch_of(p.meters.subrange(0, 0)));
        while i < self.meters.len()
            invariant
                self.wf(),
                i <= self.meters@.len(),
                self.meters@.len() == p.meters.len(),
                metrics_view(metrics@) == batch_of(p.meters.subrange(0, i as int)),
                forall|j: int| 0 <= j < i ==> #[trigger] self@.meters[j] == p.meters[j].drained(),
                forall|j: int| i <= j < p.meters.len() ==> #[trigger] self@.meters[j] == p.meters[j],
            decreases self.meters@.len() - i,
        {
            let ghost before = self@;
            let ghost so_far = metrics@;
            assert(before.meters[i as int] == p.meters[i as int]);
            let mut batch = self.meters[i].collect();
            let ghost got = batch@;
            metrics.append(&mut batch);
            assert(self@.meters =~= before.meters.update(i as int, p.meters[i as int].drained()));
            assert forall|j: int| 0 <= j < self.meters@.len() implies (
            #[trigger] self.meters@[j]).wf() by {}
            assert(p.meters.subrange(0, i + 1).drop_last() =~= p.meters.subrange(0, i as int));
            assert(metrics_view(so_far + got) =~= metrics_view(so_far) + metrics_view(got));
            i += 1;
        }
        assert(p.meters.subrange(0, i as int) =~= p.meters);
        assert(self@.meters =~= p.drained().meters);
        metrics
    }}

/// A meter provider: a named registry of meters, each created once per name.
pub struct MeterProvider {
    inner: MeterProviderInner,
}

impl View for MeterProvider {
    type V = MeterProviderModel;

    closed spec fn view(&self) -> MeterProviderModel {
        self.inner@
    }
}

impl MeterProvider {
    /// Every meter is well formed and no two share a name.
    pub closed spec fn wf(&self) -> bool {
        self.inner.wf()
    }

    /// A provider with no meters.
    pub fn new() -> (r: MeterProvider)
        ensures
            r.wf(),
            r@.meters == Seq::<MeterModel>::empty(),
    {
        let r = MeterProvider { inner: MeterProviderInner { meters: Vec::new() } };
        assert(r@.meters =~= Seq::<MeterModel>::empty());
        r
    }

    /// The meter named `name`: the one registered earlier, if any, else a new
    /// one, registered now. Returns its index: two calls with one name return
    /// the same index, and so reach the same meter.
    pub fn get_meter(&mut self, name: &str) -> (r: usize)
        requires
            old(self).wf(),
        ensures
            final(self).wf(),
            (final(self)@, r as int) == old(self)@.after_get_meter(name@),
    {
        self.inner.get_meter(name)
    }

    /// Collects every counter of every meter into one batch, meter after meter.
    pub fn collect(&mut self) -> (r: Vec<Metric>)
        requires
            old(self).wf(),
        ensures
            final(self).wf(),
            metrics_view(r@) == batch_of(old(self)@.meters),
            final(self)@ == old(self)@.drained(),
    {
        self.inner.collect()
    }

    /// The counter named `name` of meter `meter`, created on first use.
    pub fn create_counter(&mut self, meter: usize, name: &str) -> (r: usize)
        requires
            old(self).wf(),
            meter < old(self)@.meters.len(),
        ensures
            final(self).wf(),
            ({
                let (m, i) = old(self)@.meters[meter as int].after_create(name@);
                final(self)@ == old(self)@.with_meter(meter as int, m) && r as int == i
            }),
    {
        let ghost p = self@;
        let r = self.inner.meters[meter].create_counter(name);
        let ghost m = p.meters[meter as int].after_create(name@).0;
        assert(self@.meters =~= p.meters.update(meter as int, m));
        assert forall|i: int| 0 <= i < self.inner.meters@.len() implies (
        #[trigger] self.inner.meters@[i]).wf() by {}
        r
    }

    /// Adds `value` to the series `attributes` of counter `counter` of meter
    /// `meter`.
    pub fn add(&mut self, meter: usize, counter: usize, value: u32, attributes: &[KeyValue])
        requires
            old(self).wf(),
            meter < old(self)@.meters.len(),
            counter < old(self)@.meters[meter as int].counters.len(),
        ensures
            final(self).wf(),
            ({
                let m = old(self)@.meters[meter as int];
                final(self)@ == old(self)@.with_meter(
                    meter as int,
                    MeterModel {
                        counters: m.counters.update(
                            counter as int,
                            m.counters[counter as int].after_add(value, attrs_view(attributes@)),
                        ),
                        ..m
                    },
                )
            }),
    {
        let ghost p = self@;
        self.inner.meters[meter].add(counter, value, attributes);
        let ghost m = p.meters[meter as int];
        assert(self@.meters =~= p.meters.update(
            meter as int,
            MeterModel {
                counters: m.counters.update(
                    counter as int,
                    m.counters[counter as int].after_add(value, attrs_view(attributes@)),
                ),
                ..m
            },
        ));
        assert forall|i: int| 0 <= i < self.inner.meters@.len() implies (
        #[trigger] self.inner.meters@[i]).wf() by {}
    }

    /// The number of meters.
    pub fn len(&self) -> (r: usize)
        ensures
            r == self@.meters.len(),
    {
        self.inner.meters.len()
    }

    /// The meter at index `meter`.
    pub fn meter(&self, meter: usize) -> (r: &Meter)
        requires
            self.wf(),
            meter < self@.meters.len(),
        ensures
            r.wf(),
            r@ == self@.meters[meter as int],
    {
        &self.inner.meters[meter]
    }
}

/// Asking a provider twice for one name gives one meter: the second call
/// returns the index of the first and changes nothing.
pub proof fn lemma_get_meter_idempotent(p: MeterProviderModel, name: Seq<char>)
    ensures
        ({
            let (once, first) = p.after_get_meter(name);
            let (twice, second) = once.after_get_meter(name);
            &&& twice == once
            &&& second == first
            &&& 0 <= first < once.meters.len()
            &&& once.meters[first].name == name
        }),
{
    let (once, first) = p.after_get_meter(name);
    if find_meter(p.meters, name) is None {
        assert(once.meters[p.meters.len() as int].name == name);
        let k = choose|k: int| 0 <= k < once.meters.len() && once.meters[k].name == name;
        if k < p.meters.len() {
            assert(p.meters[k] == once.meters[k]);
        }
    }
}

} // verus!
