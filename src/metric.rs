//! The snapshot that a collection hands to an exporter.

use crate::attributes::attrs_view;
use crate::common::{KeyValue, KeyValueModel};
use vstd::prelude::*;

verus! {

/// Model of a [`Metric`]: its name and its rows of attributes and sums.
pub struct MetricModel {
    pub name: Seq<char>,
    pub points: Seq<(Seq<KeyValueModel>, u64)>,
}

/// The models of snapshot rows, one for one.
pub open spec fn points_view(p: Seq<(Vec<KeyValue>, u64)>) -> Seq<(Seq<KeyValueModel>, u64)> {
    p.map_values(|e: (Vec<KeyValue>, u64)| (attrs_view(e.0@), e.1))
}

/// An immutable snapshot of one counter: its name and, per row, the attributes
/// and the accumulated sum.
pub struct Metric {
    pub name: String,
    pub metric_points: Vec<(Vec<KeyValue>, u64)>,
}

impl View for Metric {
    type V = MetricModel;

    open spec fn view(&self) -> MetricModel {
        MetricModel { name: self.name@, points: points_view(self.metric_points@) }
    }
}

impl Metric {
    pub(crate) fn new(name: String, points: Vec<(Vec<KeyValue>, u64)>) -> (r: Metric)
        ensures
            r@ == (MetricModel { name: name@, points: points_view(points@) }),
    {
        Metric { name, metric_points: points }
    }
}

} // verus!
