//! The catalog of the metrics that the agents report.

use vstd::prelude::*;

verus! {

/// Determines whether the metric is a counter or a gauge.
#[derive(Debug, PartialEq, Eq, Hash, Clone, Copy, Structural)]
pub enum MetricKind {
    Counter,
    Gauge,
}

/// Information about a metric.
#[derive(Debug, Clone, PartialEq, Eq)]
pub struct MetricSpec {
    pub id: u32,
    pub unit: Option<String>,
    pub name: String,
    pub field: Option<String>,
    pub kind: MetricKind,
}

/// The catalog of metrics, indexed by their id. An id that the catalog
/// does not name has an empty place.
pub struct MetricSpecs {
    loaded: bool,
    by_id: Vec<Option<MetricSpec>>,
}

/// The entry of a list that has the given id; of two such entries the
/// later one.
pub open spec fn metric_in(list: Seq<MetricSpec>, id: u32) -> Option<MetricSpec>
    decreases list.len(),
{
    if list.len() == 0 {
        None
    } else if list.last().id == id {
        Some(list.last())
    } else {
        metric_in(list.drop_last(), id)
    }
}

/// The largest id of a list; zero for an empty one.
pub open spec fn max_id(list: Seq<MetricSpec>) -> u32
    decreases list.len(),
{
    if list.len() == 0 {
        0
    } else if list.last().id > max_id(list.drop_last()) {
        list.last().id
    } else {
        max_id(list.drop_last())
    }
}

proof fn lemma_max_id(list: Seq<MetricSpec>, k: int)
    requires
        0 <= k < list.len(),
    ensures
        list[k].id <= max_id(list),
    decreases list.len(),
{
    if k < list.len() - 1 {
        lemma_max_id(list.drop_last(), k);
    }
}

proof fn lemma_metric_in_bound(list: Seq<MetricSpec>, id: u32)
    ensures
        metric_in(list, id) is Some ==> id <= max_id(list),
    decreases list.len(),
{
    if list.len() > 0 && list.last().id != id {
        lemma_metric_in_bound(list.drop_last(), id);
    }
}

impl MetricSpecs {
    /// Whether the catalog could be read.
    pub closed spec fn is_loaded(&self) -> bool {
        self.loaded
    }

    /// The entry of the catalog for an id, if it has one.
    pub closed spec fn entry(&self, id: u32) -> Option<MetricSpec> {
        if id < self.by_id.len() {
            self.by_id[id as int]
        } else {
            None
        }
    }

    /// Makes the catalog from what was read of it. A catalog that could not
    /// be read, `None`, gives an empty one, and the work goes on without.
    pub fn new(parsed: Option<Vec<MetricSpec>>) -> (specs: MetricSpecs)
        ensures
            specs.is_loaded() == parsed.is_some(),
            forall|id: u32|
                #[trigger] specs.entry(id) == match parsed {
                    Some(list) => metric_in(list@, id),
                    None => None,
                },
    {
        let list = match parsed {
            None => {
                return MetricSpecs { loaded: false, by_id: Vec::new() };
            },
            Some(list) => list,
        };
        let mut top: u32 = 0;
        let mut i: usize = 0;
        while i < list.len()
            invariant
                i <= list.len(),
                top == max_id(list@.take(i as int)),
            decreases list.len() - i,
        {
            proof {
                assert(list@.take(i + 1).drop_last() =~= list@.take(i as int));
            }
            if list[i].id > top {
                top = list[i].id;
            }
            i += 1;
        }
        assert(list@.take(list.len() as int) =~= list@);
        let mut by_id: Vec<Option<MetricSpec>> = Vec::new();
        while by_id.len() <= top as usize
            invariant
                forall|k: int| 0 <= k < by_id.len() ==> #[trigger] by_id[k] is None,
                by_id.len() <= top + 1,
            decreases top + 1 - by_id.len(),
        {
            by_id.push(None);
        }
        let ghost all = list@;
        for spec in it: list
            invariant
                it.seq() == all,
                top == max_id(all),
                by_id.len() == top + 1,
                forall|id: int|
                    0 <= id < by_id.len() ==> #[trigger] by_id[id] == metric_in(
                        all.take(it.index() as int),
                        id as u32,
                    ),
        {
            proof {
                assert(all.take(it.index() + 1).drop_last() =~= all.take(it.index() as int));
                lemma_max_id(all, it.index() as int);
            }
            let at = spec.id as usize;
            by_id[at] = Some(spec);
        }
        assert(all.take(all.len() as int) =~= all);
        let specs = MetricSpecs { loaded: true, by_id };
        assert forall|id: u32| #[trigger] specs.entry(id) == metric_in(all, id) by {
            lemma_metric_in_bound(all, id);
        }
        specs
    }

    /// Whether the catalog could be read.
    pub fn loaded(&self) -> (r: bool)
        ensures
            r == self.is_loaded(),
    {
        self.loaded
    }
}

/// Get the specification for a given metric by its ID.
pub fn metric_spec_by_id(specs: &MetricSpecs, id: u32) -> (spec: Option<&MetricSpec>)
    ensures
        match spec {
            Some(s) => specs.entry(id) == Some(*s),
            None => specs.entry(id) is None,
        },
{
    if (id as usize) < specs.by_id.len() {
        specs.by_id[id as usize].as_ref()
    } else {
        None
    }
}

} // verus!
