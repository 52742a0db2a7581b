//! The `metrics` table: the value of a metric at a time.

use crate::storage::bytes::{
    be_u64, be_value8, le_u32, le_value4, lemma_be_u64_order, lemma_concat_eq,
    lemma_lex_lt_concat, lemma_lex_trichotomy, lemma_u32_round_trip, lemma_u64_round_trip,
    lex_before, lex_le, u32_from_le, u32_to_le, u64_from_be, u64_to_be,
};
use crate::storage::dbtypes::UtcTimestamp;
use crate::storage::metricspec::{metric_spec_by_id, MetricKind, MetricSpecs};
use crate::storage::table::{MergeOperator, StorageOpt, Table, TableKey};
use vstd::prelude::*;
use vstd::slice::slice_to_vec;

verus! {

/// ID of a metric.
pub type MetricId = u32;

/// Uniquely identifies the value of a certain metric at a certain time.
///
/// Note that this does not differentiate between different host agents.
#[derive(Debug, Hash, PartialEq, Eq, Clone, Copy, Structural)]
pub struct MetricKey {
    pub timestamp: UtcTimestamp,
    pub metric_id: MetricId,
}

impl Default for MetricKey {
    fn default() -> (key: MetricKey)
        ensures
            key == (MetricKey { timestamp: 0, metric_id: 0 }),
    {
        MetricKey { timestamp: 0, metric_id: 0 }
    }
}

impl TableKey for MetricKey {
    type B = [u8; 12];

    open spec fn width() -> nat {
        12
    }

    open spec fn raw_view(raw: [u8; 12]) -> Seq<u8> {
        raw@
    }

    open spec fn encoding(self) -> Seq<u8> {
        be_u64(self.timestamp) + le_u32(self.metric_id)
    }

    open spec fn decoding(bytes: Seq<u8>) -> MetricKey {
        MetricKey {
            timestamp: be_value8(bytes.subrange(0, 8)) as u64,
            metric_id: le_value4(bytes.subrange(8, 12)) as u32,
        }
    }

    open spec fn storable(self) -> bool {
        true
    }

    /// By time; within one second by the stored bytes of the id, which
    /// orders nothing.
    open spec fn key_le(self, other: MetricKey) -> bool {
        self.timestamp < other.timestamp || (self.timestamp == other.timestamp && lex_le(
            le_u32(self.metric_id),
            le_u32(other.metric_id),
        ))
    }

    fn from_raw(data: [u8; 12]) -> (key: MetricKey) {
        let t: [u8; 8] = [
            data[0], data[1], data[2], data[3], data[4], data[5], data[6], data[7],
        ];
        let i: [u8; 4] = [data[8], data[9], data[10], data[11]];
        assert(t@ =~= data@.subrange(0, 8));
        assert(i@ =~= data@.subrange(8, 12));
        MetricKey { timestamp: u64_from_be(&t), metric_id: u32_from_le(&i) }
    }

    fn into_raw(self) -> (raw: [u8; 12]) {
        let t = u64_to_be(self.timestamp);
        let i = u32_to_le(self.metric_id);
        proof {
            lemma_u64_round_trip(self.timestamp);
            lemma_u32_round_trip(self.metric_id);
        }
        let raw: [u8; 12] = [
            t[0], t[1], t[2], t[3], t[4], t[5], t[6], t[7], i[0], i[1], i[2], i[3],
        ];
        assert(raw@ =~= t@ + i@);
        raw
    }

    fn to_bytes(self) -> (bytes: Vec<u8>) {
        let raw = self.into_raw();
        slice_to_vec(raw.as_slice())
    }

    fn precedes(self, other: MetricKey) -> (r: bool) {
        if self.timestamp != other.timestamp {
            return self.timestamp < other.timestamp;
        }
        let a = u32_to_le(self.metric_id);
        let b = u32_to_le(other.metric_id);
        proof {
            lemma_u32_round_trip(self.metric_id);
            lemma_u32_round_trip(other.metric_id);
            lemma_lex_trichotomy(a@, b@);
        }
        !lex_before(b.as_slice(), a.as_slice())
    }

    proof fn lemma_round_trip(self) {
        let t = be_u64(self.timestamp);
        let i = le_u32(self.metric_id);
        lemma_u64_round_trip(self.timestamp);
        lemma_u32_round_trip(self.metric_id);
        assert((t + i).subrange(0, 8) =~= t);
        assert((t + i).subrange(8, 12) =~= i);
    }

    proof fn lemma_key_order(self, other: MetricKey) {
        let (t1, i1) = (be_u64(self.timestamp), le_u32(self.metric_id));
        let (t2, i2) = (be_u64(other.timestamp), le_u32(other.metric_id));
        lemma_u64_round_trip(self.timestamp);
        lemma_u64_round_trip(other.timestamp);
        lemma_be_u64_order(self.timestamp, other.timestamp);
        lemma_lex_lt_concat(t1, i1, t2, i2);
        lemma_concat_eq(t1, i1, t2, i2);
    }
}

/// `a + b`, held at the ends of the 64-bit range.
pub open spec fn sat_add(a: i64, b: i64) -> i64 {
    if a + b > i64::MAX {
        i64::MAX
    } else if a + b < i64::MIN {
        i64::MIN
    } else {
        (a + b) as i64
    }
}

/// Adds two values and holds the sum at the ends of the 64-bit range.
pub fn saturating_sum(a: i64, b: i64) -> (sum: i64)
    ensures
        sum == sat_add(a, b),
{
    if b > 0 && a > i64::MAX - b {
        i64::MAX
    } else if b < 0 && a < i64::MIN - b {
        i64::MIN
    } else {
        a + b
    }
}

/// The larger of two values.
pub open spec fn larger(a: i64, b: i64) -> i64 {
    if a >= b {
        a
    } else {
        b
    }
}

/// The values folded into `init` from the left: summed, held at the ends
/// of the range, for a counter, and the largest of them for a gauge.
pub open spec fn fold_values(kind: MetricKind, init: i64, values: Seq<i64>) -> i64
    decreases values.len(),
{
    if values.len() == 0 {
        init
    } else {
        let rest = fold_values(kind, init, values.drop_last());
        match kind {
            MetricKind::Counter => sat_add(rest, values.last()),
            MetricKind::Gauge => larger(rest, values.last()),
        }
    }
}

/// What a record of the table is after the values written to it since were
/// merged in.
///
/// A metric that the catalog names is folded: a counter sums up, a gauge
/// keeps its largest value, both from the previous value or from zero. The
/// largest value is taken for a gauge, not the mean, because the result
/// must not depend on how the values are grouped. A metric that the
/// catalog does not name keeps the newest value.
pub open spec fn merge_spec(kind: Option<MetricKind>, prev: Option<i64>, values: Seq<i64>) -> Option<
    i64,
> {
    match kind {
        None => if values.len() == 0 {
            None
        } else {
            Some(values.last())
        },
        Some(k) => Some(
            fold_values(
                k,
                match prev {
                    Some(p) => p,
                    None => 0,
                },
                values,
            ),
        ),
    }
}

/// The kind of a metric, where the catalog names it.
pub open spec fn kind_of(specs: &MetricSpecs, id: MetricId) -> Option<MetricKind> {
    match specs.entry(id) {
        Some(spec) => Some(spec.kind),
        None => None,
    }
}

/// Merges the values that were written to a record, oldest first, into
/// its previous value.
pub fn merge(specs: &MetricSpecs, key: MetricKey, prev: Option<i64>, values: &Vec<i64>) -> (merged:
    Option<i64>)
    ensures
        merged == merge_spec(kind_of(specs, key.metric_id), prev, values@),
{
    let kind = match metric_spec_by_id(specs, key.metric_id) {
        Some(spec) => spec.kind,
        None => {
            return if values.len() == 0 {
                None
            } else {
                Some(values[values.len() - 1])
            };
        },
    };
    let init = match prev {
        Some(p) => p,
        None => 0,
    };
    let mut acc = init;
    let mut i: usize = 0;
    assert(values@.take(0) =~= Seq::empty());
    while i < values.len()
        invariant
            i <= values.len(),
            acc == fold_values(kind, init, values@.take(i as int)),
        decreases values.len() - i,
    {
        proof {
            assert(values@.take(i + 1).drop_last() =~= values@.take(i as int));
        }
        let v = values[i];
        acc = match kind {
            MetricKind::Counter => saturating_sum(acc, v),
            MetricKind::Gauge => if acc >= v {
                acc
            } else {
                v
            },
        };
        i += 1;
    }
    assert(values@.take(values.len() as int) =~= values@);
    Some(acc)
}

/// Folding two lists one after the other is folding them as one list.
pub proof fn lemma_fold_splits(kind: MetricKind, init: i64, first: Seq<i64>, second: Seq<i64>)
    ensures
        fold_values(kind, init, first + second) == fold_values(
            kind,
            fold_values(kind, init, first),
            second,
        ),
    decreases second.len(),
{
    if second.len() == 0 {
        assert(first + second =~= first);
    } else {
        assert((first + second).drop_last() =~= first + second.drop_last());
        lemma_fold_splits(kind, init, first, second.drop_last());
    }
}

/// Merging does not depend on how the written values are grouped: for a
/// metric that the catalog names, merging a first group of values and then
/// a second one into the result gives what merging all of them at once
/// gives.
pub proof fn lemma_merge_associative(
    kind: MetricKind,
    prev: Option<i64>,
    first: Seq<i64>,
    second: Seq<i64>,
)
    ensures
        merge_spec(Some(kind), merge_spec(Some(kind), prev, first), second) == merge_spec(
            Some(kind),
            prev,
            first + second,
        ),
{
    let init = match prev {
        Some(p) => p,
        None => 0,
    };
    lemma_fold_splits(kind, init, first, second);
}

/// For a counter, merging three values is adding them one after the other
/// to the previous value, each sum held at the ends of the range; and
/// merging the first alone and then the other two gives the same.
pub proof fn lemma_merge_counter(prev: i64, a: i64, b: i64, c: i64)
    ensures
        merge_spec(Some(MetricKind::Counter), Some(prev), seq![a, b, c]) == Some(
            sat_add(sat_add(sat_add(prev, a), b), c),
        ),
        merge_spec(
            Some(MetricKind::Counter),
            merge_spec(Some(MetricKind::Counter), Some(prev), seq![a]),
            seq![b, c],
        ) == merge_spec(Some(MetricKind::Counter), Some(prev), seq![a, b, c]),
{
    let k = MetricKind::Counter;
    reveal_with_fuel(fold_values, 4);
    let abc = seq![a, b, c];
    assert(abc.drop_last() =~= seq![a, b]);
    assert(seq![a, b].drop_last() =~= seq![a]);
    assert(seq![a].drop_last() =~= Seq::<i64>::empty());
    assert(seq![a] + seq![b, c] =~= abc);
    lemma_merge_associative(k, Some(prev), seq![a], seq![b, c]);
}

/// For a gauge, merging gives a value that is at least the previous one
/// and at least each of the written ones, and that is one of them.
pub proof fn lemma_merge_gauge_is_max(init: i64, values: Seq<i64>)
    ensures
        fold_values(MetricKind::Gauge, init, values) >= init,
        forall|k: int|
            0 <= k < values.len() ==> fold_values(MetricKind::Gauge, init, values)
                >= #[trigger] values[k],
        fold_values(MetricKind::Gauge, init, values) == init || exists|k: int|
            0 <= k < values.len() && fold_values(MetricKind::Gauge, init, values)
                == #[trigger] values[k],
    decreases values.len(),
{
    if values.len() > 0 {
        let rest = values.drop_last();
        lemma_merge_gauge_is_max(init, rest);
        let m = fold_values(MetricKind::Gauge, init, values);
        assert forall|k: int| 0 <= k < values.len() implies m >= #[trigger] values[k] by {
            if k < values.len() - 1 {
                assert(rest[k] == values[k]);
            }
        }
        if m != init {
            if m == values.last() {
                assert(values[values.len() - 1] == m);
            } else {
                let k = choose|k: int|
                    0 <= k < rest.len() && fold_values(MetricKind::Gauge, init, rest)
                        == #[trigger] rest[k];
                assert(values[k] == m);
            }
        }
    }
}

/// Represents `1..n` metric values after aggregation.
#[derive(Debug, Clone, Copy, PartialEq, Eq, Structural)]
pub struct AggregatedMetric {
    count: u64,
    sum: i64,
}

impl Default for AggregatedMetric {
    fn default() -> (agg: AggregatedMetric)
        ensures
            agg.count_spec() == 0,
            agg.sum_spec() == 0,
    {
        AggregatedMetric { count: 0, sum: 0 }
    }
}

impl AggregatedMetric {
    /// The number of values that were taken in.
    pub closed spec fn count_spec(self) -> u64 {
        self.count
    }

    /// The sum of the values that were taken in.
    pub closed spec fn sum_spec(self) -> i64 {
        self.sum
    }

    /// The mean of the values, rounded towards zero; zero without values.
    pub open spec fn avg_spec(self) -> int {
        if self.count_spec() == 0 || self.count_spec() > i64::MAX {
            0
        } else if self.sum_spec() >= 0 {
            self.sum_spec() as int / self.count_spec() as int
        } else {
            -((-(self.sum_spec() as int)) / self.count_spec() as int)
        }
    }

    /// One more value taken in: the count goes up by one and the sum by
    /// the value, both held at the ends of their range.
    pub fn add(self, value: i64) -> (agg: AggregatedMetric)
        ensures
            agg == self.plus(value),
            agg.count_spec() == if self.count_spec() == u64::MAX {
                u64::MAX
            } else {
                (self.count_spec() + 1) as u64
            },
            agg.sum_spec() == sat_add(self.sum_spec(), value),
    {
        AggregatedMetric {
            count: self.count.saturating_add(1),
            sum: saturating_sum(self.sum, value),
        }
    }

    /// The number of values that were taken in.
    pub fn count(&self) -> (n: u64)
        ensures
            n == self.count_spec(),
    {
        self.count
    }

    /// Gets the metrics as a sum.
    ///
    /// Use this for counters.
    pub fn sum(&self) -> (s: i64)
        ensures
            s == self.sum_spec(),
    {
        self.sum
    }

    /// Gets the metric as the average.
    ///
    /// Use this for gauges.
    pub fn avg(&self) -> (a: i64)
        ensures
            a == self.avg_spec(),
    {
        if self.count == 0 || self.count > i64::MAX as u64 {
            0
        } else {
            let n = self.count as i64;
            if self.sum >= 0 {
                self.sum / n
            } else {
                let below: i128 = -(self.sum as i128);
                let q: i128 = below / (n as i128);
                (-q) as i64
            }
        }
    }
}

/// The `metrics` table. A write to it is merged with what the record
/// holds, and it is set up for sequential reading.
pub struct Metrics {
    pub table: Table,
}

/// The first key of a walk over the metrics from `start` on.
pub open spec fn first_metric_key(start: UtcTimestamp) -> MetricKey {
    MetricKey { timestamp: start, metric_id: 0 }
}

/// The key at which a walk over the metrics up to `end` stops.
pub open spec fn stop_metric_key(end: UtcTimestamp) -> MetricKey {
    MetricKey { timestamp: end, metric_id: u32::MAX }
}

/// Whether a record belongs to the time range from `start` to `end`: its
/// key lies from the first key on and before the stop key, in the order of
/// the table.
pub open spec fn in_metric_range(key: MetricKey, start: UtcTimestamp, end: UtcTimestamp) -> bool {
    first_metric_key(start).key_le(key) && !stop_metric_key(end).key_le(key)
}

/// The width of a bucket of a histogram: the length of the window divided
/// by the number of buckets, and at least one.
pub open spec fn bucket_width(start: UtcTimestamp, end: UtcTimestamp, buckets: usize) -> u64 {
    if (end - start) / (buckets as int) < 1 {
        1
    } else {
        ((end - start) / (buckets as int)) as u64
    }
}

/// The time at which the bucket of a record starts: the largest multiple
/// of the width that is not after the record.
pub open spec fn bucket_start(timestamp: UtcTimestamp, width: u64) -> u64 {
    (timestamp - timestamp % width) as u64
}

/// Whether a record belongs to the time range and to the bucket of the
/// metric `id` that starts at `bucket`.
pub open spec fn in_cell(
    row: (MetricKey, i64),
    start: UtcTimestamp,
    end: UtcTimestamp,
    width: u64,
    id: MetricId,
    bucket: u64,
) -> bool {
    in_metric_range(row.0, start, end) && row.0.metric_id == id && bucket_start(
        row.0.timestamp,
        width,
    ) == bucket
}

/// The values of the first `n` rows that belong to a bucket of a metric,
/// taken in one after the other.
pub open spec fn cell_of(
    rows: Seq<(MetricKey, i64)>,
    n: int,
    start: UtcTimestamp,
    end: UtcTimestamp,
    width: u64,
    id: MetricId,
    bucket: u64,
) -> AggregatedMetric
    decreases n,
{
    if n <= 0 {
        AggregatedMetric::nothing()
    } else {
        let rest = cell_of(rows, n - 1, start, end, width, id, bucket);
        if in_cell(rows[n - 1], start, end, width, id, bucket) {
            rest.plus(rows[n - 1].1)
        } else {
            rest
        }
    }
}

/// Whether one of the first `n` rows belongs to a bucket of a metric.
pub open spec fn cell_seen(
    rows: Seq<(MetricKey, i64)>,
    n: int,
    start: UtcTimestamp,
    end: UtcTimestamp,
    width: u64,
    id: MetricId,
    bucket: u64,
) -> bool {
    exists|k: int| 0 <= k < n && in_cell(#[trigger] rows[k], start, end, width, id, bucket)
}

/// Whether a bucket comes before another: by metric, then by time.
pub open spec fn cell_before(
    a: (MetricId, UtcTimestamp, AggregatedMetric),
    b: (MetricId, UtcTimestamp, AggregatedMetric),
) -> bool {
    a.0 < b.0 || (a.0 == b.0 && a.1 < b.1)
}

/// Whether `cells` lists the buckets of the first `n` rows: each bucket
/// of a metric that a record of the time range falls into once, with the
/// values of its records taken in, ordered by metric and then by time.
#[verifier::opaque]
pub open spec fn cells_of(
    cells: Seq<(MetricId, UtcTimestamp, AggregatedMetric)>,
    rows: Seq<(MetricKey, i64)>,
    n: int,
    start: UtcTimestamp,
    end: UtcTimestamp,
    width: u64,
) -> bool {
    &&& forall|i: int, j: int|
        0 <= i < j < cells.len() ==> cell_before(#[trigger] cells[i], #[trigger] cells[j])
    &&& forall|i: int|
        0 <= i < cells.len() ==> cell_seen(
            rows,
            n,
            start,
            end,
            width,
            (#[trigger] cells[i]).0,
            cells[i].1,
        ) && cells[i].2 == cell_of(rows, n, start, end, width, cells[i].0, cells[i].1)
    &&& forall|k: int|
        0 <= k < n && in_metric_range((#[trigger] rows[k]).0, start, end) ==> exists|i: int|
            0 <= i < cells.len() && (#[trigger] cells[i]).0 == rows[k].0.metric_id && cells[i].1
                == bucket_start(rows[k].0.timestamp, width)
}

/// The buckets of a histogram, one list for each metric, written out as
/// one list.
pub open spec fn flat(groups: Seq<(MetricId, Vec<(UtcTimestamp, AggregatedMetric)>)>) -> Seq<
    (MetricId, UtcTimestamp, AggregatedMetric),
>
    decreases groups.len(),
{
    if groups.len() == 0 {
        Seq::empty()
    } else {
        let last = groups.last();
        flat(groups.drop_last()) + Seq::new(
            last.1@.len(),
            |k: int| (last.0, last.1@[k].0, last.1@[k].1),
        )
    }
}

impl AggregatedMetric {
    /// No value taken in yet.
    pub closed spec fn nothing() -> AggregatedMetric {
        AggregatedMetric { count: 0, sum: 0 }
    }

    /// One more value taken in: the count goes up by one and the sum by
    /// the value, both held at the ends of their range.
    pub closed spec fn plus(self, value: i64) -> AggregatedMetric {
        AggregatedMetric {
            count: if self.count == u64::MAX {
                u64::MAX
            } else {
                (self.count + 1) as u64
            },
            sum: sat_add(self.sum, value),
        }
    }
}

impl Metrics {
    /// The table with its empty cache.
    pub fn new() -> (metrics: Metrics)
        ensures
            metrics.table.is_new(MergeOperator::Associative, StorageOpt::SeqRead, 16384),
    {
        Metrics { table: Table::new(MergeOperator::Associative, StorageOpt::SeqRead, 16384) }
    }

    /// The keys between which the table is to be walked for the metrics of
    /// a time range: from the first on, up to not including the second.
    pub fn time_range_keys(start: UtcTimestamp, end: UtcTimestamp) -> (keys: (MetricKey, MetricKey))
        ensures
            keys.0 == first_metric_key(start),
            keys.1 == stop_metric_key(end),
    {
        (
            MetricKey { timestamp: start, metric_id: 0 },
            MetricKey { timestamp: end, metric_id: u32::MAX },
        )
    }

    /// Whether a record belongs to a time range.
    pub fn in_range(key: MetricKey, start: UtcTimestamp, end: UtcTimestamp) -> (r: bool)
        ensures
            r == in_metric_range(key, start, end),
    {
        let (first, stop) = Metrics::time_range_keys(start, end);
        first.precedes(key) && !stop.precedes(key)
    }

    /// Select a range of metrics: of the rows, those that belong to the
    /// time range, in the order in which they came.
    ///
    /// Rows that come from the table are in the order of
    /// `(timestamp, metric_id)`.
    pub fn time_range(rows: &Vec<(MetricKey, i64)>, start: UtcTimestamp, end: UtcTimestamp) -> (found:
        Vec<(MetricKey, i64)>)
        ensures
            found@ == rows@.filter(|row: (MetricKey, i64)| in_metric_range(row.0, start, end)),
    {
        let mut found: Vec<(MetricKey, i64)> = Vec::new();
        let ghost pred = |row: (MetricKey, i64)| in_metric_range(row.0, start, end);
        let mut k: usize = 0;
        assert(rows@.take(0) =~= Seq::empty());
        proof {
            reveal(Seq::filter);
        }
        while k < rows.len()
            invariant
                k <= rows.len(),
                pred == |row: (MetricKey, i64)| in_metric_range(row.0, start, end),
                found@ == rows@.take(k as int).filter(pred),
            decreases rows.len() - k,
        {
            proof {
                reveal(Seq::filter);
                assert(rows@.take(k + 1).drop_last() =~= rows@.take(k as int));
            }
            if Metrics::in_range(rows[k].0, start, end) {
                found.push(rows[k]);
            }
            k += 1;
        }
        assert(rows@.take(rows.len() as int) =~= rows@);
        found
    }

    /// The buckets of the metrics of a time range, ordered by metric and
    /// then by time.
    pub fn histogram_cells(
        rows: &Vec<(MetricKey, i64)>,
        start: UtcTimestamp,
        end: UtcTimestamp,
        buckets: usize,
    ) -> (cells: Vec<(MetricId, UtcTimestamp, AggregatedMetric)>)
        requires
            end >= start,
            buckets > 0,
        ensures
            cells_of(cells@, rows@, rows.len() as int, start, end, bucket_width(start, end, buckets)),
    {
        let duration = end - start;
        let per = duration / (buckets as u64);
        let width: u64 = if per < 1 {
            1
        } else {
            per
        };
        let mut cells: Vec<(MetricId, UtcTimestamp, AggregatedMetric)> = Vec::new();
        let mut k: usize = 0;
        assert(cells_of(cells@, rows@, 0, start, end, width)) by {
            reveal(cells_of);
        }
        while k < rows.len()
            invariant
                k <= rows.len(),
                width >= 1,
                width == bucket_width(start, end, buckets),
                cells_of(cells@, rows@, k as int, start, end, width),
            decreases rows.len() - k,
        {
            let row = rows[k];
            let ghost before = cells@;
            if Metrics::in_range(row.0, start, end) {
                proof {
                    vstd::arithmetic::div_mod::lemma_mod_decreases(
                        row.0.timestamp as nat,
                        width as nat,
                    );
                }
                let id = row.0.metric_id;
                let bucket = row.0.timestamp - row.0.timestamp % width;
                let mut p: usize = 0;
                while p < cells.len() && (cells[p].0 < id || (cells[p].0 == id && cells[p].1
                    < bucket))
                    invariant
                        p <= cells.len(),
                        forall|j: int|
                            0 <= j < p ==> cell_before(
                                #[trigger] cells[j],
                                (id, bucket, AggregatedMetric { count: 0, sum: 0 }),
                            ),
                    decreases cells.len() - p,
                {
                    p += 1;
                }
                if p < cells.len() && cells[p].0 == id && cells[p].1 == bucket {
                    let was = cells[p].2;
                    cells[p] = (id, bucket, was.add(row.1));
                } else {
                    let fresh = AggregatedMetric { count: 0, sum: 0 };
                    cells.insert(p, (id, bucket, fresh.add(row.1)));
                }
                proof {
                    lemma_cells_step(before, cells@, rows@, k as int, start, end, width, p as int);
                }
            } else {
                proof {
                    lemma_cells_step(before, cells@, rows@, k as int, start, end, width, 0);
                }
            }
            k += 1;
        }
        cells
    }

    /// Create a histogram for each present metric ID in the given time
    /// range: for each metric its buckets in the order of time, the
    /// metrics in the order of their ids.
    pub fn histograms(
        rows: &Vec<(MetricKey, i64)>,
        start: UtcTimestamp,
        end: UtcTimestamp,
        buckets: usize,
    ) -> (histograms: Vec<(MetricId, Vec<(UtcTimestamp, AggregatedMetric)>)>)
        requires
            end >= start,
            buckets > 0,
        ensures
            cells_of(
                flat(histograms@),
                rows@,
                rows.len() as int,
                start,
                end,
                bucket_width(start, end, buckets),
            ),
            forall|g: int| 0 <= g < histograms.len() ==> (#[trigger] histograms[g]).1.len() > 0,
            forall|g: int, h: int|
                0 <= g < h < histograms.len() ==> (#[trigger] histograms[g]).0 < (
                #[trigger] histograms[h]).0,
    {
        let cells = Metrics::histogram_cells(rows, start, end, buckets);
        let mut out: Vec<(MetricId, Vec<(UtcTimestamp, AggregatedMetric)>)> = Vec::new();
        let mut i: usize = 0;
        assert(cells@.take(0) =~= flat(out@));
        proof {
            reveal(cells_of);
        }
        while i < cells.len()
            invariant
                i <= cells.len(),
                flat(out@) == cells@.take(i as int),
                forall|a: int, b: int|
                    0 <= a < b < cells.len() ==> cell_before(#[trigger] cells[a], #[trigger] cells[b]),
                forall|g: int| 0 <= g < out.len() ==> (#[trigger] out[g]).1.len() > 0,
                forall|g: int, h: int|
                    0 <= g < h < out.len() ==> (#[trigger] out[g]).0 < (#[trigger] out[h]).0,
                out.len() > 0 ==> i > 0 && out[out.len() - 1].0 == cells[i - 1].0,
                out.len() > 0 && i < cells.len() ==> cells[i as int].0 != out[out.len() - 1].0,
            decreases cells.len() - i,
        {
            let id = cells[i].0;
            let mut group: Vec<(UtcTimestamp, AggregatedMetric)> = Vec::new();
            let ghost first = i;
            let ghost done = out@;
            proof {
                if i > 0 && out.len() > 0 {
                    assert(cell_before(cells[i - 1], cells[i as int]));
                }
            }
            while i < cells.len() && cells[i].0 == id
                invariant
                    first <= i <= cells.len(),
                    first < cells.len(),
                    cells[first as int].0 == id,
                    i > first ==> cells[i - 1].0 == id,
                    group.len() == i - first,
                    forall|k: int|
                        0 <= k < group.len() ==> (id, (#[trigger] group[k]).0, group[k].1)
                            == cells[first + k],
                decreases cells.len() - i,
            {
                group.push((cells[i].1, cells[i].2));
                i += 1;
            }
            let ghost listed = group@;
            proof {
                if out.len() > 0 {
                    assert(cell_before(cells[first - 1], cells[first as int]));
                    assert(out[out.len() - 1].0 < id);
                }
            }
            out.push((id, group));
            proof {
                assert(out@.drop_last() =~= done);
                assert(flat(out@) =~= cells@.take(i as int)) by {
                    let added = Seq::new(listed.len(), |k: int| (id, listed[k].0, listed[k].1));
                    assert(flat(out@) == flat(done) + added);
                    assert forall|k: int| 0 <= k < added.len() implies added[k] == cells@[first + k] by {
                        assert((id, listed[k].0, listed[k].1) == cells[first + k]);
                    }
                }
            }
        }
        assert(cells@.take(cells.len() as int) =~= cells@);
        out
    }
}

/// One more row taken in. What was listed before the row, `before`, and
/// after it, `after`, differ as the row asks: where the row belongs to the
/// time range, the bucket at place `p` has taken its value in, or is new
/// with that value alone; else nothing has changed.
proof fn lemma_cells_step(
    before: Seq<(MetricId, UtcTimestamp, AggregatedMetric)>,
    after: Seq<(MetricId, UtcTimestamp, AggregatedMetric)>,
    rows: Seq<(MetricKey, i64)>,
    k: int,
    start: UtcTimestamp,
    end: UtcTimestamp,
    width: u64,
    p: int,
)
    requires
        0 <= k < rows.len(),
        cells_of(before, rows, k, start, end, width),
        ({
            let row = rows[k];
            let id = row.0.metric_id;
            let bucket = bucket_start(row.0.timestamp, width);
            let zero = AggregatedMetric { count: 0, sum: 0 };
            if in_metric_range(row.0, start, end) {
                &&& 0 <= p <= before.len()
                &&& forall|j: int| 0 <= j < p ==> cell_before(#[trigger] before[j], (id, bucket, zero))
                &&& p < before.len() ==> !cell_before(before[p], (id, bucket, zero))
                &&& if p < before.len() && before[p].0 == id && before[p].1 == bucket {
                    after == before.update(p, (id, bucket, before[p].2.plus(row.1)))
                } else {
                    after == before.insert(p, (id, bucket, zero.plus(row.1)))
                }
            } else {
                after == before
            }
        }),
    ensures
        cells_of(after, rows, k + 1, start, end, width),
{
    reveal(cells_of);
    let row = rows[k];
    let id = row.0.metric_id;
    let bucket = bucket_start(row.0.timestamp, width);
    let zero = AggregatedMetric { count: 0, sum: 0 };
    let hit = in_metric_range(row.0, start, end);
    assert forall|i: MetricId, b: u64| #[trigger]
        cell_seen(rows, k, start, end, width, i, b) implies cell_seen(
        rows,
        k + 1,
        start,
        end,
        width,
        i,
        b,
    ) by {
        let m = choose|m: int| 0 <= m < k && in_cell(#[trigger] rows[m], start, end, width, i, b);
        assert(0 <= m < k + 1 && in_cell(rows[m], start, end, width, i, b));
    }
    if !hit {
        assert forall|m: int|
            0 <= m < k + 1 && in_metric_range((#[trigger] rows[m]).0, start, end) implies exists|
            i: int,
        |
            0 <= i < after.len() && (#[trigger] after[i]).0 == rows[m].0.metric_id && after[i].1
                == bucket_start(rows[m].0.timestamp, width) by {
            let i = choose|i: int|
                0 <= i < before.len() && (#[trigger] before[i]).0 == rows[m].0.metric_id
                    && before[i].1 == bucket_start(rows[m].0.timestamp, width);
            assert(after[i] == before[i]);
        }
        return ;
    }
    assert(in_cell(row, start, end, width, id, bucket));
    assert(cell_seen(rows, k + 1, start, end, width, id, bucket)) by {
        assert(0 <= k < k + 1 && in_cell(rows[k], start, end, width, id, bucket));
    }
    let found = p < before.len() && before[p].0 == id && before[p].1 == bucket;
    if !found {
        // no bucket of this metric and time is listed, so no row fell into it
        assert(!cell_seen(rows, k, start, end, width, id, bucket)) by {
            if cell_seen(rows, k, start, end, width, id, bucket) {
                let m = choose|m: int|
                    0 <= m < k && in_cell(#[trigger] rows[m], start, end, width, id, bucket);
                assert(in_metric_range(rows[m].0, start, end));
                let i = choose|i: int|
                    0 <= i < before.len() && (#[trigger] before[i]).0 == rows[m].0.metric_id
                        && before[i].1 == bucket_start(rows[m].0.timestamp, width);
                if i < p {
                    assert(cell_before(before[i], (id, bucket, zero)));
                } else if i > p {
                    assert(cell_before(before[p], before[i]));
                }
            }
        }
        lemma_cell_unseen(rows, k, start, end, width, id, bucket);
    }
    // where the places of the listed buckets have gone
    assert forall|i: int| 0 <= i < after.len() implies cell_seen(
        rows,
        k + 1,
        start,
        end,
        width,
        (#[trigger] after[i]).0,
        after[i].1,
    ) && after[i].2 == cell_of(rows, k + 1, start, end, width, after[i].0, after[i].1) by {
        if found {
            if i != p {
                assert(after[i] == before[i]);
                assert(cell_seen(rows, k, start, end, width, before[i].0, before[i].1));
                if i < p {
                    assert(cell_before(before[i], before[p]));
                } else {
                    assert(cell_before(before[p], before[i]));
                }
            } else {
                assert(before[p].2 == cell_of(rows, k, start, end, width, id, bucket));
            }
        } else {
            if i < p {
                assert(after[i] == before[i]);
                assert(cell_seen(rows, k, start, end, width, before[i].0, before[i].1));
                assert(cell_before(before[i], (id, bucket, zero)));
            } else if i > p {
                assert(after[i] == before[i - 1]);
                assert(cell_seen(rows, k, start, end, width, before[i - 1].0, before[i - 1].1));
                if i - 1 > p {
                    assert(cell_before(before[p], before[i - 1]));
                }
            }
        }
    }
    assert forall|i: int, j: int| 0 <= i < j < after.len() implies cell_before(
        #[trigger] after[i],
        #[trigger] after[j],
    ) by {
        if found {
            assert(cell_before(before[i], before[j]));
        } else {
            let a = if i < p {
                i
            } else {
                i - 1
            };
            let b = if j < p {
                j
            } else {
                j - 1
            };
            if i != p && j != p {
                assert(after[i] == before[a]);
                assert(after[j] == before[b]);
                assert(cell_before(before[a], before[b]));
            } else if i == p {
                assert(after[j] == before[b]);
                if b > p {
                    assert(cell_before(before[p], before[b]));
                }
            } else {
                assert(after[i] == before[a]);
                assert(cell_before(before[a], (id, bucket, zero)));
            }
        }
    }
    assert forall|m: int|
        0 <= m < k + 1 && in_metric_range((#[trigger] rows[m]).0, start, end) implies exists|i: int|
        0 <= i < after.len() && (#[trigger] after[i]).0 == rows[m].0.metric_id && after[i].1
            == bucket_start(rows[m].0.timestamp, width) by {
        if m < k {
            let i = choose|i: int|
                0 <= i < before.len() && (#[trigger] before[i]).0 == rows[m].0.metric_id
                    && before[i].1 == bucket_start(rows[m].0.timestamp, width);
            let at = if found || i < p {
                i
            } else {
                i + 1
            };
            assert(after[at].0 == before[i].0 && after[at].1 == before[i].1);
        } else {
            assert(after[p].0 == id && after[p].1 == bucket);
        }
    }
}

proof fn lemma_cell_unseen(
    rows: Seq<(MetricKey, i64)>,
    n: int,
    start: UtcTimestamp,
    end: UtcTimestamp,
    width: u64,
    id: MetricId,
    bucket: u64,
)
    requires
        0 <= n <= rows.len(),
        !cell_seen(rows, n, start, end, width, id, bucket),
    ensures
        cell_of(rows, n, start, end, width, id, bucket) == (AggregatedMetric { count: 0, sum: 0 }),
    decreases n,
{
    if n > 0 {
        assert(!in_cell(rows[n - 1], start, end, width, id, bucket));
        assert(!cell_seen(rows, n - 1, start, end, width, id, bucket)) by {
            if cell_seen(rows, n - 1, start, end, width, id, bucket) {
                let k = choose|k: int|
                    0 <= k < n - 1 && in_cell(#[trigger] rows[k], start, end, width, id, bucket);
                assert(in_cell(rows[k], start, end, width, id, bucket));
            }
        }
        lemma_cell_unseen(rows, n - 1, start, end, width, id, bucket);
    }
}

} // verus!
