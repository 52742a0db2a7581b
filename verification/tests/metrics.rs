use devfiler::storage::metricspec::{MetricKind, MetricSpec, MetricSpecs};
use devfiler::storage::tables::metrics::{
    merge, saturating_sum, AggregatedMetric, MetricKey, Metrics,
};

fn catalog() -> MetricSpecs {
    let spec = |id, kind| MetricSpec {
        id,
        unit: None,
        name: format!("metric {}", id),
        field: None,
        kind,
    };
    MetricSpecs::new(Some(vec![spec(1, MetricKind::Counter), spec(2, MetricKind::Gauge)]))
}

fn key(metric_id: u32) -> MetricKey {
    MetricKey { timestamp: 100, metric_id }
}

#[test]
fn counter_sums_up() {
    let specs = catalog();
    assert_eq!(merge(&specs, key(1), Some(10), &vec![1, 2, 3]), Some(16));
    assert_eq!(merge(&specs, key(1), None, &vec![1, 2, 3]), Some(6));
    assert_eq!(merge(&specs, key(1), Some(10), &vec![]), Some(10));
    assert_eq!(merge(&specs, key(1), None, &vec![]), Some(0));
    assert_eq!(merge(&specs, key(1), Some(5), &vec![-7]), Some(-2));
}

#[test]
fn counter_holds_at_the_ends_of_the_range() {
    let specs = catalog();
    assert_eq!(merge(&specs, key(1), Some(i64::MAX - 1), &vec![5]), Some(i64::MAX));
    assert_eq!(merge(&specs, key(1), Some(i64::MAX), &vec![5, -5]), Some(i64::MAX - 5));
    assert_eq!(merge(&specs, key(1), Some(i64::MIN + 1), &vec![-5]), Some(i64::MIN));
    assert_eq!(merge(&specs, key(1), Some(i64::MIN), &vec![-1, 1]), Some(i64::MIN + 1));
    assert_eq!(saturating_sum(i64::MAX, 1), i64::MAX);
    assert_eq!(saturating_sum(i64::MIN, -1), i64::MIN);
    assert_eq!(saturating_sum(i64::MAX, i64::MIN), -1);
    assert_eq!(saturating_sum(-3, 5), 2);
    for (a, b) in [(i64::MAX, i64::MAX), (i64::MIN, i64::MIN), (7, -9), (0, 0), (i64::MIN, i64::MAX)] {
        assert_eq!(saturating_sum(a, b), a.saturating_add(b));
    }
}

#[test]
fn merge_does_not_depend_on_the_grouping() {
    let specs = catalog();
    let chains: Vec<(i64, Vec<i64>)> = vec![
        (0, vec![1, 2, 3]),
        (10, vec![-4, 9, 100]),
        (i64::MAX - 3, vec![2, 2, -10]),
        (i64::MIN + 3, vec![-2, -2, 10]),
        (5, vec![i64::MAX, i64::MIN, i64::MAX]),
    ];
    for id in [1u32, 2] {
        for (prev, values) in &chains {
            let (a, b, c) = (values[0], values[1], values[2]);
            let at_once = merge(&specs, key(id), Some(*prev), &vec![a, b, c]);
            let first = merge(&specs, key(id), Some(*prev), &vec![a]);
            assert_eq!(merge(&specs, key(id), first, &vec![b, c]), at_once);
            let first_two = merge(&specs, key(id), Some(*prev), &vec![a, b]);
            assert_eq!(merge(&specs, key(id), first_two, &vec![c]), at_once);
            if id == 1 {
                assert_eq!(
                    at_once,
                    Some(prev.saturating_add(a).saturating_add(b).saturating_add(c))
                );
            } else {
                assert_eq!(at_once, Some((*prev).max(a).max(b).max(c)));
            }
        }
    }
}

#[test]
fn gauge_keeps_the_largest_value() {
    let specs = catalog();
    assert_eq!(merge(&specs, key(2), Some(10), &vec![1, 20, 3]), Some(20));
    assert_eq!(merge(&specs, key(2), Some(10), &vec![1, 2, 3]), Some(10));
    assert_eq!(merge(&specs, key(2), None, &vec![-1, -2]), Some(0));
    assert_eq!(merge(&specs, key(2), Some(-5), &vec![-1, -2]), Some(-1));
    assert_eq!(merge(&specs, key(2), None, &vec![]), Some(0));
}

#[test]
fn unknown_metric_keeps_the_newest_value() {
    let specs = catalog();
    assert_eq!(merge(&specs, key(3), Some(10), &vec![1, 2, 3]), Some(3));
    assert_eq!(merge(&specs, key(0), None, &vec![7]), Some(7));
    assert_eq!(merge(&specs, key(3), Some(10), &vec![]), None);
    assert_eq!(merge(&MetricSpecs::new(None), key(1), Some(10), &vec![1, 2]), Some(2));
}

fn row(timestamp: u64, metric_id: u32, value: i64) -> (MetricKey, i64) {
    (MetricKey { timestamp, metric_id }, value)
}

#[test]
fn metrics_time_range() {
    let rows = vec![
        row(9, 1, 0),
        row(10, 0, 1),
        row(10, u32::MAX, 2),
        row(15, 7, 3),
        row(20, 0, 4),
        row(20, 0xFFFF_FFFE, 5),
        row(20, u32::MAX, 6),
        row(21, 0, 7),
    ];
    let found: Vec<i64> = Metrics::time_range(&rows, 10, 20).iter().map(|r| r.1).collect();
    assert_eq!(found, vec![1, 2, 3, 4, 5]);
    assert_eq!(
        Metrics::time_range_keys(10, 20),
        (MetricKey { timestamp: 10, metric_id: 0 }, MetricKey { timestamp: 20, metric_id: u32::MAX })
    );
    assert!(Metrics::time_range(&rows, 30, 40).is_empty());
    assert!(Metrics::time_range(&rows, 20, 10).is_empty());
    assert!(Metrics::in_range(rows[1].0, 10, 20));
    assert!(!Metrics::in_range(rows[0].0, 10, 20));
    assert!(!Metrics::in_range(rows[6].0, 10, 20));
}

fn cell(agg: &AggregatedMetric) -> (u64, i64) {
    (agg.count(), agg.sum())
}

#[test]
fn histograms_group_by_metric_and_time() {
    let rows = vec![
        row(100, 2, 5),
        row(101, 1, 10),
        row(104, 1, 20),
        row(105, 1, 30),
        row(109, 2, 7),
        row(110, 1, 40),
        row(119, 1, -15),
        row(120, 1, 1000), // the metric id is not the last one, so the row is in
        row(120, u32::MAX, 1), // at the stop key
        row(99, 1, 1),     // before the window
    ];
    // window of 20 seconds in 4 buckets: 5 seconds each
    let histograms = Metrics::histograms(&rows, 100, 120, 4);
    assert_eq!(histograms.len(), 2);
    assert_eq!(histograms[0].0, 1);
    let one: Vec<(u64, (u64, i64))> =
        histograms[0].1.iter().map(|(t, a)| (*t, cell(a))).collect();
    assert_eq!(
        one,
        vec![(100, (2, 30)), (105, (1, 30)), (110, (1, 40)), (115, (1, -15)), (120, (1, 1000))]
    );
    assert_eq!(histograms[1].0, 2);
    let two: Vec<(u64, (u64, i64))> =
        histograms[1].1.iter().map(|(t, a)| (*t, cell(a))).collect();
    assert_eq!(two, vec![(100, (1, 5)), (105, (1, 7))]);

    let cells = Metrics::histogram_cells(&rows, 100, 120, 4);
    let flat: Vec<(u32, u64, u64, i64)> =
        cells.iter().map(|(id, t, a)| (*id, *t, a.count(), a.sum())).collect();
    assert_eq!(
        flat,
        vec![
            (1, 100, 2, 30),
            (1, 105, 1, 30),
            (1, 110, 1, 40),
            (1, 115, 1, -15),
            (1, 120, 1, 1000),
            (2, 100, 1, 5),
            (2, 105, 1, 7),
        ]
    );
}

#[test]
fn histogram_buckets_are_at_least_a_second_wide() {
    let rows = vec![row(10, 1, 1), row(10, 1, 2), row(11, 1, 3), row(12, 1, 4)];
    // more buckets than seconds
    let histograms = Metrics::histograms(&rows, 10, 13, 100);
    let one: Vec<(u64, (u64, i64))> =
        histograms[0].1.iter().map(|(t, a)| (*t, cell(a))).collect();
    assert_eq!(one, vec![(10, (2, 3)), (11, (1, 3)), (12, (1, 4))]);
    // a window without length
    let histograms = Metrics::histograms(&rows, 10, 10, 1);
    assert_eq!(histograms.len(), 1);
    assert_eq!(cell(&histograms[0].1[0].1), (2, 3));
    assert!(Metrics::histograms(&vec![], 0, 100, 10).is_empty());
}

#[test]
fn histogram_rows_may_come_in_any_order() {
    let sorted = vec![row(1, 1, 1), row(2, 2, 2), row(3, 1, 3), row(8, 2, 4), row(9, 1, 5)];
    let mut mixed = sorted.clone();
    mixed.reverse();
    mixed.swap(1, 3);
    let a = Metrics::histogram_cells(&sorted, 0, 10, 2);
    let b = Metrics::histogram_cells(&mixed, 0, 10, 2);
    let view = |cells: &Vec<(u32, u64, AggregatedMetric)>| -> Vec<(u32, u64, u64, i64)> {
        cells.iter().map(|(id, t, a)| (*id, *t, a.count(), a.sum())).collect()
    };
    assert_eq!(view(&a), view(&b));
    assert_eq!(view(&a), vec![(1, 0, 2, 4), (1, 5, 1, 5), (2, 0, 1, 2), (2, 5, 1, 4)]);
}

#[test]
fn aggregated_metric_sum_and_average() {
    let agg = AggregatedMetric::default();
    assert_eq!((agg.count(), agg.sum(), agg.avg()), (0, 0, 0));
    let agg = agg.add(10).add(20).add(5);
    assert_eq!((agg.count(), agg.sum(), agg.avg()), (3, 35, 11));
    let agg = AggregatedMetric::default().add(-10).add(-20).add(-5);
    // rounded towards zero
    assert_eq!((agg.sum(), agg.avg()), (-35, -11));
    let agg = AggregatedMetric::default().add(i64::MIN);
    assert_eq!(agg.avg(), i64::MIN);
    let agg = agg.add(-1);
    assert_eq!((agg.sum(), agg.avg()), (i64::MIN, i64::MIN / 2));
    let agg = AggregatedMetric::default().add(i64::MAX).add(i64::MAX);
    assert_eq!((agg.sum(), agg.avg()), (i64::MAX, i64::MAX / 2));
    assert_eq!(MetricKey::default(), MetricKey { timestamp: 0, metric_id: 0 });
}
