use devfiler::storage::errorspec::{error_spec_by_id, ErrorSpec, ErrorSpecs};
use devfiler::storage::metricspec::{metric_spec_by_id, MetricKind, MetricSpec, MetricSpecs};

fn error(id: u64, name: &str) -> ErrorSpec {
    ErrorSpec {
        id,
        name: name.to_string(),
        description: format!("description of {}", name),
        obsolete: false,
    }
}

fn metric(id: u32, name: &str, kind: MetricKind) -> MetricSpec {
    MetricSpec {
        id,
        unit: None,
        name: name.to_string(),
        field: Some(format!("agent.{}", name)),
        kind,
    }
}

#[test]
fn errorspec_parses() {
    let specs = ErrorSpecs::new(Some(vec![
        error(0, "ok"),
        error(1, "unreachable"),
        error(4001, "native_zero_pc"),
    ]));
    assert!(specs.loaded());
}

#[test]
fn metricspec_parses() {
    let specs = MetricSpecs::new(Some(vec![
        metric(1, "CPUUsage", MetricKind::Gauge),
        metric(2, "IOThroughput", MetricKind::Counter),
    ]));
    assert!(specs.loaded());
}

#[test]
fn errorspec_unreadable_catalog_is_empty() {
    let specs = ErrorSpecs::new(None);
    assert!(!specs.loaded());
    assert!(error_spec_by_id(&specs, 0).is_none());
}

#[test]
fn errorspec_lookup_by_id() {
    let specs = ErrorSpecs::new(Some(vec![
        error(1, "unreachable"),
        error(4001, "native_zero_pc"),
        error(1, "replaced"),
    ]));
    assert_eq!(error_spec_by_id(&specs, 4001).unwrap().name, "native_zero_pc");
    assert_eq!(error_spec_by_id(&specs, 1).unwrap().name, "replaced");
    assert!(error_spec_by_id(&specs, 2).is_none());
}

#[test]
fn metricspec_unreadable_catalog_is_empty() {
    let specs = MetricSpecs::new(None);
    assert!(!specs.loaded());
    assert!(metric_spec_by_id(&specs, 0).is_none());
    assert!(metric_spec_by_id(&specs, 7).is_none());
}

#[test]
fn metricspec_lookup_with_gaps() {
    let specs = MetricSpecs::new(Some(vec![
        metric(5, "five", MetricKind::Counter),
        metric(2, "two", MetricKind::Gauge),
        metric(5, "five again", MetricKind::Gauge),
    ]));
    assert!(metric_spec_by_id(&specs, 0).is_none());
    assert!(metric_spec_by_id(&specs, 3).is_none());
    assert!(metric_spec_by_id(&specs, 6).is_none());
    assert_eq!(metric_spec_by_id(&specs, 2).unwrap().name, "two");
    let five = metric_spec_by_id(&specs, 5).unwrap();
    assert_eq!(five.name, "five again");
    assert_eq!(five.kind, MetricKind::Gauge);
}

#[test]
fn metricspec_empty_list_is_loaded() {
    let specs = MetricSpecs::new(Some(vec![]));
    assert!(specs.loaded());
    assert!(metric_spec_by_id(&specs, 0).is_none());
}
