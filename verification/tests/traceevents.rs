use devfiler::storage::dbtypes::FileId;
use devfiler::storage::tables::stackframes::FrameId;
use devfiler::storage::tables::stacktraces::{Frame, FrameKind, InterpKind, TraceHash};
use devfiler::storage::tables::traceevents::{
    copy_frames, SampleKind, SampledTrace, TraceCount, TraceCountId, TraceEvents,
};

fn event(timestamp: u64, kind: SampleKind, id: u64, hash: u128, count: u32) -> (TraceCountId, TraceCount) {
    (
        TraceCountId { timestamp, kind, id },
        TraceCount {
            timestamp,
            trace_hash: TraceHash(hash),
            count,
            comm: String::new(),
            pod_name: None,
            container_name: None,
        },
    )
}

fn rows() -> Vec<(TraceCountId, TraceCount)> {
    vec![
        event(99, SampleKind::OnCPU, 1, 1, 1000),
        event(100, SampleKind::OnCPU, 1, 1, 1),
        event(100, SampleKind::OffCPU, 2, 2, 2),
        event(104, SampleKind::OnCPU, 3, 1, 4),
        event(105, SampleKind::OnCPU, 4, 2, 8),
        event(110, SampleKind::Unknown, 5, 3, 16),
        event(119, SampleKind::OnCPU, 6, 1, 32),
        event(120, SampleKind::OnCPU, 7, 1, 64),
        event(120, SampleKind::OnCPU, u64::MAX, 1, 128),
        event(121, SampleKind::OnCPU, 8, 1, 2000),
    ]
}

#[test]
fn empty_window_or_no_buckets_give_nothing() {
    let rows = rows();
    assert!(TraceEvents::event_count_buckets(&rows, SampleKind::OnCPU, 100, 100, 10).is_empty());
    assert!(TraceEvents::event_count_buckets(&rows, SampleKind::OnCPU, 120, 100, 10).is_empty());
    assert!(TraceEvents::event_count_buckets(&rows, SampleKind::OnCPU, 100, 120, 0).is_empty());
    assert!(TraceEvents::event_count_buckets(&rows, SampleKind::Mixed, u64::MAX, 0, 1).is_empty());
    assert!(TraceEvents::event_count_buckets(&vec![], SampleKind::Mixed, 5, 5, 0).is_empty());
}

#[test]
fn events_are_counted_in_buckets() {
    // 20 seconds in 4 buckets of 5 seconds; the window is on multiples of 5 already
    let counts = TraceEvents::event_count_buckets(&rows(), SampleKind::OnCPU, 100, 120, 4);
    // the event at 120 with the largest id lies at the stop key and is left out
    assert_eq!(counts, vec![(100, 5), (105, 8), (110, 0), (115, 32), (120, 64)]);
    let counts = TraceEvents::event_count_buckets(&rows(), SampleKind::OffCPU, 100, 120, 4);
    assert_eq!(counts, vec![(100, 2), (105, 0), (110, 0), (115, 0), (120, 0)]);
}

#[test]
fn all_kinds_are_counted_for_mixed_and_unknown() {
    for kind in [SampleKind::Mixed, SampleKind::Unknown] {
        let counts = TraceEvents::event_count_buckets(&rows(), kind, 100, 120, 4);
        assert_eq!(counts, vec![(100, 7), (105, 8), (110, 16), (115, 32), (120, 192)]);
    }
}

#[test]
fn window_is_widened_to_whole_buckets() {
    // 17 seconds in 3 buckets of 5 seconds: from 100 up to 120
    let counts = TraceEvents::event_count_buckets(&rows(), SampleKind::OnCPU, 102, 119, 3);
    assert_eq!(counts, vec![(100, 5), (105, 8), (110, 0), (115, 32), (120, 64)]);
    // more buckets than seconds: one bucket for each second
    let counts = TraceEvents::event_count_buckets(&rows(), SampleKind::OnCPU, 104, 106, 100);
    assert_eq!(counts, vec![(104, 4), (105, 8), (106, 0)]);
    // one bucket as long as the window
    let counts = TraceEvents::event_count_buckets(&rows(), SampleKind::OnCPU, 100, 110, 1);
    assert_eq!(counts, vec![(100, 13), (110, 0)]);
}

#[test]
fn bucket_counts_hold_at_the_upper_end() {
    let mut rows = Vec::new();
    for id in 0..3 {
        rows.push(event(5, SampleKind::OnCPU, id, 1, u32::MAX));
    }
    let counts = TraceEvents::event_count_buckets(&rows, SampleKind::OnCPU, 0, 10, 1);
    assert_eq!(counts, vec![(0, 3 * u32::MAX as u64), (10, 0)]);
    // a window at the end of time is not moved beyond it
    let rows = vec![event(u64::MAX, SampleKind::OnCPU, 0, 1, 9)];
    let counts =
        TraceEvents::event_count_buckets(&rows, SampleKind::OnCPU, u64::MAX - 10, u64::MAX, 2);
    assert_eq!(counts.len(), 3);
    assert_eq!(counts[0].0, u64::MAX - 10);
    assert_eq!(counts[2], (u64::MAX, 9));
}

#[test]
fn time_range_of_a_kind() {
    let rows = rows();
    assert_eq!(TraceEvents::time_range(&rows, 100, 120, SampleKind::OnCPU), vec![1, 3, 4, 6, 7]);
    assert_eq!(TraceEvents::time_range(&rows, 100, 120, SampleKind::OffCPU), vec![2]);
    assert_eq!(
        TraceEvents::time_range(&rows, 100, 120, SampleKind::Mixed),
        vec![1, 2, 3, 4, 5, 6, 7, 8]
    );
    assert_eq!(TraceEvents::time_range(&rows, 200, 300, SampleKind::Mixed), Vec::<usize>::new());
    let (first, stop) = TraceEvents::time_range_keys(100, 120, SampleKind::Mixed);
    assert_eq!(first, TraceCountId { timestamp: 100, kind: SampleKind::Mixed, id: 0 });
    assert_eq!(stop, TraceCountId { timestamp: 120, kind: SampleKind::_MaxKind, id: u64::MAX });
    let (first, stop) = TraceEvents::time_range_keys(1, 2, SampleKind::OffCPU);
    assert_eq!(first.kind, SampleKind::OffCPU);
    assert_eq!(stop.kind, SampleKind::OffCPU);
    assert!(TraceEvents::in_range(rows[8].0, 100, 120, SampleKind::Mixed));
    assert!(!TraceEvents::in_range(rows[8].0, 100, 120, SampleKind::OnCPU));
    assert!(!TraceEvents::in_range(rows[0].0, 100, 120, SampleKind::OnCPU));
}

fn frames(addr: u64) -> Vec<Frame> {
    vec![Frame {
        id: FrameId { file_id: FileId(7), addr_or_line: addr },
        kind: FrameKind::Regular(InterpKind::Native),
    }]
}

#[test]
fn events_are_merged_by_their_trace() {
    let traces = vec![
        (TraceHash(1), frames(10)),
        (TraceHash(3), frames(30)),
        (TraceHash(1), frames(99)), // the first one of a hash counts
    ];
    let sampled = TraceEvents::sample_events(&rows(), &traces, SampleKind::Mixed, 100, 120);
    assert_eq!(
        sampled,
        vec![
            (TraceHash(1), SampledTrace { count: 1 + 4 + 32 + 64 + 128, trace: frames(10) }),
            // the trace with hash 2 is not stored: its events are passed over
            (TraceHash(3), SampledTrace { count: 16, trace: frames(30) }),
        ]
    );
    let sampled = TraceEvents::sample_events(&rows(), &traces, SampleKind::OnCPU, 100, 120);
    assert_eq!(
        sampled,
        vec![(TraceHash(1), SampledTrace { count: 1 + 4 + 32 + 64, trace: frames(10) })]
    );
    assert!(TraceEvents::sample_events(&rows(), &vec![], SampleKind::Mixed, 100, 120).is_empty());
    assert!(TraceEvents::sample_events(&rows(), &traces, SampleKind::Mixed, 300, 400).is_empty());
    assert_eq!(copy_frames(&frames(5)), frames(5));
    assert_eq!(copy_frames(&vec![]), vec![]);
}
