//! The `trace_events` table: one record per sampled stack trace, in the
//! order of time.

use crate::storage::bytes::{
    be_u64, be_value8, le_u64, le_value8, lemma_be_u64_order, lemma_concat_eq,
    lemma_lex_lt_concat, lemma_lex_trichotomy, lemma_u64_round_trip, lex_before, lex_lt,
    u64_from_be, u64_from_le, u64_to_be, u64_to_le,
};
use crate::storage::dbtypes::UtcTimestamp;
use crate::storage::table::{MergeOperator, StorageOpt, Table, TableKey};
use crate::storage::tables::stacktraces::Frame;
use crate::storage::tables::executables::opt_text;
use crate::storage::tables::stacktraces::TraceHash;
use vstd::prelude::*;
use vstd::slice::slice_to_vec;

verus! {

/// How a sample was recorded.
///
/// `Mixed` is what a query asks for when it wants every kind; `_MaxKind` only
/// closes a range of keys and is never stored.
#[derive(Debug, PartialEq, Eq, Hash, Clone, Copy, Structural)]
pub enum SampleKind {
    Unknown,
    Mixed,
    OnCPU,
    OffCPU,
    _MaxKind,
}

impl Default for SampleKind {
    fn default() -> (kind: SampleKind)
        ensures
            kind == SampleKind::Unknown,
    {
        SampleKind::Unknown
    }
}

impl SampleKind {
    /// The byte that stands for the kind in a key.
    pub open spec fn code_spec(self) -> u8 {
        match self {
            SampleKind::Unknown => 0,
            SampleKind::Mixed => 1,
            SampleKind::OnCPU => 2,
            SampleKind::OffCPU => 3,
            SampleKind::_MaxKind => 4,
        }
    }

    /// The kind that a byte of a key stands for, if any.
    pub open spec fn try_from_spec(value: u8) -> Result<SampleKind, ()> {
        if value == 0 {
            Ok(SampleKind::Unknown)
        } else if value == 1 {
            Ok(SampleKind::Mixed)
        } else if value == 2 {
            Ok(SampleKind::OnCPU)
        } else if value == 3 {
            Ok(SampleKind::OffCPU)
        } else {
            Err(())
        }
    }

    /// The byte that stands for the kind in a key.
    pub fn code(self) -> (value: u8)
        ensures
            value == self.code_spec(),
    {
        match self {
            SampleKind::Unknown => 0,
            SampleKind::Mixed => 1,
            SampleKind::OnCPU => 2,
            SampleKind::OffCPU => 3,
            SampleKind::_MaxKind => 4,
        }
    }

    /// The kind that `value` stands for; an error for a byte above 3.
    pub fn try_from(value: u8) -> (kind: Result<SampleKind, ()>)
        ensures
            kind == SampleKind::try_from_spec(value),
            kind.is_ok() <==> value <= 3,
    {
        match value {
            0 => Ok(SampleKind::Unknown),
            1 => Ok(SampleKind::Mixed),
            2 => Ok(SampleKind::OnCPU),
            3 => Ok(SampleKind::OffCPU),
            _ => Err(()),
        }
    }
}

/// Unique identifier for a trace event.
///
/// The timestamp comes first in the raw form, most significant byte first,
/// so that the table is ordered by time. The `id` tells events of one second
/// apart and the kind closes the key.
#[derive(Debug, PartialEq, Eq, Hash, Clone, Copy, Structural)]
pub struct TraceCountId {
    pub timestamp: UtcTimestamp,
    pub kind: SampleKind,
    pub id: u64,
}

impl Default for TraceCountId {
    fn default() -> (key: TraceCountId)
        ensures
            key == (TraceCountId { timestamp: 0, kind: SampleKind::Unknown, id: 0 }),
    {
        TraceCountId { timestamp: 0, kind: SampleKind::Unknown, id: 0 }
    }
}

impl TableKey for TraceCountId {
    type B = [u8; 17];

    open spec fn width() -> nat {
        17
    }

    open spec fn raw_view(raw: [u8; 17]) -> Seq<u8> {
        raw@
    }

    open spec fn encoding(self) -> Seq<u8> {
        be_u64(self.timestamp) + (le_u64(self.id) + seq![self.kind.code_spec()])
    }

    open spec fn decoding(bytes: Seq<u8>) -> TraceCountId {
        TraceCountId {
            timestamp: be_value8(bytes.subrange(0, 8)) as u64,
            id: le_value8(bytes.subrange(8, 16)) as u64,
            kind: match SampleKind::try_from_spec(bytes[16]) {
                Ok(kind) => kind,
                Err(_) => SampleKind::Unknown,
            },
        }
    }

    /// Every kind but the one that only closes a range.
    open spec fn storable(self) -> bool {
        self.kind != SampleKind::_MaxKind
    }

    /// By time; within one second by the stored bytes of the `id`, then by
    /// the kind.
    open spec fn key_le(self, other: TraceCountId) -> bool {
        self.timestamp < other.timestamp || (self.timestamp == other.timestamp && (lex_lt(
            le_u64(self.id),
            le_u64(other.id),
        ) || (self.id == other.id && self.kind.code_spec() <= other.kind.code_spec())))
    }

    fn from_raw(data: [u8; 17]) -> (key: TraceCountId) {
        let t: [u8; 8] = [
            data[0], data[1], data[2], data[3], data[4], data[5], data[6], data[7],
        ];
        let i: [u8; 8] = [
            data[8], data[9], data[10], data[11], data[12], data[13], data[14], data[15],
        ];
        assert(t@ =~= data@.subrange(0, 8));
        assert(i@ =~= data@.subrange(8, 16));
        let kind = match SampleKind::try_from(data[16]) {
            Ok(kind) => kind,
            Err(_) => SampleKind::Unknown,
        };
        TraceCountId { timestamp: u64_from_be(&t), id: u64_from_le(&i), kind }
    }

    fn into_raw(self) -> (raw: [u8; 17]) {
        let t = u64_to_be(self.timestamp);
        let i = u64_to_le(self.id);
        let k = self.kind.code();
        proof {
            lemma_u64_round_trip(self.timestamp);
            lemma_u64_round_trip(self.id);
        }
        let raw: [u8; 17] = [
            t[0], t[1], t[2], t[3], t[4], t[5], t[6], t[7],
            i[0], i[1], i[2], i[3], i[4], i[5], i[6], i[7],
            k,
        ];
        assert(raw@ =~= t@ + (i@ + seq![k]));
        raw
    }

    fn to_bytes(self) -> (bytes: Vec<u8>) {
        let raw = self.into_raw();
        slice_to_vec(raw.as_slice())
    }

    fn precedes(self, other: TraceCountId) -> (r: bool) {
        if self.timestamp != other.timestamp {
            return self.timestamp < other.timestamp;
        }
        let a = u64_to_le(self.id);
        let b = u64_to_le(other.id);
        if lex_before(a.as_slice(), b.as_slice()) {
            return true;
        }
        proof {
            lemma_u64_round_trip(self.id);
            lemma_u64_round_trip(other.id);
        }
        self.id == other.id && self.kind.code() <= other.kind.code()
    }

    proof fn lemma_round_trip(self) {
        let t = be_u64(self.timestamp);
        let i = le_u64(self.id);
        let k = seq![self.kind.code_spec()];
        lemma_u64_round_trip(self.timestamp);
        lemma_u64_round_trip(self.id);
        let e = t + (i + k);
        assert(e.subrange(0, 8) =~= t);
        assert(e.subrange(8, 16) =~= i);
        assert(e[16] == self.kind.code_spec());
    }

    proof fn lemma_key_order(self, other: TraceCountId) {
        let (t1, i1, k1) = (be_u64(self.timestamp), le_u64(self.id), seq![self.kind.code_spec()]);
        let (t2, i2, k2) = (
            be_u64(other.timestamp),
            le_u64(other.id),
            seq![other.kind.code_spec()],
        );
        lemma_u64_round_trip(self.timestamp);
        lemma_u64_round_trip(other.timestamp);
        lemma_u64_round_trip(self.id);
        lemma_u64_round_trip(other.id);
        lemma_be_u64_order(self.timestamp, other.timestamp);
        lemma_lex_lt_concat(t1, i1 + k1, t2, i2 + k2);
        lemma_concat_eq(t1, i1 + k1, t2, i2 + k2);
        lemma_lex_lt_concat(i1, k1, i2, k2);
        lemma_concat_eq(i1, k1, i2, k2);
        lemma_lex_trichotomy(i1, i2);
        reveal_with_fuel(lex_lt, 2);
        assert(lex_lt(k1, k2) <==> self.kind.code_spec() < other.kind.code_spec());
        assert(k1 == k2 <==> self.kind.code_spec() == other.kind.code_spec()) by {
            if self.kind.code_spec() == other.kind.code_spec() {
                assert(k1 =~= k2);
            } else {
                assert(k1[0] != k2[0]);
            }
        }
    }
}

/// Stack trace event.
#[derive(Debug, Clone, PartialEq, Eq)]
pub struct TraceCount {
    pub timestamp: UtcTimestamp,
    pub trace_hash: TraceHash,
    pub count: u32,
    pub comm: String,
    pub pod_name: Option<String>,
    pub container_name: Option<String>,
}

/// What a [`TraceCount`] holds.
pub struct TraceCountView {
    pub timestamp: UtcTimestamp,
    pub trace_hash: TraceHash,
    pub count: u32,
    pub comm: Seq<char>,
    pub pod_name: Option<Seq<char>>,
    pub container_name: Option<Seq<char>>,
}

impl View for TraceCount {
    type V = TraceCountView;

    open spec fn view(&self) -> TraceCountView {
        TraceCountView {
            timestamp: self.timestamp,
            trace_hash: self.trace_hash,
            count: self.count,
            comm: self.comm@,
            pod_name: opt_text(self.pod_name),
            container_name: opt_text(self.container_name),
        }
    }
}

/// List of `(timestamp, count)` buckets.
pub type EventCountBuckets = Vec<(UtcTimestamp, u64)>;

/// Frame list and how often we've seen it.
#[derive(Debug, Clone, PartialEq, Eq)]
pub struct SampledTrace {
    pub count: u64,
    pub trace: Vec<Frame>,
}

/// The `trace_events` table. It is read in the order of time and set up
/// for sequential reading.
pub struct TraceEvents {
    pub table: Table,
}

/// The first key of a walk over the events of a kind from `start` on.
pub open spec fn first_key(start: UtcTimestamp, kind: SampleKind) -> TraceCountId {
    TraceCountId { timestamp: start, kind, id: 0 }
}

/// The key at which a walk over the events of a kind up to `end` stops.
/// A walk over all kinds stops behind the last of them.
pub open spec fn stop_key(end: UtcTimestamp, kind: SampleKind) -> TraceCountId {
    TraceCountId {
        timestamp: end,
        kind: if kind == SampleKind::Unknown || kind == SampleKind::Mixed {
            SampleKind::_MaxKind
        } else {
            kind
        },
        id: u64::MAX,
    }
}

/// Whether a query for `kind` takes events of every kind.
pub open spec fn takes_all(kind: SampleKind) -> bool {
    kind == SampleKind::Unknown || kind == SampleKind::Mixed
}

/// Whether an event belongs to the time range from `start` to `end` of a
/// query for `kind`: its key lies from the first key on and before the
/// stop key, in the order of the table, and it is of the kind asked for.
pub open spec fn in_time_range(
    key: TraceCountId,
    start: UtcTimestamp,
    end: UtcTimestamp,
    kind: SampleKind,
) -> bool {
    &&& first_key(start, kind).key_le(key)
    &&& !stop_key(end, kind).key_le(key)
    &&& (takes_all(kind) || key.kind == kind)
}

/// `a + b`, held at the upper end of the 64-bit range.
pub open spec fn capped(a: int) -> u64 {
    if a > u64::MAX {
        u64::MAX
    } else if a < 0 {
        0
    } else {
        a as u64
    }
}

/// The width of a bucket: the length of the window divided by the number
/// of buckets, and at least one.
pub open spec fn step_of(start: UtcTimestamp, end: UtcTimestamp, buckets: usize) -> u64 {
    if (end - start) / (buckets as int) < 1 {
        1
    } else {
        ((end - start) / (buckets as int)) as u64
    }
}

/// The start of the window, moved down to a multiple of the step.
pub open spec fn aligned_start(start: UtcTimestamp, step: u64) -> u64 {
    (start - start % step) as u64
}

/// The end of the window, moved up to a multiple of the step; left where
/// it is if that multiple does not fit in 64 bits.
pub open spec fn aligned_end(end: UtcTimestamp, step: u64) -> u64 {
    if end % step == 0 || end - end % step + step > u64::MAX {
        end
    } else {
        (end - end % step + step) as u64
    }
}

/// The sum of the counts of the events, among the first `n` rows, that
/// belong to the time range and fall into the bucket that starts at
/// `bucket`.
pub open spec fn bucket_count(
    rows: Seq<(TraceCountId, TraceCount)>,
    n: int,
    kind: SampleKind,
    from: u64,
    to: u64,
    step: u64,
    bucket: int,
) -> int
    decreases n,
{
    if n <= 0 {
        0
    } else {
        let key = rows[n - 1].0;
        bucket_count(rows, n - 1, kind, from, to, step, bucket) + if in_time_range(
            key,
            from,
            to,
            kind,
        ) && (key.timestamp - from) / (step as int) == bucket {
            rows[n - 1].1.count as int
        } else {
            0
        }
    }
}

proof fn lemma_bucket_count_nonneg(
    rows: Seq<(TraceCountId, TraceCount)>,
    n: int,
    kind: SampleKind,
    from: u64,
    to: u64,
    step: u64,
    bucket: int,
)
    ensures
        bucket_count(rows, n, kind, from, to, step, bucket) >= 0,
    decreases n,
{
    if n > 0 {
        lemma_bucket_count_nonneg(rows, n - 1, kind, from, to, step, bucket);
    }
}

/// The trace that is stored under a fingerprint: the first of the listed
/// ones.
pub open spec fn trace_of(traces: Seq<(TraceHash, Vec<Frame>)>, hash: TraceHash, from: int) -> Option<
    Seq<Frame>,
>
    decreases traces.len() - from,
{
    if from < 0 || from >= traces.len() {
        None
    } else if traces[from].0 == hash {
        Some(traces[from].1@)
    } else {
        trace_of(traces, hash, from + 1)
    }
}

/// The sum of the counts of the events, among the first `n` rows, that
/// belong to the time range and are of the trace `hash`.
pub open spec fn trace_count(
    rows: Seq<(TraceCountId, TraceCount)>,
    n: int,
    kind: SampleKind,
    start: u64,
    end: u64,
    hash: TraceHash,
) -> int
    decreases n,
{
    if n <= 0 {
        0
    } else {
        trace_count(rows, n - 1, kind, start, end, hash) + if in_time_range(
            rows[n - 1].0,
            start,
            end,
            kind,
        ) && rows[n - 1].1.trace_hash == hash {
            rows[n - 1].1.count as int
        } else {
            0
        }
    }
}

/// Whether an event, among the first `n` rows, belongs to the time range
/// and is of the trace `hash`.
pub open spec fn trace_seen(
    rows: Seq<(TraceCountId, TraceCount)>,
    n: int,
    kind: SampleKind,
    start: u64,
    end: u64,
    hash: TraceHash,
) -> bool {
    exists|k: int|
        0 <= k < n && in_time_range((#[trigger] rows[k]).0, start, end, kind)
            && rows[k].1.trace_hash == hash
}

/// Whether `sampled` is what the first `n` rows give: one entry for each
/// trace that has an event in the time range and whose frame list is
/// stored, with the frame list and the sum of the counts of its events,
/// held at the upper end of the 64-bit range.
pub open spec fn samples_of(
    sampled: Seq<(TraceHash, SampledTrace)>,
    rows: Seq<(TraceCountId, TraceCount)>,
    n: int,
    traces: Seq<(TraceHash, Vec<Frame>)>,
    kind: SampleKind,
    start: u64,
    end: u64,
) -> bool {
    &&& forall|i: int, j: int|
        0 <= i < j < sampled.len() ==> (#[trigger] sampled[i]).0 != (#[trigger] sampled[j]).0
    &&& forall|i: int|
        0 <= i < sampled.len() ==> {
            let hash = (#[trigger] sampled[i]).0;
            &&& trace_seen(rows, n, kind, start, end, hash)
            &&& trace_of(traces, hash, 0) == Some(sampled[i].1.trace@)
            &&& sampled[i].1.count == capped(trace_count(rows, n, kind, start, end, hash))
        }
    &&& forall|k: int|
        0 <= k < n && in_time_range((#[trigger] rows[k]).0, start, end, kind) && trace_of(
            traces,
            rows[k].1.trace_hash,
            0,
        ) is Some ==> exists|i: int|
            0 <= i < sampled.len() && (#[trigger] sampled[i]).0 == rows[k].1.trace_hash
}

impl TraceEvents {
    /// The table with its empty cache.
    pub fn new() -> (events: TraceEvents)
        ensures
            events.table.is_new(MergeOperator::Default, StorageOpt::SeqRead, 16384),
    {
        TraceEvents { table: Table::new(MergeOperator::Default, StorageOpt::SeqRead, 16384) }
    }

    /// The keys between which the table is to be walked for the events of
    /// a time range: from the first on, up to not including the second.
    pub fn time_range_keys(start: UtcTimestamp, end: UtcTimestamp, kind: SampleKind) -> (keys: (
        TraceCountId,
        TraceCountId,
    ))
        ensures
            keys.0 == first_key(start, kind),
            keys.1 == stop_key(end, kind),
    {
        let end_kind = match kind {
            SampleKind::Unknown | SampleKind::Mixed => SampleKind::_MaxKind,
            _ => kind,
        };
        (
            TraceCountId { timestamp: start, kind, id: 0 },
            TraceCountId { timestamp: end, kind: end_kind, id: u64::MAX },
        )
    }

    /// Whether an event belongs to the time range of a query for `kind`.
    pub fn in_range(key: TraceCountId, start: UtcTimestamp, end: UtcTimestamp, kind: SampleKind) -> (r:
        bool)
        ensures
            r == in_time_range(key, start, end, kind),
    {
        let (first, stop) = TraceEvents::time_range_keys(start, end, kind);
        let all = match kind {
            SampleKind::Unknown | SampleKind::Mixed => true,
            _ => false,
        };
        first.precedes(key) && !stop.precedes(key) && (all || key.kind == kind)
    }

    /// Iterate over events in the given time range: of the rows, those
    /// that belong to it, in the order in which they came.
    pub fn time_range(
        rows: &Vec<(TraceCountId, TraceCount)>,
        start: UtcTimestamp,
        end: UtcTimestamp,
        kind: SampleKind,
    ) -> (places: Vec<usize>)
        ensures
            forall|i: int, j: int| 0 <= i < j < places.len() ==> places[i] < places[j],
            forall|i: int|
                0 <= i < places.len() ==> (#[trigger] places[i]) < rows.len() && in_time_range(
                    rows[places[i] as int].0,
                    start,
                    end,
                    kind,
                ),
            forall|k: int|
                0 <= k < rows.len() && in_time_range((#[trigger] rows[k]).0, start, end, kind)
                    ==> exists|i: int| 0 <= i < places.len() && #[trigger] places[i] == k,
    {
        let mut places: Vec<usize> = Vec::new();
        let mut k: usize = 0;
        while k < rows.len()
            invariant
                k <= rows.len(),
                forall|i: int, j: int| 0 <= i < j < places.len() ==> places[i] < places[j],
                forall|i: int|
                    0 <= i < places.len() ==> (#[trigger] places[i]) < k && in_time_range(
                        rows[places[i] as int].0,
                        start,
                        end,
                        kind,
                    ),
                forall|m: int|
                    0 <= m < k && in_time_range((#[trigger] rows[m]).0, start, end, kind)
                        ==> exists|i: int| 0 <= i < places.len() && #[trigger] places[i] == m,
            decreases rows.len() - k,
        {
            if TraceEvents::in_range(rows[k].0, start, end, kind) {
                let ghost before = places@;
                places.push(k);
                proof {
                    assert forall|m: int|
                        0 <= m < k + 1 && in_time_range(
                            (#[trigger] rows[m]).0,
                            start,
                            end,
                            kind,
                        ) implies exists|i: int| 0 <= i < places.len() && #[trigger] places[i]
                        == m by {
                        if m < k {
                            let i = choose|i: int| 0 <= i < before.len() && #[trigger] before[i] == m;
                            assert(places[i] == m);
                        } else {
                            assert(places[places.len() - 1] == m);
                        }
                    }
                }
            }
            k += 1;
        }
        places
    }

    /// Group the given time range into buckets and count the number of
    /// events in each bucket.
    ///
    /// The width of a bucket is the length of the window divided by
    /// `buckets`, and at least one. The window is widened to whole
    /// buckets: its start moves down, its end up, to a multiple of the
    /// width. An empty window, or no buckets at all, gives nothing. Each
    /// bucket is listed with the time it starts at and the sum of the
    /// counts of the events of the kind that fall into it, held at the
    /// upper end of the 64-bit range.
    pub fn event_count_buckets(
        rows: &Vec<(TraceCountId, TraceCount)>,
        kind: SampleKind,
        start: UtcTimestamp,
        end: UtcTimestamp,
        buckets: usize,
    ) -> (counts: EventCountBuckets)
        ensures
            start >= end || buckets == 0 ==> counts.len() == 0,
            start < end && buckets > 0 ==> {
                let step = step_of(start, end, buckets);
                let from = aligned_start(start, step);
                let to = aligned_end(end, step);
                &&& counts.len() == (to - from) / (step as int) + 1
                &&& forall|i: int|
                    0 <= i < counts.len() ==> (#[trigger] counts[i]).0 == from + i * step
                        && counts[i].1 == capped(
                        bucket_count(rows@, rows.len() as int, kind, from, to, step, i),
                    )
            },
    {
        let mut counts: Vec<(UtcTimestamp, u64)> = Vec::new();
        if start >= end || buckets == 0 {
            return counts;
        }
        let duration = end - start;
        let per = duration / (buckets as u64);
        let step: u64 = if per < 1 {
            1
        } else {
            per
        };
        proof {
            vstd::arithmetic::div_mod::lemma_mod_decreases(start as nat, step as nat);
            vstd::arithmetic::div_mod::lemma_mod_decreases(end as nat, step as nat);
            vstd::arithmetic::div_mod::lemma_mod_bound(end as int, step as int);
        }
        let from = start - start % step;
        let to = if end % step == 0 || end - end % step > u64::MAX - step {
            end
        } else {
            end - end % step + step
        };
        assert(step == step_of(start, end, buckets));
        assert(from == aligned_start(start, step));
        assert(to == aligned_end(end, step));
        let mut t = from;
        let ghost total = (to - from) / (step as int) + 1;
        proof {
            assert(0 * step == 0) by (nonlinear_arith);
            vstd::arithmetic::div_mod::lemma_div_pos_is_pos(to - from, step as int);
        }
        loop
            invariant_except_break
                from <= t <= to,
                step >= 1,
                from <= to,
                t == from + counts.len() * step,
                counts.len() < total,
                total == (to - from) / (step as int) + 1,
                forall|i: int|
                    0 <= i < counts.len() ==> (#[trigger] counts[i]).0 == from + i * step
                        && counts[i].1 == 0,
            ensures
                step >= 1,
                from <= to,
                counts.len() == total,
                total == (to - from) / (step as int) + 1,
                forall|i: int|
                    0 <= i < counts.len() ==> (#[trigger] counts[i]).0 == from + i * step
                        && counts[i].1 == 0,
            decreases to - t,
        {
            proof {
                let n = counts.len() as int;
                assert(n * step <= to - from);
                assert((n + 1) * step == n * step + step) by (nonlinear_arith);
                vstd::arithmetic::div_mod::lemma_div_is_ordered(n * step, to - from, step as int);
                vstd::arithmetic::div_mod::lemma_div_multiples_vanish(n, step as int);
            }
            counts.push((t, 0));
            if to - t < step {
                proof {
                    let n = counts.len() as int;
                    let d = to - from;
                    assert((n - 1) * step <= d < (n - 1) * step + step);
                    assert((n - 1) * step + step == n * step) by (nonlinear_arith);
                    vstd::arithmetic::div_mod::lemma_fundamental_div_mod_converse(
                        d,
                        step as int,
                        n - 1,
                        d - (n - 1) * step,
                    );
                }
                break ;
            }
            proof {
                let n = counts.len() as int;
                let d = to - from;
                assert(n * step == (n - 1) * step + step) by (nonlinear_arith);
                assert(n * step <= d);
                vstd::arithmetic::div_mod::lemma_div_is_ordered(n * step, d, step as int);
                vstd::arithmetic::div_mod::lemma_div_multiples_vanish(n, step as int);
            }
            t = t + step;
        }
        let mut k: usize = 0;
        while k < rows.len()
            invariant
                k <= rows.len(),
                step >= 1,
                from <= to,
                counts.len() == (to - from) / (step as int) + 1,
                forall|i: int|
                    0 <= i < counts.len() ==> (#[trigger] counts[i]).0 == from + i * step
                        && counts[i].1 == capped(
                        bucket_count(rows@, k as int, kind, from, to, step, i),
                    ),
            decreases rows.len() - k,
        {
            let key = rows[k].0;
            let count = rows[k].1.count;
            let ghost before = counts@;
            if TraceEvents::in_range(key, from, to, kind) {
                assert(from <= key.timestamp <= to);
                let at = (key.timestamp - from) / step;
                proof {
                    vstd::arithmetic::div_mod::lemma_div_is_ordered(
                        key.timestamp - from,
                        to - from,
                        step as int,
                    );
                }
                let idx = at as usize;
                let entry = counts[idx];
                counts[idx] = (entry.0, entry.1.saturating_add(count as u64));
                proof {
                    assert forall|i: int| 0 <= i < counts.len() implies (#[trigger] counts[i]).0
                        == from + i * step && counts[i].1 == capped(
                        bucket_count(rows@, k + 1, kind, from, to, step, i),
                    ) by {
                        lemma_bucket_count_nonneg(rows@, k as int, kind, from, to, step, i);
                        if i != idx {
                            assert(counts[i] == before[i]);
                        }
                    }
                }
            } else {
                proof {
                    assert forall|i: int| 0 <= i < counts.len() implies (#[trigger] counts[i]).0
                        == from + i * step && counts[i].1 == capped(
                        bucket_count(rows@, k + 1, kind, from, to, step, i),
                    ) by {}
                }
            }
            k += 1;
        }
        counts
    }

    /// Sample trace events and merge them by their trace hash.
    ///
    /// `traces` holds the frame lists that the table of stack traces has
    /// for the traces of the events. An event whose trace is not among
    /// them is passed over: a frame list may be written after the event
    /// that names it. Nothing is sampled down: every event of the time
    /// range counts.
    pub fn sample_events(
        rows: &Vec<(TraceCountId, TraceCount)>,
        traces: &Vec<(TraceHash, Vec<Frame>)>,
        kind: SampleKind,
        start: UtcTimestamp,
        end: UtcTimestamp,
    ) -> (sampled: Vec<(TraceHash, SampledTrace)>)
        ensures
            samples_of(sampled@, rows@, rows.len() as int, traces@, kind, start, end),
    {
        let mut sampled: Vec<(TraceHash, SampledTrace)> = Vec::new();
        let mut k: usize = 0;
        while k < rows.len()
            invariant
                k <= rows.len(),
                samples_of(sampled@, rows@, k as int, traces@, kind, start, end),
            decreases rows.len() - k,
        {
            let key = rows[k].0;
            let hash = rows[k].1.trace_hash;
            let count = rows[k].1.count;
            let ghost before = sampled@;
            if TraceEvents::in_range(key, start, end, kind) {
                let mut i: usize = 0;
                while i < sampled.len() && sampled[i].0 != hash
                    invariant
                        i <= sampled.len(),
                        forall|j: int| 0 <= j < i ==> (#[trigger] sampled[j]).0 != hash,
                    decreases sampled.len() - i,
                {
                    i += 1;
                }
                if i < sampled.len() {
                    let was = sampled[i].1.count;
                    sampled[i].1.count = was.saturating_add(count as u64);
                    proof {
                        lemma_trace_count_nonneg(rows@, k as int, kind, start, end, hash);
                        assert forall|a: int| 0 <= a < sampled.len() implies (
                        #[trigger] sampled[a]).0 == before[a].0 && sampled[a].1.trace
                            == before[a].1.trace by {}
                        lemma_samples_step(before, sampled@, rows@, k as int, traces@, kind, start, end);
                    }
                } else {
                    let mut t: usize = 0;
                    while t < traces.len() && traces[t].0 != hash
                        invariant
                            t <= traces.len(),
                            trace_of(traces@, hash, 0) == trace_of(traces@, hash, t as int),
                        decreases traces.len() - t,
                    {
                        t += 1;
                    }
                    if t < traces.len() {
                        let trace = copy_frames(&traces[t].1);
                        sampled.push((hash, SampledTrace { count: count as u64, trace }));
                        proof {
                            lemma_unseen_count(rows@, k as int, kind, start, end, hash);
                            assert forall|a: int| 0 <= a < before.len() implies (
                            #[trigger] sampled[a]) == before[a] by {}
                            lemma_samples_step(
                                before,
                                sampled@,
                                rows@,
                                k as int,
                                traces@,
                                kind,
                                start,
                                end,
                            );
                        }
                    } else {
                        proof {
                            lemma_samples_step(
                                before,
                                sampled@,
                                rows@,
                                k as int,
                                traces@,
                                kind,
                                start,
                                end,
                            );
                        }
                    }
                }
            } else {
                proof {
                    lemma_samples_step(before, sampled@, rows@, k as int, traces@, kind, start, end);
                }
            }
            k += 1;
        }
        sampled
    }
}

/// Copies a frame list.
pub fn copy_frames(frames: &Vec<Frame>) -> (copy: Vec<Frame>)
    ensures
        copy@ == frames@,
{
    let mut copy: Vec<Frame> = Vec::new();
    let mut i: usize = 0;
    while i < frames.len()
        invariant
            i <= frames.len(),
            copy@ == frames@.take(i as int),
        decreases frames.len() - i,
    {
        copy.push(frames[i]);
        assert(frames@.take(i + 1) =~= frames@.take(i as int).push(frames@[i as int]));
        i += 1;
    }
    assert(frames@.take(frames.len() as int) =~= frames@);
    copy
}

proof fn lemma_trace_count_nonneg(
    rows: Seq<(TraceCountId, TraceCount)>,
    n: int,
    kind: SampleKind,
    start: u64,
    end: u64,
    hash: TraceHash,
)
    ensures
        trace_count(rows, n, kind, start, end, hash) >= 0,
    decreases n,
{
    if n > 0 {
        lemma_trace_count_nonneg(rows, n - 1, kind, start, end, hash);
    }
}

proof fn lemma_unseen_count(
    rows: Seq<(TraceCountId, TraceCount)>,
    n: int,
    kind: SampleKind,
    start: u64,
    end: u64,
    hash: TraceHash,
)
    requires
        0 <= n <= rows.len(),
        !trace_seen(rows, n, kind, start, end, hash),
    ensures
        trace_count(rows, n, kind, start, end, hash) == 0,
    decreases n,
{
    if n > 0 {
        assert(!(in_time_range(rows[n - 1].0, start, end, kind) && rows[n - 1].1.trace_hash == hash));
        assert(!trace_seen(rows, n - 1, kind, start, end, hash)) by {
            if trace_seen(rows, n - 1, kind, start, end, hash) {
                let k = choose|k: int|
                    0 <= k < n - 1 && in_time_range((#[trigger] rows[k]).0, start, end, kind)
                        && rows[k].1.trace_hash == hash;
                assert(in_time_range(rows[k].0, start, end, kind) && rows[k].1.trace_hash == hash);
            }
        }
        lemma_unseen_count(rows, n - 1, kind, start, end, hash);
    }
}

/// One more row taken in. What was sampled before the row, `before`, and
/// after it, `after`, differ as the row asks: where the row belongs to the
/// time range and its trace is stored, the entry of its trace has its
/// count raised by that of the row, or is new, at the end, with the count
/// of the row; else nothing has changed.
proof fn lemma_samples_step(
    before: Seq<(TraceHash, SampledTrace)>,
    after: Seq<(TraceHash, SampledTrace)>,
    rows: Seq<(TraceCountId, TraceCount)>,
    k: int,
    traces: Seq<(TraceHash, Vec<Frame>)>,
    kind: SampleKind,
    start: u64,
    end: u64,
)
    requires
        0 <= k < rows.len(),
        samples_of(before, rows, k, traces, kind, start, end),
        ({
            let row = rows[k];
            let hash = row.1.trace_hash;
            if in_time_range(row.0, start, end, kind) && trace_of(traces, hash, 0) is Some {
                if exists|i: int| 0 <= i < before.len() && (#[trigger] before[i]).0 == hash {
                    &&& after.len() == before.len()
                    &&& forall|a: int|
                        0 <= a < before.len() ==> (#[trigger] after[a]).0 == before[a].0
                            && after[a].1.trace == before[a].1.trace && after[a].1.count == if before[a].0
                            == hash {
                            capped(before[a].1.count + row.1.count)
                        } else {
                            before[a].1.count
                        }
                } else {
                    &&& after.len() == before.len() + 1
                    &&& forall|a: int| 0 <= a < before.len() ==> #[trigger] after[a] == before[a]
                    &&& after[before.len() as int].0 == hash
                    &&& Some(after[before.len() as int].1.trace@) == trace_of(traces, hash, 0)
                    &&& after[before.len() as int].1.count == row.1.count
                }
            } else {
                after == before
            }
        }),
    ensures
        samples_of(after, rows, k + 1, traces, kind, start, end),
{
    let row = rows[k];
    let hash = row.1.trace_hash;
    let hit = in_time_range(row.0, start, end, kind);
    assert forall|h: TraceHash| #[trigger]
        trace_seen(rows, k, kind, start, end, h) implies trace_seen(
        rows,
        k + 1,
        kind,
        start,
        end,
        h,
    ) by {
        let m = choose|m: int|
            0 <= m < k && in_time_range((#[trigger] rows[m]).0, start, end, kind)
                && rows[m].1.trace_hash == h;
        assert(0 <= m < k + 1 && in_time_range(rows[m].0, start, end, kind) && rows[m].1.trace_hash
            == h);
    }
    if hit {
        assert(trace_seen(rows, k + 1, kind, start, end, hash)) by {
            assert(0 <= k < k + 1 && in_time_range(rows[k].0, start, end, kind)
                && rows[k].1.trace_hash == hash);
        }
    }
    assert forall|i: int| 0 <= i < after.len() implies {
        let h = (#[trigger] after[i]).0;
        &&& trace_seen(rows, k + 1, kind, start, end, h)
        &&& trace_of(traces, h, 0) == Some(after[i].1.trace@)
        &&& after[i].1.count == capped(trace_count(rows, k + 1, kind, start, end, h))
    } by {
        let h = after[i].0;
        lemma_trace_count_nonneg(rows, k, kind, start, end, h);
        if i < before.len() {
            assert(before[i].0 == h);
            assert(trace_seen(rows, k, kind, start, end, h));
        } else {
            assert(!(exists|a: int| 0 <= a < before.len() && (#[trigger] before[a]).0 == hash));
            if trace_seen(rows, k, kind, start, end, hash) {
                let m = choose|m: int|
                    0 <= m < k && in_time_range((#[trigger] rows[m]).0, start, end, kind)
                        && rows[m].1.trace_hash == hash;
                assert(rows[m].1.trace_hash == hash);
                let a = choose|a: int|
                    0 <= a < before.len() && (#[trigger] before[a]).0 == rows[m].1.trace_hash;
                assert(before[a].0 == hash);
            }
            lemma_unseen_count(rows, k, kind, start, end, hash);
        }
    }
    assert forall|i: int, j: int| 0 <= i < j < after.len() implies (#[trigger] after[i]).0 != (
    #[trigger] after[j]).0 by {
        if j < before.len() {
            assert(before[i].0 != before[j].0);
            assert(after[i].0 == before[i].0);
            assert(after[j].0 == before[j].0);
        } else {
            assert(after[i].0 == before[i].0);
            assert(before[i].0 != hash);
        }
    }
    assert forall|m: int|
        0 <= m < k + 1 && in_time_range((#[trigger] rows[m]).0, start, end, kind) && trace_of(
            traces,
            rows[m].1.trace_hash,
            0,
        ) is Some implies exists|i: int|
        0 <= i < after.len() && (#[trigger] after[i]).0 == rows[m].1.trace_hash by {
        if m < k {
            let i = choose|i: int|
                0 <= i < before.len() && (#[trigger] before[i]).0 == rows[m].1.trace_hash;
            assert(after[i].0 == before[i].0);
        } else {
            if exists|i: int| 0 <= i < before.len() && (#[trigger] before[i]).0 == hash {
                let i = choose|i: int| 0 <= i < before.len() && (#[trigger] before[i]).0 == hash;
                assert(after[i].0 == hash);
            } else {
                assert(after[before.len() as int].0 == hash);
            }
        }
    }
}

} // verus!
