//! Schema of the tables and the logic that sits between the typed values
//! and the ordered byte store.

pub mod bytes;
pub mod dbtypes;
pub mod errorspec;
pub mod fingerprint;
pub mod intervaltree;
pub mod metricspec;
pub mod notify;
pub mod symdb;
pub mod table;
pub mod tables;

use crate::storage::table::{MergeOperator, StorageOpt, Table};
use crate::storage::tables::executables::Executables;
use crate::storage::tables::metrics::Metrics;
use crate::storage::tables::stackframes::StackFrames;
use crate::storage::tables::stacktraces::StackTraces;
use crate::storage::tables::traceevents::TraceEvents;
use vstd::prelude::*;

verus! {

/// Schema version.
///
/// It goes up with every change to the raw form of a key or to the layout
/// of a value: neither can be read across such a change. The data of each
/// version lies in a directory of its own.
pub const DB_VERSION: u32 = 4;

/// The tables, as far as they live in memory.
pub struct Db {
    pub trace_events: TraceEvents,
    pub stack_traces: StackTraces,
    pub stack_frames: StackFrames,
    pub executables: Executables,
    pub metrics: Metrics,
}

impl Db {
    /// Number of tables.
    pub const NUM_TABLES: usize = 5;

    /// The tables, each set up as the schema says and with an empty
    /// cache.
    ///
    /// The events and the metrics are read in the order of time and are
    /// set up for sequential reading; the other tables are looked up by
    /// key and are set up for random access. Only the metrics merge what
    /// is written to a record. A cache holds 16384 values; that of the
    /// stack traces, which are read most often, holds 8192.
    pub fn new() -> (db: Db)
        ensures
            db.trace_events.table.is_new(MergeOperator::Default, StorageOpt::SeqRead, 16384),
            db.stack_traces.table.is_new(MergeOperator::Default, StorageOpt::RandomAccess, 8192),
            db.stack_frames.table.is_new(MergeOperator::Default, StorageOpt::RandomAccess, 16384),
            db.executables.table.is_new(MergeOperator::Default, StorageOpt::RandomAccess, 16384),
            db.metrics.table.is_new(MergeOperator::Associative, StorageOpt::SeqRead, 16384),
    {
        Db {
            trace_events: TraceEvents::new(),
            stack_traces: StackTraces::new(),
            stack_frames: StackFrames::new(),
            executables: Executables::new(),
            metrics: Metrics::new(),
        }
    }

    /// All tables, in the order in which their sequence numbers are
    /// watched.
    pub fn tables(&self) -> (tables: [&Table; 5])
        ensures
            *tables[0] == self.trace_events.table,
            *tables[1] == self.stack_traces.table,
            *tables[2] == self.stack_frames.table,
            *tables[3] == self.executables.table,
            *tables[4] == self.metrics.table,
    {
        [
            &self.trace_events.table,
            &self.stack_traces.table,
            &self.stack_frames.table,
            &self.executables.table,
            &self.metrics.table,
        ]
    }

    /// The name of the directory of each table below the directory of the
    /// schema version, in the order of [`Db::tables`].
    pub fn table_dirs() -> (dirs: [&'static str; 5])
        ensures
            dirs[0]@ == "trace_events"@,
            dirs[1]@ == "stack_traces"@,
            dirs[2]@ == "stack_frames"@,
            dirs[3]@ == "executables"@,
            dirs[4]@ == "metrics"@,
    {
        ["trace_events", "stack_traces", "stack_frames", "executables", "metrics"]
    }
}

/// Draws the number that tells the trace events of one second apart:
/// `rand::random::<u64>()`. Nothing is known of the number drawn.
#[verifier::external_body]
pub(crate) fn generate_id() -> u64 {
    rand::random::<u64>()
}

} // verus!
