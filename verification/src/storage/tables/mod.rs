//! The tables: what keys them and what they hold.
//!
//! | table          | key            | value               |
//! |----------------|----------------|---------------------|
//! | `trace_events` | `TraceCountId` | `TraceCount`        |
//! | `stack_traces` | `TraceHash`    | list of `Frame`     |
//! | `stack_frames` | `FrameId`      | `FrameMetaData`     |
//! | `executables`  | `FileId`       | `ExecutableMeta`    |
//! | `metrics`      | `MetricKey`    | signed 64-bit value |

pub mod executables;
pub mod metrics;
pub mod stackframes;
pub mod stacktraces;
pub mod traceevents;
