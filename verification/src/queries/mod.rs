//! Queries over the tables that go beyond a single table.

pub mod flamegraph;
pub mod top_funcs;
