//! The `executables` table: what is known of an executable and how far its
//! symbols have been fetched.

use crate::storage::dbtypes::UtcTimestamp;
use crate::storage::table::{MergeOperator, StorageOpt, Table};
use vstd::prelude::*;

verus! {

/// How far the symbols of an executable have been fetched.
#[derive(Debug, Clone, Copy, PartialEq, Eq, PartialOrd, Ord, Structural)]
pub enum SymbStatus {
    NotAttempted,
    TempError { last_attempt: UtcTimestamp },
    NotPresentGlobally,
    Complete { num_symbols: u64 },
}

/// Meta-data about an executable.
#[derive(Debug, Clone, PartialEq, Eq)]
pub struct ExecutableMeta {
    pub build_id: Option<String>,
    pub file_name: Option<String>,
    pub symb_status: SymbStatus,
}

/// The characters of a text that may be absent.
pub open spec fn opt_text(text: Option<String>) -> Option<Seq<char>> {
    match text {
        Some(t) => Some(t@),
        None => None,
    }
}

/// What an [`ExecutableMeta`] holds.
pub struct ExecutableMetaView {
    pub build_id: Option<Seq<char>>,
    pub file_name: Option<Seq<char>>,
    pub symb_status: SymbStatus,
}

impl View for ExecutableMeta {
    type V = ExecutableMetaView;

    open spec fn view(&self) -> ExecutableMetaView {
        ExecutableMetaView {
            build_id: opt_text(self.build_id),
            file_name: opt_text(self.file_name),
            symb_status: self.symb_status,
        }
    }
}

/// The `executables` table, keyed by the identifier of the executable.
pub struct Executables {
    pub table: Table,
}

impl Executables {
    /// The table with its empty cache.
    pub fn new() -> (executables: Executables)
        ensures
            executables.table.is_new(MergeOperator::Default, StorageOpt::RandomAccess, 16384),
    {
        Executables { table: Table::new(MergeOperator::Default, StorageOpt::RandomAccess, 16384) }
    }
}

} // verus!
