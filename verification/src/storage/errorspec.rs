//! The catalog of the errors that unwinding can end in.

use std::collections::HashMap;
use vstd::prelude::*;

verus! {

/// Information about an unwinding error.
#[derive(Debug, Clone, PartialEq, Eq)]
pub struct ErrorSpec {
    pub id: u64,
    pub name: String,
    pub description: String,
    pub obsolete: bool,
}

/// The catalog of errors, by their id.
pub struct ErrorSpecs {
    loaded: bool,
    by_id: HashMap<u64, ErrorSpec>,
}

/// The entries of a list by their id; of two entries with one id the later
/// one stays.
pub open spec fn errors_by_id(list: Seq<ErrorSpec>) -> Map<u64, ErrorSpec>
    decreases list.len(),
{
    if list.len() == 0 {
        Map::empty()
    } else {
        errors_by_id(list.drop_last()).insert(list.last().id, list.last())
    }
}

impl ErrorSpecs {
    /// Whether the catalog could be read.
    pub closed spec fn is_loaded(&self) -> bool {
        self.loaded
    }

    /// The entries of the catalog.
    pub closed spec fn entries(&self) -> Map<u64, ErrorSpec> {
        self.by_id@
    }

    /// Makes the catalog from what was read of it. A catalog that could not
    /// be read, `None`, gives an empty one, and the work goes on without.
    pub fn new(parsed: Option<Vec<ErrorSpec>>) -> (specs: ErrorSpecs)
        ensures
            specs.is_loaded() == parsed.is_some(),
            specs.entries() == match parsed {
                Some(list) => errors_by_id(list@),
                None => Map::empty(),
            },
    {
        broadcast use vstd::std_specs::hash::group_hash_axioms;

        let mut by_id: HashMap<u64, ErrorSpec> = HashMap::new();
        match parsed {
            None => ErrorSpecs { loaded: false, by_id },
            Some(list) => {
                let ghost all = list@;
                for spec in it: list
                    invariant
                        it.seq() == all,
                        by_id@ == errors_by_id(all.take(it.index() as int)),
                {
                    proof {
                        assert(all.take(it.index() + 1).drop_last() =~= all.take(it.index() as int));
                    }
                    by_id.insert(spec.id, spec);
                }
                assert(all.take(all.len() as int) =~= all);
                ErrorSpecs { loaded: true, by_id }
            },
        }
    }

    /// Whether the catalog could be read.
    pub fn loaded(&self) -> (r: bool)
        ensures
            r == self.is_loaded(),
    {
        self.loaded
    }
}

/// Get the specification for a given error by its ID.
pub fn error_spec_by_id(specs: &ErrorSpecs, id: u64) -> (spec: Option<&ErrorSpec>)
    ensures
        match spec {
            Some(s) => specs.entries().contains_key(id) && *s == specs.entries()[id],
            None => !specs.entries().contains_key(id),
        },
{
    broadcast use vstd::std_specs::hash::group_hash_axioms;

    specs.by_id.get(&id)
}

} // verus!
