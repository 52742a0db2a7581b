//! Notification mechanism about table changes.

use vstd::prelude::*;

verus! {

/// Tracks table sequence numbers for change detection.
///
/// The store advances the sequence number of a table on every write,
/// delete and commit. Whoever holds the store reads the numbers of the
/// tables and hands them in.
#[derive(Debug)]
pub struct UpdateWatcher {
    prev_seq: Option<[u64; 5]>,
}

impl Default for UpdateWatcher {
    fn default() -> (watcher: UpdateWatcher)
        ensures
            watcher.seen() is None,
    {
        UpdateWatcher { prev_seq: None }
    }
}

impl UpdateWatcher {
    /// The sequence numbers that were handed in last; none before the
    /// first call.
    pub closed spec fn seen(&self) -> Option<Seq<u64>> {
        match self.prev_seq {
            Some(seq) => Some(seq@),
            None => None,
        }
    }

    /// Detect whether any table changed since the last call.
    ///
    /// The first call will always return `true`, whatever the numbers are.
    /// Every later call returns `true` exactly if one of the numbers
    /// differs from what the call before it was given.
    pub fn any_changes(&mut self, seqs: [u64; 5]) -> (changed: bool)
        ensures
            final(self).seen() == Some(seqs@),
            changed == match old(self).seen() {
                None => true,
                Some(prev) => prev != seqs@,
            },
    {
        let changed = match &self.prev_seq {
            None => true,
            Some(prev) => {
                let mut any_change = false;
                let mut i: usize = 0;
                while i < 5
                    invariant
                        i <= 5,
                        any_change == exists|k: int| 0 <= k < i && prev@[k] != seqs@[k],
                    decreases 5 - i,
                {
                    if prev[i] != seqs[i] {
                        any_change = true;
                    }
                    i += 1;
                }
                proof {
                    if !any_change {
                        assert(prev@ =~= seqs@);
                    }
                }
                any_change
            },
        };
        self.prev_seq = Some(seqs);
        changed
    }
}

} // verus!
