//! What arrives from the profiling agents, and what becomes of it.

pub mod otlp;

use std::collections::VecDeque;
use vstd::prelude::*;

verus! {

/// The number of requests that the log keeps.
pub const RING_CAPACITY: usize = 100;

/// Logged request.
#[derive(Debug, Clone, PartialEq, Eq)]
pub struct LoggedRequest<P> {
    /// Meta-data of the transport, as names and values.
    pub meta: Vec<(String, String)>,
    /// Request type.
    pub kind: String,
    /// When the request was received, in seconds.
    pub timestamp: u64,
    /// Payload, in a form that is shaped like JSON.
    pub payload: P,
}

/// Collector info and statistics: how many messages were processed, and
/// the last of them.
pub struct Stats<P> {
    msgs_processed: u64,
    ring: VecDeque<LoggedRequest<P>>,
}

impl<P> Stats<P> {
    /// Whether the log is in order: it keeps no more requests than
    /// `RING_CAPACITY`. Every log that [`Stats::new`] has made is, and
    /// stays so.
    pub closed spec fn wf(&self) -> bool {
        self.ring@.len() <= RING_CAPACITY
    }

    /// The number of messages that were processed, which wraps around
    /// at the end of 64 bits.
    pub closed spec fn processed(&self) -> u64 {
        self.msgs_processed
    }

    /// The requests that the log keeps, the oldest first.
    pub closed spec fn logged(&self) -> Seq<LoggedRequest<P>> {
        self.ring@
    }

    /// A log without requests.
    pub fn new() -> (stats: Stats<P>)
        ensures
            stats.wf(),
            stats.processed() == 0,
            stats.logged() == Seq::<LoggedRequest<P>>::empty(),
    {
        Stats { msgs_processed: 0, ring: VecDeque::new() }
    }

    /// Counts a message and logs it.
    ///
    /// The count goes up whether or not the message can be logged;
    /// `request` is `None` for a message whose payload could not be
    /// brought into its logged form. A log that is full gives up its
    /// oldest request for the new one.
    pub fn log_request(&mut self, request: Option<LoggedRequest<P>>)
        requires
            old(self).wf(),
        ensures
            final(self).wf(),
            final(self).processed() == if old(self).processed() == u64::MAX {
                0
            } else {
                (old(self).processed() + 1) as u64
            },
            final(self).logged() == match request {
                None => old(self).logged(),
                Some(r) => if old(self).logged().len() == RING_CAPACITY {
                    old(self).logged().drop_first().push(r)
                } else {
                    old(self).logged().push(r)
                },
            },
    {
        self.msgs_processed = if self.msgs_processed == u64::MAX {
            0
        } else {
            self.msgs_processed + 1
        };
        match request {
            None => {},
            Some(r) => {
                if self.ring.len() == RING_CAPACITY {
                    let dropped = self.ring.pop_front();
                    assert(self.ring@ =~= old(self).ring@.drop_first());
                }
                self.ring.push_back(r);
            },
        }
    }

    /// The number of messages that were processed.
    pub fn msgs_processed(&self) -> (n: u64)
        ensures
            n == self.processed(),
    {
        self.msgs_processed
    }

    /// The number of requests that the log keeps.
    pub fn len(&self) -> (n: usize)
        ensures
            n == self.logged().len(),
    {
        self.ring.len()
    }

    /// The request at place `i` of the log, the oldest being at place
    /// zero.
    pub fn get(&self, i: usize) -> (request: Option<&LoggedRequest<P>>)
        ensures
            match request {
                Some(r) => i < self.logged().len() && *r == self.logged()[i as int],
                None => i >= self.logged().len(),
            },
    {
        if i < self.ring.len() {
            Some(&self.ring[i])
        } else {
            None
        }
    }
}

} // verus!
