//! The functions in which most samples were taken.
//!
//! A sample counts for a function when the function is anywhere in its
//! trace, and counts as the function's own when the function is the leaf.
//! A function that occurs more than once in a trace counts once for it.

use crate::storage::bytes::lex_before;
use crate::storage::dbtypes::UtcTimestamp;
use crate::storage::symdb::SymbolizedFrame;
use crate::storage::tables::executables::opt_text;
use crate::storage::tables::stacktraces::FrameKind;
use crate::storage::tables::traceevents::capped;
use crate::text::{contains_bytes, occurs_in};
use vstd::prelude::*;
use vstd::string::StringSliceAdditionalSpecFns;

verus! {

/// Maximum length of the top function table.
pub const MAX_LOCATIONS: usize = 500;

/// The number of bits of a heat map.
pub const HEATMAP_BITS: usize = 256;

/// Minimal fixed-size bit vector implementation.
#[derive(Debug, Clone, Copy, PartialEq, Eq)]
pub struct BitVec(pub [u8; 32]);

impl Default for BitVec {
    fn default() -> (bits: BitVec)
        ensures
            forall|n: int| 0 <= n < 256 ==> !bits.bit(n),
    {
        let bits = BitVec([0u8; 32]);
        proof {
            assert forall|n: int| 0 <= n < 256 implies !bits.bit(n) by {
                let k = (n % 8) as u8;
                assert((0u8 >> k) & 1 == 0) by (bit_vector);
            }
        }
        bits
    }
}

impl BitVec {
    /// Whether the nth bit is set.
    pub open spec fn bit(&self, n: int) -> bool {
        (self.0@[n / 8] >> ((n % 8) as u8)) & 1 == 1
    }

    /// Set the nth bit.
    pub fn set(&mut self, n: usize)
        requires
            n < HEATMAP_BITS,
        ensures
            final(self).bit(n as int),
            forall|m: int| 0 <= m < 256 && m != n ==> final(self).bit(m) == old(self).bit(m),
    {
        let at = n / 8;
        let k = (n % 8) as u8;
        let was = self.0[at];
        let now = was | (1u8 << k);
        proof {
            assert(forall|j: u8|
                j < 8 ==> #[trigger] ((now >> j) & 1) == if j == k {
                    1u8
                } else {
                    (was >> j) & 1
                }) by (bit_vector)
                requires
                    k < 8,
                    now == was | (1u8 << k),
            ;
        }
        self.0[at] = now;
        proof {
            assert forall|m: int| 0 <= m < 256 && m != n implies self.bit(m) == old(self).bit(
                m,
            ) by {
                let j = (m % 8) as u8;
                if m / 8 == at as int {
                    assert(((now >> j) & 1) == (was >> j) & 1);
                }
            }
            assert(((now >> k) & 1) == 1u8);
        }
    }

    /// The place of a moment in a window on the heat map: where the
    /// moment lies `elapsed` after the start of a window of length
    /// `duration`, the place is `elapsed * 255 / duration`, rounded down,
    /// and not beyond the last one. In a window without length, every moment
    /// behind the start lies at the last place.
    pub open spec fn place_of(elapsed: u64, duration: u64) -> int {
        if duration == 0 {
            if elapsed == 0 {
                0
            } else {
                255
            }
        } else if elapsed * 255 / (duration as int) > 255 {
            255
        } else {
            elapsed * 255 / (duration as int)
        }
    }

    /// The place of a moment in a window on the heat map.
    pub fn place(elapsed: u64, duration: u64) -> (at: usize)
        ensures
            at == BitVec::place_of(elapsed, duration),
            at < HEATMAP_BITS,
    {
        if duration == 0 {
            if elapsed == 0 {
                0
            } else {
                255
            }
        } else {
            let scaled: u128 = (elapsed as u128) * 255;
            let at: u128 = scaled / (duration as u128);
            if at > 255 {
                255
            } else {
                at as usize
            }
        }
    }

    /// Set the bit at the place of a moment in a window.
    pub fn set_ratio(&mut self, elapsed: u64, duration: u64)
        ensures
            final(self).bit(BitVec::place_of(elapsed, duration)),
            forall|m: int|
                0 <= m < 256 && m != BitVec::place_of(elapsed, duration) ==> final(self).bit(m)
                    == old(self).bit(m),
    {
        self.set(BitVec::place(elapsed, duration))
    }

    /// The individual bits of this bit vector, the first bit first.
    pub fn bits(&self) -> (bits: Vec<bool>)
        ensures
            bits.len() == HEATMAP_BITS,
            forall|n: int| 0 <= n < 256 ==> bits[n] == self.bit(n),
    {
        let mut bits: Vec<bool> = Vec::new();
        let mut n: usize = 0;
        while n < 256
            invariant
                n <= 256,
                bits.len() == n,
                forall|m: int| 0 <= m < n ==> bits[m] == self.bit(m),
            decreases 256 - n,
        {
            let byte = self.0[n / 8];
            let k = (n % 8) as u8;
            bits.push((byte >> k) & 1 == 1);
            n += 1;
        }
        bits
    }
}

/// A function as it is listed: by the kind of its frames, its name and
/// its file.
#[derive(Debug, Clone, PartialEq, Eq, Hash)]
pub struct Location {
    pub kind: FrameKind,
    pub func: String,
    pub file: Option<String>,
}

/// What a [`Location`] holds.
pub struct LocationView {
    pub kind: FrameKind,
    pub func: Seq<char>,
    pub file: Option<Seq<char>>,
}

impl View for Location {
    type V = LocationView;

    open spec fn view(&self) -> LocationView {
        LocationView { kind: self.kind, func: self.func@, file: opt_text(self.file) }
    }
}

/// Whether a filter lets a location through: the text of the filter
/// occurs in the name of the function or in the name of the file.
pub open spec fn loc_matches(loc: LocationView, filter: Seq<char>) -> bool {
    occurs_in(vstd::utf8::encode_utf8(filter), vstd::utf8::encode_utf8(loc.func)) || match loc.file {
        Some(file) => occurs_in(vstd::utf8::encode_utf8(filter), vstd::utf8::encode_utf8(file)),
        None => false,
    }
}

impl Location {
    /// Whether the text of the filter occurs in the name of the function
    /// or in the name of the file.
    pub fn matches_filter(&self, filter: &str) -> (r: bool)
        ensures
            r == loc_matches(self@, filter@),
    {
        if contains_bytes(self.func.as_str().as_bytes(), filter.as_bytes()) {
            return true;
        }
        match &self.file {
            Some(file) => contains_bytes(file.as_str().as_bytes(), filter.as_bytes()),
            None => false,
        }
    }

    /// Whether two locations are the same.
    pub fn same(&self, other: &Location) -> (r: bool)
        ensures
            r == (self@ == other@),
    {
        if !(self.kind == other.kind && str::eq(self.func.as_str(), other.func.as_str())) {
            return false;
        }
        match (&self.file, &other.file) {
            (Some(a), Some(b)) => str::eq(a.as_str(), b.as_str()),
            (None, None) => true,
            _ => false,
        }
    }
}

/// How often a function was seen, and when.
#[derive(Debug, Clone, Copy, PartialEq, Eq)]
pub struct Counts {
    /// The samples in which the function was the leaf.
    pub zelf: u64,
    /// The samples in which the function was anywhere in the trace.
    pub with_children: u64,
    /// When, within the window, the function was the leaf.
    pub heatmap_self: BitVec,
    /// When, within the window, the function was anywhere in a trace.
    pub heatmap_with_children: BitVec,
}

impl Default for Counts {
    fn default() -> (counts: Counts)
        ensures
            counts.zelf == 0,
            counts.with_children == 0,
            forall|n: int|
                0 <= n < 256 ==> !counts.heatmap_self.bit(n) && !counts.heatmap_with_children.bit(n),
    {
        Counts {
            zelf: 0,
            with_children: 0,
            heatmap_self: BitVec::default(),
            heatmap_with_children: BitVec::default(),
        }
    }
}

/// By which of its counts the list is ranked.
#[derive(Debug, Clone, Copy, PartialEq, Eq, Hash, Structural)]
pub enum SortField {
    Zelf,
    WithChildren,
}

impl Default for SortField {
    fn default() -> (field: SortField)
        ensures
            field == SortField::WithChildren,
    {
        SortField::WithChildren
    }
}

/// One event of the window with the frames of its trace, the leaf first,
/// each with the records of the functions at it as symbolization gives
/// them. An event whose trace is not stored has no frames.
#[derive(Debug, Clone, PartialEq, Eq)]
pub struct TopSample {
    pub timestamp: UtcTimestamp,
    pub count: u32,
    pub frames: Vec<(FrameKind, Vec<SymbolizedFrame>)>,
}

/// What one record gives to the list: the function that it names, where
/// it names one and the filter lets it through. An empty filter lets
/// everything through.
pub open spec fn record_loc(kind: FrameKind, record: SymbolizedFrame, filter: Seq<char>) -> Seq<
    LocationView,
> {
    match record.func {
        None => Seq::empty(),
        Some(func) => {
            let loc = LocationView { kind, func: func@, file: opt_text(record.file) };
            if filter.len() == 0 || loc_matches(loc, filter) {
                seq![loc]
            } else {
                Seq::empty()
            }
        },
    }
}

/// The functions that the last `n` records of a frame name, the last
/// record first.
pub open spec fn frame_locs(
    kind: FrameKind,
    records: Seq<SymbolizedFrame>,
    filter: Seq<char>,
    n: int,
) -> Seq<LocationView>
    decreases n,
{
    if n <= 0 {
        Seq::empty()
    } else {
        frame_locs(kind, records, filter, n - 1) + record_loc(
            kind,
            records[records.len() - n],
            filter,
        )
    }
}

/// The functions that the first `n` frames of a trace name, in the order
/// of the frames.
pub open spec fn trace_locs(
    frames: Seq<(FrameKind, Vec<SymbolizedFrame>)>,
    filter: Seq<char>,
    n: int,
) -> Seq<LocationView>
    decreases n,
{
    if n <= 0 {
        Seq::empty()
    } else {
        trace_locs(frames, filter, n - 1) + frame_locs(
            frames[n - 1].0,
            frames[n - 1].1@,
            filter,
            frames[n - 1].1@.len() as int,
        )
    }
}

/// A list without what occurs in it a second time.
pub open spec fn once_each(locs: Seq<LocationView>) -> Seq<LocationView>
    decreases locs.len(),
{
    if locs.len() == 0 {
        Seq::empty()
    } else {
        let rest = once_each(locs.drop_last());
        if rest.contains(locs.last()) {
            rest
        } else {
            rest.push(locs.last())
        }
    }
}

/// What a sample gives to one function.
pub struct Share {
    /// The function.
    pub loc: LocationView,
    /// The count of the sample.
    pub count: u32,
    /// The place of the sample on the heat map.
    pub place: int,
    /// Whether the function is the leaf of the sample.
    pub own: bool,
}

/// How long after the start of the window a sample was taken; nothing for
/// a sample from before the window.
pub open spec fn elapsed(timestamp: UtcTimestamp, start: UtcTimestamp) -> u64 {
    if timestamp >= start {
        (timestamp - start) as u64
    } else {
        0
    }
}

/// What a sample gives to the functions of its trace: one share for each
/// function, in the order in which the trace names them first. The first
/// of them is the leaf.
pub open spec fn sample_shares(
    sample: TopSample,
    filter: Seq<char>,
    start: UtcTimestamp,
    end: UtcTimestamp,
) -> Seq<Share> {
    let locs = once_each(trace_locs(sample.frames@, filter, sample.frames@.len() as int));
    Seq::new(
        locs.len(),
        |i: int|
            Share {
                loc: locs[i],
                count: sample.count,
                place: BitVec::place_of(elapsed(sample.timestamp, start), (end - start) as u64),
                own: i == 0,
            },
    )
}

/// What the first `n` samples give, sample after sample.
pub open spec fn shares(
    samples: Seq<TopSample>,
    filter: Seq<char>,
    start: UtcTimestamp,
    end: UtcTimestamp,
    n: int,
) -> Seq<Share>
    decreases n,
{
    if n <= 0 {
        Seq::empty()
    } else {
        shares(samples, filter, start, end, n - 1) + sample_shares(
            samples[n - 1],
            filter,
            start,
            end,
        )
    }
}

/// The sum of the counts of the first `n` shares of a function; of those
/// alone in which it is the leaf where `own` is set.
pub open spec fn share_sum(done: Seq<Share>, n: int, loc: LocationView, own: bool) -> int
    decreases n,
{
    if n <= 0 {
        0
    } else {
        share_sum(done, n - 1, loc, own) + if done[n - 1].loc == loc && (!own || done[n - 1].own) {
            done[n - 1].count as int
        } else {
            0
        }
    }
}

/// Whether one of the shares of a function lies at place `b` of the heat
/// map; one in which it is the leaf where `own` is set.
pub open spec fn share_at(done: Seq<Share>, loc: LocationView, own: bool, b: int) -> bool {
    exists|k: int|
        0 <= k < done.len() && (#[trigger] done[k]).loc == loc && done[k].place == b && (!own
            || done[k].own)
}

/// Whether a function has a share.
pub open spec fn has_share(done: Seq<Share>, loc: LocationView) -> bool {
    exists|k: int| 0 <= k < done.len() && (#[trigger] done[k]).loc == loc
}

/// Whether the counts of a function are what its shares add up to: both
/// sums, held at the upper end of the 64-bit range, and both heat maps.
pub open spec fn counts_fit(counts: Counts, done: Seq<Share>, loc: LocationView) -> bool {
    &&& counts.with_children == capped(share_sum(done, done.len() as int, loc, false))
    &&& counts.zelf == capped(share_sum(done, done.len() as int, loc, true))
    &&& forall|b: int|
        0 <= b < 256 ==> #[trigger] counts.heatmap_with_children.bit(b) == share_at(
            done,
            loc,
            false,
            b,
        )
    &&& forall|b: int|
        0 <= b < 256 ==> #[trigger] counts.heatmap_self.bit(b) == share_at(done, loc, true, b)
}

/// Whether `entries` lists the functions that have a share, each once
/// and with the counts that its shares add up to.
#[verifier::opaque]
pub open spec fn aggregated(entries: Seq<(Location, Counts)>, done: Seq<Share>) -> bool {
    &&& forall|i: int, j: int|
        0 <= i < j < entries.len() ==> (#[trigger] entries[i]).0@ != (#[trigger] entries[j]).0@
    &&& forall|i: int|
        0 <= i < entries.len() ==> has_share(done, (#[trigger] entries[i]).0@) && counts_fit(
            entries[i].1,
            done,
            entries[i].0@,
        )
    &&& forall|k: int|
        0 <= k < done.len() ==> exists|i: int|
            0 <= i < entries.len() && (#[trigger] entries[i]).0@ == (#[trigger] done[k]).loc
}

proof fn lemma_share_sum_nonneg(done: Seq<Share>, n: int, loc: LocationView, own: bool)
    ensures
        share_sum(done, n, loc, own) >= 0,
    decreases n,
{
    if n > 0 {
        lemma_share_sum_nonneg(done, n - 1, loc, own);
    }
}

proof fn lemma_share_sum_push(done: Seq<Share>, n: int, share: Share, loc: LocationView, own: bool)
    requires
        0 <= n <= done.len(),
    ensures
        share_sum(done.push(share), n, loc, own) == share_sum(done, n, loc, own),
    decreases n,
{
    if n > 0 {
        lemma_share_sum_push(done, n - 1, share, loc, own);
        assert(done.push(share)[n - 1] == done[n - 1]);
    }
}

proof fn lemma_no_share(done: Seq<Share>, n: int, loc: LocationView, own: bool)
    requires
        0 <= n <= done.len(),
        !has_share(done, loc),
    ensures
        share_sum(done, n, loc, own) == 0,
    decreases n,
{
    if n > 0 {
        assert(done[n - 1].loc != loc);
        lemma_no_share(done, n - 1, loc, own);
    }
}

/// The shares of a function in which it is the leaf weigh no more than
/// all its shares: a function is never counted more often as the leaf
/// than it is counted at all.
pub proof fn lemma_own_is_part(done: Seq<Share>, n: int, loc: LocationView)
    ensures
        share_sum(done, n, loc, true) <= share_sum(done, n, loc, false),
        capped(share_sum(done, n, loc, true)) <= capped(share_sum(done, n, loc, false)),
    decreases n,
{
    if n > 0 {
        lemma_own_is_part(done, n - 1, loc);
    }
}

/// One more share taken in.
proof fn lemma_take_in(
    before: Seq<(Location, Counts)>,
    after: Seq<(Location, Counts)>,
    done: Seq<Share>,
    share: Share,
    at: int,
    was: Counts,
)
    requires
        aggregated(before, done),
        0 <= share.place < 256,
        0 <= at <= before.len(),
        forall|j: int| 0 <= j < at ==> (#[trigger] before[j]).0@ != share.loc,
        at < before.len() ==> before[at].0@ == share.loc,
        after.len() == if at < before.len() {
            before.len()
        } else {
            before.len() + 1
        },
        forall|j: int| 0 <= j < before.len() && j != at ==> #[trigger] after[j] == before[j],
        after[at].0@ == share.loc,
        at < before.len() ==> was == before[at].1,
        at == before.len() ==> was.zelf == 0 && was.with_children == 0,
        ({
            let now = after[at].1;
            &&& at == before.len() ==> forall|b: int|
                0 <= b < 256 ==> !was.heatmap_self.bit(b) && !was.heatmap_with_children.bit(b)
            &&& now.with_children == capped(was.with_children + share.count)
            &&& now.zelf == if share.own {
                capped(was.zelf + share.count)
            } else {
                was.zelf
            }
            &&& forall|b: int|
                0 <= b < 256 ==> #[trigger] now.heatmap_with_children.bit(b) == (b == share.place
                    || was.heatmap_with_children.bit(b))
            &&& forall|b: int|
                0 <= b < 256 ==> #[trigger] now.heatmap_self.bit(b) == ((share.own && b
                    == share.place) || was.heatmap_self.bit(b))
        }),
    ensures
        aggregated(after, done.push(share)),
{
    reveal(aggregated);
    let next = done.push(share);
    let n = done.len() as int;
    assert(next[n] == share);
    assert forall|loc: LocationView| #[trigger] has_share(done, loc) implies has_share(next, loc) by {
        let k = choose|k: int| 0 <= k < done.len() && (#[trigger] done[k]).loc == loc;
        assert(next[k].loc == loc);
    }
    assert(has_share(next, share.loc));
    assert forall|loc: LocationView, own: bool, b: int| #[trigger]
        share_at(next, loc, own, b) == (share_at(done, loc, own, b) || (share.loc == loc
            && share.place == b && (!own || share.own))) by {
        if share_at(done, loc, own, b) {
            let k = choose|k: int|
                0 <= k < done.len() && (#[trigger] done[k]).loc == loc && done[k].place == b && (
                !own || done[k].own);
            assert(next[k] == done[k]);
        }
        if share_at(next, loc, own, b) {
            let k = choose|k: int|
                0 <= k < next.len() && (#[trigger] next[k]).loc == loc && next[k].place == b && (
                !own || next[k].own);
            if k < n {
                assert(done[k] == next[k]);
            }
        }
    }
    assert forall|loc: LocationView, own: bool| #[trigger]
        share_sum(next, n + 1, loc, own) == share_sum(done, n, loc, own) + if share.loc == loc && (
        !own || share.own) {
            share.count as int
        } else {
            0
        } by {
        lemma_share_sum_push(done, n, share, loc, own);
    }
    if at == before.len() {
        if has_share(done, share.loc) {
            let k = choose|k: int| 0 <= k < done.len() && (#[trigger] done[k]).loc == share.loc;
            let i = choose|i: int|
                0 <= i < before.len() && (#[trigger] before[i]).0@ == (#[trigger] done[k]).loc;
            assert(before[i].0@ != share.loc);
        }
        lemma_no_share(done, n, share.loc, true);
        lemma_no_share(done, n, share.loc, false);
        assert forall|b: int| 0 <= b < 256 implies !share_at(done, share.loc, false, b)
            && !share_at(done, share.loc, true, b) by {
            if share_at(done, share.loc, false, b) {
                let k = choose|k: int|
                    0 <= k < done.len() && (#[trigger] done[k]).loc == share.loc && done[k].place
                        == b;
                assert(has_share(done, share.loc));
            }
            if share_at(done, share.loc, true, b) {
                let k = choose|k: int|
                    0 <= k < done.len() && (#[trigger] done[k]).loc == share.loc && done[k].place
                        == b && done[k].own;
                assert(has_share(done, share.loc));
            }
        }
    }
    assert forall|i: int| 0 <= i < after.len() implies has_share(next, (#[trigger] after[i]).0@)
        && counts_fit(after[i].1, next, after[i].0@) by {
        let loc = after[i].0@;
        lemma_share_sum_nonneg(done, n, loc, true);
        lemma_share_sum_nonneg(done, n, loc, false);
        if i != at {
            assert(after[i] == before[i]);
            assert(has_share(done, loc));
            assert(counts_fit(before[i].1, done, loc));
            if i < at {
                assert(before[i].0@ != share.loc);
            } else {
                assert(before[at].0@ != before[i].0@);
            }
        } else if at < before.len() {
            assert(counts_fit(before[at].1, done, loc));
        }
    }
    assert forall|i: int, j: int| 0 <= i < j < after.len() implies (#[trigger] after[i]).0@ != (
    #[trigger] after[j]).0@ by {
        if j < before.len() {
            if i != at && j != at {
                assert(before[i].0@ != before[j].0@);
            } else if i == at {
                assert(before[at].0@ != before[j].0@);
            } else {
                assert(before[i].0@ != before[at].0@);
            }
        } else {
            assert(before[i].0@ != share.loc);
        }
    }
    assert forall|k: int| 0 <= k < next.len() implies exists|i: int|
        0 <= i < after.len() && (#[trigger] after[i]).0@ == (#[trigger] next[k]).loc by {
        if k < n {
            let i = choose|i: int|
                0 <= i < before.len() && (#[trigger] before[i]).0@ == (#[trigger] done[k]).loc;
            assert(after[i].0@ == before[i].0@);
        } else {
            assert(after[at].0@ == next[k].loc);
        }
    }
}

fn take_in(
    entries: &mut Vec<(Location, Counts)>,
    loc: Location,
    count: u32,
    place: usize,
    own: bool,
    Ghost(done): Ghost<Seq<Share>>,
)
    requires
        aggregated(old(entries)@, done),
        place < HEATMAP_BITS,
    ensures
        aggregated(
            final(entries)@,
            done.push(Share { loc: loc@, count, place: place as int, own }),
        ),
{
    let ghost before = entries@;
    let ghost share = Share { loc: loc@, count, place: place as int, own };
    let mut at: usize = 0;
    while at < entries.len() && !entries[at].0.same(&loc)
        invariant
            at <= entries.len(),
            forall|j: int| 0 <= j < at ==> (#[trigger] entries[j]).0@ != loc@,
        decreases entries.len() - at,
    {
        at += 1;
    }
    let mut counts = if at < entries.len() {
        entries[at].1
    } else {
        Counts::default()
    };
    let ghost was = counts;
    counts.with_children = counts.with_children.saturating_add(count as u64);
    counts.heatmap_with_children.set(place);
    if own {
        counts.zelf = counts.zelf.saturating_add(count as u64);
        counts.heatmap_self.set(place);
    }
    if at < entries.len() {
        entries[at].1 = counts;
    } else {
        entries.push((loc, counts));
    }
    proof {
        lemma_take_in(before, entries@, done, share, at as int, was);
    }
}

/// The views of a list of locations.
pub open spec fn locs_view(locs: Seq<Location>) -> Seq<LocationView> {
    Seq::new(locs.len(), |i: int| locs[i]@)
}

fn text_copy(text: &Option<String>) -> (copy: Option<String>)
    ensures
        opt_text(copy) == opt_text(*text),
{
    match text {
        Some(t) => Some(t.clone()),
        None => None,
    }
}

/// The functions of the trace of a sample, each once, in the order in
/// which the trace names them first.
pub fn sample_locations(sample: &TopSample, filter: &str) -> (locs: Vec<Location>)
    ensures
        locs_view(locs@) == once_each(
            trace_locs(sample.frames@, filter@, sample.frames@.len() as int),
        ),
{
    let mut locs: Vec<Location> = Vec::new();
    let ghost mut named: Seq<LocationView> = Seq::empty();
    let mut f: usize = 0;
    assert(locs_view(locs@) =~= once_each(named));
    while f < sample.frames.len()
        invariant
            f <= sample.frames.len(),
            named == trace_locs(sample.frames@, filter@, f as int),
            locs_view(locs@) == once_each(named),
        decreases sample.frames.len() - f,
    {
        let kind = sample.frames[f].0;
        let records = &sample.frames[f].1;
        let ghost up_to = named;
        let mut n: usize = 0;
        assert(named + frame_locs(kind, records@, filter@, 0) =~= named);
        while n < records.len()
            invariant
                n <= records.len(),
                f < sample.frames.len(),
                kind == sample.frames[f as int].0,
                records == &sample.frames[f as int].1,
                named == up_to + frame_locs(kind, records@, filter@, n as int),
                locs_view(locs@) == once_each(named),
            decreases records.len() - n,
        {
            let record = &records[records.len() - 1 - n];
            let ghost here = record_loc(kind, *record, filter@);
            match &record.func {
                None => {},
                Some(func) => {
                    let loc = Location {
                        kind,
                        func: func.clone(),
                        file: text_copy(&record.file),
                    };
                    if filter.is_empty() || loc.matches_filter(filter) {
                        let ghost view = loc@;
                        let ghost listed = locs_view(locs@);
                        let mut i: usize = 0;
                        while i < locs.len() && !locs[i].same(&loc)
                            invariant
                                i <= locs.len(),
                                listed == locs_view(locs@),
                                forall|j: int| 0 <= j < i ==> #[trigger] listed[j] != loc@,
                            decreases locs.len() - i,
                        {
                            assert(listed[i as int] == locs[i as int]@);
                            i += 1;
                        }
                        proof {
                            assert((named.push(view)).drop_last() =~= named);
                            if i < locs.len() {
                                assert(listed[i as int] == locs[i as int]@);
                                assert(listed.contains(view));
                            } else {
                                assert(!listed.contains(view));
                            }
                        }
                        if i == locs.len() {
                            locs.push(loc);
                            assert(locs_view(locs@) =~= listed.push(view));
                        }
                        proof {
                            named = named.push(view);
                        }
                    }
                },
            }
            proof {
                assert(named =~= up_to + (frame_locs(kind, records@, filter@, n as int) + here));
            }
            n += 1;
        }
        f += 1;
    }
    locs
}

/// The sum of the counts of the first `n` samples.
pub open spec fn total_count(samples: Seq<TopSample>, n: int) -> int
    decreases n,
{
    if n <= 0 {
        0
    } else {
        total_count(samples, n - 1) + samples[n - 1].count
    }
}

proof fn lemma_total_nonneg(samples: Seq<TopSample>, n: int)
    ensures
        total_count(samples, n) >= 0,
    decreases n,
{
    if n > 0 {
        lemma_total_nonneg(samples, n - 1);
    }
}

/// Counts the samples of a window for the functions of their traces.
///
/// `samples` are the events of the window from `start` to `end`. With a
/// filter, only the functions that it lets through are counted. The list
/// holds each function that occurs once, with its counts; beside it
/// stands the sum of the counts of all samples, held at the upper end of
/// the 64-bit range. A window that ends before it starts gives nothing.
pub fn aggregate_top_funcs(
    samples: &Vec<TopSample>,
    start: UtcTimestamp,
    end: UtcTimestamp,
    filter: &str,
) -> (res: (Vec<(Location, Counts)>, u64))
    ensures
        end < start ==> res.0.len() == 0 && res.1 == 0,
        end >= start ==> aggregated(
            res.0@,
            shares(samples@, filter@, start, end, samples.len() as int),
        ) && res.1 == capped(total_count(samples@, samples.len() as int)),
{
    let mut entries: Vec<(Location, Counts)> = Vec::new();
    if end < start {
        return (entries, 0);
    }
    let duration = end - start;
    let mut total: u64 = 0;
    let mut s: usize = 0;
    assert(aggregated(entries@, shares(samples@, filter@, start, end, 0))) by {
        reveal(aggregated);
    }
    while s < samples.len()
        invariant
            s <= samples.len(),
            end >= start,
            duration == end - start,
            total == capped(total_count(samples@, s as int)),
            aggregated(entries@, shares(samples@, filter@, start, end, s as int)),
        decreases samples.len() - s,
    {
        let sample = &samples[s];
        proof {
            lemma_total_nonneg(samples@, s as int);
        }
        total = total.saturating_add(sample.count as u64);
        let passed = if sample.timestamp >= start {
            sample.timestamp - start
        } else {
            0
        };
        let place = BitVec::place(passed, duration);
        let locs = sample_locations(sample, filter);
        let ghost before = shares(samples@, filter@, start, end, s as int);
        let ghost here = sample_shares(*sample, filter@, start, end);
        let ghost views = locs_view(locs@);
        let count = sample.count;
        let ghost mut done = before;
        let mut first = true;
        assert(before + here.take(0) =~= before);
        for loc in it: locs
            invariant
                place < HEATMAP_BITS,
                place == BitVec::place_of(elapsed(sample.timestamp, start), (end - start) as u64),
                count == sample.count,
                views == locs_view(it.seq()),
                here == sample_shares(*sample, filter@, start, end),
                here.len() == views.len(),
                forall|i: int|
                    0 <= i < here.len() ==> #[trigger] here[i] == (Share {
                        loc: views[i],
                        count,
                        place: place as int,
                        own: i == 0,
                    }),
                first == (it.index() == 0),
                done == before + here.take(it.index() as int),
                aggregated(entries@, done),
        {
            let ghost view = loc@;
            assert(view == views[it.index() as int]);
            take_in(&mut entries, loc, count, place, first, Ghost(done));
            proof {
                let i = it.index() as int;
                assert(here.take(i + 1) =~= here.take(i).push(here[i]));
                done = done.push(here[i]);
                assert(done =~= before + here.take(i + 1));
            }
            first = false;
        }
        proof {
            assert(here.take(here.len() as int) =~= here);
        }
        s += 1;
    }
    (entries, total)
}

/// The count of an entry by which the list is ranked.
pub open spec fn ranked_count(entry: (Location, Counts), field: SortField) -> u64 {
    match field {
        SortField::Zelf => entry.1.zelf,
        SortField::WithChildren => entry.1.with_children,
    }
}

/// Whether a file name comes before another or is the same: no name comes
/// first, names go by their bytes.
pub open spec fn file_le(a: Option<Seq<char>>, b: Option<Seq<char>>) -> bool {
    match (a, b) {
        (None, _) => true,
        (Some(_), None) => false,
        (Some(x), Some(y)) => !crate::storage::bytes::lex_lt(
            vstd::utf8::encode_utf8(y),
            vstd::utf8::encode_utf8(x),
        ),
    }
}

/// Whether an entry may stand before another in the ranking: the larger
/// count first; of equal counts the function whose name comes first by
/// its bytes; of equal names the file that comes first.
pub open spec fn ranks_before(a: (Location, Counts), b: (Location, Counts), field: SortField) -> bool {
    let (ca, cb) = (ranked_count(a, field), ranked_count(b, field));
    let (fa, fb) = (vstd::utf8::encode_utf8(a.0.func@), vstd::utf8::encode_utf8(b.0.func@));
    ca > cb || (ca == cb && (crate::storage::bytes::lex_lt(fa, fb) || (!crate::storage::bytes::lex_lt(
        fb,
        fa,
    ) && file_le(opt_text(a.0.file), opt_text(b.0.file)))))
}

/// Whether `a` may stand before `b` in the ranking.
pub fn may_precede(a: &(Location, Counts), b: &(Location, Counts), field: SortField) -> (r: bool)
    ensures
        r == ranks_before(*a, *b, field),
{
    let (ca, cb) = match field {
        SortField::Zelf => (a.1.zelf, b.1.zelf),
        SortField::WithChildren => (a.1.with_children, b.1.with_children),
    };
    if ca != cb {
        return ca > cb;
    }
    let fa = a.0.func.as_str().as_bytes();
    let fb = b.0.func.as_str().as_bytes();
    if lex_before(fa, fb) {
        return true;
    }
    if lex_before(fb, fa) {
        return false;
    }
    match (&a.0.file, &b.0.file) {
        (None, _) => true,
        (Some(_), None) => false,
        (Some(x), Some(y)) => !lex_before(y.as_str().as_bytes(), x.as_str().as_bytes()),
    }
}

/// How two entries stand to each other in the ranking.
pub fn rank_order(a: &(Location, Counts), b: &(Location, Counts), field: SortField) -> (o:
    std::cmp::Ordering)
    ensures
        o is Less <==> ranks_before(*a, *b, field) && !ranks_before(*b, *a, field),
        o is Greater <==> ranks_before(*b, *a, field) && !ranks_before(*a, *b, field),
{
    let ab = may_precede(a, b, field);
    let ba = may_precede(b, a, field);
    proof {
        lemma_ranking_total(*a, *b, field);
    }
    if ab && !ba {
        std::cmp::Ordering::Less
    } else if ba && !ab {
        std::cmp::Ordering::Greater
    } else {
        std::cmp::Ordering::Equal
    }
}

/// Of two entries one may stand before the other.
pub proof fn lemma_ranking_total(a: (Location, Counts), b: (Location, Counts), field: SortField)
    ensures
        ranks_before(a, b, field) || ranks_before(b, a, field),
{
    let (fa, fb) = (vstd::utf8::encode_utf8(a.0.func@), vstd::utf8::encode_utf8(b.0.func@));
    crate::storage::bytes::lemma_lex_lt_asymmetric(fa, fb);
    match (opt_text(a.0.file), opt_text(b.0.file)) {
        (Some(x), Some(y)) => {
            crate::storage::bytes::lemma_lex_lt_asymmetric(
                vstd::utf8::encode_utf8(x),
                vstd::utf8::encode_utf8(y),
            );
        },
        _ => {},
    }
}

/// What may stand before an entry may stand before everything that the
/// entry may stand before: with [`lemma_ranking_total`], the ranking
/// orders any list of entries.
pub proof fn lemma_ranking_transitive(
    a: (Location, Counts),
    b: (Location, Counts),
    c: (Location, Counts),
    field: SortField,
)
    requires
        ranks_before(a, b, field),
        ranks_before(b, c, field),
    ensures
        ranks_before(a, c, field),
{
    let (fa, fb, fc) = (
        vstd::utf8::encode_utf8(a.0.func@),
        vstd::utf8::encode_utf8(b.0.func@),
        vstd::utf8::encode_utf8(c.0.func@),
    );
    let (ca, cb, cc) = (ranked_count(a, field), ranked_count(b, field), ranked_count(c, field));
    if ca == cb && cb == cc {
        crate::storage::bytes::lemma_lex_total(fa, fb);
        crate::storage::bytes::lemma_lex_total(fb, fc);
        crate::storage::bytes::lemma_lex_total(fa, fc);
        crate::storage::bytes::lemma_lex_lt_asymmetric(fa, fb);
        crate::storage::bytes::lemma_lex_lt_asymmetric(fb, fc);
        crate::storage::bytes::lemma_lex_lt_asymmetric(fa, fc);
        if crate::storage::bytes::lex_lt(fa, fb) && crate::storage::bytes::lex_lt(fb, fc) {
            crate::storage::bytes::lemma_lex_lt_transitive(fa, fb, fc);
        }
        if fa == fb && fb == fc {
            match (opt_text(a.0.file), opt_text(b.0.file), opt_text(c.0.file)) {
                (Some(x), Some(y), Some(z)) => {
                    let (x, y, z) = (
                        vstd::utf8::encode_utf8(x),
                        vstd::utf8::encode_utf8(y),
                        vstd::utf8::encode_utf8(z),
                    );
                    crate::storage::bytes::lemma_lex_total(x, y);
                    crate::storage::bytes::lemma_lex_total(y, z);
                    crate::storage::bytes::lemma_lex_total(x, z);
                    if crate::storage::bytes::lex_lt(x, y) && crate::storage::bytes::lex_lt(y, z) {
                        crate::storage::bytes::lemma_lex_lt_transitive(x, y, z);
                    }
                    if crate::storage::bytes::lex_lt(z, x) {
                        crate::storage::bytes::lemma_lex_lt_asymmetric(x, z);
                        if x != y {
                            crate::storage::bytes::lemma_lex_lt_transitive(z, x, y);
                        }
                    }
                },
                _ => {},
            }
        }
    }
}

/// Whether a list is in the order of the ranking.
pub open spec fn ranked(list: Seq<(Location, Counts)>, field: SortField) -> bool {
    forall|i: int, j: int|
        0 <= i <= j < list.len() ==> ranks_before(#[trigger] list[i], #[trigger] list[j], field)
}

/// `sort_unstable_by` of std's slices, with the order of the ranking: what
/// comes out holds the same entries, each as often as before, in the order
/// of the ranking. Entries that the ranking does not tell apart may come
/// out in any order.
#[verifier::external_body]
fn sort_ranked(entries: &mut Vec<(Location, Counts)>, field: SortField)
    ensures
        final(entries)@.to_multiset() == old(entries)@.to_multiset(),
        final(entries).len() == old(entries).len(),
        ranked(final(entries)@, field),
{
    entries.sort_unstable_by(|a, b| rank_order(a, b, field));
}

/// The list of the top functions.
#[derive(Debug, Clone, PartialEq, Eq)]
pub struct TopFuncs {
    /// Total number of functions before truncation.
    pub total_funcs: usize,
    /// Total number of samples before truncation.
    pub total_samples: u64,
    /// Truncated list of top functions.
    pub top: Vec<(Location, Counts)>,
}

impl Default for TopFuncs {
    fn default() -> (top: TopFuncs)
        ensures
            top.total_funcs == 0,
            top.total_samples == 0,
            top.top.len() == 0,
    {
        TopFuncs { total_funcs: 0, total_samples: 0, top: Vec::new() }
    }
}

/// Ranks the functions and keeps the first `MAX_LOCATIONS` of them.
///
/// What is kept is the front of a list that holds the entries, each as
/// often as before, in the order of the ranking.
pub fn rank(entries: Vec<(Location, Counts)>, total_samples: u64, field: SortField) -> (top:
    TopFuncs)
    ensures
        top.total_funcs == entries.len(),
        top.total_samples == total_samples,
        top.top.len() == if entries.len() > MAX_LOCATIONS {
            MAX_LOCATIONS
        } else {
            entries.len()
        },
        ranked(top.top@, field),
        exists|all: Seq<(Location, Counts)>|
            all.to_multiset() == entries@.to_multiset() && ranked(all, field) && top.top@
                == #[trigger] all.take(top.top.len() as int),
{
    let mut list = entries;
    sort_ranked(&mut list, field);
    let total_funcs = list.len();
    let ghost all = list@;
    list.truncate(MAX_LOCATIONS);
    proof {
        assert(list@ =~= all.take(list.len() as int));
        assert(all.to_multiset() == entries@.to_multiset() && ranked(all, field) && list@
            == all.take(list.len() as int));
    }
    TopFuncs { total_funcs, total_samples, top: list }
}

/// The top functions of a window.
///
/// `samples` are the events of the window from `start` to `end` with the
/// symbolized frames of their traces. The functions are counted as
/// [`aggregate_top_funcs`] says and ranked as [`rank`] says.
pub fn query_top_funcs(
    samples: &Vec<TopSample>,
    start: UtcTimestamp,
    end: UtcTimestamp,
    sort_field: SortField,
    filter: &str,
) -> (top: TopFuncs)
    ensures
        end < start ==> top.total_funcs == 0 && top.total_samples == 0 && top.top.len() == 0,
        end >= start ==> top.total_samples == capped(
            total_count(samples@, samples.len() as int),
        ) && ranked(top.top@, sort_field) && exists|
            entries: Seq<(Location, Counts)>,
            all: Seq<(Location, Counts)>,
        |
            #![trigger aggregated(entries, shares(samples@, filter@, start, end, samples.len() as int)), all.take(top.top.len() as int)]
            aggregated(entries, shares(samples@, filter@, start, end, samples.len() as int))
                && top.total_funcs == entries.len() && all.to_multiset() == entries.to_multiset()
                && ranked(all, sort_field) && top.top@ == all.take(top.top.len() as int)
                && top.top.len() == if entries.len() > MAX_LOCATIONS {
                MAX_LOCATIONS as int
            } else {
                entries.len() as int
            },
{
    let (entries, total) = aggregate_top_funcs(samples, start, end, filter);
    let ghost listed = entries@;
    let top = rank(entries, total, sort_field);
    proof {
        if end >= start {
            let all = choose|all: Seq<(Location, Counts)>|
                all.to_multiset() == listed.to_multiset() && ranked(all, sort_field) && top.top@
                    == #[trigger] all.take(top.top.len() as int);
            assert(aggregated(listed, shares(samples@, filter@, start, end, samples.len() as int))
                && top.total_funcs == listed.len() && all.to_multiset() == listed.to_multiset()
                && ranked(all, sort_field) && top.top@ == all.take(top.top.len() as int));
        }
    }
    top
}

} // verus!
