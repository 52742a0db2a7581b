//! Fetching of symbols for the executables that were seen: which
//! executables are due, how many fetches run at a time, what a fetch
//! leaves behind, and how the ranges that arrive become a symbol tree.
//!
//! Nothing here waits, sleeps or talks to the network. The decisions are
//! made here; whoever runs the tasks carries them out and reports back.

use crate::storage::dbtypes::{FileId, UtcTimestamp};
use crate::storage::intervaltree::{Element, Tree};
use crate::storage::symdb::{LineTableEntry, StringRef, SymRange, SymTree};
use crate::storage::tables::executables::{ExecutableMeta, SymbStatus};
use std::collections::HashSet;
use vstd::prelude::*;
use vstd::string::{StringExecFns, StringExecFnsIsAscii, StrSliceExecFns};

verus! {

/// Seconds between two scans of the table of executables.
pub const SYMB_FREQ: u64 = 1;

/// Seconds to wait after a failed attempt before the next one.
pub const SYMB_RETRY_FREQ: u64 = 30;

/// Maximum number of executables to process in parallel.
pub const SYMB_MAX_PAR: usize = 16;

/// Whether the symbols of an executable are due: they were never asked
/// for, or the last attempt failed more than `SYMB_RETRY_FREQ` seconds
/// before `now`.
pub open spec fn is_due(status: SymbStatus, now: UtcTimestamp) -> bool {
    match status {
        SymbStatus::NotAttempted => true,
        SymbStatus::TempError { last_attempt } => now > last_attempt + SYMB_RETRY_FREQ,
        _ => false,
    }
}

/// Whether the symbols of an executable are due.
pub fn needs_symbols(status: SymbStatus, now: UtcTimestamp) -> (due: bool)
    ensures
        due == is_due(status, now),
{
    match status {
        SymbStatus::NotAttempted => true,
        SymbStatus::TempError { last_attempt } => now >= SYMB_RETRY_FREQ && now - SYMB_RETRY_FREQ
            > last_attempt,
        _ => false,
    }
}

/// An attempt that failed 31 seconds ago is due again and one that failed
/// 29 seconds ago is not; in general, one that failed `age` seconds ago is
/// due exactly if `age` is more than `SYMB_RETRY_FREQ`.
pub proof fn lemma_retry_after(last_attempt: UtcTimestamp, age: u64)
    requires
        last_attempt + age <= u64::MAX,
    ensures
        is_due(SymbStatus::TempError { last_attempt }, (last_attempt + age) as u64) <==> age
            > SYMB_RETRY_FREQ,
        age == 31 ==> is_due(SymbStatus::TempError { last_attempt }, (last_attempt + age) as u64),
        age == 29 ==> !is_due(SymbStatus::TempError { last_attempt }, (last_attempt + age) as u64),
{
}

/// One scan of the table of executables: the places of those whose
/// symbols are due, in the order of the table.
pub fn discover(executables: &Vec<(FileId, ExecutableMeta)>, now: UtcTimestamp) -> (due: Vec<usize>)
    ensures
        forall|i: int, j: int| 0 <= i < j < due.len() ==> due[i] < due[j],
        forall|i: int|
            0 <= i < due.len() ==> (#[trigger] due[i]) < executables.len() && is_due(
                executables[due[i] as int].1.symb_status,
                now,
            ),
        forall|k: int|
            0 <= k < executables.len() && is_due((#[trigger] executables[k]).1.symb_status, now)
                ==> exists|i: int| 0 <= i < due.len() && #[trigger] due[i] == k,
{
    let mut due: Vec<usize> = Vec::new();
    let mut k: usize = 0;
    while k < executables.len()
        invariant
            k <= executables.len(),
            forall|i: int, j: int| 0 <= i < j < due.len() ==> due[i] < due[j],
            forall|i: int|
                0 <= i < due.len() ==> (#[trigger] due[i]) < k && is_due(
                    executables[due[i] as int].1.symb_status,
                    now,
                ),
            forall|m: int|
                0 <= m < k && is_due((#[trigger] executables[m]).1.symb_status, now) ==> exists|
                    i: int,
                | 0 <= i < due.len() && #[trigger] due[i] == m,
        decreases executables.len() - k,
    {
        if needs_symbols(executables[k].1.symb_status, now) {
            let ghost before = due@;
            due.push(k);
            proof {
                assert forall|m: int|
                    0 <= m < k + 1 && is_due(
                        (#[trigger] executables[m]).1.symb_status,
                        now,
                    ) implies exists|i: int| 0 <= i < due.len() && #[trigger] due[i] == m by {
                    if m < k {
                        let i = choose|i: int| 0 <= i < before.len() && #[trigger] before[i] == m;
                        assert(due[i] == m);
                    } else {
                        assert(due[due.len() - 1] == m);
                    }
                }
            }
        }
        k += 1;
    }
    due
}

/// What a fetch of symbols ended in.
#[derive(Debug, Clone, Copy, PartialEq, Eq, Structural)]
pub enum FetchOutcome {
    /// The symbols were written: so many ranges.
    Complete { num_symbols: u64 },
    /// The symbol service does not know the executable.
    NotPresent,
    /// The network, the decoding or the decompression failed.
    Failed,
}

/// The status that a fetch leaves behind. A failure is remembered with the
/// time, so that the fetch is tried again later; an executable that the
/// service does not know is not asked for again.
pub fn status_after(outcome: FetchOutcome, now: UtcTimestamp) -> (status: SymbStatus)
    ensures
        status == match outcome {
            FetchOutcome::Complete { num_symbols } => SymbStatus::Complete { num_symbols },
            FetchOutcome::NotPresent => SymbStatus::NotPresentGlobally,
            FetchOutcome::Failed => SymbStatus::TempError { last_attempt: now },
        },
{
    match outcome {
        FetchOutcome::Complete { num_symbols } => SymbStatus::Complete { num_symbols },
        FetchOutcome::NotPresent => SymbStatus::NotPresentGlobally,
        FetchOutcome::Failed => SymbStatus::TempError { last_attempt: now },
    }
}

/// The record of an executable after its status was updated: everything
/// else stays as it was read.
pub fn with_status(meta: ExecutableMeta, status: SymbStatus) -> (updated: ExecutableMeta)
    ensures
        updated.build_id == meta.build_id,
        updated.file_name == meta.file_name,
        updated.symb_status == status,
{
    ExecutableMeta { build_id: meta.build_id, file_name: meta.file_name, symb_status: status }
}

/// The record of an executable whose symbols were taken from a local file:
/// the record that the table holds with the new status, or, where it holds
/// none, a new one under the name of the file.
pub fn after_local_ingest(existing: Option<ExecutableMeta>, file_name: String, num_symbols: u64) -> (
    updated: ExecutableMeta)
    ensures
        updated.symb_status == (SymbStatus::Complete { num_symbols }),
        match existing {
            Some(meta) => updated.build_id == meta.build_id && updated.file_name == meta.file_name,
            None => updated.build_id is None && updated.file_name == Some(file_name),
        },
{
    let status = SymbStatus::Complete { num_symbols };
    match existing {
        Some(meta) => with_status(meta, status),
        None => ExecutableMeta { build_id: None, file_name: Some(file_name), symb_status: status },
    }
}

/// What the symbol service says of an executable.
#[derive(Debug, Clone, PartialEq, Eq)]
pub struct MetaData {
    pub version: u32,
    /// The executable that holds the debug information, in the base64
    /// form.
    pub dwarf_file_id: Option<String>,
}

/// Why the meta-data of an executable could not be had.
#[derive(Debug, Clone, Copy, PartialEq, Eq, Structural)]
pub enum MetaDataError {
    /// The service answered with a status that is neither success nor 404.
    Status,
    /// The answer could not be decoded.
    Decoding,
    /// The answer is of a version that is not understood.
    Version,
    /// The file id in the answer could not be parsed.
    FileId,
}

/// What the answer of the symbol service to a request for meta-data
/// means.
///
/// `body` is the decoded answer, where it could be decoded. Status 404
/// means that the service does not know the executable, and so does an
/// answer without a file id; both give `Ok(None)`.
pub open spec fn debug_file_id_spec(status: u16, body: Option<MetaData>) -> Result<
    Option<FileId>,
    MetaDataError,
> {
    if status == 404 {
        Ok(None)
    } else if !(200 <= status < 300) {
        Err(MetaDataError::Status)
    } else {
        match body {
            None => Err(MetaDataError::Decoding),
            Some(meta) => if meta.version != 1 {
                Err(MetaDataError::Version)
            } else {
                match meta.dwarf_file_id {
                    None => Ok(None),
                    Some(text) => match FileId::parse_es_spec(vstd::utf8::encode_utf8(text@)) {
                        Some(id) => Ok(Some(id)),
                        None => Err(MetaDataError::FileId),
                    },
                }
            },
        }
    }
}

/// Reads the answer of the symbol service to a request for meta-data: the
/// executable that holds the debug information, if the service knows one.
pub fn debug_file_id(status: u16, body: Option<MetaData>) -> (id: Result<
    Option<FileId>,
    MetaDataError,
>)
    ensures
        id == debug_file_id_spec(status, body),
{
    if status == 404 {
        return Ok(None);
    }
    if status < 200 || status >= 300 {
        return Err(MetaDataError::Status);
    }
    let meta = match body {
        Some(meta) => meta,
        None => {
            return Err(MetaDataError::Decoding);
        },
    };
    if meta.version != 1 {
        return Err(MetaDataError::Version);
    }
    match meta.dwarf_file_id {
        None => Ok(None),
        Some(text) => match FileId::try_parse_es(text.as_str()) {
            Some(id) => Ok(Some(id)),
            None => Err(MetaDataError::FileId),
        },
    }
}

/// The address of a file of the symbol service for an executable: with
/// `s` the base64 form of the file id, the endpoint, the first two
/// characters of `s`, the next two, `s` and the name of the file, joined
/// by `/`.
pub open spec fn sym_url_spec(endpoint: Seq<char>, s: Seq<char>, file: Seq<char>) -> Seq<char> {
    endpoint + seq!['/'] + s.subrange(0, 2) + seq!['/'] + s.subrange(2, 4) + seq!['/'] + s + seq![
        '/',
    ] + file
}

/// Build an URL for the symbol service.
pub fn build_sym_url(symb_endpoint: &str, file_id: FileId, file: &str) -> (url: String)
    ensures
        url@ == sym_url_spec(
            symb_endpoint@,
            crate::storage::dbtypes::base64url_encoded(
                crate::storage::bytes::be_u128(file_id.0),
            ),
            file@,
        ),
{
    let s = file_id.format_es();
    proof {
        reveal_strlit("/");
    }
    let mut url = symb_endpoint.to_owned();
    url.append("/");
    url.append(s.as_str().substring_ascii(0, 2));
    url.append("/");
    url.append(s.as_str().substring_ascii(2, 4));
    url.append("/");
    url.append(s.as_str());
    url.append("/");
    url.append(file);
    assert(url@ =~= sym_url_spec(symb_endpoint@, s@, file@));
    url
}

/// The ordered map of the crate `indexmap`.
#[verifier::external_type_specification]
#[verifier::external_body]
#[verifier::reject_recursive_types(K)]
#[verifier::reject_recursive_types(V)]
#[verifier::reject_recursive_types(S)]
pub struct ExIndexMap<K, V, S>(indexmap::IndexMap<K, V, S>);

/// The ordered set of the crate `indexmap`.
#[verifier::external_type_specification]
#[verifier::external_body]
#[verifier::reject_recursive_types(T)]
#[verifier::reject_recursive_types(S)]
pub struct ExIndexSet<T, S>(indexmap::IndexSet<T, S>);

/// What an ordered map of waiting executables holds: its entries in the
/// order in which their keys came in.
pub uninterp spec fn pending_entries(map: indexmap::IndexMap<u128, ExecutableMeta>) -> Seq<
    (u128, ExecutableMeta),
>;

/// What an ordered set of strings holds: its strings in the order in
/// which they came in.
pub uninterp spec fn interned(set: indexmap::IndexSet<String>) -> Seq<Seq<char>>;

/// The place of a key among entries, from `from` on; the number of
/// entries where it is not among them.
pub open spec fn key_place(entries: Seq<(u128, ExecutableMeta)>, key: u128, from: int) -> int
    decreases entries.len() - from,
{
    if from < 0 || from >= entries.len() {
        entries.len() as int
    } else if entries[from].0 == key {
        from
    } else {
        key_place(entries, key, from + 1)
    }
}

/// The entries after a value came in for a key: the value of a key that
/// is there already is replaced where it stands, a new key goes to the
/// end.
pub open spec fn entries_with(
    entries: Seq<(u128, ExecutableMeta)>,
    key: u128,
    value: ExecutableMeta,
) -> Seq<(u128, ExecutableMeta)> {
    let at = key_place(entries, key, 0);
    if at < entries.len() {
        entries.update(at, (key, value))
    } else {
        entries.push((key, value))
    }
}

/// The place of a string among strings, from `from` on; the number of
/// strings where it is not among them.
pub open spec fn string_place(strings: Seq<Seq<char>>, text: Seq<char>, from: int) -> int
    decreases strings.len() - from,
{
    if from < 0 || from >= strings.len() {
        strings.len() as int
    } else if strings[from] == text {
        from
    } else {
        string_place(strings, text, from + 1)
    }
}

/// `IndexMap::new` of the crate `indexmap`: an empty map.
#[verifier::external_body]
fn pending_new() -> (map: indexmap::IndexMap<u128, ExecutableMeta>)
    ensures
        pending_entries(map) == Seq::<(u128, ExecutableMeta)>::empty(),
{
    indexmap::IndexMap::new()
}

/// `IndexMap::insert` of the crate `indexmap`: the value of a key that is
/// in the map is replaced where it stands; a new key goes last.
#[verifier::external_body]
fn pending_insert(
    map: &mut indexmap::IndexMap<u128, ExecutableMeta>,
    key: u128,
    value: ExecutableMeta,
)
    ensures
        pending_entries(*final(map)) == entries_with(pending_entries(*old(map)), key, value),
{
    map.insert(key, value);
}

/// `IndexMap::pop` of the crate `indexmap`: the last entry leaves the map.
#[verifier::external_body]
fn pending_pop(map: &mut indexmap::IndexMap<u128, ExecutableMeta>) -> (last: Option<
    (u128, ExecutableMeta),
>)
    ensures
        match last {
            Some(entry) => pending_entries(*old(map)).len() > 0 && entry == pending_entries(
                *old(map),
            ).last() && pending_entries(*final(map)) == pending_entries(*old(map)).drop_last(),
            None => pending_entries(*old(map)).len() == 0 && pending_entries(*final(map))
                == pending_entries(*old(map)),
        },
{
    map.pop()
}

/// `IndexMap::len` of the crate `indexmap`: the number of entries.
#[verifier::external_body]
fn pending_len(map: &indexmap::IndexMap<u128, ExecutableMeta>) -> (n: usize)
    ensures
        n == pending_entries(*map).len(),
{
    map.len()
}

/// `IndexSet::new` of the crate `indexmap`: an empty set.
#[verifier::external_body]
fn strings_new() -> (set: indexmap::IndexSet<String>)
    ensures
        interned(set) == Seq::<Seq<char>>::empty(),
{
    indexmap::IndexSet::new()
}

/// `IndexSet::insert_full` of the crate `indexmap`: the place of the
/// string in the set. A string that is not in the set yet goes last.
#[verifier::external_body]
fn strings_intern(set: &mut indexmap::IndexSet<String>, text: String) -> (place: usize)
    ensures
        place == string_place(interned(*old(set)), text@, 0),
        interned(*final(set)) == if place < interned(*old(set)).len() {
            interned(*old(set))
        } else {
            interned(*old(set)).push(text@)
        },
{
    set.insert_full(text).0
}

/// `IndexSet::into_iter` of the crate `indexmap`, collected: the strings
/// of the set in the order in which they came in.
#[verifier::external_body]
fn strings_into_vec(set: indexmap::IndexSet<String>) -> (strings: Vec<String>)
    ensures
        strings@.len() == interned(set).len(),
        forall|i: int| 0 <= i < strings@.len() ==> (#[trigger] strings@[i])@ == interned(set)[i],
{
    set.into_iter().collect()
}

/// What the controller is told.
#[derive(Debug, Clone, PartialEq, Eq)]
pub enum Event {
    /// A scan found an executable whose symbols are due.
    Discovered(FileId, ExecutableMeta),
    /// The fetch for an executable has ended.
    Completed(FileId, FetchOutcome),
}

/// What the controller asks for in answer to an event.
#[derive(Debug, Clone, PartialEq, Eq)]
pub struct Actions {
    /// The status to be written to the record of an executable, by reading
    /// the record and writing it back with this status.
    pub status: Option<(FileId, SymbStatus)>,
    /// The fetches to be started, in this order.
    pub fetch: Vec<(FileId, ExecutableMeta)>,
}

/// The executables that leave the waiting list when as many fetches are
/// started as the limit permits: the one that came in last goes first. An
/// executable is marked as in flight when its fetch is started. Without an
/// address of the symbol service nothing is fetched, and the executables
/// that wait are let go.
pub open spec fn started(pending: Seq<(u128, ExecutableMeta)>, active: Set<u128>, fetching: bool) -> (
    Seq<(u128, ExecutableMeta)>,
    Set<u128>,
    Seq<(u128, ExecutableMeta)>,
)
    decreases pending.len(),
{
    if pending.len() == 0 || active.len() >= SYMB_MAX_PAR {
        (pending, active, Seq::empty())
    } else if fetching {
        let rest = started(pending.drop_last(), active.insert(pending.last().0), fetching);
        (rest.0, rest.1, seq![pending.last()] + rest.2)
    } else {
        started(pending.drop_last(), active, fetching)
    }
}

/// Keeps the list of executables that wait for their symbols and the set
/// of those whose fetch is in flight, of which there are never more than
/// `SYMB_MAX_PAR`.
pub struct Controller {
    pending: indexmap::IndexMap<u128, ExecutableMeta>,
    active: HashSet<u128>,
    fetching: bool,
}

impl Controller {
    /// Whether the controller is in order: no more fetches are in flight
    /// than the limit permits. Every controller that [`Controller::new`]
    /// has made is, and stays so.
    pub closed spec fn wf(&self) -> bool {
        self.active@.finite() && self.active@.len() <= SYMB_MAX_PAR
    }

    /// The executables that wait, in the order in which they came in.
    pub closed spec fn pending(&self) -> Seq<(u128, ExecutableMeta)> {
        pending_entries(self.pending)
    }

    /// The executables whose fetch is in flight.
    pub closed spec fn active(&self) -> Set<u128> {
        self.active@
    }

    /// Whether there is a symbol service to fetch from.
    pub closed spec fn fetching(&self) -> bool {
        self.fetching
    }

    /// A controller with nothing waiting and nothing in flight.
    /// `symb_endpoint` is the address of the symbol service; with an empty
    /// one nothing is ever fetched.
    pub fn new(symb_endpoint: &str) -> (controller: Controller)
        ensures
            controller.wf(),
            controller.pending() == Seq::<(u128, ExecutableMeta)>::empty(),
            controller.active() == Set::<u128>::empty(),
            controller.fetching() == (symb_endpoint@.len() > 0),
    {
        broadcast use vstd::std_specs::hash::group_hash_axioms;

        Controller {
            pending: pending_new(),
            active: HashSet::new(),
            fetching: !symb_endpoint.is_empty(),
        }
    }

    /// The number of fetches in flight.
    pub fn in_flight(&self) -> (n: usize)
        requires
            self.wf(),
        ensures
            n == self.active().len(),
            n <= SYMB_MAX_PAR,
    {
        broadcast use vstd::std_specs::hash::group_hash_axioms;

        self.active.len()
    }

    /// The number of executables that wait.
    pub fn waiting(&self) -> (n: usize)
        ensures
            n == self.pending().len(),
    {
        pending_len(&self.pending)
    }

    /// Takes an event in and says what is to be done.
    ///
    /// An executable that was discovered joins the waiting list, unless
    /// its fetch is in flight. A fetch that has ended leaves the set of
    /// those in flight, and the status that it leaves behind is to be
    /// written. After either, as many fetches are started as the limit
    /// permits.
    pub fn step(&mut self, event: Event, now: UtcTimestamp) -> (actions: Actions)
        requires
            old(self).wf(),
        ensures
            final(self).wf(),
            final(self).fetching() == old(self).fetching(),
            ({
                let (pending, active) = match event {
                    Event::Discovered(id, meta) => (
                        if old(self).active().contains(id.0) {
                            old(self).pending()
                        } else {
                            entries_with(old(self).pending(), id.0, meta)
                        },
                        old(self).active(),
                    ),
                    Event::Completed(id, _) => (old(self).pending(), old(self).active().remove(id.0)),
                };
                let after = started(pending, active, old(self).fetching());
                &&& final(self).pending() == after.0
                &&& final(self).active() == after.1
                &&& actions.fetch.len() == after.2.len()
                &&& forall|i: int|
                    0 <= i < after.2.len() ==> (#[trigger] actions.fetch[i]).0.0 == after.2[i].0
                        && actions.fetch[i].1 == after.2[i].1
            }),
            actions.status == match event {
                Event::Discovered(_, _) => None,
                Event::Completed(id, outcome) => Some(
                    (
                        id,
                        match outcome {
                            FetchOutcome::Complete { num_symbols } => SymbStatus::Complete {
                                num_symbols,
                            },
                            FetchOutcome::NotPresent => SymbStatus::NotPresentGlobally,
                            FetchOutcome::Failed => SymbStatus::TempError { last_attempt: now },
                        },
                    ),
                ),
            },
    {
        broadcast use vstd::std_specs::hash::group_hash_axioms;

        let status = match event {
            Event::Discovered(id, meta) => {
                if !self.active.contains(&id.0) {
                    pending_insert(&mut self.pending, id.0, meta);
                }
                None
            },
            Event::Completed(id, outcome) => {
                self.active.remove(&id.0);
                Some((id, status_after(outcome, now)))
            },
        };
        let mut fetch: Vec<(FileId, ExecutableMeta)> = Vec::new();
        let ghost first = (pending_entries(self.pending), self.active@);
        let ghost goal = started(first.0, first.1, self.fetching);
        loop
            invariant_except_break
                self.active@.finite(),
                self.active@.len() <= SYMB_MAX_PAR,
                self.fetching == old(self).fetching,
                ({
                    let rest = started(pending_entries(self.pending), self.active@, self.fetching);
                    &&& goal.0 == rest.0
                    &&& goal.1 == rest.1
                    &&& goal.2.len() == fetch.len() + rest.2.len()
                    &&& forall|i: int|
                        0 <= i < fetch.len() ==> (#[trigger] fetch[i]).0.0 == goal.2[i].0 && fetch[i].1
                            == goal.2[i].1
                    &&& forall|i: int|
                        0 <= i < rest.2.len() ==> #[trigger] rest.2[i] == goal.2[fetch.len() + i]
                }),
            ensures
                self.active@.finite(),
                self.active@.len() <= SYMB_MAX_PAR,
                self.fetching == old(self).fetching,
                goal.0 == pending_entries(self.pending),
                goal.1 == self.active@,
                goal.2.len() == fetch.len(),
                forall|i: int|
                    0 <= i < fetch.len() ==> (#[trigger] fetch[i]).0.0 == goal.2[i].0 && fetch[i].1
                        == goal.2[i].1,
            decreases pending_entries(self.pending).len(),
        {
            let ghost p0 = pending_entries(self.pending);
            let ghost a0 = self.active@;
            let ghost f0 = fetch@;
            let ghost prev = started(p0, a0, self.fetching);
            if self.active.len() >= SYMB_MAX_PAR {
                break ;
            }
            let (key, meta) = match pending_pop(&mut self.pending) {
                Some(entry) => entry,
                None => {
                    break ;
                },
            };
            let ghost entry = (key, meta);
            if self.fetching {
                self.active.insert(key);
                fetch.push((FileId(key), meta));
                proof {
                    let rest = started(p0.drop_last(), a0.insert(key), true);
                    assert(prev.2 =~= seq![entry] + rest.2);
                    assert(prev.2[0] == entry);
                    assert forall|i: int| 0 <= i < fetch.len() implies (#[trigger] fetch[i]).0.0
                        == goal.2[i].0 && fetch[i].1 == goal.2[i].1 by {
                        if i < f0.len() {
                            assert(fetch[i] == f0[i]);
                        } else {
                            assert(prev.2[0] == goal.2[f0.len() as int]);
                        }
                    }
                    assert forall|i: int| 0 <= i < rest.2.len() implies #[trigger] rest.2[i]
                        == goal.2[fetch.len() + i] by {
                        assert(prev.2[i + 1] == rest.2[i]);
                        assert(prev.2[i + 1] == goal.2[f0.len() as int + (i + 1)]);
                    }
                }
            }
        }
        Actions { status, fetch }
    }
}

/// A range of addresses as it arrives from the symbol service or from a
/// local file.
#[derive(Debug, Clone, PartialEq, Eq)]
pub struct RangeRecord {
    /// Where the range starts.
    pub va_start: u64,
    /// Where it ends: the first address behind it.
    pub va_end: u64,
    pub func: String,
    pub file: Option<String>,
    pub call_file: Option<String>,
    pub call_line: Option<u32>,
    pub depth: u32,
    pub line_table: Vec<LineTableEntry>,
}

/// A record of a stream of symbols.
#[derive(Debug, Clone, PartialEq, Eq)]
pub enum Record {
    Range(RangeRecord),
    ReturnPad,
}

/// Why a stream of symbols was turned down.
#[derive(Debug, Clone, Copy, PartialEq, Eq, Structural)]
pub enum SymbolError {
    /// The stream holds a return pad, which a stream of ranges must not.
    ReturnPad,
}

/// The strings of a table after one more was named: a string that is in
/// the table is found there, a new one goes last. The absent string names
/// nothing and leaves the table as it is.
pub open spec fn table_with(strings: Seq<Seq<char>>, text: Option<Seq<char>>) -> Seq<Seq<char>> {
    match text {
        None => strings,
        Some(t) => if string_place(strings, t, 0) < strings.len() {
            strings
        } else {
            strings.push(t)
        },
    }
}

/// The reference under which a string is named in a table: its place,
/// cut to 32 bits, and the sentinel for the absent string.
pub open spec fn ref_in(strings: Seq<Seq<char>>, text: Option<Seq<char>>) -> StringRef {
    match text {
        None => StringRef(u32::MAX),
        Some(t) => StringRef((string_place(strings, t, 0) % 0x1_0000_0000) as u32),
    }
}

/// Collects ranges and the strings that they name, and makes the symbol
/// tree of an executable from them.
pub struct SymTreeBuilder {
    strings: indexmap::IndexSet<String>,
    ranges: Vec<Element<SymRange>>,
}

/// The characters of a string that may be absent.
pub open spec fn text_of(text: Option<String>) -> Option<Seq<char>> {
    match text {
        Some(t) => Some(t@),
        None => None,
    }
}

/// The range of the tree that a record gives, with its strings named in a
/// table that holds `strings` before the record: first the function, then
/// the file, then the file of the call. The depth is cut to 16 bits.
pub open spec fn range_of(strings: Seq<Seq<char>>, record: RangeRecord) -> Element<SymRange> {
    let s1 = table_with(strings, Some(record.func@));
    let s2 = table_with(s1, text_of(record.file));
    Element {
        start: record.va_start,
        end: record.va_end,
        value: SymRange {
            func: ref_in(strings, Some(record.func@)),
            file: ref_in(s1, text_of(record.file)),
            call_file: ref_in(s2, text_of(record.call_file)),
            call_line: record.call_line,
            depth: (record.depth % 0x1_0000) as u16,
            line_table: record.line_table,
        },
    }
}

/// The string table after a record was taken in.
pub open spec fn strings_after(strings: Seq<Seq<char>>, record: RangeRecord) -> Seq<Seq<char>> {
    table_with(
        table_with(table_with(strings, Some(record.func@)), text_of(record.file)),
        text_of(record.call_file),
    )
}

impl SymTreeBuilder {
    /// The strings that were named so far, in the order in which they
    /// were first named.
    pub closed spec fn strings(&self) -> Seq<Seq<char>> {
        interned(self.strings)
    }

    /// The ranges that were taken in so far.
    pub closed spec fn ranges(&self) -> Seq<Element<SymRange>> {
        self.ranges@
    }

    /// A builder that holds nothing.
    pub fn new() -> (builder: SymTreeBuilder)
        ensures
            builder.strings() == Seq::<Seq<char>>::empty(),
            builder.ranges() == Seq::<Element<SymRange>>::empty(),
    {
        SymTreeBuilder { strings: strings_new(), ranges: Vec::new() }
    }

    fn add_str(&mut self, text: Option<String>) -> (idx: StringRef)
        ensures
            final(self).ranges() == old(self).ranges(),
            final(self).strings() == table_with(old(self).strings(), text_of(text)),
            idx == ref_in(old(self).strings(), text_of(text)),
    {
        match text {
            Some(s) => {
                let place = strings_intern(&mut self.strings, s);
                StringRef(((place as u64) % 0x1_0000_0000) as u32)
            },
            None => StringRef::none(),
        }
    }

    /// Takes a range in.
    pub fn add_range(&mut self, record: RangeRecord)
        ensures
            final(self).strings() == strings_after(old(self).strings(), record),
            final(self).ranges() == old(self).ranges().push(range_of(old(self).strings(), record)),
    {
        let func = self.add_str(Some(record.func));
        let file = self.add_str(record.file);
        let call_file = self.add_str(record.call_file);
        self.ranges.push(
            Element {
                start: record.va_start,
                end: record.va_end,
                value: SymRange {
                    func,
                    file,
                    call_file,
                    call_line: record.call_line,
                    depth: (record.depth % 0x1_0000) as u16,
                    line_table: record.line_table,
                },
            },
        );
    }

    /// Makes the symbol tree: the strings in the order in which they were
    /// first named, and the tree of the ranges.
    pub fn finish(self) -> (tree: SymTree)
        ensures
            tree.strings@.len() == self.strings().len(),
            forall|i: int|
                0 <= i < tree.strings@.len() ==> (#[trigger] tree.strings@[i])@ == self.strings()[i],
            tree.tree@.to_multiset() == self.ranges().to_multiset(),
    {
        SymTree { strings: strings_into_vec(self.strings), tree: Tree::from_iter(self.ranges) }
    }
}

/// The state of a builder after the first `n` records of a stream were
/// taken in: the strings and the ranges.
pub open spec fn built(records: Seq<Record>, n: int) -> (Seq<Seq<char>>, Seq<Element<SymRange>>)
    decreases n,
{
    if n <= 0 {
        (Seq::empty(), Seq::empty())
    } else {
        let before = built(records, n - 1);
        match records[n - 1] {
            Record::Range(r) => (strings_after(before.0, r), before.1.push(range_of(before.0, r))),
            Record::ReturnPad => before,
        }
    }
}

/// Whether a stream holds a return pad.
pub open spec fn has_return_pad(records: Seq<Record>) -> bool {
    exists|k: int| 0 <= k < records.len() && #[trigger] records[k] is ReturnPad
}

/// Makes the symbol tree of an executable from a stream of records.
///
/// A stream with a return pad is turned down. Else the tree holds one
/// range for each record, and its string table the strings of the
/// records in the order in which they were first named.
pub fn insert_symbols(records: Vec<Record>) -> (tree: Result<SymTree, SymbolError>)
    ensures
        match tree {
            Err(e) => has_return_pad(records@) && e == SymbolError::ReturnPad,
            Ok(t) => {
                let all = built(records@, records@.len() as int);
                &&& !has_return_pad(records@)
                &&& t.strings@.len() == all.0.len()
                &&& forall|i: int|
                    0 <= i < t.strings@.len() ==> (#[trigger] t.strings@[i])@ == all.0[i]
                &&& t.tree@.to_multiset() == all.1.to_multiset()
            },
        },
{
    let mut builder = SymTreeBuilder::new();
    let ghost all = records@;
    for record in it: records
        invariant
            it.seq() == all,
            (builder.strings(), builder.ranges()) == built(all, it.index() as int),
            forall|k: int| 0 <= k < it.index() ==> !(#[trigger] all[k] is ReturnPad),
    {
        match record {
            Record::Range(r) => {
                builder.add_range(r);
            },
            Record::ReturnPad => {
                assert(all[it.index() as int] is ReturnPad);
                return Err(SymbolError::ReturnPad);
            },
        }
    }
    Ok(builder.finish())
}

} // verus!
