//! What every table has in common: how keys become bytes, how the byte
//! order of the store relates to the order of the keys, which writes a
//! change asks for, and the cache of values that were read or written.
//!
//! The store itself, an ordered map from byte strings to byte strings on
//! disk, is not part of this module. A table here says what is to be read
//! or written; whoever holds the store does it.

use crate::storage::bytes::lex_le;
use vstd::prelude::*;

verus! {

/// Type that can act as the key of a table.
///
/// A key is stored as a byte string of fixed width, and the store keeps its
/// records in the lexicographic order of these strings. A field that is meant
/// to order the table is written most significant byte first; a field that
/// only identifies a record may be written least significant byte first.
pub trait TableKey: Sized {
    /// Container for the raw form of a key.
    type B;

    /// Number of bytes in the raw form.
    spec fn width() -> nat;

    /// The bytes that a container holds.
    spec fn raw_view(raw: Self::B) -> Seq<u8>;

    /// The raw form of a key.
    spec fn encoding(self) -> Seq<u8>;

    /// The key that a raw form stands for.
    spec fn decoding(bytes: Seq<u8>) -> Self;

    /// Whether the key comes back unchanged from its raw form.
    spec fn storable(self) -> bool;

    /// The order of the keys, stated over their fields.
    spec fn key_le(self, other: Self) -> bool;

    /// Load the raw container as a typed value.
    fn from_raw(data: Self::B) -> (key: Self)
        ensures
            key == Self::decoding(Self::raw_view(data)),
    ;

    /// Store the typed value as the raw container.
    fn into_raw(self) -> (raw: Self::B)
        ensures
            Self::raw_view(raw) == self.encoding(),
            Self::raw_view(raw).len() == Self::width(),
    ;

    /// The raw form as a byte string of its own.
    fn to_bytes(self) -> (bytes: Vec<u8>)
        ensures
            bytes@ == self.encoding(),
            bytes@.len() == Self::width(),
    ;

    /// Whether `self` comes before `other`, or is equal to it, in the order
    /// of the table.
    fn precedes(self, other: Self) -> (r: bool)
        ensures
            r == self.key_le(other),
    ;

    /// A key that is written and read back is the same key.
    proof fn lemma_round_trip(self)
        requires
            self.storable(),
        ensures
            Self::decoding(self.encoding()) == self,
    ;

    /// The order of the keys is the lexicographic order of their raw forms.
    proof fn lemma_key_order(self, other: Self)
        ensures
            self.key_le(other) <==> lex_le(self.encoding(), other.encoding()),
    ;
}

/// Defines what to optimize the table for.
#[derive(Debug, Clone, Copy, PartialEq, Eq, Structural)]
pub enum StorageOpt {
    /// Random access key-value lookups.
    RandomAccess,
    /// Sequential full-table or range reads.
    SeqRead,
}

/// How the store is to be set up for a table.
#[derive(Debug, Clone, Copy, PartialEq, Eq, Structural)]
pub struct StorageTuning {
    /// Size of a block in bytes; `None` leaves the store's own.
    pub block_size: Option<usize>,
    /// Whether blocks are compressed.
    pub compression: bool,
    /// Bits per key of the bloom filter.
    pub bloom_bits: u32,
    /// Whether files are read through memory maps.
    pub mmap_reads: bool,
    /// Whether the store is told to expect random reads when it opens a
    /// file.
    pub advise_random_on_open: bool,
}

impl StorageOpt {
    /// How the store is to be set up.
    ///
    /// Random access keeps the store's small blocks, does not compress and
    /// expects random reads. Sequential reading takes blocks of 256 KiB,
    /// compresses them and does not expect random reads. Both keep a bloom
    /// filter of ten bits per key and read through memory maps.
    pub open spec fn tuning_spec(self) -> StorageTuning {
        match self {
            StorageOpt::RandomAccess => StorageTuning {
                block_size: None,
                compression: false,
                bloom_bits: 10,
                mmap_reads: true,
                advise_random_on_open: true,
            },
            StorageOpt::SeqRead => StorageTuning {
                block_size: Some(262144usize),
                compression: true,
                bloom_bits: 10,
                mmap_reads: true,
                advise_random_on_open: false,
            },
        }
    }

    /// How the store is to be set up.
    pub fn tuning(self) -> (t: StorageTuning)
        ensures
            t == self.tuning_spec(),
    {
        match self {
            StorageOpt::RandomAccess => StorageTuning {
                block_size: None,
                compression: false,
                bloom_bits: 10,
                mmap_reads: true,
                advise_random_on_open: true,
            },
            StorageOpt::SeqRead => StorageTuning {
                block_size: Some(262144),
                compression: true,
                bloom_bits: 10,
                mmap_reads: true,
                advise_random_on_open: false,
            },
        }
    }
}

/// Defines how a table merges with existing values.
#[derive(Debug, Clone, Copy, PartialEq, Eq, Structural)]
pub enum MergeOperator {
    /// A write replaces the old value.
    Default,
    /// A write is kept beside the old value, and the table's associative
    /// merge function folds them when the record is read.
    Associative,
}

/// A write that the store is asked for.
#[derive(Debug, Clone, PartialEq, Eq)]
pub enum WriteOp {
    /// Replace the value at `key`.
    Put { key: Vec<u8>, value: Vec<u8> },
    /// Merge `value` into the record at `key`.
    Merge { key: Vec<u8>, value: Vec<u8> },
    /// Delete the record at `key`.
    Delete { key: Vec<u8> },
}

/// What a [`WriteOp`] holds.
pub enum WriteOpView {
    Put { key: Seq<u8>, value: Seq<u8> },
    Merge { key: Seq<u8>, value: Seq<u8> },
    Delete { key: Seq<u8> },
}

impl View for WriteOp {
    type V = WriteOpView;

    open spec fn view(&self) -> WriteOpView {
        match self {
            WriteOp::Put { key, value } => WriteOpView::Put { key: key@, value: value@ },
            WriteOp::Merge { key, value } => WriteOpView::Merge { key: key@, value: value@ },
            WriteOp::Delete { key } => WriteOpView::Delete { key: key@ },
        }
    }
}

impl MergeOperator {
    /// The write that stores `value` at `key` under this operator.
    pub open spec fn write_spec(self, key: Seq<u8>, value: Seq<u8>) -> WriteOpView {
        match self {
            MergeOperator::Default => WriteOpView::Put { key, value },
            MergeOperator::Associative => WriteOpView::Merge { key, value },
        }
    }

    /// The write that stores `value` at `key` under this operator: a
    /// replacing write by default, a merging write for a table with a merge
    /// function.
    pub fn write(self, key: Vec<u8>, value: Vec<u8>) -> (op: WriteOp)
        ensures
            op@ == self.write_spec(key@, value@),
    {
        match self {
            MergeOperator::Default => WriteOp::Put { key, value },
            MergeOperator::Associative => WriteOp::Merge { key, value },
        }
    }
}

/// The cache of the crate `lru`, from byte strings to byte strings.
#[verifier::external_type_specification]
#[verifier::external_body]
#[verifier::reject_recursive_types(K)]
#[verifier::reject_recursive_types(V)]
#[verifier::reject_recursive_types(S)]
pub struct ExLruCache<K, V, S>(lru::LruCache<K, V, S>);

/// The hasher that a cache of the crate `lru` keys its entries with.
#[verifier::external_type_specification]
#[verifier::external_body]
pub struct ExCacheHasher(lru::DefaultHasher);

/// What a cache holds: its entries, the most recently used first.
pub uninterp spec fn cache_entries(cache: lru::LruCache<Vec<u8>, Vec<u8>>) -> Seq<
    (Seq<u8>, Seq<u8>),
>;

/// The number of entries that a cache was made to hold.
pub uninterp spec fn cache_limit(cache: lru::LruCache<Vec<u8>, Vec<u8>>) -> nat;

/// The place of the first entry with the given key, from `from` on; the
/// number of entries where there is none.
pub open spec fn place_of(entries: Seq<(Seq<u8>, Seq<u8>)>, key: Seq<u8>, from: int) -> int
    decreases entries.len() - from,
{
    if from < 0 || from >= entries.len() {
        entries.len() as int
    } else if entries[from].0 == key {
        from
    } else {
        place_of(entries, key, from + 1)
    }
}

/// The value that the entries hold for a key.
pub open spec fn cached_value(entries: Seq<(Seq<u8>, Seq<u8>)>, key: Seq<u8>) -> Option<Seq<u8>> {
    let at = place_of(entries, key, 0);
    if at < entries.len() {
        Some(entries[at].1)
    } else {
        None
    }
}

/// The entries after the one of the given key was used: it has moved to the
/// front. Without such an entry nothing changes.
pub open spec fn after_use(entries: Seq<(Seq<u8>, Seq<u8>)>, key: Seq<u8>) -> Seq<
    (Seq<u8>, Seq<u8>),
> {
    let at = place_of(entries, key, 0);
    if at < entries.len() {
        seq![entries[at]] + entries.remove(at)
    } else {
        entries
    }
}

/// The entries without the one of the given key.
pub open spec fn after_pop(entries: Seq<(Seq<u8>, Seq<u8>)>, key: Seq<u8>) -> Seq<
    (Seq<u8>, Seq<u8>),
> {
    let at = place_of(entries, key, 0);
    if at < entries.len() {
        entries.remove(at)
    } else {
        entries
    }
}

/// The entries after a value was put in: the new entry stands at the front
/// and replaces the one of its key. Without such an entry, in a cache that
/// is full, the least recently used entry makes room.
pub open spec fn after_put(
    entries: Seq<(Seq<u8>, Seq<u8>)>,
    limit: nat,
    key: Seq<u8>,
    value: Seq<u8>,
) -> Seq<(Seq<u8>, Seq<u8>)> {
    let at = place_of(entries, key, 0);
    if at < entries.len() {
        seq![(key, value)] + entries.remove(at)
    } else if entries.len() >= limit && entries.len() > 0 {
        seq![(key, value)] + entries.drop_last()
    } else {
        seq![(key, value)] + entries
    }
}

/// `LruCache::new` of the crate `lru`: an empty cache for `capacity`
/// entries. The crate takes a capacity that is not zero.
#[verifier::external_body]
fn cache_new(capacity: usize) -> (cache: lru::LruCache<Vec<u8>, Vec<u8>>)
    requires
        capacity > 0,
    ensures
        cache_entries(cache) == Seq::<(Seq<u8>, Seq<u8>)>::empty(),
        cache_limit(cache) == capacity,
{
    lru::LruCache::new(std::num::NonZeroUsize::new(capacity).unwrap())
}

/// `LruCache::get` of the crate `lru`, with the value copied out: the value
/// of the key, whose entry becomes the most recently used one.
#[verifier::external_body]
fn cache_get(cache: &mut lru::LruCache<Vec<u8>, Vec<u8>>, key: &[u8]) -> (value: Option<Vec<u8>>)
    ensures
        cache_entries(*final(cache)) == after_use(cache_entries(*old(cache)), key@),
        cache_limit(*final(cache)) == cache_limit(*old(cache)),
        match value {
            Some(v) => cached_value(cache_entries(*old(cache)), key@) == Some(v@),
            None => cached_value(cache_entries(*old(cache)), key@) is None,
        },
{
    cache.get(key).cloned()
}

/// `LruCache::put` of the crate `lru`: the entry of the key is replaced, or
/// a new one made, and is the most recently used one. A full cache gives up
/// its least recently used entry for a new one.
#[verifier::external_body]
fn cache_put(cache: &mut lru::LruCache<Vec<u8>, Vec<u8>>, key: Vec<u8>, value: Vec<u8>)
    ensures
        cache_entries(*final(cache)) == after_put(
            cache_entries(*old(cache)),
            cache_limit(*old(cache)),
            key@,
            value@,
        ),
        cache_limit(*final(cache)) == cache_limit(*old(cache)),
{
    cache.put(key, value);
}

/// `LruCache::pop` of the crate `lru`: the entry of the key leaves the
/// cache.
#[verifier::external_body]
fn cache_pop(cache: &mut lru::LruCache<Vec<u8>, Vec<u8>>, key: &[u8])
    ensures
        cache_entries(*final(cache)) == after_pop(cache_entries(*old(cache)), key@),
        cache_limit(*final(cache)) == cache_limit(*old(cache)),
{
    cache.pop(key);
}

/// `LruCache::clear` of the crate `lru`: every entry leaves the cache.
#[verifier::external_body]
fn cache_clear(cache: &mut lru::LruCache<Vec<u8>, Vec<u8>>)
    ensures
        cache_entries(*final(cache)) == Seq::<(Seq<u8>, Seq<u8>)>::empty(),
        cache_limit(*final(cache)) == cache_limit(*old(cache)),
{
    cache.clear();
}

/// `LruCache::len` of the crate `lru`: the number of entries.
#[verifier::external_body]
fn cache_len(cache: &lru::LruCache<Vec<u8>, Vec<u8>>) -> (n: usize)
    ensures
        n == cache_entries(*cache).len(),
{
    cache.len()
}

proof fn lemma_place_of(entries: Seq<(Seq<u8>, Seq<u8>)>, key: Seq<u8>, from: int)
    requires
        0 <= from <= entries.len(),
    ensures
        from <= place_of(entries, key, from) <= entries.len(),
        place_of(entries, key, from) < entries.len() ==> entries[place_of(entries, key, from)].0
            == key,
        forall|k: int| from <= k < place_of(entries, key, from) ==> (#[trigger] entries[k]).0 != key,
    decreases entries.len() - from,
{
    if from < entries.len() && entries[from].0 != key {
        lemma_place_of(entries, key, from + 1);
    }
}

/// Whether no two entries have one key.
pub open spec fn distinct_keys(entries: Seq<(Seq<u8>, Seq<u8>)>) -> bool {
    forall|i: int, j: int|
        0 <= i < j < entries.len() ==> (#[trigger] entries[i]).0 != (#[trigger] entries[j]).0
}

/// The in-memory part of a table: the cache of the values, as they lie in
/// the store, that were last read or written.
///
/// A cache made for no entries at all is switched off: it holds nothing
/// and answers nothing.
pub struct TableCache {
    cache: lru::LruCache<Vec<u8>, Vec<u8>>,
    size: usize,
}

impl TableCache {
    /// Whether the cache is in order: it holds no more than it was made
    /// for, no key twice, and nothing at all where it is switched off.
    /// Every cache that [`TableCache::new`] has made is, and stays so.
    pub closed spec fn wf(&self) -> bool {
        &&& cache_limit(self.cache) == if self.size == 0 {
            1nat
        } else {
            self.size as nat
        }
        &&& cache_entries(self.cache).len() <= cache_limit(self.cache)
        &&& distinct_keys(cache_entries(self.cache))
        &&& self.size == 0 ==> cache_entries(self.cache).len() == 0
    }

    /// The entries of the cache, the most recently used first.
    pub closed spec fn entries(&self) -> Seq<(Seq<u8>, Seq<u8>)> {
        cache_entries(self.cache)
    }

    /// The number of entries that the cache was made for.
    pub closed spec fn size(&self) -> nat {
        self.size as nat
    }

    /// The most entries that the cache holds at a time.
    pub open spec fn limit(&self) -> nat {
        if self.size() == 0 {
            1
        } else {
            self.size()
        }
    }

    /// An empty cache for `size` entries; switched off where `size` is zero.
    pub fn new(size: usize) -> (cache: TableCache)
        ensures
            cache.wf(),
            cache.size() == size,
            cache.entries() == Seq::<(Seq<u8>, Seq<u8>)>::empty(),
    {
        let cache = if size > 0 {
            cache_new(size)
        } else {
            cache_new(1)
        };
        TableCache { cache, size }
    }

    /// The number of entries.
    pub fn len(&self) -> (n: usize)
        requires
            self.wf(),
        ensures
            n == self.entries().len(),
            n <= self.limit(),
            self.size() == 0 ==> n == 0,
    {
        cache_len(&self.cache)
    }

    /// A cache that is switched off holds no value.
    pub proof fn lemma_switched_off(&self, key: Seq<u8>)
        requires
            self.wf(),
        ensures
            self.size() == 0 ==> cached_value(self.entries(), key) is None,
    {
    }

    /// The number of entries that the cache was made for.
    pub fn cap(&self) -> (n: usize)
        ensures
            n == self.size(),
    {
        self.size
    }

    /// Looks a key up. A value that is found becomes the most recently used
    /// one.
    pub fn get(&mut self, key: &[u8]) -> (value: Option<Vec<u8>>)
        requires
            old(self).wf(),
        ensures
            final(self).wf(),
            final(self).size() == old(self).size(),
            final(self).entries() == after_use(old(self).entries(), key@),
            match value {
                Some(v) => cached_value(old(self).entries(), key@) == Some(v@),
                None => cached_value(old(self).entries(), key@) is None,
            },
            cached_value(final(self).entries(), key@) == cached_value(old(self).entries(), key@),
    {
        proof {
            lemma_place_of(self.entries(), key@, 0);
        }
        if self.size == 0 {
            assert(after_use(self.entries(), key@) =~= self.entries());
            return None;
        }
        let ghost before = cache_entries(self.cache);
        let value = cache_get(&mut self.cache, key);
        proof {
            lemma_use_keeps(before, key@);
            lemma_place_of(after_use(before, key@), key@, 0);
        }
        value
    }

    /// Takes a value in. It becomes the most recently used one and replaces
    /// what the cache held for the key. A cache that is switched off takes
    /// nothing in.
    pub fn put(&mut self, key: Vec<u8>, value: Vec<u8>)
        requires
            old(self).wf(),
        ensures
            final(self).wf(),
            final(self).size() == old(self).size(),
            final(self).entries() == if old(self).size() == 0 {
                old(self).entries()
            } else {
                after_put(old(self).entries(), old(self).limit(), key@, value@)
            },
            old(self).size() > 0 ==> cached_value(final(self).entries(), key@) == Some(value@),
    {
        if self.size == 0 {
            return ;
        }
        let ghost before = cache_entries(self.cache);
        let ghost limit = cache_limit(self.cache);
        proof {
            lemma_put_keeps(before, limit, key@, value@);
        }
        cache_put(&mut self.cache, key, value);
    }

    /// Forgets what the cache holds for a key.
    pub fn pop(&mut self, key: &[u8])
        requires
            old(self).wf(),
        ensures
            final(self).wf(),
            final(self).size() == old(self).size(),
            final(self).entries() == after_pop(old(self).entries(), key@),
            cached_value(final(self).entries(), key@) is None,
    {
        let ghost before = cache_entries(self.cache);
        proof {
            lemma_pop_keeps(before, key@);
        }
        cache_pop(&mut self.cache, key);
    }

    /// Forgets everything.
    pub fn clear(&mut self)
        requires
            old(self).wf(),
        ensures
            final(self).wf(),
            final(self).size() == old(self).size(),
            final(self).entries() == Seq::<(Seq<u8>, Seq<u8>)>::empty(),
    {
        cache_clear(&mut self.cache);
    }
}

proof fn lemma_use_keeps(entries: Seq<(Seq<u8>, Seq<u8>)>, key: Seq<u8>)
    requires
        distinct_keys(entries),
    ensures
        distinct_keys(after_use(entries, key)),
        after_use(entries, key).len() == entries.len(),
        cached_value(after_use(entries, key), key) == cached_value(entries, key),
{
    lemma_place_of(entries, key, 0);
    let at = place_of(entries, key, 0);
    let after = after_use(entries, key);
    if at < entries.len() {
        assert forall|i: int, j: int| 0 <= i < j < after.len() implies (#[trigger] after[i]).0 != (
        #[trigger] after[j]).0 by {
            let a = if i == 0 {
                at
            } else if i - 1 < at {
                i - 1
            } else {
                i
            };
            let b = if j - 1 < at {
                j - 1
            } else {
                j
            };
            assert(after[i] == entries[a]);
            assert(after[j] == entries[b]);
            if a < b {
                assert(entries[a].0 != entries[b].0);
            } else {
                assert(entries[b].0 != entries[a].0);
            }
        }
        assert(after[0].0 == key);
    }
}

proof fn lemma_pop_keeps(entries: Seq<(Seq<u8>, Seq<u8>)>, key: Seq<u8>)
    requires
        distinct_keys(entries),
    ensures
        distinct_keys(after_pop(entries, key)),
        after_pop(entries, key).len() <= entries.len(),
        cached_value(after_pop(entries, key), key) is None,
{
    lemma_place_of(entries, key, 0);
    let at = place_of(entries, key, 0);
    let after = after_pop(entries, key);
    if at < entries.len() {
        assert forall|i: int, j: int| 0 <= i < j < after.len() implies (#[trigger] after[i]).0 != (
        #[trigger] after[j]).0 by {
            let a = if i < at {
                i
            } else {
                i + 1
            };
            let b = if j < at {
                j
            } else {
                j + 1
            };
            assert(after[i] == entries[a]);
            assert(after[j] == entries[b]);
            assert(entries[a].0 != entries[b].0);
        }
        assert forall|k: int| 0 <= k < after.len() implies (#[trigger] after[k]).0 != key by {
            let a = if k < at {
                k
            } else {
                k + 1
            };
            assert(after[k] == entries[a]);
            if a > at {
                assert(entries[at].0 != entries[a].0);
            }
        }
    }
    lemma_absent(after, key, 0);
}

proof fn lemma_absent(entries: Seq<(Seq<u8>, Seq<u8>)>, key: Seq<u8>, from: int)
    requires
        0 <= from <= entries.len(),
        forall|k: int| 0 <= k < entries.len() ==> (#[trigger] entries[k]).0 != key,
    ensures
        place_of(entries, key, from) == entries.len(),
    decreases entries.len() - from,
{
    if from < entries.len() {
        assert(entries[from].0 != key);
        lemma_absent(entries, key, from + 1);
    }
}

proof fn lemma_put_keeps(entries: Seq<(Seq<u8>, Seq<u8>)>, limit: nat, key: Seq<u8>, value: Seq<u8>)
    requires
        distinct_keys(entries),
        entries.len() <= limit,
        limit > 0,
    ensures
        distinct_keys(after_put(entries, limit, key, value)),
        after_put(entries, limit, key, value).len() <= limit,
        cached_value(after_put(entries, limit, key, value), key) == Some(value),
{
    lemma_place_of(entries, key, 0);
    let at = place_of(entries, key, 0);
    let after = after_put(entries, limit, key, value);
    assert(after[0] == (key, value));
    if at < entries.len() {
        lemma_pop_keeps(entries, key);
        let rest = entries.remove(at);
        assert(rest == after_pop(entries, key));
        lemma_place_of(rest, key, 0);
        assert forall|i: int, j: int| 0 <= i < j < after.len() implies (#[trigger] after[i]).0 != (
        #[trigger] after[j]).0 by {
            assert(after[j] == rest[j - 1]);
            if i == 0 {
                assert(place_of(rest, key, 0) == rest.len());
            } else {
                assert(after[i] == rest[i - 1]);
            }
        }
    } else {
        let rest = if entries.len() >= limit && entries.len() > 0 {
            entries.drop_last()
        } else {
            entries
        };
        assert forall|i: int, j: int| 0 <= i < j < after.len() implies (#[trigger] after[i]).0 != (
        #[trigger] after[j]).0 by {
            assert(after[j] == rest[j - 1]);
            assert(rest[j - 1] == entries[j - 1]);
            if i > 0 {
                assert(after[i] == entries[i - 1]);
            }
        }
    }
}

/// Writes for one table that are to reach the store together or not at
/// all.
pub struct InsertionBatch {
    merge_op: MergeOperator,
    ops: Vec<WriteOp>,
}

/// The views of a list of writes.
pub open spec fn ops_view(ops: Seq<WriteOp>) -> Seq<WriteOpView> {
    Seq::new(ops.len(), |k: int| ops[k]@)
}

impl InsertionBatch {
    /// The writes that were collected, in their order.
    pub closed spec fn writes(&self) -> Seq<WriteOpView> {
        ops_view(self.ops@)
    }

    /// How the table of the batch takes a write.
    pub closed spec fn merge_op(&self) -> MergeOperator {
        self.merge_op
    }

    /// An empty batch for a table that takes writes as `merge_op` says.
    pub fn new(merge_op: MergeOperator) -> (batch: InsertionBatch)
        ensures
            batch.merge_op() == merge_op,
            batch.writes() == Seq::<WriteOpView>::empty(),
    {
        let batch = InsertionBatch { merge_op, ops: Vec::new() };
        assert(batch.writes() =~= Seq::<WriteOpView>::empty());
        batch
    }

    /// Add a record to the insertion batch: `value`, as it is to lie in the
    /// store, at `key`.
    pub fn insert<K: TableKey>(&mut self, key: K, value: Vec<u8>)
        ensures
            final(self).merge_op() == old(self).merge_op(),
            final(self).writes() == old(self).writes().push(
                old(self).merge_op().write_spec(key.encoding(), value@),
            ),
    {
        let op = self.merge_op.write(key.to_bytes(), value);
        self.ops.push(op);
        assert(self.writes() =~= old(self).writes().push(
            old(self).merge_op().write_spec(key.encoding(), value@),
        ));
    }

    /// The number of records in the batch.
    pub fn len(&self) -> (n: usize)
        ensures
            n == self.writes().len(),
    {
        self.ops.len()
    }

    /// Hands the writes over, to be written together, and empties the
    /// cache of the table: a batch does not say which keys it touched.
    pub fn commit(self, cache: &mut TableCache) -> (ops: Vec<WriteOp>)
        requires
            old(cache).wf(),
        ensures
            final(cache).wf(),
            ops_view(ops@) == self.writes(),
            final(cache).size() == old(cache).size(),
            final(cache).entries() == Seq::<(Seq<u8>, Seq<u8>)>::empty(),
    {
        cache.clear();
        self.ops
    }
}

/// A typed table as far as it lives in memory: how it takes writes, what
/// it is optimized for, and its cache.
pub struct Table {
    merge_op: MergeOperator,
    storage_opt: StorageOpt,
    cache: TableCache,
}

/// What is to be done with the store to answer a lookup.
#[derive(Debug, Clone, PartialEq, Eq)]
pub enum Lookup {
    /// The cache held the value.
    Cached(Vec<u8>),
    /// The store is to be read at this key, and what it holds handed to
    /// [`Table::fill`].
    Read(Vec<u8>),
}

impl Table {
    /// Whether the cache of the table is in order. Every table that
    /// [`Table::new`] has made is, and stays so.
    pub closed spec fn wf(&self) -> bool {
        self.cache.wf()
    }

    /// How the table takes a write.
    pub closed spec fn merge_op(&self) -> MergeOperator {
        self.merge_op
    }

    /// What the table is optimized for.
    pub closed spec fn storage_opt(&self) -> StorageOpt {
        self.storage_opt
    }

    /// The entries of the cache, the most recently used first.
    pub closed spec fn cached(&self) -> Seq<(Seq<u8>, Seq<u8>)> {
        self.cache.entries()
    }

    /// The number of entries that the cache was made for.
    pub closed spec fn cache_size(&self) -> nat {
        self.cache.size()
    }

    /// Whether the table is as [`Table::new`] makes it: in order, set up
    /// as given, and with nothing in its cache.
    pub open spec fn is_new(
        &self,
        merge_op: MergeOperator,
        storage_opt: StorageOpt,
        cache_size: nat,
    ) -> bool {
        &&& self.wf()
        &&& self.merge_op() == merge_op
        &&& self.storage_opt() == storage_opt
        &&& self.cache_size() == cache_size
        &&& self.cached() == Seq::<(Seq<u8>, Seq<u8>)>::empty()
    }

    /// Whether only the cache differs between two states of a table.
    pub open spec fn same_setup(&self, other: &Table) -> bool {
        &&& self.merge_op() == other.merge_op()
        &&& self.storage_opt() == other.storage_opt()
        &&& self.cache_size() == other.cache_size()
    }

    /// A table with an empty cache for `cache_size` values.
    pub fn new(merge_op: MergeOperator, storage_opt: StorageOpt, cache_size: usize) -> (table: Table)
        ensures
            table.wf(),
            table.merge_op() == merge_op,
            table.storage_opt() == storage_opt,
            table.cache_size() == cache_size,
            table.cached() == Seq::<(Seq<u8>, Seq<u8>)>::empty(),
    {
        Table { merge_op, storage_opt, cache: TableCache::new(cache_size) }
    }

    /// How the store is to be set up for the table.
    pub fn tuning(&self) -> (t: StorageTuning)
        ensures
            t == self.storage_opt().tuning_spec(),
    {
        self.storage_opt.tuning()
    }

    /// Whether the store needs the table's merge function.
    pub fn merges(&self) -> (r: bool)
        ensures
            r == (self.merge_op() == MergeOperator::Associative),
    {
        self.merge_op == MergeOperator::Associative
    }

    /// First step of reading the value at `key`: the cache is asked.
    pub fn get<K: TableKey>(&mut self, key: K) -> (step: Lookup)
        requires
            old(self).wf(),
        ensures
            final(self).wf(),
            final(self).same_setup(old(self)),
            final(self).cached() == after_use(old(self).cached(), key.encoding()),
            match step {
                Lookup::Cached(v) => cached_value(old(self).cached(), key.encoding()) == Some(v@),
                Lookup::Read(k) => k@ == key.encoding() && cached_value(
                    old(self).cached(),
                    key.encoding(),
                ) is None,
            },
    {
        let raw = key.to_bytes();
        match self.cache.get(raw.as_slice()) {
            Some(value) => Lookup::Cached(value),
            None => Lookup::Read(raw),
        }
    }

    /// Second step of reading, after a miss: what the store holds at the
    /// key is taken into the cache and handed on. An absent record leaves
    /// the cache as it is.
    pub fn fill(&mut self, key: Vec<u8>, stored: Option<Vec<u8>>) -> (value: Option<Vec<u8>>)
        requires
            old(self).wf(),
        ensures
            final(self).wf(),
            final(self).same_setup(old(self)),
            match stored {
                Some(v) => value matches Some(w) && w@ == v@ && final(self).cached() == if old(
                    self,
                ).cache_size() == 0 {
                    old(self).cached()
                } else {
                    after_put(old(self).cached(), old(self).cache_size(), key@, v@)
                },
                None => value is None && final(self).cached() == old(self).cached(),
            },
    {
        match stored {
            Some(v) => {
                let copy = v.clone();
                assert(copy@ =~= v@);
                self.cache.put(key, copy);
                Some(v)
            },
            None => None,
        }
    }

    /// Inserts the given value at the given key, and hands back the write
    /// for the store.
    ///
    /// If the record already exists, the previous value is replaced, or
    /// merged with where the table has a merge function. A value that
    /// replaces goes to the cache. A value that is merged does not: what
    /// the record holds after the merge is for the store to say, so the
    /// cache forgets the key.
    pub fn insert<K: TableKey>(&mut self, key: K, value: Vec<u8>) -> (op: WriteOp)
        requires
            old(self).wf(),
        ensures
            final(self).wf(),
            final(self).same_setup(old(self)),
            op@ == old(self).merge_op().write_spec(key.encoding(), value@),
            final(self).cached() == if old(self).merge_op() == MergeOperator::Associative {
                after_pop(old(self).cached(), key.encoding())
            } else if old(self).cache_size() == 0 {
                old(self).cached()
            } else {
                after_put(old(self).cached(), old(self).cache_size(), key.encoding(), value@)
            },
            cached_value(final(self).cached(), key.encoding()) == if old(self).merge_op()
                == MergeOperator::Default && old(self).cache_size() > 0 {
                Some(value@)
            } else {
                None
            },
    {
        let raw = key.to_bytes();
        match self.merge_op {
            MergeOperator::Default => {
                let copy = value.clone();
                let raw_copy = raw.clone();
                assert(copy@ =~= value@);
                assert(raw_copy@ =~= raw@);
                proof {
                    self.cache.lemma_switched_off(raw@);
                }
                self.cache.put(raw_copy, copy);
            },
            MergeOperator::Associative => {
                self.cache.pop(raw.as_slice());
            },
        }
        self.merge_op.write(raw, value)
    }

    /// Removes the record with the given key from the table: the cache
    /// forgets it, and the deletion is handed back for the store.
    pub fn remove<K: TableKey>(&mut self, key: K) -> (op: WriteOp)
        requires
            old(self).wf(),
        ensures
            final(self).wf(),
            final(self).same_setup(old(self)),
            op@ == (WriteOpView::Delete { key: key.encoding() }),
            final(self).cached() == after_pop(old(self).cached(), key.encoding()),
            cached_value(final(self).cached(), key.encoding()) is None,
    {
        let raw = key.to_bytes();
        self.cache.pop(raw.as_slice());
        WriteOp::Delete { key: raw }
    }

    /// Create a new insertion batch.
    pub fn batched_insert(&self) -> (batch: InsertionBatch)
        ensures
            batch.merge_op() == self.merge_op(),
            batch.writes() == Seq::<WriteOpView>::empty(),
    {
        InsertionBatch::new(self.merge_op)
    }

    /// Takes the writes of a batch for the store and empties the cache.
    pub fn commit(&mut self, batch: InsertionBatch) -> (ops: Vec<WriteOp>)
        requires
            old(self).wf(),
        ensures
            final(self).wf(),
            final(self).same_setup(old(self)),
            ops_view(ops@) == batch.writes(),
            final(self).cached() == Seq::<(Seq<u8>, Seq<u8>)>::empty(),
    {
        batch.commit(&mut self.cache)
    }

    /// Clear the entire cache.
    pub fn clear_cache(&mut self)
        requires
            old(self).wf(),
        ensures
            final(self).wf(),
            final(self).same_setup(old(self)),
            final(self).cached() == Seq::<(Seq<u8>, Seq<u8>)>::empty(),
    {
        self.cache.clear();
    }

    /// The number of values in the cache.
    pub fn cache_len(&self) -> (n: usize)
        requires
            self.wf(),
        ensures
            n == self.cached().len(),
    {
        self.cache.len()
    }

    /// The number of values that the cache was made for.
    pub fn cache_cap(&self) -> (n: usize)
        ensures
            n == self.cache_size(),
    {
        self.cache.cap()
    }

    /// The raw keys between which the store is to be walked for the keys
    /// from `start` up to, not including, `end`.
    pub fn range<K: TableKey>(&self, start: K, end: K) -> (bounds: (Vec<u8>, Vec<u8>))
        ensures
            bounds.0@ == start.encoding(),
            bounds.1@ == end.encoding(),
    {
        (start.to_bytes(), end.to_bytes())
    }
}

} // verus!
