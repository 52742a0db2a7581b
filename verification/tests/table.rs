use devfiler::storage::table::{
    InsertionBatch, Lookup, MergeOperator, StorageOpt, Table, TableCache, TableKey, WriteOp,
};
use devfiler::storage::tables::executables::Executables;
use devfiler::storage::tables::metrics::{MetricKey, Metrics};
use devfiler::storage::tables::stackframes::StackFrames;
use devfiler::storage::tables::stacktraces::{StackTraces, TraceHash};
use devfiler::storage::tables::traceevents::TraceEvents;
use devfiler::storage::Db;
use std::collections::BTreeMap;

/// A table as a program holds it: the part in memory, and the store that
/// stands behind it, here an ordered map.
struct TestTable {
    table: Table,
    store: BTreeMap<Vec<u8>, Vec<u8>>,
}

impl TestTable {
    fn new(cache_size: usize) -> TestTable {
        TestTable {
            table: Table::new(MergeOperator::Default, StorageOpt::RandomAccess, cache_size),
            store: BTreeMap::new(),
        }
    }

    fn write(&mut self, op: WriteOp) {
        match op {
            WriteOp::Put { key, value } | WriteOp::Merge { key, value } => {
                self.store.insert(key, value);
            }
            WriteOp::Delete { key } => {
                self.store.remove(&key);
            }
        }
    }

    fn insert(&mut self, key: TraceHash, value: &str) {
        let op = self.table.insert(key, value.as_bytes().to_vec());
        self.write(op);
    }

    fn remove(&mut self, key: TraceHash) {
        let op = self.table.remove(key);
        self.write(op);
    }

    fn get(&mut self, key: TraceHash) -> Option<String> {
        let bytes = match self.table.get(key) {
            Lookup::Cached(bytes) => Some(bytes),
            Lookup::Read(raw) => {
                let stored = self.store.get(&raw).cloned();
                self.table.fill(raw, stored)
            }
        };
        bytes.map(|b| String::from_utf8(b).unwrap())
    }
}

#[test]
fn test_cache_functionality() {
    let mut table = TestTable::new(10);
    let key = TraceHash(42);
    let value = "hello world".to_string();

    table.insert(key, &value);

    let retrieved1 = table.get(key).unwrap();
    assert_eq!(retrieved1, value);

    assert_eq!(table.table.cache_len(), 1);
    assert_eq!(table.table.cache_cap(), 10);

    let retrieved2 = table.get(key).unwrap();
    assert_eq!(retrieved2, value);

    assert_eq!(table.table.cache_len(), 1);

    table.remove(key);
    assert!(table.get(key).is_none());
}

#[test]
fn test_cache_lru_eviction() {
    let mut table = TestTable::new(10);
    for i in 0..15 {
        table.insert(TraceHash(i), &format!("value_{}", i));
    }
    assert_eq!(table.table.cache_len(), 10);
    assert_eq!(table.table.cache_cap(), 10);

    table.table.clear_cache();
    assert_eq!(table.table.cache_len(), 0);
}

#[test]
fn test_cache_performance_benefit() {
    let mut table = TestTable::new(10);
    let key = TraceHash(999);
    let value = "performance_test_value".to_string();
    table.insert(key, &value);

    let result1 = table.get(key).unwrap();
    assert_eq!(result1, value);
    assert_eq!(table.table.cache_len(), 1);

    // the second read is answered by the cache: the store may be gone
    table.store.clear();
    let result2 = table.get(key).unwrap();
    assert_eq!(result2, value);
    assert_eq!(table.table.cache_len(), 1);
}

#[test]
fn test_cache_basic_usage() {
    let mut table = TestTable::new(10);
    let key1 = TraceHash(100);
    let key2 = TraceHash(200);
    let key3 = TraceHash(300); // this key won't exist

    table.insert(key1, "value1");
    table.insert(key2, "value2");

    table.table.clear_cache();

    let _ = table.get(key1).unwrap();
    let _ = table.get(key2).unwrap();
    let _ = table.get(key3);

    let _ = table.get(key1).unwrap();
    let _ = table.get(key2).unwrap();

    assert_eq!(table.table.cache_len(), 2);
}

#[test]
fn least_recently_used_value_makes_room() {
    let mut cache = TableCache::new(2);
    cache.put(vec![1], vec![10]);
    cache.put(vec![2], vec![20]);
    // key 1 is used, so key 2 is the one that goes
    assert_eq!(cache.get(&[1]), Some(vec![10]));
    cache.put(vec![3], vec![30]);
    assert_eq!(cache.len(), 2);
    assert_eq!(cache.get(&[2]), None);
    assert_eq!(cache.get(&[1]), Some(vec![10]));
    assert_eq!(cache.get(&[3]), Some(vec![30]));
    // a value that is put again replaces the old one and takes no room
    cache.put(vec![1], vec![11]);
    assert_eq!(cache.len(), 2);
    assert_eq!(cache.get(&[1]), Some(vec![11]));
    assert_eq!(cache.get(&[3]), Some(vec![30]));
    cache.pop(&[1]);
    assert_eq!(cache.len(), 1);
    assert_eq!(cache.get(&[1]), None);
    cache.pop(&[9]);
    assert_eq!(cache.len(), 1);
    cache.clear();
    assert_eq!(cache.len(), 0);
    assert_eq!(cache.cap(), 2);
}

#[test]
fn cache_of_size_zero_is_switched_off() {
    let mut cache = TableCache::new(0);
    cache.put(vec![1], vec![10]);
    assert_eq!(cache.len(), 0);
    assert_eq!(cache.cap(), 0);
    assert_eq!(cache.get(&[1]), None);

    let mut table = TestTable::new(0);
    table.insert(TraceHash(1), "stored");
    assert_eq!(table.table.cache_len(), 0);
    assert_eq!(table.get(TraceHash(1)).as_deref(), Some("stored"));
    assert_eq!(table.table.cache_len(), 0);
    table.store.clear();
    assert_eq!(table.get(TraceHash(1)), None);
}

#[test]
fn writes_follow_the_merge_operator() {
    let key = MetricKey { timestamp: 1, metric_id: 2 };
    let raw = key.into_raw().to_vec();
    let mut plain = Table::new(MergeOperator::Default, StorageOpt::RandomAccess, 4);
    assert_eq!(
        plain.insert(key, vec![7]),
        WriteOp::Put { key: raw.clone(), value: vec![7] }
    );
    assert!(!plain.merges());
    let mut merging = Metrics::new().table;
    assert_eq!(
        merging.insert(key, vec![7]),
        WriteOp::Merge { key: raw.clone(), value: vec![7] }
    );
    assert!(merging.merges());
    // what a merge leaves in the record is for the store to say: the cache forgets the key
    assert_eq!(merging.cache_len(), 0);
    assert_eq!(merging.get(key), Lookup::Read(raw.clone()));
    assert_eq!(merging.fill(raw.clone(), Some(vec![9])), Some(vec![9]));
    assert_eq!(merging.get(key), Lookup::Cached(vec![9]));
    merging.insert(key, vec![1]);
    assert_eq!(merging.get(key), Lookup::Read(raw.clone()));
    assert_eq!(plain.get(key), Lookup::Cached(vec![7]));
    assert_eq!(merging.remove(key), WriteOp::Delete { key: raw.clone() });
    assert_eq!(MergeOperator::Default.write(vec![1], vec![2]), WriteOp::Put {
        key: vec![1],
        value: vec![2]
    });
    assert_eq!(MergeOperator::Associative.write(vec![1], vec![2]), WriteOp::Merge {
        key: vec![1],
        value: vec![2]
    });
}

#[test]
fn batch_is_handed_over_whole_and_empties_the_cache() {
    let mut table = TestTable::new(10);
    table.insert(TraceHash(1), "old");
    assert_eq!(table.table.cache_len(), 1);

    let mut batch = table.table.batched_insert();
    assert_eq!(batch.len(), 0);
    batch.insert(TraceHash(1), b"new".to_vec());
    batch.insert(TraceHash(2), b"two".to_vec());
    assert_eq!(batch.len(), 2);
    // nothing is written before the commit
    assert_eq!(table.get(TraceHash(1)).as_deref(), Some("old"));
    assert_eq!(table.get(TraceHash(2)), None);

    let ops = table.table.commit(batch);
    assert_eq!(
        ops,
        vec![
            WriteOp::Put { key: TraceHash(1).into_raw().to_vec(), value: b"new".to_vec() },
            WriteOp::Put { key: TraceHash(2).into_raw().to_vec(), value: b"two".to_vec() },
        ]
    );
    assert_eq!(table.table.cache_len(), 0);
    for op in ops {
        table.write(op);
    }
    // reads after the commit see the new state
    assert_eq!(table.get(TraceHash(1)).as_deref(), Some("new"));
    assert_eq!(table.get(TraceHash(2)).as_deref(), Some("two"));

    let mut merging = InsertionBatch::new(MergeOperator::Associative);
    merging.insert(TraceHash(3), vec![1]);
    let mut cache = TableCache::new(1);
    cache.put(vec![0], vec![0]);
    assert_eq!(
        merging.commit(&mut cache),
        vec![WriteOp::Merge { key: TraceHash(3).into_raw().to_vec(), value: vec![1] }]
    );
    assert_eq!(cache.len(), 0);
}

#[test]
fn range_bounds_are_the_raw_keys() {
    let table = Table::new(MergeOperator::Default, StorageOpt::SeqRead, 1);
    let (start, end) = table.range(
        MetricKey { timestamp: 1, metric_id: 0 },
        MetricKey { timestamp: 2, metric_id: u32::MAX },
    );
    assert_eq!(start, vec![0, 0, 0, 0, 0, 0, 0, 1, 0, 0, 0, 0]);
    assert_eq!(end, vec![0, 0, 0, 0, 0, 0, 0, 2, 0xFF, 0xFF, 0xFF, 0xFF]);
}

#[test]
fn storage_is_tuned_for_the_way_of_reading() {
    let random = StorageOpt::RandomAccess.tuning();
    assert_eq!(random.block_size, None);
    assert!(!random.compression);
    assert_eq!(random.bloom_bits, 10);
    assert!(random.mmap_reads);
    assert!(random.advise_random_on_open);
    let sequential = StorageOpt::SeqRead.tuning();
    assert_eq!(sequential.block_size, Some(256 * 1024));
    assert!(sequential.compression);
    assert_eq!(sequential.bloom_bits, 10);
    assert!(sequential.mmap_reads);
    assert!(!sequential.advise_random_on_open);
}

#[test]
fn tables_are_set_up_as_the_schema_says() {
    let events = TraceEvents::new().table;
    assert_eq!(events.tuning(), StorageOpt::SeqRead.tuning());
    assert!(!events.merges());
    assert_eq!(events.cache_cap(), 16384);
    let metrics = Metrics::new().table;
    assert_eq!(metrics.tuning(), StorageOpt::SeqRead.tuning());
    assert!(metrics.merges());
    let traces = StackTraces::new().table;
    assert_eq!(traces.tuning(), StorageOpt::RandomAccess.tuning());
    assert_eq!(traces.cache_cap(), 8192);
    assert_eq!(StackFrames::new().table.cache_cap(), 16384);
    assert_eq!(Executables::new().table.tuning(), StorageOpt::RandomAccess.tuning());

    let db = Db::new();
    assert_eq!(Db::NUM_TABLES, 5);
    assert_eq!(db.tables().len(), Db::NUM_TABLES);
    assert_eq!(db.tables()[1].cache_cap(), 8192);
    assert!(db.tables()[4].merges());
    assert_eq!(
        Db::table_dirs(),
        ["trace_events", "stack_traces", "stack_frames", "executables", "metrics"]
    );
    assert_eq!(devfiler::storage::DB_VERSION, 4);
}
