use engine::binder::{BoundExpr, DataType as BDataType, Value};
use engine::parser::BinaryOp;
use engine::btree::{
    child_index, internal_insert, key_range, leaf_insert, leaf_lookup, leaf_range, search_keys,
    IndexError, InternalInsert, KeyRange, LeafInsert,
};
use engine::buffer_pool::{BufferPool, Fetch, PoolError};
use engine::free_list::FreeList;
use engine::lock_manager::{LockManager, LockMode, Resource};
use engine::log_manager::{LogManager, LogRecordType};
use engine::node::{InternalNodeSerializer, LeafNodeSerializer, NodeError, NodeHeader, NodeType};
use engine::record::{Page, PageError};
use engine::recovery_manager::{
    active_transactions, parse_log, redo_writes, undo_writes, RecoveryError,
};
use engine::row::{deserialize_row, serialize_row, RowError};
use engine::storage::{Catalog, ColumnInfo, DataType};

#[test]
fn row_round_trip() {
    let vals = vec![
        Value::Int(-7),
        Value::String("héllo".to_string()),
        Value::Int(i64::MAX),
        Value::String(String::new()),
    ];
    let bytes = serialize_row(&vals);
    assert_eq!(&bytes[0..4], &[4, 0, 0, 0]);
    assert_eq!(bytes[4], 0);
    assert_eq!(&bytes[5..13], &(-7i64).to_le_bytes());
    assert_eq!(bytes[13], 1);
    assert_eq!(&bytes[14..18], &[6, 0, 0, 0]);
    let back = deserialize_row(&bytes).unwrap();
    assert_eq!(back.len(), 4);
    assert!(matches!(back[0], Value::Int(-7)));
    assert!(matches!(&back[1], Value::String(s) if s == "héllo"));
    assert!(matches!(back[2], Value::Int(i64::MAX)));
    assert!(matches!(&back[3], Value::String(s) if s.is_empty()));
}

#[test]
fn row_decode_errors() {
    assert_eq!(deserialize_row(&[1, 0]).unwrap_err(), RowError::Truncated);
    assert_eq!(deserialize_row(&[1, 0, 0, 0, 9]).unwrap_err(), RowError::InvalidTag);
    assert_eq!(deserialize_row(&[1, 0, 0, 0, 0, 1, 2]).unwrap_err(), RowError::Truncated);
    assert_eq!(
        deserialize_row(&[1, 0, 0, 0, 1, 2, 0, 0, 0, 0xff, 0xfe]).unwrap_err(),
        RowError::InvalidUtf8
    );
    assert_eq!(deserialize_row(&[0, 0, 0, 0, 42]).unwrap().len(), 0);
}

#[test]
fn leaf_node_round_trip() {
    let h = NodeHeader { node_type: NodeType::Leaf, key_count: 3, parent: 9 };
    let keys = [1u64, 5, 9];
    let rids = [(10u64, 1u16), (11, 2), (12, 3)];
    let s = LeafNodeSerializer { order: 4 };
    let buf = s.serialize(&h, &keys, &rids, 77, 256);
    assert_eq!(buf.len(), 256);
    assert_eq!(buf[0], 1);
    let (h2, k2, r2, next) = s.deserialize(&buf).unwrap();
    assert_eq!(h2, h);
    assert_eq!(k2, keys.to_vec());
    assert_eq!(r2, rids.to_vec());
    assert_eq!(next, 77);
    assert_eq!(InternalNodeSerializer { order: 4 }.deserialize(&buf).unwrap_err(), NodeError::UnexpectedNodeType);
}

#[test]
fn internal_node_round_trip() {
    let h = NodeHeader { node_type: NodeType::Internal, key_count: 2, parent: 0 };
    let s = InternalNodeSerializer { order: 4 };
    let buf = s.serialize(&h, &[10, 20], &[3, 4, 5], 128);
    let (h2, k2, c2) = s.deserialize(&buf).unwrap();
    assert_eq!(h2, h);
    assert_eq!(k2, vec![10, 20]);
    assert_eq!(c2, vec![3, 4, 5]);
    let mut bad = buf.clone();
    bad[0] = 7;
    assert_eq!(s.deserialize(&bad).unwrap_err(), NodeError::InvalidNodeType);
    assert_eq!(s.deserialize(&buf[0..20]).unwrap_err(), NodeError::Truncated);
}

#[test]
fn slotted_page_inserts_and_iterates() {
    let mut page = Page::new(3, 64);
    assert_eq!(page.free_space(), 52);
    assert_eq!(page.insert_tuple(b"abc").unwrap(), (3, 0));
    assert_eq!(page.free_space(), 45);
    assert_eq!(page.insert_tuple(b"defgh").unwrap(), (3, 1));
    assert_eq!(page.free_space(), 36);
    assert_eq!(page.get_tuple(0).unwrap(), b"abc");
    assert_eq!(page.get_tuple(1).unwrap(), b"defgh");
    assert!(page.get_tuple(2).is_none());
    page.delete_tuple(0).unwrap();
    let live: Vec<(u16, Vec<u8>)> = page.iter_slots().into_iter().map(|(s, t)| (s, t.to_vec())).collect();
    assert_eq!(live, vec![(1, b"defgh".to_vec())]);
    assert_eq!(page.delete_tuple(5).unwrap_err(), PageError::InvalidSlot);
    assert_eq!(page.insert_tuple(&[0u8; 40]).unwrap_err(), PageError::NotEnoughSpace);
    assert!(page.insert_tuple(&[7u8; 32]).is_ok());
    assert_eq!(page.free_space(), 0);
    let bytes = page.to_bytes();
    let again = Page::from_bytes(bytes, 64);
    assert!(again.is_well_formed());
    assert_eq!(again.get_tuple(1).unwrap(), b"defgh");
}

#[test]
fn free_list_first_fit() {
    let mut fl = FreeList::new();
    assert_eq!(fl.choose_page(1), None);
    fl.register(4, 10);
    fl.register(2, 100);
    fl.register(7, 50);
    assert_eq!(fl.choose_page(20), Some(2));
    fl.register(4, 60);
    assert_eq!(fl.choose_page(20), Some(4));
    fl.register(9, 70);
    fl.remove(4);
    // the others keep their registration order: 2, 7, 9
    assert_eq!(fl.choose_page(20), Some(2));
    fl.remove(2);
    assert_eq!(fl.choose_page(55), Some(9));
    assert_eq!(fl.choose_page(101), None);
}

#[test]
fn buffer_pool_clock_eviction() {
    let mut bp = BufferPool::new(2);
    assert!(matches!(bp.fetch_page(1), Ok(Fetch::Load { write_back: None })));
    bp.install(1, vec![1; 4]);
    assert!(matches!(bp.fetch_page(2), Ok(Fetch::Load { write_back: None })));
    bp.install(2, vec![2; 4]);
    assert!(matches!(bp.fetch_page(1), Ok(Fetch::Resident)));
    // both pinned: nothing to evict
    assert!(matches!(bp.fetch_page(3), Err(PoolError::NoEvictableFrame)));
    bp.unpin_page(1, false);
    bp.unpin_page(1, false);
    bp.unpin_page(2, true);
    assert!(bp.set_page_data(2, vec![9; 4]));
    // both are referenced: the first turn clears the bits, the second
    // evicts page 1
    match bp.fetch_page(3) {
        Ok(Fetch::Load { write_back: None }) => {}
        _ => panic!("page 1 is clean and unpinned"),
    }
    bp.install(3, vec![3; 4]);
    assert!(bp.page_data(1).is_none());
    assert_eq!(bp.page_data(2).unwrap(), &vec![9; 4]);
    bp.unpin_page(3, false);
    match bp.fetch_page(4) {
        Ok(Fetch::Load { write_back: Some((2, data)) }) => assert_eq!(data, vec![9; 4]),
        _ => panic!("dirty page 2 is written back"),
    }
}

#[test]
fn buffer_pool_flush_takes_dirty_pages() {
    let mut bp = BufferPool::new(3);
    for p in 0..3u64 {
        let _ = bp.fetch_page(p);
        bp.install(p, vec![p as u8; 2]);
        bp.unpin_page(p, p != 1);
    }
    let dirty = bp.take_dirty();
    assert_eq!(dirty, vec![(0, vec![0, 0]), (2, vec![2, 2])]);
    assert!(bp.take_dirty().is_empty());
}

#[test]
fn lock_manager_grants_and_queues() {
    let mut lm = LockManager::new();
    let t = Resource::Table("t".to_string());
    assert!(lm.lock(1, t.clone(), LockMode::Shared));
    assert!(lm.lock(2, t.clone(), LockMode::Shared));
    assert!(!lm.lock(3, t.clone(), LockMode::Exclusive));
    // shared holders only: a shared request is granted at once
    assert!(lm.lock(4, t.clone(), LockMode::Shared));
    assert!(lm.lock(6, t.clone(), LockMode::Shared));
    assert!(lm.lock(5, Resource::Page(9), LockMode::Exclusive));
    assert!(!lm.lock(7, Resource::Page(9), LockMode::Shared));
    assert!(lm.unlock_all(1).is_empty());
    assert!(lm.unlock_all(2).is_empty());
    assert!(lm.unlock_all(4).is_empty());
    assert_eq!(lm.unlock_all(6), vec![3]);
    assert_eq!(lm.unlock_all(5), vec![7]);
}

#[test]
fn exclusive_holder_blocks_shared_until_commit() {
    let mut lm = LockManager::new();
    let t = Resource::Table("t".to_string());
    assert!(lm.lock(1, t.clone(), LockMode::Exclusive));
    assert!(!lm.lock(2, t.clone(), LockMode::Shared));
    assert_eq!(lm.unlock_all(1), vec![2]);
}

#[test]
fn deadlock_is_detected() {
    let mut lm = LockManager::new();
    let a = Resource::Table("a".to_string());
    let b = Resource::Table("b".to_string());
    assert!(lm.lock(1, a.clone(), LockMode::Exclusive));
    assert!(lm.lock(2, b.clone(), LockMode::Exclusive));
    assert!(lm.detect_deadlock().is_none());
    assert!(!lm.lock(1, b.clone(), LockMode::Exclusive));
    assert!(lm.detect_deadlock().is_none());
    assert!(!lm.lock(2, a.clone(), LockMode::Exclusive));
    let mut cycle = lm.detect_deadlock().expect("a cycle");
    cycle.sort();
    assert_eq!(cycle, vec![1, 2]);
}

#[test]
fn log_manager_chains_and_flushes() {
    let mut log = LogManager::new();
    assert_eq!(log.log_begin(7).unwrap(), 1);
    let mut payload = Vec::new();
    payload.extend_from_slice(&3u64.to_le_bytes());
    payload.extend_from_slice(&16u32.to_le_bytes());
    payload.extend_from_slice(&[0, 0, 1, 2]);
    assert_eq!(log.log_update(7, payload.clone()).unwrap(), 2);
    let (lsn, bytes) = log.log_commit(7).unwrap();
    assert_eq!(lsn, 3);
    assert_eq!(log.flushed_lsn(), 3);
    let recs = parse_log(&bytes).unwrap();
    assert_eq!(recs.len(), 3);
    assert_eq!(recs[0].header.typ, LogRecordType::Begin);
    assert_eq!(recs[1].header.prev_lsn, Some(1));
    assert_eq!(recs[2].header.prev_lsn, Some(2));
    assert_eq!(recs[1].payload, payload);
    assert!(active_transactions(&recs).is_empty());
    let redo = redo_writes(&recs).unwrap();
    assert_eq!(redo.len(), 1);
    assert_eq!((redo[0].page_no, redo[0].offset, redo[0].bytes.clone()), (3, 16, vec![1, 2]));
}

#[test]
fn uncommitted_update_is_undone() {
    let mut log = LogManager::new();
    log.log_begin(1).unwrap();
    let mut payload = Vec::new();
    payload.extend_from_slice(&5u64.to_le_bytes());
    payload.extend_from_slice(&0u32.to_le_bytes());
    payload.extend_from_slice(&[9, 8]);
    log.log_update(1, payload).unwrap();
    let mut bytes = log.flush(2);
    // a record cut short at the end is ignored
    bytes.extend_from_slice(&[40, 0, 0, 0, 1, 2]);
    let recs = parse_log(&bytes).unwrap();
    assert_eq!(active_transactions(&recs), vec![1]);
    let undo = undo_writes(&recs, 1).unwrap();
    assert_eq!(undo.len(), 1);
    assert_eq!((undo[0].page_no, undo[0].offset, undo[0].bytes.clone()), (5, 0, vec![9]));
    assert_eq!(undo_writes(&recs, 99).unwrap().len(), 0);
    let mut bad = bytes.clone();
    bad[4 + 24] = 8;
    assert_eq!(parse_log(&bad).unwrap_err(), RecoveryError::MalformedRecord);
}

#[test]
fn storage_catalog_tables_records_indexes() {
    let mut cat = Catalog::new();
    let cols = vec![ColumnInfo { name: "id".to_string(), data_type: DataType::Int }];
    assert!(cat.create_table("users".to_string(), cols.clone()).is_ok());
    assert!(cat.create_table("USERS".to_string(), cols).is_err());
    assert_eq!(cat.get_table("Users").unwrap().name, "users");
    assert!(cat.add_record("users", (1, 0)).is_ok());
    assert!(cat.add_record("nobody", (1, 1)).is_err());
    assert_eq!(cat.get_table("users").unwrap().records, vec![(1, 0)]);
    cat.create_index("users".to_string(), "id".to_string(), "ix".to_string(), 4, 12);
    cat.create_index("other".to_string(), "id".to_string(), "iy".to_string(), 4, 13);
    let ixs = cat.get_indexes("USERS");
    assert_eq!(ixs.len(), 1);
    assert_eq!((ixs[0].name.as_str(), ixs[0].root_page), ("ix", 12));
}

#[test]
fn btree_search_and_child_choice() {
    let keys = [10u64, 20, 30];
    assert_eq!(search_keys(&keys, 20), Ok(1));
    assert_eq!(search_keys(&keys, 25), Err(2));
    assert_eq!(child_index(&keys, 20), 2);
    assert_eq!(child_index(&keys, 5), 0);
    assert_eq!(child_index(&keys, 35), 3);
}

#[test]
fn btree_leaf_insert_splits_past_order() {
    match leaf_insert(vec![1, 3], vec![(1, 1), (1, 3)], 2, (1, 2), 3).unwrap() {
        LeafInsert::Fits { keys, rids } => {
            assert_eq!(keys, vec![1, 2, 3]);
            assert_eq!(rids, vec![(1, 1), (1, 2), (1, 3)]);
        }
        _ => panic!("fits"),
    }
    match leaf_insert(vec![1, 2, 3, 4], vec![(0, 1), (0, 2), (0, 3), (0, 4)], 5, (0, 5), 4).unwrap() {
        LeafInsert::Split { left_keys, right_keys, split_key, right_rids, .. } => {
            assert_eq!(left_keys, vec![1, 2, 3]);
            assert_eq!(right_keys, vec![4, 5]);
            assert_eq!(right_rids, vec![(0, 4), (0, 5)]);
            assert_eq!(split_key, 4);
        }
        _ => panic!("splits"),
    }
    assert!(matches!(leaf_insert(vec![1], vec![(0, 1)], 1, (0, 9), 4), Err(IndexError::DuplicateKey)));
}

#[test]
fn btree_internal_insert_promotes_middle_key() {
    match internal_insert(vec![10, 20, 30, 40], vec![1, 2, 3, 4, 5], 3, 25, 9, 4).unwrap() {
        InternalInsert::Split { left_keys, left_children, right_keys, right_children, promote_key } => {
            assert_eq!(promote_key, 25);
            assert_eq!(left_keys, vec![10, 20]);
            assert_eq!(left_children, vec![1, 2, 3]);
            assert_eq!(right_keys, vec![30, 40]);
            assert_eq!(right_children, vec![9, 4, 5]);
        }
        _ => panic!("splits"),
    }
    assert!(matches!(internal_insert(vec![10], vec![1, 2], 7, 5, 9, 4), Err(IndexError::ChildNotFound)));
}

#[test]
fn btree_leaf_lookup_and_range() {
    let keys = [2u64, 4, 6, 8];
    let rids = [(1u64, 0u16), (1, 1), (1, 2), (1, 3)];
    assert_eq!(leaf_lookup(&keys, &rids, 6), Some((1, 2)));
    assert_eq!(leaf_lookup(&keys, &rids, 5), None);
    let (hits, more) = leaf_range(&keys, &rids, 3, 6);
    assert_eq!(hits, vec![(4, (1, 1)), (6, (1, 2))]);
    assert!(!more);
    let (hits, more) = leaf_range(&keys, &rids, 0, 100);
    assert_eq!(hits.len(), 4);
    assert!(more);
}

#[test]
fn predicate_key_ranges() {
    let p = |op: BinaryOp, v: i64| BoundExpr::BinaryOp {
        left: Box::new(BoundExpr::Column { table: "t".to_string(), col: "id".to_string(), ordinal: 0, data_type: BDataType::Int }),
        op,
        right: Box::new(BoundExpr::Literal(Value::Int(v))),
        data_type: BDataType::Int,
    };
    assert_eq!(key_range(&p(BinaryOp::Eq, 2)), Ok(Some(KeyRange::Point(2))));
    assert_eq!(key_range(&p(BinaryOp::Lt, 5)), Ok(Some(KeyRange::Between(0, 4))));
    assert_eq!(key_range(&p(BinaryOp::Gt, 5)), Ok(Some(KeyRange::Between(6, u64::MAX))));
    assert_eq!(key_range(&p(BinaryOp::Gt, -1)), Ok(None));
    assert_eq!(key_range(&p(BinaryOp::Lt, 0)), Ok(None));
    assert_eq!(key_range(&p(BinaryOp::Lt, 1)), Ok(Some(KeyRange::Between(0, 0))));
    assert_eq!(key_range(&p(BinaryOp::LtEq, 5)), Err(IndexError::UnsupportedOperator));
}

#[test]
fn leaf_inserts_stay_sorted_and_found() {
    let mut keys: Vec<u64> = Vec::new();
    let mut rids: Vec<(u64, u16)> = Vec::new();
    for (k, slot) in [(50u64, 0u16), (10, 1), (30, 2), (20, 3), (40, 4)] {
        match leaf_insert(keys.clone(), rids.clone(), k, (1, slot), 16).unwrap() {
            LeafInsert::Fits { keys: nk, rids: nr } => {
                keys = nk;
                rids = nr;
            }
            _ => panic!("no split below the order"),
        }
    }
    assert_eq!(keys, vec![10, 20, 30, 40, 50]);
    assert_eq!(leaf_lookup(&keys, &rids, 30), Some((1, 2)));
    assert_eq!(leaf_lookup(&keys, &rids, 50), Some((1, 0)));
    let (all, _) = leaf_range(&keys, &rids, 0, u64::MAX);
    assert_eq!(all.iter().map(|e| e.0).collect::<Vec<_>>(), vec![10, 20, 30, 40, 50]);
}
