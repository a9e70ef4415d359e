use simpledb::errors::DbError;
use simpledb::file::block_id::BlockId;
use simpledb::server::SimpleDB;
use simpledb::tx::concurrency::locktable::{LockTable, LockTableKey};
use simpledb::tx::concurrency::manager::ConcurrencyMgr;
use simpledb::tx::transaction::Transaction;

#[test]
fn test_locktable_is_singleton() {
    // every concurrency manager works against the one shared table: a lock
    // taken through one is seen by all the others
    let mut tbl = LockTable::new();
    let mut cm1 = ConcurrencyMgr::new();
    let mut cm2 = ConcurrencyMgr::new();
    let key = LockTableKey::BID(BlockId::new("testfile", 0));
    cm1.x_lock(&mut tbl, &key).unwrap();
    assert_eq!(cm2.s_lock(&mut tbl, &key).unwrap_err(), DbError::LockAbort);
}

#[test]
fn lock_released_after_release() {
    let mut tbl = LockTable::new();
    let mut cm1 = ConcurrencyMgr::new();
    let mut cm2 = ConcurrencyMgr::new();
    let key = LockTableKey::BID(BlockId::new("testfile", 0));
    cm1.x_lock(&mut tbl, &key).unwrap();
    let _ = cm1.release(&mut tbl);
    assert!(cm2.x_lock(&mut tbl, &key).is_ok());
}

#[test]
fn shared_locks_coexist_but_exclude_exclusive() {
    let mut tbl = LockTable::new();
    let mut cm1 = ConcurrencyMgr::new();
    let mut cm2 = ConcurrencyMgr::new();
    let mut cm3 = ConcurrencyMgr::new();
    let key = LockTableKey::DUMMY(4);
    assert!(cm1.s_lock(&mut tbl, &key).is_ok());
    assert!(cm2.s_lock(&mut tbl, &key).is_ok());
    assert_eq!(cm3.x_lock(&mut tbl, &key).unwrap_err(), DbError::LockAbort);
}

#[test]
fn test_next_tx_number_is_singleton() {
    // all transactions of one database draw from the same counter
    let mut db = SimpleDB::new(200, 10, "testfile").unwrap();
    let t1 = Transaction::new(&mut db).unwrap();
    let t2 = Transaction::new(&mut db).unwrap();
    assert_eq!(t2.txnum(), t1.txnum() + 1);
}

#[test]
fn test_txnum_is_increment() {
    let mut db = SimpleDB::new(200, 10, "testfile").unwrap();
    let tx_base = Transaction::new(&mut db).unwrap();
    let base = tx_base.txnum();
    for i in 1..11 {
        let tx = Transaction::new(&mut db).unwrap();
        assert_eq!(tx.txnum(), i + base);
    }
}

#[test]
fn commit_durability() {
    // set a string, commit, reopen the store fresh, recover, read it back
    let mut db = SimpleDB::new(400, 8, "simpledb.log").unwrap();
    let blk = BlockId::new("f", 0);
    let mut t1 = Transaction::new(&mut db).unwrap();
    t1.pin(&mut db, &blk).unwrap();
    t1.set_string(&mut db, &blk, 100, "hello", true).unwrap();
    t1.commit(&mut db).unwrap();

    let fm = db.fm;
    let mut db2 = SimpleDB::open(fm, 8, "simpledb.log").unwrap();
    let mut t2 = Transaction::new(&mut db2).unwrap();
    t2.recover(&mut db2).unwrap();
    t2.pin(&mut db2, &blk).unwrap();
    assert_eq!(t2.get_string(&mut db2, &blk, 100).unwrap(), "hello");
    t2.commit(&mut db2).unwrap();
}

#[test]
fn rollback_restores_old_value() {
    let mut db = SimpleDB::new(400, 8, "simpledb.log").unwrap();
    let blk = BlockId::new("f", 0);
    let mut t1 = Transaction::new(&mut db).unwrap();
    t1.pin(&mut db, &blk).unwrap();
    t1.set_i32(&mut db, &blk, 80, 42, true).unwrap();
    t1.commit(&mut db).unwrap();

    let mut t2 = Transaction::new(&mut db).unwrap();
    t2.pin(&mut db, &blk).unwrap();
    t2.set_i32(&mut db, &blk, 80, 99, true).unwrap();
    assert_eq!(t2.get_i32(&mut db, &blk, 80).unwrap(), 99);
    t2.rollback(&mut db).unwrap();

    let mut t3 = Transaction::new(&mut db).unwrap();
    t3.pin(&mut db, &blk).unwrap();
    assert_eq!(t3.get_i32(&mut db, &blk, 80).unwrap(), 42);
    t3.commit(&mut db).unwrap();
}

#[test]
fn restart_recovery_keeps_committed_and_drops_uncommitted() {
    let mut db = SimpleDB::new(400, 8, "simpledb.log").unwrap();
    let blk = BlockId::new("f", 0);
    let mut t1 = Transaction::new(&mut db).unwrap();
    t1.pin(&mut db, &blk).unwrap();
    t1.set_i32(&mut db, &blk, 80, 1, true).unwrap();
    t1.commit(&mut db).unwrap();

    let mut t2 = Transaction::new(&mut db).unwrap();
    t2.pin(&mut db, &blk).unwrap();
    t2.set_i32(&mut db, &blk, 80, 2, true).unwrap();
    // the crash: drop every in-memory manager; only the store survives
    let fm = db.fm;

    let mut db2 = SimpleDB::open(fm, 8, "simpledb.log").unwrap();
    let mut t3 = Transaction::new(&mut db2).unwrap();
    t3.recover(&mut db2).unwrap();
    t3.pin(&mut db2, &blk).unwrap();
    assert_eq!(t3.get_i32(&mut db2, &blk, 80).unwrap(), 1);
    t3.commit(&mut db2).unwrap();
}

#[test]
fn size_and_append_grow_a_file() {
    let mut db = SimpleDB::new(400, 4, "simpledb.log").unwrap();
    let mut tx = Transaction::new(&mut db).unwrap();
    assert_eq!(tx.size(&mut db, "grown").unwrap(), 0);
    let b = tx.append(&mut db, "grown").unwrap();
    assert_eq!(b.number(), 0);
    assert_eq!(tx.size(&mut db, "grown").unwrap(), 1);
    assert_eq!(tx.block_size(&db), 400);
    tx.commit(&mut db).unwrap();
}

#[test]
fn timed_out_pin_reports_abort() {
    // with every frame pinned, a further pin reports the abort error rather
    // than waiting forever; a deadline-driven caller may retry it
    let mut db = SimpleDB::new(400, 1, "simpledb.log").unwrap();
    let mut t1 = Transaction::new(&mut db).unwrap();
    t1.pin(&mut db, &BlockId::new("f", 0)).unwrap();
    let r = t1.pin(&mut db, &BlockId::new("f", 1));
    assert_eq!(r.unwrap_err(), DbError::BufferAbort);
}

#[test]
fn wal_log_reaches_disk_before_evicted_page() {
    // one frame only: pinning a second block evicts the dirty first one,
    // which must force the SETI32 undo record to the on-disk log first
    let mut db = SimpleDB::new(400, 1, "simpledb.log").unwrap();
    let blk = BlockId::new("f", 0);
    let mut t1 = Transaction::new(&mut db).unwrap();
    t1.pin(&mut db, &blk).unwrap();
    t1.set_i32(&mut db, &blk, 80, 7, true).unwrap();
    t1.unpin(&mut db, &blk).unwrap();
    t1.pin(&mut db, &BlockId::new("f", 1)).unwrap();

    // read only what the store holds, without flushing anything more
    let nblocks = db.fm.length("simpledb.log").unwrap();
    let mut it = simpledb::log::iterator::LogIterator::new(
        &db.fm,
        BlockId::new("simpledb.log", nblocks - 1),
    )
    .unwrap();
    let mut found_set = false;
    while let Some(rec) = it.next(&db.fm) {
        if let simpledb::tx::recovery::logrecord::LogRecord::SetI32(s) =
            simpledb::tx::recovery::logrecord::create_log_record(rec).unwrap()
        {
            if s.txnum == t1.txnum() && s.offset == 80 {
                found_set = true;
            }
        }
    }
    assert!(found_set);
    t1.commit(&mut db).unwrap();
}

#[test]
fn commit_record_is_on_disk_after_commit() {
    let mut db = SimpleDB::new(400, 4, "simpledb.log").unwrap();
    let blk = BlockId::new("f", 0);
    let mut t1 = Transaction::new(&mut db).unwrap();
    t1.pin(&mut db, &blk).unwrap();
    t1.set_i32(&mut db, &blk, 4, 11, true).unwrap();
    t1.commit(&mut db).unwrap();

    let nblocks = db.fm.length("simpledb.log").unwrap();
    let mut it = simpledb::log::iterator::LogIterator::new(
        &db.fm,
        BlockId::new("simpledb.log", nblocks - 1),
    )
    .unwrap();
    let mut found_commit = false;
    while let Some(rec) = it.next(&db.fm) {
        if let simpledb::tx::recovery::logrecord::LogRecord::Commit(c) =
            simpledb::tx::recovery::logrecord::create_log_record(rec).unwrap()
        {
            if c.txnum == t1.txnum() {
                found_commit = true;
            }
        }
    }
    assert!(found_commit);
}
