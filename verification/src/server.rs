//! The top-level database object: one block store, one log, one buffer pool,
//! one lock table and one transaction-number counter, owned together so that
//! every transaction of a process shares them.

use vstd::prelude::*;
use crate::errors::DbError;
use crate::buffer::manager::BufferMgr;
use crate::file::manager::FileMgr;
use crate::log::manager::{spec_boundary, spec_log_records, LogMgr};
use crate::tx::concurrency::locktable::LockTable;

verus! {

/// The shared state of one database: transactions are created against it and
/// act through it.
pub struct SimpleDB {
    pub fm: FileMgr,
    pub lm: LogMgr,
    pub bm: BufferMgr,
    pub locktbl: LockTable,
    pub next_txnum: i32,
}

impl SimpleDB {
    /// All the managers agree with each other, the block size leaves room
    /// for log records, and transaction numbers count upward from zero.
    pub open spec fn inv(self) -> bool {
        &&& self.lm.inv(self.fm)
        &&& self.bm.inv(self.fm, self.lm)
        &&& self.locktbl.wf()
        &&& self.fm.spec_blocksize() >= 32
        &&& self.next_txnum >= 0
    }

    /// Opens a fresh, empty database.
    pub fn new(blocksize: usize, numbuffs: usize, logfile: &str) -> (r: Result<SimpleDB, DbError>)
        requires
            32 <= blocksize <= i32::MAX,
        ensures
            r matches Ok(db) && db.inv() && db.fm.spec_blocksize() == blocksize
                && db.fm.spec_is_new() && db.lm.spec_logfile() == logfile@
                && db.lm.spec_records() == Seq::<Seq<u8>>::empty() && db.next_txnum == 0
                && db.bm.spec_pool().len() == numbuffs && db.bm.spec_available() == numbuffs
                && db.lm.spec_latest_lsn() == 0,
    {
        let mut fm = FileMgr::new(blocksize, true);
        let lm = match LogMgr::new(&mut fm, logfile) {
            Ok(lm) => lm,
            Err(e) => {
                // opening a log in an empty store cannot be refused
                proof {
                    assert(false);
                }
                return Err(e);
            },
        };
        let bm = BufferMgr::new(&fm, &lm, numbuffs);
        let locktbl = LockTable::new();
        Ok(SimpleDB { fm, lm, bm, locktbl, next_txnum: 0 })
    }

    /// Opens a database over an existing block store, as after a restart:
    /// the in-memory managers are fresh; only the store's bytes carry over.
    /// A log file whose last block has a corrupt boundary word is refused.
    pub fn open(fm: FileMgr, numbuffs: usize, logfile: &str) -> (r: Result<SimpleDB, DbError>)
        requires
            fm.wf(),
            32 <= fm.spec_blocksize() <= i32::MAX,
        ensures
            r matches Ok(db) ==> db.inv() && db.fm.spec_blocksize() == fm.spec_blocksize()
                && db.lm.spec_logfile() == logfile@ && db.next_txnum == 0 && (forall|
                m: Seq<char>,
            | m != logfile@ ==> #[trigger] db.fm.file_of(m) == fm.file_of(m)),
            // opening is owed unless an existing log's last block carries a
            // corrupt boundary word
            (r is Ok) <==> (fm.spec_nblocks(logfile@) == 0 || (4 <= spec_boundary(
                fm.spec_block_at(logfile@, fm.spec_nblocks(logfile@) - 1),
            ) <= fm.spec_blocksize())),
            r is Err ==> r == Err::<SimpleDB, DbError>(DbError::UnknownLogRecord),
            // what the reopened log holds: exactly the records the store's
            // bytes read back as, all of them durable
            r matches Ok(db) ==> db.lm.spec_records() == (if fm.spec_nblocks(logfile@) == 0 {
                Seq::<Seq<u8>>::empty()
            } else {
                spec_log_records(
                    fm.file_of(logfile@),
                    fm.spec_blocksize(),
                    fm.spec_nblocks(logfile@) - 1,
                )
            }) && db.lm.spec_durable() == db.lm.spec_records() && db.lm.spec_latest_lsn() == 0
                && db.bm.spec_pool().len() == numbuffs && db.bm.spec_available() == numbuffs
                && db.fm.spec_is_new() == fm.spec_is_new(),
    {
        let mut fm = fm;
        let lm = match LogMgr::new(&mut fm, logfile) {
            Ok(lm) => lm,
            Err(e) => {
                return Err(e);
            },
        };
        let bm = BufferMgr::new(&fm, &lm, numbuffs);
        let locktbl = LockTable::new();
        Ok(SimpleDB { fm, lm, bm, locktbl, next_txnum: 0 })
    }
}

} // verus!
