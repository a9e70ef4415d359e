//! The recovery manager: writes the lifecycle records of one transaction and
//! drives undo-only rollback and restart recovery.
//!
//! A transaction's changes are durable once its COMMIT record is: commit
//! first flushes the transaction's dirty pages, then forces the log through
//! the COMMIT record. Rollback and restart recovery read the log newest
//! record first and write old values back; neither writes new update
//! records.

use vstd::prelude::*;
use vstd::string::StringSliceAdditionalSpecFns;
use crate::errors::DbError;
use crate::buffer::manager::BufferMgr;
use crate::file::block_id::BlockId;
use crate::file::manager::{str_eq, str_len, FileMgr};
use crate::log::manager::LogMgr;
use crate::tx::recovery::logrecord::{
    create_log_record, spec_canonical, spec_checkpoint_rec, spec_commit_rec,
    spec_is_update_of, spec_rollback_rec, spec_start_rec, CheckpointRecord, CommitRecord,
    LogRecord, RollbackRecord, SetI32Record, SetStringRecord, StartRecord, TxType,
};

verus! {

/// Drives logging and recovery for one transaction.
pub struct RecoveryMgr {
    txnum: i32,
}

impl RecoveryMgr {
    pub closed spec fn spec_txnum(self) -> i32 {
        self.txnum
    }

    /// Opens recovery for a fresh transaction: its START record goes to the
    /// log at once.
    pub fn new(fm: &mut FileMgr, lm: &mut LogMgr, txnum: i32) -> (r: Result<Self, DbError>)
        requires
            old(lm).inv(*old(fm)),
            old(lm).spec_latest_lsn() < u64::MAX,
            old(fm).spec_blocksize() >= 16,
            txnum >= 0,
        ensures
            final(lm).inv(*final(fm)),
            final(lm).spec_logfile() == old(lm).spec_logfile(),
            final(fm).spec_blocksize() == old(fm).spec_blocksize(),
            final(fm).spec_is_new() == old(fm).spec_is_new(),
            forall|m: Seq<char>| m != old(lm).spec_logfile() ==> #[trigger] final(fm).file_of(m)
                == old(fm).file_of(m),
            forall|m: Seq<char>| m != old(lm).spec_logfile() ==> #[trigger] final(fm).has_file(m)
                == old(fm).has_file(m),
            final(lm).spec_latest_lsn() <= old(lm).spec_latest_lsn() + 1,
            old(fm).file_of(old(lm).spec_logfile()).len() + old(fm).spec_blocksize()
                <= usize::MAX ==> r is Ok,
            r matches Ok(rm) ==> rm.spec_txnum() == txnum && final(lm).spec_records() == seq![
                spec_start_rec(txnum),
            ] + old(lm).spec_records(),
            r is Err ==> final(lm).spec_records() == old(lm).spec_records(),
    {
        let res = StartRecord::write_to_log(fm, lm, txnum);
        match res {
            Ok(_) => Ok(Self { txnum }),
            Err(e) => Err(e),
        }
    }

    /// Commits the transaction: its dirty pages reach the store, then the
    /// COMMIT record is appended and the log forced through it. On return
    /// the COMMIT record is durable.
    pub fn commit(&self, fm: &mut FileMgr, lm: &mut LogMgr, bm: &mut BufferMgr) -> (r: Result<
        (),
        DbError,
    >)
        requires
            old(lm).inv(*old(fm)),
            old(bm).inv(*old(fm), *old(lm)),
            old(lm).spec_latest_lsn() < u64::MAX,
            old(fm).spec_blocksize() >= 16,
            self.spec_txnum() >= 0,
        ensures
            final(lm).inv(*final(fm)),
            final(bm).inv(*final(fm), *final(lm)),
            final(lm).spec_logfile() == old(lm).spec_logfile(),
            final(fm).spec_blocksize() == old(fm).spec_blocksize(),
            final(fm).spec_is_new() == old(fm).spec_is_new(),
            final(bm).spec_pool().len() == old(bm).spec_pool().len(),
            forall|i: int| 0 <= i < old(bm).spec_pool().len() ==> (#[trigger] final(bm).spec_pool()[i]).spec_pins() == old(bm).spec_pool()[i].spec_pins(),
            forall|i: int| 0 <= i < old(bm).spec_pool().len() && old(bm).spec_pool()[i].spec_pins()
                > 0 ==> (#[trigger] final(bm).spec_pool()[i]).spec_blk() == old(bm).spec_pool()[
                i
            ].spec_blk(),
            final(lm).spec_latest_lsn() <= old(lm).spec_latest_lsn() + 1,
            old(fm).file_of(old(lm).spec_logfile()).len() + old(fm).spec_blocksize()
                <= usize::MAX ==> r is Ok,
            r is Ok ==> {
                &&& final(lm).spec_records() == seq![spec_commit_rec(self.spec_txnum())] + old(lm).spec_records()
                &&& final(lm).spec_durable() == final(lm).spec_records()
            },
            // every page this transaction dirtied reached the store before
            // the COMMIT record was forced
            r is Ok ==> forall|i: int| 0 <= i < old(bm).spec_pool().len() && (#[trigger] old(
                bm,
            ).spec_pool()[i]).spec_txnum() == self.spec_txnum() ==> (match old(bm).spec_pool()[
                i
            ].spec_blk() {
                Some(b) => final(fm).spec_block_at(b.spec_file(), b.spec_num() as int) == old(
                    bm,
                ).spec_pool()[i].spec_page(),
                None => true,
            }),
    {
        let res = bm.flush_all(fm, lm, self.txnum);
        if res.is_err() {
            return res;
        }
        let ghost fm1 = *fm;
        let ghost lm1 = *lm;
        let lsn = match CommitRecord::write_to_log(fm, lm, self.txnum) {
            Ok(lsn) => lsn,
            Err(e) => {
                return Err(e);
            },
        };
        proof {
            lm.lemma_lsn_order(*fm);
        }
        let _ = lm.flush(fm, lsn);
        proof {
            assert forall|i: int| 0 <= i < old(bm).spec_pool().len() && (#[trigger] old(
                bm,
            ).spec_pool()[i]).spec_txnum() == self.spec_txnum() implies (match old(
                bm,
            ).spec_pool()[i].spec_blk() {
                Some(b) => fm.spec_block_at(b.spec_file(), b.spec_num() as int) == old(
                    bm,
                ).spec_pool()[i].spec_page(),
                None => true,
            }) by {
                match old(bm).spec_pool()[i].spec_blk() {
                    Some(b) => {
                        // the bookkeeping writes touch only the log file
                        assert(old(bm).spec_pool()[i].wf(old(fm).spec_blocksize(),
                            old(lm).spec_logfile()));
                        assert(fm.file_of(b.spec_file()) == fm1.file_of(b.spec_file()));
                    },
                    None => {},
                }
            }
        }
        Ok(())
    }

    /// Undoes every update this transaction logged, newest first, back to
    /// its START record; then flushes its pages and appends a durable
    /// ROLLBACK record.
    pub fn rollback(&self, fm: &mut FileMgr, lm: &mut LogMgr, bm: &mut BufferMgr) -> (r: Result<
        (),
        DbError,
    >)
        requires
            old(lm).inv(*old(fm)),
            old(bm).inv(*old(fm), *old(lm)),
            old(lm).spec_latest_lsn() < u64::MAX,
            old(fm).spec_blocksize() >= 16,
            self.spec_txnum() >= 0,
        ensures
            final(lm).inv(*final(fm)),
            final(bm).inv(*final(fm), *final(lm)),
            final(lm).spec_logfile() == old(lm).spec_logfile(),
            final(fm).spec_blocksize() == old(fm).spec_blocksize(),
            final(fm).spec_is_new() == old(fm).spec_is_new(),
            final(bm).spec_pool().len() == old(bm).spec_pool().len(),
            forall|i: int| 0 <= i < old(bm).spec_pool().len() ==> (#[trigger] final(bm).spec_pool()[i]).spec_pins() == old(bm).spec_pool()[i].spec_pins(),
            forall|i: int| 0 <= i < old(bm).spec_pool().len() && old(bm).spec_pool()[i].spec_pins()
                > 0 ==> (#[trigger] final(bm).spec_pool()[i]).spec_blk() == old(bm).spec_pool()[
                i
            ].spec_blk(),
            final(lm).spec_latest_lsn() <= old(lm).spec_latest_lsn() + 1,
            (old(fm).file_of(old(lm).spec_logfile()).len() + old(fm).spec_blocksize()
                <= usize::MAX && (forall|i: int| 0 <= i < old(lm).spec_records().len()
                ==> spec_canonical(#[trigger] old(lm).spec_records()[i]) && !spec_is_update_of(
                old(lm).spec_records()[i],
                self.spec_txnum(),
            ))) ==> r is Ok,
            r is Ok ==> {
                &&& final(lm).spec_records() == seq![spec_rollback_rec(self.spec_txnum())]
                    + old(lm).spec_records()
                &&& final(lm).spec_durable() == final(lm).spec_records()
            },
    {
        let res = self.do_rollback(fm, lm, bm);
        if res.is_err() {
            return res;
        }
        let res2 = bm.flush_all(fm, lm, self.txnum);
        if res2.is_err() {
            return res2;
        }
        let lsn = match RollbackRecord::write_to_log(fm, lm, self.txnum) {
            Ok(lsn) => lsn,
            Err(e) => {
                return Err(e);
            },
        };
        proof {
            lm.lemma_lsn_order(*fm);
        }
        let _ = lm.flush(fm, lsn);
        Ok(())
    }

    /// Restart recovery: undoes every update of every unfinished
    /// transaction, newest first back to the last CHECKPOINT; then flushes
    /// and appends a durable CHECKPOINT record.
    pub fn recover(&self, fm: &mut FileMgr, lm: &mut LogMgr, bm: &mut BufferMgr) -> (r: Result<
        (),
        DbError,
    >)
        requires
            old(lm).inv(*old(fm)),
            old(bm).inv(*old(fm), *old(lm)),
            old(lm).spec_latest_lsn() < u64::MAX,
            old(fm).spec_blocksize() >= 16,
            self.spec_txnum() >= 0,
        ensures
            final(lm).inv(*final(fm)),
            final(bm).inv(*final(fm), *final(lm)),
            final(lm).spec_logfile() == old(lm).spec_logfile(),
            final(fm).spec_blocksize() == old(fm).spec_blocksize(),
            final(fm).spec_is_new() == old(fm).spec_is_new(),
            final(bm).spec_pool().len() == old(bm).spec_pool().len(),
            forall|i: int| 0 <= i < old(bm).spec_pool().len() ==> (#[trigger] final(bm).spec_pool()[i]).spec_pins() == old(bm).spec_pool()[i].spec_pins(),
            forall|i: int| 0 <= i < old(bm).spec_pool().len() && old(bm).spec_pool()[i].spec_pins()
                > 0 ==> (#[trigger] final(bm).spec_pool()[i]).spec_blk() == old(bm).spec_pool()[
                i
            ].spec_blk(),
            final(lm).spec_latest_lsn() <= old(lm).spec_latest_lsn() + 1,
            (old(fm).file_of(old(lm).spec_logfile()).len() + old(fm).spec_blocksize()
                <= usize::MAX && (forall|i: int| 0 <= i < old(lm).spec_records().len()
                ==> spec_canonical(#[trigger] old(lm).spec_records()[i]) && (forall|t: i32|
                !spec_is_update_of(old(lm).spec_records()[i], t)))) ==> r is Ok,
            r is Ok ==> {
                &&& final(lm).spec_records() == seq![spec_checkpoint_rec()] + old(lm).spec_records()
                &&& final(lm).spec_durable() == final(lm).spec_records()
            },
    {
        let res = self.do_recover(fm, lm, bm);
        if res.is_err() {
            return res;
        }
        let res2 = bm.flush_all(fm, lm, self.txnum);
        if res2.is_err() {
            return res2;
        }
        let lsn = match CheckpointRecord::write_to_log(fm, lm) {
            Ok(lsn) => lsn,
            Err(e) => {
                return Err(e);
            },
        };
        proof {
            lm.lemma_lsn_order(*fm);
        }
        let _ = lm.flush(fm, lsn);
        Ok(())
    }

    /// Logs the old integer at (the buffer's block, `offset`) before the
    /// transaction overwrites it, and returns the record's LSN.
    pub fn set_i32(&self, fm: &mut FileMgr, lm: &mut LogMgr,
        buf: &crate::buffer::buffer::Buffer, offset: i32) -> (r: Result<u64, DbError>)
        requires
            old(lm).inv(*old(fm)),
            old(lm).spec_latest_lsn() < u64::MAX,
            offset >= 0,
            buf.spec_blk() matches Some(b) && b.spec_num() <= i32::MAX as u64 && encode_len_of(
                b.spec_file(),
            ) + 32 <= old(fm).spec_blocksize(),
        ensures
            final(lm).inv(*final(fm)),
            final(lm).spec_logfile() == old(lm).spec_logfile(),
            final(fm).spec_blocksize() == old(fm).spec_blocksize(),
            final(fm).spec_is_new() == old(fm).spec_is_new(),
            forall|m: Seq<char>| m != old(lm).spec_logfile() ==> #[trigger] final(fm).file_of(m)
                == old(fm).file_of(m),
            final(lm).spec_latest_lsn() <= old(lm).spec_latest_lsn() + 1,
            offset + 4 <= buf.spec_page().len() && old(fm).file_of(
                old(lm).spec_logfile(),
            ).len() + old(fm).spec_blocksize() <= usize::MAX ==> r is Ok,
            r matches Ok(lsn) ==> (match buf.spec_blk() {
                Some(b) => final(lm).spec_records() == seq![
                    crate::tx::recovery::logrecord::spec_seti32_rec(
                        self.spec_txnum(),
                        b.spec_file(),
                        b.spec_num() as i32,
                        offset,
                        crate::file::page::spec_i32_from_be(
                            buf.spec_page().subrange(offset as int, offset + 4),
                        ),
                    ),
                ] + old(lm).spec_records() && lsn == final(lm).spec_latest_lsn(),
                None => false,
            }),
            r is Err ==> final(lm).spec_records() == old(lm).spec_records(),
    {
        let old_val = match buf.page().get_i32(offset as usize) {
            Ok(v) => v,
            Err(e) => {
                return Err(e);
            },
        };
        match buf.block() {
            Some(blk) => SetI32Record::write_to_log(fm, lm, self.txnum, blk, offset, old_val),
            None => Err(DbError::BlockNotFound),
        }
    }

    /// Logs the old string at (the buffer's block, `offset`) before the
    /// transaction overwrites it, and returns the record's LSN.
    pub fn set_string(&self, fm: &mut FileMgr, lm: &mut LogMgr,
        buf: &crate::buffer::buffer::Buffer, offset: i32) -> (r: Result<u64, DbError>)
        requires
            old(lm).inv(*old(fm)),
            old(lm).spec_latest_lsn() < u64::MAX,
            offset >= 0,
            buf.spec_blk() matches Some(b) && b.spec_num() <= i32::MAX as u64,
        ensures
            final(lm).inv(*final(fm)),
            final(lm).spec_logfile() == old(lm).spec_logfile(),
            final(fm).spec_blocksize() == old(fm).spec_blocksize(),
            final(fm).spec_is_new() == old(fm).spec_is_new(),
            forall|m: Seq<char>| m != old(lm).spec_logfile() ==> #[trigger] final(fm).file_of(m)
                == old(fm).file_of(m),
            final(lm).spec_latest_lsn() <= old(lm).spec_latest_lsn() + 1,
            (match buf.spec_blk() {
                Some(b) => crate::file::page::Page::spec_bytes_in_bounds(
                    buf.spec_page(),
                    offset as int,
                ) && vstd::utf8::valid_utf8(
                    crate::file::page::Page::spec_bytes_at(buf.spec_page(), offset as int),
                ) && encode_len_of(b.spec_file()) + crate::file::page::Page::spec_bytes_at(
                    buf.spec_page(),
                    offset as int,
                ).len() + 32 <= old(fm).spec_blocksize() && old(fm).file_of(
                    old(lm).spec_logfile(),
                ).len() + old(fm).spec_blocksize() <= usize::MAX,
                None => false,
            }) ==> r is Ok,
            r matches Ok(lsn) ==> (match buf.spec_blk() {
                Some(b) => exists|oldv: Seq<char>|
                    encode_utf8_of(oldv) == crate::file::page::Page::spec_bytes_at(
                        buf.spec_page(),
                        offset as int,
                    ) && final(lm).spec_records() == seq![
                    #[trigger] crate::tx::recovery::logrecord::spec_setstring_rec(
                        self.spec_txnum(),
                        b.spec_file(),
                        b.spec_num() as i32,
                        offset,
                        oldv,
                    ),
                ] + old(lm).spec_records() && lsn == final(lm).spec_latest_lsn(),
                None => false,
            }),
            r is Err ==> final(lm).spec_records() == old(lm).spec_records(),
    {
        let old_val = match buf.page().get_string(offset as usize) {
            Ok(v) => v,
            Err(e) => {
                return Err(e);
            },
        };
        match buf.block() {
            Some(blk) => {
                proof {
                    lm.lemma_inv_wf(*fm);
                }
                let fname = blk.file_name();
                let flen = str_len(fname.as_str());
                let vlen = str_len(old_val.as_str());
                let bs = fm.blocksize();
                if bs < 32 || flen > bs - 32 {
                    return Err(DbError::BufferSizeExceeded);
                }
                if vlen > bs - 32 - flen {
                    return Err(DbError::BufferSizeExceeded);
                }
                let ghost oldv = old_val@;
                proof {
                    assert(fname@ == blk.spec_file());
                }
                let res = SetStringRecord::write_to_log(fm, lm, self.txnum, blk, offset,
                    old_val);
                proof {
                    if res is Ok {
                        assert(lm.spec_records() == seq![
                            crate::tx::recovery::logrecord::spec_setstring_rec(
                                self.spec_txnum(),
                                buf.spec_blk()->Some_0.spec_file(),
                                buf.spec_blk()->Some_0.spec_num() as i32,
                                offset,
                                oldv,
                            ),
                        ] + old(lm).spec_records());
                    }
                }
                res
            },
            None => Err(DbError::BlockNotFound),
        }
    }

    /// Writes `val` back into (blk, offset) through the buffer pool without
    /// logging: one undo step. On success the frame holding the block reads
    /// the restored value back at that offset.
    fn undo_i32(&self, fm: &mut FileMgr, lm: &mut LogMgr, bm: &mut BufferMgr, blk: &BlockId,
        offset: i32, val: i32) -> (r: Result<(), DbError>)
        requires
            old(lm).inv(*old(fm)),
            old(bm).inv(*old(fm), *old(lm)),
            self.spec_txnum() >= 0,
        ensures
            final(lm).inv(*final(fm)),
            final(bm).inv(*final(fm), *final(lm)),
            final(lm).spec_logfile() == old(lm).spec_logfile(),
            final(lm).spec_records() == old(lm).spec_records(),
            final(lm).spec_latest_lsn() == old(lm).spec_latest_lsn(),
            final(fm).spec_blocksize() == old(fm).spec_blocksize(),
            final(fm).spec_is_new() == old(fm).spec_is_new(),
            final(bm).spec_pool().len() == old(bm).spec_pool().len(),
            forall|i: int| 0 <= i < old(bm).spec_pool().len() ==> (#[trigger] final(bm).spec_pool()[i]).spec_pins() == old(bm).spec_pool()[i].spec_pins(),
            forall|i: int| 0 <= i < old(bm).spec_pool().len() && old(bm).spec_pool()[i].spec_pins()
                > 0 ==> (#[trigger] final(bm).spec_pool()[i]).spec_blk() == old(bm).spec_pool()[
                i
            ].spec_blk(),
            final(fm).file_of(old(lm).spec_logfile()).len() == old(fm).file_of(
                old(lm).spec_logfile(),
            ).len(),
            r is Ok ==> offset >= 0 && (exists|f: int|
                0 <= f < final(bm).spec_pool().len() && #[trigger] final(bm).spec_holds(f, *blk)
                    && offset + 4 <= final(bm).spec_pool()[f].spec_page().len()
                    && crate::file::page::spec_i32_from_be(
                    final(bm).spec_pool()[f].spec_page().subrange(offset as int, offset + 4),
                ) == val && final(bm).spec_pool()[f].spec_txnum() == self.spec_txnum()),
    {
        let not_log = !str_eq(blk.file_name().as_str(), lm.logfile().as_str());
        if !not_log {
            return Err(DbError::UnknownLogRecord);
        }
        proof {
            lm.lemma_inv_wf(*fm);
        }
        let bs = fm.blocksize();
        let maxblocks = usize::MAX / bs;
        if blk.number() >= (maxblocks as u64) {
            return Err(DbError::FileAccessFailed);
        }
        if offset < 0 {
            return Err(DbError::BufferSizeExceeded);
        }
        let idx = match bm.pin(fm, lm, blk) {
            Ok(i) => i,
            Err(e) => {
                return Err(e);
            },
        };
        let ghost prebm = *bm;
        let buf = bm.buffer_mut(idx);
        let page = buf.contents();
        let res = page.set_i32(offset as usize, val);
        if res.is_ok() {
            buf.set_modified(self.txnum, -1);
        }
        proof {
            bm.lemma_inv_after_frame_edit(prebm, idx as int, *fm, *lm);
        }
        let ghost midbm = *bm;
        let _ = bm.unpin(idx);
        proof {
            bm.lemma_inv_after_unpin(midbm, idx as int, *fm, *lm);
            if res is Ok {
                crate::file::page::lemma_page_i32_roundtrip(
                    prebm.spec_pool()[idx as int].spec_page(),
                    offset as int,
                    val,
                );
                assert(bm.spec_holds(idx as int, *blk));
            }
        }
        if res.is_err() {
            return Err(DbError::BufferSizeExceeded);
        }
        Ok(())
    }

    /// Writes `val` back into (blk, offset) through the buffer pool without
    /// logging: one undo step. On success the frame holding the block reads
    /// the restored string's bytes back at that offset.
    fn undo_string(&self, fm: &mut FileMgr, lm: &mut LogMgr, bm: &mut BufferMgr, blk: &BlockId,
        offset: i32, val: String) -> (r: Result<(), DbError>)
        requires
            old(lm).inv(*old(fm)),
            old(bm).inv(*old(fm), *old(lm)),
            self.spec_txnum() >= 0,
        ensures
            final(lm).inv(*final(fm)),
            final(bm).inv(*final(fm), *final(lm)),
            final(lm).spec_logfile() == old(lm).spec_logfile(),
            final(lm).spec_records() == old(lm).spec_records(),
            final(lm).spec_latest_lsn() == old(lm).spec_latest_lsn(),
            final(fm).spec_blocksize() == old(fm).spec_blocksize(),
            final(fm).spec_is_new() == old(fm).spec_is_new(),
            final(bm).spec_pool().len() == old(bm).spec_pool().len(),
            forall|i: int| 0 <= i < old(bm).spec_pool().len() ==> (#[trigger] final(bm).spec_pool()[i]).spec_pins() == old(bm).spec_pool()[i].spec_pins(),
            forall|i: int| 0 <= i < old(bm).spec_pool().len() && old(bm).spec_pool()[i].spec_pins()
                > 0 ==> (#[trigger] final(bm).spec_pool()[i]).spec_blk() == old(bm).spec_pool()[
                i
            ].spec_blk(),
            final(fm).file_of(old(lm).spec_logfile()).len() == old(fm).file_of(
                old(lm).spec_logfile(),
            ).len(),
            r is Ok ==> offset >= 0 && (exists|f: int|
                0 <= f < final(bm).spec_pool().len() && #[trigger] final(bm).spec_holds(f, *blk)
                    && crate::file::page::Page::spec_bytes_at(
                    final(bm).spec_pool()[f].spec_page(),
                    offset as int,
                ) == vstd::utf8::encode_utf8(val@) && final(bm).spec_pool()[f].spec_txnum()
                    == self.spec_txnum()),
    {
        let not_log = !str_eq(blk.file_name().as_str(), lm.logfile().as_str());
        if !not_log {
            return Err(DbError::UnknownLogRecord);
        }
        proof {
            lm.lemma_inv_wf(*fm);
        }
        let bs = fm.blocksize();
        let maxblocks = usize::MAX / bs;
        if blk.number() >= (maxblocks as u64) {
            return Err(DbError::FileAccessFailed);
        }
        if offset < 0 {
            return Err(DbError::BufferSizeExceeded);
        }
        let idx = match bm.pin(fm, lm, blk) {
            Ok(i) => i,
            Err(e) => {
                return Err(e);
            },
        };
        let ghost prebm = *bm;
        let buf = bm.buffer_mut(idx);
        let page = buf.contents();
        let res = page.set_string(offset as usize, val);
        if res.is_ok() {
            buf.set_modified(self.txnum, -1);
        }
        proof {
            bm.lemma_inv_after_frame_edit(prebm, idx as int, *fm, *lm);
        }
        let ghost midbm = *bm;
        let _ = bm.unpin(idx);
        proof {
            bm.lemma_inv_after_unpin(midbm, idx as int, *fm, *lm);
            if res is Ok {
                crate::file::page::lemma_page_bytes_roundtrip(
                    prebm.spec_pool()[idx as int].spec_page(),
                    offset as int,
                    vstd::utf8::encode_utf8(val@),
                );
                assert(bm.spec_holds(idx as int, *blk));
            }
        }
        if res.is_err() {
            return Err(DbError::BufferSizeExceeded);
        }
        Ok(())
    }

    /// Applies one parsed record's undo if it belongs to `txnum`; reports
    /// whether it was the transaction's START record (where rollback stops).
    fn undo_if_mine(&self, fm: &mut FileMgr, lm: &mut LogMgr, bm: &mut BufferMgr,
        rec: LogRecord) -> (r: Result<bool, DbError>)
        // a record that is not this transaction's update always goes through
        requires
            old(lm).inv(*old(fm)),
            old(bm).inv(*old(fm), *old(lm)),
            self.spec_txnum() >= 0,
        ensures
            final(lm).inv(*final(fm)),
            final(bm).inv(*final(fm), *final(lm)),
            final(lm).spec_logfile() == old(lm).spec_logfile(),
            final(lm).spec_records() == old(lm).spec_records(),
            final(lm).spec_latest_lsn() == old(lm).spec_latest_lsn(),
            final(fm).spec_blocksize() == old(fm).spec_blocksize(),
            final(fm).spec_is_new() == old(fm).spec_is_new(),
            final(bm).spec_pool().len() == old(bm).spec_pool().len(),
            forall|i: int| 0 <= i < old(bm).spec_pool().len() ==> (#[trigger] final(bm).spec_pool()[i]).spec_pins() == old(bm).spec_pool()[i].spec_pins(),
            forall|i: int| 0 <= i < old(bm).spec_pool().len() && old(bm).spec_pool()[i].spec_pins()
                > 0 ==> (#[trigger] final(bm).spec_pool()[i]).spec_blk() == old(bm).spec_pool()[
                i
            ].spec_blk(),
            final(fm).file_of(old(lm).spec_logfile()).len() == old(fm).file_of(
                old(lm).spec_logfile(),
            ).len(),
            (match rec {
                LogRecord::SetI32(u) => u.txnum != self.spec_txnum(),
                LogRecord::SetString(u) => u.txnum != self.spec_txnum(),
                _ => true,
            }) ==> r is Ok,
    {
        if rec.tx_number() != self.txnum {
            return Ok(false);
        }
        match rec {
            LogRecord::Start(_) => Ok(true),
            LogRecord::SetI32(u) => {
                let res = self.undo_i32(fm, lm, bm, &u.blk, u.offset, u.val);
                match res {
                    Ok(_) => Ok(false),
                    Err(e) => Err(e),
                }
            },
            LogRecord::SetString(u) => {
                let res = self.undo_string(fm, lm, bm, &u.blk, u.offset, u.val);
                match res {
                    Ok(_) => Ok(false),
                    Err(e) => Err(e),
                }
            },
            _ => Ok(false),
        }
    }

    /// Reads the whole log (newest first) into memory, then undoes this
    /// transaction's updates until its START record.
    fn do_rollback(&self, fm: &mut FileMgr, lm: &mut LogMgr, bm: &mut BufferMgr) -> (r: Result<
        (),
        DbError,
    >)
        requires
            old(lm).inv(*old(fm)),
            old(bm).inv(*old(fm), *old(lm)),
            self.spec_txnum() >= 0,
        ensures
            final(lm).inv(*final(fm)),
            final(bm).inv(*final(fm), *final(lm)),
            final(lm).spec_logfile() == old(lm).spec_logfile(),
            final(lm).spec_records() == old(lm).spec_records(),
            final(lm).spec_latest_lsn() == old(lm).spec_latest_lsn(),
            final(fm).spec_blocksize() == old(fm).spec_blocksize(),
            final(fm).spec_is_new() == old(fm).spec_is_new(),
            final(bm).spec_pool().len() == old(bm).spec_pool().len(),
            forall|i: int| 0 <= i < old(bm).spec_pool().len() ==> (#[trigger] final(bm).spec_pool()[i]).spec_pins() == old(bm).spec_pool()[i].spec_pins(),
            forall|i: int| 0 <= i < old(bm).spec_pool().len() && old(bm).spec_pool()[i].spec_pins()
                > 0 ==> (#[trigger] final(bm).spec_pool()[i]).spec_blk() == old(bm).spec_pool()[
                i
            ].spec_blk(),
            final(fm).file_of(old(lm).spec_logfile()).len() == old(fm).file_of(
                old(lm).spec_logfile(),
            ).len(),
            // with a log of well-formed records holding no update of this
            // transaction, the scan cannot fail
            (forall|i: int| 0 <= i < old(lm).spec_records().len() ==> spec_canonical(
                #[trigger] old(lm).spec_records()[i],
            ) && !spec_is_update_of(old(lm).spec_records()[i], self.spec_txnum())) ==> r is Ok,
    {
        let mut recs = drain_log(fm, lm, bm)?;
        let mut done = false;
        while recs.len() > 0 && !done
            invariant
                lm.inv(*fm),
                bm.inv(*fm, *lm),
                self.spec_txnum() >= 0,
                lm.spec_logfile() == old(lm).spec_logfile(),
                lm.spec_records() == old(lm).spec_records(),
                lm.spec_latest_lsn() == old(lm).spec_latest_lsn(),
                fm.spec_blocksize() == old(fm).spec_blocksize(),
                fm.spec_is_new() == old(fm).spec_is_new(),
                bm.spec_pool().len() == old(bm).spec_pool().len(),
                forall|i: int| 0 <= i < old(bm).spec_pool().len() ==> (#[trigger] bm.spec_pool()[
                    i
                ]).spec_pins() == old(bm).spec_pool()[i].spec_pins(),
                forall|i: int| 0 <= i < old(bm).spec_pool().len() && old(bm).spec_pool()[
                    i
                ].spec_pins() > 0 ==> (#[trigger] bm.spec_pool()[i]).spec_blk() == old(
                    bm,
                ).spec_pool()[i].spec_blk(),
                fm.file_of(old(lm).spec_logfile()).len() == old(fm).file_of(
                    old(lm).spec_logfile(),
                ).len(),
                recs@.len() <= old(lm).spec_records().len(),
                forall|i: int| 0 <= i < recs@.len() ==> (#[trigger] recs@[i])@ == old(
                    lm,
                ).spec_records()[old(lm).spec_records().len() - recs@.len() + i],
            decreases recs@.len(),
        {
            let ghost prerecs = recs@;
            let bytes = recs.remove(0);
            let ghost brec = bytes@;
            let ghost bidx = old(lm).spec_records().len() - prerecs.len();
            proof {
                assert(bytes@ == prerecs[0]@);
                assert(forall|i: int| 0 <= i < recs@.len() ==> recs@[i] == prerecs[i + 1]);
                assert(brec == old(lm).spec_records()[bidx]);
                // name the scanned record's classification terms so the
                // success conditions can see them
                assert(spec_canonical(brec) || !spec_canonical(brec));
                assert(spec_is_update_of(brec, self.txnum) || !spec_is_update_of(
                    brec,
                    self.txnum,
                ));
            }
            let rec = match create_log_record(bytes) {
                Ok(rec) => rec,
                Err(e) => {
                    return Err(e);
                },
            };
            done = match self.undo_if_mine(fm, lm, bm, rec) {
                Ok(d) => d,
                Err(e) => {
                    return Err(e);
                },
            };
        }
        Ok(())
    }

    /// Reads the whole log (newest first) into memory, then undoes every
    /// update of every transaction with no COMMIT or ROLLBACK record, back
    /// to the last CHECKPOINT.
    fn do_recover(&self, fm: &mut FileMgr, lm: &mut LogMgr, bm: &mut BufferMgr) -> (r: Result<
        (),
        DbError,
    >)
        requires
            old(lm).inv(*old(fm)),
            old(bm).inv(*old(fm), *old(lm)),
            self.spec_txnum() >= 0,
        ensures
            final(lm).inv(*final(fm)),
            final(bm).inv(*final(fm), *final(lm)),
            final(lm).spec_logfile() == old(lm).spec_logfile(),
            final(lm).spec_records() == old(lm).spec_records(),
            final(lm).spec_latest_lsn() == old(lm).spec_latest_lsn(),
            final(fm).spec_blocksize() == old(fm).spec_blocksize(),
            final(fm).spec_is_new() == old(fm).spec_is_new(),
            final(bm).spec_pool().len() == old(bm).spec_pool().len(),
            forall|i: int| 0 <= i < old(bm).spec_pool().len() ==> (#[trigger] final(bm).spec_pool()[i]).spec_pins() == old(bm).spec_pool()[i].spec_pins(),
            forall|i: int| 0 <= i < old(bm).spec_pool().len() && old(bm).spec_pool()[i].spec_pins()
                > 0 ==> (#[trigger] final(bm).spec_pool()[i]).spec_blk() == old(bm).spec_pool()[
                i
            ].spec_blk(),
            final(fm).file_of(old(lm).spec_logfile()).len() == old(fm).file_of(
                old(lm).spec_logfile(),
            ).len(),
            // with a log of well-formed records holding no update records
            // at all, the scan cannot fail
            (forall|i: int| 0 <= i < old(lm).spec_records().len() ==> spec_canonical(
                #[trigger] old(lm).spec_records()[i],
            ) && (forall|t: i32| !spec_is_update_of(old(lm).spec_records()[i], t))) ==> r is Ok,
    {
        let mut recs = drain_log(fm, lm, bm)?;
        let mut finished: Vec<i32> = Vec::new();
        let mut done = false;
        while recs.len() > 0 && !done
            invariant
                lm.inv(*fm),
                bm.inv(*fm, *lm),
                self.spec_txnum() >= 0,
                lm.spec_logfile() == old(lm).spec_logfile(),
                lm.spec_records() == old(lm).spec_records(),
                lm.spec_latest_lsn() == old(lm).spec_latest_lsn(),
                fm.spec_blocksize() == old(fm).spec_blocksize(),
                fm.spec_is_new() == old(fm).spec_is_new(),
                bm.spec_pool().len() == old(bm).spec_pool().len(),
                forall|i: int| 0 <= i < old(bm).spec_pool().len() ==> (#[trigger] bm.spec_pool()[
                    i
                ]).spec_pins() == old(bm).spec_pool()[i].spec_pins(),
                forall|i: int| 0 <= i < old(bm).spec_pool().len() && old(bm).spec_pool()[
                    i
                ].spec_pins() > 0 ==> (#[trigger] bm.spec_pool()[i]).spec_blk() == old(
                    bm,
                ).spec_pool()[i].spec_blk(),
                fm.file_of(old(lm).spec_logfile()).len() == old(fm).file_of(
                    old(lm).spec_logfile(),
                ).len(),
                recs@.len() <= old(lm).spec_records().len(),
                forall|i: int| 0 <= i < recs@.len() ==> (#[trigger] recs@[i])@ == old(
                    lm,
                ).spec_records()[old(lm).spec_records().len() - recs@.len() + i],
            decreases recs@.len(),
        {
            let ghost prerecs = recs@;
            let bytes = recs.remove(0);
            let ghost brec = bytes@;
            let ghost bidx = old(lm).spec_records().len() - prerecs.len();
            proof {
                assert(bytes@ == prerecs[0]@);
                assert(forall|i: int| 0 <= i < recs@.len() ==> recs@[i] == prerecs[i + 1]);
                assert(brec == old(lm).spec_records()[bidx]);
                // name the scanned record's classification terms so the
                // success conditions can see them
                assert(spec_canonical(brec) || !spec_canonical(brec));
                assert(spec_is_update_of(brec, self.txnum) || !spec_is_update_of(
                    brec,
                    self.txnum,
                ));
            }
            let rec = match create_log_record(bytes) {
                Ok(rec) => rec,
                Err(e) => {
                    return Err(e);
                },
            };
            match rec {
                LogRecord::Checkpoint(_) => {
                    done = true;
                },
                LogRecord::Commit(c) => {
                    finished.push(c.txnum);
                },
                LogRecord::Rollback(c) => {
                    finished.push(c.txnum);
                },
                LogRecord::SetI32(u) => {
                    proof {
                        // a decoded update record can only come from an
                        // update encoding
                        if spec_canonical(brec) && !spec_is_update_of(brec, u.txnum) {
                            assert(false);
                        }
                    }
                    if !contains_i32(&finished, u.txnum) {
                        let res = self.undo_i32(fm, lm, bm, &u.blk, u.offset, u.val);
                        if res.is_err() {
                            return Err(DbError::UnknownLogRecord);
                        }
                    }
                },
                LogRecord::SetString(u) => {
                    proof {
                        // a decoded update record can only come from an
                        // update encoding
                        if spec_canonical(brec) && !spec_is_update_of(brec, u.txnum) {
                            assert(false);
                        }
                    }
                    if !contains_i32(&finished, u.txnum) {
                        let res = self.undo_string(fm, lm, bm, &u.blk, u.offset, u.val);
                        if res.is_err() {
                            return Err(DbError::UnknownLogRecord);
                        }
                    }
                },
                _ => {},
            }
        }
        Ok(())
    }
}

/// Flushes the log and reads every record into memory, newest first.
fn drain_log(fm: &mut FileMgr, lm: &mut LogMgr, bm: &mut BufferMgr) -> (r: Result<
    Vec<Vec<u8>>,
    DbError,
>)
    requires
        old(lm).inv(*old(fm)),
        old(bm).inv(*old(fm), *old(lm)),
    ensures
        final(lm).inv(*final(fm)),
        final(bm).inv(*final(fm), *final(lm)),
        final(lm).spec_logfile() == old(lm).spec_logfile(),
        final(lm).spec_records() == old(lm).spec_records(),
        final(lm).spec_latest_lsn() == old(lm).spec_latest_lsn(),
        final(fm).spec_blocksize() == old(fm).spec_blocksize(),
        final(fm).spec_is_new() == old(fm).spec_is_new(),
        *final(bm) == *old(bm),
        final(fm).file_of(old(lm).spec_logfile()).len() == old(fm).file_of(
            old(lm).spec_logfile(),
        ).len(),
        r is Ok,
        r matches Ok(v) ==> v@.len() == final(lm).spec_records().len() && (forall|i: int|
            0 <= i < v@.len() ==> (#[trigger] v@[i])@ == final(lm).spec_records()[i]),
{
    let ghost fm0 = *fm;
    let mut it = match lm.iterator(fm) {
        Ok(it) => it,
        Err(e) => {
            // the iterator is owed under the invariant
            proof {
                assert(false);
            }
            return Err(e);
        },
    };
    proof {
        assert(bm.inv(*fm, *lm)) by {
            assert forall|i: int| 0 <= i < bm.spec_pool().len() implies (
            #[trigger] bm.spec_pool()[i]).wf(fm.spec_blocksize(), lm.spec_logfile()) by {
                assert(old(bm).spec_pool()[i].wf(fm0.spec_blocksize(), old(lm).spec_logfile()));
            }
        }
    }
    let ghost all = lm.spec_records();
    let ghost fm1 = *fm;
    let ghost lm1 = *lm;
    let ghost bm1 = *bm;
    let mut recs: Vec<Vec<u8>> = Vec::new();
    loop
        invariant_except_break
            *fm == fm1,
            *lm == lm1,
            *bm == bm1,
            it.wf(*fm),
            it.remaining().len() + recs@.len() == all.len(),
            forall|i: int| 0 <= i < recs@.len() ==> (#[trigger] recs@[i])@ == all[i],
            forall|i: int| 0 <= i < it.remaining().len() ==> it.remaining()[i] == all[
                recs@.len() + i
            ],
        ensures
            *fm == fm1,
            *lm == lm1,
            *bm == bm1,
            recs@.len() == all.len(),
            forall|i: int| 0 <= i < recs@.len() ==> (#[trigger] recs@[i])@ == all[i],
        decreases it.remaining().len(),
    {
        let next = it.next(fm);
        match next {
            Some(rec) => {
                recs.push(rec);
            },
            None => {
                break ;
            },
        }
    }
    proof {
        assert(recs@.len() == all.len());
        assert(lm.spec_records() == all);
        assert(forall|i: int| 0 <= i < recs@.len() ==> (#[trigger] recs@[i])@ == all[i]);
    }
    Ok(recs)
}

/// Whether `v` holds `x`.
fn contains_i32(v: &Vec<i32>, x: i32) -> (r: bool)
    ensures
        r == (exists|k: int| 0 <= k < v@.len() && v@[k] == x),
{
    let n = v.len();
    let mut i: usize = 0;
    while i < n
        invariant
            i <= n,
            n == v@.len(),
            forall|k: int| 0 <= k < i ==> v@[k] != x,
        decreases n - i,
    {
        if v[i] == x {
            return true;
        }
        i = i + 1;
    }
    false
}

/// The byte length of a name's UTF-8 encoding (how much room it takes in a
/// record).
pub open spec fn encode_len_of(f: Seq<char>) -> int {
    vstd::utf8::encode_utf8(f).len() as int
}

/// The UTF-8 encoding of a character sequence.
pub open spec fn encode_utf8_of(s: Seq<char>) -> Seq<u8> {
    vstd::utf8::encode_utf8(s)
}

} // verus!
