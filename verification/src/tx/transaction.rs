//! The transaction: the public face of the kernel. Every read takes a shared
//! lock, every write an exclusive one and an undo record; commit and rollback
//! release everything together.

use vstd::prelude::*;
use crate::errors::DbError;
use crate::file::block_id::BlockId;
use crate::file::page::{spec_i32_from_be, spec_i32_to_be, spec_write};
use crate::server::SimpleDB;
use crate::tx::bufferlist::BufferList;
use crate::tx::concurrency::locktable::LockTableKey;
use crate::tx::concurrency::manager::{ConcurrencyMgr, LockMode};
use crate::tx::recovery::logrecord::{spec_canonical, spec_checkpoint_rec, spec_commit_rec,
    spec_is_update_of, spec_rollback_rec, spec_seti32_rec, spec_start_rec};
use crate::tx::recovery::manager::{encode_len_of, RecoveryMgr};
use vstd::utf8::encode_utf8;

verus! {

/// The lock key that guards a whole file's end (its block count), used by
/// `size` and `append`.
pub const END_OF_FILE: u64 = u64::MAX;

/// Whether a shared-lock request is admitted: the transaction already holds
/// something on the key, or the table shows no exclusive hold and room for
/// one more sharer.
pub open spec fn spec_slock_admits(mode: Option<LockMode>, val: int) -> bool {
    mode is Some || (0 <= val && val < i32::MAX)
}

/// Whether an exclusive-lock request is admitted: already exclusive, the
/// sole sharer upgrading, or first on an unlocked key.
pub open spec fn spec_xlock_admits(mode: Option<LockMode>, val: int) -> bool {
    ||| mode == Some(LockMode::X)
    ||| (mode == Some(LockMode::S) && val < 2)
    ||| (mode is None && val == 0)
}

/// One transaction: its number, its locks, its recovery driver and its pins.
pub struct Transaction {
    txnum: i32,
    concur_mgr: ConcurrencyMgr,
    recovery_mgr: RecoveryMgr,
    mybuffers: BufferList,
}

impl Transaction {
    pub closed spec fn spec_txnum(self) -> i32 {
        self.txnum
    }

    /// Whether this transaction holds a pin on `blk`.
    pub closed spec fn spec_pinned(self, blk: BlockId) -> bool {
        self.mybuffers.spec_pinned(blk)
    }

    /// What this transaction holds on lock key `k`.
    pub closed spec fn spec_mode(self, k: LockTableKey) -> Option<LockMode> {
        self.concur_mgr.spec_mode(k)
    }

    /// The outstanding pin entries (block, frame), one per pin taken.
    pub closed spec fn spec_pin_entries(self) -> Seq<(BlockId, usize)> {
        self.mybuffers.spec_entries()
    }

    /// The transaction agrees with the database it runs against.
    pub closed spec fn inv(self, db: SimpleDB) -> bool {
        &&& db.inv()
        &&& self.mybuffers.inv(db.bm)
        &&& self.concur_mgr.wf()
        &&& self.txnum >= 0
        &&& self.recovery_mgr.spec_txnum() == self.txnum
    }

    /// Starts a transaction: it draws the next number from the shared
    /// counter — strictly larger than every earlier one — and writes its
    /// START record.
    pub fn new(db: &mut SimpleDB) -> (r: Result<Transaction, DbError>)
        requires
            old(db).inv(),
            old(db).next_txnum < i32::MAX,
            old(db).lm.spec_latest_lsn() < u64::MAX,
        ensures
            final(db).inv(),
            final(db).fm.spec_blocksize() == old(db).fm.spec_blocksize(),
            final(db).lm.spec_logfile() == old(db).lm.spec_logfile(),
            final(db).next_txnum == old(db).next_txnum + 1,
            final(db).lm.spec_latest_lsn() <= old(db).lm.spec_latest_lsn() + 1,
            old(db).fm.file_of(old(db).lm.spec_logfile()).len() + old(db).fm.spec_blocksize()
                <= usize::MAX ==> r is Ok,
            r matches Ok(tx) ==> tx.inv(*final(db)) && tx.spec_txnum() == old(db).next_txnum + 1
                && final(db).lm.spec_records() == seq![spec_start_rec((old(db).next_txnum + 1) as i32)]
                + old(db).lm.spec_records(),
    {
        db.next_txnum = db.next_txnum + 1;
        let txnum = db.next_txnum;
        let ghost lm0 = db.lm;
        let ghost fm0 = db.fm;
        let rm = match RecoveryMgr::new(&mut db.fm, &mut db.lm, txnum) {
            Ok(rm) => rm,
            Err(e) => {
                proof {
                    db.bm.lemma_inv_stable(fm0, lm0, db.fm, db.lm);
                }
                return Err(e);
            },
        };
        proof {
            db.bm.lemma_inv_stable(fm0, lm0, db.fm, db.lm);
        }
        let tx = Transaction {
            txnum,
            concur_mgr: ConcurrencyMgr::new(),
            recovery_mgr: rm,
            mybuffers: BufferList::new(),
        };
        Ok(tx)
    }

    /// Pins `blk` for this transaction; the pin lasts until `unpin`,
    /// `commit` or `rollback` gives it back.
    pub fn pin(&mut self, db: &mut SimpleDB, blk: &BlockId) -> (r: Result<(), DbError>)
        requires
            old(self).inv(*old(db)),
            blk.spec_file() != old(db).lm.spec_logfile(),
            blk.spec_num() < usize::MAX as int / old(db).fm.spec_blocksize(),
        ensures
            final(self).inv(*final(db)),
            final(self).spec_txnum() == old(self).spec_txnum(),
            final(db).fm.spec_blocksize() == old(db).fm.spec_blocksize(),
            final(db).lm.spec_logfile() == old(db).lm.spec_logfile(),
            final(db).lm.spec_records() == old(db).lm.spec_records(),
            final(db).next_txnum == old(db).next_txnum,
            // a pin is owed exactly when a frame holds the block already or
            // some frame is unpinned
            (r is Ok) <==> ((exists|j: int| 0 <= j < old(db).bm.spec_pool().len()
                && #[trigger] old(db).bm.spec_holds(j, *blk) && old(db).bm.spec_pool()[
                j
            ].spec_pins() < u64::MAX) || ((forall|j: int| 0 <= j < old(db).bm.spec_pool().len()
                ==> !(#[trigger] old(db).bm.spec_holds(j, *blk))) && (exists|j: int|
                0 <= j < old(db).bm.spec_pool().len() && (#[trigger] old(db).bm.spec_pool()[
                j
            ]).spec_pins() == 0))),
            r is Ok ==> final(self).spec_pinned(*blk),
            r is Err ==> r == Err::<(), DbError>(DbError::BufferAbort),
    {
        self.mybuffers.pin(&mut db.fm, &mut db.lm, &mut db.bm, blk)
    }

    /// Gives back one pin on `blk`; with none outstanding this does nothing.
    pub fn unpin(&mut self, db: &mut SimpleDB, blk: &BlockId) -> (r: Result<(), DbError>)
        requires
            old(self).inv(*old(db)),
        ensures
            final(self).inv(*final(db)),
            final(self).spec_txnum() == old(self).spec_txnum(),
            final(db).fm == old(db).fm,
            final(db).lm == old(db).lm,
            final(db).next_txnum == old(db).next_txnum,
            r == Ok::<(), DbError>(()),
            // one recorded pin is given back; with none outstanding nothing
            // changes
            !old(self).spec_pinned(*blk) ==> *final(self) == *old(self) && final(db).bm == old(
                db,
            ).bm,
            old(self).spec_pinned(*blk) ==> final(self).spec_pin_entries().len() == old(
                self,
            ).spec_pin_entries().len() - 1 && (exists|f: int|
                0 <= f < old(db).bm.spec_pool().len() && #[trigger] old(db).bm.spec_holds(
                    f,
                    *blk,
                ) && final(db).bm.spec_pool()[f].spec_pins() == old(db).bm.spec_pool()[
                    f
                ].spec_pins() - 1),
    {
        self.mybuffers.unpin(&db.fm, &db.lm, &mut db.bm, blk)
    }

    /// Reads the integer at (blk, offset) under a shared lock. The block
    /// must be pinned by this transaction.
    pub fn get_i32(&mut self, db: &mut SimpleDB, blk: &BlockId, offset: i32) -> (r: Result<
        i32,
        DbError,
    >)
        requires
            old(self).inv(*old(db)),
            old(self).spec_pinned(*blk),
        ensures
            final(self).inv(*final(db)),
            final(self).spec_txnum() == old(self).spec_txnum(),
            final(db).fm == old(db).fm,
            final(db).lm == old(db).lm,
            final(db).bm == old(db).bm,
            final(db).next_txnum == old(db).next_txnum,
            // the read is owed exactly when the shared lock is admitted and
            // the offset fits the page
            (r is Ok) <==> (offset >= 0 && offset + 4 <= old(db).fm.spec_blocksize()
                && spec_slock_admits(
                old(self).spec_mode(LockTableKey::BID(*blk)),
                old(db).locktbl.spec_lock_val(LockTableKey::BID(*blk)),
            )),
            r is Ok ==> final(self).spec_mode(LockTableKey::BID(*blk)) is Some,
            r matches Ok(v) ==> offset >= 0 && (exists|f: int|
                0 <= f < final(db).bm.spec_pool().len() && #[trigger] final(db).bm.spec_holds(
                    f,
                    *blk,
                ) && offset + 4 <= final(db).bm.spec_pool()[f].spec_page().len() && v
                    == spec_i32_from_be(
                    final(db).bm.spec_pool()[f].spec_page().subrange(offset as int, offset + 4),
                )),
    {
        if offset < 0 {
            return Err(DbError::BufferSizeExceeded);
        }
        let key = LockTableKey::BID(blk.clone());
        if self.concur_mgr.s_lock(&mut db.locktbl, &key).is_err() {
            return Err(DbError::LockAbort);
        }
        let idx = match self.mybuffers.get_buffer(blk) {
            Some(i) => i,
            None => {
                // a pinned block always has a recorded frame
                proof {
                    assert(false);
                }
                return Err(DbError::BufferAbort);
            },
        };
        proof {
            let i = choose|i: int| 0 <= i < self.mybuffers.spec_entries().len() && (
            #[trigger] self.mybuffers.spec_entries()[i]).0.spec_same(*blk)
                && self.mybuffers.spec_entries()[i].1 == idx;
            assert(db.bm.spec_holds(idx as int, self.mybuffers.spec_entries()[i].0));
            assert(db.bm.spec_holds(idx as int, *blk));
        }
        db.bm.buffer(idx).page().get_i32(offset as usize)
    }

    /// Reads the string at (blk, offset) under a shared lock. The block must
    /// be pinned by this transaction.
    pub fn get_string(&mut self, db: &mut SimpleDB, blk: &BlockId, offset: i32) -> (r: Result<
        String,
        DbError,
    >)
        requires
            old(self).inv(*old(db)),
            old(self).spec_pinned(*blk),
        ensures
            final(self).inv(*final(db)),
            final(self).spec_txnum() == old(self).spec_txnum(),
            final(db).fm == old(db).fm,
            final(db).lm == old(db).lm,
            final(db).bm == old(db).bm,
            final(db).next_txnum == old(db).next_txnum,
            // the read is owed when the shared lock is admitted and the
            // frame holding the block carries a well-formed string there
            (offset >= 0 && spec_slock_admits(
                old(self).spec_mode(LockTableKey::BID(*blk)),
                old(db).locktbl.spec_lock_val(LockTableKey::BID(*blk)),
            ) && (exists|f: int| 0 <= f < old(db).bm.spec_pool().len() && #[trigger] old(
                db,
            ).bm.spec_holds(f, *blk) && crate::file::page::Page::spec_bytes_in_bounds(
                old(db).bm.spec_pool()[f].spec_page(),
                offset as int,
            ) && vstd::utf8::valid_utf8(
                crate::file::page::Page::spec_bytes_at(
                    old(db).bm.spec_pool()[f].spec_page(),
                    offset as int,
                ),
            ))) ==> r is Ok,
            r is Ok ==> final(self).spec_mode(LockTableKey::BID(*blk)) is Some,
            r matches Ok(s) ==> offset >= 0 && (exists|f: int|
                0 <= f < final(db).bm.spec_pool().len() && #[trigger] final(db).bm.spec_holds(
                    f,
                    *blk,
                ) && encode_utf8(s@) == crate::file::page::Page::spec_bytes_at(
                    final(db).bm.spec_pool()[f].spec_page(),
                    offset as int,
                )),
    {
        if offset < 0 {
            return Err(DbError::BufferSizeExceeded);
        }
        let key = LockTableKey::BID(blk.clone());
        if self.concur_mgr.s_lock(&mut db.locktbl, &key).is_err() {
            return Err(DbError::LockAbort);
        }
        let idx = match self.mybuffers.get_buffer(blk) {
            Some(i) => i,
            None => {
                // a pinned block always has a recorded frame
                proof {
                    assert(false);
                }
                return Err(DbError::BufferAbort);
            },
        };
        proof {
            let i = choose|i: int| 0 <= i < self.mybuffers.spec_entries().len() && (
            #[trigger] self.mybuffers.spec_entries()[i]).0.spec_same(*blk)
                && self.mybuffers.spec_entries()[i].1 == idx;
            assert(db.bm.spec_holds(idx as int, self.mybuffers.spec_entries()[i].0));
            assert(db.bm.spec_holds(idx as int, *blk));
        }
        db.bm.buffer(idx).page().get_string(offset as usize)
    }

    /// Writes `val` at (blk, offset) under an exclusive lock; with
    /// `ok_to_log` the old value goes to the log first, so the write can be
    /// undone. The block must be pinned by this transaction.
    pub fn set_i32(&mut self, db: &mut SimpleDB, blk: &BlockId, offset: i32, val: i32,
        ok_to_log: bool) -> (r: Result<(), DbError>)
        requires
            old(self).inv(*old(db)),
            old(self).spec_pinned(*blk),
            ok_to_log ==> encode_len_of(blk.spec_file()) + 32 <= old(db).fm.spec_blocksize()
                && blk.spec_num() <= i32::MAX as u64 && old(db).lm.spec_latest_lsn() < u64::MAX,
        ensures
            final(self).inv(*final(db)),
            final(self).spec_txnum() == old(self).spec_txnum(),
            final(db).fm.spec_blocksize() == old(db).fm.spec_blocksize(),
            final(db).lm.spec_logfile() == old(db).lm.spec_logfile(),
            final(db).next_txnum == old(db).next_txnum,
            r is Ok ==> (exists|f: int|
                0 <= f < final(db).bm.spec_pool().len() && #[trigger] final(db).bm.spec_holds(
                    f,
                    *blk,
                ) && final(db).bm.spec_pool()[f].spec_page() == spec_write(
                    old(db).bm.spec_pool()[f].spec_page(),
                    offset as int,
                    spec_i32_to_be(val),
                ) && final(db).bm.spec_pool()[f].spec_txnum() == old(self).spec_txnum() && (
                ok_to_log ==> final(db).lm.spec_records() == seq![
                    spec_seti32_rec(
                        old(self).spec_txnum(),
                        blk.spec_file(),
                        blk.spec_num() as i32,
                        offset,
                        spec_i32_from_be(
                            old(db).bm.spec_pool()[f].spec_page().subrange(
                                offset as int,
                                offset + 4,
                            ),
                        ),
                    ),
                ] + old(db).lm.spec_records())),
            !ok_to_log ==> final(db).lm.spec_records() == old(db).lm.spec_records(),
            final(db).lm.spec_latest_lsn() <= old(db).lm.spec_latest_lsn() + 1,
            // the write is owed when the exclusive lock is admitted, the
            // offset fits the page, and (when logged) the log has room
            (offset >= 0 && offset + 4 <= old(db).fm.spec_blocksize() && spec_xlock_admits(
                old(self).spec_mode(LockTableKey::BID(*blk)),
                old(db).locktbl.spec_lock_val(LockTableKey::BID(*blk)),
            ) && (ok_to_log ==> old(db).fm.file_of(old(db).lm.spec_logfile()).len() + old(
                db,
            ).fm.spec_blocksize() <= usize::MAX && old(db).lm.spec_latest_lsn() < i32::MAX))
                ==> r is Ok,
            r is Ok ==> final(self).spec_mode(LockTableKey::BID(*blk)) == Some(LockMode::X),
    {
        if offset < 0 {
            return Err(DbError::BufferSizeExceeded);
        }
        let key = LockTableKey::BID(blk.clone());
        if self.concur_mgr.x_lock(&mut db.locktbl, &key).is_err() {
            return Err(DbError::LockAbort);
        }
        let idx = match self.mybuffers.get_buffer(blk) {
            Some(i) => i,
            None => {
                // a pinned block always has a recorded frame
                proof {
                    assert(false);
                }
                return Err(DbError::BufferAbort);
            },
        };
        proof {
            let i = choose|i: int| 0 <= i < self.mybuffers.spec_entries().len() && (
            #[trigger] self.mybuffers.spec_entries()[i]).0.spec_same(*blk)
                && self.mybuffers.spec_entries()[i].1 == idx;
            assert(db.bm.spec_holds(idx as int, self.mybuffers.spec_entries()[i].0));
            assert(db.bm.spec_holds(idx as int, *blk));
        }
        let ghost fm0 = db.fm;
        let ghost lm0 = db.lm;
        let mut lsn: i32 = -1;
        if ok_to_log {
            let lsn_u64 = match self.recovery_mgr.set_i32(&mut db.fm, &mut db.lm,
                db.bm.buffer(idx), offset) {
                Ok(l) => l,
                Err(e) => {
                    proof {
                        db.bm.lemma_inv_stable(fm0, lm0, db.fm, db.lm);
                    }
                    return Err(e);
                },
            };
            if lsn_u64 > (i32::MAX as u64) {
                proof {
                    db.bm.lemma_inv_stable(fm0, lm0, db.fm, db.lm);
                }
                return Err(DbError::FileAccessFailed);
            }
            lsn = lsn_u64 as i32;
        }
        proof {
            db.bm.lemma_inv_stable(fm0, lm0, db.fm, db.lm);
        }
        let ghost prebm = db.bm;
        let buf = db.bm.buffer_mut(idx);
        let page = buf.contents();
        let res = page.set_i32(offset as usize, val);
        if res.is_err() {
            proof {
                db.bm.lemma_inv_after_frame_edit(prebm, idx as int, db.fm, db.lm);
                self.mybuffers.lemma_inv_preserved(prebm, db.bm);
            }
            return Err(DbError::BufferSizeExceeded);
        }
        buf.set_modified(self.txnum, lsn);
        proof {
            db.bm.lemma_inv_after_frame_edit(prebm, idx as int, db.fm, db.lm);
            self.mybuffers.lemma_inv_preserved(prebm, db.bm);
            assert(db.bm.spec_holds(idx as int, *blk));
            assert(db.bm.spec_pool()[idx as int].spec_page() == spec_write(
                old(db).bm.spec_pool()[idx as int].spec_page(),
                offset as int,
                spec_i32_to_be(val),
            ));
            if ok_to_log {
                let b = old(db).bm.spec_pool()[idx as int].spec_blk()->Some_0;
                assert(spec_seti32_rec(
                    self.txnum,
                    b.spec_file(),
                    b.spec_num() as i32,
                    offset,
                    spec_i32_from_be(
                        old(db).bm.spec_pool()[idx as int].spec_page().subrange(
                            offset as int,
                            offset + 4,
                        ),
                    ),
                ) == spec_seti32_rec(
                    self.txnum,
                    blk.spec_file(),
                    blk.spec_num() as i32,
                    offset,
                    spec_i32_from_be(
                        old(db).bm.spec_pool()[idx as int].spec_page().subrange(
                            offset as int,
                            offset + 4,
                        ),
                    ),
                ));
                assert(db.lm.spec_records() == seq![
                    spec_seti32_rec(
                        self.txnum,
                        blk.spec_file(),
                        blk.spec_num() as i32,
                        offset,
                        spec_i32_from_be(
                            old(db).bm.spec_pool()[idx as int].spec_page().subrange(
                                offset as int,
                                offset + 4,
                            ),
                        ),
                    ),
                ] + old(db).lm.spec_records());
            }
        }
        Ok(())
    }

    /// Writes `val` at (blk, offset) under an exclusive lock; with
    /// `ok_to_log` the old string goes to the log first. The block must be
    /// pinned by this transaction.
    pub fn set_string(&mut self, db: &mut SimpleDB, blk: &BlockId, offset: i32, val: &str,
        ok_to_log: bool) -> (r: Result<(), DbError>)
        requires
            old(self).inv(*old(db)),
            old(self).spec_pinned(*blk),
            ok_to_log ==> blk.spec_num() <= i32::MAX as u64 && old(db).lm.spec_latest_lsn()
                < u64::MAX,
        ensures
            final(self).inv(*final(db)),
            final(self).spec_txnum() == old(self).spec_txnum(),
            final(db).fm.spec_blocksize() == old(db).fm.spec_blocksize(),
            final(db).lm.spec_logfile() == old(db).lm.spec_logfile(),
            final(db).next_txnum == old(db).next_txnum,
            r is Ok ==> (exists|f: int|
                0 <= f < final(db).bm.spec_pool().len() && #[trigger] final(db).bm.spec_holds(
                    f,
                    *blk,
                ) && final(db).bm.spec_pool()[f].spec_page() == spec_write(
                    old(db).bm.spec_pool()[f].spec_page(),
                    offset as int,
                    crate::file::page::spec_len_prefixed(encode_utf8(val@)),
                ) && final(db).bm.spec_pool()[f].spec_txnum() == old(self).spec_txnum()),
            !ok_to_log ==> final(db).lm.spec_records() == old(db).lm.spec_records(),
            final(db).lm.spec_latest_lsn() <= old(db).lm.spec_latest_lsn() + 1,
            r is Ok ==> final(self).spec_mode(LockTableKey::BID(*blk)) == Some(LockMode::X),
            // the write is owed when the exclusive lock is admitted, the new
            // and old strings fit, and (when logged) the log has room
            (offset >= 0 && spec_xlock_admits(
                old(self).spec_mode(LockTableKey::BID(*blk)),
                old(db).locktbl.spec_lock_val(LockTableKey::BID(*blk)),
            ) && offset + 4 + encode_utf8(val@).len() <= old(db).fm.spec_blocksize()
                && encode_utf8(val@).len() <= i32::MAX && (exists|f: int|
                0 <= f < old(db).bm.spec_pool().len() && #[trigger] old(db).bm.spec_holds(
                f,
                *blk,
            ) && crate::file::page::Page::spec_bytes_in_bounds(
                old(db).bm.spec_pool()[f].spec_page(),
                offset as int,
            ) && vstd::utf8::valid_utf8(
                crate::file::page::Page::spec_bytes_at(
                    old(db).bm.spec_pool()[f].spec_page(),
                    offset as int,
                ),
            ) && encode_len_of(blk.spec_file()) + crate::file::page::Page::spec_bytes_at(
                old(db).bm.spec_pool()[f].spec_page(),
                offset as int,
            ).len() + 32 <= old(db).fm.spec_blocksize()) && (ok_to_log ==> old(db).fm.file_of(
                old(db).lm.spec_logfile(),
            ).len() + old(db).fm.spec_blocksize() <= usize::MAX && old(db).lm.spec_latest_lsn()
                < i32::MAX)) ==> r is Ok,
    {
        if offset < 0 {
            return Err(DbError::BufferSizeExceeded);
        }
        let key = LockTableKey::BID(blk.clone());
        if self.concur_mgr.x_lock(&mut db.locktbl, &key).is_err() {
            return Err(DbError::LockAbort);
        }
        let idx = match self.mybuffers.get_buffer(blk) {
            Some(i) => i,
            None => {
                // a pinned block always has a recorded frame
                proof {
                    assert(false);
                }
                return Err(DbError::BufferAbort);
            },
        };
        proof {
            let i = choose|i: int| 0 <= i < self.mybuffers.spec_entries().len() && (
            #[trigger] self.mybuffers.spec_entries()[i]).0.spec_same(*blk)
                && self.mybuffers.spec_entries()[i].1 == idx;
            assert(db.bm.spec_holds(idx as int, self.mybuffers.spec_entries()[i].0));
            assert(db.bm.spec_holds(idx as int, *blk));
        }
        let ghost fm0 = db.fm;
        let ghost lm0 = db.lm;
        let mut lsn: i32 = -1;
        if ok_to_log {
            let lsn_u64 = match self.recovery_mgr.set_string(&mut db.fm, &mut db.lm,
                db.bm.buffer(idx), offset) {
                Ok(l) => l,
                Err(e) => {
                    proof {
                        db.bm.lemma_inv_stable(fm0, lm0, db.fm, db.lm);
                    }
                    return Err(e);
                },
            };
            if lsn_u64 > (i32::MAX as u64) {
                proof {
                    db.bm.lemma_inv_stable(fm0, lm0, db.fm, db.lm);
                }
                return Err(DbError::FileAccessFailed);
            }
            lsn = lsn_u64 as i32;
        }
        proof {
            db.bm.lemma_inv_stable(fm0, lm0, db.fm, db.lm);
        }
        let ghost prebm = db.bm;
        let buf = db.bm.buffer_mut(idx);
        let page = buf.contents();
        let res = page.set_string(offset as usize, val.to_owned());
        if res.is_err() {
            proof {
                db.bm.lemma_inv_after_frame_edit(prebm, idx as int, db.fm, db.lm);
                self.mybuffers.lemma_inv_preserved(prebm, db.bm);
            }
            return Err(DbError::BufferSizeExceeded);
        }
        buf.set_modified(self.txnum, lsn);
        proof {
            db.bm.lemma_inv_after_frame_edit(prebm, idx as int, db.fm, db.lm);
            self.mybuffers.lemma_inv_preserved(prebm, db.bm);
            assert(db.bm.spec_holds(idx as int, *blk));
            assert(db.bm.spec_pool()[idx as int].spec_page() == spec_write(
                old(db).bm.spec_pool()[idx as int].spec_page(),
                offset as int,
                crate::file::page::spec_len_prefixed(encode_utf8(val@)),
            ));
        }
        Ok(())
    }

    /// The named file's size in blocks, under a shared end-of-file lock.
    pub fn size(&mut self, db: &mut SimpleDB, filename: &str) -> (r: Result<u64, DbError>)
        requires
            old(self).inv(*old(db)),
        ensures
            final(self).inv(*final(db)),
            final(self).spec_txnum() == old(self).spec_txnum(),
            final(db).fm == old(db).fm,
            final(db).lm == old(db).lm,
            final(db).bm == old(db).bm,
            final(db).next_txnum == old(db).next_txnum,
            (r is Ok) <==> spec_slock_admits(
                old(self).spec_mode(LockTableKey::DUMMY(END_OF_FILE)),
                old(db).locktbl.spec_lock_val(LockTableKey::DUMMY(END_OF_FILE)),
            ),
            r matches Ok(n) ==> n == final(db).fm.spec_nblocks(filename@),
            r is Err ==> r == Err::<u64, DbError>(DbError::LockAbort),
    {
        let key = LockTableKey::DUMMY(END_OF_FILE);
        if self.concur_mgr.s_lock(&mut db.locktbl, &key).is_err() {
            return Err(DbError::LockAbort);
        }
        proof {
            db.lm.lemma_inv_wf(db.fm);
        }
        db.fm.length(filename)
    }

    /// Extends the named file by one zeroed block, under an exclusive
    /// end-of-file lock. The log file cannot be grown this way.
    pub fn append(&mut self, db: &mut SimpleDB, filename: &str) -> (r: Result<BlockId, DbError>)
        requires
            old(self).inv(*old(db)),
            filename@ != old(db).lm.spec_logfile(),
        ensures
            final(self).inv(*final(db)),
            final(self).spec_txnum() == old(self).spec_txnum(),
            final(db).fm.spec_blocksize() == old(db).fm.spec_blocksize(),
            final(db).lm == old(db).lm,
            final(db).next_txnum == old(db).next_txnum,
            (spec_xlock_admits(
                old(self).spec_mode(LockTableKey::DUMMY(END_OF_FILE)),
                old(db).locktbl.spec_lock_val(LockTableKey::DUMMY(END_OF_FILE)),
            ) && old(db).fm.file_of(filename@).len() + old(db).fm.spec_blocksize()
                <= usize::MAX) ==> r is Ok,
            r matches Ok(b) ==> b.spec_file() == filename@ && b.spec_num() == old(
                db,
            ).fm.spec_nblocks(filename@) && final(db).fm.file_of(filename@) == old(
                db,
            ).fm.file_of(filename@) + Seq::new(old(db).fm.spec_blocksize() as nat, |i: int| 0u8),
    {
        let key = LockTableKey::DUMMY(END_OF_FILE);
        if self.concur_mgr.x_lock(&mut db.locktbl, &key).is_err() {
            return Err(DbError::LockAbort);
        }
        proof {
            db.lm.lemma_inv_wf(db.fm);
        }
        let ghost fm0 = db.fm;
        let r = db.fm.append(filename);
        proof {
            db.lm.lemma_inv_preserved(fm0, db.fm);
            db.bm.lemma_inv_stable(fm0, db.lm, db.fm, db.lm);
        }
        r
    }

    /// Commits: dirty pages reach the store, the COMMIT record becomes
    /// durable, then every lock and pin is released (strict two-phase
    /// locking ends here).
    pub fn commit(&mut self, db: &mut SimpleDB) -> (r: Result<(), DbError>)
        requires
            old(self).inv(*old(db)),
            old(db).lm.spec_latest_lsn() < u64::MAX,
        ensures
            final(self).inv(*final(db)),
            final(db).fm.spec_blocksize() == old(db).fm.spec_blocksize(),
            final(db).lm.spec_logfile() == old(db).lm.spec_logfile(),
            final(db).next_txnum == old(db).next_txnum,
            final(db).lm.spec_latest_lsn() <= old(db).lm.spec_latest_lsn() + 1,
            old(db).fm.file_of(old(db).lm.spec_logfile()).len() + old(db).fm.spec_blocksize()
                <= usize::MAX ==> r is Ok,
            r is Ok ==> {
                &&& final(db).lm.spec_records() == seq![
                    spec_commit_rec(old(self).spec_txnum()),
                ] + old(db).lm.spec_records()
                &&& final(db).lm.spec_durable() == final(db).lm.spec_records()
            },
            // every page this transaction dirtied reached the store before
            // the COMMIT record was forced
            r is Ok ==> forall|i: int| 0 <= i < old(db).bm.spec_pool().len() && (#[trigger] old(
                db,
            ).bm.spec_pool()[i]).spec_txnum() == old(self).spec_txnum() ==> (match old(
                db,
            ).bm.spec_pool()[i].spec_blk() {
                Some(b) => final(db).fm.spec_block_at(b.spec_file(), b.spec_num() as int)
                    == old(db).bm.spec_pool()[i].spec_page(),
                None => true,
            }),
            // strict two-phase locking: on success every held lock is given
            // back exactly once and every other key is untouched
            r is Ok ==> forall|k: LockTableKey| #[trigger] final(db).locktbl.spec_lock_val(k)
                == (if old(self).spec_mode(k) is Some {
                if old(db).locktbl.spec_lock_val(k) > 1 {
                    old(db).locktbl.spec_lock_val(k) - 1
                } else {
                    0int
                }
            } else {
                old(db).locktbl.spec_lock_val(k)
            }),
            r is Ok ==> forall|k: LockTableKey| #[trigger] final(self).spec_mode(k) is None,
            // and every pin is given back
            r is Ok ==> final(self).spec_pin_entries().len() == 0 && (forall|f: int|
                0 <= f < old(db).bm.spec_pool().len() ==> (#[trigger] final(db).bm.spec_pool()[
                    f
                ]).spec_pins() == old(db).bm.spec_pool()[f].spec_pins() - crate::tx::bufferlist::count_idx(
                    old(self).spec_pin_entries(),
                    f,
                )),
    {
        let ghost prebm = db.bm;
        let res = self.recovery_mgr.commit(&mut db.fm, &mut db.lm, &mut db.bm);
        proof {
            self.mybuffers.lemma_inv_preserved(prebm, db.bm);
        }
        if res.is_err() {
            return res;
        }
        let _ = self.concur_mgr.release(&mut db.locktbl);
        let _ = self.mybuffers.unpin_all(&db.fm, &db.lm, &mut db.bm);
        Ok(())
    }

    /// Rolls back: every logged update of this transaction is undone, the
    /// ROLLBACK record becomes durable, then every lock and pin is released.
    pub fn rollback(&mut self, db: &mut SimpleDB) -> (r: Result<(), DbError>)
        requires
            old(self).inv(*old(db)),
            old(db).lm.spec_latest_lsn() < u64::MAX,
        ensures
            final(self).inv(*final(db)),
            final(db).fm.spec_blocksize() == old(db).fm.spec_blocksize(),
            final(db).lm.spec_logfile() == old(db).lm.spec_logfile(),
            final(db).next_txnum == old(db).next_txnum,
            final(db).lm.spec_latest_lsn() <= old(db).lm.spec_latest_lsn() + 1,
            // owed when the log has room and holds only well-formed records
            // with no update of this transaction left to undo
            (old(db).fm.file_of(old(db).lm.spec_logfile()).len() + old(db).fm.spec_blocksize()
                <= usize::MAX && (forall|i: int| 0 <= i < old(db).lm.spec_records().len()
                ==> spec_canonical(#[trigger] old(db).lm.spec_records()[i])
                && !spec_is_update_of(old(db).lm.spec_records()[i], old(self).spec_txnum())))
                ==> r is Ok,
            r is Ok ==> {
                &&& final(db).lm.spec_records() == seq![
                    spec_rollback_rec(old(self).spec_txnum()),
                ] + old(db).lm.spec_records()
                &&& final(db).lm.spec_durable() == final(db).lm.spec_records()
            },
            // on success every lock and every pin is given back
            r is Ok ==> forall|k: LockTableKey| #[trigger] final(db).locktbl.spec_lock_val(k)
                == (if old(self).spec_mode(k) is Some {
                if old(db).locktbl.spec_lock_val(k) > 1 {
                    old(db).locktbl.spec_lock_val(k) - 1
                } else {
                    0int
                }
            } else {
                old(db).locktbl.spec_lock_val(k)
            }),
            r is Ok ==> forall|k: LockTableKey| #[trigger] final(self).spec_mode(k) is None,
            r is Ok ==> final(self).spec_pin_entries().len() == 0,
    {
        let ghost prebm = db.bm;
        let res = self.recovery_mgr.rollback(&mut db.fm, &mut db.lm, &mut db.bm);
        proof {
            self.mybuffers.lemma_inv_preserved(prebm, db.bm);
        }
        if res.is_err() {
            return res;
        }
        let _ = self.concur_mgr.release(&mut db.locktbl);
        let _ = self.mybuffers.unpin_all(&db.fm, &db.lm, &mut db.bm);
        Ok(())
    }

    /// Restart recovery: every unfinished transaction's updates are undone
    /// and a durable CHECKPOINT recorded. Run this on a freshly opened
    /// database before any other work.
    pub fn recover(&mut self, db: &mut SimpleDB) -> (r: Result<(), DbError>)
        requires
            old(self).inv(*old(db)),
            old(db).lm.spec_latest_lsn() < u64::MAX,
        ensures
            final(self).inv(*final(db)),
            final(db).fm.spec_blocksize() == old(db).fm.spec_blocksize(),
            final(db).lm.spec_logfile() == old(db).lm.spec_logfile(),
            final(db).next_txnum == old(db).next_txnum,
            r is Ok ==> {
                &&& final(db).lm.spec_records() == seq![spec_checkpoint_rec()] + old(
                    db,
                ).lm.spec_records()
                &&& final(db).lm.spec_durable() == final(db).lm.spec_records()
            },
    {
        let ghost prebm = db.bm;
        let _ = db.bm.flush_all(&mut db.fm, &mut db.lm, self.txnum);
        let res = self.recovery_mgr.recover(&mut db.fm, &mut db.lm, &mut db.bm);
        proof {
            self.mybuffers.lemma_inv_preserved(prebm, db.bm);
        }
        res
    }

    /// This transaction's number.
    pub fn txnum(&self) -> (r: i32)
        ensures
            r == self.spec_txnum(),
    {
        self.txnum
    }

    /// The store's block size.
    pub fn block_size(&self, db: &SimpleDB) -> (r: usize)
        ensures
            r == db.fm.spec_blocksize(),
    {
        db.fm.blocksize()
    }

    /// How many buffer frames are unpinned right now.
    pub fn available_buffs(&self, db: &SimpleDB) -> (r: Result<usize, DbError>)
        ensures
            r matches Ok(n) && n == db.bm.spec_available(),
    {
        db.bm.available()
    }
}

} // verus!
