//! A buffer frame: one page of a block held in memory, with its pin count
//! and modification state.

use vstd::prelude::*;
use crate::errors::DbError;
use crate::file::block_id::BlockId;
use crate::file::manager::{spec_write_block, FileMgr};
use crate::file::page::Page;
use crate::log::manager::LogMgr;

verus! {

/// One frame of the buffer pool. While `pins > 0` the frame's block mapping
/// is stable; a frame whose `txnum` is at least zero holds changes that must
/// reach the log (up to `lsn`) before its page reaches the store.
pub struct Buffer {
    contents: Page,
    blk: Option<BlockId>,
    pins: u64,
    txnum: i32,
    lsn: i32,
}

impl Buffer {
    /// The frame's page bytes.
    pub closed spec fn spec_page(self) -> Seq<u8> {
        self.contents@
    }

    /// The block the frame holds, if any.
    pub closed spec fn spec_blk(self) -> Option<BlockId> {
        self.blk
    }

    pub closed spec fn spec_pins(self) -> u64 {
        self.pins
    }

    /// The transaction that dirtied the frame; -1 when clean.
    pub closed spec fn spec_txnum(self) -> int {
        self.txnum as int
    }

    /// The LSN of the latest logged change to the frame; -1 when none.
    pub closed spec fn spec_lsn(self) -> int {
        self.lsn as int
    }

    /// A frame is tied to the block size of the store it reads from, and its
    /// block never names the log file (data and log never share a file).
    pub open spec fn wf(self, bs: int, logfile: Seq<char>) -> bool {
        &&& self.spec_page().len() == bs
        &&& match self.spec_blk() {
            Some(b) => b.spec_file() != logfile,
            None => true,
        }
    }

    pub fn new(fm: &FileMgr) -> (r: Self)
        requires
            fm.wf(),
        ensures
            r.spec_page().len() == fm.spec_blocksize(),
            forall|i: int| 0 <= i < fm.spec_blocksize() ==> r.spec_page()[i] == 0u8,
            r.spec_blk() is None,
            r.spec_pins() == 0,
            r.spec_txnum() == -1,
            r.spec_lsn() == -1,
    {
        Self {
            contents: Page::new_from_size(fm.blocksize()),
            blk: None,
            pins: 0,
            txnum: -1,
            lsn: -1,
        }
    }

    /// A mutable view of the frame's page. Changing it changes
    /// `spec_page()` and nothing else.
    pub fn contents(&mut self) -> (r: &mut Page)
        ensures
            (*r)@ == old(self).spec_page(),
            final(self).spec_page() == (*final(r))@,
            final(self).spec_blk() == old(self).spec_blk(),
            final(self).spec_pins() == old(self).spec_pins(),
            final(self).spec_txnum() == old(self).spec_txnum(),
            final(self).spec_lsn() == old(self).spec_lsn(),
    {
        &mut self.contents
    }

    /// A read-only view of the frame's page.
    pub fn page(&self) -> (r: &Page)
        ensures
            r@ == self.spec_page(),
    {
        &self.contents
    }

    pub fn block(&self) -> (r: Option<&BlockId>)
        ensures
            match r {
                Some(b) => self.spec_blk() == Some(*b),
                None => self.spec_blk() is None,
            },
    {
        self.blk.as_ref()
    }

    /// Marks the frame dirty for `txnum`; a nonnegative `lsn` records the
    /// newest log record describing the change.
    pub fn set_modified(&mut self, txnum: i32, lsn: i32)
        ensures
            final(self).spec_txnum() == txnum,
            lsn >= 0 ==> final(self).spec_lsn() == lsn,
            lsn < 0 ==> final(self).spec_lsn() == old(self).spec_lsn(),
            final(self).spec_page() == old(self).spec_page(),
            final(self).spec_blk() == old(self).spec_blk(),
            final(self).spec_pins() == old(self).spec_pins(),
    {
        self.txnum = txnum;
        if lsn >= 0 {
            self.lsn = lsn;
        }
    }

    pub fn pins(&self) -> (r: u64)
        ensures
            r == self.spec_pins(),
    {
        self.pins
    }

    pub fn is_pinned(&self) -> (r: bool)
        ensures
            r == (self.spec_pins() > 0),
    {
        self.pins > 0
    }

    pub fn modifying_tx(&self) -> (r: i32)
        ensures
            r as int == self.spec_txnum(),
    {
        self.txnum
    }

    pub fn pin(&mut self)
        requires
            old(self).spec_pins() < u64::MAX,
        ensures
            final(self).spec_pins() == old(self).spec_pins() + 1,
            final(self).spec_page() == old(self).spec_page(),
            final(self).spec_blk() == old(self).spec_blk(),
            final(self).spec_txnum() == old(self).spec_txnum(),
            final(self).spec_lsn() == old(self).spec_lsn(),
    {
        self.pins = self.pins + 1;
    }

    pub fn unpin(&mut self)
        requires
            old(self).spec_pins() > 0,
        ensures
            final(self).spec_pins() == old(self).spec_pins() - 1,
            final(self).spec_page() == old(self).spec_page(),
            final(self).spec_blk() == old(self).spec_blk(),
            final(self).spec_txnum() == old(self).spec_txnum(),
            final(self).spec_lsn() == old(self).spec_lsn(),
    {
        self.pins = self.pins - 1;
    }

    /// Writes the dirty frame out: the log is made durable up to the frame's
    /// LSN strictly before the page reaches the store. Clean frames do
    /// nothing.
    pub fn flush(&mut self, fm: &mut FileMgr, lm: &mut LogMgr) -> (r: Result<(), DbError>)
        requires
            old(lm).inv(*old(fm)),
            old(self).wf(old(fm).spec_blocksize(), old(lm).spec_logfile()),
        ensures
            final(lm).inv(*final(fm)),
            final(self).wf(final(fm).spec_blocksize(), final(lm).spec_logfile()),
            final(fm).spec_blocksize() == old(fm).spec_blocksize(),
            final(fm).spec_is_new() == old(fm).spec_is_new(),
            final(lm).spec_logfile() == old(lm).spec_logfile(),
            final(lm).spec_records() == old(lm).spec_records(),
            final(lm).spec_latest_lsn() == old(lm).spec_latest_lsn(),
            final(self).spec_page() == old(self).spec_page(),
            final(self).spec_blk() == old(self).spec_blk(),
            final(self).spec_pins() == old(self).spec_pins(),
            final(self).spec_lsn() == old(self).spec_lsn(),
            forall|m: Seq<char>| m != old(lm).spec_logfile() && (match old(self).spec_blk() {
                Some(b) => m != b.spec_file(),
                None => true,
            }) ==> #[trigger] final(fm).file_of(m) == old(fm).file_of(m),
            final(fm).file_of(old(lm).spec_logfile()).len() == old(fm).file_of(
                old(lm).spec_logfile(),
            ).len(),
            final(lm).spec_durable().len() >= old(lm).spec_durable().len(),
            old(self).spec_txnum() < 0 ==> r == Ok::<(), DbError>(()) && *final(self) == *old(
                self,
            ) && *final(fm) == *old(fm) && *final(lm) == *old(lm),
            old(self).spec_txnum() >= 0 ==> {
                // write-ahead: the log covers the frame's changes before any
                // page write happens
                &&& (0 <= old(self).spec_lsn() <= old(lm).spec_latest_lsn() ==> final(lm).spec_saved_through(old(self).spec_lsn() as u64))
                &&& (old(self).spec_lsn() < 0 ==> final(lm).spec_durable() == final(lm).spec_records())
                &&& (old(self).spec_blk() is None ==> r == Err::<(), DbError>(
                    DbError::BlockNotFound,
                ) && final(self).spec_txnum() == old(self).spec_txnum())
                &&& (match old(self).spec_blk() {
                    Some(b) => {
                        &&& b.spec_num() < usize::MAX as int / old(fm).spec_blocksize() ==> {
                            &&& r == Ok::<(), DbError>(())
                            &&& final(self).spec_txnum() == -1
                            &&& final(fm).file_of(b.spec_file()) == spec_write_block(
                                old(fm).file_of(b.spec_file()),
                                b.spec_num() as int,
                                old(fm).spec_blocksize(),
                                old(self).spec_page(),
                            )
                        }
                        &&& b.spec_num() >= usize::MAX as int / old(fm).spec_blocksize() ==> r
                            == Err::<(), DbError>(DbError::FileAccessFailed)
                    },
                    None => true,
                })
            },
    {
        if self.txnum >= 0 {
            let lsn_u64: u64 = if self.lsn >= 0 {
                self.lsn as u64
            } else {
                // an unlogged change: force the whole log out
                u64::MAX
            };
            let _ = lm.flush(fm, lsn_u64);
            let ghost fm1 = *fm;
            proof {
                lm.lemma_inv_wf(*fm);
            }
            match &self.blk {
                Some(blk) => {
                    let res = fm.write(blk, &self.contents);
                    if res.is_err() {
                        return Err(DbError::FileAccessFailed);
                    }
                    self.txnum = -1;
                    proof {
                        lm.lemma_inv_preserved(fm1, *fm);
                    }
                    Ok(())
                },
                None => Err(DbError::BlockNotFound),
            }
        } else {
            Ok(())
        }
    }

    /// Replaces the frame's mapping: the old contents are flushed if dirty,
    /// then block `b` is read in and the frame starts unpinned and clean.
    pub fn assign_to_block(&mut self, fm: &mut FileMgr, lm: &mut LogMgr, b: BlockId) -> (r:
        Result<(), DbError>)
        requires
            old(lm).inv(*old(fm)),
            old(self).wf(old(fm).spec_blocksize(), old(lm).spec_logfile()),
            b.spec_file() != old(lm).spec_logfile(),
        ensures
            final(lm).inv(*final(fm)),
            final(self).wf(final(fm).spec_blocksize(), final(lm).spec_logfile()),
            final(fm).spec_blocksize() == old(fm).spec_blocksize(),
            final(fm).spec_is_new() == old(fm).spec_is_new(),
            final(lm).spec_logfile() == old(lm).spec_logfile(),
            final(lm).spec_records() == old(lm).spec_records(),
            final(lm).spec_latest_lsn() == old(lm).spec_latest_lsn(),
            final(fm).file_of(old(lm).spec_logfile()).len() == old(fm).file_of(
                old(lm).spec_logfile(),
            ).len(),
            final(lm).spec_durable().len() >= old(lm).spec_durable().len(),
            old(self).spec_txnum() < 0 ==> *final(fm) == *old(fm) && *final(lm) == *old(lm),
            old(self).spec_txnum() >= 0 ==> (match old(self).spec_blk() {
                Some(ob) => ob.spec_num() < usize::MAX as int / old(fm).spec_blocksize() ==> {
                    &&& final(fm).file_of(ob.spec_file()) == spec_write_block(
                        old(fm).file_of(ob.spec_file()),
                        ob.spec_num() as int,
                        old(fm).spec_blocksize(),
                        old(self).spec_page(),
                    )
                    &&& forall|m: Seq<char>| m != ob.spec_file() && m != old(lm).spec_logfile()
                        ==> #[trigger] final(fm).file_of(m) == old(fm).file_of(m)
                    &&& (0 <= old(self).spec_lsn() <= old(lm).spec_latest_lsn() ==> final(lm).spec_saved_through(old(self).spec_lsn() as u64))
                },
                None => true,
            }),
            (old(self).spec_txnum() < 0 || (match old(self).spec_blk() {
                Some(ob) => ob.spec_num() < usize::MAX as int / old(fm).spec_blocksize(),
                None => false,
            })) ==> r is Ok,
            r matches Ok(u) ==> {
                &&& final(self).spec_blk() == Some(b)
                &&& final(self).spec_pins() == 0
                &&& final(self).spec_txnum() == -1
                &&& final(self).spec_page() == final(fm).spec_block_at(
                    b.spec_file(),
                    b.spec_num() as int,
                )
            },
    {
        let r = self.flush(fm, lm);
        if r.is_err() {
            return r;
        }
        proof {
            lm.lemma_inv_wf(*fm);
        }
        let res = fm.read(&b, &mut self.contents);
        self.blk = Some(b);
        self.pins = 0;
        self.txnum = -1;
        Ok(())
    }
}

} // verus!
