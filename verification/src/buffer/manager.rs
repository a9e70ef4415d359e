//! The buffer pool: a fixed set of frames, pinned and replaced on demand.
//!
//! A pin first looks for a frame already holding the block, then claims any
//! unpinned frame, flushing its old contents if they were dirty. When
//! neither exists the pin fails with [`DbError::BufferAbort`]; an embedding
//! program may retry such a pin until its deadline.

use vstd::prelude::*;
use crate::errors::DbError;
use crate::buffer::buffer::Buffer;
use crate::file::block_id::BlockId;
use crate::file::manager::{lemma_block_frame, lemma_block_roundtrip, spec_write_block, FileMgr};
use crate::log::manager::LogMgr;

verus! {

/// How many frames of the pool are unpinned.
pub open spec fn count_unpinned(pool: Seq<Buffer>) -> int
    decreases pool.len(),
{
    if pool.len() == 0 {
        0
    } else {
        (if pool[0].spec_pins() == 0 {
            1int
        } else {
            0int
        }) + count_unpinned(pool.drop_first())
    }
}

proof fn lemma_count_bounds(pool: Seq<Buffer>)
    ensures
        0 <= count_unpinned(pool) <= pool.len(),
    decreases pool.len(),
{
    if pool.len() > 0 {
        lemma_count_bounds(pool.drop_first());
    }
}

proof fn lemma_count_pinned(pool: Seq<Buffer>, idx: int)
    requires
        0 <= idx < pool.len(),
        pool[idx].spec_pins() > 0,
    ensures
        count_unpinned(pool) < pool.len(),
    decreases pool.len(),
{
    if idx == 0 {
        lemma_count_bounds(pool.drop_first());
    } else {
        assert(pool.drop_first()[idx - 1] == pool[idx]);
        lemma_count_pinned(pool.drop_first(), idx - 1);
    }
}

proof fn lemma_count_push(pool: Seq<Buffer>, b: Buffer)
    ensures
        count_unpinned(pool.push(b)) == count_unpinned(pool) + (if b.spec_pins() == 0 {
            1int
        } else {
            0int
        }),
    decreases pool.len(),
{
    let lp = pool.push(b);
    if pool.len() == 0 {
        assert(lp.drop_first() =~= Seq::<Buffer>::empty());
        assert(count_unpinned(lp.drop_first()) == 0);
        assert(count_unpinned(pool) == 0);
    } else {
        assert(lp[0] == pool[0]);
        assert(lp.drop_first() =~= pool.drop_first().push(b));
        lemma_count_push(pool.drop_first(), b);
    }
}

proof fn lemma_count_update(pool: Seq<Buffer>, i: int, v: Buffer)
    requires
        0 <= i < pool.len(),
    ensures
        count_unpinned(pool.update(i, v)) == count_unpinned(pool) + (if v.spec_pins() == 0 {
            1int
        } else {
            0int
        }) - (if pool[i].spec_pins() == 0 {
            1int
        } else {
            0int
        }),
    decreases pool.len(),
{
    let lu = pool.update(i, v);
    if i == 0 {
        assert(lu[0] == v);
        assert(lu.drop_first() =~= pool.drop_first());
    } else {
        assert(lu[0] == pool[0]);
        assert(lu.drop_first() =~= pool.drop_first().update(i - 1, v));
        assert(pool.drop_first()[i - 1] == pool[i]);
        lemma_count_update(pool.drop_first(), i - 1, v);
    }
}

/// Whether two frames hold the same block.
pub open spec fn same_blocks(a: Buffer, b: Buffer) -> bool {
    match (a.spec_blk(), b.spec_blk()) {
        (Some(x), Some(y)) => x.spec_same(y),
        _ => false,
    }
}

proof fn lemma_count_unpinned_at(pool: Seq<Buffer>, idx: int)
    requires
        0 <= idx < pool.len(),
        pool[idx].spec_pins() == 0,
    ensures
        count_unpinned(pool) >= 1,
    decreases pool.len(),
{
    if idx == 0 {
        lemma_count_bounds(pool.drop_first());
    } else {
        assert(pool.drop_first()[idx - 1] == pool[idx]);
        lemma_count_unpinned_at(pool.drop_first(), idx - 1);
    }
}

/// The bounded pool of buffer frames.
pub struct BufferMgr {
    bufferpool: Vec<Buffer>,
    num_available: usize,
}

impl BufferMgr {
    /// The frames, in pool order.
    pub closed spec fn spec_pool(self) -> Seq<Buffer> {
        self.bufferpool@
    }

    /// How many frames are unpinned right now.
    pub closed spec fn spec_available(self) -> int {
        self.num_available as int
    }

    /// Ties the pool to the store and log it serves: every frame is
    /// block-sized, holds no log-file block, maps only blocks the store can
    /// address, is clean unless mapped, and the available count is exact.
    pub open spec fn inv(self, fm: FileMgr, lm: LogMgr) -> bool {
        &&& forall|i: int| 0 <= i < self.spec_pool().len() ==> (#[trigger] self.spec_pool()[i]).wf(
            fm.spec_blocksize(),
            lm.spec_logfile(),
        )
        &&& forall|i: int| 0 <= i < self.spec_pool().len() ==> (match (
        #[trigger] self.spec_pool()[i]).spec_blk() {
            Some(b) => b.spec_num() < usize::MAX as int / fm.spec_blocksize(),
            None => true,
        })
        &&& forall|i: int| 0 <= i < self.spec_pool().len() ==> ((#[trigger] self.spec_pool()[
            i
        ]).spec_txnum() >= 0 ==> self.spec_pool()[i].spec_blk() is Some)
        &&& forall|i: int, j: int| 0 <= i < j < self.spec_pool().len() ==> !same_blocks(
            #[trigger] self.spec_pool()[i],
            #[trigger] self.spec_pool()[j],
        )
        &&& self.spec_available() == count_unpinned(self.spec_pool())
    }

    pub fn new(fm: &FileMgr, lm: &LogMgr, numbuffs: usize) -> (r: Self)
        requires
            lm.inv(*fm),
        ensures
            r.inv(*fm, *lm),
            r.spec_pool().len() == numbuffs,
            r.spec_available() == numbuffs,
            forall|i: int| 0 <= i < numbuffs ==> (#[trigger] r.spec_pool()[i]).spec_blk() is None
                && r.spec_pool()[i].spec_pins() == 0 && r.spec_pool()[i].spec_txnum() == -1,
    {
        proof {
            lm.lemma_inv_wf(*fm);
        }
        let mut bufferpool: Vec<Buffer> = Vec::new();
        let mut i: usize = 0;
        while i < numbuffs
            invariant
                i <= numbuffs,
                bufferpool@.len() == i,
                fm.wf(),
                forall|j: int| 0 <= j < i ==> (#[trigger] bufferpool@[j]).spec_blk() is None
                    && bufferpool@[j].spec_pins() == 0 && bufferpool@[j].spec_txnum() == -1
                    && bufferpool@[j].spec_page().len() == fm.spec_blocksize(),
                count_unpinned(bufferpool@) == i,
            decreases numbuffs - i,
        {
            let b = Buffer::new(fm);
            proof {
                lemma_count_push(bufferpool@, b);
            }
            bufferpool.push(b);
            i = i + 1;
        }
        Self { bufferpool, num_available: numbuffs }
    }

    pub fn available(&self) -> (r: Result<usize, DbError>)
        ensures
            r matches Ok(n) && n == self.spec_available(),
    {
        Ok(self.num_available)
    }

    /// A read-only view of the frame at `idx`.
    pub fn buffer(&self, idx: usize) -> (r: &Buffer)
        requires
            idx < self.spec_pool().len(),
        ensures
            *r == self.spec_pool()[idx as int],
    {
        &self.bufferpool[idx]
    }

    /// A mutable view of the frame at `idx`. The caller is responsible for
    /// leaving the pool invariant intact: pins must not change through this
    /// view, pages must keep their length, and a frame made dirty must hold
    /// a block.
    pub fn buffer_mut(&mut self, idx: usize) -> (r: &mut Buffer)
        requires
            idx < old(self).spec_pool().len(),
        ensures
            *r == old(self).spec_pool()[idx as int],
            final(self).spec_pool() == old(self).spec_pool().update(idx as int, *final(r)),
            final(self).spec_available() == old(self).spec_available(),
    {
        &mut self.bufferpool[idx]
    }

    /// Flushes every frame dirtied by `txnum`: its changes reach the log and
    /// then the store, and the frame comes back clean.
    pub fn flush_all(&mut self, fm: &mut FileMgr, lm: &mut LogMgr, txnum: i32) -> (r: Result<
        (),
        DbError,
    >)
        requires
            old(lm).inv(*old(fm)),
            old(self).inv(*old(fm), *old(lm)),
            txnum >= 0,
        ensures
            final(lm).inv(*final(fm)),
            final(self).inv(*final(fm), *final(lm)),
            r == Ok::<(), DbError>(()),
            final(fm).spec_blocksize() == old(fm).spec_blocksize(),
            final(fm).spec_is_new() == old(fm).spec_is_new(),
            final(lm).spec_logfile() == old(lm).spec_logfile(),
            final(lm).spec_records() == old(lm).spec_records(),
            final(lm).spec_latest_lsn() == old(lm).spec_latest_lsn(),
            final(self).spec_pool().len() == old(self).spec_pool().len(),
            final(self).spec_available() == old(self).spec_available(),
            final(fm).file_of(old(lm).spec_logfile()).len() == old(fm).file_of(
                old(lm).spec_logfile(),
            ).len(),
            final(lm).spec_durable().len() >= old(lm).spec_durable().len(),
            forall|i: int| 0 <= i < old(self).spec_pool().len() ==> {
                let pre = old(self).spec_pool()[i];
                let post = #[trigger] final(self).spec_pool()[i];
                &&& post.spec_page() == pre.spec_page()
                &&& post.spec_blk() == pre.spec_blk()
                &&& post.spec_pins() == pre.spec_pins()
                &&& (pre.spec_txnum() == txnum ==> post.spec_txnum() == -1)
                &&& (pre.spec_txnum() != txnum ==> post.spec_txnum() == pre.spec_txnum())
            },
            // every frame this transaction dirtied reached the store, its
            // undo records having reached the log first
            forall|i: int| 0 <= i < old(self).spec_pool().len() && (#[trigger] old(
                self,
            ).spec_pool()[i]).spec_txnum() == txnum ==> (match old(self).spec_pool()[
                i
            ].spec_blk() {
                Some(b) => final(fm).spec_block_at(b.spec_file(), b.spec_num() as int) == old(
                    self,
                ).spec_pool()[i].spec_page() && (0 <= old(self).spec_pool()[i].spec_lsn() <= old(
                    lm,
                ).spec_latest_lsn() ==> final(lm).spec_saved_through(
                    old(self).spec_pool()[i].spec_lsn() as u64,
                )),
                None => true,
            }),
    {
        let n = self.bufferpool.len();
        let mut i: usize = 0;
        while i < n
            invariant
                i <= n,
                n == self.spec_pool().len(),
                n == old(self).spec_pool().len(),
                txnum >= 0,
                lm.inv(*fm),
                self.inv(*fm, *lm),
                self.spec_available() == old(self).spec_available(),
                fm.spec_blocksize() == old(fm).spec_blocksize(),
                fm.spec_is_new() == old(fm).spec_is_new(),
                lm.spec_logfile() == old(lm).spec_logfile(),
                lm.spec_records() == old(lm).spec_records(),
                lm.spec_latest_lsn() == old(lm).spec_latest_lsn(),
                forall|j: int| 0 <= j < i ==> {
                    let pre = old(self).spec_pool()[j];
                    let post = #[trigger] self.spec_pool()[j];
                    &&& post.spec_page() == pre.spec_page()
                    &&& post.spec_blk() == pre.spec_blk()
                    &&& post.spec_pins() == pre.spec_pins()
                    &&& (pre.spec_txnum() == txnum ==> post.spec_txnum() == -1)
                    &&& (pre.spec_txnum() != txnum ==> post.spec_txnum() == pre.spec_txnum())
                },
                forall|j: int| i <= j < n ==> #[trigger] self.spec_pool()[j] == old(self).spec_pool()[j],
                fm.file_of(old(lm).spec_logfile()).len() == old(fm).file_of(
                    old(lm).spec_logfile(),
                ).len(),
                lm.spec_durable().len() >= old(lm).spec_durable().len(),
                forall|j: int| 0 <= j < i && (#[trigger] old(self).spec_pool()[j]).spec_txnum()
                    == txnum ==> (match old(self).spec_pool()[j].spec_blk() {
                    Some(b) => fm.spec_block_at(b.spec_file(), b.spec_num() as int) == old(
                        self,
                    ).spec_pool()[j].spec_page() && (0 <= old(self).spec_pool()[j].spec_lsn()
                        <= old(lm).spec_latest_lsn() ==> lm.spec_saved_through(
                        old(self).spec_pool()[j].spec_lsn() as u64,
                    )),
                    None => true,
                }),
            decreases n - i,
        {
            let ghost prepool = self.spec_pool();
            let ghost fmpre = *fm;
            let ghost lmpre = *lm;
            proof {
                assert(prepool[i as int].wf(fm.spec_blocksize(), lm.spec_logfile()));
                assert(prepool[i as int].spec_txnum() >= 0 ==> prepool[i as int].spec_blk()
                    is Some);
                assert(match prepool[i as int].spec_blk() {
                    Some(b) => b.spec_num() < usize::MAX as int / fm.spec_blocksize(),
                    None => true,
                });
            }
            let matched = self.bufferpool[i].modifying_tx() == txnum;
            if matched {
                let buf = &mut self.bufferpool[i];
                let res = buf.flush(fm, lm);
                proof {
                    lemma_count_update(prepool, i as int, self.spec_pool()[i as int]);
                }
            }
            proof {
                let bs = fm.spec_blocksize();
                assert forall|j: int| 0 <= j < i + 1 && (#[trigger] old(self).spec_pool()[
                    j
                ]).spec_txnum() == txnum implies (match old(self).spec_pool()[j].spec_blk() {
                    Some(b) => fm.spec_block_at(b.spec_file(), b.spec_num() as int) == old(
                        self,
                    ).spec_pool()[j].spec_page() && (0 <= old(self).spec_pool()[j].spec_lsn()
                        <= old(lm).spec_latest_lsn() ==> lm.spec_saved_through(
                        old(self).spec_pool()[j].spec_lsn() as u64,
                    )),
                    None => true,
                }) by {
                    lmpre.lemma_inv_wf(fmpre);
                    let pre_j = old(self).spec_pool()[j];
                    if j == i as int {
                        // this very frame was just flushed
                        if matched {
                            match pre_j.spec_blk() {
                                Some(b) => {
                                    lemma_block_roundtrip(
                                        fmpre.file_of(b.spec_file()),
                                        b.spec_num() as int,
                                        bs,
                                        pre_j.spec_page(),
                                    );
                                },
                                None => {},
                            }
                        }
                    } else if matched && pre_j.spec_blk() is Some {
                        // an earlier frame's written block survives this
                        // step's writes: blocks in the pool are distinct and
                        // the log file is no data file
                        let b_j = pre_j.spec_blk()->Some_0;
                        match prepool[i as int].spec_blk() {
                            Some(b_i) => {
                                if prepool[i as int].spec_txnum() >= 0 {
                                    let a = if j < i as int {
                                        j
                                    } else {
                                        i as int
                                    };
                                    let c = if j < i as int {
                                        i as int
                                    } else {
                                        j
                                    };
                                    assert(!same_blocks(prepool[a], prepool[c]));
                                    assert(prepool[j].spec_blk() == pre_j.spec_blk());
                                    if b_j.spec_file() == b_i.spec_file() {
                                        lemma_block_frame(
                                            fmpre.file_of(b_i.spec_file()),
                                            b_i.spec_num() as int,
                                            bs,
                                            prepool[i as int].spec_page(),
                                            b_j.spec_num() as int,
                                        );
                                    }
                                }
                            },
                            None => {},
                        }
                    }
                }
            }
            i = i + 1;
        }
        Ok(())
    }

    /// Releases one pin on the frame at `idx`.
    pub fn unpin(&mut self, idx: usize) -> (r: Result<(), DbError>)
        requires
            idx < old(self).spec_pool().len(),
            old(self).spec_pool()[idx as int].spec_pins() > 0,
            old(self).spec_available() == count_unpinned(old(self).spec_pool()),
        ensures
            r == Ok::<(), DbError>(()),
            final(self).spec_pool() == old(self).spec_pool().update(
                idx as int,
                final(self).spec_pool()[idx as int],
            ),
            final(self).spec_pool()[idx as int].spec_pins() == old(self).spec_pool()[
                idx as int
            ].spec_pins() - 1,
            final(self).spec_pool()[idx as int].spec_page() == old(self).spec_pool()[
                idx as int
            ].spec_page(),
            final(self).spec_pool()[idx as int].spec_blk() == old(self).spec_pool()[
                idx as int
            ].spec_blk(),
            final(self).spec_pool()[idx as int].spec_txnum() == old(self).spec_pool()[
                idx as int
            ].spec_txnum(),
            final(self).spec_available() == old(self).spec_available() + (
            if old(self).spec_pool()[idx as int].spec_pins() == 1 {
                1int
            } else {
                0int
            }),
    {
        let ghost prepool = self.spec_pool();
        let n = self.bufferpool.len();
        let buf = &mut self.bufferpool[idx];
        buf.unpin();
        let stillpinned = self.bufferpool[idx].is_pinned();
        if !stillpinned {
            proof {
                lemma_count_pinned(prepool, idx as int);
                lemma_count_update(prepool, idx as int, self.spec_pool()[idx as int]);
                assert(count_unpinned(self.spec_pool()) == count_unpinned(prepool) + 1);
            }
            self.num_available = self.num_available + 1;
        } else {
            proof {
                lemma_count_update(prepool, idx as int, self.spec_pool()[idx as int]);
            }
        }
        Ok(())
    }

    /// Whether the frame at `i` holds the block named by `b`.
    pub open spec fn spec_holds(self, i: int, b: BlockId) -> bool {
        match self.spec_pool()[i].spec_blk() {
            Some(x) => x.spec_same(b),
            None => false,
        }
    }

    /// The index of a frame already holding `blk`, if any.
    fn find_existing_buffer(&self, blk: &BlockId) -> (r: Option<usize>)
        ensures
            match r {
                Some(i) => i < self.spec_pool().len() && self.spec_holds(i as int, *blk),
                None => forall|j: int| 0 <= j < self.spec_pool().len() ==> !(
                #[trigger] self.spec_holds(j, *blk)),
            },
    {
        let n = self.bufferpool.len();
        let mut i: usize = 0;
        while i < n
            invariant
                i <= n,
                n == self.spec_pool().len(),
                forall|j: int| 0 <= j < i ==> !(#[trigger] self.spec_holds(j, *blk)),
            decreases n - i,
        {
            match self.bufferpool[i].block() {
                Some(b) => {
                    if b.eq(blk) {
                        return Some(i);
                    }
                },
                None => {},
            }
            i = i + 1;
        }
        None
    }

    /// Pins `blk` in some frame and returns the frame's index: a frame
    /// already holding the block gains a pin; otherwise an unpinned frame is
    /// claimed, its old contents flushed if dirty, and the block read in.
    /// With every frame pinned the pin fails with
    /// [`DbError::BufferAbort`]; retrying is the caller's decision.
    pub fn pin(&mut self, fm: &mut FileMgr, lm: &mut LogMgr, blk: &BlockId) -> (r: Result<
        usize,
        DbError,
    >)
        requires
            old(lm).inv(*old(fm)),
            old(self).inv(*old(fm), *old(lm)),
            blk.spec_file() != old(lm).spec_logfile(),
            blk.spec_num() < usize::MAX as int / old(fm).spec_blocksize(),
        ensures
            final(lm).inv(*final(fm)),
            final(self).inv(*final(fm), *final(lm)),
            final(fm).spec_blocksize() == old(fm).spec_blocksize(),
            final(fm).spec_is_new() == old(fm).spec_is_new(),
            final(lm).spec_logfile() == old(lm).spec_logfile(),
            final(lm).spec_records() == old(lm).spec_records(),
            final(lm).spec_latest_lsn() == old(lm).spec_latest_lsn(),
            final(self).spec_pool().len() == old(self).spec_pool().len(),
            (r is Ok) <==> ((exists|j: int| 0 <= j < old(self).spec_pool().len() && #[trigger] old(self).spec_holds(j, *blk) && old(self).spec_pool()[j].spec_pins() < u64::MAX) || ((
            forall|j: int| 0 <= j < old(self).spec_pool().len() ==> !(#[trigger] old(self).spec_holds(j, *blk))) && (exists|j: int| 0 <= j < old(self).spec_pool().len() && (
            #[trigger] old(self).spec_pool()[j]).spec_pins() == 0))),
            r is Err ==> r == Err::<usize, DbError>(DbError::BufferAbort) && *final(self) == *old(self) && *final(fm) == *old(fm) && *final(lm) == *old(lm),
            final(fm).file_of(old(lm).spec_logfile()).len() == old(fm).file_of(
                old(lm).spec_logfile(),
            ).len(),
            final(lm).spec_durable().len() >= old(lm).spec_durable().len(),
            r matches Ok(i) ==> {
                &&& i < old(self).spec_pool().len()
                &&& final(self).spec_holds(i as int, *blk)
                &&& final(self).spec_pool()[i as int].spec_pins() >= 1
                &&& (old(self).spec_holds(i as int, *blk) ==> {
                    let pre = old(self).spec_pool()[i as int];
                    let post = final(self).spec_pool()[i as int];
                    &&& post.spec_page() == pre.spec_page()
                    &&& post.spec_blk() == pre.spec_blk()
                    &&& post.spec_pins() == pre.spec_pins() + 1
                    &&& post.spec_txnum() == pre.spec_txnum()
                    &&& post.spec_lsn() == pre.spec_lsn()
                    &&& *final(fm) == *old(fm)
                    &&& *final(lm) == *old(lm)
                })
                &&& (!old(self).spec_holds(i as int, *blk) ==> {
                    let pre = old(self).spec_pool()[i as int];
                    let post = final(self).spec_pool()[i as int];
                    &&& pre.spec_pins() == 0
                    &&& post.spec_pins() == 1
                    &&& post.spec_txnum() == -1
                    &&& post.spec_page() == final(fm).spec_block_at(
                        blk.spec_file(),
                        blk.spec_num() as int,
                    )
                    // claiming a clean frame does no I/O; claiming a dirty
                    // one writes its old block out, log first
                    &&& (pre.spec_txnum() < 0 ==> *final(fm) == *old(fm) && *final(lm) == *old(lm))
                    &&& (pre.spec_txnum() >= 0 ==> (match pre.spec_blk() {
                        Some(ob) => {
                            &&& final(fm).file_of(ob.spec_file()) == spec_write_block(
                                old(fm).file_of(ob.spec_file()),
                                ob.spec_num() as int,
                                old(fm).spec_blocksize(),
                                pre.spec_page(),
                            )
                            &&& forall|m: Seq<char>| m != ob.spec_file() && m != old(lm).spec_logfile() ==> #[trigger] final(fm).file_of(m) == old(fm).file_of(m)
                            &&& (0 <= pre.spec_lsn() <= old(lm).spec_latest_lsn() ==> final(lm).spec_saved_through(pre.spec_lsn() as u64))
                        },
                        None => false,
                    }))
                })
                &&& forall|j: int| 0 <= j < old(self).spec_pool().len() && j != i
                    ==> #[trigger] final(self).spec_pool()[j] == old(self).spec_pool()[j]
            },
    {
        match self.try_to_pin(fm, lm, blk) {
            Ok(i) => Ok(i),
            Err(_) => Err(DbError::BufferAbort),
        }
    }

    /// One pin attempt: an existing frame, else any unpinned frame.
    fn try_to_pin(&mut self, fm: &mut FileMgr, lm: &mut LogMgr, blk: &BlockId) -> (r: Result<
        usize,
        DbError,
    >)
        requires
            old(lm).inv(*old(fm)),
            old(self).inv(*old(fm), *old(lm)),
            blk.spec_file() != old(lm).spec_logfile(),
            blk.spec_num() < usize::MAX as int / old(fm).spec_blocksize(),
        ensures
            final(lm).inv(*final(fm)),
            final(self).inv(*final(fm), *final(lm)),
            final(fm).spec_blocksize() == old(fm).spec_blocksize(),
            final(fm).spec_is_new() == old(fm).spec_is_new(),
            final(lm).spec_logfile() == old(lm).spec_logfile(),
            final(lm).spec_records() == old(lm).spec_records(),
            final(lm).spec_latest_lsn() == old(lm).spec_latest_lsn(),
            final(self).spec_pool().len() == old(self).spec_pool().len(),
            (r is Ok) <==> ((exists|j: int| 0 <= j < old(self).spec_pool().len() && #[trigger] old(self).spec_holds(j, *blk) && old(self).spec_pool()[j].spec_pins() < u64::MAX) || ((
            forall|j: int| 0 <= j < old(self).spec_pool().len() ==> !(#[trigger] old(self).spec_holds(j, *blk))) && (exists|j: int| 0 <= j < old(self).spec_pool().len() && (
            #[trigger] old(self).spec_pool()[j]).spec_pins() == 0))),
            r is Err ==> *final(self) == *old(self) && *final(fm) == *old(fm) && *final(lm)
                == *old(lm),
            final(fm).file_of(old(lm).spec_logfile()).len() == old(fm).file_of(
                old(lm).spec_logfile(),
            ).len(),
            final(lm).spec_durable().len() >= old(lm).spec_durable().len(),
            r matches Ok(i) ==> {
                &&& i < old(self).spec_pool().len()
                &&& final(self).spec_holds(i as int, *blk)
                &&& final(self).spec_pool()[i as int].spec_pins() >= 1
                &&& (old(self).spec_holds(i as int, *blk) ==> {
                    let pre = old(self).spec_pool()[i as int];
                    let post = final(self).spec_pool()[i as int];
                    &&& post.spec_page() == pre.spec_page()
                    &&& post.spec_blk() == pre.spec_blk()
                    &&& post.spec_pins() == pre.spec_pins() + 1
                    &&& post.spec_txnum() == pre.spec_txnum()
                    &&& post.spec_lsn() == pre.spec_lsn()
                    &&& *final(fm) == *old(fm)
                    &&& *final(lm) == *old(lm)
                })
                &&& (!old(self).spec_holds(i as int, *blk) ==> {
                    let pre = old(self).spec_pool()[i as int];
                    let post = final(self).spec_pool()[i as int];
                    &&& pre.spec_pins() == 0
                    &&& post.spec_pins() == 1
                    &&& post.spec_txnum() == -1
                    &&& post.spec_page() == final(fm).spec_block_at(
                        blk.spec_file(),
                        blk.spec_num() as int,
                    )
                    // claiming a clean frame does no I/O; claiming a dirty
                    // one writes its old block out, log first
                    &&& (pre.spec_txnum() < 0 ==> *final(fm) == *old(fm) && *final(lm) == *old(lm))
                    &&& (pre.spec_txnum() >= 0 ==> (match pre.spec_blk() {
                        Some(ob) => {
                            &&& final(fm).file_of(ob.spec_file()) == spec_write_block(
                                old(fm).file_of(ob.spec_file()),
                                ob.spec_num() as int,
                                old(fm).spec_blocksize(),
                                pre.spec_page(),
                            )
                            &&& forall|m: Seq<char>| m != ob.spec_file() && m != old(lm).spec_logfile() ==> #[trigger] final(fm).file_of(m) == old(fm).file_of(m)
                            &&& (0 <= pre.spec_lsn() <= old(lm).spec_latest_lsn() ==> final(lm).spec_saved_through(pre.spec_lsn() as u64))
                        },
                        None => false,
                    }))
                })
                &&& forall|j: int| 0 <= j < old(self).spec_pool().len() && j != i
                    ==> #[trigger] final(self).spec_pool()[j] == old(self).spec_pool()[j]
            },
    {
        let ghost prepool = self.spec_pool();
        match self.find_existing_buffer(blk) {
            Some(i) => {
                let was = self.bufferpool[i].pins();
                if was == u64::MAX {
                    proof {
                        assert forall|j: int| 0 <= j < prepool.len() && #[trigger] self.spec_holds(
                            j,
                            *blk,
                        ) implies j == i as int by {
                            if j != i as int {
                                if j < i as int {
                                    assert(!same_blocks(prepool[j], prepool[i as int]));
                                } else {
                                    assert(!same_blocks(prepool[i as int], prepool[j]));
                                }
                            }
                        }
                    }
                    return Err(DbError::BufferAbort);
                }
                let buf = &mut self.bufferpool[i];
                buf.pin();
                proof {
                    assert forall|a: int, b2: int| 0 <= a < b2 < self.spec_pool().len()
                        implies !same_blocks(self.spec_pool()[a], self.spec_pool()[b2]) by {
                        assert(!same_blocks(prepool[a], prepool[b2]));
                        assert(self.spec_pool()[a].spec_blk() == prepool[a].spec_blk());
                        assert(self.spec_pool()[b2].spec_blk() == prepool[b2].spec_blk());
                    }
                }
                if was == 0 {
                    proof {
                        lemma_count_unpinned_at(prepool, i as int);
                        lemma_count_update(prepool, i as int, self.spec_pool()[i as int]);
                    }
                    self.num_available = self.num_available - 1;
                } else {
                    proof {
                        lemma_count_update(prepool, i as int, self.spec_pool()[i as int]);
                    }
                }
                Ok(i)
            },
            None => {
                match self.choose_unpinned_buffer() {
                    Some(i) => {
                        proof {
                            assert(prepool[i as int].wf(fm.spec_blocksize(), lm.spec_logfile()));
                            assert(prepool[i as int].spec_txnum() >= 0 ==> prepool[
                                i as int
                            ].spec_blk() is Some);
                            assert(match prepool[i as int].spec_blk() {
                                Some(b) => b.spec_num() < usize::MAX as int
                                    / fm.spec_blocksize(),
                                None => true,
                            });
                        }
                        let buf = &mut self.bufferpool[i];
                        let res = buf.assign_to_block(fm, lm, blk.clone());
                        proof {
                            lemma_count_update(prepool, i as int, self.spec_pool()[i as int]);
                            assert(fm.file_of(old(lm).spec_logfile()).len() == old(fm).file_of(
                                old(lm).spec_logfile(),
                            ).len());
                            assert(lm.spec_durable().len() >= old(lm).spec_durable().len());
                        }
                        let ghost midpool = self.spec_pool();
                        let buf2 = &mut self.bufferpool[i];
                        buf2.pin();
                        proof {
                            lemma_count_unpinned_at(midpool, i as int);
                            lemma_count_update(midpool, i as int, self.spec_pool()[i as int]);
                            assert forall|a: int, b2: int| 0 <= a < b2 < self.spec_pool().len()
                                implies !same_blocks(self.spec_pool()[a], self.spec_pool()[b2])
                                by {
                                if a != i as int && b2 != i as int {
                                    assert(!same_blocks(prepool[a], prepool[b2]));
                                    assert(self.spec_pool()[a].spec_blk() == prepool[
                                        a
                                    ].spec_blk());
                                    assert(self.spec_pool()[b2].spec_blk() == prepool[
                                        b2
                                    ].spec_blk());
                                } else if a == i as int {
                                    assert(self.spec_pool()[b2].spec_blk() == prepool[
                                        b2
                                    ].spec_blk());
                                    assert(!old(self).spec_holds(b2, *blk));
                                } else {
                                    assert(self.spec_pool()[a].spec_blk() == prepool[
                                        a
                                    ].spec_blk());
                                    assert(!old(self).spec_holds(a, *blk));
                                }
                            }
                        }
                        self.num_available = self.num_available - 1;
                        Ok(i)
                    },
                    None => Err(DbError::BufferAbort),
                }
            },
        }
    }

    /// Re-establishes the pool invariant after one frame's page bytes or
    /// dirty mark changed through [`BufferMgr::buffer_mut`]: pins, block
    /// mapping and page length must be unchanged, and a dirtied frame must
    /// hold a block.
    pub proof fn lemma_inv_after_frame_edit(self, pre: BufferMgr, idx: int, fm: FileMgr,
        lm: LogMgr)
        requires
            pre.inv(fm, lm),
            0 <= idx < pre.spec_pool().len(),
            self.spec_pool() == pre.spec_pool().update(idx, self.spec_pool()[idx]),
            self.spec_available() == pre.spec_available(),
            self.spec_pool()[idx].spec_pins() == pre.spec_pool()[idx].spec_pins(),
            self.spec_pool()[idx].spec_blk() == pre.spec_pool()[idx].spec_blk(),
            self.spec_pool()[idx].spec_page().len() == pre.spec_pool()[idx].spec_page().len(),
            self.spec_pool()[idx].spec_txnum() >= 0 ==> self.spec_pool()[idx].spec_blk()
                is Some,
        ensures
            self.inv(fm, lm),
    {
        lemma_count_update(pre.spec_pool(), idx, self.spec_pool()[idx]);
        assert forall|a: int, b2: int| 0 <= a < b2 < self.spec_pool().len()
            implies !same_blocks(self.spec_pool()[a], self.spec_pool()[b2]) by {
            assert(!same_blocks(pre.spec_pool()[a], pre.spec_pool()[b2]));
            assert(self.spec_pool()[a].spec_blk() == pre.spec_pool()[a].spec_blk());
            assert(self.spec_pool()[b2].spec_blk() == pre.spec_pool()[b2].spec_blk());
        }
    }

    /// Re-establishes the pool invariant after [`BufferMgr::unpin`] released
    /// one pin on the frame at `idx`.
    pub proof fn lemma_inv_after_unpin(self, pre: BufferMgr, idx: int, fm: FileMgr, lm: LogMgr)
        requires
            pre.inv(fm, lm),
            0 <= idx < pre.spec_pool().len(),
            self.spec_pool() == pre.spec_pool().update(idx, self.spec_pool()[idx]),
            self.spec_pool()[idx].spec_blk() == pre.spec_pool()[idx].spec_blk(),
            self.spec_pool()[idx].spec_page() == pre.spec_pool()[idx].spec_page(),
            self.spec_pool()[idx].spec_txnum() == pre.spec_pool()[idx].spec_txnum(),
            pre.spec_pool()[idx].spec_pins() > 0,
            self.spec_pool()[idx].spec_pins() == pre.spec_pool()[idx].spec_pins() - 1,
            self.spec_available() == pre.spec_available() + (
            if self.spec_pool()[idx].spec_pins() == 0 {
                1int
            } else {
                0int
            }),
        ensures
            self.inv(fm, lm),
    {
        lemma_count_update(pre.spec_pool(), idx, self.spec_pool()[idx]);
        assert forall|a: int, b2: int| 0 <= a < b2 < self.spec_pool().len()
            implies !same_blocks(self.spec_pool()[a], self.spec_pool()[b2]) by {
            assert(!same_blocks(pre.spec_pool()[a], pre.spec_pool()[b2]));
            assert(self.spec_pool()[a].spec_blk() == pre.spec_pool()[a].spec_blk());
            assert(self.spec_pool()[b2].spec_blk() == pre.spec_pool()[b2].spec_blk());
        }
    }

    /// The pool invariant reads the store only through its block size and
    /// the log only through its file name: managers that agree on both can
    /// be exchanged.
    pub proof fn lemma_inv_stable(self, fm1: FileMgr, lm1: LogMgr, fm2: FileMgr, lm2: LogMgr)
        requires
            self.inv(fm1, lm1),
            fm2.spec_blocksize() == fm1.spec_blocksize(),
            lm2.spec_logfile() == lm1.spec_logfile(),
        ensures
            self.inv(fm2, lm2),
    {
    }

    /// The index of some unpinned frame, if any.
    fn choose_unpinned_buffer(&self) -> (r: Option<usize>)
        ensures
            match r {
                Some(i) => i < self.spec_pool().len() && self.spec_pool()[i as int].spec_pins()
                    == 0,
                None => forall|j: int| 0 <= j < self.spec_pool().len() ==> (
                #[trigger] self.spec_pool()[j]).spec_pins() > 0,
            },
    {
        let n = self.bufferpool.len();
        let mut i: usize = 0;
        while i < n
            invariant
                i <= n,
                n == self.spec_pool().len(),
                forall|j: int| 0 <= j < i ==> (#[trigger] self.spec_pool()[j]).spec_pins() > 0,
            decreases n - i,
        {
            if !self.bufferpool[i].is_pinned() {
                return Some(i);
            }
            i = i + 1;
        }
        None
    }
}

} // verus!
