//! The log record iterator: yields records newest to oldest, reading blocks
//! from the store as it descends.

use vstd::prelude::*;
use crate::errors::DbError;
use crate::file::block_id::BlockId;
use crate::file::manager::FileMgr;
use crate::file::page::Page;
use crate::log::manager::{spec_boundary, spec_iter_records};

verus! {

/// Reads the log of one file newest record first. The iterator caches the
/// block it is positioned in; the log file must not change under it while it
/// runs.
pub struct LogIterator {
    logfile: String,
    blk: u64,
    p: Page,
    current_pos: usize,
    boundary: usize,
    rem: Ghost<Seq<Seq<u8>>>,
}

impl LogIterator {
    /// The records the iterator has yet to yield, newest first.
    pub closed spec fn remaining(self) -> Seq<Seq<u8>> {
        self.rem@
    }

    pub closed spec fn spec_logfile(self) -> Seq<char> {
        self.logfile@
    }

    /// The block the iterator is positioned in.
    pub closed spec fn spec_blk(self) -> u64 {
        self.blk
    }

    /// The reading position within that block.
    pub closed spec fn spec_pos(self) -> int {
        self.current_pos as int
    }

    /// Ties the iterator to the store it reads from: the cached page is the
    /// block it is positioned in, and `remaining` is what a log read from
    /// this position yields.
    pub closed spec fn wf(self, fm: FileMgr) -> bool {
        let bs = fm.spec_blocksize();
        &&& fm.wf()
        &&& 8 <= bs <= i32::MAX
        &&& self.p@ == fm.spec_block_at(self.logfile@, self.blk as int)
        &&& self.rem@ == spec_iter_records(
            fm.file_of(self.logfile@),
            bs,
            self.blk as int,
            self.current_pos as int,
        )
        &&& self.current_pos <= bs + 1
    }

    /// `wf` reads only the log file's bytes and the block size, so any store
    /// change that leaves both alone keeps the iterator well-formed.
    pub proof fn lemma_wf_preserved(self, fm1: FileMgr, fm2: FileMgr)
        requires
            self.wf(fm1),
            fm2.wf(),
            fm2.spec_blocksize() == fm1.spec_blocksize(),
            fm2.file_of(self.spec_logfile()) == fm1.file_of(self.spec_logfile()),
        ensures
            self.wf(fm2),
    {
    }

    /// Positions a fresh iterator at the boundary of `blk`.
    pub fn new(fm: &FileMgr, blk: BlockId) -> (r: Result<Self, DbError>)
        requires
            fm.wf(),
            8 <= fm.spec_blocksize() <= i32::MAX,
        ensures
            r matches Ok(it) && it.wf(*fm) && it.spec_logfile() == blk.spec_file()
                && it.remaining() == spec_iter_records(
                fm.file_of(blk.spec_file()),
                fm.spec_blocksize(),
                blk.spec_num() as int,
                spec_boundary(
                    fm.spec_block_at(blk.spec_file(), blk.spec_num() as int),
                ),
            ),
    {
        let bs = fm.blocksize();
        let mut p = Page::new_from_size(bs);
        fm.read(&blk, &mut p)?;
        let bd = match p.get_i32(0) {
            Ok(v) => v,
            Err(_) => 0,
        };
        let current_pos: usize = if bd < 0 || bd > (bs as i32) {
            // the spec yields nothing from such a position, and neither
            // would a read: park past the block end
            bs + 1
        } else {
            bd as usize
        };
        let it = Self {
            logfile: blk.file_name(),
            blk: blk.number(),
            p,
            current_pos,
            boundary: current_pos,
            rem: Ghost(
                spec_iter_records(
                    fm.file_of(blk.spec_file()),
                    fm.spec_blocksize(),
                    blk.spec_num() as int,
                    current_pos as int,
                ),
            ),
        };
        proof {
            let file = fm.file_of(blk.spec_file());
            let sbd = spec_boundary(fm.spec_block_at(blk.spec_file(), blk.spec_num() as int));
            if sbd < 0 || sbd > bs as int {
                assert(spec_iter_records(file, bs as int, blk.spec_num() as int, sbd)
                    =~= Seq::<Seq<u8>>::empty());
                assert(spec_iter_records(file, bs as int, blk.spec_num() as int, bs + 1)
                    =~= Seq::<Seq<u8>>::empty());
            }
        }
        Ok(it)
    }

    /// Whether the reading position has not reached the end of block zero.
    /// (At a malformed position a further `next` still yields nothing.)
    pub fn has_next(&self, fm: &FileMgr) -> (r: bool)
        requires
            self.wf(*fm),
        ensures
            r == (self.spec_pos() < fm.spec_blocksize() || self.spec_blk() > 0),
    {
        self.current_pos < fm.blocksize() || self.blk > 0
    }

    /// Yields the next (older) record, descending to the previous block when
    /// the current one is exhausted.
    pub fn next(&mut self, fm: &FileMgr) -> (r: Option<Vec<u8>>)
        requires
            old(self).wf(*fm),
        ensures
            final(self).wf(*fm),
            final(self).spec_logfile() == old(self).spec_logfile(),
            old(self).remaining().len() > 0 ==> (r matches Some(v) && v@ == old(
                self,
            ).remaining()[0] && final(self).remaining() == old(self).remaining().drop_first()),
            old(self).remaining().len() == 0 ==> r is None && final(self).remaining()
                == old(self).remaining(),
    {
        let bs = fm.blocksize();
        let ghost file = fm.file_of(self.logfile@);
        if !(self.current_pos < bs || self.blk > 0) {
            return None;
        }
        if self.current_pos == bs {
            // descend to the previous block and continue at its boundary
            let prev = BlockId::new(self.logfile.as_str(), self.blk - 1);
            let unit = fm.read(&prev, &mut self.p);
            if unit.is_err() {
                return None;
            }
            self.blk = self.blk - 1;
            let bd = match self.p.get_i32(0) {
                Ok(v) => v,
                Err(_) => 0,
            };
            if bd < 0 || bd >= (bs as i32) {
                // nothing can be read from such a boundary: park past the end
                self.current_pos = bs + 1;
                self.boundary = bs + 1;
                proof {
                    self.rem = Ghost(Seq::empty());
                    assert(spec_iter_records(file, bs as int, self.blk as int, bs + 1)
                        =~= Seq::<Seq<u8>>::empty());
                }
                return None;
            }
            self.current_pos = bd as usize;
            self.boundary = bd as usize;
            proof {
                self.rem = Ghost(
                    spec_iter_records(file, bs as int, self.blk as int, self.current_pos as int),
                );
            }
        }
        match self.p.get_bytes(self.current_pos) {
            Ok(rec) => {
                let step = 4 + rec.len();
                proof {
                    let pos = self.current_pos as int;
                    let b = fm.spec_block_at(self.logfile@, self.blk as int);
                    assert(b.subrange(pos, pos + 4) == self.p@.subrange(pos, pos + 4));
                }
                self.current_pos = self.current_pos + step;
                proof {
                    self.rem = Ghost(self.rem@.drop_first());
                    assert(spec_iter_records(file, bs as int, self.blk as int,
                        (self.current_pos - step) as int).drop_first() =~= spec_iter_records(
                        file,
                        bs as int,
                        self.blk as int,
                        self.current_pos as int,
                    ));
                }
                Some(rec)
            },
            Err(_) => {
                None
            },
        }
    }
}

} // verus!
