//! The log manager: appends records into the current log block and flushes
//! blocks to the store by log sequence number.
//!
//! Within a block, records grow from the high end toward the low end. Bytes
//! 0..4 of each block hold the *boundary*: the offset of the most recently
//! written record. A record is written at `boundary - (4 + len)` as a
//! length-prefixed byte string, and the boundary word is updated to point at
//! it. Reading a block therefore yields its records newest first; reading
//! blocks from the highest number down yields the whole log newest first.

use vstd::prelude::*;
use crate::errors::DbError;
use crate::file::block_id::BlockId;
use crate::file::manager::{
    lemma_block_frame, lemma_block_roundtrip, spec_block_of, spec_write_block, FileMgr,
};
use crate::file::page::{spec_i32_from_be, spec_len_prefixed, Page};
use crate::log::iterator::LogIterator;

verus! {

/// The boundary word of a log block: where its newest record starts.
pub open spec fn spec_boundary(b: Seq<u8>) -> int {
    spec_i32_from_be(b.subrange(0, 4)) as int
}

/// The records a log reader yields from the state (block `blk`, position
/// `pos`), newest first. A read stops at the boundary word, at a length
/// field that does not fit the block, and below block zero; moving to an
/// earlier block continues at that block's boundary, and stops if the
/// boundary leaves no record to read.
pub open spec fn spec_iter_records(file: Seq<u8>, bs: int, blk: int, pos: int) -> Seq<Seq<u8>>
    decreases blk, bs - pos,
{
    if blk < 0 {
        Seq::empty()
    } else if pos == bs && blk > 0 {
        let b = spec_block_of(file, blk - 1, bs);
        let bd = spec_boundary(b);
        if bd < 0 || bd >= bs {
            Seq::empty()
        } else {
            spec_iter_records(file, bs, blk - 1, bd)
        }
    } else if pos == bs {
        Seq::empty()
    } else if pos < 0 || pos + 4 > bs {
        Seq::empty()
    } else {
        let b = spec_block_of(file, blk, bs);
        let l = spec_i32_from_be(b.subrange(pos, pos + 4));
        if l < 0 || pos + 4 + l > bs {
            Seq::empty()
        } else {
            seq![b.subrange(pos + 4, pos + 4 + l)] + spec_iter_records(file, bs, blk, pos + 4 + l)
        }
    }
}

/// The whole log of `file`, read from block `current` downward starting at
/// its boundary: the records in newest-to-oldest order.
pub open spec fn spec_log_records(file: Seq<u8>, bs: int, current: int) -> Seq<Seq<u8>> {
    spec_iter_records(file, bs, current, spec_boundary(spec_block_of(file, current, bs)))
}

/// What a log reader yields depends only on the blocks at and below its
/// position, and within its block only on the bytes at and above it.
pub proof fn lemma_iter_frame(f1: Seq<u8>, f2: Seq<u8>, bs: int, blk: int, pos: int)
    requires
        bs >= 1,
        forall|j: int| 0 <= j < blk ==> #[trigger] spec_block_of(f1, j, bs) == spec_block_of(
            f2,
            j,
            bs,
        ),
        forall|i: int| pos <= i < bs ==> #[trigger] spec_block_of(f1, blk, bs)[i]
            == spec_block_of(f2, blk, bs)[i],
    ensures
        spec_iter_records(f1, bs, blk, pos) == spec_iter_records(f2, bs, blk, pos),
    decreases blk, bs - pos,
{
    if blk < 0 {
    } else if pos == bs && blk > 0 {
        let b1 = spec_block_of(f1, blk - 1, bs);
        let b2 = spec_block_of(f2, blk - 1, bs);
        assert(b1 == b2);
        let bd = spec_boundary(b1);
        if bd < 0 || bd >= bs {
        } else {
            assert(forall|i: int| bd <= i < bs ==> #[trigger] spec_block_of(f1, blk - 1, bs)[i]
                == spec_block_of(f2, blk - 1, bs)[i]);
            lemma_iter_frame(f1, f2, bs, blk - 1, bd);
        }
    } else if pos == bs {
    } else if pos < 0 || pos + 4 > bs {
    } else {
        let b1 = spec_block_of(f1, blk, bs);
        let b2 = spec_block_of(f2, blk, bs);
        assert(b1.subrange(pos, pos + 4) =~= b2.subrange(pos, pos + 4));
        let l = spec_i32_from_be(b1.subrange(pos, pos + 4));
        if l < 0 || pos + 4 + l > bs {
        } else {
            assert(b1.subrange(pos + 4, pos + 4 + l) =~= b2.subrange(pos + 4, pos + 4 + l));
            lemma_iter_frame(f1, f2, bs, blk, pos + 4 + l);
        }
    }
}

/// Replacing a block of a file with the very bytes that block already reads
/// as does not change what a log reader yields.
proof fn lemma_vfile_eq(file: Seq<u8>, bs: int, current: int, page: Seq<u8>, pos: int)
    requires
        bs >= 1,
        0 <= current,
        page.len() == bs,
        spec_block_of(file, current, bs) == page,
    ensures
        spec_iter_records(spec_write_block(file, current, bs, page), bs, current, pos)
            == spec_iter_records(file, bs, current, pos),
{
    let v = spec_write_block(file, current, bs, page);
    assert forall|j: int| 0 <= j < current implies #[trigger] spec_block_of(v, j, bs)
        == spec_block_of(file, j, bs) by {
        lemma_block_frame(file, current, bs, page, j);
    }
    lemma_block_roundtrip(file, current, bs, page);
    lemma_iter_frame(v, file, bs, current, pos);
}

/// Extending a file at its end leaves the blocks it already covered
/// unchanged.
proof fn lemma_block_extend(file: Seq<u8>, ext: Seq<u8>, bs: int, j: int)
    requires
        bs >= 1,
        0 <= j,
        (j + 1) * bs <= file.len(),
    ensures
        spec_block_of(file + ext, j, bs) == spec_block_of(file, j, bs),
{
    assert((j + 1) * bs == j * bs + bs) by (nonlinear_arith);
    assert(j * bs >= 0) by (nonlinear_arith)
        requires 0 <= j && bs >= 1,
    ;
    assert(spec_block_of(file + ext, j, bs) =~= spec_block_of(file, j, bs));
}

/// Log ordering: appends are read back in reverse order. A log that held
/// `older` and then took `rec` (as `append` ensures) is read newest record
/// first (as `iterator` ensures): `rec` comes out at once, then `older` in
/// its own read-back order.
pub proof fn lemma_append_iterate_lifo(older: Seq<Seq<u8>>, rec: Seq<u8>)
    ensures
        (seq![rec] + older)[0] == rec,
        (seq![rec] + older).skip(1) == older,
        (seq![rec] + older).len() == older.len() + 1,
{
    assert((seq![rec] + older).skip(1) =~= older);
}

/// The log manager. It holds the current (highest-numbered) log block in
/// memory and tracks which appended records have reached the store.
pub struct LogMgr {
    logfile: String,
    logpage: Page,
    current_blk: u64,
    latest_lsn: u64,
    last_saved_lsn: u64,
    records: Ghost<Seq<Seq<u8>>>,
    durable: Ghost<Seq<Seq<u8>>>,
}

impl LogMgr {
    /// The log file's name.
    pub closed spec fn spec_logfile(self) -> Seq<char> {
        self.logfile@
    }

    /// Every record the log holds, newest first, including those read back
    /// from an existing log file at construction.
    pub closed spec fn spec_records(self) -> Seq<Seq<u8>> {
        self.records@
    }

    /// The records that have reached the store, newest first: what survives
    /// a crash.
    pub closed spec fn spec_durable(self) -> Seq<Seq<u8>> {
        self.durable@
    }

    pub closed spec fn spec_latest_lsn(self) -> u64 {
        self.latest_lsn
    }

    pub closed spec fn spec_last_saved_lsn(self) -> u64 {
        self.last_saved_lsn
    }

    /// The number of records the log held when this manager was opened.
    /// Session LSNs count appends on top of that base.
    pub open spec fn spec_base(self) -> int {
        self.spec_records().len() - self.spec_latest_lsn()
    }

    /// Whether every record with session LSN at most `j` has reached the
    /// store.
    pub open spec fn spec_saved_through(self, j: u64) -> bool {
        self.spec_base() + j <= self.spec_durable().len()
    }

    /// The current log block as the manager would write it to the store.
    pub closed spec fn spec_vfile(self, fm: FileMgr) -> Seq<u8> {
        spec_write_block(
            fm.file_of(self.logfile@),
            self.current_blk as int,
            fm.spec_blocksize(),
            self.logpage@,
        )
    }

    pub closed spec fn inv(self, fm: FileMgr) -> bool {
        let bs = fm.spec_blocksize();
        &&& fm.wf()
        &&& 8 <= bs <= i32::MAX
        &&& self.logpage@.len() == bs
        &&& 4 <= spec_boundary(self.logpage@) <= bs
        &&& fm.spec_nblocks(self.logfile@) == self.current_blk + 1
        &&& self.records@ == spec_iter_records(
            self.spec_vfile(fm),
            bs,
            self.current_blk as int,
            spec_boundary(self.logpage@),
        )
        &&& self.durable@ == spec_log_records(
            fm.file_of(self.logfile@),
            bs,
            self.current_blk as int,
        )
        &&& self.durable@.len() <= self.records@.len()
        &&& self.records@.skip(self.records@.len() - self.durable@.len()) == self.durable@
        &&& self.latest_lsn <= self.records@.len()
        &&& self.last_saved_lsn <= self.latest_lsn
        &&& self.spec_saved_through(self.last_saved_lsn)
    }

    /// The boundary of the in-memory log block: records below it are free
    /// space, so a record fits the block exactly when its length-prefixed
    /// bytes fit above offset 4.
    pub closed spec fn spec_boundary_of(self) -> int {
        spec_boundary(self.logpage@)
    }

    /// Saved LSNs never run ahead of appended ones.
    pub proof fn lemma_lsn_order(self, fm: FileMgr)
        requires
            self.inv(fm),
        ensures
            self.spec_last_saved_lsn() <= self.spec_latest_lsn(),
    {
    }

    /// The log file's name, for callers that must keep data blocks away
    /// from it.
    pub fn logfile(&self) -> (r: &String)
        ensures
            r@ == self.spec_logfile(),
    {
        &self.logfile
    }

    /// The invariant guarantees a well-formed store with a block size the
    /// page layer can carry.
    pub proof fn lemma_inv_wf(self, fm: FileMgr)
        requires
            self.inv(fm),
        ensures
            fm.wf(),
            8 <= fm.spec_blocksize() <= i32::MAX,
    {
    }

    /// The invariant reads only the log file's bytes and the block size, so
    /// any store change that leaves both alone preserves it.
    pub proof fn lemma_inv_preserved(self, fm1: FileMgr, fm2: FileMgr)
        requires
            self.inv(fm1),
            fm2.wf(),
            fm2.spec_blocksize() == fm1.spec_blocksize(),
            fm2.file_of(self.spec_logfile()) == fm1.file_of(self.spec_logfile()),
        ensures
            self.inv(fm2),
    {
    }

    /// Opens the log of `logfile`. An empty log gets one zeroed block whose
    /// boundary is the block size; otherwise the last existing block is read
    /// in, and a block whose boundary word is corrupt is refused.
    pub fn new(fm: &mut FileMgr, logfile: &str) -> (r: Result<Self, DbError>)
        requires
            old(fm).wf(),
            8 <= old(fm).spec_blocksize() <= i32::MAX,
        ensures
            final(fm).wf(),
            final(fm).spec_blocksize() == old(fm).spec_blocksize(),
            final(fm).spec_is_new() == old(fm).spec_is_new(),
            forall|m: Seq<char>| m != logfile@ ==> #[trigger] final(fm).file_of(m) == old(
                fm,
            ).file_of(m),
            forall|m: Seq<char>| m != logfile@ ==> #[trigger] final(fm).has_file(m) == old(
                fm,
            ).has_file(m),
            r matches Ok(lm) ==> lm.inv(*final(fm)) && lm.spec_logfile() == logfile@
                && lm.spec_latest_lsn() == 0 && lm.spec_last_saved_lsn() == 0
                && lm.spec_durable() == lm.spec_records(),
            old(fm).spec_nblocks(logfile@) == 0 ==> (r matches Ok(lm) && lm.spec_records()
                == Seq::<Seq<u8>>::empty()) && final(fm).spec_nblocks(logfile@) == 1
                && spec_boundary(final(fm).spec_block_at(logfile@, 0)) == old(
                fm,
            ).spec_blocksize(),
            old(fm).spec_nblocks(logfile@) > 0 ==> *final(fm) == *old(fm) && {
                let bd = spec_boundary(
                    old(fm).spec_block_at(logfile@, old(fm).spec_nblocks(logfile@) - 1),
                );
                &&& (4 <= bd <= old(fm).spec_blocksize()) <==> r is Ok
                &&& !(4 <= bd <= old(fm).spec_blocksize()) ==> r == Err::<LogMgr, DbError>(
                    DbError::UnknownLogRecord,
                )
                &&& r matches Ok(lm) ==> lm.spec_records() == spec_log_records(
                    old(fm).file_of(logfile@),
                    old(fm).spec_blocksize(),
                    old(fm).spec_nblocks(logfile@) - 1,
                )
            },
    {
        let bs = fm.blocksize();
        let logsize = match fm.length(logfile) {
            Ok(n) => n,
            Err(e) => {
                return Err(e);
            },
        };
        if logsize == 0 {
            let ghost oldfile = fm.file_of(logfile@);
            proof {
                fm.lemma_file_len(logfile@);
                assert(oldfile.len() == 0) by (nonlinear_arith)
                    requires
                        oldfile.len() as int % (bs as int) == 0,
                        oldfile.len() as int / (bs as int) == 0,
                        bs >= 1,
                ;
            }
            let blk = match fm.append(logfile) {
                Ok(b) => b,
                Err(e) => {
                    return Err(e);
                },
            };
            let mut logpage = Page::new_from_size(bs);
            let _ = logpage.set_i32(0, bs as i32);
            proof {
                crate::file::page::lemma_i32_be_roundtrip(bs as i32);
                assert(logpage@.subrange(0, 4) =~= crate::file::page::spec_i32_to_be(bs as i32));
                assert(spec_boundary(logpage@) == bs);
                assert(0 < usize::MAX as int / (bs as int)) by (nonlinear_arith)
                    requires 1 <= bs <= usize::MAX,
                ;
            }
            let _ = fm.write(&blk, &logpage);
            let lm = Self {
                logfile: logfile.to_owned(),
                logpage,
                current_blk: 0,
                latest_lsn: 0,
                last_saved_lsn: 0,
                records: Ghost(Seq::empty()),
                durable: Ghost(Seq::empty()),
            };
            proof {
                let file = fm.file_of(logfile@);
                assert(file.len() as int / (bs as int) == 1) by (nonlinear_arith)
                    requires
                        bs >= 1,
                        file.len() == bs,
                ;
                lemma_block_roundtrip(oldfile + Seq::new(bs as nat, |i: int| 0u8), 0, bs as int,
                    lm.logpage@);
                assert(spec_iter_records(lm.spec_vfile(*fm), bs as int, 0, bs as int)
                    =~= Seq::<Seq<u8>>::empty());
                assert(spec_block_of(file, 0, bs as int) == lm.logpage@) by {
                    lemma_block_roundtrip(oldfile + Seq::new(bs as nat, |i: int| 0u8), 0,
                        bs as int, lm.logpage@);
                    assert(file == spec_write_block(oldfile + Seq::new(bs as nat, |i: int| 0u8),
                        0, bs as int, lm.logpage@));
                }
                assert(spec_log_records(file, bs as int, 0) =~= Seq::<Seq<u8>>::empty());
                assert(lm.records@.skip(0) =~= lm.records@);
            }
            Ok(lm)
        } else {
            let current = logsize - 1;
            let blk = BlockId::new(logfile, current);
            let mut logpage = Page::new_from_size(bs);
            let _ = fm.read(&blk, &mut logpage);
            let bd = match logpage.get_i32(0) {
                Ok(v) => v,
                Err(_) => {
                    return Err(DbError::UnknownLogRecord);
                },
            };
            if bd < 4 || bd > (bs as i32) {
                return Err(DbError::UnknownLogRecord);
            }
            let ghost file = fm.file_of(logfile@);
            let lm = Self {
                logfile: logfile.to_owned(),
                logpage,
                current_blk: current,
                latest_lsn: 0,
                last_saved_lsn: 0,
                records: Ghost(spec_log_records(fm.file_of(logfile@), bs as int, current as int)),
                durable: Ghost(spec_log_records(fm.file_of(logfile@), bs as int, current as int)),
            };
            proof {
                assert(0 <= current as int * (bs as int)) by (nonlinear_arith)
                    requires bs >= 1 && current >= 0,
                ;
                lemma_vfile_eq(file, bs as int, current as int, lm.logpage@,
                    spec_boundary(lm.logpage@));
                assert(lm.records@.skip(0) =~= lm.records@);
            }
            Ok(lm)
        }
    }

    /// Writes the in-memory log block to the store, making every appended
    /// record durable.
    fn flush_to_fm(&mut self, fm: &mut FileMgr) -> (r: Result<(), DbError>)
        requires
            old(self).inv(*old(fm)),
        ensures
            final(self).inv(*final(fm)),
            r == Ok::<(), DbError>(()),
            final(self).spec_logfile() == old(self).spec_logfile(),
            final(self).spec_records() == old(self).spec_records(),
            final(self).spec_durable() == final(self).spec_records(),
            final(self).spec_latest_lsn() == old(self).spec_latest_lsn(),
            final(self).spec_last_saved_lsn() == old(self).spec_last_saved_lsn(),
            final(self).spec_boundary_of() == old(self).spec_boundary_of(),
            final(self).logpage@ == old(self).logpage@,
            final(self).current_blk == old(self).current_blk,
            final(fm).spec_blocksize() == old(fm).spec_blocksize(),
            final(fm).spec_is_new() == old(fm).spec_is_new(),
            final(fm).spec_block_at(final(self).spec_logfile(), final(self).current_blk as int)
                == final(self).logpage@,
            final(fm).file_of(final(self).spec_logfile()).len() == old(fm).file_of(
                old(self).spec_logfile(),
            ).len(),
            forall|m: Seq<char>| m != old(self).spec_logfile() ==> #[trigger] final(fm).file_of(m)
                == old(fm).file_of(m),
            forall|m: Seq<char>| m != old(self).spec_logfile() ==> #[trigger] final(fm).has_file(
                m,
            ) == old(fm).has_file(m),
    {
        let bs = fm.blocksize();
        let ghost file = fm.file_of(self.logfile@);
        let ghost current = self.current_blk as int;
        proof {
            fm.lemma_file_len(self.logfile@);
            vstd::arithmetic::div_mod::lemma_fundamental_div_mod(file.len() as int, bs as int);
            assert(file.len() == (current + 1) * (bs as int));
            assert(file.len() as int / (bs as int) <= usize::MAX as int / (bs as int))
                by (nonlinear_arith)
                requires
                    bs >= 1,
                    file.len() <= usize::MAX,
            ;
        }
        let blk = BlockId::new(self.logfile.as_str(), self.current_blk);
        let _ = fm.write(&blk, &self.logpage);
        proof {
            let file2 = fm.file_of(self.logfile@);
            assert(file2 == spec_write_block(file, current, bs as int, self.logpage@));
            assert(file2.len() == file.len());
            // the store now holds exactly the virtual log
            lemma_block_roundtrip(file, current, bs as int, self.logpage@);
            assert forall|j: int| 0 <= j < current implies #[trigger] spec_block_of(
                file2,
                j,
                bs as int,
            ) == spec_block_of(self.spec_vfile(*old(fm)), j, bs as int) by {
                lemma_block_frame(file, current, bs as int, self.logpage@, j);
            }
            lemma_iter_frame(file2, self.spec_vfile(*old(fm)), bs as int, current,
                spec_boundary(self.logpage@));
            self.durable = Ghost(self.records@);
            // the new virtual log still reads back the same records
            lemma_vfile_eq(file2, bs as int, current, self.logpage@, spec_boundary(self.logpage@));
            assert(self.records@.skip(0) =~= self.records@);
        }
        Ok(())
    }

    /// Starts a fresh log block after the current one, which must already be
    /// flushed and must hold at least one record.
    fn append_newblk(&mut self, fm: &mut FileMgr) -> (r: Result<(), DbError>)
        requires
            old(self).inv(*old(fm)),
            old(fm).spec_block_at(old(self).logfile@, old(self).current_blk as int) == old(
                self,
            ).logpage@,
            4 <= spec_boundary(old(self).logpage@) < old(fm).spec_blocksize(),
            old(self).durable@ == old(self).records@,
        ensures
            final(self).inv(*final(fm)),
            final(self).spec_logfile() == old(self).spec_logfile(),
            final(self).spec_records() == old(self).spec_records(),
            final(self).spec_durable() == final(self).spec_records(),
            final(self).spec_latest_lsn() == old(self).spec_latest_lsn(),
            final(self).spec_last_saved_lsn() == old(self).spec_last_saved_lsn(),
            final(fm).spec_blocksize() == old(fm).spec_blocksize(),
            final(fm).spec_is_new() == old(fm).spec_is_new(),
            forall|m: Seq<char>| m != old(self).spec_logfile() ==> #[trigger] final(fm).file_of(m)
                == old(fm).file_of(m),
            forall|m: Seq<char>| m != old(self).spec_logfile() ==> #[trigger] final(fm).has_file(
                m,
            ) == old(fm).has_file(m),
            old(fm).file_of(old(self).spec_logfile()).len() + old(fm).spec_blocksize()
                <= usize::MAX ==> r == Ok::<(), DbError>(()) && final(self).spec_boundary_of()
                == final(fm).spec_blocksize(),
            old(fm).file_of(old(self).spec_logfile()).len() + old(fm).spec_blocksize()
                > usize::MAX ==> r == Err::<(), DbError>(DbError::FileAccessFailed),
    {
        let bs = fm.blocksize();
        let ghost file = fm.file_of(self.logfile@);
        let ghost current = self.current_blk as int;
        let ghost oldpage = self.logpage@;
        let ghost bd = spec_boundary(self.logpage@);
        proof {
            fm.lemma_file_len(self.logfile@);
            vstd::arithmetic::div_mod::lemma_fundamental_div_mod(file.len() as int, bs as int);
            assert(file.len() == (current + 1) * (bs as int));
        }
        let blk = match fm.append(self.logfile.as_str()) {
            Ok(b) => b,
            Err(e) => {
                return Err(e);
            },
        };
        let ghost file2 = fm.file_of(self.logfile@);
        let _ = self.logpage.set_i32(0, bs as i32);
        proof {
            crate::file::page::lemma_i32_be_roundtrip(bs as i32);
            assert(self.logpage@.subrange(0, 4) =~= crate::file::page::spec_i32_to_be(bs as i32));
            assert(spec_boundary(self.logpage@) == bs);
            assert(file2.len() == (current + 2) * (bs as int)) by (nonlinear_arith)
                requires
                    file2.len() == file.len() + bs,
                    file.len() == (current + 1) * (bs as int),
            ;
            assert(current + 1 < usize::MAX as int / (bs as int)) by (nonlinear_arith)
                requires
                    bs >= 1,
                    0 <= current,
                    (current + 2) * (bs as int) <= usize::MAX,
            ;
        }
        let _ = fm.write(&blk, &self.logpage);
        self.current_blk = self.current_blk + 1;
        proof {
            self.durable = Ghost(self.records@);
            let file3 = fm.file_of(self.logfile@);
            assert(file3 == spec_write_block(file2, current + 1, bs as int, self.logpage@));
            // the store's blocks at and below the old current block are untouched
            lemma_block_roundtrip(file2, current + 1, bs as int, self.logpage@);
            assert forall|j: int| 0 <= j <= current implies #[trigger] spec_block_of(
                file3,
                j,
                bs as int,
            ) == spec_block_of(file, j, bs as int) by {
                lemma_block_frame(file2, current + 1, bs as int, self.logpage@, j);
                assert((j + 1) * (bs as int) <= file.len()) by (nonlinear_arith)
                    requires
                        0 <= j <= current,
                        bs >= 1,
                        file.len() == (current + 1) * (bs as int),
                ;
                lemma_block_extend(file, Seq::new(bs as nat, |i: int| 0u8), bs as int, j);
            }
            // reading the new virtual log descends into the old current block
            // and yields exactly the old records
            lemma_vfile_eq(file3, bs as int, current + 1, self.logpage@, bs as int);
            let oldvfile = spec_write_block(file, current, bs as int, oldpage);
            lemma_block_roundtrip(file, current, bs as int, oldpage);
            assert(spec_block_of(file3, current, bs as int) == spec_block_of(
                oldvfile,
                current,
                bs as int,
            ));
            assert forall|j: int| 0 <= j < current implies #[trigger] spec_block_of(
                file3,
                j,
                bs as int,
            ) == spec_block_of(oldvfile, j, bs as int) by {
                lemma_block_frame(file, current, bs as int, oldpage, j);
            }
            lemma_iter_frame(file3, oldvfile, bs as int, current, bd);
            assert(spec_iter_records(file3, bs as int, current + 1, bs as int)
                == self.records@);
            // the durable view starts at the fresh block's boundary and takes
            // the same path
            assert(spec_log_records(file3, bs as int, current + 1) == self.records@);
            assert(self.records@.skip(0) =~= self.records@);
            assert(file3.len() == file2.len());
            assert(file3.len() as int / (bs as int) == current + 2) by (nonlinear_arith)
                requires
                    bs >= 1,
                    file3.len() == (current + 2) * (bs as int),
            ;
        }
        Ok(())
    }

    /// Appends a record and returns its log sequence number. The record must
    /// fit a block beside the boundary word and one length prefix.
    #[verifier::rlimit(100)]
    pub fn append(&mut self, fm: &mut FileMgr, logrec: &Vec<u8>) -> (r: Result<u64, DbError>)
        requires
            old(self).inv(*old(fm)),
            logrec@.len() + 8 <= old(fm).spec_blocksize(),
            old(self).spec_latest_lsn() < u64::MAX,
        ensures
            final(self).inv(*final(fm)),
            final(self).spec_logfile() == old(self).spec_logfile(),
            final(self).spec_last_saved_lsn() == old(self).spec_last_saved_lsn(),
            final(fm).spec_blocksize() == old(fm).spec_blocksize(),
            final(fm).spec_is_new() == old(fm).spec_is_new(),
            forall|m: Seq<char>| m != old(self).spec_logfile() ==> #[trigger] final(fm).file_of(m)
                == old(fm).file_of(m),
            forall|m: Seq<char>| m != old(self).spec_logfile() ==> #[trigger] final(fm).has_file(
                m,
            ) == old(fm).has_file(m),
            (old(self).spec_boundary_of() >= logrec@.len() + 8 || old(fm).file_of(
                old(self).spec_logfile(),
            ).len() + old(fm).spec_blocksize() <= usize::MAX) <==> r is Ok,
            r matches Ok(lsn) ==> {
                &&& lsn == old(self).spec_latest_lsn() + 1
                &&& final(self).spec_latest_lsn() == lsn
                &&& final(self).spec_records() == seq![logrec@] + old(self).spec_records()
                &&& (final(self).spec_durable() == old(self).spec_durable()
                    || final(self).spec_durable() == old(self).spec_records())
            },
            r is Err ==> r == Err::<u64, DbError>(DbError::FileAccessFailed)
                && final(self).spec_records() == old(self).spec_records()
                && final(self).spec_latest_lsn() == old(self).spec_latest_lsn()
                && final(self).spec_durable() == old(self).spec_records(),
    {
        let bs = fm.blocksize();
        let bd0 = match self.logpage.get_i32(0) {
            Ok(v) => v,
            Err(_) => 0,
        };
        let mut boundary = bd0 as usize;
        let recsize = logrec.len();
        let bytes_needed = recsize + 4;
        if boundary < bytes_needed + 4 {
            let _ = self.flush_to_fm(fm);
            match self.append_newblk(fm) {
                Ok(_) => {},
                Err(e) => {
                    return Err(e);
                },
            }
            boundary = fm.blocksize();
        }
        let ghost p1 = self.logpage@;
        let ghost current = self.current_blk as int;
        let ghost file = fm.file_of(self.logfile@);
        let ghost oldrecs = self.records@;
        let recpos = boundary - bytes_needed;
        let _ = self.logpage.set_bytes(recpos, logrec.as_slice());
        let ghost p2 = self.logpage@;
        let _ = self.logpage.set_i32(0, recpos as i32);
        let ghost p3 = self.logpage@;
        self.latest_lsn = self.latest_lsn + 1;
        proof {
            let ghost olddur = self.durable@;
            self.records = Ghost(seq![logrec@] + oldrecs);
            crate::file::page::lemma_i32_be_roundtrip(recpos as i32);
            crate::file::page::lemma_i32_be_roundtrip(recsize as i32);
            assert(p3.subrange(0, 4) =~= crate::file::page::spec_i32_to_be(recpos as i32));
            assert(spec_boundary(p3) == recpos);
            let vf3 = spec_write_block(file, current, bs as int, p3);
            let vf1 = spec_write_block(file, current, bs as int, p1);
            lemma_block_roundtrip(file, current, bs as int, p3);
            lemma_block_roundtrip(file, current, bs as int, p1);
            // the length prefix and the record bytes read back as written
            assert(p3.subrange(recpos as int, recpos + 4) =~= crate::file::page::spec_i32_to_be(
                recsize as i32,
            ));
            assert(p3.subrange(recpos + 4, recpos + 4 + recsize) =~= logrec@);
            // above the old boundary nothing changed
            assert forall|j: int| 0 <= j < current implies #[trigger] spec_block_of(
                vf3,
                j,
                bs as int,
            ) == spec_block_of(vf1, j, bs as int) by {
                lemma_block_frame(file, current, bs as int, p3, j);
                lemma_block_frame(file, current, bs as int, p1, j);
            }
            assert(forall|i: int| boundary <= i < bs ==> p3[i] == p1[i]);
            lemma_iter_frame(vf3, vf1, bs as int, current, boundary as int);
            assert(spec_iter_records(vf3, bs as int, current, recpos as int) == seq![logrec@]
                + spec_iter_records(vf1, bs as int, current, boundary as int));
            assert(self.records@ == spec_iter_records(vf3, bs as int, current, recpos as int));
            // the durable suffix is untouched: only newer records were added
            assert(self.records@.skip(self.records@.len() - olddur.len()) =~= oldrecs.skip(
                oldrecs.len() - olddur.len(),
            ));
        }
        Ok(self.latest_lsn)
    }

    /// Makes the log durable through `lsn`: if any record at or after it is
    /// unsaved, the current block is written out and every appended record
    /// becomes durable.
    pub fn flush(&mut self, fm: &mut FileMgr, lsn: u64) -> (r: Result<(), DbError>)
        requires
            old(self).inv(*old(fm)),
        ensures
            final(self).inv(*final(fm)),
            r == Ok::<(), DbError>(()),
            final(self).spec_logfile() == old(self).spec_logfile(),
            final(self).spec_records() == old(self).spec_records(),
            final(self).spec_latest_lsn() == old(self).spec_latest_lsn(),
            final(fm).spec_blocksize() == old(fm).spec_blocksize(),
            final(fm).spec_is_new() == old(fm).spec_is_new(),
            forall|m: Seq<char>| m != old(self).spec_logfile() ==> #[trigger] final(fm).file_of(m)
                == old(fm).file_of(m),
            forall|m: Seq<char>| m != old(self).spec_logfile() ==> #[trigger] final(fm).has_file(
                m,
            ) == old(fm).has_file(m),
            final(fm).file_of(old(self).spec_logfile()).len() == old(fm).file_of(
                old(self).spec_logfile(),
            ).len(),
            final(self).spec_durable().len() >= old(self).spec_durable().len(),
            lsn >= old(self).spec_last_saved_lsn() ==> final(self).spec_durable()
                == final(self).spec_records() && final(self).spec_last_saved_lsn()
                == final(self).spec_latest_lsn(),
            lsn < old(self).spec_last_saved_lsn() ==> *final(self) == *old(self) && *final(fm)
                == *old(fm),
            lsn <= final(self).spec_latest_lsn() ==> final(self).spec_saved_through(lsn),
    {
        if lsn >= self.last_saved_lsn {
            proof {
                self.lemma_durable_suffix(*fm);
            }
            let _ = self.flush_to_fm(fm);
            self.last_saved_lsn = self.latest_lsn;
        }
        Ok(())
    }

    /// What has reached the store never shrinks when the current block is
    /// written out: the durable records are a suffix of all records.
    pub proof fn lemma_durable_suffix(self, fm: FileMgr)
        requires
            self.inv(fm),
        ensures
            self.spec_durable().len() <= self.spec_records().len(),
    {
    }

    /// Flushes everything and returns an iterator positioned at the newest
    /// record: it yields every record of the log, newest first.
    pub fn iterator(&mut self, fm: &mut FileMgr) -> (r: Result<LogIterator, DbError>)
        requires
            old(self).inv(*old(fm)),
        ensures
            final(self).inv(*final(fm)),
            final(self).spec_logfile() == old(self).spec_logfile(),
            final(self).spec_records() == old(self).spec_records(),
            final(self).spec_durable() == final(self).spec_records(),
            final(self).spec_latest_lsn() == old(self).spec_latest_lsn(),
            final(self).spec_last_saved_lsn() == old(self).spec_last_saved_lsn(),
            final(fm).spec_blocksize() == old(fm).spec_blocksize(),
            final(fm).spec_is_new() == old(fm).spec_is_new(),
            forall|m: Seq<char>| m != old(self).spec_logfile() ==> #[trigger] final(fm).file_of(m)
                == old(fm).file_of(m),
            forall|m: Seq<char>| m != old(self).spec_logfile() ==> #[trigger] final(fm).has_file(
                m,
            ) == old(fm).has_file(m),
            final(fm).file_of(old(self).spec_logfile()).len() == old(fm).file_of(
                old(self).spec_logfile(),
            ).len(),
            r matches Ok(it) && it.wf(*final(fm)) && it.spec_logfile()
                == final(self).spec_logfile() && it.remaining() == final(self).spec_records(),
    {
        let _ = self.flush_to_fm(fm);
        let blk = BlockId::new(self.logfile.as_str(), self.current_blk);
        let it = match LogIterator::new(fm, blk) {
            Ok(it) => it,
            Err(e) => {
                // the invariant makes the iterator's requirements hold
                proof {
                    assert(false);
                }
                return Err(e);
            },
        };
        proof {
            let bs = fm.spec_blocksize();
            let file = fm.file_of(self.logfile@);
            let current = self.current_blk as int;
            lemma_vfile_eq(file, bs, current, self.logpage@, spec_boundary(self.logpage@));
            assert(spec_boundary(spec_block_of(file, current, bs)) == spec_boundary(
                self.logpage@,
            ));
        }
        Ok(it)
    }
}

} // verus!
