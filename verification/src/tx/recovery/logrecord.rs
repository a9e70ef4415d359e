//! The log records: tagged, self-describing byte strings. The first four
//! bytes of every record are a big-endian tag; update records carry the
//! *old* value of the bytes they describe (undo-only logging).

use vstd::prelude::*;
use vstd::utf8::encode_utf8;
use crate::errors::DbError;
use crate::file::block_id::BlockId;
use crate::file::manager::FileMgr;
use crate::file::page::{spec_i32_to_be, spec_i32_from_be, spec_len_prefixed, Page};
use crate::log::manager::LogMgr;

verus! {

/// The record tags, in their on-disk order.
#[allow(non_camel_case_types)]
#[derive(Clone, Copy, Debug, PartialEq, Eq, Structural)]
pub enum TxType {
    CHECKPOINT,
    START,
    COMMIT,
    ROLLBACK,
    SETI32,
    SETSTRING,
}

/// The tag of an encoded record: its first four bytes.
pub open spec fn spec_tag(b: Seq<u8>) -> int {
    spec_i32_from_be(b.subrange(0, 4)) as int
}

/// The encoding of a CHECKPOINT record.
pub open spec fn spec_checkpoint_rec() -> Seq<u8> {
    spec_i32_to_be(0)
}

/// The encoding of a START record.
pub open spec fn spec_start_rec(txnum: i32) -> Seq<u8> {
    spec_i32_to_be(1) + spec_i32_to_be(txnum)
}

/// The encoding of a COMMIT record.
pub open spec fn spec_commit_rec(txnum: i32) -> Seq<u8> {
    spec_i32_to_be(2) + spec_i32_to_be(txnum)
}

/// The encoding of a ROLLBACK record.
pub open spec fn spec_rollback_rec(txnum: i32) -> Seq<u8> {
    spec_i32_to_be(3) + spec_i32_to_be(txnum)
}

/// The encoding of a SETI32 record: who wrote, where, and the old value.
pub open spec fn spec_seti32_rec(
    txnum: i32,
    file: Seq<char>,
    blknum: i32,
    offset: i32,
    oldval: i32,
) -> Seq<u8> {
    spec_i32_to_be(4) + spec_i32_to_be(txnum) + spec_len_prefixed(encode_utf8(file))
        + spec_i32_to_be(blknum) + spec_i32_to_be(offset) + spec_i32_to_be(oldval)
}

/// The encoding of a SETSTRING record: who wrote, where, and the old value.
pub open spec fn spec_setstring_rec(
    txnum: i32,
    file: Seq<char>,
    blknum: i32,
    offset: i32,
    oldval: Seq<char>,
) -> Seq<u8> {
    spec_i32_to_be(5) + spec_i32_to_be(txnum) + spec_len_prefixed(encode_utf8(file))
        + spec_i32_to_be(blknum) + spec_i32_to_be(offset) + spec_len_prefixed(
        encode_utf8(oldval),
    )
}

/// A CHECKPOINT record: recovery scans stop here.
pub struct CheckpointRecord {}

/// A START record: the named transaction began.
pub struct StartRecord {
    pub txnum: i32,
}

/// A COMMIT record: the named transaction is durable.
pub struct CommitRecord {
    pub txnum: i32,
}

/// A ROLLBACK record: the named transaction was undone.
pub struct RollbackRecord {
    pub txnum: i32,
}

/// A SETI32 record: the old integer at (block, offset) before `txnum`
/// overwrote it.
pub struct SetI32Record {
    pub txnum: i32,
    pub offset: i32,
    pub val: i32,
    pub blk: BlockId,
}

/// A SETSTRING record: the old string at (block, offset) before `txnum`
/// overwrote it.
pub struct SetStringRecord {
    pub txnum: i32,
    pub offset: i32,
    pub val: String,
    pub blk: BlockId,
}

/// A decoded log record.
pub enum LogRecord {
    Checkpoint(CheckpointRecord),
    Start(StartRecord),
    Commit(CommitRecord),
    Rollback(RollbackRecord),
    SetI32(SetI32Record),
    SetString(SetStringRecord),
}

impl LogRecord {
    pub open spec fn spec_op(self) -> TxType {
        match self {
            LogRecord::Checkpoint(_) => TxType::CHECKPOINT,
            LogRecord::Start(_) => TxType::START,
            LogRecord::Commit(_) => TxType::COMMIT,
            LogRecord::Rollback(_) => TxType::ROLLBACK,
            LogRecord::SetI32(_) => TxType::SETI32,
            LogRecord::SetString(_) => TxType::SETSTRING,
        }
    }

    pub open spec fn spec_tx_number(self) -> int {
        match self {
            LogRecord::Checkpoint(_) => -1,
            LogRecord::Start(r) => r.txnum as int,
            LogRecord::Commit(r) => r.txnum as int,
            LogRecord::Rollback(r) => r.txnum as int,
            LogRecord::SetI32(r) => r.txnum as int,
            LogRecord::SetString(r) => r.txnum as int,
        }
    }

    pub fn op(&self) -> (r: TxType)
        ensures
            r == self.spec_op(),
    {
        match self {
            LogRecord::Checkpoint(_) => TxType::CHECKPOINT,
            LogRecord::Start(_) => TxType::START,
            LogRecord::Commit(_) => TxType::COMMIT,
            LogRecord::Rollback(_) => TxType::ROLLBACK,
            LogRecord::SetI32(_) => TxType::SETI32,
            LogRecord::SetString(_) => TxType::SETSTRING,
        }
    }

    /// The transaction the record belongs to; -1 for CHECKPOINT, which
    /// belongs to none.
    pub fn tx_number(&self) -> (r: i32)
        ensures
            r as int == self.spec_tx_number(),
    {
        match self {
            LogRecord::Checkpoint(_) => -1,
            LogRecord::Start(r) => r.txnum,
            LogRecord::Commit(r) => r.txnum,
            LogRecord::Rollback(r) => r.txnum,
            LogRecord::SetI32(r) => r.txnum,
            LogRecord::SetString(r) => r.txnum,
        }
    }
}

/// Whether `rec` is one of this kernel's record encodings.
pub open spec fn spec_canonical(rec: Seq<u8>) -> bool {
    ||| rec == spec_checkpoint_rec()
    ||| (exists|t: i32| rec == #[trigger] spec_start_rec(t))
    ||| (exists|t: i32| rec == #[trigger] spec_commit_rec(t))
    ||| (exists|t: i32| rec == #[trigger] spec_rollback_rec(t))
    ||| (exists|t: i32, f: Seq<char>, bn: i32, off: i32, v: i32|
        rec == #[trigger] spec_seti32_rec(t, f, bn, off, v) && encode_utf8(f).len() + 24
            <= i32::MAX && 0 <= bn)
    ||| (exists|t: i32, f: Seq<char>, bn: i32, off: i32, v: Seq<char>|
        rec == #[trigger] spec_setstring_rec(t, f, bn, off, v) && encode_utf8(f).len() + 24
            <= i32::MAX && encode_utf8(v).len() <= i32::MAX && 0 <= bn)
}

/// Whether `rec` is an update record (SETI32 or SETSTRING) of transaction
/// `txnum`: the records rollback undoes.
pub open spec fn spec_is_update_of(rec: Seq<u8>, txnum: i32) -> bool {
    ||| (exists|f: Seq<char>, bn: i32, off: i32, v: i32| rec == #[trigger] spec_seti32_rec(
        txnum,
        f,
        bn,
        off,
        v,
    ))
    ||| (exists|f: Seq<char>, bn: i32, off: i32, v: Seq<char>| rec
        == #[trigger] spec_setstring_rec(txnum, f, bn, off, v))
}

/// Decodes one record from its bytes. Every encoding produced by the
/// `write_to_log` constructors decodes to the record that produced it; a
/// tag outside the known set is refused.
pub fn create_log_record(bytes: Vec<u8>) -> (r: Result<LogRecord, DbError>)
    ensures
        bytes@.len() < 4 ==> r == Err::<LogRecord, DbError>(DbError::BufferSizeExceeded),
        bytes@.len() >= 4 && !(0 <= spec_tag(bytes@) <= 5) ==> r == Err::<LogRecord, DbError>(
            DbError::UnknownLogRecord,
        ),
        bytes@ == spec_checkpoint_rec() ==> (r matches Ok(rec) && rec is Checkpoint),
        forall|t: i32| bytes@ == spec_start_rec(t) ==> (r matches Ok(rec) && (rec matches
            LogRecord::Start(s) && s.txnum == t)),
        forall|t: i32| bytes@ == spec_commit_rec(t) ==> (r matches Ok(rec) && (rec matches
            LogRecord::Commit(s) && s.txnum == t)),
        forall|t: i32| bytes@ == spec_rollback_rec(t) ==> (r matches Ok(rec) && (rec matches
            LogRecord::Rollback(s) && s.txnum == t)),
        forall|t: i32, f: Seq<char>, bn: i32, off: i32, v: i32|
            bytes@ == spec_seti32_rec(t, f, bn, off, v) && encode_utf8(f).len() + 24
                <= i32::MAX && 0 <= bn ==> (r matches Ok(rec) && (rec matches
            LogRecord::SetI32(s) && s.txnum == t && s.blk.spec_file() == f && s.blk.spec_num()
                == bn as u64 && s.offset == off && s.val == v)),
        forall|t: i32, f: Seq<char>, bn: i32, off: i32, v: Seq<char>|
            bytes@ == spec_setstring_rec(t, f, bn, off, v) && encode_utf8(f).len() + 24
                <= i32::MAX && encode_utf8(v).len() <= i32::MAX && 0 <= bn ==> (r matches Ok(
            rec) && (rec matches LogRecord::SetString(s) && s.txnum == t && s.blk.spec_file()
                == f && s.blk.spec_num() == bn as u64 && s.offset == off && s.val@ == v)),
        spec_canonical(bytes@) ==> r is Ok,
        forall|t: i32| spec_canonical(bytes@) && !spec_is_update_of(bytes@, t) ==> (r matches
            Ok(rec) && !((rec matches LogRecord::SetI32(u) && u.txnum == t) || (rec matches
            LogRecord::SetString(u) && u.txnum == t))),
    {
        let p = Page::new_from_bytes(bytes);
        let tag = p.get_i32(0)?;
        proof {
            if p@.len() >= 4 {
                assert(spec_tag(p@) == spec_i32_from_be(p@.subrange(0, 4)));
            }
        }
        if tag == 0 {
            proof {
                lemma_tag_of_encodings(p@);
            }
            Ok(LogRecord::Checkpoint(CheckpointRecord::new(p)))
        } else if tag == 1 {
            proof {
                lemma_tag_of_encodings(p@);
            }
            Ok(LogRecord::Start(StartRecord::new(p)?))
        } else if tag == 2 {
            proof {
                lemma_tag_of_encodings(p@);
            }
            Ok(LogRecord::Commit(CommitRecord::new(p)?))
        } else if tag == 3 {
            proof {
                lemma_tag_of_encodings(p@);
            }
            Ok(LogRecord::Rollback(RollbackRecord::new(p)?))
        } else if tag == 4 {
            proof {
                lemma_tag_of_encodings(p@);
            }
            Ok(LogRecord::SetI32(SetI32Record::new(p)?))
        } else if tag == 5 {
            proof {
                lemma_tag_of_encodings(p@);
            }
            Ok(LogRecord::SetString(SetStringRecord::new(p)?))
        } else {
            proof {
                lemma_tag_of_encodings(p@);
            }
            Err(DbError::UnknownLogRecord)
        }
    }

/// Each record encoding starts with its own tag.
proof fn lemma_tag_of_encodings(b: Seq<u8>)
    ensures
        b == spec_checkpoint_rec() ==> spec_tag(b) == 0,
        forall|t: i32| b == spec_start_rec(t) ==> spec_tag(b) == 1 && b.len() == 8
            && spec_i32_from_be(#[trigger] b.subrange(4, 8)) == t,
        forall|t: i32| b == spec_commit_rec(t) ==> spec_tag(b) == 2 && b.len() == 8
            && spec_i32_from_be(#[trigger] b.subrange(4, 8)) == t,
        forall|t: i32| b == spec_rollback_rec(t) ==> spec_tag(b) == 3 && b.len() == 8
            && spec_i32_from_be(#[trigger] b.subrange(4, 8)) == t,
        forall|t: i32, f: Seq<char>, bn: i32, off: i32, v: i32| b == spec_seti32_rec(
            t, f, bn, off, v,
        ) ==> spec_tag(b) == 4,
        forall|t: i32, f: Seq<char>, bn: i32, off: i32, v: Seq<char>| b == spec_setstring_rec(
            t, f, bn, off, v,
        ) ==> spec_tag(b) == 5,
{
    crate::file::page::lemma_i32_be_roundtrip(0);
    crate::file::page::lemma_i32_be_roundtrip(1);
    crate::file::page::lemma_i32_be_roundtrip(2);
    crate::file::page::lemma_i32_be_roundtrip(3);
    crate::file::page::lemma_i32_be_roundtrip(4);
    crate::file::page::lemma_i32_be_roundtrip(5);
    if b == spec_checkpoint_rec() {
        assert(b.subrange(0, 4) =~= spec_i32_to_be(0));
    }
    assert forall|t: i32| b == spec_start_rec(t) implies spec_tag(b) == 1 && b.len() == 8
        && spec_i32_from_be(#[trigger] b.subrange(4, 8)) == t by {
        assert(b.subrange(0, 4) =~= spec_i32_to_be(1));
        assert(b.subrange(4, 8) =~= spec_i32_to_be(t));
        crate::file::page::lemma_i32_be_roundtrip(t);
    }
    assert forall|t: i32| b == spec_commit_rec(t) implies spec_tag(b) == 2 && b.len() == 8
        && spec_i32_from_be(#[trigger] b.subrange(4, 8)) == t by {
        assert(b.subrange(0, 4) =~= spec_i32_to_be(2));
        assert(b.subrange(4, 8) =~= spec_i32_to_be(t));
        crate::file::page::lemma_i32_be_roundtrip(t);
    }
    assert forall|t: i32| b == spec_rollback_rec(t) implies spec_tag(b) == 3 && b.len() == 8
        && spec_i32_from_be(#[trigger] b.subrange(4, 8)) == t by {
        assert(b.subrange(0, 4) =~= spec_i32_to_be(3));
        assert(b.subrange(4, 8) =~= spec_i32_to_be(t));
        crate::file::page::lemma_i32_be_roundtrip(t);
    }
    assert forall|t: i32, f: Seq<char>, bn: i32, off: i32, v: i32| b == spec_seti32_rec(
        t, f, bn, off, v,
    ) implies spec_tag(b) == 4 by {
        assert(b.subrange(0, 4) =~= spec_i32_to_be(4));
    }
    assert forall|t: i32, f: Seq<char>, bn: i32, off: i32, v: Seq<char>| b
        == spec_setstring_rec(t, f, bn, off, v) implies spec_tag(b) == 5 by {
        assert(b.subrange(0, 4) =~= spec_i32_to_be(5));
    }
}

impl CheckpointRecord {
    pub fn new(p: Page) -> (r: Self) {
        Self {  }
    }

    /// Appends a CHECKPOINT record.
    pub fn write_to_log(fm: &mut FileMgr, lm: &mut LogMgr) -> (r: Result<u64, DbError>)
        requires
            old(lm).inv(*old(fm)),
            old(lm).spec_latest_lsn() < u64::MAX,
            old(fm).spec_blocksize() >= 16,
        ensures
            final(lm).inv(*final(fm)),
            final(lm).spec_logfile() == old(lm).spec_logfile(),
            final(fm).spec_blocksize() == old(fm).spec_blocksize(),
            final(fm).spec_is_new() == old(fm).spec_is_new(),
            forall|m: Seq<char>| m != old(lm).spec_logfile() ==> #[trigger] final(fm).file_of(m)
                == old(fm).file_of(m),
            forall|m: Seq<char>| m != old(lm).spec_logfile() ==> #[trigger] final(fm).has_file(m)
                == old(fm).has_file(m),
            final(lm).spec_latest_lsn() <= old(lm).spec_latest_lsn() + 1,
            old(fm).file_of(old(lm).spec_logfile()).len() + old(fm).spec_blocksize()
                <= usize::MAX ==> r is Ok,
            r matches Ok(lsn) ==> final(lm).spec_records() == seq![spec_checkpoint_rec()] + old(
                lm,
            ).spec_records() && lsn == final(lm).spec_latest_lsn(),
            r is Err ==> final(lm).spec_records() == old(lm).spec_records(),
    {
        let bs = fm.blocksize();
        let mut p = Page::new_from_size(4);
        let _ = p.set_i32(0, 0);
        proof {
            assert(p@ =~= spec_checkpoint_rec());
        }
        lm.append(fm, p.contents())
    }
}

impl StartRecord {
    /// Reads a START record from its page: the transaction number sits after
    /// the tag.
    pub fn new(p: Page) -> (r: Result<Self, DbError>)
        ensures
            p@.len() >= 8 ==> (r matches Ok(rec) && rec.txnum == spec_i32_from_be(
                p@.subrange(4, 8),
            )),
            p@.len() < 8 ==> r is Err,
    {
        let txnum = p.get_i32(4)?;
        Ok(Self { txnum })
    }

    /// Appends a START record for `txnum`.
    pub fn write_to_log(fm: &mut FileMgr, lm: &mut LogMgr, txnum: i32) -> (r: Result<u64, DbError>)
        requires
            old(lm).inv(*old(fm)),
            old(lm).spec_latest_lsn() < u64::MAX,
            old(fm).spec_blocksize() >= 16,
        ensures
            final(lm).inv(*final(fm)),
            final(lm).spec_logfile() == old(lm).spec_logfile(),
            final(fm).spec_blocksize() == old(fm).spec_blocksize(),
            final(fm).spec_is_new() == old(fm).spec_is_new(),
            forall|m: Seq<char>| m != old(lm).spec_logfile() ==> #[trigger] final(fm).file_of(m)
                == old(fm).file_of(m),
            forall|m: Seq<char>| m != old(lm).spec_logfile() ==> #[trigger] final(fm).has_file(m)
                == old(fm).has_file(m),
            final(lm).spec_latest_lsn() <= old(lm).spec_latest_lsn() + 1,
            old(fm).file_of(old(lm).spec_logfile()).len() + old(fm).spec_blocksize()
                <= usize::MAX ==> r is Ok,
            r matches Ok(lsn) ==> final(lm).spec_records() == seq![spec_start_rec(txnum)] + old(
                lm,
            ).spec_records() && lsn == final(lm).spec_latest_lsn(),
            r is Err ==> final(lm).spec_records() == old(lm).spec_records(),
    {
        let mut p = Page::new_from_size(8);
        let _ = p.set_i32(0, 1);
        let _ = p.set_i32(4, txnum);
        proof {
            assert(p@ =~= spec_start_rec(txnum));
        }
        lm.append(fm, p.contents())
    }
}

impl CommitRecord {
    /// Reads a COMMIT record from its page.
    pub fn new(p: Page) -> (r: Result<Self, DbError>)
        ensures
            p@.len() >= 8 ==> (r matches Ok(rec) && rec.txnum == spec_i32_from_be(
                p@.subrange(4, 8),
            )),
            p@.len() < 8 ==> r is Err,
    {
        let txnum = p.get_i32(4)?;
        Ok(Self { txnum })
    }

    /// Appends a COMMIT record for `txnum`.
    pub fn write_to_log(fm: &mut FileMgr, lm: &mut LogMgr, txnum: i32) -> (r: Result<u64, DbError>)
        requires
            old(lm).inv(*old(fm)),
            old(lm).spec_latest_lsn() < u64::MAX,
            old(fm).spec_blocksize() >= 16,
        ensures
            final(lm).inv(*final(fm)),
            final(lm).spec_logfile() == old(lm).spec_logfile(),
            final(fm).spec_blocksize() == old(fm).spec_blocksize(),
            final(fm).spec_is_new() == old(fm).spec_is_new(),
            forall|m: Seq<char>| m != old(lm).spec_logfile() ==> #[trigger] final(fm).file_of(m)
                == old(fm).file_of(m),
            forall|m: Seq<char>| m != old(lm).spec_logfile() ==> #[trigger] final(fm).has_file(m)
                == old(fm).has_file(m),
            final(lm).spec_latest_lsn() <= old(lm).spec_latest_lsn() + 1,
            old(fm).file_of(old(lm).spec_logfile()).len() + old(fm).spec_blocksize()
                <= usize::MAX ==> r is Ok,
            r matches Ok(lsn) ==> final(lm).spec_records() == seq![spec_commit_rec(txnum)] + old(
                lm,
            ).spec_records() && lsn == final(lm).spec_latest_lsn() && lsn == old(
                lm,
            ).spec_latest_lsn() + 1,
            r is Err ==> final(lm).spec_records() == old(lm).spec_records(),
    {
        let mut p = Page::new_from_size(8);
        let _ = p.set_i32(0, 2);
        let _ = p.set_i32(4, txnum);
        proof {
            assert(p@ =~= spec_commit_rec(txnum));
        }
        lm.append(fm, p.contents())
    }
}

impl RollbackRecord {
    /// Reads a ROLLBACK record from its page.
    pub fn new(p: Page) -> (r: Result<Self, DbError>)
        ensures
            p@.len() >= 8 ==> (r matches Ok(rec) && rec.txnum == spec_i32_from_be(
                p@.subrange(4, 8),
            )),
            p@.len() < 8 ==> r is Err,
    {
        let txnum = p.get_i32(4)?;
        Ok(Self { txnum })
    }

    /// Appends a ROLLBACK record for `txnum`.
    pub fn write_to_log(fm: &mut FileMgr, lm: &mut LogMgr, txnum: i32) -> (r: Result<u64, DbError>)
        requires
            old(lm).inv(*old(fm)),
            old(lm).spec_latest_lsn() < u64::MAX,
            old(fm).spec_blocksize() >= 16,
        ensures
            final(lm).inv(*final(fm)),
            final(lm).spec_logfile() == old(lm).spec_logfile(),
            final(fm).spec_blocksize() == old(fm).spec_blocksize(),
            final(fm).spec_is_new() == old(fm).spec_is_new(),
            forall|m: Seq<char>| m != old(lm).spec_logfile() ==> #[trigger] final(fm).file_of(m)
                == old(fm).file_of(m),
            forall|m: Seq<char>| m != old(lm).spec_logfile() ==> #[trigger] final(fm).has_file(m)
                == old(fm).has_file(m),
            final(lm).spec_latest_lsn() <= old(lm).spec_latest_lsn() + 1,
            old(fm).file_of(old(lm).spec_logfile()).len() + old(fm).spec_blocksize()
                <= usize::MAX ==> r is Ok,
            r matches Ok(lsn) ==> final(lm).spec_records() == seq![spec_rollback_rec(txnum)]
                + old(lm).spec_records() && lsn == final(lm).spec_latest_lsn(),
            r is Err ==> final(lm).spec_records() == old(lm).spec_records(),
    {
        let mut p = Page::new_from_size(8);
        let _ = p.set_i32(0, 3);
        let _ = p.set_i32(4, txnum);
        proof {
            assert(p@ =~= spec_rollback_rec(txnum));
        }
        lm.append(fm, p.contents())
    }
}

/// Where each field of a SETI32 encoding sits.
#[verifier::rlimit(100)]
proof fn lemma_seti32_layout(b: Seq<u8>, t: i32, f: Seq<char>, bn: i32, off: i32, v: i32)
    requires
        b == spec_seti32_rec(t, f, bn, off, v),
        encode_utf8(f).len() + 24 <= i32::MAX,
    ensures
        b.len() == 24 + encode_utf8(f).len() as int,
        spec_i32_from_be(b.subrange(4, 8)) == t,
        Page::spec_bytes_in_bounds(b, 8),
        Page::spec_bytes_at(b, 8) == encode_utf8(f),
        vstd::utf8::valid_utf8(Page::spec_bytes_at(b, 8)),
        spec_i32_from_be(b.subrange(12 + encode_utf8(f).len() as int, 16 + encode_utf8(f).len() as int)) == bn,
        spec_i32_from_be(b.subrange(16 + encode_utf8(f).len() as int, 20 + encode_utf8(f).len() as int))
            == off,
        spec_i32_from_be(b.subrange(20 + encode_utf8(f).len() as int, 24 + encode_utf8(f).len() as int)) == v,
{
    let e = encode_utf8(f);
    let flen = e.len() as int;
    crate::file::page::lemma_i32_be_roundtrip(t);
    crate::file::page::lemma_i32_be_roundtrip(bn);
    crate::file::page::lemma_i32_be_roundtrip(off);
    crate::file::page::lemma_i32_be_roundtrip(v);
    crate::file::page::lemma_i32_be_roundtrip(e.len() as i32);
    assert(b.subrange(4, 8) =~= spec_i32_to_be(t));
    assert(b.subrange(8, 12) =~= spec_i32_to_be(e.len() as i32));
    assert(b.subrange(12, 12 + flen) =~= e);
    assert(b.subrange(12 + flen, 16 + flen) =~= spec_i32_to_be(bn));
    assert(b.subrange(16 + flen, 20 + flen) =~= spec_i32_to_be(off));
    assert(b.subrange(20 + flen, 24 + flen) =~= spec_i32_to_be(v));
    vstd::utf8::encode_utf8_valid_utf8(f);
}

/// Where each field of a SETSTRING encoding sits.
#[verifier::rlimit(100)]
proof fn lemma_setstring_layout(b: Seq<u8>, t: i32, f: Seq<char>, bn: i32, off: i32,
    v: Seq<char>)
    requires
        b == spec_setstring_rec(t, f, bn, off, v),
        encode_utf8(f).len() + 24 <= i32::MAX,
        encode_utf8(v).len() <= i32::MAX,
    ensures
        b.len() == 24 + encode_utf8(f).len() as int + encode_utf8(v).len(),
        spec_i32_from_be(b.subrange(4, 8)) == t,
        Page::spec_bytes_in_bounds(b, 8),
        Page::spec_bytes_at(b, 8) == encode_utf8(f),
        vstd::utf8::valid_utf8(Page::spec_bytes_at(b, 8)),
        spec_i32_from_be(b.subrange(12 + encode_utf8(f).len() as int, 16 + encode_utf8(f).len() as int)) == bn,
        spec_i32_from_be(b.subrange(16 + encode_utf8(f).len() as int, 20 + encode_utf8(f).len() as int))
            == off,
        Page::spec_bytes_in_bounds(b, 20 + encode_utf8(f).len() as int),
        Page::spec_bytes_at(b, 20 + encode_utf8(f).len() as int) == encode_utf8(v),
        vstd::utf8::valid_utf8(Page::spec_bytes_at(b, 20 + encode_utf8(f).len() as int)),
{
    let e = encode_utf8(f);
    let ev = encode_utf8(v);
    let flen = e.len() as int;
    crate::file::page::lemma_i32_be_roundtrip(t);
    crate::file::page::lemma_i32_be_roundtrip(bn);
    crate::file::page::lemma_i32_be_roundtrip(off);
    crate::file::page::lemma_i32_be_roundtrip(e.len() as i32);
    crate::file::page::lemma_i32_be_roundtrip(ev.len() as i32);
    assert(b.subrange(4, 8) =~= spec_i32_to_be(t));
    assert(b.subrange(8, 12) =~= spec_i32_to_be(e.len() as i32));
    assert(b.subrange(12, 12 + flen) =~= e);
    assert(b.subrange(12 + flen, 16 + flen) =~= spec_i32_to_be(bn));
    assert(b.subrange(16 + flen, 20 + flen) =~= spec_i32_to_be(off));
    assert(b.subrange(20 + flen, 24 + flen) =~= spec_i32_to_be(ev.len() as i32));
    assert(b.subrange(24 + flen, 24 + flen + ev.len()) =~= ev);
    vstd::utf8::encode_utf8_valid_utf8(f);
    vstd::utf8::encode_utf8_valid_utf8(v);
}

impl SetI32Record {
    /// Reads a SETI32 record from its page: every encoding written by
    /// `write_to_log` reads back as the record that produced it.
    pub fn new(p: Page) -> (r: Result<Self, DbError>)
        ensures
            forall|t: i32, f: Seq<char>, bn: i32, off: i32, v: i32|
                p@ == spec_seti32_rec(t, f, bn, off, v) && encode_utf8(f).len() + 24
                    <= i32::MAX && 0 <= bn ==> (r matches Ok(rec) && rec.txnum == t
                    && rec.blk.spec_file() == f && rec.blk.spec_num() == bn as u64
                    && rec.offset == off && rec.val == v),
    {
        proof {
            assert forall|t: i32, f: Seq<char>, bn: i32, off: i32, v: i32|
                p@ == spec_seti32_rec(t, f, bn, off, v) && encode_utf8(f).len() + 24
                    <= i32::MAX implies (p@.len() == 24 + encode_utf8(f).len() as int
                    && spec_i32_from_be(p@.subrange(4, 8)) == t && Page::spec_bytes_in_bounds(
                    p@,
                    8,
                ) && Page::spec_bytes_at(p@, 8) == encode_utf8(f) && vstd::utf8::valid_utf8(
                    Page::spec_bytes_at(p@, 8),
                ) && spec_i32_from_be(p@.subrange(12 + encode_utf8(f).len() as int, 16 + encode_utf8(f).len() as int)) == bn && spec_i32_from_be(p@.subrange(16 + encode_utf8(f).len() as int, 20
                    + encode_utf8(f).len() as int)) == off && spec_i32_from_be(p@.subrange(
                    20 + encode_utf8(f).len() as int,
                    24 + encode_utf8(f).len() as int,
                )) == v) by {
                lemma_seti32_layout(p@, t, f, bn, off, v);
            }
        }
        let txnum = p.get_i32(4)?;
        let fname = p.get_string(8)?;
        proof {
            assert forall|t: i32, f: Seq<char>, bn: i32, off: i32, v: i32|
                p@ == spec_seti32_rec(t, f, bn, off, v) && encode_utf8(f).len() + 24
                    <= i32::MAX implies fname@ == f && encode_utf8(fname@).len()
                    == encode_utf8(f).len() by {
                vstd::utf8::encode_utf8_decode_utf8(f);
                vstd::utf8::encode_utf8_decode_utf8(fname@);
            }
        }
        let flen = fname.as_str().len();
        let total = p.contents().len();
        if total < 12 || flen > total - 12 {
            return Err(DbError::UnknownLogRecord);
        }
        let bpos = 12 + flen;
        let blknum = p.get_i32(bpos)?;
        let offset = p.get_i32(bpos + 4)?;
        let val = p.get_i32(bpos + 8)?;
        if blknum < 0 {
            return Err(DbError::UnknownLogRecord);
        }
        let blk = BlockId::new(fname.as_str(), blknum as u64);
        Ok(Self { txnum, offset, val, blk })
    }

    /// Appends a SETI32 record carrying the old value at (block, offset).
    /// The record must fit one log block beside its bookkeeping.
    pub fn write_to_log(fm: &mut FileMgr, lm: &mut LogMgr, txnum: i32, blk: &BlockId,
        offset: i32, val: i32) -> (r: Result<u64, DbError>)
        requires
            old(lm).inv(*old(fm)),
            old(lm).spec_latest_lsn() < u64::MAX,
            encode_utf8(blk.spec_file()).len() + 32 <= old(fm).spec_blocksize(),
            blk.spec_num() <= i32::MAX as u64,
        ensures
            final(lm).inv(*final(fm)),
            final(lm).spec_logfile() == old(lm).spec_logfile(),
            final(fm).spec_blocksize() == old(fm).spec_blocksize(),
            final(fm).spec_is_new() == old(fm).spec_is_new(),
            forall|m: Seq<char>| m != old(lm).spec_logfile() ==> #[trigger] final(fm).file_of(m)
                == old(fm).file_of(m),
            forall|m: Seq<char>| m != old(lm).spec_logfile() ==> #[trigger] final(fm).has_file(m)
                == old(fm).has_file(m),
            final(lm).spec_latest_lsn() <= old(lm).spec_latest_lsn() + 1,
            old(fm).file_of(old(lm).spec_logfile()).len() + old(fm).spec_blocksize()
                <= usize::MAX ==> r is Ok,
            r matches Ok(lsn) ==> final(lm).spec_records() == seq![
                spec_seti32_rec(txnum, blk.spec_file(), blk.spec_num() as i32, offset, val),
            ] + old(lm).spec_records() && lsn == final(lm).spec_latest_lsn(),
            r is Err ==> final(lm).spec_records() == old(lm).spec_records(),
    {
        proof {
            lm.lemma_inv_wf(*fm);
        }
        let bs = fm.blocksize();
        let fname = blk.file_name();
        let flen = fname.as_str().len();
        proof {
            assert(flen + 32 <= bs);
        }
        let reclen = 24 + flen;
        let mut p = Page::new_from_size(reclen);
        let _ = p.set_i32(0, 4);
        let _ = p.set_i32(4, txnum);
        let _ = p.set_string(8, fname);
        let bpos = 12 + flen;
        let _ = p.set_i32(bpos, blk.number() as i32);
        let _ = p.set_i32(bpos + 4, offset);
        let _ = p.set_i32(bpos + 8, val);
        proof {
            assert(p@ =~= spec_seti32_rec(txnum, blk.spec_file(), blk.spec_num() as i32, offset,
                val));
        }
        lm.append(fm, p.contents())
    }
}

impl SetStringRecord {
    /// Reads a SETSTRING record from its page: every encoding written by
    /// `write_to_log` reads back as the record that produced it.
    pub fn new(p: Page) -> (r: Result<Self, DbError>)
        ensures
            forall|t: i32, f: Seq<char>, bn: i32, off: i32, v: Seq<char>|
                p@ == spec_setstring_rec(t, f, bn, off, v) && encode_utf8(f).len() + 24
                    <= i32::MAX && encode_utf8(v).len() <= i32::MAX && 0 <= bn ==> (r matches
                Ok(rec) && rec.txnum == t && rec.blk.spec_file() == f && rec.blk.spec_num()
                    == bn as u64 && rec.offset == off && rec.val@ == v),
    {
        proof {
            assert forall|t: i32, f: Seq<char>, bn: i32, off: i32, v: Seq<char>|
                p@ == spec_setstring_rec(t, f, bn, off, v) && encode_utf8(f).len() + 24
                    <= i32::MAX && encode_utf8(v).len() <= i32::MAX implies (p@.len() == 24
                    + encode_utf8(f).len() as int + encode_utf8(v).len() && spec_i32_from_be(
                    p@.subrange(4, 8),
                ) == t && Page::spec_bytes_in_bounds(p@, 8) && Page::spec_bytes_at(p@, 8)
                    == encode_utf8(f) && vstd::utf8::valid_utf8(Page::spec_bytes_at(p@, 8))
                    && spec_i32_from_be(p@.subrange(12 + encode_utf8(f).len() as int, 16 + encode_utf8(f).len() as int)) == bn && spec_i32_from_be(p@.subrange(16 + encode_utf8(f).len() as int, 20
                    + encode_utf8(f).len() as int)) == off && Page::spec_bytes_in_bounds(
                    p@,
                    20 + encode_utf8(f).len() as int,
                ) && Page::spec_bytes_at(p@, 20 + encode_utf8(f).len() as int) == encode_utf8(v)
                    && vstd::utf8::valid_utf8(Page::spec_bytes_at(p@, 20 + encode_utf8(f).len() as int))) by {
                lemma_setstring_layout(p@, t, f, bn, off, v);
            }
        }
        let txnum = p.get_i32(4)?;
        let fname = p.get_string(8)?;
        proof {
            assert forall|t: i32, f: Seq<char>, bn: i32, off: i32, v: Seq<char>|
                p@ == spec_setstring_rec(t, f, bn, off, v) && encode_utf8(f).len() + 24
                    <= i32::MAX && encode_utf8(v).len() <= i32::MAX implies fname@ == f
                    && encode_utf8(fname@).len() == encode_utf8(f).len() by {
                vstd::utf8::encode_utf8_decode_utf8(f);
                vstd::utf8::encode_utf8_decode_utf8(fname@);
            }
        }
        let flen = fname.as_str().len();
        let total = p.contents().len();
        if total < 12 || flen > total - 12 {
            return Err(DbError::UnknownLogRecord);
        }
        let bpos = 12 + flen;
        let blknum = p.get_i32(bpos)?;
        let offset = p.get_i32(bpos + 4)?;
        let val = p.get_string(bpos + 8)?;
        proof {
            assert forall|t: i32, f: Seq<char>, bn: i32, off: i32, v: Seq<char>|
                p@ == spec_setstring_rec(t, f, bn, off, v) && encode_utf8(f).len() + 24
                    <= i32::MAX && encode_utf8(v).len() <= i32::MAX implies val@ == v by {
                vstd::utf8::encode_utf8_decode_utf8(v);
                vstd::utf8::encode_utf8_decode_utf8(val@);
            }
        }
        if blknum < 0 {
            return Err(DbError::UnknownLogRecord);
        }
        let blk = BlockId::new(fname.as_str(), blknum as u64);
        Ok(Self { txnum, offset, val, blk })
    }

    /// Appends a SETSTRING record carrying the old value at (block, offset).
    /// The record must fit one log block beside its bookkeeping.
    pub fn write_to_log(fm: &mut FileMgr, lm: &mut LogMgr, txnum: i32, blk: &BlockId,
        offset: i32, val: String) -> (r: Result<u64, DbError>)
        requires
            old(lm).inv(*old(fm)),
            old(lm).spec_latest_lsn() < u64::MAX,
            encode_utf8(blk.spec_file()).len() + encode_utf8(val@).len() + 32 <= old(
                fm,
            ).spec_blocksize(),
            blk.spec_num() <= i32::MAX as u64,
        ensures
            final(lm).inv(*final(fm)),
            final(lm).spec_logfile() == old(lm).spec_logfile(),
            final(fm).spec_blocksize() == old(fm).spec_blocksize(),
            final(fm).spec_is_new() == old(fm).spec_is_new(),
            forall|m: Seq<char>| m != old(lm).spec_logfile() ==> #[trigger] final(fm).file_of(m)
                == old(fm).file_of(m),
            forall|m: Seq<char>| m != old(lm).spec_logfile() ==> #[trigger] final(fm).has_file(m)
                == old(fm).has_file(m),
            final(lm).spec_latest_lsn() <= old(lm).spec_latest_lsn() + 1,
            old(fm).file_of(old(lm).spec_logfile()).len() + old(fm).spec_blocksize()
                <= usize::MAX ==> r is Ok,
            r matches Ok(lsn) ==> final(lm).spec_records() == seq![
                spec_setstring_rec(txnum, blk.spec_file(), blk.spec_num() as i32, offset, val@),
            ] + old(lm).spec_records() && lsn == final(lm).spec_latest_lsn(),
            r is Err ==> final(lm).spec_records() == old(lm).spec_records(),
    {
        proof {
            lm.lemma_inv_wf(*fm);
        }
        let bs = fm.blocksize();
        let fname = blk.file_name();
        let flen = fname.as_str().len();
        let vlen = val.as_str().len();
        proof {
            assert(flen + vlen + 32 <= bs);
        }
        let reclen = 24 + flen + vlen;
        let mut p = Page::new_from_size(reclen);
        let _ = p.set_i32(0, 5);
        let _ = p.set_i32(4, txnum);
        let _ = p.set_string(8, fname);
        let bpos = 12 + flen;
        let _ = p.set_i32(bpos, blk.number() as i32);
        let _ = p.set_i32(bpos + 4, offset);
        let _ = p.set_string(bpos + 8, val);
        proof {
            assert(p@ =~= spec_setstring_rec(txnum, blk.spec_file(), blk.spec_num() as i32,
                offset, val@));
        }
        lm.append(fm, p.contents())
    }
}

} // verus!
