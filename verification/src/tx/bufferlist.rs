//! The transaction's private pin list: which frames it holds pinned, one
//! entry per pin, so every pin is given back exactly once.

use vstd::prelude::*;
use crate::errors::DbError;
use crate::buffer::manager::BufferMgr;
use crate::file::block_id::BlockId;
use crate::file::manager::FileMgr;
use crate::log::manager::LogMgr;

verus! {

/// How many entries of the pin list point at frame `f`.
pub open spec fn count_idx(l: Seq<(BlockId, usize)>, f: int) -> int
    decreases l.len(),
{
    if l.len() == 0 {
        0
    } else {
        (if l[0].1 == f {
            1int
        } else {
            0int
        }) + count_idx(l.drop_first(), f)
    }
}

proof fn lemma_count_idx_nonneg(l: Seq<(BlockId, usize)>, f: int)
    ensures
        count_idx(l, f) >= 0,
    decreases l.len(),
{
    if l.len() > 0 {
        lemma_count_idx_nonneg(l.drop_first(), f);
    }
}

proof fn lemma_count_idx_at(l: Seq<(BlockId, usize)>, i: int)
    requires
        0 <= i < l.len(),
    ensures
        count_idx(l, l[i].1 as int) >= 1,
    decreases l.len(),
{
    if i > 0 {
        assert(l.drop_first()[i - 1] == l[i]);
        lemma_count_idx_at(l.drop_first(), i - 1);
    } else {
        lemma_count_idx_nonneg(l.drop_first(), l[0].1 as int);
    }
}

proof fn lemma_count_idx_push(l: Seq<(BlockId, usize)>, v: (BlockId, usize), f: int)
    ensures
        count_idx(l.push(v), f) == count_idx(l, f) + (if v.1 == f {
            1int
        } else {
            0int
        }),
    decreases l.len(),
{
    let lp = l.push(v);
    if l.len() == 0 {
        assert(lp[0] == v);
        assert(lp.drop_first() =~= Seq::<(BlockId, usize)>::empty());
        assert(count_idx(lp.drop_first(), f) == 0);
        assert(count_idx(l, f) == 0);
    } else {
        assert(lp[0] == l[0]);
        assert(lp.drop_first() =~= l.drop_first().push(v));
        lemma_count_idx_push(l.drop_first(), v, f);
    }
}

proof fn lemma_count_idx_remove(l: Seq<(BlockId, usize)>, i: int, f: int)
    requires
        0 <= i < l.len(),
    ensures
        count_idx(l.remove(i), f) == count_idx(l, f) - (if l[i].1 == f {
            1int
        } else {
            0int
        }),
    decreases l.len(),
{
    let lr = l.remove(i);
    if i == 0 {
        assert(lr =~= l.drop_first());
    } else {
        assert(lr[0] == l[0]);
        assert(lr.drop_first() =~= l.drop_first().remove(i - 1));
        assert(l.drop_first()[i - 1] == l[i]);
        lemma_count_idx_remove(l.drop_first(), i - 1, f);
    }
}

proof fn lemma_count_idx_zero(l: Seq<(BlockId, usize)>, f: int)
    requires
        count_idx(l, f) == 0,
    ensures
        forall|i: int| 0 <= i < l.len() ==> (#[trigger] l[i]).1 != f,
    decreases l.len(),
{
    if l.len() > 0 {
        lemma_count_idx_nonneg(l.drop_first(), f);
        lemma_count_idx_zero(l.drop_first(), f);
        assert forall|i: int| 0 <= i < l.len() implies (#[trigger] l[i]).1 != f by {
            if i > 0 {
                assert(l.drop_first()[i - 1] == l[i]);
            }
        }
    }
}

/// The pin list: one (block, frame) entry per outstanding pin this
/// transaction took.
pub struct BufferList {
    entries: Vec<(BlockId, usize)>,
}

impl BufferList {
    /// The outstanding pins, in the order they were taken.
    pub closed spec fn spec_entries(self) -> Seq<(BlockId, usize)> {
        self.entries@
    }

    /// Every recorded frame still holds the block it was pinned for, and no
    /// frame carries fewer pins than this list claims of it.
    pub open spec fn inv(self, bm: BufferMgr) -> bool {
        &&& forall|i: int| 0 <= i < self.spec_entries().len() ==> (#[trigger] self.spec_entries()[
            i
        ]).1 < bm.spec_pool().len() && bm.spec_holds(
            self.spec_entries()[i].1 as int,
            self.spec_entries()[i].0,
        )
        &&& forall|f: int| 0 <= f < bm.spec_pool().len() ==> count_idx(self.spec_entries(), f)
            <= (#[trigger] bm.spec_pool()[f]).spec_pins()
    }

    /// Whether this transaction holds a pin on `blk`.
    pub open spec fn spec_pinned(self, blk: BlockId) -> bool {
        exists|i: int| 0 <= i < self.spec_entries().len() && (#[trigger] self.spec_entries()[
            i
        ]).0.spec_same(blk)
    }

    pub fn new() -> (r: Self)
        ensures
            r.spec_entries().len() == 0,
            forall|bm: BufferMgr| #[trigger] r.inv(bm),
            forall|blk: BlockId| !(#[trigger] r.spec_pinned(blk)),
    {
        let r = Self { entries: Vec::new() };
        proof {
            assert forall|bm: BufferMgr| #[trigger] r.inv(bm) by {
                assert forall|f: int| 0 <= f < bm.spec_pool().len() implies count_idx(
                    r.spec_entries(),
                    f,
                ) <= (#[trigger] bm.spec_pool()[f]).spec_pins() by {
                    lemma_count_idx_nonneg(r.spec_entries(), f);
                }
            }
        }
        r
    }

    /// The pin list stays well-formed across pool changes that preserve each
    /// frame's pin count and keep the blocks of pinned frames.
    pub proof fn lemma_inv_preserved(self, bm1: BufferMgr, bm2: BufferMgr)
        requires
            self.inv(bm1),
            bm2.spec_pool().len() == bm1.spec_pool().len(),
            forall|i: int| 0 <= i < bm1.spec_pool().len() ==> (#[trigger] bm2.spec_pool()[
                i
            ]).spec_pins() == bm1.spec_pool()[i].spec_pins(),
            forall|i: int| 0 <= i < bm1.spec_pool().len() && bm1.spec_pool()[i].spec_pins() > 0
                ==> (#[trigger] bm2.spec_pool()[i]).spec_blk() == bm1.spec_pool()[i].spec_blk(),
        ensures
            self.inv(bm2),
    {
        assert forall|i: int| 0 <= i < self.spec_entries().len() implies (
        #[trigger] self.spec_entries()[i]).1 < bm2.spec_pool().len() && bm2.spec_holds(
            self.spec_entries()[i].1 as int,
            self.spec_entries()[i].0,
        ) by {
            let f = self.spec_entries()[i].1 as int;
            lemma_count_idx_at(self.spec_entries(), i);
            assert(count_idx(self.spec_entries(), f) >= 1);
            assert(bm1.spec_pool()[f].spec_pins() > 0);
            assert(bm2.spec_pool()[f].spec_blk() == bm1.spec_pool()[f].spec_blk());
        }
    }

    /// The position of the first pin entry for `blk`, if one exists.
    fn find_entry(&self, blk: &BlockId) -> (r: Option<usize>)
        ensures
            match r {
                Some(i) => i < self.spec_entries().len() && self.spec_entries()[
                    i as int
                ].0.spec_same(*blk) && (forall|j: int| 0 <= j < i ==> !(
                #[trigger] self.spec_entries()[j]).0.spec_same(*blk)),
                None => !self.spec_pinned(*blk),
            },
    {
        let n = self.entries.len();
        let mut i: usize = 0;
        while i < n
            invariant
                i <= n,
                n == self.spec_entries().len(),
                forall|j: int| 0 <= j < i ==> !(#[trigger] self.spec_entries()[j]).0.spec_same(
                    *blk,
                ),
            decreases n - i,
        {
            if self.entries[i].0.eq(blk) {
                return Some(i);
            }
            i = i + 1;
        }
        None
    }

    /// The recorded frame of a pinned block, if any pin is outstanding.
    pub fn get_buffer(&self, blk: &BlockId) -> (r: Option<usize>)
        ensures
            match r {
                Some(idx) => self.spec_pinned(*blk) && (exists|i: int|
                    0 <= i < self.spec_entries().len() && (#[trigger] self.spec_entries()[
                        i
                    ]).0.spec_same(*blk) && self.spec_entries()[i].1 == idx),
                None => !self.spec_pinned(*blk),
            },
    {
        match self.find_entry(blk) {
            Some(i) => Some(self.entries[i].1),
            None => None,
        }
    }

    /// Pins `blk` through the pool and records the pin.
    pub fn pin(&mut self, fm: &mut FileMgr, lm: &mut LogMgr, bm: &mut BufferMgr,
        blk: &BlockId) -> (r: Result<(), DbError>)
        requires
            old(lm).inv(*old(fm)),
            old(bm).inv(*old(fm), *old(lm)),
            old(self).inv(*old(bm)),
            blk.spec_file() != old(lm).spec_logfile(),
            blk.spec_num() < usize::MAX as int / old(fm).spec_blocksize(),
        ensures
            final(lm).inv(*final(fm)),
            final(bm).inv(*final(fm), *final(lm)),
            final(self).inv(*final(bm)),
            final(lm).spec_logfile() == old(lm).spec_logfile(),
            final(lm).spec_records() == old(lm).spec_records(),
            final(lm).spec_latest_lsn() == old(lm).spec_latest_lsn(),
            final(fm).spec_blocksize() == old(fm).spec_blocksize(),
            final(fm).spec_is_new() == old(fm).spec_is_new(),
            final(bm).spec_pool().len() == old(bm).spec_pool().len(),
            final(fm).file_of(old(lm).spec_logfile()).len() == old(fm).file_of(
                old(lm).spec_logfile(),
            ).len(),
            final(lm).spec_durable().len() >= old(lm).spec_durable().len(),
            (r is Ok) <==> ((exists|j: int| 0 <= j < old(bm).spec_pool().len() && #[trigger] old(
                bm,
            ).spec_holds(j, *blk) && old(bm).spec_pool()[j].spec_pins() < u64::MAX) || ((
            forall|j: int| 0 <= j < old(bm).spec_pool().len() ==> !(#[trigger] old(
                bm,
            ).spec_holds(j, *blk))) && (exists|j: int| 0 <= j < old(bm).spec_pool().len() && (
            #[trigger] old(bm).spec_pool()[j]).spec_pins() == 0))),
            r is Ok ==> final(self).spec_pinned(*blk),
            r is Err ==> r == Err::<(), DbError>(DbError::BufferAbort) && *final(self) == *old(self) && *final(bm) == *old(bm) && *final(fm) == *old(fm) && *final(lm) == *old(lm),
    {
        let ghost prepool = bm.spec_pool();
        let idx = match bm.pin(fm, lm, blk) {
            Ok(i) => i,
            Err(e) => {
                return Err(DbError::BufferAbort);
            },
        };
        let ghost pre = self.entries@;
        self.entries.push((blk.clone(), idx));
        proof {
            if !old(bm).spec_holds(idx as int, *blk) {
                // the frame was claimed fresh: nothing pointed at it
                lemma_count_idx_nonneg(pre, idx as int);
                lemma_count_idx_zero(pre, idx as int);
            }
            assert forall|i: int| 0 <= i < self.entries@.len() implies (
            #[trigger] self.entries@[i]).1 < bm.spec_pool().len() && bm.spec_holds(
                self.entries@[i].1 as int,
                self.entries@[i].0,
            ) by {
                if i < pre.len() {
                    assert(self.entries@[i] == pre[i]);
                    if self.entries@[i].1 != idx {
                        assert(bm.spec_pool()[self.entries@[i].1 as int] == prepool[
                            self.entries@[i].1 as int
                        ]);
                    }
                } else {
                    assert(self.entries@[i].1 == idx);
                }
            }
            assert forall|f: int| 0 <= f < bm.spec_pool().len() implies count_idx(
                self.entries@,
                f,
            ) <= (#[trigger] bm.spec_pool()[f]).spec_pins() by {
                lemma_count_idx_push(pre, self.entries@[pre.len() as int], f);
                if f != idx {
                    assert(bm.spec_pool()[f] == prepool[f]);
                }
            }
            assert(self.entries@[pre.len() as int].0.spec_same(*blk));
        }
        Ok(())
    }

    /// Gives back one pin on `blk`: the first recorded entry for it. With no
    /// outstanding pin this does nothing.
    pub fn unpin(&mut self, fm: &FileMgr, lm: &LogMgr, bm: &mut BufferMgr, blk: &BlockId) -> (r:
        Result<(), DbError>)
        requires
            old(bm).inv(*fm, *lm),
            old(self).inv(*old(bm)),
        ensures
            final(bm).inv(*fm, *lm),
            final(self).inv(*final(bm)),
            r == Ok::<(), DbError>(()),
            final(bm).spec_pool().len() == old(bm).spec_pool().len(),
            forall|i: int| 0 <= i < old(bm).spec_pool().len() ==> (#[trigger] final(bm).spec_pool()[i]).spec_blk() == old(bm).spec_pool()[i].spec_blk() && final(bm).spec_pool()[i].spec_page() == old(bm).spec_pool()[i].spec_page() && final(bm).spec_pool()[i].spec_txnum() == old(bm).spec_pool()[i].spec_txnum(),
            // one recorded pin is given back: the frame it named loses one
            !old(self).spec_pinned(*blk) ==> *final(self) == *old(self) && *final(bm) == *old(bm),
            old(self).spec_pinned(*blk) ==> final(self).spec_entries().len() == old(self).spec_entries().len() - 1 && (exists|f: int|
                0 <= f < old(bm).spec_pool().len() && #[trigger] old(bm).spec_holds(f, *blk)
                    && final(bm).spec_pool()[f].spec_pins() == old(bm).spec_pool()[
                    f
                ].spec_pins() - 1 && (forall|j: int| 0 <= j < old(bm).spec_pool().len() && j != f
                    ==> #[trigger] final(bm).spec_pool()[j] == old(bm).spec_pool()[j])),
    {
        let found = self.find_entry(blk);
        let i = match found {
            Some(i) => i,
            None => {
                return Ok(());
            },
        };
        let frame = self.entries[i].1;
        let ghost pre = self.entries@;
        let ghost prebm = *bm;
        let _ = self.entries.remove(i);
        proof {
            lemma_count_idx_at(pre, i as int);
        }
        let _ = bm.unpin(frame);
        proof {
            bm.lemma_inv_after_unpin(prebm, frame as int, *fm, *lm);
            assert forall|j: int| 0 <= j < self.entries@.len() implies (
            #[trigger] self.entries@[j]).1 < bm.spec_pool().len() && bm.spec_holds(
                self.entries@[j].1 as int,
                self.entries@[j].0,
            ) by {
                let orig = if j < i as int {
                    j
                } else {
                    j + 1
                };
                assert(self.entries@[j] == pre[orig]);
                assert(bm.spec_pool()[self.entries@[j].1 as int].spec_blk() == prebm.spec_pool()[
                    self.entries@[j].1 as int
                ].spec_blk());
            }
            assert forall|f: int| 0 <= f < bm.spec_pool().len() implies count_idx(
                self.entries@,
                f,
            ) <= (#[trigger] bm.spec_pool()[f]).spec_pins() by {
                lemma_count_idx_remove(pre, i as int, f);
                if f != frame as int {
                    assert(bm.spec_pool()[f] == prebm.spec_pool()[f]);
                }
            }
            assert(old(bm).spec_holds(frame as int, pre[i as int].0));
            assert(old(bm).spec_holds(frame as int, *blk));
        }
        Ok(())
    }

    /// Gives back every outstanding pin and clears the list.
    pub fn unpin_all(&mut self, fm: &FileMgr, lm: &LogMgr, bm: &mut BufferMgr) -> (r: Result<
        (),
        DbError,
    >)
        requires
            old(bm).inv(*fm, *lm),
            old(self).inv(*old(bm)),
        ensures
            final(bm).inv(*fm, *lm),
            final(self).inv(*final(bm)),
            final(self).spec_entries().len() == 0,
            r == Ok::<(), DbError>(()),
            final(bm).spec_pool().len() == old(bm).spec_pool().len(),
            forall|i: int| 0 <= i < old(bm).spec_pool().len() ==> (#[trigger] final(bm).spec_pool()[i]).spec_blk() == old(bm).spec_pool()[i].spec_blk() && final(bm).spec_pool()[i].spec_page() == old(bm).spec_pool()[i].spec_page() && final(bm).spec_pool()[i].spec_txnum() == old(bm).spec_pool()[i].spec_txnum(),
            // every frame loses exactly the pins this list recorded for it
            forall|f: int| 0 <= f < old(bm).spec_pool().len() ==> (#[trigger] final(bm).spec_pool()[f]).spec_pins() == old(bm).spec_pool()[f].spec_pins() - count_idx(
                old(self).spec_entries(),
                f,
            ),
    {
        while self.entries.len() > 0
            invariant
                bm.inv(*fm, *lm),
                self.inv(*bm),
                bm.spec_pool().len() == old(bm).spec_pool().len(),
                forall|i: int| 0 <= i < old(bm).spec_pool().len() ==> (#[trigger] bm.spec_pool()[
                    i
                ]).spec_blk() == old(bm).spec_pool()[i].spec_blk() && bm.spec_pool()[
                    i
                ].spec_page() == old(bm).spec_pool()[i].spec_page() && bm.spec_pool()[
                    i
                ].spec_txnum() == old(bm).spec_pool()[i].spec_txnum(),
                forall|f: int| 0 <= f < old(bm).spec_pool().len() ==> (#[trigger] bm.spec_pool()[
                    f
                ]).spec_pins() == old(bm).spec_pool()[f].spec_pins() - (count_idx(
                    old(self).spec_entries(),
                    f,
                ) - count_idx(self.spec_entries(), f)),
            decreases self.spec_entries().len(),
        {
            let ghost prelist = self.entries@;
            let entry = match self.entries.pop() {
                Some(e) => e,
                None => {
                    // a nonempty list always pops an entry
                    proof {
                        assert(false);
                    }
                    return Ok(());
                },
            };
            let ghost prebm = *bm;
            proof {
                assert(prelist[prelist.len() - 1] == entry);
                lemma_count_idx_at(prelist, prelist.len() - 1);
            }
            let _ = bm.unpin(entry.1);
            proof {
                bm.lemma_inv_after_unpin(prebm, entry.1 as int, *fm, *lm);
                assert forall|j: int| 0 <= j < self.entries@.len() implies (
                #[trigger] self.entries@[j]).1 < bm.spec_pool().len() && bm.spec_holds(
                    self.entries@[j].1 as int,
                    self.entries@[j].0,
                ) by {
                    assert(self.entries@[j] == prelist[j]);
                    assert(bm.spec_pool()[self.entries@[j].1 as int].spec_blk()
                        == prebm.spec_pool()[self.entries@[j].1 as int].spec_blk());
                }
                assert forall|f: int| 0 <= f < bm.spec_pool().len() implies count_idx(
                    self.entries@,
                    f,
                ) <= (#[trigger] bm.spec_pool()[f]).spec_pins() by {
                    lemma_count_idx_push(self.entries@, entry, f);
                    assert(prelist =~= self.entries@.push(entry));
                    if f != entry.1 as int {
                        assert(bm.spec_pool()[f] == prebm.spec_pool()[f]);
                    }
                }
                assert forall|f: int| 0 <= f < old(bm).spec_pool().len() implies (
                #[trigger] bm.spec_pool()[f]).spec_pins() == old(bm).spec_pool()[f].spec_pins()
                    - (count_idx(old(self).spec_entries(), f) - count_idx(
                    self.spec_entries(),
                    f,
                )) by {
                    lemma_count_idx_push(self.entries@, entry, f);
                    assert(prelist =~= self.entries@.push(entry));
                    if f != entry.1 as int {
                        assert(bm.spec_pool()[f] == prebm.spec_pool()[f]);
                    }
                }
            }
        }
        proof {
            assert forall|f: int| 0 <= f < old(bm).spec_pool().len() implies count_idx(
                self.spec_entries(),
                f,
            ) == 0 by {
                assert(self.spec_entries().len() == 0);
            }
        }
        Ok(())
    }
}

} // verus!
