//! The per-transaction concurrency manager: remembers which locks this
//! transaction holds so it never re-requests them, and releases them all
//! together at commit or rollback (strict two-phase locking).

use vstd::prelude::*;
use crate::errors::DbError;
use crate::tx::concurrency::locktable::{LockTable, LockTableKey};

verus! {

/// The strength of a held lock.
#[derive(Clone, Copy, Debug, PartialEq, Eq, Structural)]
pub enum LockMode {
    S,
    X,
}

/// What this transaction holds for `k`, if anything.
pub open spec fn spec_held(l: Seq<(LockTableKey, LockMode)>, k: LockTableKey) -> Option<
    LockMode,
>
    decreases l.len(),
{
    if l.len() == 0 {
        None
    } else if l[0].0.spec_same(k) {
        Some(l[0].1)
    } else {
        spec_held(l.drop_first(), k)
    }
}

proof fn lemma_held_same(l: Seq<(LockTableKey, LockMode)>, k1: LockTableKey, k2: LockTableKey)
    requires
        k1.spec_same(k2),
        k2.spec_same(k1),
    ensures
        spec_held(l, k1) == spec_held(l, k2),
    decreases l.len(),
{
    if l.len() > 0 {
        if l[0].0.spec_same(k1) {
            crate::tx::concurrency::locktable::lemma_same_keys(l[0].0, k1, k1);
            assert(l[0].0.spec_same(k2));
        }
        if l[0].0.spec_same(k2) {
            assert(l[0].0.spec_same(k1));
        }
        lemma_held_same(l.drop_first(), k1, k2);
    }
}

/// The per-transaction record of held locks.
pub struct ConcurrencyMgr {
    locks: Vec<(LockTableKey, LockMode)>,
}

impl ConcurrencyMgr {
    /// What this transaction holds for `k`.
    pub closed spec fn spec_mode(self, k: LockTableKey) -> Option<LockMode> {
        spec_held(self.locks@, k)
    }

    /// The held keys, in acquisition order.
    pub closed spec fn spec_keys(self) -> Seq<LockTableKey> {
        Seq::new(self.locks@.len(), |i: int| self.locks@[i].0)
    }

    /// No lock is recorded twice: each held lock has one entry.
    pub closed spec fn wf(self) -> bool {
        forall|i: int, j: int| 0 <= i < j < self.locks@.len() ==> !(
        #[trigger] self.locks@[i].0).spec_same(#[trigger] self.locks@[j].0)
    }

    pub fn new() -> (r: Self)
        ensures
            r.wf(),
            forall|k: LockTableKey| #[trigger] r.spec_mode(k) is None,
            r.spec_keys().len() == 0,
    {
        Self { locks: Vec::new() }
    }

    /// Keys that name the same lock are held the same way.
    pub proof fn lemma_mode_same(self, k1: LockTableKey, k2: LockTableKey)
        requires
            k1.spec_same(k2),
            k2.spec_same(k1),
        ensures
            self.spec_mode(k1) == self.spec_mode(k2),
    {
        lemma_held_same(self.locks@, k1, k2);
    }

    /// The index of the entry for `key`, if one exists.
    fn find_key(&self, key: &LockTableKey) -> (r: Option<usize>)
        ensures
            match r {
                Some(i) => i < self.locks@.len() && self.locks@[i as int].0.spec_same(*key)
                    && self.spec_mode(*key) is Some && (forall|j: int| 0 <= j < i ==> !(
                #[trigger] self.locks@[j].0).spec_same(*key)),
                None => self.spec_mode(*key) is None,
            },
    {
        let n = self.locks.len();
        let mut i: usize = 0;
        while i < n
            invariant
                i <= n,
                n == self.locks@.len(),
                forall|j: int| 0 <= j < i ==> !(#[trigger] self.locks@[j].0).spec_same(*key),
            decreases n - i,
        {
            if self.locks[i].0.eq(key) {
                proof {
                    Self::lemma_held_at(self.locks@, i as int, *key);
                }
                return Some(i);
            }
            i = i + 1;
        }
        proof {
            Self::lemma_held_absent(self.locks@, *key);
        }
        None
    }

    proof fn lemma_held_at(l: Seq<(LockTableKey, LockMode)>, i: int, k: LockTableKey)
        requires
            0 <= i < l.len(),
            l[i].0.spec_same(k),
            forall|j: int| 0 <= j < i ==> !(#[trigger] l[j].0).spec_same(k),
        ensures
            spec_held(l, k) == Some(l[i].1),
        decreases l.len(),
    {
        if i > 0 {
            assert(forall|j: int| 0 <= j < l.drop_first().len() ==> l.drop_first()[j] == l[j
                + 1]);
            Self::lemma_held_at(l.drop_first(), i - 1, k);
        }
    }

    proof fn lemma_held_absent(l: Seq<(LockTableKey, LockMode)>, k: LockTableKey)
        requires
            forall|i: int| 0 <= i < l.len() ==> !(#[trigger] l[i].0).spec_same(k),
        ensures
            spec_held(l, k) is None,
        decreases l.len(),
    {
        if l.len() > 0 {
            assert(forall|i: int| 0 <= i < l.drop_first().len() ==> l.drop_first()[i] == l[i
                + 1]);
            Self::lemma_held_absent(l.drop_first(), k);
        }
    }

    proof fn lemma_held_some_exists(l: Seq<(LockTableKey, LockMode)>, k: LockTableKey)
        requires
            spec_held(l, k) is Some,
        ensures
            exists|i: int| 0 <= i < l.len() && (#[trigger] l[i].0).spec_same(k),
        decreases l.len(),
    {
        if l.len() > 0 && !l[0].0.spec_same(k) {
            Self::lemma_held_some_exists(l.drop_first(), k);
            let i = choose|i: int| 0 <= i < l.drop_first().len() && (
            #[trigger] l.drop_first()[i].0).spec_same(k);
            assert(l[i + 1].0.spec_same(k));
        }
    }

    proof fn lemma_held_none_absent(l: Seq<(LockTableKey, LockMode)>, k: LockTableKey)
        requires
            spec_held(l, k) is None,
        ensures
            forall|i: int| 0 <= i < l.len() ==> !(#[trigger] l[i].0).spec_same(k),
        decreases l.len(),
    {
        if l.len() > 0 {
            Self::lemma_held_none_absent(l.drop_first(), k);
            assert forall|i: int| 0 <= i < l.len() implies !(#[trigger] l[i].0).spec_same(
                k,
            ) by {
                if i > 0 {
                    assert(l.drop_first()[i - 1] == l[i]);
                }
            }
        }
    }

    proof fn lemma_held_push(l: Seq<(LockTableKey, LockMode)>, v: (LockTableKey, LockMode),
        k: LockTableKey)
        ensures
            spec_held(l, k) is Some ==> spec_held(l.push(v), k) == spec_held(l, k),
            spec_held(l, k) is None && v.0.spec_same(k) ==> spec_held(l.push(v), k) == Some(
                v.1,
            ),
            spec_held(l, k) is None && !v.0.spec_same(k) ==> spec_held(l.push(v), k) is None,
        decreases l.len(),
    {
        let lp = l.push(v);
        if l.len() == 0 {
            assert(lp[0] == v);
            assert(lp.drop_first() =~= Seq::<(LockTableKey, LockMode)>::empty());
            assert(spec_held(lp.drop_first(), k) is None);
            assert(spec_held(l, k) is None);
        } else {
            assert(lp[0] == l[0]);
            assert(lp.drop_first() =~= l.drop_first().push(v));
            Self::lemma_held_push(l.drop_first(), v, k);
        }
    }

    /// Takes a shared lock on `key` unless this transaction already holds
    /// one (of either strength).
    pub fn s_lock(&mut self, tbl: &mut LockTable, key: &LockTableKey) -> (r: Result<(), DbError>)
        requires
            old(tbl).wf(),
            old(self).wf(),
        ensures
            final(tbl).wf(),
            final(self).wf(),
            old(self).spec_mode(*key) is Some ==> r == Ok::<(), DbError>(()) && *final(self)
                == *old(self) && *final(tbl) == *old(tbl),
            old(self).spec_mode(*key) is None ==> {
                &&& (r is Ok) <==> (0 <= old(tbl).spec_lock_val(*key) < i32::MAX)
                &&& (r is Ok ==> final(self).spec_mode(*key) == Some(LockMode::S) && final(tbl).spec_lock_val(*key) == old(tbl).spec_lock_val(*key) + 1)
                &&& (r is Err ==> r == Err::<(), DbError>(DbError::LockAbort) && *final(self)
                    == *old(self) && *final(tbl) == *old(tbl))
            },
            forall|k2: LockTableKey| !k2.spec_same(*key) && !key.spec_same(k2)
                ==> #[trigger] final(tbl).spec_lock_val(k2) == old(tbl).spec_lock_val(k2),
            forall|k2: LockTableKey| !k2.spec_same(*key) && !key.spec_same(k2)
                ==> #[trigger] final(self).spec_mode(k2) == old(self).spec_mode(k2),
    {
        match self.find_key(key) {
            Some(_) => Ok(()),
            None => {
                match tbl.s_lock(key) {
                    Ok(_) => {
                        let ghost pre = self.locks@;
                        let kc = key.clone();
                        self.locks.push((kc, LockMode::S));
                        proof {
                            assert forall|k2: LockTableKey| true implies #[trigger] spec_held(
                                self.locks@,
                                k2,
                            ) == (if spec_held(pre, k2) is Some {
                                spec_held(pre, k2)
                            } else if key.spec_same(k2) {
                                Some(LockMode::S)
                            } else {
                                None::<LockMode>
                            }) by {
                                Self::lemma_held_push(pre, self.locks@[pre.len() as int], k2);
                            }
                            Self::lemma_held_none_absent(pre, *key);
                            assert(forall|a: int| 0 <= a < pre.len() ==> self.locks@[a]
                                == pre[a]);
                        }
                        Ok(())
                    },
                    Err(e) => Err(e),
                }
            },
        }
    }

    /// Takes the exclusive lock on `key` unless this transaction already
    /// holds it: first a shared lock, then the conservative upgrade.
    pub fn x_lock(&mut self, tbl: &mut LockTable, key: &LockTableKey) -> (r: Result<(), DbError>)
        requires
            old(tbl).wf(),
            old(self).wf(),
        ensures
            final(tbl).wf(),
            final(self).wf(),
            old(self).spec_mode(*key) == Some(LockMode::X) ==> r == Ok::<(), DbError>(())
                && *final(self) == *old(self) && *final(tbl) == *old(tbl),
            r is Ok ==> final(self).spec_mode(*key) == Some(LockMode::X),
            r is Ok && old(self).spec_mode(*key) != Some(LockMode::X) ==> final(tbl).spec_lock_val(*key) == -1,
            r is Err ==> r == Err::<(), DbError>(DbError::LockAbort),
            // a failed request never upgrades the recorded mode
            r is Err ==> final(self).spec_mode(*key) != Some(LockMode::X),
            // lock safety: a transaction holding nothing on the key gets the
            // exclusive lock exactly when nobody holds anything on it, and a
            // shared holder upgrades exactly when it is the only one
            old(self).spec_mode(*key) is None ==> ((r is Ok) <==> old(tbl).spec_lock_val(*key)
                == 0),
            old(self).spec_mode(*key) == Some(LockMode::S) ==> ((r is Ok) <==> old(
                tbl,
            ).spec_lock_val(*key) < 2),
            forall|k2: LockTableKey| !k2.spec_same(*key) && !key.spec_same(k2)
                ==> #[trigger] final(tbl).spec_lock_val(k2) == old(tbl).spec_lock_val(k2),
            forall|k2: LockTableKey| !k2.spec_same(*key) && !key.spec_same(k2)
                ==> #[trigger] final(self).spec_mode(k2) == old(self).spec_mode(k2),
    {
        if !self.has_x_lock(key) {
            let r1 = self.s_lock(tbl, key);
            if r1.is_err() {
                return Err(DbError::LockAbort);
            }
            let r2 = tbl.x_lock(key);
            if r2.is_err() {
                return Err(DbError::LockAbort);
            }
            self.promote(key);
            Ok(())
        } else {
            Ok(())
        }
    }

    /// Rewrites the first entry for `key` to the exclusive strength.
    fn promote(&mut self, key: &LockTableKey)
        requires
            old(self).wf(),
        ensures
            final(self).wf(),
            final(self).spec_mode(*key) == (if old(self).spec_mode(*key) is Some {
                Some(LockMode::X)
            } else {
                None::<LockMode>
            }),
            forall|k2: LockTableKey| !k2.spec_same(*key) && !key.spec_same(k2)
                ==> #[trigger] final(self).spec_mode(k2) == old(self).spec_mode(k2),
    {
        let ghost pre = self.locks@;
        match self.find_key(key) {
            Some(i) => {
                let kc = self.locks[i].0.clone();
                let _ = self.locks.remove(i);
                self.locks.insert(i, (kc, LockMode::X));
                proof {
                    assert(self.locks@ =~= pre.update(i as int, self.locks@[i as int]));
                    assert(self.locks@[i as int].0 == pre[i as int].0);
                    Self::lemma_held_update(pre, i as int, self.locks@[i as int], *key);
                    assert forall|k2: LockTableKey| !k2.spec_same(*key) && !key.spec_same(k2)
                        implies #[trigger] spec_held(self.locks@, k2) == spec_held(pre, k2) by {
                        Self::lemma_held_update(pre, i as int, self.locks@[i as int], k2);
                        if pre[i as int].0.spec_same(k2) {
                            crate::tx::concurrency::locktable::lemma_same_keys(
                                pre[i as int].0,
                                *key,
                                k2,
                            );
                        }
                    }
                }
            },
            None => {},
        }
    }

    proof fn lemma_held_update(l: Seq<(LockTableKey, LockMode)>, i: int,
        v: (LockTableKey, LockMode), k: LockTableKey)
        requires
            0 <= i < l.len(),
            v.0 == l[i].0,
        ensures
            spec_held(l.update(i, v), k) == (if l[i].0.spec_same(k) && (forall|j: int| 0 <= j < i
                ==> !(#[trigger] l[j].0).spec_same(k)) {
                Some(v.1)
            } else {
                spec_held(l, k)
            }),
        decreases l.len(),
    {
        let lu = l.update(i, v);
        if i == 0 {
            assert(lu[0] == v);
            assert(lu.drop_first() =~= l.drop_first());
        } else {
            assert(lu[0] == l[0]);
            assert(lu.drop_first() =~= l.drop_first().update(i - 1, v));
            assert(l.drop_first()[i - 1] == l[i]);
            assert(forall|j: int| 0 <= j < l.drop_first().len() ==> l.drop_first()[j] == l[j
                + 1]);
            Self::lemma_held_update(l.drop_first(), i - 1, v, k);
            if l[0].0.spec_same(k) {
                assert(!(forall|j: int| 0 <= j < i ==> !(#[trigger] l[j].0).spec_same(k))) by {
                    assert(l[0].0.spec_same(k));
                }
            } else {
                assert((forall|j: int| 0 <= j < i ==> !(#[trigger] l[j].0).spec_same(k)) == (
                forall|j: int| 0 <= j < i - 1 ==> !(#[trigger] l.drop_first()[j].0).spec_same(
                    k,
                ))) by {
                    if (forall|j: int| 0 <= j < i - 1 ==> !(
                    #[trigger] l.drop_first()[j].0).spec_same(k)) {
                        assert forall|j: int| 0 <= j < i implies !(
                        #[trigger] l[j].0).spec_same(k) by {
                            if j > 0 {
                                assert(l.drop_first()[j - 1].0 == l[j].0);
                            }
                        }
                    }
                }
            }
        }
    }

    /// Whether this transaction already holds the exclusive lock on `key`.
    pub fn has_x_lock(&self, key: &LockTableKey) -> (r: bool)
        ensures
            r == (self.spec_mode(*key) == Some(LockMode::X)),
    {
        let n = self.locks.len();
        let mut i: usize = 0;
        while i < n
            invariant
                i <= n,
                n == self.locks@.len(),
                forall|j: int| 0 <= j < i ==> !(#[trigger] self.locks@[j].0).spec_same(*key),
            decreases n - i,
        {
            if self.locks[i].0.eq(key) {
                proof {
                    Self::lemma_held_at(self.locks@, i as int, *key);
                }
                return match self.locks[i].1 {
                    LockMode::X => true,
                    LockMode::S => false,
                };
            }
            i = i + 1;
        }
        proof {
            Self::lemma_held_absent(self.locks@, *key);
        }
        false
    }

    /// Releases every lock this transaction holds and forgets them: the end
    /// of the two-phase discipline.
    pub fn release(&mut self, tbl: &mut LockTable) -> (r: Result<(), DbError>)
        requires
            old(tbl).wf(),
            old(self).wf(),
        ensures
            final(tbl).wf(),
            final(self).wf(),
            r == Ok::<(), DbError>(()),
            forall|k: LockTableKey| #[trigger] final(self).spec_mode(k) is None,
            // strict two-phase locking ends here: each held lock is given
            // back exactly once, every other key is untouched
            forall|k: LockTableKey| #[trigger] final(tbl).spec_lock_val(k) == (
            if old(self).spec_mode(k) is Some {
                if old(tbl).spec_lock_val(k) > 1 {
                    old(tbl).spec_lock_val(k) - 1
                } else {
                    0int
                }
            } else {
                old(tbl).spec_lock_val(k)
            }),
    {
        let n = self.locks.len();
        let ghost el = self.locks@;
        let mut i: usize = 0;
        while i < n
            invariant
                i <= n,
                n == self.locks@.len(),
                self.locks@ == el,
                el == old(self).locks@,
                old(self).wf(),
                tbl.wf(),
                forall|k: LockTableKey| (exists|j: int| 0 <= j < i && (#[trigger] el[
                    j
                ].0).spec_same(k)) ==> #[trigger] tbl.spec_lock_val(k) == (if old(
                    tbl,
                ).spec_lock_val(k) > 1 {
                    old(tbl).spec_lock_val(k) - 1
                } else {
                    0int
                }),
                forall|k: LockTableKey| (forall|j: int| 0 <= j < i ==> !(#[trigger] el[
                    j
                ].0).spec_same(k)) ==> #[trigger] tbl.spec_lock_val(k) == old(
                    tbl,
                ).spec_lock_val(k),
            decreases n - i,
        {
            let key = self.locks[i].0.clone();
            let ghost pretbl = *tbl;
            let _ = tbl.unlock(&key);
            proof {
                // this key had not been unlocked yet: no earlier entry names
                // the same lock
                assert(pretbl.spec_lock_val(el[i as int].0) == old(tbl).spec_lock_val(
                    el[i as int].0,
                )) by {
                    assert forall|j: int| 0 <= j < i implies !(#[trigger] el[j].0).spec_same(
                        el[i as int].0,
                    ) by {}
                }
                assert forall|k: LockTableKey| (exists|j: int| 0 <= j < i + 1 && (
                #[trigger] el[j].0).spec_same(k)) implies #[trigger] tbl.spec_lock_val(k) == (
                if old(tbl).spec_lock_val(k) > 1 {
                    old(tbl).spec_lock_val(k) - 1
                } else {
                    0int
                }) by {
                    let j = choose|j: int| 0 <= j < i + 1 && (#[trigger] el[j].0).spec_same(k);
                    if j < i as int {
                        // released earlier; this step's unlock names another
                        // lock, so the value stands
                        if el[i as int].0.spec_same(k) {
                            crate::tx::concurrency::locktable::lemma_same_keys2(
                                el[j].0,
                                el[i as int].0,
                                k,
                            );
                            assert(false);
                        }
                        assert(k.spec_same(el[j].0)) by {
                            crate::tx::concurrency::locktable::lemma_same_keys(el[j].0, k, k);
                        }
                        if k.spec_same(el[i as int].0) {
                            crate::tx::concurrency::locktable::lemma_same_keys(
                                k,
                                el[j].0,
                                el[i as int].0,
                            );
                            assert(false);
                        }
                    } else {
                        // released by this very step
                        pretbl.lemma_val_same(k, el[i as int].0);
                        tbl.lemma_val_same(k, el[i as int].0);
                        old(tbl).lemma_val_same(k, el[i as int].0);
                        assert(k.spec_same(el[i as int].0)) by {
                            crate::tx::concurrency::locktable::lemma_same_keys(
                                el[i as int].0,
                                k,
                                k,
                            );
                        }
                    }
                }
                assert forall|k: LockTableKey| (forall|j: int| 0 <= j < i + 1 ==> !(
                #[trigger] el[j].0).spec_same(k)) implies #[trigger] tbl.spec_lock_val(k)
                    == old(tbl).spec_lock_val(k) by {
                    if k.spec_same(el[i as int].0) {
                        crate::tx::concurrency::locktable::lemma_same_keys(k, el[i as int].0,
                            el[i as int].0);
                        assert(el[i as int].0.spec_same(k)) by {
                            crate::tx::concurrency::locktable::lemma_same_keys(
                                k,
                                el[i as int].0,
                                el[i as int].0,
                            );
                        }
                        assert(false);
                    }
                }
            }
            i = i + 1;
        }
        self.locks.clear();
        proof {
            assert forall|k: LockTableKey| true implies #[trigger] spec_held(self.locks@, k)
                is None by {
                Self::lemma_held_absent(self.locks@, k);
            }
            assert forall|k: LockTableKey| true implies #[trigger] tbl.spec_lock_val(k) == (
            if spec_held(el, k) is Some {
                if old(tbl).spec_lock_val(k) > 1 {
                    old(tbl).spec_lock_val(k) - 1
                } else {
                    0int
                }
            } else {
                old(tbl).spec_lock_val(k)
            }) by {
                if spec_held(el, k) is Some {
                    Self::lemma_held_some_exists(el, k);
                } else {
                    Self::lemma_held_none_absent(el, k);
                }
            }
        }
        Ok(())
    }
}


/// How the shared table accounts for what two transactions hold on one key:
/// shared holds are each counted, and an exclusive hold shuts the other
/// transaction out entirely.
pub open spec fn accounted_pair(
    tbl: LockTable,
    c1: ConcurrencyMgr,
    c2: ConcurrencyMgr,
    k: LockTableKey,
) -> bool {
    match (c1.spec_mode(k), c2.spec_mode(k)) {
        (Some(LockMode::X), m2) => tbl.spec_lock_val(k) == -1 && m2 is None,
        (m1, Some(LockMode::X)) => tbl.spec_lock_val(k) == -1 && m1 is None,
        (Some(LockMode::S), Some(LockMode::S)) => tbl.spec_lock_val(k) >= 2,
        (Some(LockMode::S), None) => tbl.spec_lock_val(k) >= 1,
        (None, Some(LockMode::S)) => tbl.spec_lock_val(k) >= 1,
        (None, None) => true,
    }
}

/// Lock safety: where the table accounts for two transactions, they never
/// both hold the exclusive lock on a key, and an exclusive hold is never
/// beside the other transaction's shared hold.
pub proof fn lemma_lock_exclusion(
    tbl: LockTable,
    c1: ConcurrencyMgr,
    c2: ConcurrencyMgr,
    k: LockTableKey,
)
    requires
        accounted_pair(tbl, c1, c2, k),
    ensures
        !(c1.spec_mode(k) == Some(LockMode::X) && c2.spec_mode(k) is Some),
        !(c2.spec_mode(k) == Some(LockMode::X) && c1.spec_mode(k) is Some),
{
}

/// Lock safety is preserved when one of the accounted transactions takes a
/// shared lock: the hypotheses are what a successful `s_lock` on `key`
/// ensures, and the table then accounts for the new state on every key.
pub proof fn lemma_accounted_after_s_lock(
    tbl1: LockTable,
    tbl2: LockTable,
    c1a: ConcurrencyMgr,
    c1b: ConcurrencyMgr,
    c2: ConcurrencyMgr,
    key: LockTableKey,
)
    requires
        forall|k: LockTableKey| #[trigger] accounted_pair(tbl1, c1a, c2, k),
        c1a.spec_mode(key) is Some ==> c1b == c1a && tbl2 == tbl1,
        c1a.spec_mode(key) is None ==> 0 <= tbl1.spec_lock_val(key) && c1b.spec_mode(key)
            == Some(LockMode::S) && tbl2.spec_lock_val(key) == tbl1.spec_lock_val(key) + 1,
        forall|k2: LockTableKey| !k2.spec_same(key) && !key.spec_same(k2)
            ==> #[trigger] tbl2.spec_lock_val(k2) == tbl1.spec_lock_val(k2),
        forall|k2: LockTableKey| !k2.spec_same(key) && !key.spec_same(k2)
            ==> #[trigger] c1b.spec_mode(k2) == c1a.spec_mode(k2),
    ensures
        forall|k: LockTableKey| #[trigger] accounted_pair(tbl2, c1b, c2, k),
{
    assert forall|k: LockTableKey| #[trigger] accounted_pair(tbl2, c1b, c2, k) by {
        assert(accounted_pair(tbl1, c1a, c2, k));
        if c1a.spec_mode(key) is Some {
        } else if !k.spec_same(key) && !key.spec_same(k) {
        } else {
            assert(accounted_pair(tbl1, c1a, c2, key));
            tbl1.lemma_val_same(k, key);
            tbl2.lemma_val_same(k, key);
            c1a.lemma_mode_same(k, key);
            c1b.lemma_mode_same(k, key);
            c2.lemma_mode_same(k, key);
        }
    }
}

/// Lock safety is preserved when one of the accounted transactions takes the
/// exclusive lock: the hypotheses are what a successful `x_lock` on `key`
/// ensures — in particular that nothing else was held on the key — and the
/// table then accounts for the new state on every key.
pub proof fn lemma_accounted_after_x_lock(
    tbl1: LockTable,
    tbl2: LockTable,
    c1a: ConcurrencyMgr,
    c1b: ConcurrencyMgr,
    c2: ConcurrencyMgr,
    key: LockTableKey,
)
    requires
        forall|k: LockTableKey| #[trigger] accounted_pair(tbl1, c1a, c2, k),
        c1a.spec_mode(key) == Some(LockMode::X) ==> c1b == c1a && tbl2 == tbl1,
        c1a.spec_mode(key) is None ==> tbl1.spec_lock_val(key) == 0 && c1b.spec_mode(key)
            == Some(LockMode::X) && tbl2.spec_lock_val(key) == -1,
        c1a.spec_mode(key) == Some(LockMode::S) ==> tbl1.spec_lock_val(key) < 2
            && c1b.spec_mode(key) == Some(LockMode::X) && tbl2.spec_lock_val(key) == -1,
        forall|k2: LockTableKey| !k2.spec_same(key) && !key.spec_same(k2)
            ==> #[trigger] tbl2.spec_lock_val(k2) == tbl1.spec_lock_val(k2),
        forall|k2: LockTableKey| !k2.spec_same(key) && !key.spec_same(k2)
            ==> #[trigger] c1b.spec_mode(k2) == c1a.spec_mode(k2),
    ensures
        forall|k: LockTableKey| #[trigger] accounted_pair(tbl2, c1b, c2, k),
{
    assert forall|k: LockTableKey| #[trigger] accounted_pair(tbl2, c1b, c2, k) by {
        assert(accounted_pair(tbl1, c1a, c2, k));
        if c1a.spec_mode(key) == Some(LockMode::X) {
        } else if !k.spec_same(key) && !key.spec_same(k) {
        } else {
            assert(accounted_pair(tbl1, c1a, c2, key));
            tbl1.lemma_val_same(k, key);
            tbl2.lemma_val_same(k, key);
            c1a.lemma_mode_same(k, key);
            c1b.lemma_mode_same(k, key);
            c2.lemma_mode_same(k, key);
        }
    }
}

} // verus!
